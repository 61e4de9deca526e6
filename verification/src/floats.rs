//! The syntax of 64-bit float literals, as std documents it for
//! `str::parse`: an optional sign, then `inf`, `infinity`, `nan` (any
//! case), or a decimal mantissa with an optional exponent.  The data model
//! carries a float as this literal text; only the engine bridge ever turns
//! it into a machine float, inside its trusted wrappers.

use vstd::prelude::*;

use crate::text::{all_digits, is_digit, lemma_scan_for, scan_for};

verus! {

/// `c` lowered to lower case, for ASCII letters.
pub open spec fn lower(c: char) -> char {
    if 'A' <= c && c <= 'Z' {
        (((c as u32) + 32) as u8) as char
    } else {
        c
    }
}

/// `s` lowered to lower case.
pub open spec fn lowered(s: Seq<char>) -> Seq<char> {
    s.map_values(|c: char| lower(c))
}

/// `s` without its optional leading sign.
pub open spec fn sign_stripped(s: Seq<char>) -> Seq<char> {
    if s.len() > 0 && (s[0] == '+' || s[0] == '-') {
        s.drop_first()
    } else {
        s
    }
}

/// Whether `m` is a float mantissa: digits, or digits around one point
/// with at least one digit on one side.
pub open spec fn is_mantissa(m: Seq<char>) -> bool {
    let dot = scan_for(m, 0, '.');
    if dot == m.len() {
        m.len() > 0 && all_digits(m)
    } else {
        let before = m.take(dot);
        let after = m.skip(dot + 1);
        all_digits(before) && all_digits(after) && (before.len() > 0 || after.len() > 0)
    }
}

/// Whether `t` is an exponent tail: an optional sign, then digits.
pub open spec fn is_exp_tail(t: Seq<char>) -> bool {
    sign_stripped(t).len() > 0 && all_digits(sign_stripped(t))
}

/// Whether `b` (lowered, sign stripped) is a float body.
pub open spec fn is_float_body(b: Seq<char>) -> bool {
    ||| b == seq!['i', 'n', 'f']
    ||| b == seq!['i', 'n', 'f', 'i', 'n', 'i', 't', 'y']
    ||| b == seq!['n', 'a', 'n']
    ||| {
        let e = scan_for(b, 0, 'e');
        if e == b.len() {
            is_mantissa(b)
        } else {
            is_mantissa(b.take(e)) && is_exp_tail(b.skip(e + 1))
        }
    }
}

/// Whether `s` reads as a 64-bit float, by the grammar std documents for
/// `str::parse`: when it holds, the engine bridge's number parse accepts
/// the text.
pub open spec fn is_float_syntax(s: Seq<char>) -> bool {
    is_float_body(sign_stripped(lowered(s)))
}

/// Whether the characters of `v` in `[from, to)`, lowered, are all digits.
fn digits_range(v: &Vec<char>, from: usize, to: usize) -> (b: bool)
    requires
        from <= to <= v@.len(),
    ensures
        b == all_digits(v@.subrange(from as int, to as int)),
{
    let ghost sub = v@.subrange(from as int, to as int);
    let mut i: usize = from;
    while i < to
        invariant
            from <= i <= to <= v@.len(),
            sub == v@.subrange(from as int, to as int),
            forall|j: int| 0 <= j < i - from ==> is_digit(#[trigger] sub[j]),
        decreases to - i,
    {
        let c = v[i];
        let code: u32 = c as u32;
        if code < 48 || code > 57 {
            proof {
                assert(sub[i - from] == v@[i as int]);
                assert(!is_digit(sub[i - from]));
            }
            return false;
        }
        proof {
            assert(sub[i - from] == v@[i as int]);
        }
        i += 1;
    }
    true
}

/// The lowered characters of `v`.
fn lower_chars(v: &Vec<char>) -> (r: Vec<char>)
    ensures
        r@ == lowered(v@),
{
    let mut r: Vec<char> = Vec::new();
    let mut i: usize = 0;
    while i < v.len()
        invariant
            i <= v@.len(),
            r@ == lowered(v@).take(i as int),
        decreases v@.len() - i,
    {
        let c = v[i];
        let code: u32 = c as u32;
        let lc = if c >= 'A' && c <= 'Z' {
            proof {
                assert(65 <= code && code <= 90);
            }
            ((code + 32) as u8) as char
        } else {
            c
        };
        proof {
            assert(lc == lower(v@[i as int]));
            assert(lowered(v@).take(i + 1) =~= lowered(v@).take(i as int).push(
                lower(v@[i as int]),
            ));
        }
        r.push(lc);
        i += 1;
    }
    proof {
        assert(lowered(v@).take(v@.len() as int) =~= lowered(v@));
    }
    r
}

/// Whether the characters of `v` read as a 64-bit float literal.
pub fn float_syntax_chars(v: &Vec<char>) -> (b: bool)
    ensures
        b == is_float_syntax(v@),
{
    let low = lower_chars(v);
    let ghost lw = lowered(v@);
    let n = low.len();
    let start: usize = if n > 0 && (low[0] == '+' || low[0] == '-') {
        1
    } else {
        0
    };
    let ghost body = sign_stripped(lw);
    proof {
        assert(body =~= lw.skip(start as int));
    }
    // the three named specials
    if n - start == 3 && low[start] == 'i' && low[start + 1] == 'n' && low[start + 2] == 'f' {
        proof {
            assert(body =~= seq!['i', 'n', 'f']);
        }
        return true;
    }
    if n - start == 8 && low[start] == 'i' && low[start + 1] == 'n' && low[start + 2] == 'f'
        && low[start + 3] == 'i' && low[start + 4] == 'n' && low[start + 5] == 'i' && low[start
        + 6] == 't' && low[start + 7] == 'y' {
        proof {
            assert(body =~= seq!['i', 'n', 'f', 'i', 'n', 'i', 't', 'y']);
        }
        return true;
    }
    if n - start == 3 && low[start] == 'n' && low[start + 1] == 'a' && low[start + 2] == 'n' {
        proof {
            assert(body =~= seq!['n', 'a', 'n']);
        }
        return true;
    }
    proof {
        if body == seq!['i', 'n', 'f'] || body == seq!['i', 'n', 'f', 'i', 'n', 'i', 't', 'y']
            || body == seq!['n', 'a', 'n'] {
            assert(false);
        }
    }
    // number: mantissa, optionally 'e' and an exponent tail
    let mut e: usize = start;
    while e < n && low[e] != 'e'
        invariant
            start <= e <= n,
            n == lw.len(),
            low@ == lw,
            forall|j: int| start <= j < e ==> lw[j] != 'e',
        decreases n - e,
    {
        e += 1;
    }
    proof {
        lemma_scan_for(body, 0, 'e');
        assert(scan_for(body, 0, 'e') == e - start) by {
            assert(forall|j: int| 0 <= j < e - start ==> #[trigger] body[j] != 'e');
            if scan_for(body, 0, 'e') < e - start {
                assert(body[scan_for(body, 0, 'e')] == 'e');
            } else if e < n && (e - start) < scan_for(body, 0, 'e') {
                assert(body[e - start] != 'e');
                assert(body[e - start] == lw[e as int]);
            }
        }
    }
    let mantissa_ok = mantissa_range(&low, start, e);
    proof {
        assert(lw.subrange(start as int, e as int) =~= body.take(e - start));
        if e == n {
            assert(body.take(e - start) =~= body);
        }
    }
    if e == n {
        return mantissa_ok;
    }
    if !mantissa_ok {
        return false;
    }
    // exponent tail
    let tstart: usize = if e + 1 < n && (low[e + 1] == '+' || low[e + 1] == '-') {
        e + 2
    } else {
        e + 1
    };
    let ghost tail = body.skip(e - start + 1);
    proof {
        assert(tail =~= lw.skip(e + 1));
        assert(sign_stripped(tail) =~= lw.skip(tstart as int));
        assert(lw.skip(tstart as int) =~= lw.subrange(tstart as int, n as int));
    }
    if tstart >= n {
        proof {
            assert(sign_stripped(tail).len() == 0);
        }
        return false;
    }
    let r = digits_range(&low, tstart, n);
    proof {
        assert(sign_stripped(tail) =~= lw.subrange(tstart as int, n as int));
    }
    r
}

/// Whether the characters of `v` in `[from, to)` form a mantissa.
fn mantissa_range(v: &Vec<char>, from: usize, to: usize) -> (b: bool)
    requires
        from <= to <= v@.len(),
    ensures
        b == is_mantissa(v@.subrange(from as int, to as int)),
{
    let ghost m = v@.subrange(from as int, to as int);
    let mut dot: usize = from;
    while dot < to && v[dot] != '.'
        invariant
            from <= dot <= to <= v@.len(),
            m == v@.subrange(from as int, to as int),
            forall|j: int| 0 <= j < dot - from ==> #[trigger] m[j] != '.',
        decreases to - dot,
    {
        proof {
            assert(m[dot - from] == v@[dot as int]);
        }
        dot += 1;
    }
    proof {
        lemma_scan_for(m, 0, '.');
        assert(scan_for(m, 0, '.') == dot - from) by {
            if scan_for(m, 0, '.') < dot - from {
                assert(m[scan_for(m, 0, '.')] == '.');
            } else if dot < to && (dot - from) < scan_for(m, 0, '.') {
                assert(m[dot - from] == v@[dot as int]);
            }
        }
    }
    if dot == to {
        proof {
            assert(m.take(dot - from) =~= m);
        }
        if to == from {
            return false;
        }
        return digits_range(v, from, to);
    }
    let before_ok = digits_range(v, from, dot);
    let after_ok = digits_range(v, dot + 1, to);
    proof {
        assert(m.take(dot - from) =~= v@.subrange(from as int, dot as int));
        assert(m.skip(dot - from + 1) =~= v@.subrange(dot + 1 as int, to as int));
    }
    before_ok && after_ok && (dot > from || dot + 1 < to)
}


/// A float literal can only open with a sign, a digit, a point, or the
/// first letter of `inf` or `nan` in either case.
pub proof fn lemma_float_first_char(s: Seq<char>)
    requires
        is_float_syntax(s),
    ensures
        s.len() > 0,
        s[0] == '+' || s[0] == '-' || is_digit(s[0]) || s[0] == '.' || s[0] == 'i' || s[0] == 'I'
            || s[0] == 'n' || s[0] == 'N',
{
    let lw = lowered(s);
    let body = sign_stripped(lw);
    assert(lw.len() == s.len());
    if lw.len() > 0 && (lw[0] == '+' || lw[0] == '-') {
        assert(lw[0] == lower(s[0]));
        assert(s[0] == '+' || s[0] == '-');
    } else {
        if body == seq!['i', 'n', 'f'] || body == seq!['i', 'n', 'f', 'i', 'n', 'i', 't', 'y'] {
            assert(body[0] == 'i');
            assert(lower(s[0]) == 'i');
            assert(s[0] == 'i' || s[0] == 'I');
        } else if body == seq!['n', 'a', 'n'] {
            assert(lower(s[0]) == 'n');
            assert(s[0] == 'n' || s[0] == 'N');
        } else {
            let e = scan_for(body, 0, 'e');
            lemma_scan_for(body, 0, 'e');
            let m = if e == body.len() { body } else { body.take(e) };
            assert(is_mantissa(m));
            let dot = scan_for(m, 0, '.');
            lemma_scan_for(m, 0, '.');
            assert(m.len() > 0);
            if dot == m.len() {
                assert(is_digit(m[0]));
            } else if dot == 0 {
                assert(m[0] == '.');
            } else {
                assert(m.take(dot).len() > 0);
                assert(is_digit(m.take(dot)[0]));
                assert(m.take(dot)[0] == m[0]);
            }
            assert(m[0] == body[0]);
            assert(body[0] == lower(s[0]));
            if is_digit(body[0]) {
                assert(is_digit(s[0])) by {
                    if 'A' <= s[0] && s[0] <= 'Z' {
                        assert(!is_digit(lower(s[0])));
                    }
                }
            } else {
                assert(body[0] == '.');
                assert(s[0] == '.') by {
                    if 'A' <= s[0] && s[0] <= 'Z' {
                        assert(lower(s[0]) != '.');
                    }
                }
            }
        }
    }
}
} // verus!
