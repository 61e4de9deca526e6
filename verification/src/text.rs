//! Character-level utilities: whitespace trimming, decimal integer parsing
//! and formatting, and conversions between `String` and `Vec<char>`.
//!
//! Everything here is verified against spec functions except the two
//! one-call wrappers around `str::chars` collection and `String::push`.

use vstd::prelude::*;

verus! {

/// The whitespace characters the notation recognises.
pub open spec fn is_ws(c: char) -> bool {
    c == ' ' || c == '\t' || c == '\r' || c == '\n'
}

/// `s` without leading whitespace.
pub open spec fn trim_front(s: Seq<char>) -> Seq<char>
    decreases s.len(),
{
    if s.len() > 0 && is_ws(s[0]) {
        trim_front(s.drop_first())
    } else {
        s
    }
}

/// `s` without trailing whitespace.
pub open spec fn trim_back(s: Seq<char>) -> Seq<char>
    decreases s.len(),
{
    if s.len() > 0 && is_ws(s.last()) {
        trim_back(s.drop_last())
    } else {
        s
    }
}

/// `s` without surrounding whitespace.
pub open spec fn trimmed(s: Seq<char>) -> Seq<char> {
    trim_back(trim_front(s))
}

proof fn lemma_trim_front_skip(s: Seq<char>, i: int)
    requires
        0 <= i <= s.len(),
        forall|j: int| 0 <= j < i ==> is_ws(s[j]),
        i < s.len() ==> !is_ws(s[i]),
    ensures
        trim_front(s) == s.skip(i),
    decreases i,
{
    if i == 0 {
        if s.len() > 0 {
            assert(!is_ws(s[0]));
        }
        assert(s.skip(0) =~= s);
    } else {
        assert(is_ws(s[0]));
        assert(forall|j: int|
            0 <= j < i - 1 ==> is_ws(#[trigger] s.drop_first()[j]));
        assert(i - 1 < s.drop_first().len() ==> !is_ws(s.drop_first()[i - 1]));
        lemma_trim_front_skip(s.drop_first(), i - 1);
        assert(s.drop_first().skip(i - 1) =~= s.skip(i));
    }
}

proof fn lemma_trim_back_take(s: Seq<char>, i: int)
    requires
        0 <= i <= s.len(),
        forall|j: int| i <= j < s.len() ==> is_ws(s[j]),
        i > 0 ==> !is_ws(s[i - 1]),
    ensures
        trim_back(s) == s.take(i),
    decreases s.len() - i,
{
    if i == s.len() {
        assert(s.take(i) =~= s);
    } else {
        assert(is_ws(s.last()));
        assert(forall|j: int|
            i <= j < s.drop_last().len() ==> is_ws(#[trigger] s.drop_last()[j]));
        assert(i > 0 ==> !is_ws(s.drop_last()[i - 1]));
        lemma_trim_back_take(s.drop_last(), i);
        assert(s.drop_last().take(i) =~= s.take(i));
    }
}

pub proof fn lemma_trimmed_len(s: Seq<char>)
    ensures
        trimmed(s).len() <= s.len(),
{
    lemma_trim_front_len(s);
    lemma_trim_back_len(trim_front(s));
}

proof fn lemma_trim_front_len(s: Seq<char>)
    ensures
        trim_front(s).len() <= s.len(),
    decreases s.len(),
{
    if s.len() > 0 && is_ws(s[0]) {
        lemma_trim_front_len(s.drop_first());
    }
}

proof fn lemma_trim_back_len(s: Seq<char>)
    ensures
        trim_back(s).len() <= s.len(),
    decreases s.len(),
{
    if s.len() > 0 && is_ws(s.last()) {
        lemma_trim_back_len(s.drop_last());
    }
}

/// Whether `c` is whitespace.
pub fn ws_char(c: char) -> (b: bool)
    ensures
        b == is_ws(c),
{
    c == ' ' || c == '\t' || c == '\r' || c == '\n'
}

/// The characters of `v` from `from` (inclusive) to `to` (exclusive).
pub fn copy_range(v: &Vec<char>, from: usize, to: usize) -> (r: Vec<char>)
    requires
        from <= to <= v@.len(),
    ensures
        r@ == v@.subrange(from as int, to as int),
{
    let mut r: Vec<char> = Vec::new();
    let mut i: usize = from;
    while i < to
        invariant
            from <= i <= to <= v@.len(),
            r@ == v@.subrange(from as int, i as int),
        decreases to - i,
    {
        r.push(v[i]);
        proof {
            assert(v@.subrange(from as int, i + 1 as int) =~= v@.subrange(
                from as int,
                i as int,
            ).push(v@[i as int]));
        }
        i += 1;
    }
    r
}

/// `v` without surrounding whitespace.
pub fn trim_chars(v: &Vec<char>) -> (r: Vec<char>)
    ensures
        r@ == trimmed(v@),
{
    let n = v.len();
    let mut start: usize = 0;
    while start < n && ws_char(v[start])
        invariant
            start <= n,
            n == v@.len(),
            forall|j: int| 0 <= j < start ==> is_ws(v@[j]),
        decreases n - start,
    {
        start += 1;
    }
    proof {
        lemma_trim_front_skip(v@, start as int);
    }
    let mut end: usize = n;
    while end > start && ws_char(v[end - 1])
        invariant
            start <= end <= n,
            n == v@.len(),
            forall|j: int| end <= j < n ==> is_ws(v@[j]),
        decreases end,
    {
        end -= 1;
    }
    proof {
        let front = v@.skip(start as int);
        assert(forall|j: int|
            end - start <= j < front.len() ==> is_ws(#[trigger] front[j]));
        assert(end - start > 0 ==> !is_ws(front[end - start - 1]));
        lemma_trim_back_take(front, end - start);
        assert(front.take(end - start) =~= v@.subrange(start as int, end as int));
    }
    copy_range(v, start, end)
}

/// The position of the first occurrence of `c` at or after `pos`, or the
/// length.
pub open spec fn scan_for(s: Seq<char>, pos: int, c: char) -> int
    decreases s.len() - pos,
{
    if pos >= s.len() {
        s.len() as int
    } else if s[pos] == c {
        pos
    } else {
        scan_for(s, pos + 1, c)
    }
}

pub proof fn lemma_scan_for(s: Seq<char>, pos: int, c: char)
    requires
        0 <= pos <= s.len(),
    ensures
        pos <= scan_for(s, pos, c) <= s.len(),
        forall|j: int| pos <= j < scan_for(s, pos, c) ==> s[j] != c,
        scan_for(s, pos, c) < s.len() ==> s[scan_for(s, pos, c)] == c,
    decreases s.len() - pos,
{
    if pos < s.len() && s[pos] != c {
        lemma_scan_for(s, pos + 1, c);
    }
}

/// Whether `c` is a decimal digit.
pub open spec fn is_digit(c: char) -> bool {
    48 <= c as u32 && c as u32 <= 57
}

/// The numeric value of a digit character.
pub open spec fn digit_val(c: char) -> int {
    c as u32 - 48
}

/// Whether every character of `s` is a decimal digit.
pub open spec fn all_digits(s: Seq<char>) -> bool {
    forall|i: int| 0 <= i < s.len() ==> is_digit(#[trigger] s[i])
}

/// The value of a digit string read in base ten.
pub open spec fn digits_val(s: Seq<char>) -> int
    decreases s.len(),
{
    if s.len() == 0 {
        0
    } else {
        digits_val(s.drop_last()) * 10 + digit_val(s.last())
    }
}

/// `s` without its optional leading sign.
pub open spec fn int_digits(s: Seq<char>) -> Seq<char> {
    if s.len() > 0 && (s[0] == '+' || s[0] == '-') {
        s.drop_first()
    } else {
        s
    }
}

/// Whether `s` is an optional sign followed by one or more digits.
pub open spec fn is_int_syntax(s: Seq<char>) -> bool {
    int_digits(s).len() > 0 && all_digits(int_digits(s))
}

/// The signed value of an integer-syntax string.
pub open spec fn int_of(s: Seq<char>) -> int {
    if s.len() > 0 && s[0] == '-' {
        -digits_val(int_digits(s))
    } else {
        digits_val(int_digits(s))
    }
}

/// Whether `s` reads as a 64-bit signed integer: integer syntax, in range.
pub open spec fn parses_as_i64(s: Seq<char>) -> bool {
    is_int_syntax(s) && -0x8000_0000_0000_0000 <= int_of(s) <= 0x7fff_ffff_ffff_ffff
}

pub proof fn lemma_digits_val_nonneg(s: Seq<char>)
    requires
        all_digits(s),
    ensures
        digits_val(s) >= 0,
    decreases s.len(),
{
    if s.len() > 0 {
        assert(forall|i: int|
            0 <= i < s.drop_last().len() ==> is_digit(#[trigger] s.drop_last()[i]));
        lemma_digits_val_nonneg(s.drop_last());
    }
}

/// Reading more digits never shrinks the value.
proof fn lemma_digits_val_mono(s: Seq<char>, i: int)
    requires
        all_digits(s),
        0 <= i <= s.len(),
    ensures
        digits_val(s) >= digits_val(s.take(i)),
    decreases s.len() - i,
{
    if i == s.len() {
        assert(s.take(i) =~= s);
    } else {
        assert(s.take(i + 1).drop_last() =~= s.take(i));
        assert(s.take(i + 1).last() == s[i]);
        assert(forall|j: int|
            0 <= j < s.take(i).len() ==> is_digit(#[trigger] s.take(i)[j]));
        lemma_digits_val_nonneg(s.take(i));
        assert(digits_val(s.take(i + 1)) == digits_val(s.take(i)) * 10 + digit_val(s[i]));
        assert(digits_val(s.take(i + 1)) >= digits_val(s.take(i)));
        lemma_digits_val_mono(s, i + 1);
    }
}

/// Read `v` as a 64-bit signed integer, exactly when `parses_as_i64` holds.
pub fn parse_i64(v: &Vec<char>) -> (r: Option<i64>)
    ensures
        r is Some <==> parses_as_i64(v@),
        r matches Some(x) ==> x as int == int_of(v@),
{
    let n = v.len();
    if n == 0 {
        return None;
    }
    let c0 = v[0];
    let neg = c0 == '-';
    let start: usize = if c0 == '-' || c0 == '+' {
        1
    } else {
        0
    };
    let ghost ds = v@.skip(start as int);
    proof {
        assert(int_digits(v@) =~= ds);
        assert(int_digits(v@) == ds);
    }
    if start == n {
        return None;
    }
    let limit: u64 = if neg {
        0x8000_0000_0000_0000
    } else {
        0x7fff_ffff_ffff_ffff
    };
    let mut mag: u64 = 0;
    let mut i: usize = start;
    while i < n
        invariant
            start <= i <= n,
            n == v@.len(),
            start < n,
            ds == v@.skip(start as int),
            int_digits(v@) == ds,
            neg == (v@[0] == '-'),
            mag <= limit,
            limit == if neg { 0x8000_0000_0000_0000u64 } else { 0x7fff_ffff_ffff_ffff_u64 },
            mag as int == digits_val(ds.take(i - start)),
            all_digits(ds.take(i - start)),
        decreases n - i,
    {
        let c = v[i];
        let code: u32 = c as u32;
        if code < 48 || code > 57 {
            proof {
                assert(ds[i - start] == v@[i as int]);
                assert(!is_digit(ds[i - start]));
                assert(!all_digits(ds));
                assert(int_digits(v@) == ds);
                assert(!is_int_syntax(v@));
            }
            return None;
        }
        let d: u64 = (code - 48) as u64;
        proof {
            assert(d as int == digit_val(c));
            assert(ds.take(i - start + 1).drop_last() =~= ds.take(i - start));
            assert(ds.take(i - start + 1).last() == v@[i as int]);
            assert(digits_val(ds.take(i - start + 1)) == digits_val(ds.take(i - start)) * 10
                + digit_val(v@[i as int]));
            assert(digits_val(ds.take(i - start + 1)) == mag * 10 + d);
        }
        if mag > (limit - d) / 10 {
            proof {
                assert(mag * 10 + d > limit) by (nonlinear_arith)
                    requires
                        mag > (limit - d) / 10,
                        d <= limit,
                        limit - d == ((limit - d) / 10) * 10 + (limit - d) % 10,
                        0 <= (limit - d) % 10 < 10,
                ;
                assert(int_digits(v@) == ds);
                if all_digits(ds) {
                    lemma_digits_val_mono(ds, i - start + 1);
                    assert(ds.take(ds.len() as int) =~= ds);
                    assert(digits_val(ds) > limit);
                    assert(!parses_as_i64(v@));
                } else {
                    assert(!is_int_syntax(v@));
                }
            }
            return None;
        }
        proof {
            assert(mag * 10 + d <= limit) by (nonlinear_arith)
                requires
                    mag <= (limit - d) / 10,
                    d <= limit,
                    limit - d == ((limit - d) / 10) * 10 + (limit - d) % 10,
                    0 <= (limit - d) % 10 < 10,
            ;
        }
        mag = mag * 10 + d;
        i += 1;
    }
    proof {
        assert(ds.take(n - start) =~= ds);
        assert(is_int_syntax(v@));
    }
    if neg {
        if mag == 0x8000_0000_0000_0000 {
            Some(i64::MIN)
        } else {
            Some(-(mag as i64))
        }
    } else {
        Some(mag as i64)
    }
}

/// The decimal digits of a nonnegative number.
pub open spec fn nat_text(n: int) -> Seq<char>
    decreases n,
{
    if n < 10 {
        seq![digit_char(n)]
    } else {
        nat_text(n / 10).push(digit_char(n % 10))
    }
}

/// The character for one decimal digit.
pub open spec fn digit_char(d: int) -> char {
    ((48 + d) as u8) as char
}

/// The canonical decimal text of an integer.
pub open spec fn int_text(n: int) -> Seq<char> {
    if n < 0 {
        seq!['-'] + nat_text(-n)
    } else {
        nat_text(n)
    }
}

/// The decimal digits of `n`.
pub fn u64_text(n: u64) -> (r: Vec<char>)
    ensures
        r@ == nat_text(n as int),
    decreases n,
{
    if n < 10 {
        let c = (48 + n as u8) as char;
        let mut r: Vec<char> = Vec::new();
        r.push(c);
        proof {
            assert(r@ =~= nat_text(n as int));
        }
        r
    } else {
        let mut r = u64_text(n / 10);
        let c = (48 + (n % 10) as u8) as char;
        r.push(c);
        proof {
            assert(r@ =~= nat_text(n as int));
        }
        r
    }
}

/// The canonical decimal text of `x`.
pub fn i64_text(x: i64) -> (r: Vec<char>)
    ensures
        r@ == int_text(x as int),
{
    if x >= 0 {
        u64_text(x as u64)
    } else {
        let mag: u64 = if x == i64::MIN {
            0x8000_0000_0000_0000
        } else {
            (-x) as u64
        };
        let digits = u64_text(mag);
        let mut r: Vec<char> = Vec::new();
        r.push('-');
        let mut i: usize = 0;
        while i < digits.len()
            invariant
                i <= digits.len(),
                r@ == seq!['-'] + digits@.take(i as int),
            decreases digits.len() - i,
        {
            r.push(digits[i]);
            proof {
                assert(seq!['-'] + digits@.take(i + 1) =~= (seq!['-'] + digits@.take(
                    i as int,
                )).push(digits@[i as int]));
            }
            i += 1;
        }
        proof {
            assert(digits@.take(digits@.len() as int) =~= digits@);
            assert(r@ =~= int_text(x as int));
        }
        r
    }
}

/// Relies on String::push: appends one character to the string.
#[verifier::external_body]
pub fn push_char(s: &mut String, c: char)
    ensures
        final(s)@ == old(s)@.push(c),
{
    s.push(c);
}

/// The string holding exactly the characters of `v`.
pub fn chars_to_string(v: &Vec<char>) -> (r: String)
    ensures
        r@ == v@,
{
    let mut r = String::new();
    let mut i: usize = 0;
    while i < v.len()
        invariant
            i <= v@.len(),
            r@ == v@.take(i as int),
        decreases v@.len() - i,
    {
        push_char(&mut r, v[i]);
        proof {
            assert(v@.take(i + 1) =~= v@.take(i as int).push(v@[i as int]));
        }
        i += 1;
    }
    proof {
        assert(v@.take(v@.len() as int) =~= v@);
    }
    r
}

/// The characters of `s`, in order.
pub fn to_char_vec(s: &str) -> (r: Vec<char>)
    ensures
        r@ == s@,
{
    let mut r: Vec<char> = Vec::new();
    for c in it: s.chars()
        invariant
            r@ == it.seq().take(it.index() as int),
            it.seq() == s@,
    {
        r.push(c);
    }
    proof {
        assert(r@ =~= s@);
    }
    r
}


pub proof fn lemma_nat_text_digits(n: int)
    requires
        n >= 0,
    ensures
        all_digits(nat_text(n)),
        nat_text(n).len() > 0,
    decreases n,
{
    if n < 10 {
        assert(is_digit(digit_char(n)));
    } else {
        lemma_nat_text_digits(n / 10);
        assert(is_digit(digit_char(n % 10)));
        assert forall|i: int| 0 <= i < nat_text(n).len() implies is_digit(
            #[trigger] nat_text(n)[i],
        ) by {
            if i < nat_text(n / 10).len() {
                assert(nat_text(n)[i] == nat_text(n / 10)[i]);
            }
        }
    }
}

pub proof fn lemma_nat_text_val(n: int)
    requires
        n >= 0,
    ensures
        digits_val(nat_text(n)) == n,
    decreases n,
{
    if n < 10 {
        assert(digits_val(nat_text(n)) == digits_val(Seq::<char>::empty()) * 10 + digit_val(
            digit_char(n),
        )) by {
            assert(nat_text(n).drop_last() =~= Seq::<char>::empty());
        }
    } else {
        lemma_nat_text_val(n / 10);
        assert(nat_text(n).drop_last() =~= nat_text(n / 10));
        assert(digit_val(digit_char(n % 10)) == n % 10);
    }
}

/// The canonical decimal text of an integer in 64-bit range reads back as
/// that integer.
pub proof fn lemma_int_text_round(i: int)
    requires
        -0x8000_0000_0000_0000 <= i <= 0x7fff_ffff_ffff_ffff,
    ensures
        parses_as_i64(int_text(i)),
        int_of(int_text(i)) == i,
        int_text(i).len() > 0,
        int_text(i)[0] == '-' || is_digit(int_text(i)[0]),
{
    if i < 0 {
        lemma_nat_text_digits(-i);
        lemma_nat_text_val(-i);
        assert(int_text(i)[0] == '-');
        assert(int_digits(int_text(i)) =~= nat_text(-i));
    } else {
        lemma_nat_text_digits(i);
        lemma_nat_text_val(i);
        assert(int_text(i) == nat_text(i));
        assert(is_digit(nat_text(i)[0])) by {
            if nat_text(i).len() > 0 {
            }
        }
        assert(int_text(i)[0] != '+' && int_text(i)[0] != '-');
        assert(int_digits(int_text(i)) =~= nat_text(i));
    }
}
} // verus!
