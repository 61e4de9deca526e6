//! Lexer and grouper: raw notation text is split into literal spans and
//! single-character delimiter tokens, then delimiter-bounded regions
//! (quoted strings, function bodies, arrays, nested objects) are assembled
//! into single fragments, respecting the escape character.  Whitespace-only
//! fragments are dropped and the rest are trimmed.

use vstd::prelude::*;

use crate::text::{trim_chars, trimmed, copy_range, ws_char};

verus! {

/// The notation's delimiter characters.
pub open spec fn is_delim(c: char) -> bool {
    c == ':' || c == '\'' || c == '"' || c == '`' || c == '\n' || c == '{' || c == '}' || c == '['
        || c == ']' || c == '\\'
}

/// Whether `c` is a delimiter.
pub fn delim_char(c: char) -> (b: bool)
    ensures
        b == is_delim(c),
{
    c == ':' || c == '\'' || c == '"' || c == '`' || c == '\n' || c == '{' || c == '}' || c == '['
        || c == ']' || c == '\\'
}

/// The position of the first delimiter at or after `pos`, or the length.
pub open spec fn scan_delim(s: Seq<char>, pos: int) -> int
    decreases s.len() - pos,
{
    if pos >= s.len() {
        s.len() as int
    } else if is_delim(s[pos]) {
        pos
    } else {
        scan_delim(s, pos + 1)
    }
}

pub proof fn lemma_scan_delim(s: Seq<char>, pos: int)
    requires
        0 <= pos <= s.len(),
    ensures
        pos <= scan_delim(s, pos) <= s.len(),
        forall|j: int| pos <= j < scan_delim(s, pos) ==> !is_delim(s[j]),
        scan_delim(s, pos) < s.len() ==> is_delim(s[scan_delim(s, pos)]),
    decreases s.len() - pos,
{
    if pos < s.len() && !is_delim(s[pos]) {
        lemma_scan_delim(s, pos + 1);
    }
}

/// The token list from `pos` on: alternating literal spans (possibly empty)
/// and single-delimiter tokens, ending with the final span.
pub open spec fn lex_from(s: Seq<char>, pos: int) -> Seq<Seq<char>>
    decreases s.len() - pos,
    when 0 <= pos <= s.len()
    via lex_from_dec
{
    let j = scan_delim(s, pos);
    if j >= s.len() {
        seq![s.subrange(pos, s.len() as int)]
    } else {
        seq![s.subrange(pos, j), seq![s[j]]] + lex_from(s, j + 1)
    }
}

#[via_fn]
proof fn lex_from_dec(s: Seq<char>, pos: int) {
    lemma_scan_delim(s, pos);
}

/// Split `v` into spans and delimiter tokens.
pub fn lex_exec(v: &Vec<char>) -> (r: Vec<Vec<char>>)
    ensures
        deep(r@) == lex_from(v@, 0),
{
    let n = v.len();
    let mut out: Vec<Vec<char>> = Vec::new();
    let mut pos: usize = 0;
    loop
        invariant
            pos <= n,
            n == v@.len(),
            lex_from(v@, 0) == deep(out@) + lex_from(v@, pos as int),
        decreases n - pos,
    {
        let mut j: usize = pos;
        while j < n && !delim_char(v[j])
            invariant
                pos <= j <= n,
                n == v@.len(),
                forall|k: int| pos <= k < j ==> !is_delim(v@[k]),
            decreases n - j,
        {
            j += 1;
        }
        proof {
            lemma_scan_delim(v@, pos as int);
            assert(scan_delim(v@, pos as int) == j) by {
                if scan_delim(v@, pos as int) < j {
                    assert(!is_delim(v@[scan_delim(v@, pos as int)]));
                } else if j < scan_delim(v@, pos as int) {
                    assert(!is_delim(v@[j as int]));
                }
            }
        }
        let span = copy_range(v, pos, j);
        if j < n {
            let mut tok: Vec<char> = Vec::new();
            tok.push(v[j]);
            let ghost prev_out = deep(out@);
            out.push(span);
            out.push(tok);
            proof {
                assert(deep(out@) =~= prev_out + seq![v@.subrange(pos as int, j as int), seq![
                    v@[j as int]]]);
                assert(lex_from(v@, pos as int) == seq![v@.subrange(pos as int, j as int), seq![
                    v@[j as int]]] + lex_from(v@, j + 1));
                assert(deep(out@) + lex_from(v@, j + 1) =~= (prev_out + lex_from(
                    v@,
                    pos as int,
                )));
            }
            pos = j + 1;
        } else {
            let ghost prev_out = deep(out@);
            out.push(span);
            proof {
                assert(lex_from(v@, pos as int) == seq![v@.subrange(pos as int, n as int)]);
                assert(deep(out@) =~= prev_out + lex_from(v@, pos as int));
            }
            return out;
        }
    }
}

/// The views of a vector of character vectors.
pub open spec fn deep(s: Seq<Vec<char>>) -> Seq<Seq<char>> {
    s.map_values(|v: Vec<char>| v@)
}

/// The closing delimiter that matches an opening one.
pub open spec fn matching_closer(c: char) -> char {
    if c == '{' {
        '}'
    } else if c == '[' {
        ']'
    } else {
        c
    }
}

/// Whether token `t` opens an encapsulated region.
pub open spec fn is_opener(t: Seq<char>) -> bool {
    t.len() == 1 && (t[0] == '\'' || t[0] == '"' || t[0] == '`' || t[0] == '{' || t[0] == '[')
}

/// Whether the token at `i` is suppressed by an escape character: the
/// preceding span is empty and the token before it is the backslash, so the
/// backslash stands immediately before this token in the raw text.
pub open spec fn escaped(toks: Seq<Seq<char>>, i: int) -> bool {
    i >= 2 && toks[i - 1].len() == 0 && toks[i - 2].len() == 1 && toks[i - 2][0] == '\\'
}

/// One "open encapsulator" pass from token `i` on, with open delimiter `enc`
/// (empty when none) and accumulated content `acc`.  A matching unescaped
/// closer emits the accumulation and the closer as one fragment; an
/// unterminated accumulation is emitted as it stands at the end.
pub open spec fn group_from(toks: Seq<Seq<char>>, i: int, enc: Seq<char>, acc: Seq<char>) -> Seq<
    Seq<char>,
>
    decreases toks.len() - i,
{
    if i >= toks.len() {
        if acc.len() > 0 {
            seq![acc]
        } else {
            Seq::empty()
        }
    } else {
        let t = toks[i];
        if t.len() == 0 {
            group_from(toks, i + 1, enc, acc)
        } else if enc.len() == 1 && t.len() == 1 && t[0] == matching_closer(enc[0]) && !escaped(
            toks,
            i,
        ) {
            seq![acc + t] + group_from(toks, i + 1, Seq::empty(), Seq::empty())
        } else if enc.len() == 0 && is_opener(t) {
            group_from(toks, i + 1, t, acc + t)
        } else if enc.len() == 0 {
            seq![t] + group_from(toks, i + 1, enc, acc)
        } else {
            group_from(toks, i + 1, enc, acc + t)
        }
    }
}

/// Append the characters of `b` to `a`.
pub fn append_chars(a: &mut Vec<char>, b: &Vec<char>)
    ensures
        final(a)@ == old(a)@ + b@,
{
    let mut i: usize = 0;
    while i < b.len()
        invariant
            i <= b@.len(),
            a@ == old(a)@ + b@.take(i as int),
        decreases b@.len() - i,
    {
        a.push(b[i]);
        proof {
            assert(old(a)@ + b@.take(i + 1) =~= (old(a)@ + b@.take(i as int)).push(b@[i as int]));
        }
        i += 1;
    }
    proof {
        assert(old(a)@ + b@.take(b@.len() as int) =~= old(a)@ + b@);
    }
}

/// Assemble delimiter-bounded regions of the token list into fragments.
pub fn group_exec(toks: &Vec<Vec<char>>) -> (r: Vec<Vec<char>>)
    ensures
        deep(r@) == group_from(deep(toks@), 0, Seq::empty(), Seq::empty()),
{
    let ghost full = deep(toks@);
    let n = toks.len();
    let mut out: Vec<Vec<char>> = Vec::new();
    let mut enc: Vec<char> = Vec::new();
    let mut acc: Vec<char> = Vec::new();
    let mut i: usize = 0;
    proof {
        assert(enc@ =~= Seq::<char>::empty());
        assert(acc@ =~= Seq::<char>::empty());
        assert(deep(out@) =~= Seq::<Seq<char>>::empty());
    }
    while i < n
        invariant
            i <= n,
            n == toks@.len(),
            full == deep(toks@),
            group_from(full, 0, Seq::empty(), Seq::empty()) == deep(out@) + group_from(
                full,
                i as int,
                enc@,
                acc@,
            ),
        decreases n - i,
    {
        let ghost enc_old = enc@;
        let ghost acc_old = acc@;
        let ghost prev_out = deep(out@);
        let ghost tv = full[i as int];
        proof {
            assert(tv == toks@[i as int]@);
            if i >= 2 {
                assert(full[i - 1] == toks@[i - 1]@);
                assert(full[i - 2] == toks@[i - 2]@);
            }
        }
        let t = &toks[i];
        if t.len() == 0 {
            proof {
                assert(group_from(full, i as int, enc_old, acc_old) == group_from(
                    full,
                    i + 1,
                    enc_old,
                    acc_old,
                ));
            }
        } else if enc.len() == 1 && t.len() == 1 && {
            let e = enc[0];
            let closer = if e == '{' {
                '}'
            } else if e == '[' {
                ']'
            } else {
                e
            };
            t[0] == closer
        } && !(i >= 2 && toks[i - 1].len() == 0 && toks[i - 2].len() == 1 && toks[i - 2][0]
            == '\\') {
            append_chars(&mut acc, t);
            let ghost frag = acc@;
            out.push(acc);
            enc = Vec::new();
            acc = Vec::new();
            proof {
                assert(frag == acc_old + tv);
                assert(group_from(full, i as int, enc_old, acc_old) == seq![frag] + group_from(
                    full,
                    i + 1,
                    Seq::<char>::empty(),
                    Seq::<char>::empty(),
                ));
                assert(deep(out@) =~= prev_out.push(frag));
                assert(enc@ =~= Seq::<char>::empty());
                assert(acc@ =~= Seq::<char>::empty());
                assert(deep(out@) + group_from(full, i + 1, enc@, acc@) =~= prev_out + (seq![frag]
                    + group_from(full, i + 1, Seq::<char>::empty(), Seq::<char>::empty())));
            }
        } else if enc.len() == 0 && t.len() == 1 && {
            let c = t[0];
            c == '\'' || c == '"' || c == '`' || c == '{' || c == '['
        } {
            enc = copy_range(t, 0, t.len());
            append_chars(&mut acc, t);
            proof {
                assert(enc@ =~= tv);
                assert(is_opener(tv));
                assert(group_from(full, i as int, enc_old, acc_old) == group_from(
                    full,
                    i + 1,
                    tv,
                    acc_old + tv,
                ));
            }
        } else if enc.len() == 0 {
            let frag = copy_range(t, 0, t.len());
            proof {
                assert(frag@ =~= tv);
            }
            out.push(frag);
            proof {
                assert(!is_opener(tv));
                assert(group_from(full, i as int, enc_old, acc_old) == seq![tv] + group_from(
                    full,
                    i + 1,
                    enc_old,
                    acc_old,
                ));
                assert(deep(out@) =~= prev_out.push(tv));
                assert(deep(out@) + group_from(full, i + 1, enc@, acc@) =~= prev_out + (seq![tv]
                    + group_from(full, i + 1, enc_old, acc_old)));
            }
        } else {
            append_chars(&mut acc, t);
            proof {
                assert(group_from(full, i as int, enc_old, acc_old) == group_from(
                    full,
                    i + 1,
                    enc_old,
                    acc_old + tv,
                ));
            }
        }
        i += 1;
    }
    if acc.len() > 0 {
        let ghost prev_out = deep(out@);
        let ghost frag = acc@;
        out.push(acc);
        proof {
            assert(group_from(full, n as int, enc@, frag) == seq![frag]);
            assert(deep(out@) =~= prev_out.push(frag));
            assert(deep(out@) =~= prev_out + seq![frag]);
        }
    } else {
        proof {
            assert(group_from(full, n as int, enc@, acc@) =~= Seq::<Seq<char>>::empty());
            assert(deep(out@) + group_from(full, n as int, enc@, acc@) =~= deep(out@));
        }
    }
    out
}

/// Fragments after trimming: whitespace-only fragments dropped, the rest
/// stripped of surrounding whitespace, from index `i` on.
pub open spec fn trim_stage_from(frags: Seq<Seq<char>>, i: int) -> Seq<Seq<char>>
    decreases frags.len() - i,
{
    if i >= frags.len() {
        Seq::empty()
    } else {
        let t = trimmed(frags[i]);
        if t.len() > 0 {
            seq![t] + trim_stage_from(frags, i + 1)
        } else {
            trim_stage_from(frags, i + 1)
        }
    }
}

/// Trim every fragment and drop the whitespace-only ones.
pub fn trim_stage_exec(frags: &Vec<Vec<char>>) -> (r: Vec<Vec<char>>)
    ensures
        deep(r@) == trim_stage_from(deep(frags@), 0),
{
    let n = frags.len();
    let mut out: Vec<Vec<char>> = Vec::new();
    let mut i: usize = 0;
    while i < n
        invariant
            i <= n,
            n == frags@.len(),
            trim_stage_from(deep(frags@), 0) == deep(out@) + trim_stage_from(
                deep(frags@),
                i as int,
            ),
        decreases n - i,
    {
        let t = trim_chars(&frags[i]);
        proof {
            assert(deep(frags@)[i as int] == frags@[i as int]@);
        }
        if t.len() > 0 {
            let ghost prev_out = deep(out@);
            out.push(t);
            proof {
                assert(deep(out@) =~= prev_out.push(trimmed(frags@[i as int]@)));
                assert(deep(out@) + trim_stage_from(deep(frags@), i + 1) =~= prev_out
                    + trim_stage_from(deep(frags@), i as int));
            }
        }
        i += 1;
    }
    proof {
        assert(deep(out@) + trim_stage_from(deep(frags@), n as int) =~= deep(out@));
    }
    out
}

/// The grouped, trimmed fragment sequence of a notation text.
pub open spec fn fragments(text: Seq<char>) -> Seq<Seq<char>> {
    trim_stage_from(group_from(lex_from(text, 0), 0, Seq::empty(), Seq::empty()), 0)
}

/// Split a notation text into its fragments.
pub fn fragments_exec(v: &Vec<char>) -> (r: Vec<Vec<char>>)
    ensures
        deep(r@) == fragments(v@),
{
    let toks = lex_exec(v);
    let grouped = group_exec(&toks);
    trim_stage_exec(&grouped)
}

} // verus!

verus! {

/// The total character count of the token or fragment list from `i` on.
pub open spec fn total_from(ss: Seq<Seq<char>>, i: int) -> int
    decreases ss.len() - i,
{
    if i >= ss.len() {
        0
    } else {
        ss[i].len() + total_from(ss, i + 1)
    }
}

pub proof fn lemma_total_from_nonneg(ss: Seq<Seq<char>>, i: int)
    ensures
        total_from(ss, i) >= 0,
    decreases ss.len() - i,
{
    if i < ss.len() {
        lemma_total_from_nonneg(ss, i + 1);
    }
}

pub proof fn lemma_total_from_elem(ss: Seq<Seq<char>>, i: int, j: int)
    requires
        0 <= i <= j < ss.len(),
    ensures
        ss[j].len() <= total_from(ss, i),
    decreases j - i,
{
    lemma_total_from_nonneg(ss, i + 1);
    if i < j {
        lemma_total_from_elem(ss, i + 1, j);
    }
}

/// The count from `i` equals the count of the suffix without its head.
pub proof fn lemma_total_drop(ss: Seq<Seq<char>>, i: int)
    requires
        1 <= i,
        ss.len() >= 1,
    ensures
        total_from(ss, i) == total_from(ss.drop_first(), i - 1),
    decreases ss.len() - i,
{
    if i < ss.len() {
        assert(ss[i as int] == ss.drop_first()[i - 1]);
        lemma_total_drop(ss, i + 1);
    }
}

/// Unfolding the head of the total count.
pub proof fn lemma_total_head(ss: Seq<Seq<char>>)
    requires
        ss.len() >= 1,
    ensures
        total_from(ss, 0) == ss[0].len() + total_from(ss.drop_first(), 0),
{
    lemma_total_drop(ss, 1);
}

/// Concatenation splits the total count.
pub proof fn lemma_total_concat(a: Seq<Seq<char>>, b: Seq<Seq<char>>)
    ensures
        total_from(a + b, 0) == total_from(a, 0) + total_from(b, 0),
    decreases a.len(),
{
    if a.len() == 0 {
        assert(a + b =~= b);
    } else {
        assert((a + b).drop_first() =~= a.drop_first() + b);
        assert((a + b)[0] == a[0]);
        lemma_total_head(a + b);
        lemma_total_head(a);
        lemma_total_concat(a.drop_first(), b);
    }
}

pub proof fn lemma_lex_total(s: Seq<char>, pos: int)
    requires
        0 <= pos <= s.len(),
    ensures
        total_from(lex_from(s, pos), 0) == s.len() - pos,
    decreases s.len() - pos,
{
    lemma_scan_delim(s, pos);
    let j = scan_delim(s, pos);
    if j >= s.len() {
        assert(total_from(lex_from(s, pos), 1) == 0);
    } else {
        let head = seq![s.subrange(pos, j), seq![s[j]]];
        lemma_total_concat(head, lex_from(s, j + 1));
        assert(total_from(head, 1) == head[1].len() + total_from(head, 2));
        assert(total_from(head, 2) == 0);
        lemma_lex_total(s, j + 1);
    }
}

pub proof fn lemma_group_total(toks: Seq<Seq<char>>, i: int, enc: Seq<char>, acc: Seq<char>)
    requires
        0 <= i,
    ensures
        total_from(group_from(toks, i, enc, acc), 0) <= acc.len() + total_from(toks, i),
    decreases toks.len() - i,
{
    if i >= toks.len() {
        if acc.len() > 0 {
            assert(total_from(seq![acc], 1) == 0);
        }
    } else {
        let t = toks[i];
        assert(total_from(toks, i) == t.len() + total_from(toks, i + 1));
        if t.len() == 0 {
            lemma_group_total(toks, i + 1, enc, acc);
        } else if enc.len() == 1 && t.len() == 1 && t[0] == matching_closer(enc[0]) && !escaped(
            toks,
            i,
        ) {
            let rest = group_from(toks, i + 1, Seq::empty(), Seq::empty());
            lemma_total_concat(seq![acc + t], rest);
            assert(total_from(seq![acc + t], 1) == 0);
            lemma_group_total(toks, i + 1, Seq::empty(), Seq::empty());
        } else if enc.len() == 0 && is_opener(t) {
            lemma_group_total(toks, i + 1, t, acc + t);
        } else if enc.len() == 0 {
            let rest = group_from(toks, i + 1, enc, acc);
            lemma_total_concat(seq![t], rest);
            assert(total_from(seq![t], 1) == 0);
            lemma_group_total(toks, i + 1, enc, acc);
        } else {
            lemma_group_total(toks, i + 1, enc, acc + t);
        }
    }
}

pub proof fn lemma_trim_total(fs: Seq<Seq<char>>, i: int)
    requires
        0 <= i,
    ensures
        total_from(trim_stage_from(fs, i), 0) <= total_from(fs, i),
    decreases fs.len() - i,
{
    if i < fs.len() {
        let t = crate::text::trimmed(fs[i]);
        crate::text::lemma_trimmed_len(fs[i]);
        lemma_trim_total(fs, i + 1);
        if t.len() > 0 {
            lemma_total_concat(seq![t], trim_stage_from(fs, i + 1));
            assert(total_from(seq![t], 1) == 0);
        }
    }
}

/// The fragments of a text hold at most as many characters as the text.
pub proof fn lemma_fragments_total(text: Seq<char>)
    ensures
        total_from(fragments(text), 0) <= text.len(),
{
    lemma_lex_total(text, 0);
    lemma_group_total(lex_from(text, 0), 0, Seq::empty(), Seq::empty());
    lemma_trim_total(group_from(lex_from(text, 0), 0, Seq::empty(), Seq::empty()), 0);
}

/// The pieces of `s` from `pos` on, split at every occurrence of `sep`.
pub open spec fn split_from(s: Seq<char>, pos: int, sep: char) -> Seq<Seq<char>>
    decreases s.len() - pos,
    when 0 <= pos <= s.len()
    via split_from_dec
{
    let j = crate::text::scan_for(s, pos, sep);
    if j >= s.len() {
        seq![s.subrange(pos, s.len() as int)]
    } else {
        seq![s.subrange(pos, j)] + split_from(s, j + 1, sep)
    }
}

#[via_fn]
proof fn split_from_dec(s: Seq<char>, pos: int, sep: char) {
    crate::text::lemma_scan_for(s, pos, sep);
}

pub proof fn lemma_split_total(s: Seq<char>, pos: int, sep: char)
    requires
        0 <= pos <= s.len(),
    ensures
        total_from(split_from(s, pos, sep), 0) <= s.len() - pos,
    decreases s.len() - pos,
{
    crate::text::lemma_scan_for(s, pos, sep);
    let j = crate::text::scan_for(s, pos, sep);
    if j >= s.len() {
        assert(total_from(split_from(s, pos, sep), 1) == 0);
    } else {
        lemma_total_concat(seq![s.subrange(pos, j)], split_from(s, j + 1, sep));
        assert(total_from(seq![s.subrange(pos, j)], 1) == 0);
        lemma_split_total(s, j + 1, sep);
    }
}

/// Split `v` at every occurrence of `sep`.
pub fn split_exec(v: &Vec<char>, sep: char) -> (r: Vec<Vec<char>>)
    ensures
        deep(r@) == split_from(v@, 0, sep),
{
    let n = v.len();
    let mut out: Vec<Vec<char>> = Vec::new();
    let mut pos: usize = 0;
    loop
        invariant
            pos <= n,
            n == v@.len(),
            split_from(v@, 0, sep) == deep(out@) + split_from(v@, pos as int, sep),
        decreases n - pos,
    {
        let mut j: usize = pos;
        while j < n && v[j] != sep
            invariant
                pos <= j <= n,
                n == v@.len(),
                forall|k: int| pos <= k < j ==> v@[k] != sep,
            decreases n - j,
        {
            j += 1;
        }
        proof {
            crate::text::lemma_scan_for(v@, pos as int, sep);
            assert(crate::text::scan_for(v@, pos as int, sep) == j) by {
                if crate::text::scan_for(v@, pos as int, sep) < j {
                    assert(v@[crate::text::scan_for(v@, pos as int, sep)] != sep);
                } else if j < crate::text::scan_for(v@, pos as int, sep) {
                    assert(v@[j as int] != sep);
                }
            }
        }
        let piece = copy_range(v, pos, j);
        if j < n {
            let ghost prev_out = deep(out@);
            out.push(piece);
            proof {
                assert(deep(out@) =~= prev_out + seq![v@.subrange(pos as int, j as int)]);
                assert(deep(out@) + split_from(v@, j + 1, sep) =~= prev_out + split_from(
                    v@,
                    pos as int,
                    sep,
                ));
            }
            pos = j + 1;
        } else {
            let ghost prev_out = deep(out@);
            out.push(piece);
            proof {
                assert(deep(out@) =~= prev_out + split_from(v@, pos as int, sep));
            }
            return out;
        }
    }
}

/// Scanning from `pos` is scanning the suffix from its start.
pub proof fn lemma_scan_shift(s: Seq<char>, pos: int)
    requires
        0 <= pos <= s.len(),
    ensures
        scan_delim(s, pos) == pos + scan_delim(s.skip(pos), 0),
    decreases s.len() - pos,
{
    if pos >= s.len() {
        assert(s.skip(pos) =~= Seq::<char>::empty());
    } else if is_delim(s[pos]) {
        assert(s.skip(pos)[0] == s[pos]);
    } else {
        assert(s.skip(pos)[0] == s[pos]);
        lemma_scan_shift(s, pos + 1);
        lemma_scan_shift(s.skip(pos), 1);
        assert(s.skip(pos).skip(1) =~= s.skip(pos + 1));
    }
}

/// Lexing from `pos` is lexing the suffix from its start.
pub proof fn lemma_lex_shift(s: Seq<char>, pos: int)
    requires
        0 <= pos <= s.len(),
    ensures
        lex_from(s, pos) == lex_from(s.skip(pos), 0),
    decreases s.len() - pos,
{
    lemma_scan_delim(s, pos);
    lemma_scan_shift(s, pos);
    let j = scan_delim(s, pos);
    let t = s.skip(pos);
    lemma_scan_delim(t, 0);
    if j >= s.len() {
        assert(s.subrange(pos, s.len() as int) =~= t.subrange(0, t.len() as int));
    } else {
        assert(s.subrange(pos, j) =~= t.subrange(0, j - pos));
        assert(s[j] == t[j - pos]);
        lemma_lex_shift(s, j + 1);
        lemma_lex_shift(t, j - pos + 1);
        assert(t.skip(j - pos + 1) =~= s.skip(j + 1));
        assert(lex_from(s, pos) =~= lex_from(t, 0));
    }
}

/// A delimiter-free span followed by a delimiter lexes to the span, the
/// delimiter, and the lexing of the rest.
pub proof fn lemma_lex_cons(a: Seq<char>, d: char, b: Seq<char>)
    requires
        forall|i: int| 0 <= i < a.len() ==> !is_delim(#[trigger] a[i]),
        is_delim(d),
    ensures
        lex_from(a + seq![d] + b, 0) == seq![a, seq![d]] + lex_from(b, 0),
{
    let s = a + seq![d] + b;
    lemma_scan_delim(s, 0);
    let j = scan_delim(s, 0);
    assert(s[a.len() as int] == d);
    assert(j == a.len()) by {
        if j < a.len() {
            assert(s[j] == a[j]);
            assert(is_delim(s[j]));
        } else if j > a.len() {
            assert(!is_delim(s[a.len() as int]));
        }
    }
    assert(s.subrange(0, j) =~= a);
    lemma_lex_shift(s, j + 1);
    assert(s.skip(j + 1) =~= b);
    assert(lex_from(s, 0) =~= seq![a, seq![d]] + lex_from(b, 0));
}

/// A delimiter-free text lexes to itself as a single span.
pub proof fn lemma_lex_span(a: Seq<char>)
    requires
        forall|i: int| 0 <= i < a.len() ==> !is_delim(#[trigger] a[i]),
    ensures
        lex_from(a, 0) == seq![a],
{
    lemma_scan_delim(a, 0);
    assert(scan_delim(a, 0) == a.len()) by {
        if scan_delim(a, 0) < a.len() {
            assert(is_delim(a[scan_delim(a, 0)]));
        }
    }
    assert(a.subrange(0, a.len() as int) =~= a);
}

/// With no opener among the tokens, grouping emits the nonempty ones
/// unchanged.
pub proof fn lemma_group_plain(toks: Seq<Seq<char>>, i: int)
    requires
        0 <= i,
        forall|j: int| i <= j < toks.len() ==> !is_opener(#[trigger] toks[j]),
    ensures
        group_from(toks, i, Seq::empty(), Seq::empty()) == nonempty_from(toks, i),
    decreases toks.len() - i,
{
    if i < toks.len() {
        lemma_group_plain(toks, i + 1);
    }
}

/// The nonempty tokens from `i` on.
pub open spec fn nonempty_from(toks: Seq<Seq<char>>, i: int) -> Seq<Seq<char>>
    decreases toks.len() - i,
{
    if i >= toks.len() {
        Seq::empty()
    } else if toks[i].len() == 0 {
        nonempty_from(toks, i + 1)
    } else {
        seq![toks[i]] + nonempty_from(toks, i + 1)
    }
}

pub proof fn lemma_nonempty_shift(toks: Seq<Seq<char>>, i: int)
    requires
        0 <= i <= toks.len(),
    ensures
        nonempty_from(toks, i) == nonempty_from(toks.skip(i), 0),
    decreases toks.len() - i,
{
    if i >= toks.len() {
        assert(toks.skip(i) =~= Seq::<Seq<char>>::empty());
    } else {
        assert(toks.skip(i)[0] == toks[i]);
        lemma_nonempty_shift(toks, i + 1);
        lemma_nonempty_shift(toks.skip(i), 1);
        assert(toks.skip(i).skip(1) =~= toks.skip(i + 1));
    }
}

pub proof fn lemma_trim_stage_shift(fs: Seq<Seq<char>>, i: int)
    requires
        0 <= i <= fs.len(),
    ensures
        trim_stage_from(fs, i) == trim_stage_from(fs.skip(i), 0),
    decreases fs.len() - i,
{
    if i >= fs.len() {
        assert(fs.skip(i) =~= Seq::<Seq<char>>::empty());
    } else {
        assert(fs.skip(i)[0] == fs[i]);
        lemma_trim_stage_shift(fs, i + 1);
        lemma_trim_stage_shift(fs.skip(i), 1);
        assert(fs.skip(i).skip(1) =~= fs.skip(i + 1));
    }
}

} // verus!
