//! The notation's general laws, each proved over the same spec functions
//! the parser's and serializer's own contracts use.

use vstd::prelude::*;

use crate::errors::ErrorModel;
use crate::floats::{is_float_syntax, lemma_float_first_char};
use crate::lexer::{
    escaped, fragments, group_from, is_delim, is_opener, lemma_group_plain, lemma_lex_cons,
    lemma_lex_span, lemma_nonempty_shift, lemma_trim_stage_shift, lex_from, matching_closer,
    nonempty_from, trim_stage_from,
};
use crate::parse::{
    lemma_records_shift, parse_notation, parse_records_spec, parse_value_spec,
};
use crate::serial::{ser_entries, ser_value};
use crate::text::{
    int_of, int_text, is_digit, is_ws, lemma_int_text_round, lemma_nat_text_digits, nat_text,
    parses_as_i64, trimmed,
};
use crate::model::lemma_entry_put_append;
use crate::value::{entry_put, keys_unique, ValueModel};

verus! {

/// Numeric classification comes before the bare-string fallback: any
/// fragment that reads as a 64-bit integer parses to that integer, never
/// to a string.
pub proof fn lemma_numeric_classification(s: Seq<char>)
    requires
        parses_as_i64(s),
    ensures
        parse_value_spec(s) == Result::Ok::<ValueModel, ErrorModel>(
            ValueModel::Int(int_of(s)),
        ),
{
    assert(s != seq!['n', 'u', 'l', 'l']) by {
        if s == seq!['n', 'u', 'l', 'l'] {
            assert(s[0] == 'n');
            assert(!is_digit('n') && 'n' != '+' && 'n' != '-');
            assert(!is_digit(crate::text::int_digits(s)[0]));
        }
    }
    assert(s != seq!['f', 'a', 'l', 's', 'e']) by {
        if s == seq!['f', 'a', 'l', 's', 'e'] {
            assert(s[0] == 'f');
            assert(!is_digit(crate::text::int_digits(s)[0]));
        }
    }
    assert(s != seq!['t', 'r', 'u', 'e']) by {
        if s == seq!['t', 'r', 'u', 'e'] {
            assert(s[0] == 't');
            assert(!is_digit(crate::text::int_digits(s)[0]));
        }
    }
}

/// An escaped closing delimiter does not close: the grouper keeps
/// accumulating, with the delimiter as literal content.
pub proof fn lemma_escaped_closer_is_content(
    toks: Seq<Seq<char>>,
    i: int,
    enc: Seq<char>,
    acc: Seq<char>,
)
    requires
        0 <= i < toks.len(),
        toks[i].len() == 1,
        enc.len() == 1,
        toks[i][0] == matching_closer(enc[0]),
        escaped(toks, i),
    ensures
        group_from(toks, i, enc, acc) == group_from(toks, i + 1, enc, acc + toks[i]),
{
    assert(!is_opener(toks[i]) || enc.len() != 0);
}

/// The values whose text survives a parse unchanged: every variant except
/// a float (whose stored literal must stay textually canonical), an array
/// and a nested object, and a function compiled from a live callable with
/// no retained source.  Containers are excluded deliberately, not for want
/// of proof effort: the grouper tracks one open encapsulator (depth 1 by
/// design), so a container serialized *inside* an array's lines stops
/// reading back correctly at nesting depth two — the text round trip of
/// containers holds only as far as the format itself does.
pub open spec fn text_faithful(m: ValueModel) -> bool {
    match m {
        ValueModel::Null => true,
        ValueModel::Bool(_) => true,
        ValueModel::Int(i) => -0x8000_0000_0000_0000 <= i <= 0x7fff_ffff_ffff_ffff,
        ValueModel::Str(_) => true,
        ValueModel::Func(_, cached) => !cached,
        _ => false,
    }
}

/// Round-trip at the value level: serializing a text-faithful value and
/// classifying the text again reproduces the value exactly.
pub proof fn lemma_value_round_trip(m: ValueModel)
    requires
        text_faithful(m),
    ensures
        parse_value_spec(ser_value(m)) == Result::Ok::<ValueModel, ErrorModel>(m),
{
    let s = ser_value(m);
    match m {
        ValueModel::Null => {
        },
        ValueModel::Bool(b) => {
            if b {
                assert(seq!['t', 'r', 'u', 'e'][0] == 't');
                assert(s != seq!['n', 'u', 'l', 'l']);
                assert(s != seq!['f', 'a', 'l', 's', 'e']);
            } else {
                assert(seq!['f', 'a', 'l', 's', 'e'][0] == 'f');
                assert(s != seq!['n', 'u', 'l', 'l']);
            }
        },
        ValueModel::Int(i) => {
            lemma_int_text_round(i);
            assert(s[0] == '-' || is_digit(s[0]));
            assert(('-' as u32) == 45 && ('n' as u32) == 110 && ('f' as u32) == 102 && ('t'
                as u32) == 116);
            assert(s != seq!['n', 'u', 'l', 'l']) by {
                if s == seq!['n', 'u', 'l', 'l'] {
                    assert(s[0] == 'n');
                }
            }
            assert(s != seq!['f', 'a', 'l', 's', 'e']) by {
                if s == seq!['f', 'a', 'l', 's', 'e'] {
                    assert(s[0] == 'f');
                }
            }
            assert(s != seq!['t', 'r', 'u', 'e']) by {
                if s == seq!['t', 'r', 'u', 'e'] {
                    assert(s[0] == 't');
                }
            }
        },
        ValueModel::Str(t) => {
            assert(s =~= seq!['"'] + t + seq!['"']);
            assert(s[0] == '"' && s.last() == '"' && s.len() >= 2);
            lemma_not_other_shapes(s);
            assert(s.subrange(1, s.len() - 1) =~= t);
        },
        ValueModel::Func(src, _) => {
            assert(s =~= seq!['`'] + src + seq!['`']);
            assert(s[0] == '`' && s.last() == '`' && s.len() >= 2);
            lemma_not_other_shapes(s);
            assert(s.subrange(1, s.len() - 1) =~= src);
        },
        _ => {
        },
    }
}

/// A fragment opening with a quote or a backtick is not a literal, an
/// integer, a float, an array or an object.
proof fn lemma_not_other_shapes(s: Seq<char>)
    requires
        s.len() >= 1,
        s[0] == '"' || s[0] == '`',
    ensures
        s != seq!['n', 'u', 'l', 'l'],
        s != seq!['f', 'a', 'l', 's', 'e'],
        s != seq!['t', 'r', 'u', 'e'],
        !parses_as_i64(s),
        !is_float_syntax(s),
        s[0] != '[' && s[0] != '{',
{
    assert(('"' as u32) == 34 && ('`' as u32) == 96);
    assert(s != seq!['n', 'u', 'l', 'l']) by {
        if s == seq!['n', 'u', 'l', 'l'] {
            assert(s[0] == 'n');
        }
    }
    assert(s != seq!['f', 'a', 'l', 's', 'e']) by {
        if s == seq!['f', 'a', 'l', 's', 'e'] {
            assert(s[0] == 'f');
        }
    }
    assert(s != seq!['t', 'r', 'u', 'e']) by {
        if s == seq!['t', 'r', 'u', 'e'] {
            assert(s[0] == 't');
        }
    }
    assert(!parses_as_i64(s)) by {
        if parses_as_i64(s) {
            assert(crate::text::int_digits(s) == s);
            assert(is_digit(s[0]));
        }
    }
    assert(!is_float_syntax(s)) by {
        if is_float_syntax(s) {
            lemma_float_first_char(s);
        }
    }
}

/// Text of plain word characters: no delimiter, no whitespace.
pub open spec fn plain_text(s: Seq<char>) -> bool {
    forall|i: int| 0 <= i < s.len() ==> !is_delim(#[trigger] s[i]) && !is_ws(s[i])
}

/// One of the scalar shapes whose literal text holds no delimiter and no
/// whitespace: null, a boolean, or a 64-bit integer.
pub open spec fn flat_value(m: ValueModel) -> bool {
    match m {
        ValueModel::Null => true,
        ValueModel::Bool(_) => true,
        ValueModel::Int(i) => -0x8000_0000_0000_0000 <= i <= 0x7fff_ffff_ffff_ffff,
        _ => false,
    }
}

/// A flat record list: unique plain-word keys, each holding a scalar.
pub open spec fn flat_entries(es: Seq<(Seq<char>, ValueModel)>) -> bool {
    &&& keys_unique(es)
    &&& forall|j: int|
        0 <= j < es.len() ==> plain_text((#[trigger] es[j]).0) && es[j].0.len() > 0
            && flat_value(es[j].1)
}

/// The token list the lexer produces for a serialized flat record list.
pub open spec fn flat_tokens(es: Seq<(Seq<char>, ValueModel)>) -> Seq<Seq<char>>
    decreases es,
{
    if es.len() == 0 {
        seq![Seq::<char>::empty()]
    } else {
        seq![es[0].0, seq![':'], seq![' '] + ser_value(es[0].1), seq!['\n']] + flat_tokens(
            es.drop_first(),
        )
    }
}

/// The same tokens with the final empty span gone.
pub open spec fn flat_clean(es: Seq<(Seq<char>, ValueModel)>) -> Seq<Seq<char>>
    decreases es,
{
    if es.len() == 0 {
        Seq::empty()
    } else {
        seq![es[0].0, seq![':'], seq![' '] + ser_value(es[0].1), seq!['\n']] + flat_clean(
            es.drop_first(),
        )
    }
}

/// The fragments of a serialized flat record list.
pub open spec fn flat_frags(es: Seq<(Seq<char>, ValueModel)>) -> Seq<Seq<char>>
    decreases es,
{
    if es.len() == 0 {
        Seq::empty()
    } else {
        seq![es[0].0, seq![':'], ser_value(es[0].1)] + flat_frags(es.drop_first())
    }
}

/// A scalar's literal text is nonempty plain-word text.
proof fn lemma_scalar_text(m: ValueModel)
    requires
        flat_value(m),
    ensures
        ser_value(m).len() > 0,
        plain_text(ser_value(m)),
{
    let s = ser_value(m);
    match m {
        ValueModel::Null => {
            assert forall|i: int| 0 <= i < s.len() implies !is_delim(#[trigger] s[i]) && !is_ws(
                s[i],
            ) by {
                assert(s =~= seq!['n', 'u', 'l', 'l']);
                if i == 0 {
                } else if i == 1 {
                } else if i == 2 {
                }
            }
        },
        ValueModel::Bool(b) => {
            assert forall|i: int| 0 <= i < s.len() implies !is_delim(#[trigger] s[i]) && !is_ws(
                s[i],
            ) by {
                if b {
                    assert(s =~= seq!['t', 'r', 'u', 'e']);
                } else {
                    assert(s =~= seq!['f', 'a', 'l', 's', 'e']);
                }
                if i == 0 {
                } else if i == 1 {
                } else if i == 2 {
                } else if i == 3 {
                }
            }
        },
        ValueModel::Int(i) => {
            lemma_int_text_round(i);
            if i < 0 {
                lemma_nat_text_digits(-i);
                assert forall|j: int| 0 <= j < s.len() implies !is_delim(#[trigger] s[j])
                    && !is_ws(s[j]) by {
                    if j == 0 {
                        assert(s[0] == '-');
                    } else {
                        assert(s[j] == nat_text(-i)[j - 1]);
                        assert(is_digit(nat_text(-i)[j - 1]));
                    }
                }
            } else {
                lemma_nat_text_digits(i);
                assert(s == nat_text(i));
                assert forall|j: int| 0 <= j < s.len() implies !is_delim(#[trigger] s[j])
                    && !is_ws(s[j]) by {
                    assert(is_digit(nat_text(i)[j]));
                }
            }
        },
        _ => {
        },
    }
}

/// The premises carry over to the tail of a record list.
proof fn lemma_flat_tail(es: Seq<(Seq<char>, ValueModel)>)
    requires
        flat_entries(es),
        es.len() > 0,
    ensures
        flat_entries(es.drop_first()),
{
    assert(forall|j: int|
        0 <= j < es.drop_first().len() ==> #[trigger] es.drop_first()[j] == es[j + 1]);
}

/// Lexing the serialized text of a flat record list.
proof fn lemma_flat_lex(es: Seq<(Seq<char>, ValueModel)>)
    requires
        flat_entries(es),
    ensures
        lex_from(ser_entries(es), 0) == flat_tokens(es),
    decreases es,
{
    if es.len() == 0 {
        lemma_lex_span(Seq::<char>::empty());
    } else {
        let k = es[0].0;
        let vt = ser_value(es[0].1);
        let rest = ser_entries(es.drop_first());
        lemma_scalar_text(es[0].1);
        let b = seq![' '] + vt + seq!['\n'] + rest;
        assert(ser_entries(es) =~= k + seq![':'] + b);
        lemma_lex_cons(k, ':', b);
        let a2 = seq![' '] + vt;
        assert(b =~= a2 + seq!['\n'] + rest);
        assert(forall|i: int| 0 <= i < a2.len() ==> !is_delim(#[trigger] a2[i])) by {
            assert(a2[0] == ' ');
            assert(forall|i: int| 1 <= i < a2.len() ==> a2[i] == vt[i - 1]);
        }
        lemma_lex_cons(a2, '\n', rest);
        lemma_flat_tail(es);
        lemma_flat_lex(es.drop_first());
        assert(lex_from(ser_entries(es), 0) =~= flat_tokens(es));
    }
}

/// No token of a flat record list opens an encapsulated region.
proof fn lemma_flat_tokens_plain(es: Seq<(Seq<char>, ValueModel)>, j: int)
    requires
        flat_entries(es),
        0 <= j < flat_tokens(es).len(),
    ensures
        !is_opener(flat_tokens(es)[j]),
    decreases es,
{
    if es.len() == 0 {
    } else {
        lemma_scalar_text(es[0].1);
        if j < 4 {
            if j == 0 {
                if es[0].0.len() == 1 {
                    assert(!is_delim(es[0].0[0]));
                }
            }
        } else {
            lemma_flat_tail(es);
            lemma_flat_tokens_plain(es.drop_first(), j - 4);
            assert(flat_tokens(es)[j] == flat_tokens(es.drop_first())[j - 4]);
        }
    }
}

/// Grouping leaves the flat tokens as they are, dropping the empty tail.
proof fn lemma_flat_clean(es: Seq<(Seq<char>, ValueModel)>)
    requires
        flat_entries(es),
    ensures
        nonempty_from(flat_tokens(es), 0) == flat_clean(es),
    decreases es,
{
    let t = flat_tokens(es);
    if es.len() == 0 {
        assert(t[0].len() == 0);
        assert(nonempty_from(t, 0) == nonempty_from(t, 1));
    } else {
        lemma_scalar_text(es[0].1);
        assert(t[0].len() > 0 && t[1].len() > 0 && t[2].len() > 0 && t[3].len() > 0);
        assert(nonempty_from(t, 0) == seq![t[0]] + nonempty_from(t, 1));
        assert(nonempty_from(t, 1) == seq![t[1]] + nonempty_from(t, 2));
        assert(nonempty_from(t, 2) == seq![t[2]] + nonempty_from(t, 3));
        assert(nonempty_from(t, 3) == seq![t[3]] + nonempty_from(t, 4));
        lemma_nonempty_shift(t, 4);
        assert(t.skip(4) =~= flat_tokens(es.drop_first()));
        lemma_flat_tail(es);
        lemma_flat_clean(es.drop_first());
        assert(nonempty_from(t, 0) =~= flat_clean(es));
    }
}

/// A nonempty plain-word text is already trimmed.
proof fn lemma_trim_plain(s: Seq<char>)
    requires
        plain_text(s),
    ensures
        trimmed(s) == s,
{
    assert(crate::text::trim_front(s) == s) by {
        if s.len() > 0 {
            assert(!is_ws(s[0]));
        }
    }
    assert(crate::text::trim_back(s) == s) by {
        if s.len() > 0 {
            assert(!is_ws(s.last()));
        }
    }
}

/// Trimming the flat tokens yields the flat fragments.
proof fn lemma_flat_frags(es: Seq<(Seq<char>, ValueModel)>)
    requires
        flat_entries(es),
    ensures
        trim_stage_from(flat_clean(es), 0) == flat_frags(es),
    decreases es,
{
    let t = flat_clean(es);
    if es.len() > 0 {
        let vt = ser_value(es[0].1);
        lemma_scalar_text(es[0].1);
        lemma_trim_plain(es[0].0);
        assert(trimmed(seq![':']) =~= seq![':']) by {
            let c = seq![':'];
            assert(!is_ws(c[0]));
            assert(!is_ws(c.last()));
        }
        assert(trimmed(seq![' '] + vt) == vt) by {
            let a2 = seq![' '] + vt;
            assert(is_ws(a2[0]));
            assert(a2.drop_first() =~= vt);
            assert(crate::text::trim_front(a2) == crate::text::trim_front(vt));
            assert(crate::text::trim_front(vt) == vt) by {
                assert(!is_ws(vt[0]));
            }
            assert(crate::text::trim_back(vt) == vt) by {
                assert(!is_ws(vt.last()));
            }
        }
        assert(trimmed(seq!['\n']) =~= Seq::<char>::empty()) by {
            let nl = seq!['\n'];
            assert(is_ws(nl[0]));
            assert(nl.drop_first() =~= Seq::<char>::empty());
            assert(crate::text::trim_front(nl) == crate::text::trim_front(
                Seq::<char>::empty(),
            ));
        }
        assert(trim_stage_from(t, 0) == seq![trimmed(t[0])] + trim_stage_from(t, 1));
        assert(trim_stage_from(t, 1) == seq![trimmed(t[1])] + trim_stage_from(t, 2));
        assert(trim_stage_from(t, 2) == seq![trimmed(t[2])] + trim_stage_from(t, 3));
        assert(trim_stage_from(t, 3) == trim_stage_from(t, 4));
        lemma_trim_stage_shift(t, 4);
        assert(t.skip(4) =~= flat_clean(es.drop_first()));
        lemma_flat_tail(es);
        lemma_flat_frags(es.drop_first());
        assert(trim_stage_from(t, 0) =~= flat_frags(es));
    }
}

/// Walking the flat fragments as records rebuilds the record list.
proof fn lemma_flat_records(
    es: Seq<(Seq<char>, ValueModel)>,
    acc: Seq<(Seq<char>, ValueModel)>,
)
    requires
        flat_entries(es),
        forall|a: int, j: int|
            0 <= a < acc.len() && 0 <= j < es.len() ==> (#[trigger] acc[a]).0 != (
            #[trigger] es[j]).0,
    ensures
        parse_records_spec(flat_frags(es), 0, None, acc) == Result::Ok::<
            Seq<(Seq<char>, ValueModel)>,
            ErrorModel,
        >(acc + es),
    decreases es,
{
    let f = flat_frags(es);
    if es.len() == 0 {
        assert(acc + es =~= acc);
    } else {
        let k = es[0].0;
        let m = es[0].1;
        let vt = ser_value(m);
        lemma_scalar_text(m);
        assert(k != seq![':']) by {
            if k == seq![':'] {
                assert(is_delim(k[0]));
            }
        }
        assert(vt != seq![':']) by {
            if vt == seq![':'] {
                assert(is_delim(vt[0]));
            }
        }
        assert(f[0] == k && f[1] == seq![':'] && f[2] == vt);
        assert(parse_records_spec(f, 0, None, acc) == parse_records_spec(f, 1, Some(k), acc));
        assert(parse_records_spec(f, 1, Some(k), acc) == parse_records_spec(
            f,
            2,
            Some(k),
            acc,
        ));
        lemma_value_round_trip(m);
        assert(parse_records_spec(f, 2, Some(k), acc) == parse_records_spec(
            f,
            3,
            None,
            entry_put(acc, k, m),
        ));
        assert(forall|a: int| 0 <= a < acc.len() ==> (#[trigger] acc[a]).0 != k);
        lemma_entry_put_append(acc, k, m);
        let acc2 = acc.push((k, m));
        lemma_records_shift(f, 3, None, acc2);
        assert(f.skip(3) =~= flat_frags(es.drop_first()));
        lemma_flat_tail(es);
        assert(forall|a: int, j: int|
            0 <= a < acc2.len() && 0 <= j < es.drop_first().len() ==> (#[trigger] acc2[a]).0 != (
            #[trigger] es.drop_first()[j]).0) by {
            assert(forall|j: int|
                0 <= j < es.drop_first().len() ==> #[trigger] es.drop_first()[j] == es[j + 1]);
        }
        lemma_flat_records(es.drop_first(), acc2);
        assert(acc2 + es.drop_first() =~= acc + es);
    }
}

/// Round-trip at the record level: a flat record list — unique plain-word
/// keys holding nulls, booleans and integers — serialized and parsed again
/// is reproduced exactly, keys, values and order alike.
pub proof fn lemma_notation_round_trip(es: Seq<(Seq<char>, ValueModel)>)
    requires
        flat_entries(es),
    ensures
        parse_notation(ser_entries(es)) == Result::Ok::<
            Seq<(Seq<char>, ValueModel)>,
            ErrorModel,
        >(es),
{
    lemma_flat_lex(es);
    assert forall|j: int| 0 <= j < flat_tokens(es).len() implies !is_opener(
        #[trigger] flat_tokens(es)[j],
    ) by {
        lemma_flat_tokens_plain(es, j);
    }
    lemma_group_plain(flat_tokens(es), 0);
    lemma_flat_clean(es);
    lemma_flat_frags(es);
    assert(fragments(ser_entries(es)) == flat_frags(es));
    lemma_flat_records(es, Seq::empty());
    assert(Seq::<(Seq<char>, ValueModel)>::empty() + es =~= es);
}

} // verus!
