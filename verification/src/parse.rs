//! The value parser and the record parser.
//!
//! A trimmed fragment is classified into exactly one value shape, in a
//! fixed order: `null`, the booleans, a 64-bit integer, a float literal,
//! an array, a nested object, a function source, a quoted string, and
//! finally a bare string.  A fragment sequence is read as `key : value`
//! records, last write winning on a duplicate key; a fragment with no `:`
//! after it is the one true syntax failure.

use vstd::prelude::*;

use crate::errors::{BluefoxError, ErrorModel};
use crate::floats::{float_syntax_chars, is_float_syntax};
use crate::lexer::{
    deep, fragments, fragments_exec, lemma_fragments_total, lemma_split_total,
    lemma_total_from_nonneg, lemma_trim_total, split_exec, split_from, total_from,
    trim_stage_exec, trim_stage_from,
};
use crate::model::lemma_seq_model_snoc;
use crate::text::{
    chars_to_string, copy_range, int_of, parse_i64, parses_as_i64, to_char_vec,
};
use crate::value::{entry_put, seq_model, BluefoxData, BluefoxDataType, ValueModel};

verus! {

/// The message of the syntax error for a fragment with no `:` after it.
pub open spec fn expected_colon_msg(frag: Seq<char>) -> Seq<char> {
    "Expected \":\" after "@ + frag
}

/// Classify one trimmed fragment into a value, in the fixed order.
pub open spec fn parse_value_spec(s: Seq<char>) -> Result<ValueModel, ErrorModel>
    decreases s.len(), 0nat,
    via parse_value_dec
{
    if s == seq!['n', 'u', 'l', 'l'] {
        Result::Ok(ValueModel::Null)
    } else if s == seq!['f', 'a', 'l', 's', 'e'] {
        Result::Ok(ValueModel::Bool(false))
    } else if s == seq!['t', 'r', 'u', 'e'] {
        Result::Ok(ValueModel::Bool(true))
    } else if parses_as_i64(s) {
        Result::Ok(ValueModel::Int(int_of(s)))
    } else if is_float_syntax(s) {
        Result::Ok(ValueModel::Float(s))
    } else if s.len() >= 2 && s[0] == '[' && s.last() == ']' {
        let pieces = trim_stage_from(split_from(s.subrange(1, s.len() - 1), 0, '\n'), 0);
        match parse_pieces_spec(pieces, 0) {
            Result::Ok(vs) => Result::Ok(ValueModel::Arr(vs)),
            Result::Err(e) => Result::Err(e),
        }
    } else if s.len() >= 2 && s[0] == '{' && s.last() == '}' {
        match parse_records_spec(fragments(s.subrange(1, s.len() - 1)), 0, None, Seq::empty()) {
            Result::Ok(es) => Result::Ok(ValueModel::Obj(es)),
            Result::Err(e) => Result::Err(e),
        }
    } else if s.len() >= 2 && s[0] == '`' && s.last() == '`' {
        Result::Ok(ValueModel::Func(s.subrange(1, s.len() - 1), false))
    } else if s.len() >= 2 && s[0] == '"' && s.last() == '"' {
        Result::Ok(ValueModel::Str(s.subrange(1, s.len() - 1)))
    } else {
        Result::Ok(ValueModel::Str(s))
    }
}

#[via_fn]
proof fn parse_value_dec(s: Seq<char>) {
    if s.len() >= 2 {
        let interior = s.subrange(1, s.len() - 1);
        lemma_split_total(interior, 0, '\n');
        lemma_trim_total(split_from(interior, 0, '\n'), 0);
        lemma_total_from_nonneg(trim_stage_from(split_from(interior, 0, '\n'), 0), 0);
        lemma_fragments_total(interior);
        lemma_total_from_nonneg(fragments(interior), 0);
    }
}

/// Parse each array element in order; the first failure is the result.
pub open spec fn parse_pieces_spec(ps: Seq<Seq<char>>, i: int) -> Result<
    Seq<ValueModel>,
    ErrorModel,
>
    decreases total_from(ps, i), ps.len() - i + 1,
    via parse_pieces_dec
{
    if i < 0 || i >= ps.len() {
        Result::Ok(Seq::empty())
    } else {
        match parse_value_spec(ps[i]) {
            Result::Ok(v) => match parse_pieces_spec(ps, i + 1) {
                Result::Ok(rest) => Result::Ok(seq![v] + rest),
                Result::Err(e) => Result::Err(e),
            },
            Result::Err(e) => Result::Err(e),
        }
    }
}

#[via_fn]
proof fn parse_pieces_dec(ps: Seq<Seq<char>>, i: int) {
    if 0 <= i < ps.len() {
        lemma_total_from_nonneg(ps, i + 1);
        assert(total_from(ps, i) == ps[i].len() + total_from(ps, i + 1));
    }
}

/// Walk the fragments as records: a `:` is a pure separator; a pending key
/// takes the next fragment as its value; a fragment followed by `:` becomes
/// the pending key; anything else is a syntax error.
pub open spec fn parse_records_spec(
    fs: Seq<Seq<char>>,
    i: int,
    pending: Option<Seq<char>>,
    acc: Seq<(Seq<char>, ValueModel)>,
) -> Result<Seq<(Seq<char>, ValueModel)>, ErrorModel>
    decreases total_from(fs, i), fs.len() - i + 1,
    via parse_records_dec
{
    if i < 0 || i >= fs.len() {
        Result::Ok(acc)
    } else if fs[i] == seq![':'] {
        parse_records_spec(fs, i + 1, pending, acc)
    } else if pending is Some {
        match parse_value_spec(fs[i]) {
            Result::Ok(v) => parse_records_spec(fs, i + 1, None, entry_put(acc, pending->0, v)),
            Result::Err(e) => Result::Err(e),
        }
    } else if i + 1 < fs.len() && fs[i + 1] == seq![':'] {
        parse_records_spec(fs, i + 1, Some(fs[i]), acc)
    } else {
        Result::Err(ErrorModel::Syntax(expected_colon_msg(fs[i])))
    }
}

#[via_fn]
proof fn parse_records_dec(
    fs: Seq<Seq<char>>,
    i: int,
    pending: Option<Seq<char>>,
    acc: Seq<(Seq<char>, ValueModel)>,
) {
    if 0 <= i < fs.len() {
        lemma_total_from_nonneg(fs, i + 1);
        assert(total_from(fs, i) == fs[i].len() + total_from(fs, i + 1));
    }
}

/// The parse of a whole notation text.
pub open spec fn parse_notation(text: Seq<char>) -> Result<
    Seq<(Seq<char>, ValueModel)>,
    ErrorModel,
> {
    parse_records_spec(fragments(text), 0, None, Seq::empty())
}

/// The model of a pending key.
pub open spec fn pending_model(p: Option<String>) -> Option<Seq<char>> {
    match p {
        Some(k) => Some(k@),
        None => None,
    }
}

/// Classify one trimmed fragment into a value.
pub fn parse_fragment(frag: &Vec<char>) -> (r: Result<BluefoxDataType, BluefoxError>)
    ensures
        r is Ok <==> parse_value_spec(frag@) is Ok,
        r matches Ok(v) ==> Result::Ok::<ValueModel, ErrorModel>(v@) == parse_value_spec(frag@),
        r matches Err(e) ==> Result::Err::<ValueModel, ErrorModel>(e@) == parse_value_spec(
            frag@,
        ),
    decreases frag@.len(), 0nat,
{
    let n = frag.len();
    if n == 4 && frag[0] == 'n' && frag[1] == 'u' && frag[2] == 'l' && frag[3] == 'l' {
        proof {
            assert(frag@ =~= seq!['n', 'u', 'l', 'l']);
        }
        return Ok(BluefoxDataType::NULL);
    }
    if n == 5 && frag[0] == 'f' && frag[1] == 'a' && frag[2] == 'l' && frag[3] == 's' && frag[4]
        == 'e' {
        proof {
            assert(frag@ =~= seq!['f', 'a', 'l', 's', 'e']);
        }
        return Ok(BluefoxDataType::BOOL(false));
    }
    if n == 4 && frag[0] == 't' && frag[1] == 'r' && frag[2] == 'u' && frag[3] == 'e' {
        proof {
            assert(frag@ =~= seq!['t', 'r', 'u', 'e']);
        }
        return Ok(BluefoxDataType::BOOL(true));
    }
    proof {
        assert(frag@ != seq!['n', 'u', 'l', 'l'] && frag@ != seq!['f', 'a', 'l', 's', 'e']
            && frag@ != seq!['t', 'r', 'u', 'e']) by {
            if frag@ == seq!['n', 'u', 'l', 'l'] || frag@ == seq!['f', 'a', 'l', 's', 'e']
                || frag@ == seq!['t', 'r', 'u', 'e'] {
                assert(false);
            }
        }
    }
    if let Some(x) = parse_i64(frag) {
        return Ok(BluefoxDataType::INT(x));
    }
    if float_syntax_chars(frag) {
        return Ok(BluefoxDataType::FLOAT(chars_to_string(frag)));
    }
    if n >= 2 && frag[0] == '[' && frag[n - 1] == ']' {
        let interior = copy_range(frag, 1, n - 1);
        let raw = split_exec(&interior, '\n');
        let pieces = trim_stage_exec(&raw);
        let ghost pm = trim_stage_from(split_from(frag@.subrange(1, n - 1), 0, '\n'), 0);
        proof {
            assert(deep(pieces@) == pm);
            lemma_split_total(frag@.subrange(1, n - 1), 0, '\n');
            lemma_trim_total(split_from(frag@.subrange(1, n - 1), 0, '\n'), 0);
        }
        let m = pieces.len();
        let mut out: Vec<BluefoxDataType> = Vec::new();
        let mut i: usize = 0;
        proof {
            assert(seq_model(out@) =~= Seq::<ValueModel>::empty());
            assert(parse_pieces_spec(pm, 0) == arr_combine(
                seq_model(out@),
                parse_pieces_spec(pm, 0),
            )) by {
                match parse_pieces_spec(pm, 0) {
                    Result::Ok(rest) => {
                        assert(seq_model(out@) + rest =~= rest);
                    },
                    Result::Err(_) => {},
                }
            }
        }
        while i < m
            invariant
                i <= m,
                m == pieces@.len(),
                pm == deep(pieces@),
                pm == trim_stage_from(split_from(frag@.subrange(1, n as int - 1), 0, '\n'), 0),
                n == frag@.len(),
                n >= 2,
                frag@ != seq!['n', 'u', 'l', 'l'],
                frag@ != seq!['f', 'a', 'l', 's', 'e'],
                frag@ != seq!['t', 'r', 'u', 'e'],
                !parses_as_i64(frag@),
                !is_float_syntax(frag@),
                frag@[0] == '[' && frag@.last() == ']',
                total_from(pm, 0) <= n - 2,
                parse_pieces_spec(pm, 0) == arr_combine(
                    seq_model(out@),
                    parse_pieces_spec(pm, i as int),
                ),
            decreases m - i,
        {
            proof {
                assert(pm[i as int] == pieces@[i as int]@);
                lemma_piece_small(pm, i as int);
            }
            match parse_fragment(&pieces[i]) {
                Ok(v) => {
                    let ghost prev = out@;
                    out.push(v);
                    proof {
                        assert(out@.drop_last() =~= prev);
                        lemma_seq_model_snoc(out@);
                        assert(parse_value_spec(pm[i as int]) == Result::Ok::<
                            ValueModel,
                            ErrorModel,
                        >(v@));
                        match parse_pieces_spec(pm, i + 1) {
                            Result::Ok(rest) => {
                                assert(seq_model(prev) + (seq![v@] + rest) =~= seq_model(out@)
                                    + rest);
                            },
                            Result::Err(_) => {},
                        }
                    }
                },
                Err(e) => {
                    proof {
                        assert(parse_value_spec(pm[i as int]) == Result::Err::<
                            ValueModel,
                            ErrorModel,
                        >(e@));
                        assert(parse_pieces_spec(pm, i as int) == Result::Err::<
                            Seq<ValueModel>,
                            ErrorModel,
                        >(e@));
                        assert(parse_value_spec(frag@) == Result::Err::<ValueModel, ErrorModel>(
                            e@,
                        ));
                    }
                    return Err(e);
                },
            }
            i += 1;
        }
        proof {
            assert(parse_pieces_spec(pm, m as int) == Result::Ok::<Seq<ValueModel>, ErrorModel>(
                Seq::empty(),
            ));
            assert(seq_model(out@) + Seq::<ValueModel>::empty() =~= seq_model(out@));
        }
        return Ok(BluefoxDataType::ARRAY(out));
    }
    if n >= 2 && frag[0] == '{' && frag[n - 1] == '}' {
        let interior = copy_range(frag, 1, n - 1);
        let frags = fragments_exec(&interior);
        proof {
            lemma_fragments_total(frag@.subrange(1, n - 1));
            lemma_total_from_nonneg(fragments(frag@.subrange(1, n - 1)), 0);
        }
        match parse_records(&frags) {
            Ok(d) => {
                return Ok(BluefoxDataType::DATA(d));
            },
            Err(e) => {
                return Err(e);
            },
        }
    }
    if n >= 2 && frag[0] == '`' && frag[n - 1] == '`' {
        let interior = copy_range(frag, 1, n - 1);
        return Ok(BluefoxDataType::FUNCTION(chars_to_string(&interior), None));
    }
    if n >= 2 && frag[0] == '"' && frag[n - 1] == '"' {
        let interior = copy_range(frag, 1, n - 1);
        return Ok(BluefoxDataType::STRING(chars_to_string(&interior)));
    }
    Ok(BluefoxDataType::STRING(chars_to_string(frag)))
}

/// An element's characters are bounded by the whole list's.
proof fn lemma_piece_small(ps: Seq<Seq<char>>, i: int)
    requires
        0 <= i < ps.len(),
    ensures
        ps[i].len() <= total_from(ps, 0),
{
    crate::lexer::lemma_total_from_elem(ps, 0, i);
}

/// Combining already-parsed elements with the rest of an element parse.
pub open spec fn arr_combine(m: Seq<ValueModel>, r: Result<Seq<ValueModel>, ErrorModel>) -> Result<
    Seq<ValueModel>,
    ErrorModel,
> {
    match r {
        Result::Ok(rest) => Result::Ok(m + rest),
        Result::Err(e) => Result::Err(e),
    }
}

/// Read a fragment sequence as `key : value` records.
pub fn parse_records(frags: &Vec<Vec<char>>) -> (r: Result<BluefoxData, BluefoxError>)
    ensures
        r is Ok <==> parse_records_spec(deep(frags@), 0, None, Seq::empty()) is Ok,
        r matches Ok(d) ==> Result::Ok::<Seq<(Seq<char>, ValueModel)>, ErrorModel>(d@)
            == parse_records_spec(deep(frags@), 0, None, Seq::empty()) && d.wf(),
        r matches Err(e) ==> Result::Err::<Seq<(Seq<char>, ValueModel)>, ErrorModel>(e@)
            == parse_records_spec(deep(frags@), 0, None, Seq::empty()),
    decreases total_from(deep(frags@), 0), deep(frags@).len() + 2,
{
    let ghost fm = deep(frags@);
    let n = frags.len();
    let mut data = BluefoxData::new();
    let mut pending: Option<String> = None;
    let mut i: usize = 0;
    proof {
        assert(data@ =~= Seq::<(Seq<char>, ValueModel)>::empty());
        lemma_total_from_nonneg(fm, 0);
    }
    while i < n
        invariant
            i <= n,
            n == frags@.len(),
            fm == deep(frags@),
            total_from(fm, 0) >= 0,
            data.wf(),
            parse_records_spec(fm, 0, None, Seq::empty()) == parse_records_spec(
                fm,
                i as int,
                pending_model(pending),
                data@,
            ),
        decreases n - i,
    {
        proof {
            assert(fm[i as int] == frags@[i as int]@);
        }
        let f = &frags[i];
        let is_sep = f.len() == 1 && f[0] == ':';
        proof {
            assert(is_sep == (fm[i as int] == seq![':'])) by {
                if f@.len() == 1 && f@[0] == ':' {
                    assert(f@ =~= seq![':']);
                }
                if f@ == seq![':'] {
                    assert(f@.len() == 1 && f@[0] == ':');
                }
            }
        }
        if is_sep {
        } else if pending.is_some() {
            let k = pending.unwrap();
            pending = None;
            proof {
                lemma_piece_small(fm, i as int);
            }
            match parse_fragment(f) {
                Ok(v) => {
                    data.insert(k, v);
                },
                Err(e) => {
                    return Err(e);
                },
            }
        } else {
            let next_is_sep = i + 1 < n && frags[i + 1].len() == 1 && frags[i + 1][0] == ':';
            proof {
                if i + 1 < n {
                    assert(fm[i + 1] == frags@[i + 1]@);
                    assert((frags@[i + 1]@.len() == 1 && frags@[i + 1]@[0] == ':') == (fm[i + 1]
                        == seq![':'])) by {
                        if frags@[i + 1]@.len() == 1 && frags@[i + 1]@[0] == ':' {
                            assert(frags@[i + 1]@ =~= seq![':']);
                        }
                        if frags@[i + 1]@ == seq![':'] {
                            assert(frags@[i + 1]@.len() == 1 && frags@[i + 1]@[0] == ':');
                        }
                    }
                }
            }
            if next_is_sep {
                pending = Some(chars_to_string(f));
            } else {
                let mut msg = String::new();
                msg.append("Expected \":\" after ");
                let ftext = chars_to_string(f);
                msg.append(ftext.as_str());
                proof {
                    assert(msg@ == expected_colon_msg(fm[i as int]));
                }
                return Err(BluefoxError::SyntaxError(msg));
            }
        }
        i += 1;
    }
    Ok(data)
}

impl BluefoxDataType {
    /// Classify one trimmed fragment string into a value.
    pub fn parse(item: &str) -> (r: Result<BluefoxDataType, BluefoxError>)
        ensures
            r is Ok <==> parse_value_spec(item@) is Ok,
            r matches Ok(v) ==> Result::Ok::<ValueModel, ErrorModel>(v@) == parse_value_spec(item@),
            r matches Err(e) ==> Result::Err::<ValueModel, ErrorModel>(e@) == parse_value_spec(
                item@,
            ),
    {
        let chars = to_char_vec(item);
        parse_fragment(&chars)
    }
}

impl BluefoxData {
    /// Parse a whole notation text into a data tree.
    pub fn try_from(value: &str) -> (r: Result<BluefoxData, BluefoxError>)
        ensures
            r is Ok <==> parse_notation(value@) is Ok,
            r matches Ok(d) ==> Result::Ok::<Seq<(Seq<char>, ValueModel)>, ErrorModel>(d@)
                == parse_notation(value@) && d.wf(),
            r matches Err(e) ==> Result::Err::<Seq<(Seq<char>, ValueModel)>, ErrorModel>(e@)
                == parse_notation(value@),
    {
        let chars = to_char_vec(value);
        let frags = fragments_exec(&chars);
        parse_records(&frags)
    }
}

/// Walking the records from `i` is walking the suffix from its start.
pub proof fn lemma_records_shift(
    fs: Seq<Seq<char>>,
    i: int,
    pending: Option<Seq<char>>,
    acc: Seq<(Seq<char>, ValueModel)>,
)
    requires
        0 <= i <= fs.len(),
    ensures
        parse_records_spec(fs, i, pending, acc) == parse_records_spec(fs.skip(i), 0, pending, acc),
    decreases fs.len() - i,
{
    if i >= fs.len() {
        assert(fs.skip(i) =~= Seq::<Seq<char>>::empty());
    } else {
        let t = fs.skip(i);
        assert(t[0] == fs[i]);
        if i + 1 < fs.len() {
            assert(t[1] == fs[i + 1]);
        }
        if fs[i] == seq![':'] {
            lemma_records_shift(fs, i + 1, pending, acc);
            lemma_records_shift(t, 1, pending, acc);
            assert(t.skip(1) =~= fs.skip(i + 1));
        } else if pending is Some {
            match parse_value_spec(fs[i]) {
                Result::Ok(v) => {
                    lemma_records_shift(fs, i + 1, None, entry_put(acc, pending->0, v));
                    lemma_records_shift(t, 1, None, entry_put(acc, pending->0, v));
                    assert(t.skip(1) =~= fs.skip(i + 1));
                },
                Result::Err(_) => {},
            }
        } else if i + 1 < fs.len() && fs[i + 1] == seq![':'] {
            lemma_records_shift(fs, i + 1, Some(fs[i]), acc);
            lemma_records_shift(t, 1, Some(fs[i]), acc);
            assert(t.skip(1) =~= fs.skip(i + 1));
        } else {
            assert(i + 1 < fs.len() ==> t[1] == fs[i + 1]);
            assert((1 < t.len() && t[1] == seq![':']) == (i + 1 < fs.len() && fs[i + 1]
                == seq![':']));
        }
    }
}

} // verus!
