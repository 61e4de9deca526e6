//! The script bridge: converts the data model to and from the engine's
//! native values, resolves dotted/bracketed member paths, drives lazy
//! function compilation and invocation, and resynchronizes the tree after
//! a call.
//!
//! Engine values are opaque; every decoded value is taken apart by verified
//! code, and whatever the engine hands back, the rebuilt tree holds unique
//! keys and no `Null`-valued keys (the engine's table representation cannot
//! hold one, and the rebuild drops any that would arise).

use vstd::prelude::*;

use crate::engine::{
    clone_function, decode_value, encode_value, lua_call, lua_compile, lua_error_text,
    lua_globals, new_table, table_entries, table_get, table_get_int, table_push, table_set,
    LuaVal,
};
use crate::errors::{BluefoxError, ErrorModel};
use crate::text::{chars_to_string, int_of, parse_i64, parses_as_i64, to_char_vec, trimmed};
use crate::value::{
    entries_null_free, obj_values_not_null, value_null_free, BluefoxData, BluefoxDataType,
    ValueModel,
};

verus! {

/// How deep a conversion from engine values will follow nested tables
/// before reporting the value unrepresentable (a cyclic table never ends).
pub const CONVERT_DEPTH: u64 = 1024;

/// The characters that separate path segments: dots and brackets alike.
pub open spec fn is_path_sep(c: char) -> bool {
    c == '.' || c == '[' || c == ']'
}

/// The position of the first separator at or after `pos`, or the length.
pub open spec fn scan_psep(s: Seq<char>, pos: int) -> int
    decreases s.len() - pos,
{
    if pos >= s.len() {
        s.len() as int
    } else if is_path_sep(s[pos]) {
        pos
    } else {
        scan_psep(s, pos + 1)
    }
}

pub proof fn lemma_scan_psep(s: Seq<char>, pos: int)
    requires
        0 <= pos <= s.len(),
    ensures
        pos <= scan_psep(s, pos) <= s.len(),
        forall|j: int| pos <= j < scan_psep(s, pos) ==> !is_path_sep(s[j]),
        scan_psep(s, pos) < s.len() ==> is_path_sep(s[scan_psep(s, pos)]),
    decreases s.len() - pos,
{
    if pos < s.len() && !is_path_sep(s[pos]) {
        lemma_scan_psep(s, pos + 1);
    }
}

/// The raw pieces of a path, split at every separator.
pub open spec fn psplit_from(s: Seq<char>, pos: int) -> Seq<Seq<char>>
    decreases s.len() - pos,
    when 0 <= pos <= s.len()
    via psplit_from_dec
{
    let j = scan_psep(s, pos);
    if j >= s.len() {
        seq![s.subrange(pos, s.len() as int)]
    } else {
        seq![s.subrange(pos, j)] + psplit_from(s, j + 1)
    }
}

#[via_fn]
proof fn psplit_from_dec(s: Seq<char>, pos: int) {
    lemma_scan_psep(s, pos);
}

/// The pieces whose text is not blank, kept as they stand.
pub open spec fn drop_blank_from(ps: Seq<Seq<char>>, i: int) -> Seq<Seq<char>>
    decreases ps.len() - i,
{
    if i >= ps.len() {
        Seq::empty()
    } else if trimmed(ps[i]).len() > 0 {
        seq![ps[i]] + drop_blank_from(ps, i + 1)
    } else {
        drop_blank_from(ps, i + 1)
    }
}

/// The segments of a member path: split on dots and brackets, blanks
/// discarded, so `a.b[1]` and `a.b.1` read the same.
pub open spec fn path_segments(s: Seq<char>) -> Seq<Seq<char>> {
    drop_blank_from(psplit_from(s, 0), 0)
}

proof fn lemma_scan_psep_agree(s1: Seq<char>, s2: Seq<char>, pos: int)
    requires
        0 <= pos <= s1.len(),
        s1.len() == s2.len(),
        forall|i: int|
            0 <= i < s1.len() ==> #[trigger] s1[i] == s2[i] || (is_path_sep(s1[i]) && is_path_sep(
                s2[i],
            )),
    ensures
        scan_psep(s1, pos) == scan_psep(s2, pos),
    decreases s1.len() - pos,
{
    if pos < s1.len() {
        assert(is_path_sep(s1[pos]) == is_path_sep(s2[pos]));
        if !is_path_sep(s1[pos]) {
            lemma_scan_psep_agree(s1, s2, pos + 1);
        }
    }
}

proof fn lemma_psplit_agree(s1: Seq<char>, s2: Seq<char>, pos: int)
    requires
        0 <= pos <= s1.len(),
        s1.len() == s2.len(),
        forall|i: int|
            0 <= i < s1.len() ==> #[trigger] s1[i] == s2[i] || (is_path_sep(s1[i]) && is_path_sep(
                s2[i],
            )),
    ensures
        psplit_from(s1, pos) == psplit_from(s2, pos),
    decreases s1.len() - pos,
{
    lemma_scan_psep(s1, pos);
    lemma_scan_psep_agree(s1, s2, pos);
    let j = scan_psep(s1, pos);
    assert(s1.subrange(pos, j) =~= s2.subrange(pos, j)) by {
        assert(forall|k: int| pos <= k < j ==> !is_path_sep(s1[k]));
        assert(forall|k: int| pos <= k < j ==> #[trigger] s1[k] == s2[k]);
    }
    if j < s1.len() {
        lemma_psplit_agree(s1, s2, j + 1);
    } else {
        assert(s1.subrange(pos, s1.len() as int) =~= s2.subrange(pos, s2.len() as int));
    }
}

/// Dots and brackets are interchangeable separators: two paths of the same
/// length that agree except where both hold a separator resolve to the
/// same segments, so `execute` treats `a.b.1` and `a.b[1]` alike.
pub proof fn lemma_path_separator_equivalence(s1: Seq<char>, s2: Seq<char>)
    requires
        s1.len() == s2.len(),
        forall|i: int|
            0 <= i < s1.len() ==> #[trigger] s1[i] == s2[i] || (is_path_sep(s1[i]) && is_path_sep(
                s2[i],
            )),
    ensures
        path_segments(s1) == path_segments(s2),
{
    lemma_psplit_agree(s1, s2, 0);
}

/// The raw pieces of a path.
#[verifier::loop_isolation(false)]
fn psplit_exec(v: &Vec<char>) -> (r: Vec<Vec<char>>)
    ensures
        crate::lexer::deep(r@) == psplit_from(v@, 0),
{
    let n = v.len();
    let mut pieces: Vec<Vec<char>> = Vec::new();
    let mut pos: usize = 0;
    loop
        invariant
            pos <= n,
            psplit_from(v@, 0) == crate::lexer::deep(pieces@) + psplit_from(v@, pos as int),
        decreases n - pos,
    {
        let mut j: usize = pos;
        while j < n && !(v[j] == '.' || v[j] == '[' || v[j] == ']')
            invariant
                pos <= j <= n,
                forall|k: int| pos <= k < j ==> !is_path_sep(v@[k]),
            decreases n - j,
        {
            j += 1;
        }
        proof {
            lemma_scan_psep(v@, pos as int);
            assert(scan_psep(v@, pos as int) == j) by {
                if scan_psep(v@, pos as int) < j {
                    assert(!is_path_sep(v@[scan_psep(v@, pos as int)]));
                } else if j < scan_psep(v@, pos as int) {
                    assert(!is_path_sep(v@[j as int]));
                }
            }
        }
        let piece = crate::text::copy_range(v, pos, j);
        let ghost prev = crate::lexer::deep(pieces@);
        pieces.push(piece);
        if j < n {
            proof {
                assert(crate::lexer::deep(pieces@) =~= prev + seq![v@.subrange(
                    pos as int,
                    j as int,
                )]);
                assert(crate::lexer::deep(pieces@) + psplit_from(v@, j + 1) =~= prev
                    + psplit_from(v@, pos as int));
            }
            pos = j + 1;
        } else {
            proof {
                assert(crate::lexer::deep(pieces@) =~= prev + psplit_from(v@, pos as int));
            }
            return pieces;
        }
    }
}

/// Split a path into its segments.
#[verifier::loop_isolation(false)]
pub fn path_segments_exec(s: &str) -> (r: Vec<Vec<char>>)
    ensures
        crate::lexer::deep(r@) == path_segments(s@),
{
    let v = to_char_vec(s);
    let pieces = psplit_exec(&v);
    let m = pieces.len();
    let mut out: Vec<Vec<char>> = Vec::new();
    let mut i: usize = 0;
    while i < m
        invariant
            i <= m,
            path_segments(s@) == crate::lexer::deep(out@) + drop_blank_from(
                crate::lexer::deep(pieces@),
                i as int,
            ),
        decreases m - i,
    {
        proof {
            assert(crate::lexer::deep(pieces@)[i as int] == pieces@[i as int]@);
        }
        let t = crate::text::trim_chars(&pieces[i]);
        if t.len() > 0 {
            let keep = crate::text::copy_range(&pieces[i], 0, pieces[i].len());
            let ghost prev = crate::lexer::deep(out@);
            out.push(keep);
            proof {
                assert(keep@ =~= pieces@[i as int]@);
                assert(crate::lexer::deep(out@) =~= prev.push(pieces@[i as int]@));
                assert(crate::lexer::deep(out@) + drop_blank_from(
                    crate::lexer::deep(pieces@),
                    i + 1,
                ) =~= prev + drop_blank_from(crate::lexer::deep(pieces@), i as int));
            }
        }
        i += 1;
    }
    proof {
        assert(crate::lexer::deep(out@) + drop_blank_from(crate::lexer::deep(pieces@), m as int)
            =~= crate::lexer::deep(out@));
    }
    out
}

/// Convert one value to an engine value: null, booleans, integers, float
/// text, string text, callables, arrays as contiguous 1-based sequences,
/// data trees as key/value tables.  A cached callable is reused and the
/// engine's compile is never called for it; uncached function source is
/// compiled.  The callable is not cached back here — the resynchronization
/// after `execute` is what caches (a deliberate divergence from treating
/// the cache write as a side effect of conversion, which the behaviour this
/// library preserves never did).  The produced engine value is opaque, so
/// the contract states what is provable of the outcome: which inputs always
/// convert, and which error kinds can come back.
#[verifier::loop_isolation(false)]
pub(crate) fn value_to_lua(lua: &mlua::Lua, v: &BluefoxDataType) -> (r: Result<
    mlua::Value,
    BluefoxError,
>)
    ensures
        v@ is Null || v@ is Bool || v@ is Int ==> r is Ok,
        v@ matches ValueModel::Func(_, true) ==> r is Ok,
        r matches Err(e) ==> (e@ matches ErrorModel::Compile(_) || e@ matches
            ErrorModel::Runtime(_)),
        r matches Err(e) ==> (e@ matches ErrorModel::Compile(_)
            ==> crate::value::value_has_uncached_func(v@)),
    decreases v,
{
    match v {
        BluefoxDataType::NULL => wrap_encode(lua, LuaVal::Nil),
        BluefoxDataType::BOOL(b) => wrap_encode(lua, LuaVal::Bool(*b)),
        BluefoxDataType::INT(i) => wrap_encode(lua, LuaVal::Int(*i)),
        BluefoxDataType::FLOAT(t) => wrap_encode(lua, LuaVal::Num(clone_str(t))),
        BluefoxDataType::STRING(s) => wrap_encode(lua, LuaVal::Str(clone_str(s))),
        BluefoxDataType::FUNCTION(src, cache) => {
            match cache {
                Some(f) => wrap_encode(lua, LuaVal::Func(clone_function(f))),
                None => {
                    match lua_compile(lua, src.as_str()) {
                        Ok(f) => wrap_encode(lua, LuaVal::Func(f)),
                        Err(e) => Err(BluefoxError::CompileError(lua_error_text(&e))),
                    }
                },
            }
        },
        BluefoxDataType::ARRAY(items) => {
            let t = match new_table(lua) {
                Ok(t) => t,
                Err(e) => {
                    return Err(BluefoxError::RuntimeError(lua_error_text(&e)));
                },
            };
            let n = items.len();
            let mut i: usize = 0;
            while i < n
                invariant
                    i <= n,
                    n == items@.len(),
                decreases n - i,
            {
                proof {
                    assert(decreases_to!(*v => *items));
                    assert(decreases_to!(*items => items@));
                    assert(decreases_to!(items@ => items@[i as int]));
                }
                match value_to_lua(lua, &items[i]) {
                    Ok(lv) => {
                        match table_push(&t, lv) {
                            Ok(()) => {},
                            Err(e) => {
                                return Err(BluefoxError::RuntimeError(lua_error_text(&e)));
                            },
                        }
                    },
                    Err(e) => {
                        proof {
                            if e@ matches ErrorModel::Compile(_) {
                                crate::model::lemma_seq_model_len(items@);
                                crate::model::lemma_seq_model_index(items@, i as int);
                                crate::model::lemma_arr_has_uncached_intro(
                                    crate::value::seq_model(items@),
                                    i as int,
                                );
                            }
                        }
                        return Err(e);
                    },
                }
                i += 1;
            }
            wrap_encode(lua, LuaVal::Table(t))
        },
        BluefoxDataType::DATA(d) => {
            proof {
                assert(decreases_to!(*v => *d));
            }
            data_to_lua(lua, d)
        },
    }
}

/// Convert a data tree to an engine table value, one key/value pair per
/// entry.
#[verifier::loop_isolation(false)]
pub(crate) fn data_to_lua(lua: &mlua::Lua, d: &BluefoxData) -> (r: Result<
    mlua::Value,
    BluefoxError,
>)
    ensures
        r matches Err(e) ==> (e@ matches ErrorModel::Compile(_) || e@ matches
            ErrorModel::Runtime(_)),
        r matches Err(e) ==> (e@ matches ErrorModel::Compile(_)
            ==> crate::value::entries_has_uncached(d@)),
    decreases d,
{
    let t = match new_table(lua) {
        Ok(t) => t,
        Err(e) => {
            return Err(BluefoxError::RuntimeError(lua_error_text(&e)));
        },
    };
    let n = d.data.len();
    let mut i: usize = 0;
    while i < n
        invariant
            i <= n,
            n == d.data@.len(),
        decreases n - i,
    {
        proof {
            assert(decreases_to!(*d => d.data));
            assert(decreases_to!(d.data => d.data@));
            assert(decreases_to!(d.data@ => d.data@[i as int]));
        }
        match value_to_lua(lua, &d.data[i].1) {
            Ok(lv) => {
                match table_set(&t, d.data[i].0.as_str(), lv) {
                    Ok(()) => {},
                    Err(e) => {
                        return Err(BluefoxError::RuntimeError(lua_error_text(&e)));
                    },
                }
            },
            Err(e) => {
                proof {
                    if e@ matches ErrorModel::Compile(_) {
                        crate::model::lemma_entries_model_len(d.data@);
                        crate::model::lemma_entries_model_index(d.data@, i as int);
                        crate::model::lemma_entries_has_uncached_intro(d@, i as int);
                    }
                }
                return Err(e);
            },
        }
        i += 1;
    }
    wrap_encode(lua, LuaVal::Table(t))
}

/// Encode one decoded shape, mapping an engine failure to a runtime error.
fn wrap_encode(lua: &mlua::Lua, v: LuaVal) -> (r: Result<mlua::Value, BluefoxError>)
    ensures
        !(v is Str) && !(v is Num) ==> r is Ok,
        r matches Err(e) ==> e@ matches ErrorModel::Runtime(_),
{
    match encode_value(lua, v) {
        Ok(x) => Ok(x),
        Err(e) => Err(BluefoxError::RuntimeError(lua_error_text(&e))),
    }
}

/// A copy of `s`.
fn clone_str(s: &String) -> (r: String)
    ensures
        r@ == s@,
{
    let mut r = String::new();
    vstd::string::StringExecFns::append(&mut r, s.as_str());
    proof {
        assert(Seq::<char>::empty() + s@ =~= s@);
    }
    r
}

/// Whether every key reads as an integer between 1 and `n`: then the table
/// is array-shaped and each key is a 1-based position.
pub open spec fn is_array_keys(ks: Seq<Seq<char>>, n: int) -> bool {
    forall|j: int|
        0 <= j < ks.len() ==> parses_as_i64(#[trigger] ks[j]) && 1 <= int_of(ks[j]) <= n
}

/// The key texts of a table's entries, in entry order.
pub open spec fn entry_key_views(s: Seq<(String, mlua::Value)>) -> Seq<Seq<char>> {
    Seq::new(s.len(), |j: int| s[j].0@)
}

/// Every key of `es` is one of the key texts `ks`.
pub open spec fn keys_among(es: Seq<(Seq<char>, ValueModel)>, ks: Seq<Seq<char>>) -> bool {
    forall|j: int|
        0 <= j < es.len() ==> exists|i: int| 0 <= i < ks.len() && ks[i] == (#[trigger] es[j]).0
}

/// Convert one engine value back to a value of the data model.  The value
/// is opaque; the mapping itself is stated and proved on
/// `decoded_to_value`, which takes the decoded shape as an argument.
pub(crate) fn value_from_lua(v: &mlua::Value, depth: u64) -> (r: Result<
    BluefoxDataType,
    BluefoxError,
>)
    ensures
        r matches Ok(val) ==> value_null_free(val@),
        r matches Err(e) ==> e@ matches ErrorModel::Conversion(_),
    decreases depth, 1nat,
{
    decoded_to_value(decode_value(v), depth)
}

/// The from-engine mapping, one clause per decoded shape: nil, booleans,
/// integers, number text and string text map straight across; a live
/// callable becomes a function value with the sentinel source `nil` and the
/// callable cached (the original source is unrecoverable on this path); a
/// shape the data model cannot hold, or a table nested beyond the supported
/// depth, is a conversion error.
pub(crate) fn decoded_to_value(lv: LuaVal, depth: u64) -> (r: Result<
    BluefoxDataType,
    BluefoxError,
>)
    ensures
        r matches Ok(val) ==> value_null_free(val@),
        r matches Err(e) ==> e@ matches ErrorModel::Conversion(_),
        lv is Nil ==> (r matches Ok(val) && val@ == ValueModel::Null),
        lv matches LuaVal::Bool(b) ==> (r matches Ok(val) && val@ == ValueModel::Bool(b)),
        lv matches LuaVal::Int(i) ==> (r matches Ok(val) && val@ == ValueModel::Int(i as int)),
        lv matches LuaVal::Num(t) ==> (r matches Ok(val) && val@ == ValueModel::Float(t@)),
        lv matches LuaVal::Str(s) ==> (r matches Ok(val) && val@ == ValueModel::Str(s@)),
        lv is Func ==> (r matches Ok(val) && val@ == ValueModel::Func("nil"@, true)),
        lv is Other ==> (r matches Err(e) && e@ matches ErrorModel::Conversion(_)),
        lv is Table && depth == 0 ==> (r matches Err(e) && e@ matches ErrorModel::Conversion(
            _,
        )),
        lv is Table && depth > 0 ==> (r matches Ok(val) ==> val@ is Arr || val@ is Obj),
    decreases depth, 0nat,
{
    match lv {
        LuaVal::Nil => Ok(BluefoxDataType::NULL),
        LuaVal::Bool(b) => Ok(BluefoxDataType::BOOL(b)),
        LuaVal::Int(i) => Ok(BluefoxDataType::INT(i)),
        LuaVal::Num(t) => Ok(BluefoxDataType::FLOAT(t)),
        LuaVal::Str(s) => Ok(BluefoxDataType::STRING(s)),
        LuaVal::Func(f) => Ok(BluefoxDataType::FUNCTION(nil_source(), Some(f))),
        LuaVal::Table(t) => {
            if depth == 0 {
                Err(BluefoxError::ConversionError(too_deep_msg()))
            } else {
                table_to_value(&t, depth - 1)
            }
        },
        LuaVal::Other => Err(BluefoxError::ConversionError(unrepresentable_msg())),
    }
}

/// The sentinel source text of a callable whose source is unknown.
fn nil_source() -> (r: String)
    ensures
        r@ == "nil"@,
{
    "nil".to_owned()
}

/// The message of a conversion that went deeper than supported.
fn too_deep_msg() -> String {
    "table is nested beyond the supported depth".to_owned()
}

/// The message of a value shape the data model cannot hold.
fn unrepresentable_msg() -> String {
    "value has no representable mapping".to_owned()
}

/// Read a table's entries and convert them; the classification and rebuild
/// contracts are stated on `entries_to_value`, over the entries.
fn table_to_value(t: &mlua::Table, depth: u64) -> (r: Result<BluefoxDataType, BluefoxError>)
    ensures
        r matches Ok(val) ==> value_null_free(val@) && (val@ is Arr || val@ is Obj),
        r matches Err(e) ==> e@ matches ErrorModel::Conversion(_),
    decreases depth, 4nat,
{
    let entries = table_entries(t);
    entries_to_value(&entries, depth)
}

/// Classify a table's entries and convert them: the table is array-shaped
/// exactly when every key reads as an integer between 1 and the entry
/// count; then each entry lands at its 1-based position (holes stay Null);
/// otherwise the entries rebuild a nested object.
#[verifier::loop_isolation(false)]
fn entries_to_value(entries: &Vec<(String, mlua::Value)>, depth: u64) -> (r: Result<
    BluefoxDataType,
    BluefoxError,
>)
    ensures
        r matches Ok(val) ==> value_null_free(val@),
        r matches Err(e) ==> e@ matches ErrorModel::Conversion(_),
        r matches Ok(val) ==> ((val@ is Arr) <==> is_array_keys(
            entry_key_views(entries@),
            entries@.len() as int,
        )),
        r matches Ok(val) ==> ((val@ is Obj) <==> !is_array_keys(
            entry_key_views(entries@),
            entries@.len() as int,
        )),
        r matches Ok(val) ==> (val@ matches ValueModel::Arr(vs) ==> vs.len()
            == entries@.len()),
        r matches Ok(val) ==> (val@ matches ValueModel::Obj(es) ==> keys_among(
            es,
            entry_key_views(entries@),
        ) && crate::value::keys_unique(es) && entries_null_free(es)),
    decreases depth, 3nat,
{
    let n = entries.len();
    let ghost ks = entry_key_views(entries@);
    // decide the shape from the key set alone
    let mut shaped = true;
    let mut i: usize = 0;
    while i < n && shaped
        invariant
            i <= n,
            shaped ==> forall|j: int|
                0 <= j < i ==> parses_as_i64(#[trigger] ks[j]) && 1 <= int_of(ks[j]) <= n,
            !shaped ==> !is_array_keys(ks, n as int),
        decreases n - i,
    {
        let kc = to_char_vec(entries[i].0.as_str());
        proof {
            assert(ks[i as int] == entries@[i as int].0@);
        }
        match parse_i64(&kc) {
            Some(x) => {
                if !(1 <= x && x as u64 <= n as u64) {
                    shaped = false;
                }
            },
            None => {
                shaped = false;
            },
        }
        i += 1;
    }
    proof {
        assert(shaped == is_array_keys(ks, n as int));
    }
    if shaped {
        // array: place each entry at its 1-based position; holes stay Null
        let mut out: Vec<BluefoxDataType> = Vec::new();
        let mut j: usize = 0;
        while j < n
            invariant
                j <= n,
                out@.len() == j,
                forall|p: int| 0 <= p < j ==> #[trigger] out@[p] == BluefoxDataType::NULL,
            decreases n - j,
        {
            out.push(BluefoxDataType::NULL);
            j += 1;
        }
        proof {
            crate::model::lemma_seq_model_len(out@);
            assert forall|p: int| 0 <= p < n implies value_null_free(
                #[trigger] crate::value::seq_model(out@)[p],
            ) by {
                crate::model::lemma_seq_model_index(out@, p);
            }
        }
        let mut k: usize = 0;
        while k < n
            invariant
                k <= n,
                out@.len() == n,
                forall|p: int|
                    0 <= p < n ==> value_null_free(
                        #[trigger] crate::value::seq_model(out@)[p],
                    ),
            decreases n - k,
        {
            let kc = to_char_vec(entries[k].0.as_str());
            proof {
                assert(ks[k as int] == entries@[k as int].0@);
            }
            match parse_i64(&kc) {
                Some(x) => {
                    if 1 <= x && x as u64 <= n as u64 {
                        let val = value_from_lua(&entries[k].1, depth)?;
                        let idx = (x - 1) as usize;
                        let ghost prev = out@;
                        out.set(idx, val);
                        proof {
                            crate::model::lemma_seq_model_len(out@);
                            assert forall|p: int| 0 <= p < n implies value_null_free(
                                #[trigger] crate::value::seq_model(out@)[p],
                            ) by {
                                crate::model::lemma_seq_model_index(out@, p);
                                if p != idx {
                                    crate::model::lemma_seq_model_index(prev, p);
                                    assert(out@[p] == prev[p]);
                                }
                            }
                        }
                    }
                },
                None => {},
            }
            k += 1;
        }
        proof {
            crate::model::lemma_seq_model_len(out@);
            crate::model::lemma_arr_null_free_intro(crate::value::seq_model(out@));
        }
        Ok(BluefoxDataType::ARRAY(out))
    } else {
        match entries_to_data(entries, depth) {
            Ok(d) => Ok(BluefoxDataType::DATA(d)),
            Err(e) => Err(e),
        }
    }
}

/// Rebuild a data tree from a table's entries: the result's keys all come
/// from the entries' keys, each key is unique, and no `Null`-valued key
/// survives (the engine's tables cannot yield one, and a `Null` value is
/// dropped rather than stored).
#[verifier::loop_isolation(false)]
fn entries_to_data(entries: &Vec<(String, mlua::Value)>, depth: u64) -> (r: Result<
    BluefoxData,
    BluefoxError,
>)
    ensures
        r matches Ok(d) ==> d.wf() && obj_values_not_null(d@) && entries_null_free(d@)
            && keys_among(d@, entry_key_views(entries@)),
        r matches Err(e) ==> e@ matches ErrorModel::Conversion(_),
    decreases depth, 2nat,
{
    let mut data = BluefoxData::new();
    let n = entries.len();
    let ghost ks = entry_key_views(entries@);
    let mut i: usize = 0;
    proof {
        assert(obj_values_not_null(data@));
        assert(entries_null_free(data@));
        assert(keys_among(data@, ks));
    }
    while i < n
        invariant
            i <= n,
            data.wf(),
            obj_values_not_null(data@),
            entries_null_free(data@),
            keys_among(data@, ks),
        decreases n - i,
    {
        let val = value_from_lua(&entries[i].1, depth)?;
        let is_null = match &val {
            BluefoxDataType::NULL => true,
            _ => false,
        };
        if !is_null {
            let key = clone_str(&entries[i].0);
            let ghost prev = data@;
            data.insert(key, val);
            proof {
                crate::model::lemma_entry_put_values(prev, entries@[i as int].0@, val.view());
                crate::model::lemma_entry_put_null_free(prev, key@, val.view());
                crate::model::lemma_entry_put_keys(prev, key@, val.view());
                assert(ks[i as int] == entries@[i as int].0@);
                assert forall|j: int| 0 <= j < data@.len() implies exists|p: int|
                    0 <= p < ks.len() && ks[p] == (#[trigger] data@[j]).0 by {
                    if data@[j].0 != key@ {
                        let p0 = choose|p: int| 0 <= p < prev.len() && prev[p].0 == data@[j].0;
                        assert(keys_among(prev, ks));
                    } else {
                        assert(ks[i as int] == data@[j].0);
                    }
                }
            }
        }
        i += 1;
    }
    Ok(data)
}

/// Convert an engine table back into a data tree.
pub(crate) fn data_from_lua(t: &mlua::Table, depth: u64) -> (r: Result<BluefoxData, BluefoxError>)
    ensures
        r matches Ok(d) ==> d.wf() && obj_values_not_null(d@) && entries_null_free(d@),
        r matches Err(e) ==> e@ matches ErrorModel::Conversion(_),
{
    let entries = table_entries(t);
    match entries_to_data(&entries, depth) {
        Ok(d) => Ok(d),
        Err(e) => Err(e),
    }
}

impl BluefoxDataType {
    /// Compile a function value's source against the engine instance and
    /// cache the callable; an already-cached callable is left untouched, so
    /// recompilation only occurs when no cached callable exists.  Any other
    /// value is not callable.
    ///
    /// Caller obligation the contract cannot express over opaque handles:
    /// the cached callable is bound to this engine instance and must not be
    /// used with another one or after the instance ends (the engine panics).
    pub fn compile(&mut self, lua: &mlua::Lua) -> (r: Result<(), BluefoxError>)
        ensures
            match old(self)@ {
                ValueModel::Func(src, cached) => {
                    &&& (cached ==> r is Ok && *final(self) == *old(self))
                    &&& (r is Ok ==> final(self)@ == ValueModel::Func(src, true))
                    &&& (r is Err ==> *final(self) == *old(self) && r->Err_0@ matches
                        ErrorModel::Compile(_))
                },
                _ => r is Err && *final(self) == *old(self) && r->Err_0@ matches
                    ErrorModel::NotCallable(_),
            },
    {
        let is_function = match self {
            BluefoxDataType::FUNCTION(_, _) => true,
            _ => false,
        };
        if !is_function {
            let mut msg = self.kind_text();
            vstd::string::StringExecFns::append(&mut msg, " value is not a function");
            return Err(BluefoxError::NotCallableError(msg));
        }
        let has_cache = match self {
            BluefoxDataType::FUNCTION(_, c) => c.is_some(),
            _ => false,
        };
        if has_cache {
            return Ok(());
        }
        let src = match self {
            BluefoxDataType::FUNCTION(s, _) => clone_str(s),
            _ => {
                let mut msg = self.kind_text();
                vstd::string::StringExecFns::append(&mut msg, " value is not a function");
                return Err(BluefoxError::NotCallableError(msg));
            },
        };
        match lua_compile(lua, src.as_str()) {
            Ok(f) => {
                *self = BluefoxDataType::FUNCTION(src, Some(f));
                Ok(())
            },
            Err(e) => Err(BluefoxError::CompileError(lua_error_text(&e))),
        }
    }
}

impl BluefoxData {
    /// Bind the tree to the engine's `notation` global, resolve the path to
    /// a callable, invoke it, and rebuild the tree from the (possibly
    /// mutated) global.  On any failure the tree is left as it was; on
    /// success it is rebuilt with unique keys and every `Null`-valued key
    /// dropped.  A `PathError` always names the failing piece: the whole
    /// path when it has no segments, else one of its segments; a
    /// `NotCallableError` always names the final segment.
    ///
    /// Caller obligation the contract cannot express over opaque handles:
    /// every cached callable inside the tree or the arguments is bound to
    /// the engine instance that compiled it, and the engine panics if a
    /// handle is used with another instance or after its instance ends.
    /// Use one tree with one live engine instance at a time.
    #[verifier::loop_isolation(false)]
    pub fn execute(&mut self, lua: &mlua::Lua, func: String, args: Vec<BluefoxDataType>) -> (r:
        Result<BluefoxDataType, BluefoxError>)
        ensures
            r is Ok ==> final(self).wf() && obj_values_not_null(final(self)@)
                && entries_null_free(final(self)@),
            r is Err ==> *final(self) == *old(self),
            path_segments(func@).len() == 0 ==> (r matches Err(e) && e@ == ErrorModel::Path(
                func@,
            )),
            r matches Err(e) ==> (e@ matches ErrorModel::Path(p) ==> (path_segments(
                func@,
            ).len() == 0 && p == func@) || (exists|j: int|
                0 <= j < path_segments(func@).len() - 1 && p == path_segments(func@)[j])),
            r matches Err(e) ==> (e@ matches ErrorModel::NotCallable(p) ==> path_segments(
                func@,
            ).len() > 0 && p == path_segments(func@).last()),
    {
        let segs = path_segments_exec(func.as_str());
        proof {
            assert(crate::lexer::deep(segs@).len() == segs@.len());
        }
        if segs.len() == 0 {
            return Err(BluefoxError::PathError(func));
        }
        let table_val = match data_to_lua(lua, self) {
            Ok(v) => v,
            Err(e) => {
                return Err(e);
            },
        };
        let globals = lua_globals(lua);
        match table_set(&globals, "notation", table_val) {
            Ok(()) => {},
            Err(e) => {
                return Err(BluefoxError::RuntimeError(lua_error_text(&e)));
            },
        }
        let root = match table_get(&globals, "notation") {
            Ok(v) => v,
            Err(e) => {
                return Err(BluefoxError::RuntimeError(lua_error_text(&e)));
            },
        };
        let mut current: mlua::Table = match decode_value(&root) {
            LuaVal::Table(t) => t,
            _ => {
                return Err(BluefoxError::ConversionError(unrepresentable_msg()));
            },
        };
        // walk every segment but the last down to the target container
        let mut i: usize = 0;
        let last = segs.len() - 1;
        while i < last
            invariant
                last == segs@.len() - 1,
                i <= last,
            decreases last - i,
        {
            let key = chars_to_string(&segs[i]);
            proof {
                assert(key@ == crate::lexer::deep(segs@)[i as int]);
                assert(0 <= i < path_segments(func@).len() - 1 && path_segments(func@)[i as int]
                    == key@);
            }
            let member = match table_get(&current, key.as_str()) {
                Ok(v) => v,
                Err(e) => {
                    return Err(BluefoxError::RuntimeError(lua_error_text(&e)));
                },
            };
            match decode_value(&member) {
                LuaVal::Table(t) => {
                    current = t;
                },
                _ => {
                    return Err(BluefoxError::PathError(key));
                },
            }
            i += 1;
        }
        // resolve the final segment: integer lookup for a numeric segment
        let member = match parse_i64(&segs[last]) {
            Some(idx) => {
                match table_get_int(&current, idx) {
                    Ok(v) => v,
                    Err(e) => {
                        return Err(BluefoxError::RuntimeError(lua_error_text(&e)));
                    },
                }
            },
            None => {
                let key = chars_to_string(&segs[last]);
                match table_get(&current, key.as_str()) {
                    Ok(v) => v,
                    Err(e) => {
                        return Err(BluefoxError::RuntimeError(lua_error_text(&e)));
                    },
                }
            },
        };
        let callee = match decode_value(&member) {
            LuaVal::Func(f) => f,
            _ => {
                return Err(BluefoxError::NotCallableError(chars_to_string(&segs[last])));
            },
        };
        // convert the arguments and invoke
        let mut lua_args: Vec<mlua::Value> = Vec::new();
        let mut a: usize = 0;
        while a < args.len()
            invariant
                a <= args@.len(),
            decreases args@.len() - a,
        {
            let lv = match value_to_lua(lua, &args[a]) {
                Ok(v) => v,
                Err(e) => {
                    return Err(e);
                },
            };
            lua_args.push(lv);
            a += 1;
        }
        let res = match lua_call(&callee, lua_args) {
            Ok(v) => v,
            Err(e) => {
                return Err(BluefoxError::RuntimeError(lua_error_text(&e)));
            },
        };
        let result = match value_from_lua(&res, CONVERT_DEPTH) {
            Ok(v) => v,
            Err(e) => {
                return Err(e);
            },
        };
        // re-read the bound global and rebuild the tree: build, then swap
        let back = match table_get(&globals, "notation") {
            Ok(v) => v,
            Err(e) => {
                return Err(BluefoxError::RuntimeError(lua_error_text(&e)));
            },
        };
        let rebuilt = match decode_value(&back) {
            LuaVal::Table(t) => {
                match data_from_lua(&t, CONVERT_DEPTH) {
                    Ok(d) => d,
                    Err(e) => {
                        return Err(e);
                    },
                }
            },
            _ => {
                return Err(BluefoxError::ConversionError(unrepresentable_msg()));
            },
        };
        *self = rebuilt;
        Ok(result)
    }
}

} // verus!
