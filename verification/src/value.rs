//! The typed data model: a tagged-union value and a string-keyed map.
//!
//! `BluefoxDataType` is the in-memory value; `ValueModel` is its mathematical
//! model, used by every contract in the crate.  A float is carried as its
//! literal text; only the engine bridge ever reads it as a machine number.
//! A function value carries its source text and, once compiled, a handle to
//! the engine's callable; the handle is opaque to the model beyond its
//! presence.

use vstd::prelude::*;

use crate::model::{lemma_lookup_at, lemma_lookup_none, lemma_lookup_frame, lemma_entries_model_snoc, lemma_append_frame, lemma_entry_put_update, lemma_entry_put_append};

verus! {

/// Mathematical model of a value: what the contracts speak about.
pub enum ValueModel {
    Null,
    Bool(bool),
    Int(int),
    Float(Seq<char>),
    Str(Seq<char>),
    /// Function source text, and whether a compiled callable is cached.
    Func(Seq<char>, bool),
    Arr(Seq<ValueModel>),
    Obj(Seq<(Seq<char>, ValueModel)>),
}

/// Model of each element of a sequence of values.
pub open spec fn seq_model(s: Seq<BluefoxDataType>) -> Seq<ValueModel>
    decreases s,
{
    if s.len() == 0 {
        Seq::empty()
    } else {
        seq![s[0].view()] + seq_model(s.drop_first())
    }
}

/// Model of each entry of a key/value sequence.
pub open spec fn entries_model(s: Seq<(String, BluefoxDataType)>) -> Seq<
    (Seq<char>, ValueModel),
>
    decreases s,
{
    if s.len() == 0 {
        Seq::empty()
    } else {
        seq![(s[0].0@, s[0].1.view())] + entries_model(s.drop_first())
    }
}

#[allow(non_camel_case_types)]
#[derive(Debug, PartialEq)]
pub enum BluefoxDataType {
    NULL,
    BOOL(bool),
    INT(i64),
    /// The literal text of a 64-bit float.  The engine bridge is the only
    /// place the text is read as a machine number.
    FLOAT(String),
    STRING(String),
    /// Source text, and the callable compiled from it, if any.  A cached
    /// callable is bound to the engine instance that compiled it.
    FUNCTION(String, Option<mlua::Function>),
    ARRAY(Vec<BluefoxDataType>),
    DATA(BluefoxData),
}

#[derive(Debug, PartialEq)]
pub struct BluefoxData {
    pub data: Vec<(String, BluefoxDataType)>,
}

impl BluefoxDataType {
    pub open spec fn view(&self) -> ValueModel
        decreases self,
    {
        match self {
            BluefoxDataType::NULL => ValueModel::Null,
            BluefoxDataType::BOOL(b) => ValueModel::Bool(*b),
            BluefoxDataType::INT(i) => ValueModel::Int(*i as int),
            BluefoxDataType::FLOAT(t) => ValueModel::Float(t@),
            BluefoxDataType::STRING(s) => ValueModel::Str(s@),
            BluefoxDataType::FUNCTION(src, c) => ValueModel::Func(src@, c is Some),
            BluefoxDataType::ARRAY(v) => ValueModel::Arr(seq_model(v@)),
            BluefoxDataType::DATA(d) => ValueModel::Obj(entries_model(d.data@)),
        }
    }
}

impl BluefoxData {
    pub open spec fn view(&self) -> Seq<(Seq<char>, ValueModel)> {
        entries_model(self.data@)
    }
}

/// Every key occurs at most once.
pub open spec fn keys_unique(s: Seq<(Seq<char>, ValueModel)>) -> bool {
    forall|i: int, j: int| 0 <= i < j < s.len() ==> s[i].0 != s[j].0
}

/// `s` with `v` stored under `k`: the first entry carrying `k` is
/// replaced, else the entry is appended.
pub open spec fn entry_put(
    s: Seq<(Seq<char>, ValueModel)>,
    k: Seq<char>,
    v: ValueModel,
) -> Seq<(Seq<char>, ValueModel)>
    decreases s,
{
    if s.len() == 0 {
        seq![(k, v)]
    } else if s[0].0 == k {
        seq![(k, v)] + s.drop_first()
    } else {
        seq![s[0]] + entry_put(s.drop_first(), k, v)
    }
}

/// No entry's value is `Null`.
pub open spec fn obj_values_not_null(es: Seq<(Seq<char>, ValueModel)>) -> bool {
    forall|j: int| 0 <= j < es.len() ==> (#[trigger] es[j]).1 != ValueModel::Null
}

/// No `Null` is stored under a key, at any object depth; an array may
/// hold `Null` elements, but objects inside it are clean too.
pub open spec fn value_null_free(m: ValueModel) -> bool
    decreases m,
{
    match m {
        ValueModel::Arr(vs) => arr_null_free(vs),
        ValueModel::Obj(es) => entries_null_free(es),
        _ => true,
    }
}

/// Every element of an array is itself clean of `Null`-valued keys.
pub open spec fn arr_null_free(vs: Seq<ValueModel>) -> bool
    decreases vs,
{
    if vs.len() == 0 {
        true
    } else {
        value_null_free(vs[0]) && arr_null_free(vs.drop_first())
    }
}

/// Every entry holds a non-`Null`, clean value.
pub open spec fn entries_null_free(es: Seq<(Seq<char>, ValueModel)>) -> bool
    decreases es,
{
    if es.len() == 0 {
        true
    } else {
        es[0].1 != ValueModel::Null && value_null_free(es[0].1) && entries_null_free(
            es.drop_first(),
        )
    }
}

/// Whether a function value with no cached callable stands anywhere in
/// the value: the one shape whose to-engine conversion must compile.
pub open spec fn value_has_uncached_func(m: ValueModel) -> bool
    decreases m,
{
    match m {
        ValueModel::Func(_, cached) => !cached,
        ValueModel::Arr(vs) => arr_has_uncached(vs),
        ValueModel::Obj(es) => entries_has_uncached(es),
        _ => false,
    }
}

/// Whether any array element holds an uncached function.
pub open spec fn arr_has_uncached(vs: Seq<ValueModel>) -> bool
    decreases vs,
{
    if vs.len() == 0 {
        false
    } else {
        value_has_uncached_func(vs[0]) || arr_has_uncached(vs.drop_first())
    }
}

/// Whether any entry's value holds an uncached function.
pub open spec fn entries_has_uncached(es: Seq<(Seq<char>, ValueModel)>) -> bool
    decreases es,
{
    if es.len() == 0 {
        false
    } else {
        value_has_uncached_func(es[0].1) || entries_has_uncached(es.drop_first())
    }
}

/// The value stored under `k`, if any.
pub open spec fn lookup(s: Seq<(Seq<char>, ValueModel)>, k: Seq<char>) -> Option<ValueModel>
    decreases s,
{
    if s.len() == 0 {
        None
    } else if s[0].0 == k {
        Some(s[0].1)
    } else {
        lookup(s.drop_first(), k)
    }
}

impl BluefoxData {
    /// An empty data tree.
    pub fn new() -> (d: Self)
        ensures
            d@ =~= Seq::<(Seq<char>, ValueModel)>::empty(),
            d.wf(),
    {
        proof {
            broadcast use crate::model::lemma_entries_model_len;
        }
        BluefoxData { data: Vec::new() }
    }

    /// Whether `self` holds unique keys.
    pub open spec fn wf(&self) -> bool {
        keys_unique(self@)
    }

    /// The value stored under `key`, if any: the first entry that carries it.
    pub fn get(&self, key: &str) -> (r: Option<&BluefoxDataType>)
        ensures
            match r {
                Some(v) => lookup(self@, key@) == Some(v.view()),
                None => lookup(self@, key@) is None,
            },
    {
        broadcast use {
            crate::model::lemma_entries_model_len,
            crate::model::lemma_entries_model_index,
        };

        let owned = key.to_owned();
        let n = self.data.len();
        let mut i: usize = 0;
        while i < n
            invariant
                n == self.data.len(),
                i <= n,
                owned@ == key@,
                forall|j: int| 0 <= j < i ==> #[trigger] self@[j].0 != key@,
            decreases n - i,
        {
            proof {
                crate::model::lemma_entries_model_len(self.data@);
                crate::model::lemma_entries_model_index(self.data@, i as int);
                assert(self@[i as int] == (self.data@[i as int].0@, self.data@[i as int].1.view()));
            }
            if self.data[i].0 == owned {
                proof {
                    lemma_lookup_at(self@, key@, i as int);
                }
                return Some(&self.data[i].1);
            }
            i += 1;
        }
        proof {
            lemma_lookup_none(self@, key@);
        }
        None
    }

    /// Store `value` under `key`: replace the first entry that carries the
    /// key, else append a new entry.  Any other key keeps its value.
    pub fn insert(&mut self, key: String, value: BluefoxDataType)
        ensures
            final(self)@ == entry_put(old(self)@, key@, value.view()),
            lookup(final(self)@, key@) == Some(value.view()),
            final(self)@.len() <= old(self)@.len() + 1,
            forall|k: Seq<char>|
                k != key@ ==> #[trigger] lookup(final(self)@, k) == lookup(old(self)@, k),
            old(self).wf() ==> final(self).wf(),
    {
        broadcast use {
            crate::model::lemma_entries_model_len,
            crate::model::lemma_entries_model_index,
        };

        let n = self.data.len();
        let mut i: usize = 0;
        while i < n
            invariant
                n == self.data.len(),
                i <= n,
                forall|j: int| 0 <= j < i ==> #[trigger] self@[j].0 != key@,
                *self == *old(self),
            decreases n - i,
        {
            proof {
                crate::model::lemma_entries_model_len(self.data@);
                crate::model::lemma_entries_model_index(self.data@, i as int);
                assert(self@[i as int] == (self.data@[i as int].0@, self.data@[i as int].1.view()));
            }
            if self.data[i].0 == key {
                let ghost prev = self@;
                self.data.set(i, (key, value));
                proof {
                    crate::model::lemma_entries_model_len(self.data@);
                    assert forall|j: int| 0 <= j < prev.len() && j != i implies #[trigger] self@[j]
                        == prev[j] by {
                        crate::model::lemma_entries_model_index(self.data@, j);
                        crate::model::lemma_entries_model_index(old(self).data@, j);
                    }
                    crate::model::lemma_entries_model_index(self.data@, i as int);
                    assert(self@[i as int] == (key@, value.view()));
                    assert(prev[i as int].0 == key@);
                    lemma_lookup_at(self@, key@, i as int);
                    assert forall|j: int| 0 <= j < prev.len() implies #[trigger] self@[j].0
                        == prev[j].0 by {
                        if j == i {
                        }
                    }
                    assert forall|k: Seq<char>| k != key@ implies #[trigger] lookup(self@, k)
                        == lookup(prev, k) by {
                        lemma_lookup_frame(prev, self@, k);
                    }
                    assert(old(self).wf() ==> self.wf());
                    assert(self@ =~= prev.update(i as int, (key@, value.view())));
                    lemma_entry_put_update(prev, key@, value.view(), i as int);
                }
                return;
            }
            i += 1;
        }
        let ghost prev = self@;
        self.data.push((key, value));
        proof {
            assert(self@ =~= prev.push((key@, value.view()))) by {
                assert(self.data@.drop_last() =~= old(self).data@);
                lemma_entries_model_snoc(self.data@);
            }
            assert(forall|j: int| 0 <= j < prev.len() ==> #[trigger] prev[j].0 != key@);
            lemma_entry_put_append(prev, key@, value.view());
            lemma_lookup_at(self@, key@, prev.len() as int);
            assert forall|k: Seq<char>| k != key@ implies #[trigger] lookup(self@, k) == lookup(
                prev,
                k,
            ) by {
                lemma_append_frame(prev, self@, key@, value.view(), k);
            }
            assert(old(self).wf() ==> self.wf()) by {
                if keys_unique(prev) {
                    assert forall|a: int, b: int| 0 <= a < b < self@.len() implies self@[a].0
                        != self@[b].0 by {
                        if b == self@.len() - 1 {
                            assert(self@[b].0 == key@);
                            assert(self@[a] == prev[a]);
                        } else {
                            assert(self@[a] == prev[a]);
                            assert(self@[b] == prev[b]);
                        }
                    }
                }
            }
        }
    }
}

/// The type tag of a value, as the flat foreign-function mirror of the
/// data model numbers the eight shapes.
#[allow(non_camel_case_types)]
#[derive(Clone, Copy, Debug, PartialEq, Eq, Structural)]
pub enum CBluefoxDataTypes {
    NULL,
    BOOL,
    INT,
    FLOAT,
    STRING,
    FUNCTION,
    ARRAY,
    DATA,
}

/// The tag of a modelled value.
pub open spec fn spec_tag(m: ValueModel) -> CBluefoxDataTypes {
    match m {
        ValueModel::Null => CBluefoxDataTypes::NULL,
        ValueModel::Bool(_) => CBluefoxDataTypes::BOOL,
        ValueModel::Int(_) => CBluefoxDataTypes::INT,
        ValueModel::Float(_) => CBluefoxDataTypes::FLOAT,
        ValueModel::Str(_) => CBluefoxDataTypes::STRING,
        ValueModel::Func(_, _) => CBluefoxDataTypes::FUNCTION,
        ValueModel::Arr(_) => CBluefoxDataTypes::ARRAY,
        ValueModel::Obj(_) => CBluefoxDataTypes::DATA,
    }
}

/// The name of a modelled value's shape.
pub open spec fn spec_kind_text(m: ValueModel) -> Seq<char> {
    match m {
        ValueModel::Null => "NULL"@,
        ValueModel::Bool(_) => "BOOL"@,
        ValueModel::Int(_) => "INT"@,
        ValueModel::Float(_) => "FLOAT"@,
        ValueModel::Str(_) => "STRING"@,
        ValueModel::Func(_, _) => "FUNCTION"@,
        ValueModel::Arr(_) => "ARRAY"@,
        ValueModel::Obj(_) => "DATA"@,
    }
}

impl BluefoxDataType {
    /// The name of this value's shape, for diagnostics.
    pub fn kind_text(&self) -> (r: String)
        ensures
            r@ == spec_kind_text(self@),
    {
        match self {
            BluefoxDataType::NULL => "NULL".to_owned(),
            BluefoxDataType::BOOL(_) => "BOOL".to_owned(),
            BluefoxDataType::INT(_) => "INT".to_owned(),
            BluefoxDataType::FLOAT(_) => "FLOAT".to_owned(),
            BluefoxDataType::STRING(_) => "STRING".to_owned(),
            BluefoxDataType::FUNCTION(_, _) => "FUNCTION".to_owned(),
            BluefoxDataType::ARRAY(_) => "ARRAY".to_owned(),
            BluefoxDataType::DATA(_) => "DATA".to_owned(),
        }
    }
}

impl BluefoxDataType {
    /// The type tag of this value.
    pub fn tag(&self) -> (t: CBluefoxDataTypes)
        ensures
            t == spec_tag(self@),
    {
        match self {
            BluefoxDataType::NULL => CBluefoxDataTypes::NULL,
            BluefoxDataType::BOOL(_) => CBluefoxDataTypes::BOOL,
            BluefoxDataType::INT(_) => CBluefoxDataTypes::INT,
            BluefoxDataType::FLOAT(_) => CBluefoxDataTypes::FLOAT,
            BluefoxDataType::STRING(_) => CBluefoxDataTypes::STRING,
            BluefoxDataType::FUNCTION(_, _) => CBluefoxDataTypes::FUNCTION,
            BluefoxDataType::ARRAY(_) => CBluefoxDataTypes::ARRAY,
            BluefoxDataType::DATA(_) => CBluefoxDataTypes::DATA,
        }
    }
}

} // verus!
