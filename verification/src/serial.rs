//! The round-trip serializer: a total function from values and data trees
//! back to notation text.  Null, booleans and integers use their canonical
//! literal text; a float keeps its stored literal text; a string is wrapped
//! in double quotes verbatim; a function source is wrapped in backticks; an
//! array emits one element per line; an object emits one `key: value` line
//! per record.

use vstd::prelude::*;

use vstd::string::StringExecFns;

use crate::text::{chars_to_string, i64_text, int_text, push_char};
use crate::value::{seq_model, entries_model, BluefoxData, BluefoxDataType, ValueModel};

verus! {

/// The serialized text of one value.
pub open spec fn ser_value(m: ValueModel) -> Seq<char>
    decreases m,
{
    match m {
        ValueModel::Null => seq!['n', 'u', 'l', 'l'],
        ValueModel::Bool(b) => if b {
            seq!['t', 'r', 'u', 'e']
        } else {
            seq!['f', 'a', 'l', 's', 'e']
        },
        ValueModel::Int(i) => int_text(i),
        ValueModel::Float(t) => t,
        ValueModel::Str(s) => seq!['"'] + s + seq!['"'],
        ValueModel::Func(src, _) => seq!['`'] + src + seq!['`'],
        ValueModel::Arr(vs) => seq!['[', '\n'] + ser_elems(vs) + seq![']'],
        ValueModel::Obj(es) => seq!['{', '\n'] + ser_entries(es) + seq!['\n', '}'],
    }
}

/// The serialized elements of an array, one per line.
pub open spec fn ser_elems(vs: Seq<ValueModel>) -> Seq<char>
    decreases vs,
{
    if vs.len() == 0 {
        Seq::empty()
    } else {
        ser_value(vs[0]) + seq!['\n'] + ser_elems(vs.drop_first())
    }
}

/// The serialized records of an object, one `key: value` line per record.
pub open spec fn ser_entries(es: Seq<(Seq<char>, ValueModel)>) -> Seq<char>
    decreases es,
{
    if es.len() == 0 {
        Seq::empty()
    } else {
        es[0].0 + seq![':', ' '] + ser_value(es[0].1) + seq!['\n'] + ser_entries(es.drop_first())
    }
}

proof fn lemma_ser_elems_snoc(vs: Seq<ValueModel>)
    requires
        vs.len() > 0,
    ensures
        ser_elems(vs) == ser_elems(vs.drop_last()) + ser_value(vs.last()) + seq!['\n'],
    decreases vs.len(),
{
    if vs.len() == 1 {
        assert(vs.drop_first() =~= Seq::<ValueModel>::empty());
        assert(vs.drop_last() =~= Seq::<ValueModel>::empty());
        assert(ser_elems(vs) =~= ser_elems(vs.drop_last()) + ser_value(vs.last()) + seq!['\n']);
    } else {
        lemma_ser_elems_snoc(vs.drop_first());
        assert(vs.drop_first().drop_last() =~= vs.drop_last().drop_first());
        assert(vs.drop_first().last() == vs.last());
        assert(vs.drop_last()[0] == vs[0]);
        assert(ser_elems(vs) =~= ser_elems(vs.drop_last()) + ser_value(vs.last()) + seq!['\n']);
    }
}

proof fn lemma_ser_entries_snoc(es: Seq<(Seq<char>, ValueModel)>)
    requires
        es.len() > 0,
    ensures
        ser_entries(es) == ser_entries(es.drop_last()) + es.last().0 + seq![':', ' ']
            + ser_value(es.last().1) + seq!['\n'],
    decreases es.len(),
{
    if es.len() == 1 {
        assert(es.drop_first() =~= Seq::<(Seq<char>, ValueModel)>::empty());
        assert(es.drop_last() =~= Seq::<(Seq<char>, ValueModel)>::empty());
        assert(ser_entries(es) =~= ser_entries(es.drop_last()) + es.last().0 + seq![':', ' ']
            + ser_value(es.last().1) + seq!['\n']);
    } else {
        lemma_ser_entries_snoc(es.drop_first());
        assert(es.drop_first().drop_last() =~= es.drop_last().drop_first());
        assert(es.drop_first().last() == es.last());
        assert(es.drop_last()[0] == es[0]);
        assert(ser_entries(es) =~= ser_entries(es.drop_last()) + es.last().0 + seq![':', ' ']
            + ser_value(es.last().1) + seq!['\n']);
    }
}

impl BluefoxDataType {
    /// The notation text of this value.
    #[verifier::loop_isolation(false)]
    pub fn to_text(&self) -> (r: String)
        ensures
            r@ == ser_value(self@),
        decreases self,
    {
        match self {
            BluefoxDataType::NULL => {
                let mut r = String::new();
                push_char(&mut r, 'n');
                push_char(&mut r, 'u');
                push_char(&mut r, 'l');
                push_char(&mut r, 'l');
                proof {
                    assert(r@ =~= seq!['n', 'u', 'l', 'l']);
                }
                r
            },
            BluefoxDataType::BOOL(b) => {
                let mut r = String::new();
                if *b {
                    push_char(&mut r, 't');
                    push_char(&mut r, 'r');
                    push_char(&mut r, 'u');
                    push_char(&mut r, 'e');
                    proof {
                        assert(r@ =~= seq!['t', 'r', 'u', 'e']);
                    }
                } else {
                    push_char(&mut r, 'f');
                    push_char(&mut r, 'a');
                    push_char(&mut r, 'l');
                    push_char(&mut r, 's');
                    push_char(&mut r, 'e');
                    proof {
                        assert(r@ =~= seq!['f', 'a', 'l', 's', 'e']);
                    }
                }
                r
            },
            BluefoxDataType::INT(i) => chars_to_string(&i64_text(*i)),
            BluefoxDataType::FLOAT(t) => {
                let r = clone_string(t);
                r
            },
            BluefoxDataType::STRING(s) => {
                let mut r = String::new();
                push_char(&mut r, '"');
                append_str(&mut r, s);
                push_char(&mut r, '"');
                proof {
                    assert(r@ =~= seq!['"'] + s@ + seq!['"']);
                }
                r
            },
            BluefoxDataType::FUNCTION(src, _) => {
                let mut r = String::new();
                push_char(&mut r, '`');
                append_str(&mut r, src);
                push_char(&mut r, '`');
                proof {
                    assert(r@ =~= seq!['`'] + src@ + seq!['`']);
                }
                r
            },
            BluefoxDataType::ARRAY(v) => {
                let ghost vm = seq_model(v@);
                let mut r = String::new();
                push_char(&mut r, '[');
                push_char(&mut r, '\n');
                let n = v.len();
                let mut i: usize = 0;
                proof {
                    crate::model::lemma_seq_model_len(v@);
                    assert(vm.take(0) =~= Seq::<ValueModel>::empty());
                    assert(r@ =~= seq!['[', '\n'] + ser_elems(vm.take(0)));
                }
                while i < n
                    invariant
                        i <= n,
                        n == v@.len(),
                        vm == seq_model(v@),
                        vm.len() == n,
                        r@ == seq!['[', '\n'] + ser_elems(vm.take(i as int)),
                    decreases n - i,
                {
                    proof {
                        crate::model::lemma_seq_model_index(v@, i as int);
                        assert(decreases_to!(*self => *v));
                        assert(decreases_to!(*v => v@));
                        assert(decreases_to!(v@ => v@[i as int]));
                        assert(decreases_to!(*self => v@[i as int]));
                    }
                    let elem = v[i].to_text();
                    append_str(&mut r, &elem);
                    push_char(&mut r, '\n');
                    proof {
                        assert(vm.take(i + 1).drop_last() =~= vm.take(i as int));
                        assert(vm.take(i + 1).last() == vm[i as int]);
                        lemma_ser_elems_snoc(vm.take(i + 1));
                        assert(r@ =~= seq!['[', '\n'] + ser_elems(vm.take(i + 1)));
                    }
                    i += 1;
                }
                push_char(&mut r, ']');
                proof {
                    assert(vm.take(n as int) =~= vm);
                    assert(r@ =~= seq!['[', '\n'] + ser_elems(vm) + seq![']']);
                }
                r
            },
            BluefoxDataType::DATA(d) => {
                let mut r = String::new();
                push_char(&mut r, '{');
                push_char(&mut r, '\n');
                proof {
                    assert(decreases_to!(*self => *d));
                }
                let body = d.to_text();
                append_str(&mut r, &body);
                push_char(&mut r, '\n');
                push_char(&mut r, '}');
                proof {
                    assert(r@ =~= seq!['{', '\n'] + ser_entries(d@) + seq!['\n', '}']);
                }
                r
            },
        }
    }
}

impl BluefoxData {
    /// The notation text of this data tree: one `key: value` line per record.
    #[verifier::loop_isolation(false)]
    pub fn to_text(&self) -> (r: String)
        ensures
            r@ == ser_entries(self@),
        decreases self,
    {
        let ghost em = self@;
        let mut r = String::new();
        let n = self.data.len();
        let mut i: usize = 0;
        proof {
            crate::model::lemma_entries_model_len(self.data@);
            assert(em.take(0) =~= Seq::<(Seq<char>, ValueModel)>::empty());
            assert(r@ =~= ser_entries(em.take(0)));
        }
        while i < n
            invariant
                i <= n,
                n == self.data@.len(),
                em == self@,
                em.len() == n,
                r@ == ser_entries(em.take(i as int)),
            decreases n - i,
        {
            proof {
                crate::model::lemma_entries_model_index(self.data@, i as int);
                assert(decreases_to!(*self => self.data));
                assert(decreases_to!(self.data => self.data@));
                assert(decreases_to!(self.data@ => self.data@[i as int]));
            }
            append_str(&mut r, &self.data[i].0);
            push_char(&mut r, ':');
            push_char(&mut r, ' ');
            let vt = self.data[i].1.to_text();
            append_str(&mut r, &vt);
            push_char(&mut r, '\n');
            proof {
                assert(em.take(i + 1).drop_last() =~= em.take(i as int));
                assert(em.take(i + 1).last() == em[i as int]);
                lemma_ser_entries_snoc(em.take(i + 1));
                assert(r@ =~= ser_entries(em.take(i + 1)));
            }
            i += 1;
        }
        proof {
            assert(em.take(n as int) =~= em);
        }
        r
    }
}

/// The structures that can be turned into a data tree.
pub trait BluefoxSerialize {
    /// The model of the data tree this structure serializes to.
    spec fn data_model(&self) -> Seq<(Seq<char>, ValueModel)>;

    /// Turn the structure into a data tree.
    fn to_data(self) -> (d: BluefoxData)
        ensures
            d@ == self.data_model(),
    ;
}

/// The structures that can be read back from a data tree.
pub trait BluefoxDeserialize: Sized {
    /// Read the structure out of a data tree, or report why it cannot be.
    fn from_data(data: BluefoxData) -> Result<Self, String>;
}

impl BluefoxSerialize for BluefoxData {
    open spec fn data_model(&self) -> Seq<(Seq<char>, ValueModel)> {
        self@
    }

    fn to_data(self) -> (d: BluefoxData) {
        self
    }
}

impl BluefoxData {
    /// The notation text of anything that serializes to a data tree.
    pub fn to_string<T: BluefoxSerialize>(obj: T) -> (r: String)
        ensures
            r@ == ser_entries(obj.data_model()),
    {
        let d = obj.to_data();
        d.to_text()
    }
}

impl BluefoxDataType {
    /// An array of nested objects, one per serializable item, in order.
    pub fn from_records<T: BluefoxSerialize>(items: Vec<T>) -> (r: BluefoxDataType)
        ensures
            r@ == ValueModel::Arr(
                Seq::new(items@.len(), |i: int| ValueModel::Obj(items@[i].data_model())),
            ),
    {
        let ghost orig = items@;
        let ghost target = Seq::new(orig.len(), |i: int| ValueModel::Obj(orig[i].data_model()));
        let mut rest = items;
        let mut out: Vec<BluefoxDataType> = Vec::new();
        proof {
            assert(seq_model(out@) =~= target.take(0));
        }
        while rest.len() > 0
            invariant
                out@.len() + rest@.len() == orig.len(),
                rest@ =~= orig.skip(out@.len() as int),
                seq_model(out@) == target.take(out@.len() as int),
                target == Seq::new(orig.len(), |i: int| ValueModel::Obj(orig[i].data_model())),
            decreases rest@.len(),
        {
            let ghost k = out@.len() as int;
            let item = rest.remove(0);
            proof {
                assert(item == orig[k]);
                assert(rest@ =~= orig.skip(k + 1));
            }
            let d = item.to_data();
            let ghost prev = out@;
            out.push(BluefoxDataType::DATA(d));
            proof {
                assert(out@.drop_last() =~= prev);
                crate::model::lemma_seq_model_snoc(out@);
                assert(out@.last()@ == ValueModel::Obj(orig[k].data_model()));
                assert(seq_model(out@) =~= target.take(k + 1));
            }
        }
        proof {
            assert(target.take(orig.len() as int) =~= target);
        }
        BluefoxDataType::ARRAY(out)
    }
}

/// A copy of `s`.
fn clone_string(s: &String) -> (r: String)
    ensures
        r@ == s@,
{
    let mut r = String::new();
    append_str(&mut r, s);
    proof {
        assert(Seq::<char>::empty() + s@ =~= s@);
    }
    r
}

/// Append the text of `b` to `a`.
fn append_str(a: &mut String, b: &String)
    ensures
        final(a)@ == old(a)@ + b@,
{
    a.append(b.as_str());
}

} // verus!
