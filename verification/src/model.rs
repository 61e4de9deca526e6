//! Basic facts about the mathematical model of values and objects:
//! how `seq_model`, `entries_model` and `lookup` behave under indexing,
//! update and append.

use vstd::prelude::*;
use crate::value::{
    arr_has_uncached, arr_null_free, entries_has_uncached, entries_model, entries_null_free,
    entry_put, keys_unique, lookup, obj_values_not_null, seq_model, value_has_uncached_func,
    value_null_free, BluefoxDataType, ValueModel,
};

verus! {

pub broadcast proof fn lemma_seq_model_len(s: Seq<BluefoxDataType>)
    ensures
        (#[trigger] seq_model(s)).len() == s.len(),
    decreases s,
{
    if s.len() > 0 {
        lemma_seq_model_len(s.drop_first());
    }
}

pub broadcast proof fn lemma_seq_model_index(s: Seq<BluefoxDataType>, i: int)
    requires
        0 <= i < s.len(),
    ensures
        #[trigger] seq_model(s)[i] == s[i].view(),
    decreases s,
{
    lemma_seq_model_len(s);
    if i > 0 {
        lemma_seq_model_index(s.drop_first(), i - 1);
    }
}

pub broadcast proof fn lemma_entries_model_len(s: Seq<(String, BluefoxDataType)>)
    ensures
        (#[trigger] entries_model(s)).len() == s.len(),
    decreases s,
{
    if s.len() > 0 {
        lemma_entries_model_len(s.drop_first());
    }
}

pub broadcast proof fn lemma_entries_model_index(s: Seq<(String, BluefoxDataType)>, i: int)
    requires
        0 <= i < s.len(),
    ensures
        #[trigger] entries_model(s)[i] == (s[i].0@, s[i].1.view()),
    decreases s,
{
    lemma_entries_model_len(s);
    if i > 0 {
        lemma_entries_model_index(s.drop_first(), i - 1);
    }
}

/// `lookup` finds the first entry whose key matches.
pub proof fn lemma_lookup_at(s: Seq<(Seq<char>, ValueModel)>, k: Seq<char>, i: int)
    requires
        0 <= i < s.len(),
        s[i].0 == k,
        forall|j: int| 0 <= j < i ==> s[j].0 != k,
    ensures
        lookup(s, k) == Some(s[i].1),
    decreases i,
{
    if i > 0 {
        assert(s.drop_first()[i - 1] == s[i]);
        assert(forall|j: int| 0 <= j < i - 1 ==> #[trigger] s.drop_first()[j].0 == s[j + 1].0);
        lemma_lookup_at(s.drop_first(), k, i - 1);
    }
}

/// `lookup` misses when no entry's key matches.
pub proof fn lemma_lookup_none(s: Seq<(Seq<char>, ValueModel)>, k: Seq<char>)
    requires
        forall|j: int| 0 <= j < s.len() ==> s[j].0 != k,
    ensures
        lookup(s, k) is None,
    decreases s,
{
    if s.len() > 0 {
        assert(forall|j: int|
            0 <= j < s.drop_first().len() ==> #[trigger] s.drop_first()[j].0 == s[j + 1].0);
        lemma_lookup_none(s.drop_first(), k);
    }
}

/// `lookup` at `k2` ignores entries whose key is not `k2`, whatever they hold.
pub(crate) proof fn lemma_lookup_frame(
    pre: Seq<(Seq<char>, ValueModel)>,
    post: Seq<(Seq<char>, ValueModel)>,
    k2: Seq<char>,
)
    requires
        pre.len() == post.len(),
        forall|j: int| 0 <= j < pre.len() ==> pre[j].0 == #[trigger] post[j].0,
        forall|j: int| 0 <= j < pre.len() && pre[j].0 == k2 ==> pre[j] == #[trigger] post[j],
    ensures
        lookup(post, k2) == lookup(pre, k2),
    decreases pre,
{
    if pre.len() > 0 {
        assert(pre[0].0 == post[0].0);
        if pre[0].0 == k2 {
            assert(pre[0] == post[0]);
        } else {
            assert(forall|j: int|
                0 <= j < pre.drop_first().len() ==> #[trigger] pre.drop_first()[j] == pre[j + 1]);
            assert(forall|j: int|
                0 <= j < post.drop_first().len() ==> #[trigger] post.drop_first()[j] == post[j
                    + 1]);
            lemma_lookup_frame(pre.drop_first(), post.drop_first(), k2);
        }
    }
}

/// Splitting a nonempty entry sequence at its last element.
pub(crate) proof fn lemma_entries_model_snoc(s: Seq<(String, BluefoxDataType)>)
    requires
        s.len() > 0,
    ensures
        entries_model(s) =~= entries_model(s.drop_last()).push((s.last().0@, s.last().1.view())),
{
    broadcast use lemma_entries_model_len, lemma_entries_model_index;

}

/// Appending an entry leaves `lookup` at any other key unchanged.
pub(crate) proof fn lemma_append_frame(
    pre: Seq<(Seq<char>, ValueModel)>,
    post: Seq<(Seq<char>, ValueModel)>,
    k: Seq<char>,
    v: ValueModel,
    k2: Seq<char>,
)
    requires
        post == pre.push((k, v)),
        k2 != k,
    ensures
        lookup(post, k2) == lookup(pre, k2),
    decreases pre,
{
    if pre.len() == 0 {
        assert(post[0] == (k, v));
        assert(post.drop_first() =~= pre);
    } else {
        assert(post[0] == pre[0]);
        assert(post.drop_first() =~= pre.drop_first().push((k, v)));
        lemma_append_frame(pre.drop_first(), post.drop_first(), k, v, k2);
    }
}



/// When the first entry carrying `k` stands at `i`, `entry_put` is an
/// update at `i`.
pub proof fn lemma_entry_put_update(
    s: Seq<(Seq<char>, ValueModel)>,
    k: Seq<char>,
    v: ValueModel,
    i: int,
)
    requires
        0 <= i < s.len(),
        s[i].0 == k,
        forall|j: int| 0 <= j < i ==> s[j].0 != k,
    ensures
        entry_put(s, k, v) == s.update(i, (k, v)),
    decreases i,
{
    if i == 0 {
        assert(entry_put(s, k, v) =~= s.update(0, (k, v)));
    } else {
        assert(s[0].0 != k);
        assert(s.drop_first()[i - 1] == s[i]);
        assert(forall|j: int| 0 <= j < i - 1 ==> #[trigger] s.drop_first()[j].0 == s[j + 1].0);
        lemma_entry_put_update(s.drop_first(), k, v, i - 1);
        assert(seq![s[0]] + s.drop_first().update(i - 1, (k, v)) =~= s.update(i, (k, v)));
    }
}

/// When no entry carries `k`, `entry_put` appends.
pub proof fn lemma_entry_put_append(s: Seq<(Seq<char>, ValueModel)>, k: Seq<char>, v: ValueModel)
    requires
        forall|j: int| 0 <= j < s.len() ==> s[j].0 != k,
    ensures
        entry_put(s, k, v) == s.push((k, v)),
    decreases s,
{
    if s.len() == 0 {
        assert(entry_put(s, k, v) =~= s.push((k, v)));
    } else {
        assert(forall|j: int|
            0 <= j < s.drop_first().len() ==> #[trigger] s.drop_first()[j].0 == s[j + 1].0);
        lemma_entry_put_append(s.drop_first(), k, v);
        assert(seq![s[0]] + s.drop_first().push((k, v)) =~= s.push((k, v)));
    }
}


/// Splitting a nonempty value sequence at its last element.
pub proof fn lemma_seq_model_snoc(s: Seq<BluefoxDataType>)
    requires
        s.len() > 0,
    ensures
        seq_model(s) =~= seq_model(s.drop_last()).push(s.last().view()),
{
    broadcast use lemma_seq_model_len, lemma_seq_model_index;

}


/// Storing a non-`Null` value keeps every stored value non-`Null`.
pub proof fn lemma_entry_put_values(s: Seq<(Seq<char>, ValueModel)>, k: Seq<char>, v: ValueModel)
    requires
        obj_values_not_null(s),
        v != ValueModel::Null,
    ensures
        obj_values_not_null(entry_put(s, k, v)),
    decreases s,
{
    if s.len() == 0 {
    } else if s[0].0 == k {
        let post = seq![(k, v)] + s.drop_first();
        assert forall|j: int| 0 <= j < post.len() implies (#[trigger] post[j]).1
            != ValueModel::Null by {
            if j > 0 {
                assert(post[j] == s[j]);
            }
        }
    } else {
        assert(forall|j: int|
            0 <= j < s.drop_first().len() ==> (#[trigger] s.drop_first()[j]) == s[j + 1]);
        lemma_entry_put_values(s.drop_first(), k, v);
        let post = seq![s[0]] + entry_put(s.drop_first(), k, v);
        assert forall|j: int| 0 <= j < post.len() implies (#[trigger] post[j]).1
            != ValueModel::Null by {
            if j > 0 {
                assert(post[j] == entry_put(s.drop_first(), k, v)[j - 1]);
            }
        }
    }
}


/// An array whose elements are each clean is clean.
pub proof fn lemma_arr_null_free_intro(vs: Seq<ValueModel>)
    requires
        forall|j: int| 0 <= j < vs.len() ==> value_null_free(#[trigger] vs[j]),
    ensures
        arr_null_free(vs),
    decreases vs,
{
    if vs.len() > 0 {
        assert(forall|j: int|
            0 <= j < vs.drop_first().len() ==> #[trigger] vs.drop_first()[j] == vs[j + 1]);
        lemma_arr_null_free_intro(vs.drop_first());
    }
}

/// Storing a non-`Null`, clean value keeps the entries clean.
pub proof fn lemma_entry_put_null_free(
    s: Seq<(Seq<char>, ValueModel)>,
    k: Seq<char>,
    v: ValueModel,
)
    requires
        entries_null_free(s),
        v != ValueModel::Null,
        value_null_free(v),
    ensures
        entries_null_free(entry_put(s, k, v)),
    decreases s,
{
    if s.len() == 0 {
        let post = entry_put(s, k, v);
        assert(post =~= seq![(k, v)]);
        assert(post.drop_first() =~= Seq::<(Seq<char>, ValueModel)>::empty());
        assert(entries_null_free(Seq::<(Seq<char>, ValueModel)>::empty()));
    } else if s[0].0 == k {
        let post = seq![(k, v)] + s.drop_first();
        assert(post.drop_first() =~= s.drop_first());
        assert(post[0] == (k, v));
    } else {
        lemma_entry_put_null_free(s.drop_first(), k, v);
        let post = seq![s[0]] + entry_put(s.drop_first(), k, v);
        assert(post.drop_first() =~= entry_put(s.drop_first(), k, v));
        assert(post[0] == s[0]);
    }
}


/// Every key of `entry_put`'s result is `k` or a key of `s`.
pub proof fn lemma_entry_put_keys(s: Seq<(Seq<char>, ValueModel)>, k: Seq<char>, v: ValueModel)
    ensures
        forall|j: int|
            0 <= j < entry_put(s, k, v).len() ==> (#[trigger] entry_put(s, k, v)[j]).0 == k
                || exists|i: int| 0 <= i < s.len() && s[i].0 == entry_put(s, k, v)[j].0,
    decreases s,
{
    let post = entry_put(s, k, v);
    if s.len() == 0 {
        assert(post =~= seq![(k, v)]);
    } else if s[0].0 == k {
        assert(post =~= seq![(k, v)] + s.drop_first());
        assert forall|j: int| 0 <= j < post.len() implies (#[trigger] post[j]).0 == k || exists|
            i: int,
        | 0 <= i < s.len() && s[i].0 == post[j].0 by {
            if j > 0 {
                assert(post[j] == s.drop_first()[j - 1]);
                assert(s[j] == post[j]);
            }
        }
    } else {
        lemma_entry_put_keys(s.drop_first(), k, v);
        assert(post =~= seq![s[0]] + entry_put(s.drop_first(), k, v));
        assert forall|j: int| 0 <= j < post.len() implies (#[trigger] post[j]).0 == k || exists|
            i: int,
        | 0 <= i < s.len() && s[i].0 == post[j].0 by {
            if j == 0 {
                assert(s[0].0 == post[0].0);
            } else {
                let inner = entry_put(s.drop_first(), k, v);
                assert(post[j] == inner[j - 1]);
                if inner[j - 1].0 != k {
                    let i0 = choose|i: int|
                        0 <= i < s.drop_first().len() && s.drop_first()[i].0 == inner[j - 1].0;
                    assert(s[i0 + 1].0 == post[j].0);
                }
            }
        }
    }
}


/// One element holding an uncached function makes the array hold one.
pub proof fn lemma_arr_has_uncached_intro(vs: Seq<ValueModel>, i: int)
    requires
        0 <= i < vs.len(),
        value_has_uncached_func(vs[i]),
    ensures
        arr_has_uncached(vs),
    decreases i,
{
    if i > 0 {
        assert(vs.drop_first()[i - 1] == vs[i]);
        lemma_arr_has_uncached_intro(vs.drop_first(), i - 1);
    }
}

/// One entry holding an uncached function makes the entries hold one.
pub proof fn lemma_entries_has_uncached_intro(es: Seq<(Seq<char>, ValueModel)>, i: int)
    requires
        0 <= i < es.len(),
        value_has_uncached_func(es[i].1),
    ensures
        entries_has_uncached(es),
    decreases i,
{
    if i > 0 {
        assert(es.drop_first()[i - 1] == es[i]);
        lemma_entries_has_uncached_intro(es.drop_first(), i - 1);
    }
}

} // verus!
