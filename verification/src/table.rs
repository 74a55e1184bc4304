//! A map from texts to values, kept in the order of its keys.

use crate::text::{
    lemma_text_lt_irreflexive, lemma_text_lt_total, lemma_text_lt_transitive, str_eq, str_lt,
    text_lt,
};
use vstd::prelude::*;

verus! {

/// The value of `key`.
pub open spec fn lookup<V>(entries: Seq<(Seq<char>, V)>, key: Seq<char>) -> Option<V>
    decreases entries.len(),
{
    if entries.len() == 0 {
        None
    } else if entries[0].0 == key {
        Some(entries[0].1)
    } else {
        lookup(entries.drop_first(), key)
    }
}

/// The entries with `key` bound to `value`, in the place of an older binding or
/// before the first greater key.
pub open spec fn put<V>(entries: Seq<(Seq<char>, V)>, key: Seq<char>, value: V) -> Seq<
    (Seq<char>, V),
>
    decreases entries.len(),
{
    if entries.len() == 0 || text_lt(key, entries[0].0) {
        seq![(key, value)] + entries
    } else if entries[0].0 == key {
        seq![(key, value)] + entries.drop_first()
    } else {
        seq![entries[0]] + put(entries.drop_first(), key, value)
    }
}

/// The entries without `key`.
pub open spec fn without<V>(entries: Seq<(Seq<char>, V)>, key: Seq<char>) -> Seq<(Seq<char>, V)>
    decreases entries.len(),
{
    if entries.len() == 0 {
        entries
    } else if entries[0].0 == key {
        entries.drop_first()
    } else {
        seq![entries[0]] + without(entries.drop_first(), key)
    }
}

/// Whether the keys ascend.
pub open spec fn ordered<V>(entries: Seq<(Seq<char>, V)>) -> bool {
    forall|i: int, j: int|
        0 <= i < j < entries.len() ==> text_lt(
            (#[trigger] entries[i]).0,
            (#[trigger] entries[j]).0,
        )
}

/// The values in the order of their keys.
pub open spec fn values_of<V>(entries: Seq<(Seq<char>, V)>) -> Seq<V> {
    Seq::new(entries.len(), |i: int| entries[i].1)
}

/// What the elements of a vector stand for.
pub open spec fn deep_views<V: View>(v: Seq<V>) -> Seq<V::V> {
    Seq::new(v.len(), |i: int| v[i]@)
}

/// A map from texts to values.
#[derive(Debug)]
pub struct TextMap<V> {
    entries: Vec<(String, V)>,
}

impl<V: View> View for TextMap<V> {
    type V = Seq<(Seq<char>, V::V)>;

    closed spec fn view(&self) -> Seq<(Seq<char>, V::V)> {
        Seq::new(self.entries@.len(), |i: int| (self.entries@[i].0@, self.entries@[i].1@))
    }
}

impl<V: View> TextMap<V> {
    /// The empty map.
    pub fn new() -> (m: Self)
        ensures
            m@ == Seq::<(Seq<char>, V::V)>::empty(),
            ordered(m@),
    {
        let m = TextMap { entries: Vec::new() };
        proof {
            assert(m@ =~= Seq::<(Seq<char>, V::V)>::empty());
        }
        m
    }

    /// Number of keys.
    pub fn len(&self) -> (n: usize)
        ensures
            n == self@.len(),
    {
        self.entries.len()
    }

    /// Position of `key`, or of the first key that is greater or binds nothing.
    fn position(&self, key: &str) -> (k: usize)
        ensures
            k <= self@.len(),
            forall|j: int|
                0 <= j < k ==> (#[trigger] self@[j]).0 != key@ && !text_lt(key@, self@[j].0),
            k < self@.len() ==> self@[k as int].0 == key@ || text_lt(key@, self@[k as int].0),
    {
        let mut k: usize = 0;
        while k < self.entries.len() && !str_eq(self.entries[k].0.as_str(), key) && !str_lt(
            key,
            self.entries[k].0.as_str(),
        )
            invariant
                k <= self@.len(),
                self@.len() == self.entries@.len(),
                forall|j: int|
                    0 <= j < k ==> (#[trigger] self@[j]).0 != key@ && !text_lt(key@, self@[j].0),
            decreases self@.len() - k,
        {
            proof {
                assert(self@[k as int].0 == self.entries@[k as int].0@);
            }
            k = k + 1;
        }
        proof {
            if k < self@.len() {
                assert(self@[k as int].0 == self.entries@[k as int].0@);
            }
        }
        k
    }

    /// The value of `key`.
    pub fn get(&self, key: &str) -> (r: Option<&V>)
        requires
            ordered(self@),
        ensures
            match r {
                Some(v) => lookup(self@, key@) == Some(v@),
                None => lookup(self@, key@) is None,
            },
    {
        let k = self.position(key);
        if k < self.entries.len() && str_eq(self.entries[k].0.as_str(), key) {
            proof {
                assert(self@[k as int].0 == self.entries@[k as int].0@);
                lemma_lookup_at(self@, key@, k as int);
            }
            Some(&self.entries[k].1)
        } else {
            proof {
                if k < self@.len() {
                    assert(self@[k as int].0 == self.entries@[k as int].0@);
                }
                lemma_absent(self@, key@, k as int);
                lemma_lookup_none(self@, key@);
            }
            None
        }
    }

    /// Binds `key` to `value`.
    pub fn insert(&mut self, key: String, value: V)
        requires
            ordered(old(self)@),
        ensures
            final(self)@ == put(old(self)@, key@, value@),
            ordered(final(self)@),
    {
        let ghost before = self@;
        let ghost bound = (key@, value@);
        let k = self.position(key.as_str());
        proof {
            lemma_put_at(before, key@, value@, k as int);
            lemma_put_ordered(before, key@, value@);
            if k < before.len() {
                assert(before[k as int].0 == self.entries@[k as int].0@);
            }
        }
        if k < self.entries.len() && str_eq(self.entries[k].0.as_str(), key.as_str()) {
            proof {
                lemma_text_lt_irreflexive(key@);
            }
            self.entries.set(k, (key, value));
            proof {
                assert(self@ =~= before.update(k as int, bound));
            }
        } else {
            self.entries.insert(k, (key, value));
            proof {
                assert(self@ =~= before.insert(k as int, bound));
            }
        }
    }

    /// Takes away the binding of `key`; says whether there was one.
    pub fn remove(&mut self, key: &str) -> (removed: bool)
        requires
            ordered(old(self)@),
        ensures
            final(self)@ == without(old(self)@, key@),
            removed == (lookup(old(self)@, key@) is Some),
            ordered(final(self)@),
    {
        let ghost before = self@;
        let k = self.position(key);
        if k < self.entries.len() && str_eq(self.entries[k].0.as_str(), key) {
            proof {
                assert(before[k as int].0 == self.entries@[k as int].0@);
                lemma_lookup_at(before, key@, k as int);
                lemma_without_at(before, key@, k as int);
            }
            let _ = self.entries.remove(k);
            proof {
                assert(self@ =~= before.remove(k as int));
                assert forall|i: int, j: int| 0 <= i < j < self@.len() implies text_lt(
                    (#[trigger] self@[i]).0,
                    (#[trigger] self@[j]).0,
                ) by {
                    let a = if i < k {
                        i
                    } else {
                        i + 1
                    };
                    let b = if j < k {
                        j
                    } else {
                        j + 1
                    };
                    assert(self@[i] == before[a]);
                    assert(self@[j] == before[b]);
                }
            }
            true
        } else {
            proof {
                if k < self@.len() {
                    assert(self@[k as int].0 == self.entries@[k as int].0@);
                }
                lemma_absent(self@, key@, k as int);
                lemma_lookup_none(self@, key@);
                lemma_without_none(self@, key@);
            }
            false
        }
    }

    /// The entry at the given place in the order of the keys.
    pub fn entry(&self, i: usize) -> (e: (&str, &V))
        requires
            i < self@.len(),
        ensures
            (e.0@, e.1@) == self@[i as int],
    {
        (self.entries[i].0.as_str(), &self.entries[i].1)
    }

    /// The values in the order of their keys.
    pub fn into_values(self) -> (out: Vec<V>)
        ensures
            deep_views(out@) == values_of(self@),
    {
        let ghost all = self@;
        let mut left = self.entries;
        let ghost entries = left@;
        let mut out: Vec<V> = Vec::new();
        let count = left.len();
        let mut i: usize = 0;
        proof {
            assert(entries.skip(0) =~= entries);
        }
        while i < count
            invariant
                i <= count,
                count == entries.len(),
                left@ == entries.skip(i as int),
                out@.len() == i,
                forall|j: int| 0 <= j < i ==> (#[trigger] out@[j]) == entries[j].1,
            decreases count - i,
        {
            let e = left.remove(0);
            proof {
                assert(entries.skip(i as int)[0] == entries[i as int]);
                assert(entries.skip(i as int).remove(0) =~= entries.skip(i + 1));
            }
            out.push(e.1);
            i = i + 1;
        }
        proof {
            assert(deep_views(out@) =~= values_of(all));
        }
        out
    }
}

/// A key that stands nowhere up to the first greater one stands nowhere.
proof fn lemma_absent<V>(entries: Seq<(Seq<char>, V)>, key: Seq<char>, k: int)
    requires
        ordered(entries),
        0 <= k <= entries.len(),
        forall|j: int| 0 <= j < k ==> (#[trigger] entries[j]).0 != key,
        k < entries.len() ==> text_lt(key, entries[k].0),
    ensures
        forall|j: int| 0 <= j < entries.len() ==> (#[trigger] entries[j]).0 != key,
{
    assert forall|j: int| 0 <= j < entries.len() implies (#[trigger] entries[j]).0 != key by {
        if j >= k {
            lemma_text_lt_irreflexive(key);
            if j > k {
                assert(text_lt(entries[k].0, entries[j].0));
                lemma_text_lt_transitive(key, entries[k].0, entries[j].0);
            }
        }
    }
}

proof fn lemma_without_at<V>(entries: Seq<(Seq<char>, V)>, key: Seq<char>, k: int)
    requires
        0 <= k < entries.len(),
        entries[k].0 == key,
        forall|j: int| 0 <= j < k ==> (#[trigger] entries[j]).0 != key,
    ensures
        without(entries, key) == entries.remove(k),
    decreases entries.len(),
{
    if k > 0 {
        let rest = entries.drop_first();
        assert(entries[0].0 != key);
        assert forall|j: int| 0 <= j < k - 1 implies (#[trigger] rest[j]).0 != key by {
            assert(rest[j] == entries[j + 1]);
        }
        lemma_without_at(rest, key, k - 1);
        assert(seq![entries[0]] + rest.remove(k - 1) =~= entries.remove(k));
    } else {
        assert(entries.drop_first() =~= entries.remove(0));
    }
}

proof fn lemma_without_none<V>(entries: Seq<(Seq<char>, V)>, key: Seq<char>)
    requires
        forall|j: int| 0 <= j < entries.len() ==> (#[trigger] entries[j]).0 != key,
    ensures
        without(entries, key) == entries,
    decreases entries.len(),
{
    if entries.len() > 0 {
        let rest = entries.drop_first();
        assert(entries[0].0 != key);
        assert forall|j: int| 0 <= j < rest.len() implies (#[trigger] rest[j]).0 != key by {
            assert(rest[j] == entries[j + 1]);
        }
        lemma_without_none(rest, key);
        assert(seq![entries[0]] + rest =~= entries);
    }
}

proof fn lemma_lookup_at<V>(entries: Seq<(Seq<char>, V)>, key: Seq<char>, k: int)
    requires
        0 <= k < entries.len(),
        entries[k].0 == key,
        forall|j: int| 0 <= j < k ==> (#[trigger] entries[j]).0 != key,
    ensures
        lookup(entries, key) == Some(entries[k].1),
    decreases entries.len(),
{
    if k > 0 {
        let rest = entries.drop_first();
        assert(entries[0].0 != key);
        assert forall|j: int| 0 <= j < k - 1 implies (#[trigger] rest[j]).0 != key by {
            assert(rest[j] == entries[j + 1]);
        }
        lemma_lookup_at(rest, key, k - 1);
    }
}

pub proof fn lemma_lookup_none<V>(entries: Seq<(Seq<char>, V)>, key: Seq<char>)
    requires
        forall|j: int| 0 <= j < entries.len() ==> (#[trigger] entries[j]).0 != key,
    ensures
        lookup(entries, key) is None,
    decreases entries.len(),
{
    if entries.len() > 0 {
        let rest = entries.drop_first();
        assert(entries[0].0 != key);
        assert forall|j: int| 0 <= j < rest.len() implies (#[trigger] rest[j]).0 != key by {
            assert(rest[j] == entries[j + 1]);
        }
        lemma_lookup_none(rest, key);
    }
}

proof fn lemma_put_at<V>(entries: Seq<(Seq<char>, V)>, key: Seq<char>, value: V, k: int)
    requires
        0 <= k <= entries.len(),
        forall|j: int|
            0 <= j < k ==> (#[trigger] entries[j]).0 != key && !text_lt(key, entries[j].0),
        k < entries.len() ==> entries[k].0 == key || text_lt(key, entries[k].0),
    ensures
        put(entries, key, value) == if k < entries.len() && entries[k].0 == key {
            entries.update(k, (key, value))
        } else {
            entries.insert(k, (key, value))
        },
    decreases entries.len(),
{
    if k > 0 {
        let rest = entries.drop_first();
        assert(entries[0].0 != key);
        assert forall|j: int| 0 <= j < k - 1 implies (#[trigger] rest[j]).0 != key && !text_lt(
            key,
            rest[j].0,
        ) by {
            assert(rest[j] == entries[j + 1]);
        }
        lemma_put_at(rest, key, value, k - 1);
        if k < entries.len() && entries[k].0 == key {
            assert(seq![entries[0]] + rest.update(k - 1, (key, value)) =~= entries.update(
                k,
                (key, value),
            ));
        } else {
            assert(seq![entries[0]] + rest.insert(k - 1, (key, value)) =~= entries.insert(
                k,
                (key, value),
            ));
        }
    } else {
        lemma_text_lt_irreflexive(key);
        if entries.len() > 0 && entries[0].0 == key {
            assert(seq![(key, value)] + entries.drop_first() =~= entries.update(0, (key, value)));
        } else {
            assert(seq![(key, value)] + entries =~= entries.insert(0, (key, value)));
        }
    }
}

/// Whether all keys come after `low`.
spec fn above<V>(entries: Seq<(Seq<char>, V)>, low: Seq<char>) -> bool {
    forall|i: int| 0 <= i < entries.len() ==> text_lt(low, (#[trigger] entries[i]).0)
}

proof fn lemma_put_above<V>(
    entries: Seq<(Seq<char>, V)>,
    key: Seq<char>,
    value: V,
    low: Seq<char>,
)
    requires
        above(entries, low),
        text_lt(low, key),
    ensures
        above(put(entries, key, value), low),
    decreases entries.len(),
{
    let out = put(entries, key, value);
    if entries.len() == 0 || text_lt(key, entries[0].0) {
        assert forall|i: int| 0 <= i < out.len() implies text_lt(low, (#[trigger] out[i]).0) by {
            if i > 0 {
                assert(out[i] == entries[i - 1]);
            }
        }
    } else {
        let rest = entries.drop_first();
        assert(above(rest, low)) by {
            assert forall|i: int| 0 <= i < rest.len() implies text_lt(
                low,
                (#[trigger] rest[i]).0,
            ) by {
                assert(rest[i] == entries[i + 1]);
            }
        }
        if entries[0].0 != key {
            lemma_put_above(rest, key, value, low);
        }
        assert forall|i: int| 0 <= i < out.len() implies text_lt(low, (#[trigger] out[i]).0) by {
            if i > 0 {
                if entries[0].0 == key {
                    assert(out[i] == rest[i - 1]);
                } else {
                    assert(out[i] == put(rest, key, value)[i - 1]);
                }
            } else {
                assert(text_lt(low, entries[0].0));
            }
        }
    }
}

proof fn lemma_put_ordered<V>(entries: Seq<(Seq<char>, V)>, key: Seq<char>, value: V)
    requires
        ordered(entries),
    ensures
        ordered(put(entries, key, value)),
    decreases entries.len(),
{
    let out = put(entries, key, value);
    if entries.len() == 0 || text_lt(key, entries[0].0) {
        assert forall|i: int, j: int| 0 <= i < j < out.len() implies text_lt(
            (#[trigger] out[i]).0,
            (#[trigger] out[j]).0,
        ) by {
            assert(out[j] == entries[j - 1]);
            if i > 0 {
                assert(out[i] == entries[i - 1]);
            } else if j > 1 {
                assert(text_lt(entries[0].0, entries[j - 1].0));
                lemma_text_lt_transitive(key, entries[0].0, entries[j - 1].0);
            }
        }
    } else {
        let rest = entries.drop_first();
        assert(ordered(rest)) by {
            assert forall|i: int, j: int| 0 <= i < j < rest.len() implies text_lt(
                (#[trigger] rest[i]).0,
                (#[trigger] rest[j]).0,
            ) by {
                assert(rest[i] == entries[i + 1]);
                assert(rest[j] == entries[j + 1]);
            }
        }
        assert(above(rest, entries[0].0)) by {
            assert forall|i: int| 0 <= i < rest.len() implies text_lt(
                entries[0].0,
                (#[trigger] rest[i]).0,
            ) by {
                assert(rest[i] == entries[i + 1]);
            }
        }
        let tail = if entries[0].0 == key {
            rest
        } else {
            put(rest, key, value)
        };
        if entries[0].0 != key {
            lemma_text_lt_total(key, entries[0].0);
            lemma_put_ordered(rest, key, value);
            lemma_put_above(rest, key, value, entries[0].0);
        }
        assert(out[0].0 == entries[0].0);
        assert forall|i: int, j: int| 0 <= i < j < out.len() implies text_lt(
            (#[trigger] out[i]).0,
            (#[trigger] out[j]).0,
        ) by {
            assert(out[j] == tail[j - 1]);
            if i > 0 {
                assert(out[i] == tail[i - 1]);
            }
        }
    }
}

/// A key that was bound has its new value, every other key keeps its own, and
/// the keys stay in order.
pub proof fn law_put_binds_one_key<V>(
    entries: Seq<(Seq<char>, V)>,
    key: Seq<char>,
    value: V,
    other: Seq<char>,
)
    requires
        ordered(entries),
    ensures
        ordered(put(entries, key, value)),
        lookup(put(entries, key, value), key) == Some(value),
        other != key ==> lookup(put(entries, key, value), other) == lookup(entries, other),
    decreases entries.len(),
{
    lemma_put_ordered(entries, key, value);
    let out = put(entries, key, value);
    if entries.len() == 0 || text_lt(key, entries[0].0) {
        assert(out.drop_first() =~= entries);
    } else if entries[0].0 == key {
        assert(out.drop_first() =~= entries.drop_first());
    } else {
        let rest = entries.drop_first();
        assert(ordered(rest)) by {
            assert forall|i: int, j: int| 0 <= i < j < rest.len() implies text_lt(
                (#[trigger] rest[i]).0,
                (#[trigger] rest[j]).0,
            ) by {
                assert(rest[i] == entries[i + 1]);
                assert(rest[j] == entries[j + 1]);
            }
        }
        law_put_binds_one_key(rest, key, value, other);
        assert(out.drop_first() =~= put(rest, key, value));
    }
}

/// A key that was taken away has no value, every other key keeps its own, and
/// the keys stay in order.
pub proof fn law_without_unbinds_one_key<V>(
    entries: Seq<(Seq<char>, V)>,
    key: Seq<char>,
    other: Seq<char>,
)
    requires
        ordered(entries),
    ensures
        lookup(without(entries, key), key) is None,
        other != key ==> lookup(without(entries, key), other) == lookup(entries, other),
    decreases entries.len(),
{
    if entries.len() > 0 {
        let rest = entries.drop_first();
        assert(ordered(rest)) by {
            assert forall|i: int, j: int| 0 <= i < j < rest.len() implies text_lt(
                (#[trigger] rest[i]).0,
                (#[trigger] rest[j]).0,
            ) by {
                assert(rest[i] == entries[i + 1]);
                assert(rest[j] == entries[j + 1]);
            }
        }
        if entries[0].0 == key {
            assert forall|j: int| 0 <= j < rest.len() implies (#[trigger] rest[j]).0 != key by {
                assert(rest[j] == entries[j + 1]);
                lemma_text_lt_irreflexive(key);
            }
            lemma_lookup_none(rest, key);
        } else {
            law_without_unbinds_one_key(rest, key, other);
            assert((seq![entries[0]] + without(rest, key)).drop_first() =~= without(rest, key));
        }
    }
}

} // verus!
