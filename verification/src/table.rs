//! A map from text keys to values that keeps its entries in order of insertion.
use crate::text::str_eq;
use vstd::prelude::*;

verus! {

use crate::seqs::{keep, lemma_keep_members};

/// A map with text keys.
#[derive(Debug)]
pub struct Table<T> {
    pub entries: Vec<(String, T)>,
}

/// Position of the entry with this key, or the number of entries.
pub open spec fn key_index<T>(entries: Seq<(String, T)>, key: Seq<char>) -> int
    decreases entries.len(),
{
    if entries.len() == 0 {
        0
    } else if entries[0].0@ == key {
        0
    } else {
        1 + key_index(entries.drop_first(), key)
    }
}

pub open spec fn distinct_keys<T>(entries: Seq<(String, T)>) -> bool {
    forall|i: int, j: int|
        0 <= i < j < entries.len() ==> (#[trigger] entries[i]).0@ != (#[trigger] entries[j]).0@
}

pub open spec fn has_key<T>(entries: Seq<(String, T)>, key: Seq<char>) -> bool {
    exists|i: int| 0 <= i < entries.len() && (#[trigger] entries[i]).0@ == key
}

/// The map that the entries stand for.
pub open spec fn as_map<T>(entries: Seq<(String, T)>) -> Map<Seq<char>, T> {
    Map::new(
        |key: Seq<char>| has_key(entries, key),
        |key: Seq<char>| entries[key_index(entries, key)].1,
    )
}

proof fn lemma_key_index<T>(entries: Seq<(String, T)>, key: Seq<char>)
    ensures
        0 <= key_index(entries, key) <= entries.len(),
        key_index(entries, key) < entries.len() ==> entries[key_index(entries, key)].0@ == key,
        forall|j: int|
            0 <= j < key_index(entries, key) ==> (#[trigger] entries[j]).0@ != key,
    decreases entries.len(),
{
    if entries.len() > 0 && entries[0].0@ != key {
        let rest = entries.drop_first();
        lemma_key_index(rest, key);
        assert forall|j: int| 0 <= j < key_index(entries, key) implies (#[trigger] entries[j]).0@
            != key by {
            if j > 0 {
                assert(rest[j - 1] == entries[j]);
            }
        }
        if key_index(entries, key) < entries.len() {
            assert(rest[key_index(rest, key)] == entries[key_index(entries, key)]);
        }
    }
}

/// An entry's key leads to its value.
pub proof fn lemma_entry<T>(entries: Seq<(String, T)>, i: int)
    requires
        distinct_keys(entries),
        0 <= i < entries.len(),
    ensures
        key_index(entries, entries[i].0@) == i,
        as_map(entries).dom().contains(entries[i].0@),
        as_map(entries)[entries[i].0@] == entries[i].1,
{
    lemma_key_index(entries, entries[i].0@);
    let k = key_index(entries, entries[i].0@);
    assert(has_key(entries, entries[i].0@));
    if k < i {
        assert(entries[k].0@ != entries[i].0@);
    }
    if i < k {
        assert(entries[i].0@ != entries[i].0@);
    }
}

/// A key is present exactly if it has a position.
pub proof fn lemma_has_key<T>(entries: Seq<(String, T)>, key: Seq<char>)
    ensures
        has_key(entries, key) == (key_index(entries, key) < entries.len()),
        as_map(entries).dom().contains(key) == has_key(entries, key),
        0 <= key_index(entries, key) <= entries.len(),
        has_key(entries, key) ==> entries[key_index(entries, key)].0@ == key,
{
    lemma_key_index(entries, key);
    if has_key(entries, key) {
        let i = choose|i: int| 0 <= i < entries.len() && (#[trigger] entries[i]).0@ == key;
        if key_index(entries, key) == entries.len() {
            assert(entries[i].0@ != key);
        }
    }
}

/// Without its last entry the map lacks that entry's key.
pub proof fn lemma_drop_last<T>(entries: Seq<(String, T)>)
    requires
        distinct_keys(entries),
        entries.len() > 0,
    ensures
        distinct_keys(entries.drop_last()),
        as_map(entries.drop_last()) == as_map(entries).remove(entries.last().0@),
        as_map(entries).dom().contains(entries.last().0@),
        as_map(entries)[entries.last().0@] == entries.last().1,
{
    let init = entries.drop_last();
    let key = entries.last().0@;
    lemma_entry(entries, entries.len() - 1);
    assert forall|k: Seq<char>| #[trigger] as_map(init).dom().contains(k) == as_map(entries).remove(
        key,
    ).dom().contains(k) by {
        lemma_has_key(entries, k);
        lemma_has_key(init, k);
        if has_key(init, k) {
            let i = key_index(init, k);
            assert(entries[i] == init[i]);
            assert(entries[i].0@ != entries[entries.len() - 1].0@);
            assert(has_key(entries, k));
        }
        if has_key(entries, k) && k != key {
            let i = key_index(entries, k);
            assert(init[i].0@ == k);
        }
    }
    assert forall|k: Seq<char>| as_map(init).dom().contains(k) implies #[trigger] as_map(init)[k]
        == as_map(entries).remove(key)[k] by {
        lemma_has_key(init, k);
        let i = key_index(init, k);
        assert(entries[i] == init[i]);
        lemma_entry(entries, i);
    }
    assert(as_map(init) =~= as_map(entries).remove(key));
}

/// The map has as many keys as there are entries.
pub proof fn lemma_key_count<T>(entries: Seq<(String, T)>)
    requires
        distinct_keys(entries),
    ensures
        as_map(entries).dom().finite(),
        as_map(entries).dom().len() == entries.len(),
    decreases entries.len(),
{
    if entries.len() == 0 {
        assert(as_map(entries).dom() =~= Set::empty());
    } else {
        let key = entries.last().0@;
        lemma_drop_last(entries);
        lemma_key_count(entries.drop_last());
        assert(as_map(entries).dom() =~= as_map(entries.drop_last()).dom().insert(key));
    }
}

proof fn lemma_update<T>(entries: Seq<(String, T)>, i: int, v: T)
    requires
        distinct_keys(entries),
        0 <= i < entries.len(),
    ensures
        distinct_keys(entries.update(i, (entries[i].0, v))),
        as_map(entries.update(i, (entries[i].0, v))) == as_map(entries).insert(entries[i].0@, v),
{
    let post = entries.update(i, (entries[i].0, v));
    let key = entries[i].0@;
    assert(forall|j: int| 0 <= j < entries.len() ==> (#[trigger] post[j]).0 == entries[j].0);
    assert forall|k: Seq<char>| has_key(post, k) == #[trigger] as_map(entries).insert(
        key,
        v,
    ).dom().contains(k) by {
        if has_key(post, k) {
            let j = choose|j: int| 0 <= j < post.len() && (#[trigger] post[j]).0@ == k;
            assert(entries[j].0@ == k);
        }
        if has_key(entries, k) {
            let j = choose|j: int| 0 <= j < entries.len() && (#[trigger] entries[j]).0@ == k;
            assert(post[j].0@ == k);
        }
        if k == key {
            assert(post[i].0@ == k);
        }
    }
    assert forall|k: Seq<char>| has_key(post, k) implies #[trigger] as_map(post)[k] == as_map(
        entries,
    ).insert(key, v)[k] by {
        let j = choose|j: int| 0 <= j < post.len() && (#[trigger] post[j]).0@ == k;
        lemma_entry(post, j);
        assert(entries[j].0@ == k);
        lemma_entry(entries, j);
        if k == key {
            lemma_entry(entries, i);
        }
    }
    assert(as_map(post) =~= as_map(entries).insert(key, v));
}

proof fn lemma_push<T>(entries: Seq<(String, T)>, e: (String, T))
    requires
        distinct_keys(entries),
        !has_key(entries, e.0@),
    ensures
        distinct_keys(entries.push(e)),
        as_map(entries.push(e)) == as_map(entries).insert(e.0@, e.1),
{
    let post = entries.push(e);
    assert forall|i: int, j: int| 0 <= i < j < post.len() implies (#[trigger] post[i]).0@ != (
    #[trigger] post[j]).0@ by {
        if j == entries.len() {
            assert(entries[i].0@ != e.0@);
        }
    }
    assert forall|k: Seq<char>| has_key(post, k) == #[trigger] as_map(entries).insert(
        e.0@,
        e.1,
    ).dom().contains(k) by {
        if has_key(post, k) {
            let j = choose|j: int| 0 <= j < post.len() && (#[trigger] post[j]).0@ == k;
            if j < entries.len() {
                assert(entries[j].0@ == k);
            }
        }
        if has_key(entries, k) {
            let j = choose|j: int| 0 <= j < entries.len() && (#[trigger] entries[j]).0@ == k;
            assert(post[j].0@ == k);
        }
        if k == e.0@ {
            assert(post[entries.len() as int].0@ == k);
        }
    }
    assert forall|k: Seq<char>| has_key(post, k) implies #[trigger] as_map(post)[k] == as_map(
        entries,
    ).insert(e.0@, e.1)[k] by {
        let j = choose|j: int| 0 <= j < post.len() && (#[trigger] post[j]).0@ == k;
        lemma_entry(post, j);
        if j < entries.len() {
            assert(entries[j].0@ == k);
            lemma_entry(entries, j);
        }
    }
    assert(as_map(post) =~= as_map(entries).insert(e.0@, e.1));
}

proof fn lemma_remove<T>(entries: Seq<(String, T)>, i: int)
    requires
        distinct_keys(entries),
        0 <= i < entries.len(),
    ensures
        distinct_keys(entries.remove(i)),
        as_map(entries.remove(i)) == as_map(entries).remove(entries[i].0@),
{
    let post = entries.remove(i);
    let key = entries[i].0@;
    assert(forall|j: int|
        0 <= j < post.len() ==> #[trigger] post[j] == entries[if j < i {
            j
        } else {
            j + 1
        }]);
    assert forall|k: Seq<char>| has_key(post, k) == #[trigger] as_map(entries).remove(
        key,
    ).dom().contains(k) by {
        if has_key(post, k) {
            let j = choose|j: int| 0 <= j < post.len() && (#[trigger] post[j]).0@ == k;
            let m = if j < i {
                j
            } else {
                j + 1
            };
            assert(entries[m].0@ == k);
        }
        if has_key(entries, k) && k != key {
            let m = choose|m: int| 0 <= m < entries.len() && (#[trigger] entries[m]).0@ == k;
            let j = if m < i {
                m
            } else {
                m - 1
            };
            assert(post[j].0@ == k);
        }
    }
    assert forall|k: Seq<char>| has_key(post, k) implies #[trigger] as_map(post)[k] == as_map(
        entries,
    ).remove(key)[k] by {
        let j = choose|j: int| 0 <= j < post.len() && (#[trigger] post[j]).0@ == k;
        lemma_entry(post, j);
        let m = if j < i {
            j
        } else {
            j + 1
        };
        assert(entries[m].0@ == k);
        lemma_entry(entries, m);
    }
    assert(as_map(post) =~= as_map(entries).remove(key));
}

/// Dropping entries drops their keys and nothing else.
pub proof fn lemma_keep_entries<T>(entries: Seq<(String, T)>, p: spec_fn((String, T)) -> bool)
    requires
        distinct_keys(entries),
    ensures
        distinct_keys(keep(entries, p)),
        forall|k: Seq<char>| #[trigger]
            as_map(keep(entries, p)).dom().contains(k) <==> as_map(entries).dom().contains(k) && p(
                entries[key_index(entries, k)],
            ),
        forall|k: Seq<char>|
            as_map(keep(entries, p)).dom().contains(k) ==> #[trigger] as_map(keep(entries, p))[k]
                == as_map(entries)[k],
{
    let kept = keep(entries, p);
    lemma_keep_keys(entries, p);
    lemma_keep_members(entries, p);
    assert forall|k: Seq<char>| #[trigger] as_map(kept).dom().contains(k) implies as_map(
        entries,
    ).dom().contains(k) && p(entries[key_index(entries, k)]) && as_map(kept)[k] == as_map(
        entries,
    )[k] by {
        let j = choose|j: int| 0 <= j < kept.len() && (#[trigger] kept[j]).0@ == k;
        lemma_entry(kept, j);
        let m = choose|m: int| 0 <= m < entries.len() && entries[m] == kept[j];
        lemma_entry(entries, m);
    }
    assert forall|k: Seq<char>|
        as_map(entries).dom().contains(k) && p(
            entries[key_index(entries, k)],
        ) implies #[trigger] as_map(kept).dom().contains(k) by {
        lemma_has_key(entries, k);
        let m = key_index(entries, k);
        assert(kept.contains(entries[m]));
        let j = choose|j: int| 0 <= j < kept.len() && kept[j] == entries[m];
        assert(kept[j].0@ == k);
    }
}

proof fn lemma_keep_keys<T>(entries: Seq<(String, T)>, p: spec_fn((String, T)) -> bool)
    requires
        distinct_keys(entries),
    ensures
        distinct_keys(keep(entries, p)),
    decreases entries.len(),
{
    if entries.len() > 0 {
        let init = entries.drop_last();
        assert(forall|j: int| 0 <= j < init.len() ==> init[j] == entries[j]);
        lemma_keep_keys(init, p);
        lemma_keep_members(init, p);
        let kept = keep(entries, p);
        if p(entries.last()) {
            assert(entries[entries.len() - 1] == entries.last());
            assert forall|i: int| 0 <= i < keep(init, p).len() implies (#[trigger] kept[i]).0@
                != entries.last().0@ by {
                let m = choose|m: int| 0 <= m < init.len() && init[m] == keep(init, p)[i];
                assert(entries[m] == init[m]);
            }
        }
    }
}

impl<T> View for Table<T> {
    type V = Map<Seq<char>, T>;

    open spec fn view(&self) -> Map<Seq<char>, T> {
        as_map(self.entries@)
    }
}

impl<T> Table<T> {
    /// No key occurs twice.
    pub open spec fn wf(self) -> bool {
        distinct_keys(self.entries@)
    }

    /// The empty table.
    pub fn new() -> (t: Self)
        ensures
            t.wf(),
            t@ == Map::<Seq<char>, T>::empty(),
            t.entries@.len() == 0,
    {
        let t = Table { entries: Vec::new() };
        assert forall|k: Seq<char>| !(#[trigger] t@.dom().contains(k)) by {
            lemma_has_key(t.entries@, k);
        }
        assert(t@ =~= Map::<Seq<char>, T>::empty());
        t
    }

    /// Number of entries.
    pub fn len(&self) -> (n: usize)
        ensures
            n == self.entries@.len(),
    {
        self.entries.len()
    }

    /// Position of a key, or the number of entries.
    pub fn index(&self, key: &str) -> (k: usize)
        ensures
            k == key_index(self.entries@, key@),
            k <= self.entries@.len(),
            self@.dom().contains(key@) == (k < self.entries@.len()),
            k < self.entries@.len() ==> self.entries@[k as int].0@ == key@
                && self.entries@[k as int].1 == self@[key@],
    {
        proof {
            lemma_key_index(self.entries@, key@);
            lemma_has_key(self.entries@, key@);
        }
        let mut k: usize = 0;
        while k < self.entries.len()
            invariant
                k <= key_index(self.entries@, key@) <= self.entries@.len(),
                key_index(self.entries@, key@) < self.entries@.len() ==> self.entries@[key_index(
                    self.entries@,
                    key@,
                )].0@ == key@,
                forall|j: int|
                    0 <= j < key_index(self.entries@, key@) ==> (#[trigger] self.entries@[j]).0@
                        != key@,
                self@.dom().contains(key@) == (key_index(self.entries@, key@)
                    < self.entries@.len()),
            decreases self.entries@.len() - k,
        {
            if str_eq(self.entries[k].0.as_str(), key) {
                return k;
            }
            k = k + 1;
        }
        k
    }

    /// Whether the key is present.
    pub fn contains(&self, key: &str) -> (r: bool)
        ensures
            r == self@.dom().contains(key@),
    {
        self.index(key) < self.entries.len()
    }

    /// The value of a key.
    pub fn get(&self, key: &str) -> (r: Option<&T>)
        ensures
            match r {
                Some(v) => self@.dom().contains(key@) && *v == self@[key@],
                None => !self@.dom().contains(key@),
            },
    {
        let k = self.index(key);
        if k < self.entries.len() {
            Some(&self.entries[k].1)
        } else {
            None
        }
    }

    /// Puts a value in place; an earlier value of the key is gone.
    pub fn insert(&mut self, key: String, value: T)
        requires
            old(self).wf(),
        ensures
            final(self).wf(),
            final(self)@ == old(self)@.insert(key@, value),
            final(self).entries@.len() == if old(self)@.dom().contains(key@) {
                old(self).entries@.len()
            } else {
                old(self).entries@.len() + 1
            },
    {
        let k = self.index(key.as_str());
        proof {
            lemma_has_key(self.entries@, key@);
        }
        if k < self.entries.len() {
            proof {
                lemma_update(self.entries@, k as int, value);
            }
            self.entries[k].1 = value;
            assert(self.entries@ == old(self).entries@.update(
                k as int,
                (old(self).entries@[k as int].0, value),
            ));
        } else {
            proof {
                lemma_push(self.entries@, (key, value));
            }
            self.entries.push((key, value));
        }
    }

    /// Takes a key out.
    pub fn remove(&mut self, key: &str) -> (r: Option<T>)
        requires
            old(self).wf(),
        ensures
            final(self).wf(),
            final(self)@ == old(self)@.remove(key@),
            final(self).entries@.len() == if old(self)@.dom().contains(key@) {
                old(self).entries@.len() - 1
            } else {
                old(self).entries@.len() as int
            },
            match r {
                Some(v) => old(self)@.dom().contains(key@) && v == old(self)@[key@],
                None => !old(self)@.dom().contains(key@),
            },
    {
        let k = self.index(key);
        proof {
            lemma_has_key(self.entries@, key@);
        }
        if k < self.entries.len() {
            proof {
                lemma_remove(self.entries@, k as int);
            }
            let (_, v) = self.entries.remove(k);
            Some(v)
        } else {
            assert(self@.remove(key@) =~= self@);
            None
        }
    }

    /// Replaces the value at a position.
    pub fn set_at(&mut self, k: usize, value: T)
        requires
            old(self).wf(),
            k < old(self).entries@.len(),
        ensures
            final(self).wf(),
            final(self).entries@ == old(self).entries@.update(
                k as int,
                (old(self).entries@[k as int].0, value),
            ),
            final(self)@ == old(self)@.insert(old(self).entries@[k as int].0@, value),
    {
        proof {
            lemma_update(self.entries@, k as int, value);
        }
        self.entries[k].1 = value;
        assert(self.entries@ == old(self).entries@.update(
            k as int,
            (old(self).entries@[k as int].0, value),
        ));
    }

    /// The value of a key, to change it.
    pub fn get_mut(&mut self, key: &str) -> (r: Option<&mut T>)
        requires
            old(self).wf(),
        ensures
            match r {
                Some(v) => {
                    &&& old(self)@.dom().contains(key@)
                    &&& *v == old(self)@[key@]
                    &&& final(self).wf()
                    &&& final(self)@ == old(self)@.insert(key@, *final(v))
                    &&& final(self).entries@.len() == old(self).entries@.len()
                },
                None => !old(self)@.dom().contains(key@) && *final(self) == *old(self),
            },
    {
        let k = self.index(key);
        proof {
            lemma_has_key(self.entries@, key@);
            if k < self.entries@.len() {
                assert forall|v: T| distinct_keys(
                    #[trigger] self.entries@.update(k as int, (self.entries@[k as int].0, v)),
                ) && as_map(self.entries@.update(k as int, (self.entries@[k as int].0, v)))
                    == as_map(self.entries@).insert(self.entries@[k as int].0@, v) by {
                    lemma_update(self.entries@, k as int, v);
                }
            }
        }
        if k < self.entries.len() {
            Some(&mut self.entries[k].1)
        } else {
            None
        }
    }
}

} // verus!
