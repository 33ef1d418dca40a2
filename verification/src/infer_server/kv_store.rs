//! What the layers remember of running requests.
//!
//! `T` is what is remembered. Moments are nanoseconds on one clock.
use crate::table::Table;
use crate::text::le;
use vstd::prelude::*;

verus! {

use crate::node_stats::NANOS_PER_SEC;
use crate::seqs::{keep, lemma_keep_len, lemma_keep_step};
use crate::table::{lemma_entry, lemma_keep_entries};
use crate::text::{lemma_text_le_total, lemma_text_le_transitive, text_le};

/// Something that is remembered, and when it was last used.
#[derive(Debug)]
pub struct KvSlot<T> {
    pub value: T,
    pub used_at: u64,
}

/// The memory: a bounded number of entries, of which the one that was unused for longest
/// makes room.
#[derive(Debug)]
pub struct KvStore<T> {
    pub entries: Table<KvSlot<T>>,
    pub max_entries: usize,
    pub idle_timeout_secs: u64,
}

/// Whether `a` makes room before `b`: it was unused for longer, or its key is smaller.
pub open spec fn goes_first<T>(a: (String, KvSlot<T>), b: (String, KvSlot<T>)) -> bool {
    a.1.used_at < b.1.used_at || (a.1.used_at == b.1.used_at && text_le(a.0@, b.0@))
}

/// The position of the entry that makes room.
pub open spec fn is_oldest<T>(entries: Seq<(String, KvSlot<T>)>, k: int) -> bool {
    &&& 0 <= k < entries.len()
    &&& forall|j: int| 0 <= j < entries.len() ==> goes_first(entries[k], #[trigger] entries[j])
}

/// Whether an entry is still in use.
pub open spec fn is_fresh<T>(s: KvSlot<T>, timeout_secs: u64, now: u64) -> bool {
    if now >= s.used_at {
        now - s.used_at < timeout_secs * NANOS_PER_SEC
    } else {
        timeout_secs > 0
    }
}

/// Whether an entry has to make room for a request.
pub open spec fn is_full<T>(pre: Table<KvSlot<T>>, max_entries: usize, id: Seq<char>) -> bool {
    pre.entries@.len() >= max_entries && pre.entries@.len() > 0 && !pre@.dom().contains(id)
}

/// Whether `post` is what the memory holds once something was put into it.
pub open spec fn inserted<T>(
    pre: Table<KvSlot<T>>,
    max_entries: usize,
    id: Seq<char>,
    slot: KvSlot<T>,
    post: Map<Seq<char>, KvSlot<T>>,
) -> bool {
    if is_full(pre, max_entries, id) {
        exists|k: int| #[trigger]
            is_oldest(pre.entries@, k) && post == pre@.remove(pre.entries@[k].0@).insert(id, slot)
    } else {
        post == pre@.insert(id, slot)
    }
}

/// Whether `post` is what the memory holds once a request was in use.
pub open spec fn touched<T>(
    pre: Map<Seq<char>, KvSlot<T>>,
    id: Seq<char>,
    now: u64,
    post: Map<Seq<char>, KvSlot<T>>,
) -> bool {
    post == if pre.dom().contains(id) {
        pre.insert(id, KvSlot { used_at: now, ..pre[id] })
    } else {
        pre
    }
}

/// Whether `post` is what the memory holds once what was idle was forgotten.
pub open spec fn evicted_idle<T>(
    pre: Map<Seq<char>, KvSlot<T>>,
    timeout_secs: u64,
    now: u64,
    post: Map<Seq<char>, KvSlot<T>>,
) -> bool {
    &&& forall|id: Seq<char>| #[trigger]
        post.dom().contains(id) == (pre.dom().contains(id) && is_fresh(pre[id], timeout_secs, now))
    &&& forall|id: Seq<char>| post.dom().contains(id) ==> (#[trigger] post[id]) == pre[id]
}

impl<T> KvStore<T> {
    /// No key occurs twice, and there are no more entries than the bound, or one if the bound
    /// is 0.
    pub open spec fn wf(self) -> bool {
        &&& self.entries.wf()
        &&& self.entries.entries@.len() <= self.max_entries || self.entries.entries@.len() <= 1
    }

    pub fn new(max_entries: usize, idle_timeout_secs: u64) -> (s: Self)
        ensures
            s.wf(),
            s.entries@ == Map::<Seq<char>, KvSlot<T>>::empty(),
            s.max_entries == max_entries,
            s.idle_timeout_secs == idle_timeout_secs,
    {
        KvStore { entries: Table::new(), max_entries, idle_timeout_secs }
    }

    /// What is remembered of a request.
    pub fn get(&self, request_id: &str) -> (r: Option<&T>)
        ensures
            match r {
                Some(v) => self.entries@.dom().contains(request_id@) && *v
                    == self.entries@[request_id@].value,
                None => !self.entries@.dom().contains(request_id@),
            },
    {
        match self.entries.get(request_id) {
            Some(s) => Some(&s.value),
            None => None,
        }
    }

    fn oldest(&self) -> (k: usize)
        requires
            self.entries.entries@.len() > 0,
        ensures
            is_oldest(self.entries.entries@, k as int),
    {
        let ghost all = self.entries.entries@;
        let mut k: usize = 0;
        let mut i: usize = 1;
        proof {
            lemma_text_le_total(all[0].0@, all[0].0@);
        }
        while i < self.entries.entries.len()
            invariant
                1 <= i <= all.len(),
                k < i,
                all == self.entries.entries@,
                forall|j: int| 0 <= j < i ==> goes_first(all[k as int], #[trigger] all[j]),
            decreases all.len() - i,
        {
            let a = &self.entries.entries[i];
            let b = &self.entries.entries[k];
            if a.1.used_at < b.1.used_at || (a.1.used_at == b.1.used_at && le(
                a.0.as_str(),
                b.0.as_str(),
            )) {
                proof {
                    assert forall|j: int| 0 <= j < i + 1 implies goes_first(
                        all[i as int],
                        #[trigger] all[j],
                    ) by {
                        if j < i {
                            assert(goes_first(all[k as int], all[j]));
                            if all[i as int].1.used_at == all[k as int].1.used_at
                                && all[k as int].1.used_at == all[j].1.used_at {
                                lemma_text_le_transitive(
                                    all[i as int].0@,
                                    all[k as int].0@,
                                    all[j].0@,
                                );
                            }
                        } else {
                            lemma_text_le_total(all[j].0@, all[j].0@);
                        }
                    }
                }
                k = i;
            } else {
                proof {
                    lemma_text_le_total(all[i as int].0@, all[k as int].0@);
                }
            }
            i = i + 1;
        }
        k
    }

    /// Remembers something of a request. Where the memory is full and the request is new, the
    /// entry that was unused for longest makes room.
    pub fn insert(&mut self, request_id: String, value: T, now: u64)
        requires
            old(self).wf(),
        ensures
            final(self).wf(),
            final(self).max_entries == old(self).max_entries,
            final(self).idle_timeout_secs == old(self).idle_timeout_secs,
            inserted(
                old(self).entries,
                old(self).max_entries,
                request_id@,
                (KvSlot { value, used_at: now }),
                final(self).entries@,
            ),
    {
        let ghost pre = self.entries;
        if self.entries.len() >= self.max_entries && self.entries.len() > 0
            && !self.entries.contains(request_id.as_str()) {
            let k = self.oldest();
            assert(is_oldest(pre.entries@, k as int));
            let key = self.entries.entries[k].0.clone();
            proof {
                lemma_entry(pre.entries@, k as int);
            }
            self.entries.remove(key.as_str());
        }
        self.entries.insert(request_id, KvSlot { value, used_at: now });
    }

    /// A request is in use.
    pub fn touch(&mut self, request_id: &str, now: u64)
        requires
            old(self).wf(),
        ensures
            final(self).wf(),
            final(self).max_entries == old(self).max_entries,
            final(self).idle_timeout_secs == old(self).idle_timeout_secs,
            touched(old(self).entries@, request_id@, now, final(self).entries@),
    {
        if let Some(s) = self.entries.get_mut(request_id) {
            s.used_at = now;
        }
    }

    /// Forgets what was not used for the idle timeout. Returns how many entries that were.
    pub fn evict_idle(&mut self, now: u64) -> (evicted: usize)
        requires
            old(self).wf(),
        ensures
            final(self).wf(),
            final(self).max_entries == old(self).max_entries,
            final(self).idle_timeout_secs == old(self).idle_timeout_secs,
            evicted_idle(
                old(self).entries@,
                old(self).idle_timeout_secs,
                now,
                final(self).entries@,
            ),
            evicted == old(self).entries.entries@.len() - final(self).entries.entries@.len(),
    {
        let ghost pre = self.entries.entries@;
        let ghost stay = |e: (String, KvSlot<T>)| is_fresh(e.1, self.idle_timeout_secs, now);
        let timeout: u64 = self.idle_timeout_secs;
        let span: u128 = timeout as u128 * 1_000_000_000;
        let before: usize = self.entries.len();
        let ghost mut seen: int = 0;
        let mut i: usize = 0;
        assert(pre.subrange(0, pre.len() as int) == pre);
        assert(keep(pre.subrange(0, 0), stay).len() == 0);
        while i < self.entries.entries.len()
            invariant
                span == timeout * 1_000_000_000,
                timeout == self.idle_timeout_secs,
                self.max_entries == old(self).max_entries,
                self.idle_timeout_secs == old(self).idle_timeout_secs,
                0 <= seen <= pre.len(),
                i <= self.entries.entries@.len(),
                stay == (|e: (String, KvSlot<T>)| is_fresh(e.1, timeout, now)),
                i == keep(pre.subrange(0, seen), stay).len(),
                self.entries.entries@ == keep(pre.subrange(0, seen), stay) + pre.subrange(
                    seen,
                    pre.len() as int,
                ),
            decreases pre.len() - seen,
        {
            proof {
                lemma_keep_step(pre, stay, seen);
                assert(self.entries.entries@[i as int] == pre[seen]);
            }
            let t: u64 = self.entries.entries[i].1.used_at;
            let idle: u64 = now.saturating_sub(t);
            let ghost kept = keep(pre.subrange(0, seen), stay);
            if (idle as u128) < span {
                i = i + 1;
                assert(self.entries.entries@ =~= kept.push(pre[seen]) + pre.subrange(
                    seen + 1,
                    pre.len() as int,
                ));
            } else {
                self.entries.entries.remove(i);
                assert(self.entries.entries@ =~= kept + pre.subrange(seen + 1, pre.len() as int));
            }
            proof {
                seen = seen + 1;
            }
        }
        proof {
            assert(seen == pre.len()) by {
                assert(self.entries.entries@.len() == i);
            }
            assert(pre.subrange(seen, pre.len() as int) =~= Seq::<(String, KvSlot<T>)>::empty());
            assert(self.entries.entries@ =~= keep(pre, stay));
            lemma_keep_entries(pre, stay);
            lemma_keep_len(pre, stay);
        }
        before - self.entries.len()
    }
}

/// What is put into the memory is found there, however full it is, and what makes room for it
/// was unused for longest.
pub proof fn law_only_the_oldest_makes_room<T>(
    pre: Table<KvSlot<T>>,
    max_entries: usize,
    id: Seq<char>,
    slot: KvSlot<T>,
    post: Map<Seq<char>, KvSlot<T>>,
    i: int,
    j: int,
)
    requires
        pre.wf(),
        inserted(pre, max_entries, id, slot, post),
        0 <= i < pre.entries@.len(),
        0 <= j < pre.entries@.len(),
    ensures
        post.dom().contains(id),
        post[id] == slot,
        !post.dom().contains(pre.entries@[i].0@) ==> is_full(pre, max_entries, id)
            && pre.entries@[i].1.used_at <= pre.entries@[j].1.used_at,
{
    let gone = pre.entries@[i].0@;
    lemma_entry(pre.entries@, i);
    if !post.dom().contains(gone) {
        let k = choose|k: int| #[trigger]
            is_oldest(pre.entries@, k) && post == pre@.remove(pre.entries@[k].0@).insert(id, slot);
        lemma_entry(pre.entries@, k);
        assert(pre.entries@[k].0@ == gone);
        assert(goes_first(pre.entries@[k], pre.entries@[j]));
    }
}

/// While there is room, or the request is known, nothing else changes.
pub proof fn law_room_leaves_the_others<T>(
    pre: Table<KvSlot<T>>,
    max_entries: usize,
    id: Seq<char>,
    slot: KvSlot<T>,
    post: Map<Seq<char>, KvSlot<T>>,
    other: Seq<char>,
)
    requires
        pre.wf(),
        inserted(pre, max_entries, id, slot, post),
        other != id,
    ensures
        post.dom().contains(other) ==> pre@.dom().contains(other) && post[other] == pre@[other],
        (pre.entries@.len() < max_entries || pre@.dom().contains(id)) && pre@.dom().contains(other)
            ==> post.dom().contains(other),
{
}

/// A request that is in use keeps what is remembered of it, outlasts the idle timeout from then
/// on, and is forgotten once that has passed. Others are not concerned.
pub proof fn law_use_renews_the_timeout<T>(
    pre: Map<Seq<char>, KvSlot<T>>,
    id: Seq<char>,
    now: u64,
    mid: Map<Seq<char>, KvSlot<T>>,
    timeout_secs: u64,
    later: u64,
    post: Map<Seq<char>, KvSlot<T>>,
    other: Seq<char>,
)
    requires
        pre.dom().contains(id),
        touched(pre, id, now, mid),
        evicted_idle(mid, timeout_secs, later, post),
        now <= later,
        other != id,
    ensures
        mid.dom().contains(id) && mid[id].value == pre[id].value,
        mid.dom().contains(other) == pre.dom().contains(other),
        mid.dom().contains(other) ==> mid[other] == pre[other],
        post.dom().contains(id) == (later - now < timeout_secs * 1_000_000_000),
        post.dom().contains(id) ==> post[id].value == pre[id].value,
        post.dom().contains(other) ==> pre.dom().contains(other) && post[other] == pre[other],
        pre.dom().contains(other) && pre[other].used_at <= later ==> post.dom().contains(other) == (
        later - pre[other].used_at < timeout_secs * 1_000_000_000),
{
}

} // verus!
