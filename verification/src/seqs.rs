//! Positions of elements in sequences.
use vstd::prelude::*;

verus! {

/// The first position from `i` on whose element satisfies `p`, or the length.
pub open spec fn index_from<T>(s: Seq<T>, p: spec_fn(T) -> bool, i: int) -> int
    decreases s.len() - i,
{
    if i < 0 || i >= s.len() {
        s.len() as int
    } else if p(s[i]) {
        i
    } else {
        index_from(s, p, i + 1)
    }
}

/// The position of the first element that satisfies `p`, or the length.
pub open spec fn first_index<T>(s: Seq<T>, p: spec_fn(T) -> bool) -> int {
    index_from(s, p, 0)
}

pub proof fn lemma_index_from<T>(s: Seq<T>, p: spec_fn(T) -> bool, i: int)
    requires
        0 <= i <= s.len(),
    ensures
        i <= index_from(s, p, i) <= s.len(),
        index_from(s, p, i) < s.len() ==> p(s[index_from(s, p, i)]),
        forall|j: int| i <= j < index_from(s, p, i) ==> !p(#[trigger] s[j]),
    decreases s.len() - i,
{
    if i < s.len() && !p(s[i]) {
        lemma_index_from(s, p, i + 1);
    }
}

/// A position that satisfies `p` with none before it is the first one.
pub proof fn lemma_first_index_is<T>(s: Seq<T>, p: spec_fn(T) -> bool, k: int)
    requires
        0 <= k <= s.len(),
        k < s.len() ==> p(s[k]),
        forall|j: int| 0 <= j < k ==> !p(#[trigger] s[j]),
    ensures
        first_index(s, p) == k,
{
    lemma_index_from(s, p, 0);
    let f = first_index(s, p);
    if f < k {
        assert(!p(s[f]));
    }
    if k < f {
        assert(!p(s[k]));
    }
}

/// The elements that satisfy `p`, in order.
pub open spec fn keep<T>(s: Seq<T>, p: spec_fn(T) -> bool) -> Seq<T>
    decreases s.len(),
{
    if s.len() == 0 {
        Seq::empty()
    } else if p(s.last()) {
        keep(s.drop_last(), p).push(s.last())
    } else {
        keep(s.drop_last(), p)
    }
}

/// The number of elements that satisfy `p`.
pub open spec fn count<T>(s: Seq<T>, p: spec_fn(T) -> bool) -> nat {
    keep(s, p).len()
}

/// One more element is kept exactly if it satisfies `p`.
pub proof fn lemma_keep_step<T>(s: Seq<T>, p: spec_fn(T) -> bool, i: int)
    requires
        0 <= i < s.len(),
    ensures
        keep(s.subrange(0, i + 1), p) == if p(s[i]) {
            keep(s.subrange(0, i), p).push(s[i])
        } else {
            keep(s.subrange(0, i), p)
        },
{
    let t = s.subrange(0, i + 1);
    assert(t.drop_last() == s.subrange(0, i));
    assert(t.last() == s[i]);
}

pub proof fn lemma_keep_len<T>(s: Seq<T>, p: spec_fn(T) -> bool)
    ensures
        keep(s, p).len() <= s.len(),
    decreases s.len(),
{
    if s.len() > 0 {
        lemma_keep_len(s.drop_last(), p);
    }
}

/// What is kept satisfies `p` and stood in the sequence; what satisfies `p` is kept.
pub proof fn lemma_keep_members<T>(s: Seq<T>, p: spec_fn(T) -> bool)
    ensures
        forall|k: int|
            0 <= k < keep(s, p).len() ==> p(#[trigger] keep(s, p)[k]) && s.contains(keep(s, p)[k]),
        forall|m: int|
            0 <= m < s.len() && p(#[trigger] s[m]) ==> keep(s, p).contains(s[m]),
    decreases s.len(),
{
    if s.len() > 0 {
        let init = s.drop_last();
        let kept = keep(s, p);
        lemma_keep_members(init, p);
        assert forall|k: int| 0 <= k < kept.len() implies p(#[trigger] kept[k]) && s.contains(
            kept[k],
        ) by {
            if k < keep(init, p).len() {
                let m = choose|m: int| 0 <= m < init.len() && init[m] == keep(init, p)[k];
                assert(s[m] == kept[k]);
            } else {
                assert(s[s.len() - 1] == kept[k]);
            }
        }
        assert forall|m: int| 0 <= m < s.len() && p(#[trigger] s[m]) implies kept.contains(
            s[m],
        ) by {
            if m < init.len() {
                assert(init[m] == s[m]);
                let k = choose|k: int| 0 <= k < keep(init, p).len() && keep(init, p)[k] == init[m];
                assert(kept[k] == s[m]);
            } else {
                assert(kept[kept.len() - 1] == s[m]);
            }
        }
    }
}

/// Nothing is dropped where everything satisfies `p`.
pub proof fn lemma_keep_all<T>(s: Seq<T>, p: spec_fn(T) -> bool)
    requires
        forall|i: int| 0 <= i < s.len() ==> p(#[trigger] s[i]),
    ensures
        keep(s, p) == s,
    decreases s.len(),
{
    if s.len() > 0 {
        lemma_keep_all(s.drop_last(), p);
        assert(s.drop_last().push(s.last()) == s);
    }
}

/// The sum of `f` over the elements.
pub open spec fn sum_of<T>(s: Seq<T>, f: spec_fn(T) -> nat) -> nat
    decreases s.len(),
{
    if s.len() == 0 {
        0
    } else {
        sum_of(s.drop_last(), f) + f(s.last())
    }
}

/// One more element adds its value; no prefix exceeds the whole.
pub proof fn lemma_sum_step<T>(s: Seq<T>, f: spec_fn(T) -> nat, i: int)
    requires
        0 <= i < s.len(),
    ensures
        sum_of(s.subrange(0, i + 1), f) == sum_of(s.subrange(0, i), f) + f(s[i]),
        sum_of(s.subrange(0, i + 1), f) <= sum_of(s, f),
{
    let t = s.subrange(0, i + 1);
    assert(t.drop_last() == s.subrange(0, i));
    assert(t.last() == s[i]);
    lemma_sum_prefix(s, f, i + 1);
}

proof fn lemma_sum_prefix<T>(s: Seq<T>, f: spec_fn(T) -> nat, n: int)
    requires
        0 <= n <= s.len(),
    ensures
        sum_of(s.subrange(0, n), f) <= sum_of(s, f),
    decreases s.len(),
{
    if n == s.len() {
        assert(s.subrange(0, n) == s);
    } else {
        lemma_sum_prefix(s.drop_last(), f, n);
        assert(s.drop_last().subrange(0, n) == s.subrange(0, n));
    }
}

/// `x` put into the sorted sequence `s`, behind everything that does not exceed it.
pub open spec fn insert_sorted<T>(s: Seq<T>, x: T, le: spec_fn(T, T) -> bool) -> Seq<T> {
    s.insert(first_index(s, |y: T| !le(y, x)), x)
}

/// `s` in the order of `le`; what is equal keeps its order.
pub open spec fn sorted<T>(s: Seq<T>, le: spec_fn(T, T) -> bool) -> Seq<T>
    decreases s.len(),
{
    if s.len() == 0 {
        Seq::empty()
    } else {
        insert_sorted(sorted(s.drop_last(), le), s.last(), le)
    }
}

pub open spec fn total_preorder<T>(le: spec_fn(T, T) -> bool) -> bool {
    &&& forall|a: T, b: T| #[trigger] le(a, b) || le(b, a)
    &&& forall|a: T, b: T, c: T| #[trigger] le(a, b) && #[trigger] le(b, c) ==> le(a, c)
}

/// Sorting yields an ordered sequence of the same elements.
pub proof fn law_sorted_is_ordered_permutation<T>(s: Seq<T>, le: spec_fn(T, T) -> bool)
    requires
        total_preorder(le),
    ensures
        sorted(s, le).len() == s.len(),
        forall|i: int, j: int|
            0 <= i <= j < s.len() ==> #[trigger] le(sorted(s, le)[i], sorted(s, le)[j]),
        sorted(s, le).to_multiset() == s.to_multiset(),
    decreases s.len(),
{
    broadcast use vstd::seq_lib::group_to_multiset_ensures;

    if s.len() > 0 {
        let init = s.drop_last();
        let x = s.last();
        law_sorted_is_ordered_permutation(init, le);
        let r = sorted(init, le);
        let p = |y: T| !le(y, x);
        lemma_index_from(r, p, 0);
        let k = first_index(r, p);
        let t = sorted(s, le);
        assert forall|i: int, j: int| 0 <= i <= j < s.len() implies #[trigger] le(
            t[i],
            t[j],
        ) by {
            let a = if i < k {
                i
            } else {
                i - 1
            };
            let b = if j < k {
                j
            } else {
                j - 1
            };
            if i == j {
                assert(le(t[i], t[i]) || le(t[i], t[i]));
            } else if i == k {
                if k < r.len() {
                    assert(!le(r[k], x));
                    assert(le(x, r[k]) || le(r[k], x));
                    assert(le(r[k], r[b]));
                }
            } else if j == k {
                assert(!p(r[a]));
            } else {
                assert(le(r[a], r[b]));
            }
        }
        assert(init.push(x) == s);
        vstd::seq_lib::lemma_multiset_commutative(r.subrange(0, k), seq![x] + r.subrange(k, r.len() as int));
        assert(t == r.subrange(0, k) + (seq![x] + r.subrange(k, r.len() as int)));
        vstd::seq_lib::lemma_multiset_commutative(seq![x], r.subrange(k, r.len() as int));
        vstd::seq_lib::lemma_multiset_commutative(r.subrange(0, k), r.subrange(k, r.len() as int));
        assert(r == r.subrange(0, k) + r.subrange(k, r.len() as int));
        vstd::seq_lib::lemma_multiset_commutative(init, seq![x]);
        assert(init.push(x) == init + seq![x]);
    } else {
        assert(sorted(s, le) == s);
    }
}

/// What is kept of two sequences in a row is what is kept of each; the sum likewise.
pub proof fn law_parts_are_counted_alone<T>(
    a: Seq<T>,
    b: Seq<T>,
    p: spec_fn(T) -> bool,
    f: spec_fn(T) -> nat,
)
    ensures
        keep(a + b, p) == keep(a, p) + keep(b, p),
        sum_of(a + b, f) == sum_of(a, f) + sum_of(b, f),
    decreases b.len(),
{
    if b.len() > 0 {
        law_parts_are_counted_alone(a, b.drop_last(), p, f);
        assert((a + b).drop_last() =~= a + b.drop_last());
        assert((a + b).last() == b.last());
        assert((keep(a, p) + keep(b.drop_last(), p)).push(b.last()) =~= keep(a, p) + keep(
            b.drop_last(),
            p,
        ).push(b.last()));
    } else {
        assert(a + b =~= a);
        assert(keep(a, p) + keep(b, p) =~= keep(a, p));
    }
}

/// A single element is kept if it satisfies `p`, and its sum is its value.
pub proof fn law_one_element_counts_once<T>(x: T, p: spec_fn(T) -> bool, f: spec_fn(T) -> nat)
    ensures
        keep(seq![x], p) == if p(x) {
            seq![x]
        } else {
            Seq::empty()
        },
        sum_of(seq![x], f) == f(x),
{
    assert(seq![x].drop_last() =~= Seq::<T>::empty());
    assert(keep(seq![x].drop_last(), p) =~= Seq::<T>::empty());
    assert(sum_of(seq![x].drop_last(), f) == 0);
    assert(Seq::<T>::empty().push(x) =~= seq![x]);
}

} // verus!
