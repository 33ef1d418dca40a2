//! Division of the model's decoder layers over an ordered list of nodes.
use vstd::arithmetic::div_mod::lemma_fundamental_div_mod;
use vstd::prelude::*;

verus! {

/// Number of decoder layers of the served model.
pub const TOTAL_LAYERS: usize = 28;

/// First layer of node `i` when the layers are divided over `n` nodes: every node
/// gets `TOTAL_LAYERS / n` layers, and the first `TOTAL_LAYERS % n` nodes one more.
pub open spec fn split_start(n: int, i: int) -> int {
    i * (TOTAL_LAYERS as int / n) + if i < TOTAL_LAYERS as int % n {
        i
    } else {
        TOTAL_LAYERS as int % n
    }
}

/// The division starts at layer 0, ends at the last layer, has no gap and no
/// overlap, and no two nodes differ by more than one layer.
pub proof fn law_split_is_even_partition(n: int)
    requires
        n >= 1,
    ensures
        split_start(n, 0) == 0,
        split_start(n, n) == TOTAL_LAYERS,
        forall|i: int, j: int| 0 <= i <= j <= n ==> split_start(n, i) <= split_start(n, j),
        forall|i: int|
            0 <= i < n ==> TOTAL_LAYERS as int / n <= #[trigger] split_start(n, i + 1)
                - split_start(n, i) <= TOTAL_LAYERS as int / n + 1,
{
    let q = TOTAL_LAYERS as int / n;
    let r = TOTAL_LAYERS as int % n;
    lemma_fundamental_div_mod(TOTAL_LAYERS as int, n);
    assert(0 <= q) by (nonlinear_arith)
        requires
            q == TOTAL_LAYERS as int / n,
            n >= 1,
    ;
    assert(0 * q == 0) by (nonlinear_arith);
    assert forall|i: int, j: int| 0 <= i <= j <= n implies split_start(n, i) <= split_start(
        n,
        j,
    ) by {
        assert(i * q <= j * q) by (nonlinear_arith)
            requires
                i <= j,
                0 <= q,
        ;
    }
    assert forall|i: int| 0 <= i < n implies q <= #[trigger] split_start(n, i + 1) - split_start(
        n,
        i,
    ) <= q + 1 by {
        assert((i + 1) * q == i * q + q) by (nonlinear_arith);
    }
}

/// Every layer belongs to exactly one node of the division.
pub proof fn law_every_layer_has_one_owner(n: int, layer: int)
    requires
        n >= 1,
        0 <= layer < TOTAL_LAYERS,
    ensures
        exists|i: int|
            0 <= i < n && #[trigger] split_start(n, i) <= layer < split_start(n, i + 1),
        forall|i: int, j: int|
            0 <= i < n && 0 <= j < n && #[trigger] split_start(n, i) <= layer < split_start(
                n,
                i + 1,
            ) && #[trigger] split_start(n, j) <= layer < split_start(n, j + 1) ==> i == j,
{
    law_split_is_even_partition(n);
    lemma_owner_exists(n, n, layer);
    assert forall|i: int, j: int|
        0 <= i < n && 0 <= j < n && #[trigger] split_start(n, i) <= layer < split_start(n, i + 1)
            && #[trigger] split_start(n, j) <= layer < split_start(n, j + 1) implies i == j by {
        if i < j {
            assert(split_start(n, i + 1) <= split_start(n, j));
        }
        if j < i {
            assert(split_start(n, j + 1) <= split_start(n, i));
        }
    }
}

proof fn lemma_owner_exists(n: int, k: int, layer: int)
    requires
        1 <= n,
        0 <= k <= n,
        0 <= layer < split_start(n, k),
        split_start(n, 0) == 0,
    ensures
        exists|i: int|
            0 <= i < n && #[trigger] split_start(n, i) <= layer < split_start(n, i + 1),
    decreases k,
{
    if k > 0 {
        if split_start(n, k - 1) <= layer {
            assert(split_start(n, k - 1) <= layer < split_start(n, (k - 1) + 1));
        } else {
            lemma_owner_exists(n, k - 1, layer);
        }
    }
}

/// The layer ranges of `n` nodes, in order.
pub fn split_layers(n: usize) -> (ranges: Vec<(usize, usize)>)
    requires
        n >= 1,
    ensures
        ranges@.len() == n,
        forall|i: int|
            0 <= i < n ==> (#[trigger] ranges@[i]).0 == split_start(n as int, i) && ranges@[i].1
                == split_start(n as int, i + 1),
{
    proof {
        law_split_is_even_partition(n as int);
    }
    let per_node: usize = TOTAL_LAYERS / n;
    let remainder: usize = TOTAL_LAYERS % n;
    let mut ranges: Vec<(usize, usize)> = Vec::new();
    let mut start: usize = 0;
    let mut i: usize = 0;
    while i < n
        invariant
            1 <= n,
            i <= n,
            per_node == TOTAL_LAYERS as int / n as int,
            remainder == TOTAL_LAYERS as int % n as int,
            start == split_start(n as int, i as int),
            ranges@.len() == i,
            forall|k: int|
                0 <= k < i ==> (#[trigger] ranges@[k]).0 == split_start(n as int, k)
                    && ranges@[k].1 == split_start(n as int, k + 1),
        decreases n - i,
    {
        proof {
            law_split_is_even_partition(n as int);
            assert((i + 1) * per_node == i * per_node + per_node) by (nonlinear_arith);
            assert(split_start(n as int, i + 1) <= split_start(n as int, n as int));
        }
        let extra: usize = if i < remainder {
            1
        } else {
            0
        };
        let end: usize = start + per_node + extra;
        ranges.push((start, end));
        start = end;
        i = i + 1;
    }
    ranges
}

} // verus!
