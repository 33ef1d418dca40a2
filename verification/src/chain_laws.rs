//! What holds of a request on its way through the nodes: it meets every layer once and in order,
//! and what comes back holds every token.
use crate::layers::TOTAL_LAYERS;
use crate::messages::CoordinatorMessage;
use crate::serving_clusters::{InFlightGuard, InfraState, NodeSlot};
use crate::ws_handler::{ChainStep, ForwardHop, Outgoing, PendingForward, WsNode, WsState};
use vstd::prelude::*;

verus! {

use crate::frames::{law_payload_roundtrip, payload_holds, REQUEST_ID_LEN};
use crate::layers::{law_every_layer_has_one_owner, law_split_is_even_partition, split_start};
use crate::seqs::{first_index, keep, lemma_index_from, lemma_keep_members};
use crate::serving_clusters::{
    evenly_divided,
    layer_served,
    serving,
    Generations,
};
use crate::text::decimal;
use crate::ws_handler::{
    chain_complete,
    chain_nodes,
    chain_of,
    disconnected,
    ends_sent,
    forward_routed,
    hop_reported,
    hops,
    in_chain,
    is_completion,
    is_end,
    is_start_message,
    is_started,
    is_submitted,
    node_index,
    request_failed,
    request_index,
    step_of,
    token_handled,
    waits_for,
    with_request,
};
use vstd::utf8::encode_utf8;

// ── Chains ───────────────────────────────────────────────────────────────────

/// Whether the steps of a chain hold the layers from the first to the last, one after the other
/// without a gap, and whoever holds the last layer knows it.
pub open spec fn is_gapless(chain: Seq<ChainStep>) -> bool {
    &&& chain.len() >= 1
    &&& chain[0].layer_start == 0
    &&& chain[chain.len() - 1].layer_end == TOTAL_LAYERS
    &&& forall|i: int, j: int|
        0 <= i && j == i + 1 && j < chain.len() ==> (#[trigger] chain[j]).layer_start == (
        #[trigger] chain[i]).layer_end
    &&& forall|i: int|
        0 <= i < chain.len() ==> (#[trigger] chain[i]).layer_start <= chain[i].layer_end
            <= TOTAL_LAYERS
    &&& forall|i: int|
        0 <= i < chain.len() ==> (#[trigger] chain[i]).is_last == (chain[i].layer_end
            == TOTAL_LAYERS)
}

proof fn lemma_serving_prefix(slots: Seq<NodeSlot>, m: int)
    requires
        evenly_divided(slots),
        0 <= m <= slots.len(),
        forall|i: int|
            0 <= i < slots.len() && (#[trigger] slots[i]).infra_state != InfraState::InCluster
                ==> slots[i].layer_start == slots[i].layer_end,
    ensures
        ({
            let kept = serving(slots.subrange(0, m));
            let n = slots.len() as int;
            &&& kept.len() == 0 ==> split_start(n, m) == 0
            &&& kept.len() > 0 ==> kept[0].layer_start == 0 && kept[kept.len() - 1].layer_end
                == split_start(n, m)
            &&& forall|i: int, j: int|
                0 <= i && j == i + 1 && j < kept.len() ==> (#[trigger] kept[j]).layer_start == (
                #[trigger] kept[i]).layer_end
            &&& forall|i: int|
                0 <= i < kept.len() ==> (#[trigger] kept[i]).layer_start <= kept[i].layer_end
                    <= TOTAL_LAYERS
        }),
    decreases m,
{
    let n = slots.len() as int;
    law_split_is_even_partition(n);
    let part = slots.subrange(0, m);
    if m > 0 {
        lemma_serving_prefix(slots, m - 1);
        let init = slots.subrange(0, m - 1);
        assert(part.drop_last() =~= init);
        assert(part.last() == slots[m - 1]);
        let before = serving(init);
        let kept = serving(part);
        assert(slots[m - 1].layer_start == split_start(n, m - 1));
        assert(slots[m - 1].layer_end == split_start(n, m - 1 + 1));
        assert(split_start(n, m - 1) <= split_start(n, m) <= split_start(n, n));
        if slots[m - 1].infra_state == InfraState::InCluster {
            assert(kept == before.push(slots[m - 1]));
            assert forall|i: int, j: int|
                0 <= i && j == i + 1 && j < kept.len() implies (#[trigger] kept[j]).layer_start == (
            #[trigger] kept[i]).layer_end by {
                assert(kept[i] == before[i]);
                if j < before.len() {
                    assert(kept[j] == before[j]);
                }
            }
        } else {
            assert(kept == before);
        }
    }
}

/// The chain of a generation that serves all layers leads through them without a gap.
pub proof fn law_chain_is_gapless(
    nodes: Seq<WsNode>,
    gens: Generations,
    chain: Seq<ChainStep>,
)
    requires
        gens.wf(),
        chain_complete(nodes, gens),
        chain == chain_of(nodes, gens),
    ensures
        is_gapless(chain),
{
    let slots = gens.active->0.slots@;
    let n = slots.len() as int;
    law_split_is_even_partition(n);
    assert forall|i: int|
        0 <= i < slots.len() && (#[trigger] slots[i]).infra_state
            != InfraState::InCluster implies slots[i].layer_start == slots[i].layer_end by {
        assert(split_start(n, 0) <= split_start(n, i) <= split_start(n, i + 1) <= split_start(n, n));
        if slots[i].layer_start < slots[i].layer_end {
            let layer = slots[i].layer_start as int;
            assert(layer_served(gens.active, layer));
            let m = choose|m: int|
                0 <= m < slots.len() && (#[trigger] slots[m]).infra_state == InfraState::InCluster
                    && slots[m].layer_start <= layer < slots[m].layer_end;
            law_every_layer_has_one_owner(n, layer);
            assert(split_start(n, m) <= layer < split_start(n, m + 1));
            assert(split_start(n, i) <= layer < split_start(n, i + 1));
        }
    }
    lemma_serving_prefix(slots, n);
    assert(slots.subrange(0, n) =~= slots);
    let kept = serving(slots);
    assert forall|i: int| 0 <= i < chain.len() implies #[trigger] chain[i] == step_of(kept[i]) by {}
}

// ── Hops ─────────────────────────────────────────────────────────────────────

/// The layers that a hop asks for.
pub open spec fn range_of<F>(h: ForwardHop<F>) -> Option<(usize, usize)> {
    match h.message {
        CoordinatorMessage::InferenceForward { layer_start, layer_end, .. } => Some(
            (layer_start, layer_end),
        ),
        _ => None,
    }
}

/// Whether a hop carries the sampling parameters of a request, all of them.
pub open spec fn samples<F>(h: ForwardHop<F>, p: PendingForward<F>) -> bool {
    match h.message {
        CoordinatorMessage::InferenceForward { is_last, temperature, top_p, top_k, .. } => is_last
            && temperature == Some(p.temperature) && top_p == p.top_p && top_k == p.top_k,
        _ => false,
    }
}

/// Whether a hop carries no sampling parameter.
pub open spec fn only_forwards<F>(h: ForwardHop<F>) -> bool {
    match h.message {
        CoordinatorMessage::InferenceForward { is_last, temperature, top_p, top_k, .. } => !is_last
            && temperature is None && top_p is None && top_k is None,
        _ => false,
    }
}

/// Whether request `id` is under way at position `i`, with a chain through all layers.
pub open spec fn under_way<F>(s: WsState<F>, id: Seq<char>, i: int) -> bool {
    &&& s.wf()
    &&& 0 <= i < s.pending_forwards@.len()
    &&& s.pending_forwards@[i].0@ == id
    &&& is_gapless(s.pending_forwards@[i].1.chain@)
}

proof fn lemma_request_found<F>(pending: Seq<(String, PendingForward<F>)>, id: Seq<char>)
    ensures
        0 <= request_index(pending, id) <= pending.len(),
        request_index(pending, id) < pending.len() ==> pending[request_index(pending, id)].0@ == id,
        forall|j: int| 0 <= j < request_index(pending, id) ==> (#[trigger] pending[j]).0@ != id,
{
    assert forall|p: spec_fn((String, PendingForward<F>)) -> bool|
        (forall|e: (String, PendingForward<F>)| #[trigger] p(e) == (e.0@ == id)) implies {
        let k = #[trigger] first_index(pending, p);
        &&& 0 <= k <= pending.len()
        &&& k < pending.len() ==> pending[k].0@ == id
        &&& forall|j: int| 0 <= j < k ==> (#[trigger] pending[j]).0@ != id
    } by {
        lemma_index_from(pending, p, 0);
        let k = first_index(pending, p);
        assert(k < pending.len() ==> p(pending[k]));
        assert forall|j: int| 0 <= j < k implies (#[trigger] pending[j]).0@ != id by {
            assert(!p(pending[j]));
        }
    }
}

proof fn lemma_node_found(nodes: Seq<WsNode>, id: Seq<char>)
    ensures
        0 <= node_index(nodes, id) <= nodes.len(),
        node_index(nodes, id) < nodes.len() ==> nodes[node_index(nodes, id)].node_id@ == id,
        forall|j: int| 0 <= j < node_index(nodes, id) ==> (#[trigger] nodes[j]).node_id@ != id,
{
    assert forall|p: spec_fn(WsNode) -> bool|
        (forall|e: WsNode| #[trigger] p(e) == (e.node_id@ == id)) implies {
        let k = #[trigger] first_index(nodes, p);
        &&& 0 <= k <= nodes.len()
        &&& k < nodes.len() ==> nodes[k].node_id@ == id
        &&& forall|j: int| 0 <= j < k ==> (#[trigger] nodes[j]).node_id@ != id
    } by {
        lemma_index_from(nodes, p, 0);
        let k = first_index(nodes, p);
        assert(k < nodes.len() ==> p(nodes[k]));
        assert forall|j: int| 0 <= j < k implies (#[trigger] nodes[j]).node_id@ != id by {
            assert(!p(nodes[j]));
        }
    }
}

proof fn lemma_position<F>(s: WsState<F>, id: Seq<char>, i: int)
    requires
        s.wf(),
        0 <= i < s.pending_forwards@.len(),
        s.pending_forwards@[i].0@ == id,
    ensures
        request_index(s.pending_forwards@, id) == i,
{
    lemma_request_found(s.pending_forwards@, id);
    let k = request_index(s.pending_forwards@, id);
    if k < i {
        assert(s.pending_forwards@[k].0@ != s.pending_forwards@[i].0@);
    }
    if i < k {
        assert(s.pending_forwards@[i].0@ != id);
    }
}

/// When the node of a step answers, its hidden states go to the node of the next step, whose
/// layers begin where those of the answering node end. Only the node with the last layer gets
/// sampling parameters. Every other request stays as it is.
pub proof fn law_hop_takes_up_where_the_last_ended<F>(
    pre: WsState<F>,
    id: Seq<char>,
    hidden: Seq<u8>,
    post: WsState<F>,
    hop: Option<ForwardHop<F>>,
    i: int,
)
    requires
        under_way(pre, id, i),
        pre.pending_forwards@[i].1.current_step < pre.pending_forwards@[i].1.chain@.len(),
        forward_routed(pre, id, hidden, post, hop),
    ensures
        ({
            let p = pre.pending_forwards@[i].1;
            let q = post.pending_forwards@[i].1;
            let step = p.current_step as int;
            let answered = p.chain@[step];
            &&& q.chain@ == p.chain@
            &&& q.generated@ == p.generated@
            &&& q.current_step == step + 1
            &&& hop is None <==> step == p.chain@.len() - 1
            &&& answered.layer_end < TOTAL_LAYERS ==> hop is Some
            &&& hop is Some ==> {
                let h = hop->0;
                &&& h.node_id == p.chain@[step + 1].node_id
                &&& range_of(h) is Some
                &&& (range_of(h)->0).0 == answered.layer_end
                &&& (range_of(h)->0).1 == p.chain@[step + 1].layer_end
                &&& (range_of(h)->0).1 == TOTAL_LAYERS ==> samples(h, p)
                &&& (range_of(h)->0).1 < TOTAL_LAYERS ==> only_forwards(h)
                &&& h.request_id@ == id
                &&& encode_utf8(id).len() == REQUEST_ID_LEN ==> forall|r: Seq<char>, d: Seq<u8>|
                    #[trigger] payload_holds(h.payload@, r, d) ==> r == id && d == hidden
            }
        }),
        forall|j: int|
            0 <= j < pre.pending_forwards@.len() && j != i ==> #[trigger] post.pending_forwards@[j]
                == pre.pending_forwards@[j],
        post.pending_forwards@.len() == pre.pending_forwards@.len(),
        post.nodes@ == pre.nodes@,
{
    lemma_position(pre, id, i);
    let p = pre.pending_forwards@[i].1;
    let step = p.current_step as int;
    if hop is Some {
        let h = hop->0;
        assert(p.chain@[step + 1].layer_start == p.chain@[step].layer_end);
        if encode_utf8(id).len() == REQUEST_ID_LEN {
            assert forall|r: Seq<char>, d: Seq<u8>| #[trigger]
                payload_holds(h.payload@, r, d) implies r == id && d == hidden by {
                law_payload_roundtrip(id, hidden, r, d);
            }
        }
    }
}

/// The states that a request goes through while its nodes answer one after the other.
pub open spec fn is_pass<F>(
    states: Seq<WsState<F>>,
    id: Seq<char>,
    i: int,
    hidden: Seq<Seq<u8>>,
    sent: Seq<Option<ForwardHop<F>>>,
) -> bool {
    &&& states.len() == sent.len() + 1
    &&& hidden.len() == sent.len()
    &&& forall|j: int| 0 <= j < states.len() ==> (#[trigger] states[j]).wf()
    &&& forall|j: int|
        0 <= j < sent.len() ==> forward_routed(
            #[trigger] states[j],
            id,
            hidden[j],
            states[j + 1],
            sent[j],
        )
}

proof fn lemma_pass<F>(
    states: Seq<WsState<F>>,
    id: Seq<char>,
    i: int,
    hidden: Seq<Seq<u8>>,
    sent: Seq<Option<ForwardHop<F>>>,
    j: int,
)
    requires
        is_pass(states, id, i, hidden, sent),
        under_way(states[0], id, i),
        states[0].pending_forwards@[i].1.current_step == 0,
        0 <= j <= sent.len() < states[0].pending_forwards@[i].1.chain@.len(),
    ensures
        under_way(states[j], id, i),
        states[j].pending_forwards@[i].1.current_step == j,
        states[j].pending_forwards@[i].1.chain@ == states[0].pending_forwards@[i].1.chain@,
    decreases j,
{
    if j > 0 {
        lemma_pass(states, id, i, hidden, sent, j - 1);
        assert(forward_routed(states[j - 1], id, hidden[j - 1], states[j - 1 + 1], sent[j - 1]));
        law_hop_takes_up_where_the_last_ended(
            states[j - 1],
            id,
            hidden[j - 1],
            states[j],
            sent[j - 1],
            i,
        );
        lemma_position(states[j - 1], id, i);
        assert(states[j].wf());
    }
}

/// The layers at which the `j`-th hop of a pass begins: where the hop before it, or the first
/// node, ends.
pub open spec fn taken_up_at<F>(
    chain: Seq<ChainStep>,
    sent: Seq<Option<ForwardHop<F>>>,
    j: int,
) -> usize {
    if j == 0 {
        chain[0].layer_end
    } else {
        (range_of(sent[j - 1]->0)->0).1
    }
}

/// While the nodes of a chain answer one after the other, the layer ranges of the first node and
/// of the hops that follow lead from the first layer to the last without a gap.
pub proof fn law_pass_meets_every_layer_once<F>(
    states: Seq<WsState<F>>,
    id: Seq<char>,
    i: int,
    hidden: Seq<Seq<u8>>,
    sent: Seq<Option<ForwardHop<F>>>,
)
    requires
        is_pass(states, id, i, hidden, sent),
        under_way(states[0], id, i),
        states[0].pending_forwards@[i].1.current_step == 0,
        sent.len() + 1 == states[0].pending_forwards@[i].1.chain@.len(),
    ensures
        ({
            let chain = states[0].pending_forwards@[i].1.chain@;
            &&& chain[0].layer_start == 0
            &&& forall|j: int|
                0 <= j < sent.len() ==> {
                    &&& (#[trigger] sent[j]) is Some
                    &&& range_of(sent[j]->0) is Some
                    &&& (range_of(sent[j]->0)->0).0 == taken_up_at(chain, sent, j)
                    &&& sent[j]->0.node_id == chain[j + 1].node_id
                }
            &&& taken_up_at(chain, sent, sent.len() as int) == TOTAL_LAYERS
        }),
{
    let chain = states[0].pending_forwards@[i].1.chain@;
    assert forall|j: int| 0 <= j < sent.len() implies {
        &&& (#[trigger] sent[j]) is Some
        &&& range_of(sent[j]->0) is Some
        &&& range_of(sent[j]->0)->0 == (chain[j].layer_end, chain[j + 1].layer_end)
        &&& sent[j]->0.node_id == chain[j + 1].node_id
    } by {
        lemma_pass(states, id, i, hidden, sent, j);
        assert(forward_routed(states[j], id, hidden[j], states[j + 1], sent[j]));
        law_hop_takes_up_where_the_last_ended(states[j], id, hidden[j], states[j + 1], sent[j], i);
    }
}

// ── Starts and tokens ────────────────────────────────────────────────────────

/// A submitted request is under way, once, and starts at the node with the first layer, which
/// gets all the tokens of the prompt.
pub proof fn law_request_starts_at_the_first_layer<F>(
    pending: Seq<(String, PendingForward<F>)>,
    request_id: String,
    p: PendingForward<F>,
    guard: InFlightGuard,
    chain: Seq<ChainStep>,
    ids: Seq<u32>,
    max_tokens: usize,
    temperature: F,
    top_p: Option<F>,
    top_k: Option<u32>,
    o: Outgoing<F>,
)
    requires
        is_gapless(chain),
        is_started(p, guard, chain, ids, max_tokens, temperature, top_p, top_k),
        is_start_message(o, request_id@, chain, ids, max_tokens, temperature, top_p, top_k),
    ensures
        with_request(pending, (request_id, p)).len() > 0,
        ({
            let after = with_request(pending, (request_id, p));
            let k = request_index(after, request_id@);
            &&& 0 <= k < after.len()
            &&& after[k].0@ == request_id@
            &&& after[k].1 == p
            &&& forall|j: int|
                0 <= j < pending.len() && pending[j].0@ != request_id@ ==> after.contains(
                    #[trigger] pending[j],
                )
        }),
        p.current_step == 0,
        p.chain@ == chain,
        match o {
            Outgoing::SendOrFail {
                node_id,
                message: CoordinatorMessage::InferenceStart {
                    token_ids,
                    layer_start,
                    layer_end,
                    ..
                },
                ..
            } => node_id == p.chain@[0].node_id && token_ids@ == ids && layer_start == 0
                && layer_end == p.chain@[0].layer_end,
            _ => false,
        },
{
    let after = with_request(pending, (request_id, p));
    lemma_request_found(pending, request_id@);
    lemma_request_found(after, request_id@);
    let k = request_index(pending, request_id@);
    let m = request_index(after, request_id@);
    if k < pending.len() {
        assert(after[k].0@ == request_id@);
        assert(m <= k);
        if m < k {
            assert(after[m] == pending[m]);
        }
        assert forall|j: int|
            0 <= j < pending.len() && pending[j].0@ != request_id@ implies after.contains(
            #[trigger] pending[j],
        ) by {
            assert(after[j] == pending[j]);
        }
    } else {
        assert(after[k].0@ == request_id@);
        assert(m <= k);
        if m < k {
            assert(after[m] == pending[m]);
        }
        assert forall|j: int|
            0 <= j < pending.len() && pending[j].0@ != request_id@ implies after.contains(
            #[trigger] pending[j],
        ) by {
            assert(after[j] == pending[j]);
        }
    }
}

/// A request that was put on its way is under way once, at the node with the first layer, which
/// gets all its tokens; the other requests are where they were.
pub proof fn law_submitted_request_is_under_way<F>(
    pre: WsState<F>,
    request_id: String,
    guard: InFlightGuard,
    chain: Seq<ChainStep>,
    ids: Seq<u32>,
    max_tokens: usize,
    temperature: F,
    top_p: Option<F>,
    top_k: Option<u32>,
    post: WsState<F>,
    o: Outgoing<F>,
)
    requires
        is_gapless(chain),
        is_submitted(
            pre,
            request_id,
            guard,
            chain,
            ids,
            max_tokens,
            temperature,
            top_p,
            top_k,
            post,
            o,
        ),
    ensures
        ({
            let k = request_index(post.pending_forwards@, request_id@);
            let p = post.pending_forwards@[k].1;
            &&& 0 <= k < post.pending_forwards@.len()
            &&& post.pending_forwards@[k].0@ == request_id@
            &&& p.current_step == 0
            &&& p.chain@ == chain
            &&& p.token_ids@ == ids
            &&& p.generated@.len() == 0
            &&& p.max_tokens == max_tokens
            &&& p.temperature == temperature
            &&& p.top_p == top_p
            &&& p.top_k == top_k
            &&& p.in_flight_guard == Some(guard)
        }),
        forall|j: int|
            0 <= j < pre.pending_forwards@.len() && pre.pending_forwards@[j].0@ != request_id@
                ==> post.pending_forwards@.contains(#[trigger] pre.pending_forwards@[j]),
        match o {
            Outgoing::SendOrFail {
                node_id,
                message: CoordinatorMessage::InferenceStart {
                    request_id: rid,
                    token_ids,
                    layer_start,
                    layer_end,
                    ..
                },
                request_id: r,
            } => rid@ == request_id@ && r@ == request_id@ && node_id == chain[0].node_id
                && token_ids@ == ids && layer_start == 0 && layer_end == chain[0].layer_end,
            _ => false,
        },
{
    let p = choose|p: PendingForward<F>| #[trigger]
        is_started(p, guard, chain, ids, max_tokens, temperature, top_p, top_k)
            && post.pending_forwards@ == with_request(pre.pending_forwards@, (request_id, p));
    law_request_starts_at_the_first_layer(
        pre.pending_forwards@,
        request_id,
        p,
        guard,
        chain,
        ids,
        max_tokens,
        temperature,
        top_p,
        top_k,
        o,
    );
}

/// Whether `out` hands the result of request `id` to the one who waits.
pub open spec fn completes<F>(out: Seq<Outgoing<F>>, id: Seq<char>) -> bool {
    out.len() > 0 && match out[0] {
        Outgoing::Completed { request_id, .. } => request_id@ == id,
        _ => false,
    }
}

/// A token ends a request exactly if it is an end token or the last that was asked for. The
/// request is then gone, and its result holds all its tokens and no other. Else it goes on with
/// that token at the first layer.
pub proof fn law_token_ends_or_goes_on<F>(
    pre: WsState<F>,
    id: Seq<char>,
    token_id: u32,
    is_eos: bool,
    post: WsState<F>,
    out: Seq<Outgoing<F>>,
    i: int,
)
    requires
        under_way(pre, id, i),
        token_handled(pre, id, token_id, is_eos, post, out),
    ensures
        ({
            let p = pre.pending_forwards@[i].1;
            let tokens = p.generated@.push(token_id);
            &&& completes(out, id) <==> is_eos || tokens.len() >= p.max_tokens
            &&& completes(out, id) ==> {
                &&& post.pending_forwards@ == pre.pending_forwards@.remove(i)
                &&& forall|j: int|
                    0 <= j < post.pending_forwards@.len() ==> (
                    #[trigger] post.pending_forwards@[j]).0@ != id
                &&& match out[0] {
                    Outgoing::Completed { result, .. } => result.generated_ids@ == tokens
                        && result.tokens == tokens.len() && result.cluster@.len() == p.chain@.len(),
                    _ => false,
                }
            }
            &&& !completes(out, id) ==> {
                let q = post.pending_forwards@[i].1;
                &&& q.generated@ == tokens
                &&& q.chain@ == p.chain@
                &&& q.max_tokens == p.max_tokens
                &&& q.current_step == 0
                &&& post.pending_forwards@.len() == pre.pending_forwards@.len()
                &&& post.pending_forwards@[i].0@ == id
                &&& out.len() == 1
                &&& match out[0] {
                    Outgoing::SendOrFail {
                        node_id,
                        message: CoordinatorMessage::InferenceContinue {
                            new_token_id,
                            layer_start,
                            layer_end,
                            ..
                        },
                        ..
                    } => node_id == p.chain@[0].node_id && new_token_id == token_id
                        && layer_start == 0 && layer_end == p.chain@[0].layer_end,
                    _ => false,
                }
            }
        }),
{
    lemma_position(pre, id, i);
    let p = pre.pending_forwards@[i].1;
    if is_eos || p.generated@.len() + 1 >= p.max_tokens {
        let after = pre.pending_forwards@.remove(i);
        assert forall|j: int| 0 <= j < after.len() implies (#[trigger] after[j]).0@ != id by {
            if j < i {
                assert(after[j] == pre.pending_forwards@[j]);
            } else {
                assert(after[j] == pre.pending_forwards@[j + 1]);
            }
        }
    }
}

/// The states of a request while token after token is generated.
pub open spec fn is_generation<F>(
    states: Seq<WsState<F>>,
    id: Seq<char>,
    tokens: Seq<u32>,
    eos: Seq<bool>,
    sent: Seq<Seq<Outgoing<F>>>,
) -> bool {
    &&& states.len() == tokens.len() + 1
    &&& eos.len() == tokens.len()
    &&& sent.len() == tokens.len()
    &&& forall|j: int| 0 <= j < states.len() ==> (#[trigger] states[j]).wf()
    &&& forall|j: int|
        0 <= j < tokens.len() ==> token_handled(
            #[trigger] states[j],
            id,
            tokens[j],
            eos[j],
            states[j + 1],
            sent[j],
        )
}

proof fn lemma_generation<F>(
    states: Seq<WsState<F>>,
    id: Seq<char>,
    tokens: Seq<u32>,
    eos: Seq<bool>,
    sent: Seq<Seq<Outgoing<F>>>,
    i: int,
    n: int,
)
    requires
        is_generation(states, id, tokens, eos, sent),
        under_way(states[0], id, i),
        states[0].pending_forwards@[i].1.generated@.len() == 0,
        0 <= n <= tokens.len(),
        forall|j: int| 0 <= j < n ==> !completes(#[trigger] sent[j], id),
    ensures
        under_way(states[n], id, i),
        states[n].pending_forwards@[i].1.generated@ == tokens.subrange(0, n),
        states[n].pending_forwards@[i].1.max_tokens == states[0].pending_forwards@[i].1.max_tokens,
    decreases n,
{
    if n > 0 {
        lemma_generation(states, id, tokens, eos, sent, i, n - 1);
        let j = n - 1;
        assert(token_handled(states[j], id, tokens[j], eos[j], states[j + 1], sent[j]));
        assert(!completes(sent[j], id));
        law_token_ends_or_goes_on(states[j], id, tokens[j], eos[j], states[n], sent[j], i);
        assert(states[n].wf());
        assert(tokens.subrange(0, n) =~= tokens.subrange(0, j).push(tokens[j]));
    } else {
        assert(tokens.subrange(0, 0) =~= states[0].pending_forwards@[i].1.generated@);
    }
}

/// The result of a request holds exactly the tokens that were generated for it, in order. There
/// are no more than were asked for, and fewer only after an end token.
pub proof fn law_result_holds_every_token<F>(
    states: Seq<WsState<F>>,
    id: Seq<char>,
    tokens: Seq<u32>,
    eos: Seq<bool>,
    sent: Seq<Seq<Outgoing<F>>>,
    i: int,
)
    requires
        is_generation(states, id, tokens, eos, sent),
        under_way(states[0], id, i),
        states[0].pending_forwards@[i].1.generated@.len() == 0,
        tokens.len() > 0,
        forall|j: int| 0 <= j < tokens.len() - 1 ==> !completes(#[trigger] sent[j], id),
        completes(sent[tokens.len() - 1], id),
    ensures
        match sent[tokens.len() - 1][0] {
            Outgoing::Completed { result, .. } => result.generated_ids@ == tokens && result.tokens
                == tokens.len(),
            _ => false,
        },
        ({
            let max = states[0].pending_forwards@[i].1.max_tokens;
            &&& tokens.len() <= max || tokens.len() == 1
            &&& tokens.len() < max ==> eos[tokens.len() - 1]
            &&& forall|j: int| 0 <= j < tokens.len() - 1 ==> !#[trigger] eos[j]
        }),
{
    let n = tokens.len() - 1;
    lemma_generation(states, id, tokens, eos, sent, i, n);
    assert(token_handled(states[n], id, tokens[n], eos[n], states[n + 1], sent[n]));
    law_token_ends_or_goes_on(states[n], id, tokens[n], eos[n], states[n + 1], sent[n], i);
    assert(tokens.subrange(0, n).push(tokens[n]) =~= tokens);
    assert forall|j: int| 0 <= j < n implies !#[trigger] eos[j] && j + 1
        < states[0].pending_forwards@[i].1.max_tokens by {
        lemma_generation(states, id, tokens, eos, sent, i, j);
        assert(token_handled(states[j], id, tokens[j], eos[j], states[j + 1], sent[j]));
        assert(!completes(sent[j], id));
        law_token_ends_or_goes_on(states[j], id, tokens[j], eos[j], states[j + 1], sent[j], i);
    }
    if n > 0 {
        assert(!eos[n - 1]);
    }
}

// ── Ends ─────────────────────────────────────────────────────────────────────

/// Whether a message tells a node to drop what it keeps for a request.
pub open spec fn tells_end<F>(o: Outgoing<F>, node: Seq<char>, id: Seq<char>) -> bool {
    match o {
        Outgoing::Send { node_id, message: CoordinatorMessage::InferenceEnd { request_id } } => {
            node_id@ == node && request_id@ == id
        },
        _ => false,
    }
}

/// Whether a message announces the end of a request.
pub open spec fn is_end_of<F>(o: Outgoing<F>, id: Seq<char>) -> bool {
    match o {
        Outgoing::Send { node_id, message: CoordinatorMessage::InferenceEnd { request_id } } => {
            request_id@ == id
        },
        _ => false,
    }
}

/// Whether a node is told to drop what it keeps for a request.
pub open spec fn is_told<F>(out: Seq<Outgoing<F>>, node: Seq<char>, id: Seq<char>) -> bool {
    exists|j: int| 0 <= j < out.len() && tells_end(#[trigger] out[j], node, id)
}

/// Whether a text is among the ids.
pub open spec fn names(ids: Seq<String>, id: Seq<char>) -> bool {
    exists|j: int| 0 <= j < ids.len() && (#[trigger] ids[j])@ == id
}

proof fn lemma_chain_nodes(chain: Seq<ChainStep>, id: Seq<char>)
    ensures
        names(chain_nodes(chain), id) == in_chain(chain, id),
    decreases chain.len(),
{
    if chain.len() > 0 {
        let init = chain.drop_last();
        let before = chain_nodes(init);
        let ids = chain_nodes(chain);
        let last = chain.last();
        lemma_chain_nodes(init, id);
        lemma_chain_nodes(init, last.node_id@);
        if in_chain(chain, id) {
            let i = choose|i: int| 0 <= i < chain.len() && (#[trigger] chain[i]).node_id@ == id;
            if i < init.len() {
                assert(init[i].node_id@ == id);
            }
            if in_chain(init, id) {
                let j = choose|j: int| 0 <= j < before.len() && (#[trigger] before[j])@ == id;
                assert(ids[j]@ == id);
            } else {
                assert(ids[ids.len() - 1]@ == id);
            }
        }
        if names(ids, id) {
            let j = choose|j: int| 0 <= j < ids.len() && (#[trigger] ids[j])@ == id;
            if j < before.len() {
                assert(before[j]@ == id);
                let i = choose|i: int| 0 <= i < init.len() && (#[trigger] init[i]).node_id@ == id;
                assert(chain[i].node_id@ == id);
            } else {
                assert(chain[chain.len() - 1].node_id@ == id);
            }
        }
    }
}

proof fn lemma_chain_nodes_differ(chain: Seq<ChainStep>, a: int, b: int)
    requires
        0 <= a < b < chain_nodes(chain).len(),
    ensures
        chain_nodes(chain)[a]@ != chain_nodes(chain)[b]@,
    decreases chain.len(),
{
    let init = chain.drop_last();
    let before = chain_nodes(init);
    if b < before.len() {
        lemma_chain_nodes_differ(init, a, b);
    } else {
        lemma_chain_nodes(init, chain.last().node_id@);
        assert(before[a] == chain_nodes(chain)[a]);
    }
}

/// When a request is over, every node of its chain is told, once, and nobody else.
pub proof fn law_every_node_is_told_the_end<F>(
    out: Seq<Outgoing<F>>,
    chain: Seq<ChainStep>,
    id: Seq<char>,
)
    requires
        ends_sent(out, chain, id),
    ensures
        forall|i: int| 0 <= i < chain.len() ==> is_told(out, (#[trigger] chain[i]).node_id@, id),
        forall|node: Seq<char>| #[trigger] is_told(out, node, id) ==> in_chain(chain, node),
        forall|a: int| 0 <= a < out.len() ==> is_end_of(#[trigger] out[a], id),
        forall|a: int, b: int, node: Seq<char>|
            0 <= a < b < out.len() && #[trigger] tells_end(out[a], node, id)
                ==> !#[trigger] tells_end(out[b], node, id),
{
    let ids = chain_nodes(chain);
    assert forall|j: int| 0 <= j < out.len() implies tells_end(
        #[trigger] out[j],
        ids[j]@,
        id,
    ) by {
        assert(is_end(out[j], ids[j], id));
    }
    assert forall|i: int| 0 <= i < chain.len() implies is_told(
        out,
        (#[trigger] chain[i]).node_id@,
        id,
    ) by {
        lemma_chain_nodes(chain, chain[i].node_id@);
        let j = choose|j: int| 0 <= j < ids.len() && (#[trigger] ids[j])@ == chain[i].node_id@;
        assert(tells_end(out[j], ids[j]@, id));
    }
    assert forall|node: Seq<char>| #[trigger] is_told(out, node, id) implies in_chain(
        chain,
        node,
    ) by {
        let j = choose|j: int| 0 <= j < out.len() && tells_end(#[trigger] out[j], node, id);
        assert(tells_end(out[j], ids[j]@, id));
        assert(ids[j]@ == node);
        lemma_chain_nodes(chain, node);
    }
    assert forall|a: int| 0 <= a < out.len() implies is_end_of(#[trigger] out[a], id) by {
        assert(tells_end(out[a], ids[a]@, id));
    }
    assert forall|a: int, b: int, node: Seq<char>|
        0 <= a < b < out.len() && #[trigger] tells_end(out[a], node, id) implies !#[trigger]
        tells_end(out[b], node, id) by {
        assert(tells_end(out[a], ids[a]@, id));
        assert(tells_end(out[b], ids[b]@, id));
        lemma_chain_nodes_differ(chain, a, b);
    }
}

/// A request that is given up is gone, and every other one stays.
pub proof fn law_only_the_failed_request_goes<F>(
    pre: WsState<F>,
    id: Seq<char>,
    post: WsState<F>,
    i: int,
)
    requires
        pre.wf(),
        request_failed(pre, id, post),
        0 <= i < pre.pending_forwards@.len(),
    ensures
        post.pending_forwards@.contains(pre.pending_forwards@[i])
            <==> pre.pending_forwards@[i].0@ != id,
        forall|j: int|
            0 <= j < post.pending_forwards@.len() ==> (#[trigger] post.pending_forwards@[j]).0@
                != id,
{
    let all = pre.pending_forwards@;
    lemma_request_found(all, id);
    let k = request_index(all, id);
    if k < all.len() {
        let rest = all.remove(k);
        assert forall|j: int| 0 <= j < rest.len() implies (#[trigger] rest[j]).0@ != id by {
            if j < k {
                assert(rest[j] == all[j]);
            } else {
                assert(rest[j] == all[j + 1]);
            }
        }
        if i < k {
            assert(rest[i] == all[i]);
        } else if i > k {
            assert(rest[i - 1] == all[i]);
        }
    }
}

/// When a node is gone, exactly the requests that it was to answer fail, each is reported, and
/// the node is no longer connected.
pub proof fn law_disconnect_fails_who_waits<F>(
    pre: WsState<F>,
    id: Seq<char>,
    model_available: bool,
    now: u64,
    post: WsState<F>,
    failed: Seq<String>,
    out: Seq<Outgoing<F>>,
    i: int,
)
    requires
        pre.wf(),
        disconnected(pre, id, model_available, now, post, failed, out),
        0 <= i < pre.pending_forwards@.len(),
    ensures
        ({
            let (name, p) = pre.pending_forwards@[i];
            let waits = p.current_step < p.chain@.len() && p.chain@[p.current_step as int].node_id@
                == id;
            &&& waits ==> failed.contains(name)
            &&& waits ==> forall|j: int|
                0 <= j < post.pending_forwards@.len() ==> (#[trigger] post.pending_forwards@[j]).0@
                    != name@
            &&& !waits ==> post.pending_forwards@.contains(pre.pending_forwards@[i])
            &&& !waits ==> forall|j: int| 0 <= j < failed.len() ==> (#[trigger] failed[j])@ != name@
        }),
        forall|j: int| 0 <= j < post.nodes@.len() ==> (#[trigger] post.nodes@[j]).node_id@ != id,
        forall|j: int|
            0 <= j < pre.nodes@.len() && pre.nodes@[j].node_id@ != id ==> post.nodes@.contains(
                #[trigger] pre.nodes@[j],
            ),
{
    let all = pre.pending_forwards@;
    let go = |e: (String, PendingForward<F>)| waits_for(e, id);
    let stay = |e: (String, PendingForward<F>)| !waits_for(e, id);
    lemma_keep_members(all, go);
    lemma_keep_members(all, stay);
    let gone = keep(all, go);
    let kept = keep(all, stay);
    if go(all[i]) {
        assert(gone.contains(all[i]));
        let m = choose|m: int| 0 <= m < gone.len() && gone[m] == all[i];
        assert(failed[m] == all[i].0);
        assert forall|j: int| 0 <= j < kept.len() implies (#[trigger] kept[j]).0@ != all[i].0@ by {
            assert(stay(kept[j]) && all.contains(kept[j]));
            let n = choose|n: int| 0 <= n < all.len() && all[n] == kept[j];
            assert(n != i);
        }
    } else {
        assert(stay(all[i]));
        assert forall|j: int| 0 <= j < failed.len() implies (#[trigger] failed[j])@
            != all[i].0@ by {
            assert(failed[j] == gone[j].0);
            assert(go(gone[j]) && all.contains(gone[j]));
            let n = choose|n: int| 0 <= n < all.len() && all[n] == gone[j];
            assert(n != i);
        }
    }
    lemma_node_found(pre.nodes@, id);
    let k = node_index(pre.nodes@, id);
    assert forall|j: int| 0 <= j < post.nodes@.len() implies (#[trigger] post.nodes@[j]).node_id@
        != id by {
        let o = if k < pre.nodes@.len() && j >= k {
            j + 1
        } else {
            j
        };
        assert(post.nodes@[j] == pre.nodes@[o]);
    }
    assert forall|j: int|
        0 <= j < pre.nodes@.len() && pre.nodes@[j].node_id@ != id implies post.nodes@.contains(
        #[trigger] pre.nodes@[j],
    ) by {
        let o = if k < pre.nodes@.len() && j > k {
            j - 1
        } else {
            j
        };
        assert(post.nodes@[o] == pre.nodes@[j]);
    }
}

/// A result names every node of its chain, in order, with the layers that the node ran.
pub proof fn law_result_names_every_hop<F>(
    o: Outgoing<F>,
    id: Seq<char>,
    p: PendingForward<F>,
    token_id: u32,
    i: int,
)
    requires
        is_completion(o, id, p, token_id),
        0 <= i < p.chain@.len(),
    ensures
        match o {
            Outgoing::Completed { request_id, result } => {
                &&& request_id@ == id
                &&& result.generated_ids@ == p.generated@.push(token_id)
                &&& result.cluster@.len() == p.chain@.len()
                &&& result.cluster@[i].node == p.chain@[i].node_id
                &&& result.cluster@[i].layers@ == decimal(p.chain@[i].layer_start as nat) + "-"@
                    + decimal(p.chain@[i].layer_end as nat)
                &&& result.cluster@[i].position@ == "last"@ <==> p.chain@[i].is_last
            },
            _ => false,
        },
{
    reveal_strlit("last");
    reveal_strlit("first/middle");
    assert("last"@.len() != "first/middle"@.len());
    match o {
        Outgoing::Completed { request_id, result } => {
            assert(hop_reported(result.cluster@[i], p.chain@[i]));
        },
        _ => {},
    }
}

} // verus!
