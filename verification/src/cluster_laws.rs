//! What holds of the connected nodes as a cluster: who is told which layers, what is shown of
//! them, and when requests are taken.
use crate::messages::{ClientMessage, CoordinatorMessage};
use crate::serving_clusters::{InFlightGuard, InfraState, NodeSlot};
use crate::ws_handler::{
    ChainStep,
    ClusterStatus,
    InferenceRefusal,
    NodeInferenceState,
    Outgoing,
    WsNode,
    WsState,
};
use vstd::prelude::*;

verus! {

use crate::chain_laws::{is_gapless, law_chain_is_gapless};
use crate::layers::{law_split_is_even_partition, split_start};
use crate::seqs::{
    first_index,
    keep,
    law_sorted_is_ordered_permutation,
    lemma_first_index_is,
    lemma_index_from,
    lemma_keep_members,
    sorted,
    total_preorder,
};
use crate::serving_clusters::{
    after_request_end,
    last_slot,
    layer_served,
    lemma_serving_members,
    operational,
    serving,
    Generation,
    Generations,
};
use crate::ws_handler::{
    can_serve,
    chain_complete,
    chain_of,
    display_state,
    distinct_nodes,
    hops,
    id_name_pairs,
    is_begun,
    is_status,
    law_roster_is_sorted_gpu_nodes,
    message_handled,
    node_index,
    nodes_after_state,
    rebalance_done,
    roster,
    start_le,
    state_taken,
};

// ── Layers ───────────────────────────────────────────────────────────────────

/// Whether a message assigns a node these layers.
pub open spec fn assigns<F>(o: Outgoing<F>, node: Seq<char>, from: int, to: int) -> bool {
    match o {
        Outgoing::Send {
            node_id,
            message: CoordinatorMessage::LayerAssignment { layer_start, layer_end, .. },
        } => node_id@ == node && layer_start == from && layer_end == to,
        _ => false,
    }
}

/// Whether a message assigns one of the GPU nodes these layers.
pub open spec fn assigns_a_gpu_node<F>(
    o: Outgoing<F>,
    nodes: Seq<WsNode>,
    from: int,
    to: int,
) -> bool {
    exists|m: int|
        0 <= m < nodes.len() && (#[trigger] nodes[m]).has_gpu && assigns(
            o,
            nodes[m].node_id@,
            from,
            to,
        )
}

/// Whether some message assigns a node layers.
pub open spec fn is_assigned<F>(out: Seq<Outgoing<F>>, node: Seq<char>) -> bool {
    exists|i: int, from: int, to: int|
        0 <= i < out.len() && #[trigger] assigns(out[i], node, from, to)
}

proof fn lemma_roster_members(nodes: Seq<WsNode>)
    ensures
        roster(nodes).len() == keep(nodes, |n: WsNode| n.has_gpu).len(),
        forall|n: WsNode| #[trigger]
            roster(nodes).contains(n) == (nodes.contains(n) && n.has_gpu),
{
    let gpu = |n: WsNode| n.has_gpu;
    let kept = keep(nodes, gpu);
    let r = roster(nodes);
    law_roster_is_sorted_gpu_nodes(nodes);
    lemma_keep_members(nodes, gpu);
    r.to_multiset_ensures();
    kept.to_multiset_ensures();
    assert(r.to_multiset() == kept.to_multiset());
    assert forall|n: WsNode| #[trigger] r.contains(n) == (nodes.contains(n) && n.has_gpu) by {
        assert(r.contains(n) == (r.to_multiset().count(n) > 0));
        assert(kept.contains(n) == (kept.to_multiset().count(n) > 0));
        if kept.contains(n) {
            let k = choose|k: int| 0 <= k < kept.len() && kept[k] == n;
            assert(gpu(kept[k]) && nodes.contains(kept[k]));
        }
        if nodes.contains(n) && n.has_gpu {
            let m = choose|m: int| 0 <= m < nodes.len() && nodes[m] == n;
            assert(gpu(nodes[m]));
            assert(kept.contains(nodes[m]));
        }
    }
}

/// A rebalance sends one message per GPU node. Each of these nodes is told layers, and what they
/// are told leads from the first layer to the last without a gap.
pub proof fn law_every_gpu_node_is_told_its_layers<F>(
    pre: Generations,
    nodes: Seq<WsNode>,
    post: Generations,
    out: Seq<Outgoing<F>>,
    bounds: Seq<int>,
)
    requires
        rebalance_done(pre, nodes, post, out),
        out.len() >= 1,
        bounds == Seq::new(out.len() + 1, |i: int| split_start(out.len() as int, i)),
    ensures
        out.len() == keep(nodes, |n: WsNode| n.has_gpu).len(),
        bounds[0] == 0,
        bounds[out.len() as int] == 28,
        forall|i: int, j: int| 0 <= i <= j <= out.len() ==> bounds[i] <= bounds[j],
        forall|i: int|
            0 <= i < out.len() ==> assigns_a_gpu_node(
                #[trigger] out[i],
                nodes,
                bounds[i],
                bounds[i + 1],
            ),
        forall|m: int|
            0 <= m < nodes.len() && (#[trigger] nodes[m]).has_gpu ==> is_assigned(
                out,
                nodes[m].node_id@,
            ),
{
    let r = roster(nodes);
    let ready = id_name_pairs(r);
    let n = out.len() as int;
    assert(out.len() == ready.len() && ready.len() == r.len());
    law_split_is_even_partition(n);
    lemma_roster_members(nodes);
    assert forall|i: int| 0 <= i < n implies 0 <= #[trigger] bounds[i] <= bounds[i + 1] <= 28 by {
        assert(split_start(n, 0) <= split_start(n, i) <= split_start(n, i + 1) <= split_start(n, n));
    }
    assert forall|i: int| 0 <= i < n implies assigns(
        #[trigger] out[i],
        r[i].node_id@,
        bounds[i],
        bounds[i + 1],
    ) by {
        assert(ready[i] == (r[i].node_id, r[i].node_name));
        assert(0 <= bounds[i] <= bounds[i + 1] <= 28);
    }
    assert forall|i: int| 0 <= i < n implies assigns_a_gpu_node(
        #[trigger] out[i],
        nodes,
        bounds[i],
        bounds[i + 1],
    ) by {
        assert(r.contains(r[i]));
        assert(nodes.contains(r[i]) && r[i].has_gpu);
        let m = choose|m: int| 0 <= m < nodes.len() && nodes[m] == r[i];
        assert(assigns(out[i], r[i].node_id@, bounds[i], bounds[i + 1]));
        assert(nodes[m].has_gpu);
    }
    assert forall|m: int| 0 <= m < nodes.len() && (#[trigger] nodes[m]).has_gpu implies is_assigned(
        out,
        nodes[m].node_id@,
    ) by {
        assert(nodes.contains(nodes[m]));
        assert(r.contains(nodes[m]));
        let i = choose|i: int| 0 <= i < r.len() && r[i] == nodes[m];
        assert(assigns(out[i], r[i].node_id@, bounds[i], bounds[i + 1]));
    }
}

// ── Reports ──────────────────────────────────────────────────────────────────

/// What a node reports of itself is noted for it alone. Being ready and restarting concern the
/// generations; any other state leaves them as they are.
pub proof fn law_report_is_noted_for_its_node<F>(
    pre: WsState<F>,
    k: int,
    state: String,
    detail: String,
    post: WsState<F>,
)
    requires
        distinct_nodes(pre.nodes@),
        0 <= k < pre.nodes@.len(),
        state_taken(pre, pre.nodes@[k].node_id@, state, detail, post),
    ensures
        post.nodes@.len() == pre.nodes@.len(),
        post.nodes@[k].state == state,
        post.nodes@[k].state_detail == detail,
        post.nodes@[k].node_id == pre.nodes@[k].node_id,
        post.nodes@[k].node_name == pre.nodes@[k].node_name,
        post.nodes@[k].has_gpu == pre.nodes@[k].has_gpu,
        forall|i: int|
            0 <= i < pre.nodes@.len() && i != k ==> #[trigger] post.nodes@[i] == pre.nodes@[i],
        post.pending_forwards@ == pre.pending_forwards@,
        state@ == "ready"@ ==> pre.cluster_mgr@.readied(
            pre.nodes@[k].node_id@,
            post.cluster_mgr@,
        ),
        state@ == "reinitializing"@ ==> pre.cluster_mgr@.reinitialized(
            pre.nodes@[k].node_id@,
            post.cluster_mgr@,
        ),
        state@ != "ready"@ && state@ != "reinitializing"@ ==> post.cluster_mgr@
            == pre.cluster_mgr@,
{
    reveal_strlit("ready");
    reveal_strlit("reinitializing");
    assert("ready"@.len() != "reinitializing"@.len());
    lemma_node_place(pre.nodes@, k);
}

proof fn lemma_node_place(nodes: Seq<WsNode>, k: int)
    requires
        distinct_nodes(nodes),
        0 <= k < nodes.len(),
    ensures
        node_index(nodes, nodes[k].node_id@) == k,
{
    let id = nodes[k].node_id@;
    assert forall|p: spec_fn(WsNode) -> bool|
        (forall|e: WsNode| #[trigger] p(e) == (e.node_id@ == id)) implies (
    #[trigger] first_index(nodes, p)) == k by {
        assert forall|j: int| 0 <= j < k implies !p(#[trigger] nodes[j]) by {
            assert(nodes[j].node_id@ != nodes[k].node_id@);
        }
        lemma_first_index_is(nodes, p, k);
    }
}

/// A node that registers is connected as it says of itself; signs of life and results that come
/// as binary frames change nothing by themselves.
pub proof fn law_messages_do_what_they_say<F>(
    pre: WsState<F>,
    node_id: Seq<char>,
    msg: ClientMessage<F>,
    model_available: bool,
    now: u64,
    post: WsState<F>,
    out: Seq<Outgoing<F>>,
)
    requires
        message_handled(pre, node_id, msg, model_available, now, post, out),
    ensures
        msg matches ClientMessage::Register { node_name, ram_mb, has_gpu, .. } ==> {
            &&& post.pending_forwards@ == pre.pending_forwards@
            &&& exists|k: int|
                0 <= k < post.nodes@.len() && (#[trigger] post.nodes@[k]).node_id@ == node_id
                    && post.nodes@[k].node_name == node_name && post.nodes@[k].has_gpu == has_gpu
                    && post.nodes@[k].ram_mb == ram_mb
            &&& !has_gpu || !model_available ==> out.len() == 0 && post.cluster_mgr@
                == pre.cluster_mgr@
            &&& has_gpu && model_available ==> rebalance_done(
                pre.cluster_mgr@,
                post.nodes@,
                post.cluster_mgr@,
                out,
            )
        },
        !(msg is Register) && !(msg is StateUpdate) && !(msg is TokenGenerated) ==> post == pre
            && out.len() == 0,
        msg is StateUpdate ==> out.len() == 0,
{
    if msg is Register {
        let node = choose|node: WsNode|
            #![auto]
            node.node_id@ == node_id && crate::ws_handler::is_new_node(
                node,
                node_id,
                msg->Register_node_name,
                msg->Register_has_gpu,
                msg->Register_ram_mb,
                msg->Register_client_version,
                msg->Register_os,
            ) && crate::ws_handler::registered(pre, node, model_available, now, post, out);
        let p = |n: WsNode| !(n.node_name@ == node.node_name@ && n.node_id@ != node.node_id@);
        let kept = keep(pre.nodes@, p);
        lemma_node_found(kept, node.node_id@);
        let k = node_index(kept, node.node_id@);
        assert(post.nodes@ == if k < kept.len() {
            kept.update(k, node)
        } else {
            kept.push(node)
        });
        assert(post.nodes@[k] == node);
    }
}

proof fn lemma_node_found(nodes: Seq<WsNode>, id: Seq<char>)
    ensures
        0 <= node_index(nodes, id) <= nodes.len(),
{
    assert forall|p: spec_fn(WsNode) -> bool|
        0 <= #[trigger] first_index(nodes, p) <= nodes.len() by {
        lemma_index_from(nodes, p, 0);
    }
}

// ── Status ───────────────────────────────────────────────────────────────────

/// The cluster is shown as operational exactly if requests find a chain.
pub proof fn law_status_tells_whether_requests_are_served(
    nodes: Seq<WsNode>,
    gens: Generations,
    r: ClusterStatus,
)
    requires
        gens.wf(),
        is_status(nodes, gens, r),
    ensures
        (r.status@ == "operational"@) == (chain_of(nodes, gens).len() > 0),
        nodes.len() == 0 ==> r.status@ != "forming"@,
        r.status@ == "operational"@ ==> forall|layer: int|
            0 <= layer < 28 ==> #[trigger] layer_served(gens.active, layer),
{
    reveal_strlit("operational");
    reveal_strlit("no_nodes");
    reveal_strlit("forming");
    assert("operational"@.len() == 11 && "no_nodes"@.len() == 8 && "forming"@.len() == 7);
    if nodes.len() == 0 && chain_complete(nodes, gens) {
        let h = hops(gens);
        assert(can_serve(nodes, h[0].node_id@));
        lemma_node_found(nodes, h[0].node_id@);
    }
}

/// Every connected node is shown once, with the state that it reported, and they are shown by
/// their first layer.
pub proof fn law_every_node_is_shown(
    nodes: Seq<WsNode>,
    gens: Generations,
    r: ClusterStatus,
)
    requires
        is_status(nodes, gens, r),
    ensures
        r.nodes@.len() == nodes.len(),
        forall|i: int, j: int|
            0 <= i <= j < r.nodes@.len() ==> (#[trigger] r.nodes@[i]).layer_start <= (
            #[trigger] r.nodes@[j]).layer_start,
        forall|m: int|
            0 <= m < nodes.len() ==> exists|i: int|
                0 <= i < r.nodes@.len() && (#[trigger] r.nodes@[i]).node_name == (
                #[trigger] nodes[m]).node_name && r.nodes@[i].state == nodes[m].state
                    && r.nodes@[i].detail == nodes[m].state_detail,
{
    let all = nodes.map_values(|n: WsNode| display_state(nodes, gens, n));
    let le = start_le();
    assert(total_preorder(le));
    law_sorted_is_ordered_permutation(all, le);
    let s = sorted(all, le);
    s.to_multiset_ensures();
    all.to_multiset_ensures();
    assert forall|i: int, j: int| 0 <= i <= j < s.len() implies (#[trigger] s[i]).layer_start <= (
    #[trigger] s[j]).layer_start by {
        assert(le(s[i], s[j]));
    }
    assert forall|m: int| 0 <= m < nodes.len() implies exists|i: int|
        0 <= i < s.len() && (#[trigger] s[i]).node_name == (#[trigger] nodes[m]).node_name
            && s[i].state == nodes[m].state && s[i].detail == nodes[m].state_detail by {
        assert(all.contains(all[m]));
        assert(all.to_multiset().count(all[m]) > 0);
        assert(s.contains(all[m]));
        let i = choose|i: int| 0 <= i < s.len() && s[i] == all[m];
        assert(s[i].node_name == nodes[m].node_name);
    }
}

/// A node is shown with the layers that it serves in the active generation.
pub proof fn law_served_layers_are_shown(
    nodes: Seq<WsNode>,
    gens: Generations,
    n: WsNode,
    k: int,
)
    requires
        gens.active is Some,
        0 <= k < gens.active->0.slots@.len(),
        gens.active->0.slots@[k].node_id@ == n.node_id@,
        gens.active->0.slots@[k].infra_state == InfraState::InCluster,
        forall|j: int|
            0 <= j < gens.active->0.slots@.len() && j != k ==> (
            #[trigger] gens.active->0.slots@[j]).node_id@ != n.node_id@,
    ensures
        display_state(nodes, gens, n).layer_start == gens.active->0.slots@[k].layer_start,
        display_state(nodes, gens, n).layer_end == gens.active->0.slots@[k].layer_end,
{
    let slots = gens.active->0.slots@;
    let kept = serving(slots);
    lemma_serving_members(slots);
    assert(kept.contains(slots[k]));
    let m = choose|m: int| 0 <= m < kept.len() && kept[m] == slots[k];
    assert forall|j: int|
        0 <= j < kept.len() && (#[trigger] kept[j]).node_id@ == n.node_id@ implies kept[j]
        == slots[k] by {
        assert(slots.contains(kept[j]));
        let i = choose|i: int| 0 <= i < slots.len() && slots[i] == kept[j];
        assert(i == k);
    }
    lemma_last_is(kept, n.node_id@, slots[k]);
}

proof fn lemma_last_is(slots: Seq<NodeSlot>, id: Seq<char>, x: NodeSlot)
    requires
        slots.contains(x),
        x.node_id@ == id,
        forall|j: int|
            0 <= j < slots.len() && (#[trigger] slots[j]).node_id@ == id ==> slots[j] == x,
    ensures
        last_slot(slots, id) == Some(x),
    decreases slots.len(),
{
    let m = choose|m: int| 0 <= m < slots.len() && slots[m] == x;
    if slots.last().node_id@ == id {
        assert(slots[slots.len() - 1] == x);
    } else {
        let init = slots.drop_last();
        assert(init[m] == x);
        assert forall|j: int|
            0 <= j < init.len() && (#[trigger] init[j]).node_id@ == id implies init[j] == x by {
            assert(init[j] == slots[j]);
        }
        lemma_last_is(init, id, x);
    }
}

// ── Requests ─────────────────────────────────────────────────────────────────

/// A request is taken exactly if it has a prompt and the nodes of the active generation can serve
/// all layers. It then gets a chain through all of them, and counts on that generation.
pub proof fn law_request_is_taken_if_it_can_be_served<F>(
    pre: WsState<F>,
    prompt: Seq<char>,
    post: WsState<F>,
    r: Result<(InFlightGuard, Vec<ChainStep>), InferenceRefusal>,
)
    requires
        pre.wf(),
        is_begun(pre, prompt, post, r),
    ensures
        (r is Ok) == (prompt.len() > 0 && pre.cluster_mgr@.active is Some && chain_complete(
            pre.nodes@,
            pre.cluster_mgr@,
        )),
        r is Ok ==> {
            &&& is_gapless((r->Ok_0).1@)
            &&& forall|i: int|
                0 <= i < (r->Ok_0).1@.len() ==> can_serve(
                    pre.nodes@,
                    (#[trigger] (r->Ok_0).1@[i]).node_id@,
                )
            &&& post.cluster_mgr@.active is Some
            &&& post.cluster_mgr@.active->0.gen == (r->Ok_0).0.generation
            &&& pre.cluster_mgr@.active->0.in_flight < u32::MAX
                ==> post.cluster_mgr@.active->0.in_flight == pre.cluster_mgr@.active->0.in_flight
                + 1
            &&& post.cluster_mgr@.active->0.slots == pre.cluster_mgr@.active->0.slots
            &&& post.cluster_mgr@.pending == pre.cluster_mgr@.pending
        },
        prompt.len() == 0 ==> r == Err::<(InFlightGuard, Vec<ChainStep>), InferenceRefusal>(
            InferenceRefusal::PromptRequired,
        ),
        prompt.len() > 0 && pre.cluster_mgr@.active is None ==> r == Err::<
            (InFlightGuard, Vec<ChainStep>),
            InferenceRefusal,
        >(InferenceRefusal::NotOperational),
{
    if r is Ok {
        law_chain_is_gapless(pre.nodes@, pre.cluster_mgr@, (r->Ok_0).1@);
        let h = hops(pre.cluster_mgr@);
        assert forall|i: int| 0 <= i < (r->Ok_0).1@.len() implies can_serve(
            pre.nodes@,
            (#[trigger] (r->Ok_0).1@[i]).node_id@,
        ) by {
            assert(can_serve(pre.nodes@, h[i].node_id@));
        }
    }
}

/// A refused request leaves no trace.
pub proof fn law_refused_request_leaves_no_trace<F>(
    pre: WsState<F>,
    prompt: Seq<char>,
    post: WsState<F>,
    r: Result<(InFlightGuard, Vec<ChainStep>), InferenceRefusal>,
)
    requires
        pre.wf(),
        is_begun(pre, prompt, post, r),
        r is Err,
        pre.cluster_mgr@.active is Some ==> pre.cluster_mgr@.active->0.in_flight < u32::MAX,
    ensures
        post.cluster_mgr@ == pre.cluster_mgr@,
        post.nodes@ == pre.nodes@,
        post.pending_forwards@ == pre.pending_forwards@,
{
    let gens = pre.cluster_mgr@;
    if gens.active is Some {
        let gen = gens.active->0.gen;
        let f = |g: Generation| after_request_end(g, gen);
        assert(gens.draining.map_values(f) =~= gens.draining);
    }
}

} // verus!
