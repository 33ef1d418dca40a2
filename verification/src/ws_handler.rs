//! Coordinator side of the node connections: which nodes are connected, and the requests
//! that travel through their chain.
//!
//! Each function takes one event and says what is to be sent; the caller sends it.
use crate::frames::{binary_payload, parse_binary_payload};
use crate::layers::{split_layers, TOTAL_LAYERS};
use crate::messages::{ClientMessage, CoordinatorMessage};
use crate::node_stats::NodeStatsRegistry;
use crate::serving_clusters::{ActiveSlot, ClusterManager, InFlightGuard, NodeSlot};
use crate::text::{format_number, le, str_eq};
use vstd::prelude::*;

verus! {

use crate::frames::{payload_holds, payload_of};
use crate::layers::split_start;
use crate::node_stats::{can_end_session, one_record_per_name, stats_connected, stats_disconnected};
use crate::seqs::{
    first_index,
    keep,
    law_sorted_is_ordered_permutation,
    lemma_first_index_is,
    lemma_keep_members,
    lemma_keep_step,
    sorted,
    total_preorder,
};
use crate::serving_clusters::{
    keeps_range,
    last_slot,
    layer_served,
    operational,
    serving,
    Generation,
    Generations,
};
use crate::text::{decimal, lemma_text_le_total, lemma_text_le_transitive, text_le};
use vstd::string::StringExecFns;

/// A connected node.
#[derive(Debug)]
pub struct WsNode {
    pub node_id: String,
    pub node_name: String,
    pub has_gpu: bool,
    pub ram_mb: u64,
    /// "connecting", "downloading", "ready", "processing", "error", ...
    pub state: String,
    pub state_detail: String,
    pub client_version: String,
    pub os: String,
}

/// One hop of an inference chain.
#[derive(Debug)]
pub struct ChainStep {
    pub node_id: String,
    pub layer_start: usize,
    pub layer_end: usize,
    pub is_last: bool,
}

impl Clone for ChainStep {
    fn clone(&self) -> (r: Self)
        ensures
            r == *self,
    {
        ChainStep {
            node_id: self.node_id.clone(),
            layer_start: self.layer_start,
            layer_end: self.layer_end,
            is_last: self.is_last,
        }
    }
}

/// A request on its way through the chain.
#[derive(Debug)]
pub struct PendingForward<F> {
    pub hidden_data: Vec<u8>,
    pub chain: Vec<ChainStep>,
    pub current_step: usize,
    pub token_ids: Vec<u32>,
    pub generated: Vec<u32>,
    pub max_tokens: usize,
    pub temperature: F,
    pub top_p: Option<F>,
    pub top_k: Option<u32>,
    /// The generation that the request is counted on.
    pub in_flight_guard: Option<InFlightGuard>,
}

/// A hop as the result of a request reports it.
#[derive(Debug)]
pub struct ClusterHop {
    pub node: String,
    pub layers: String,
    pub position: String,
}

/// What a finished request hands to the one who waits for it.
#[derive(Debug)]
pub struct InferenceResult {
    pub text: String,
    pub tokens: usize,
    pub cluster: Vec<ClusterHop>,
    pub generated_ids: Vec<u32>,
}

/// What the caller has to do.
#[derive(Debug)]
pub enum Outgoing<F> {
    /// Send a message; nothing follows from a failure.
    Send { node_id: String, message: CoordinatorMessage<F> },
    /// Send a message; if that fails, fail the request.
    SendOrFail { node_id: String, message: CoordinatorMessage<F>, request_id: String },
    /// Hand the result to the one who waits for the request.
    Completed { request_id: String, result: InferenceResult },
}

/// A message with a binary payload that follows it; if either cannot be sent, the request
/// fails.
#[derive(Debug)]
pub struct ForwardHop<F> {
    pub node_id: String,
    pub message: CoordinatorMessage<F>,
    pub payload: Vec<u8>,
    pub request_id: String,
}

/// State of the cluster for display.
#[derive(Debug)]
pub struct ClusterStatus {
    pub status: String,
    pub nodes: Vec<NodeInferenceState>,
}

/// State of a node for display.
#[derive(Debug)]
pub struct NodeInferenceState {
    pub node_name: String,
    pub state: String,
    pub detail: String,
    pub layer_start: usize,
    pub layer_end: usize,
    pub client_version: String,
    pub os: String,
}

/// The connected nodes and the requests under way.
#[derive(Debug)]
pub struct WsState<F> {
    pub nodes: Vec<WsNode>,
    pub pending_forwards: Vec<(String, PendingForward<F>)>,
    pub cluster_mgr: ClusterManager,
    pub node_stats: NodeStatsRegistry,
}

// ── Model ────────────────────────────────────────────────────────────────────

/// Position of the node with this id, or the number of nodes.
pub open spec fn node_index(nodes: Seq<WsNode>, id: Seq<char>) -> int {
    first_index(nodes, |n: WsNode| n.node_id@ == id)
}

/// Position of the request with this id, or the number of requests.
pub open spec fn request_index<F>(pending: Seq<(String, PendingForward<F>)>, id: Seq<char>) -> int {
    first_index(pending, |e: (String, PendingForward<F>)| e.0@ == id)
}

pub open spec fn distinct_nodes(nodes: Seq<WsNode>) -> bool {
    &&& forall|i: int, j: int|
        0 <= i < j < nodes.len() ==> (#[trigger] nodes[i]).node_id@ != (
        #[trigger] nodes[j]).node_id@
    &&& forall|i: int, j: int|
        0 <= i < j < nodes.len() ==> (#[trigger] nodes[i]).node_name@ != (
        #[trigger] nodes[j]).node_name@
}

pub open spec fn distinct_requests<F>(pending: Seq<(String, PendingForward<F>)>) -> bool {
    forall|i: int, j: int|
        0 <= i < j < pending.len() ==> (#[trigger] pending[i]).0@ != (#[trigger] pending[j]).0@
}

/// A request has a chain, and has not reached its last token.
pub open spec fn request_wf<F>(p: PendingForward<F>) -> bool {
    p.chain@.len() >= 1 && (p.generated@.len() == 0 || p.generated@.len() < p.max_tokens)
}

impl<F> WsState<F> {
    /// Node ids, node names and request ids occur once, every request has a chain and waits
    /// for a token, and the cluster generations are consistent.
    pub open spec fn wf(self) -> bool {
        &&& distinct_nodes(self.nodes@)
        &&& distinct_requests(self.pending_forwards@)
        &&& forall|i: int|
            0 <= i < self.pending_forwards@.len() ==> request_wf(
                (#[trigger] self.pending_forwards@[i]).1,
            )
        &&& self.cluster_mgr@.wf()
        &&& one_record_per_name(self.node_stats@)
    }
}

pub open spec fn name_le() -> spec_fn(WsNode, WsNode) -> bool {
    |a: WsNode, b: WsNode| text_le(a.node_name@, b.node_name@)
}

/// The GPU nodes by name.
pub open spec fn roster(nodes: Seq<WsNode>) -> Seq<WsNode> {
    sorted(keep(nodes, |n: WsNode| n.has_gpu), name_le())
}

/// Ids and names.
pub open spec fn id_name_pairs(nodes: Seq<WsNode>) -> Seq<(String, String)> {
    nodes.map_values(|n: WsNode| (n.node_id, n.node_name))
}

/// One layer assignment goes to every node of the roster, in order.
pub open spec fn assignments_sent<F>(
    pre: Generations,
    nodes: Seq<WsNode>,
    out: Seq<Outgoing<F>>,
) -> bool {
    let ready = id_name_pairs(roster(nodes));
    &&& out.len() == ready.len()
    &&& forall|i: int|
        0 <= i < out.len() ==> (#[trigger] out[i]) == Outgoing::<F>::Send {
            node_id: ready[i].0,
            message: CoordinatorMessage::LayerAssignment {
                layer_start: split_start(ready.len() as int, i) as usize,
                layer_end: split_start(ready.len() as int, i + 1) as usize,
                skip_download: keeps_range(pre.active, ready, i),
                generation: pre.next_gen,
            },
        }
}

/// A rebalance over the GPU nodes among `nodes`, with the messages that it sends.
pub open spec fn rebalance_done<F>(
    pre: Generations,
    nodes: Seq<WsNode>,
    post: Generations,
    out: Seq<Outgoing<F>>,
) -> bool {
    pre.rebalanced(id_name_pairs(roster(nodes)), post) && assignments_sent(pre, nodes, out)
}

/// Whether the node is connected, has a GPU and reported that it is ready.
pub open spec fn can_serve(nodes: Seq<WsNode>, id: Seq<char>) -> bool {
    let k = node_index(nodes, id);
    k < nodes.len() && nodes[k].state@ == "ready"@ && nodes[k].has_gpu
}

/// The serving slots of the active generation.
pub open spec fn hops(gens: Generations) -> Seq<NodeSlot> {
    match gens.active {
        Some(g) => serving(g.slots@),
        None => Seq::empty(),
    }
}

/// Whether every hop can serve and there is at least one.
pub open spec fn hops_serve(nodes: Seq<WsNode>, gens: Generations) -> bool {
    hops(gens).len() > 0 && forall|i: int|
        0 <= i < hops(gens).len() ==> can_serve(nodes, (#[trigger] hops(gens)[i]).node_id@)
}

/// Whether requests can be served: all layers are covered by nodes that can serve.
pub open spec fn chain_complete(nodes: Seq<WsNode>, gens: Generations) -> bool {
    hops_serve(nodes, gens) && operational(gens.active)
}

pub open spec fn step_of(slot: NodeSlot) -> ChainStep {
    ChainStep {
        node_id: slot.node_id,
        layer_start: slot.layer_start,
        layer_end: slot.layer_end,
        is_last: slot.layer_end >= TOTAL_LAYERS,
    }
}

/// The chain of the active generation; empty unless its nodes can serve and cover all layers.
pub open spec fn chain_of(nodes: Seq<WsNode>, gens: Generations) -> Seq<ChainStep> {
    if chain_complete(nodes, gens) {
        hops(gens).map_values(|s: NodeSlot| step_of(s))
    } else {
        Seq::empty()
    }
}

/// The layer range to display for a node: that of the active generation, else that of the
/// pending one, else the range that it would get now.
pub open spec fn display_range(nodes: Seq<WsNode>, gens: Generations, id: Seq<char>) -> (int, int) {
    if hops(gens).len() > 0 {
        slot_range(hops(gens), id)
    } else if gens.pending is Some {
        slot_range(gens.pending->0.slots@, id)
    } else {
        let r = roster(nodes);
        let k = node_index(r, id);
        if k < r.len() {
            (split_start(r.len() as int, k), split_start(r.len() as int, k + 1))
        } else {
            (0, 0)
        }
    }
}

pub open spec fn slot_range(slots: Seq<NodeSlot>, id: Seq<char>) -> (int, int) {
    match last_slot(slots, id) {
        Some(s) => (s.layer_start as int, s.layer_end as int),
        None => (0, 0),
    }
}

pub open spec fn display_state(
    nodes: Seq<WsNode>,
    gens: Generations,
    n: WsNode,
) -> NodeInferenceState {
    NodeInferenceState {
        node_name: n.node_name,
        state: n.state,
        detail: n.state_detail,
        layer_start: display_range(nodes, gens, n.node_id@).0 as usize,
        layer_end: display_range(nodes, gens, n.node_id@).1 as usize,
        client_version: n.client_version,
        os: n.os,
    }
}

pub open spec fn start_le() -> spec_fn(NodeInferenceState, NodeInferenceState) -> bool {
    |a: NodeInferenceState, b: NodeInferenceState| a.layer_start <= b.layer_start
}

/// State of the cluster and of every node, by first layer.
pub open spec fn is_status(nodes: Seq<WsNode>, gens: Generations, r: ClusterStatus) -> bool {
    &&& r.status@ == if chain_complete(nodes, gens) {
        "operational"@
    } else if nodes.len() == 0 {
        "no_nodes"@
    } else {
        "forming"@
    }
    &&& r.nodes@ == sorted(
        nodes.map_values(|n: WsNode| display_state(nodes, gens, n)),
        start_le(),
    )
}

/// The generations after a request with this guard ended.
pub open spec fn released(pre: Generations, guard: Option<InFlightGuard>) -> Generations {
    match guard {
        Some(g) => pre.request_ended(g.generation).retired(),
        None => pre,
    }
}

/// The generations after all of these requests ended.
pub open spec fn released_all<F>(
    pre: Generations,
    gone: Seq<(String, PendingForward<F>)>,
) -> Generations
    decreases gone.len(),
{
    if gone.len() == 0 {
        pre
    } else {
        released(released_all(pre, gone.drop_last()), gone.last().1.in_flight_guard)
    }
}

/// Whether the request waits for this node.
pub open spec fn waits_for<F>(e: (String, PendingForward<F>), id: Seq<char>) -> bool {
    e.1.current_step < e.1.chain@.len() && e.1.chain@[e.1.current_step as int].node_id@ == id
}

/// `nodes` after `node` registered: other connections under the same name are gone, and the
/// node stands in place of an earlier registration of its connection.
pub open spec fn nodes_after_register(nodes: Seq<WsNode>, node: WsNode) -> Seq<WsNode> {
    let kept = keep(
        nodes,
        |n: WsNode| !(n.node_name@ == node.node_name@ && n.node_id@ != node.node_id@),
    );
    let k = node_index(kept, node.node_id@);
    if k < kept.len() {
        kept.update(k, node)
    } else {
        kept.push(node)
    }
}

/// A registration of `node` and what follows from it.
pub open spec fn registered<F>(
    pre: WsState<F>,
    node: WsNode,
    model_available: bool,
    now: u64,
    post: WsState<F>,
    out: Seq<Outgoing<F>>,
) -> bool {
    &&& post.nodes@ == nodes_after_register(pre.nodes@, node)
    &&& post.pending_forwards@ == pre.pending_forwards@
    &&& stats_connected(pre.node_stats@, node.node_name@, now, post.node_stats@)
    &&& if node.has_gpu && model_available {
        rebalance_done(pre.cluster_mgr@, post.nodes@, post.cluster_mgr@, out)
    } else {
        post.cluster_mgr@ == pre.cluster_mgr@ && out.len() == 0
    }
}

/// `nodes` after the node with this id reported a state.
pub open spec fn nodes_after_state(
    nodes: Seq<WsNode>,
    id: Seq<char>,
    state: String,
    detail: String,
) -> Seq<WsNode> {
    let k = node_index(nodes, id);
    if k < nodes.len() {
        nodes.update(k, WsNode { state: state, state_detail: detail, ..nodes[k] })
    } else {
        nodes
    }
}

/// The generations after the node with this id reported `state`.
pub open spec fn gens_after_state(
    pre: Generations,
    id: Seq<char>,
    state: Seq<char>,
    post: Generations,
) -> bool {
    if state == "ready"@ {
        pre.readied(id, post)
    } else if state == "reinitializing"@ {
        pre.reinitialized(id, post)
    } else {
        post == pre
    }
}

/// A state report of the node with this id was taken.
pub open spec fn state_taken<F>(
    pre: WsState<F>,
    id: Seq<char>,
    state: String,
    detail: String,
    post: WsState<F>,
) -> bool {
    &&& post.nodes@ == nodes_after_state(pre.nodes@, id, state, detail)
    &&& post.pending_forwards@ == pre.pending_forwards@
    &&& post.node_stats@ == pre.node_stats@
    &&& gens_after_state(pre.cluster_mgr@, id, state@, post.cluster_mgr@)
}

/// The nodes of a chain, each once, in order.
pub open spec fn chain_nodes(chain: Seq<ChainStep>) -> Seq<String>
    decreases chain.len(),
{
    if chain.len() == 0 {
        Seq::empty()
    } else if in_chain(chain.drop_last(), chain.last().node_id@) {
        chain_nodes(chain.drop_last())
    } else {
        chain_nodes(chain.drop_last()).push(chain.last().node_id)
    }
}

pub open spec fn in_chain(chain: Seq<ChainStep>, id: Seq<char>) -> bool {
    exists|i: int| 0 <= i < chain.len() && (#[trigger] chain[i]).node_id@ == id
}

pub open spec fn is_end<F>(o: Outgoing<F>, node_id: String, request_id: Seq<char>) -> bool {
    match o {
        Outgoing::Send { node_id: id, message } => id == node_id && match message {
            CoordinatorMessage::InferenceEnd { request_id: r } => r@ == request_id,
            _ => false,
        },
        _ => false,
    }
}

/// The end of the request is announced to every node of the chain.
pub open spec fn ends_sent<F>(
    out: Seq<Outgoing<F>>,
    chain: Seq<ChainStep>,
    request_id: Seq<char>,
) -> bool {
    let ids = chain_nodes(chain);
    out.len() == ids.len() && forall|i: int|
        0 <= i < out.len() ==> is_end(#[trigger] out[i], ids[i], request_id)
}

pub open spec fn hop_reported(h: ClusterHop, s: ChainStep) -> bool {
    &&& h.node == s.node_id
    &&& h.layers@ == decimal(s.layer_start as nat) + "-"@ + decimal(s.layer_end as nat)
    &&& h.position@ == if s.is_last {
        "last"@
    } else {
        "first/middle"@
    }
}

pub open spec fn is_completion<F>(
    o: Outgoing<F>,
    request_id: Seq<char>,
    p: PendingForward<F>,
    token_id: u32,
) -> bool {
    match o {
        Outgoing::Completed { request_id: r, result } => {
            &&& r@ == request_id
            &&& result.text@.len() == 0
            &&& result.generated_ids@ == p.generated@.push(token_id)
            &&& result.tokens == result.generated_ids@.len()
            &&& result.cluster@.len() == p.chain@.len()
            &&& forall|i: int|
                0 <= i < p.chain@.len() ==> hop_reported(
                    #[trigger] result.cluster@[i],
                    p.chain@[i],
                )
        },
        _ => false,
    }
}

pub open spec fn is_continue<F>(
    o: Outgoing<F>,
    request_id: Seq<char>,
    p: PendingForward<F>,
    token_id: u32,
) -> bool {
    match o {
        Outgoing::SendOrFail { node_id, message, request_id: r } => {
            &&& r@ == request_id
            &&& node_id == p.chain@[0].node_id
            &&& match message {
                CoordinatorMessage::InferenceContinue {
                    request_id: rid,
                    new_token_id,
                    layer_start,
                    layer_end,
                    max_tokens,
                    temperature,
                    top_p,
                    top_k,
                } => {
                    &&& rid@ == request_id
                    &&& new_token_id == token_id
                    &&& layer_start == p.chain@[0].layer_start
                    &&& layer_end == p.chain@[0].layer_end
                    &&& max_tokens == p.max_tokens
                    &&& temperature == p.temperature
                    &&& top_p == p.top_p
                    &&& top_k == p.top_k
                },
                _ => false,
            }
        },
        _ => false,
    }
}

/// Everything of a request but its progress.
pub open spec fn same_request<F>(a: PendingForward<F>, b: PendingForward<F>) -> bool {
    &&& a.chain == b.chain
    &&& a.token_ids == b.token_ids
    &&& a.max_tokens == b.max_tokens
    &&& a.temperature == b.temperature
    &&& a.top_p == b.top_p
    &&& a.top_k == b.top_k
    &&& a.in_flight_guard == b.in_flight_guard
}

/// Whether this token is the last one of the request.
pub open spec fn is_final_token<F>(p: PendingForward<F>, is_eos: bool) -> bool {
    is_eos || p.generated@.len() + 1 >= p.max_tokens
}

/// The last node generated a token: the request is finished by an end token or by its
/// token limit, else its first node goes on with the new token.
pub open spec fn token_handled<F>(
    pre: WsState<F>,
    request_id: Seq<char>,
    token_id: u32,
    is_eos: bool,
    post: WsState<F>,
    out: Seq<Outgoing<F>>,
) -> bool {
    let k = request_index(pre.pending_forwards@, request_id);
    &&& post.nodes@ == pre.nodes@
    &&& post.node_stats@ == pre.node_stats@
    &&& if k >= pre.pending_forwards@.len() {
        &&& post.pending_forwards@ == pre.pending_forwards@
        &&& post.cluster_mgr@ == pre.cluster_mgr@
        &&& out.len() == 0
    } else {
        let p = pre.pending_forwards@[k].1;
        if is_final_token(p, is_eos) {
            &&& post.pending_forwards@ == pre.pending_forwards@.remove(k)
            &&& post.cluster_mgr@ == released(pre.cluster_mgr@, p.in_flight_guard)
            &&& out.len() >= 1
            &&& is_completion(out[0], request_id, p, token_id)
            &&& ends_sent(out.subrange(1, out.len() as int), p.chain@, request_id)
        } else {
            &&& post.cluster_mgr@ == pre.cluster_mgr@
            &&& post.pending_forwards@.len() == pre.pending_forwards@.len()
            &&& forall|i: int|
                0 <= i < pre.pending_forwards@.len() && i != k
                    ==> #[trigger] post.pending_forwards@[i] == pre.pending_forwards@[i]
            &&& post.pending_forwards@[k].0 == pre.pending_forwards@[k].0
            &&& same_request(post.pending_forwards@[k].1, p)
            &&& post.pending_forwards@[k].1.hidden_data == p.hidden_data
            &&& post.pending_forwards@[k].1.generated@ == p.generated@.push(token_id)
            &&& post.pending_forwards@[k].1.current_step == 0
            &&& out.len() == 1
            &&& is_continue(out[0], request_id, p, token_id)
        }
    }
}

/// The hop that hands the hidden states on to `step`.
pub open spec fn is_forward<F>(
    h: ForwardHop<F>,
    request_id: Seq<char>,
    hidden: Seq<u8>,
    p: PendingForward<F>,
    step: ChainStep,
) -> bool {
    &&& h.node_id == step.node_id
    &&& h.request_id@ == request_id
    &&& h.payload@ == payload_of(request_id, hidden)
    &&& match h.message {
        CoordinatorMessage::InferenceForward {
            request_id: rid,
            hidden_states_ref,
            layer_start,
            layer_end,
            is_last,
            temperature,
            top_p,
            top_k,
        } => {
            &&& rid@ == request_id
            &&& hidden_states_ref@.len() == 0
            &&& layer_start == step.layer_start
            &&& layer_end == step.layer_end
            &&& is_last == step.is_last
            &&& temperature == if step.is_last {
                Some(p.temperature)
            } else {
                None
            }
            &&& top_p == if step.is_last {
                p.top_p
            } else {
                None
            }
            &&& top_k == if step.is_last {
                p.top_k
            } else {
                None
            }
        },
        _ => false,
    }
}

/// Hidden states came back for a request: it moves on by one step, and the next node, if
/// there is one, gets them.
pub open spec fn forward_routed<F>(
    pre: WsState<F>,
    request_id: Seq<char>,
    hidden: Seq<u8>,
    post: WsState<F>,
    hop: Option<ForwardHop<F>>,
) -> bool {
    let k = request_index(pre.pending_forwards@, request_id);
    &&& post.nodes@ == pre.nodes@
    &&& post.node_stats@ == pre.node_stats@
    &&& post.cluster_mgr@ == pre.cluster_mgr@
    &&& if k >= pre.pending_forwards@.len() {
        post.pending_forwards@ == pre.pending_forwards@ && hop is None
    } else {
        let p = pre.pending_forwards@[k].1;
        &&& post.pending_forwards@.len() == pre.pending_forwards@.len()
        &&& forall|i: int|
            0 <= i < pre.pending_forwards@.len() && i != k
                ==> #[trigger] post.pending_forwards@[i] == pre.pending_forwards@[i]
        &&& post.pending_forwards@[k].0 == pre.pending_forwards@[k].0
        &&& same_request(post.pending_forwards@[k].1, p)
        &&& post.pending_forwards@[k].1.hidden_data@.len() == 0
        &&& post.pending_forwards@[k].1.generated == p.generated
        &&& post.pending_forwards@[k].1.current_step == p.current_step + 1
        &&& hop is Some == (p.current_step + 1 < p.chain@.len())
        &&& hop is Some ==> is_forward(
            hop->0,
            request_id,
            hidden,
            p,
            p.chain@[p.current_step + 1],
        )
    }
}

/// A request is given up.
pub open spec fn request_failed<F>(
    pre: WsState<F>,
    request_id: Seq<char>,
    post: WsState<F>,
) -> bool {
    let k = request_index(pre.pending_forwards@, request_id);
    &&& post.nodes@ == pre.nodes@
    &&& post.node_stats@ == pre.node_stats@
    &&& if k >= pre.pending_forwards@.len() {
        post.pending_forwards@ == pre.pending_forwards@ && post.cluster_mgr@ == pre.cluster_mgr@
    } else {
        &&& post.pending_forwards@ == pre.pending_forwards@.remove(k)
        &&& post.cluster_mgr@ == released(
            pre.cluster_mgr@,
            pre.pending_forwards@[k].1.in_flight_guard,
        )
    }
}

// ── Sorting ──────────────────────────────────────────────────────────────────

proof fn lemma_name_order()
    ensures
        total_preorder(name_le()),
{
    let le = name_le();
    assert forall|a: WsNode, b: WsNode| #[trigger] le(a, b) || le(b, a) by {
        lemma_text_le_total(a.node_name@, b.node_name@);
    }
    assert forall|a: WsNode, b: WsNode, c: WsNode| #[trigger] le(a, b) && #[trigger] le(
        b,
        c,
    ) implies le(a, c) by {
        lemma_text_le_transitive(a.node_name@, b.node_name@, c.node_name@);
    }
}

fn gpu_nodes_by_name(nodes: &Vec<WsNode>) -> (r: Vec<&WsNode>)
    ensures
        r@.len() == roster(nodes@).len(),
        forall|i: int| 0 <= i < r@.len() ==> *(#[trigger] r@[i]) == roster(nodes@)[i],
{
    let ghost gpu = |n: WsNode| n.has_gpu;
    let mut r: Vec<&WsNode> = Vec::new();
    let mut i: usize = 0;
    while i < nodes.len()
        invariant
            i <= nodes@.len(),
            gpu == (|n: WsNode| n.has_gpu),
            r@.len() == sorted(keep(nodes@.subrange(0, i as int), gpu), name_le()).len(),
            forall|k: int|
                0 <= k < r@.len() ==> *(#[trigger] r@[k]) == sorted(
                    keep(nodes@.subrange(0, i as int), gpu),
                    name_le(),
                )[k],
        decreases nodes@.len() - i,
    {
        let ghost done = sorted(keep(nodes@.subrange(0, i as int), gpu), name_le());
        proof {
            lemma_keep_step(nodes@, gpu, i as int);
        }
        let node = &nodes[i];
        if node.has_gpu {
            let ghost after = |y: WsNode| !name_le()(y, *node);
            let mut k: usize = 0;
            while k < r.len() && le(r[k].node_name.as_str(), node.node_name.as_str())
                invariant
                    k <= r@.len(),
                    r@.len() == done.len(),
                    forall|j: int| 0 <= j < r@.len() ==> *(#[trigger] r@[j]) == done[j],
                    after == (|y: WsNode| !name_le()(y, *node)),
                    forall|j: int| 0 <= j < k ==> !after(#[trigger] done[j]),
                decreases r@.len() - k,
            {
                assert(*r@[k as int] == done[k as int]);
                k = k + 1;
            }
            proof {
                if k < r@.len() {
                    assert(*r@[k as int] == done[k as int]);
                }
                lemma_first_index_is(done, after, k as int);
                let g = keep(nodes@.subrange(0, i as int), gpu);
                assert(g.push(*node).drop_last() == g);
            }
            r.insert(k, node);
        }
        i = i + 1;
    }
    assert(nodes@.subrange(0, nodes@.len() as int) == nodes@);
    r
}

/// Layer ranges for `gpu_nodes`, in order.
pub fn assign_gpu_layers(gpu_nodes: &[&WsNode]) -> (r: Vec<(String, usize, usize)>)
    ensures
        r@.len() == gpu_nodes@.len(),
        forall|i: int|
            0 <= i < r@.len() ==> {
                &&& (#[trigger] r@[i]).0 == gpu_nodes@[i].node_id
                &&& r@[i].1 == split_start(gpu_nodes@.len() as int, i)
                &&& r@[i].2 == split_start(gpu_nodes@.len() as int, i + 1)
            },
{
    let mut r: Vec<(String, usize, usize)> = Vec::new();
    let n: usize = gpu_nodes.len();
    if n == 0 {
        return r;
    }
    let ranges = split_layers(n);
    let mut i: usize = 0;
    while i < n
        invariant
            n == gpu_nodes@.len(),
            i <= n,
            ranges@.len() == n,
            forall|k: int|
                0 <= k < n ==> (#[trigger] ranges@[k]).0 == split_start(n as int, k)
                    && ranges@[k].1 == split_start(n as int, k + 1),
            r@.len() == i,
            forall|k: int|
                0 <= k < i ==> {
                    &&& (#[trigger] r@[k]).0 == gpu_nodes@[k].node_id
                    &&& r@[k].1 == split_start(n as int, k)
                    &&& r@[k].2 == split_start(n as int, k + 1)
                },
        decreases n - i,
    {
        let (start, end) = ranges[i];
        r.push((gpu_nodes[i].node_id.clone(), start, end));
        i = i + 1;
    }
    r
}

fn find_node(nodes: &Vec<WsNode>, id: &str) -> (k: usize)
    ensures
        k == node_index(nodes@, id@),
        k <= nodes@.len(),
        k < nodes@.len() ==> nodes@[k as int].node_id@ == id@,
        forall|j: int| 0 <= j < k ==> (#[trigger] nodes@[j]).node_id@ != id@,
{
    let ghost p = |n: WsNode| n.node_id@ == id@;
    let mut k: usize = 0;
    while k < nodes.len()
        invariant
            k <= nodes@.len(),
            p == (|n: WsNode| n.node_id@ == id@),
            forall|j: int| 0 <= j < k ==> (#[trigger] nodes@[j]).node_id@ != id@,
        decreases nodes@.len() - k,
    {
        if str_eq(nodes[k].node_id.as_str(), id) {
            proof {
                lemma_first_index_is(nodes@, p, k as int);
            }
            return k;
        }
        k = k + 1;
    }
    proof {
        lemma_first_index_is(nodes@, p, k as int);
    }
    k
}

fn find_request<F>(pending: &Vec<(String, PendingForward<F>)>, id: &str) -> (k: usize)
    ensures
        k == request_index(pending@, id@),
        k <= pending@.len(),
        k < pending@.len() ==> pending@[k as int].0@ == id@,
        forall|j: int| 0 <= j < k ==> (#[trigger] pending@[j]).0@ != id@,
{
    let ghost p = |e: (String, PendingForward<F>)| e.0@ == id@;
    let mut k: usize = 0;
    while k < pending.len()
        invariant
            k <= pending@.len(),
            p == (|e: (String, PendingForward<F>)| e.0@ == id@),
            forall|j: int| 0 <= j < k ==> (#[trigger] pending@[j]).0@ != id@,
        decreases pending@.len() - k,
    {
        if str_eq(pending[k].0.as_str(), id) {
            proof {
                lemma_first_index_is(pending@, p, k as int);
            }
            return k;
        }
        k = k + 1;
    }
    proof {
        lemma_first_index_is(pending@, p, k as int);
    }
    k
}

fn node_can_serve(nodes: &Vec<WsNode>, id: &str) -> (r: bool)
    ensures
        r == can_serve(nodes@, id@),
{
    let k = find_node(nodes, id);
    k < nodes.len() && str_eq(nodes[k].state.as_str(), "ready") && nodes[k].has_gpu
}

/// Releases the request's place in the generation that it is counted on.
pub fn release_in_flight<F>(pending: &PendingForward<F>, cluster_mgr: &mut ClusterManager)
    requires
        old(cluster_mgr)@.wf(),
    ensures
        final(cluster_mgr)@.wf(),
        final(cluster_mgr)@ == released(old(cluster_mgr)@, pending.in_flight_guard),
{
    if let Some(guard) = &pending.in_flight_guard {
        cluster_mgr.request_end(guard);
        cluster_mgr.maybe_retire_draining();
    }
}

fn end_messages<F>(chain: &Vec<ChainStep>, request_id: &str) -> (out: Vec<Outgoing<F>>)
    ensures
        ends_sent(out@, chain@, request_id@),
{
    let mut out: Vec<Outgoing<F>> = Vec::new();
    let mut i: usize = 0;
    while i < chain.len()
        invariant
            i <= chain@.len(),
            ends_sent(out@, chain@.subrange(0, i as int), request_id@),
        decreases chain@.len() - i,
    {
        let ghost done = chain@.subrange(0, i as int);
        let mut seen: bool = false;
        let mut j: usize = 0;
        while j < i
            invariant
                j <= i < chain@.len(),
                seen == in_chain(chain@.subrange(0, j as int), chain@[i as int].node_id@),
            decreases i - j,
        {
            proof {
                let a = chain@.subrange(0, j as int);
                let b = chain@.subrange(0, j + 1);
                let id = chain@[i as int].node_id@;
                assert(forall|x: int| 0 <= x < a.len() ==> a[x] == b[x]);
                assert(b[j as int] == chain@[j as int]);
                if in_chain(a, id) {
                    let x = choose|x: int| 0 <= x < a.len() && (#[trigger] a[x]).node_id@ == id;
                    assert(b[x].node_id@ == id);
                }
                if in_chain(b, id) && chain@[j as int].node_id@ != id {
                    let x = choose|x: int| 0 <= x < b.len() && (#[trigger] b[x]).node_id@ == id;
                    assert(a[x].node_id@ == id);
                }
            }
            if chain[j].node_id == chain[i].node_id {
                seen = true;
            }
            j = j + 1;
        }
        proof {
            let next = chain@.subrange(0, i + 1);
            assert(next.drop_last() == done);
            assert(next.last() == chain@[i as int]);
        }
        if !seen {
            let ghost before = out@;
            out.push(
                Outgoing::Send {
                    node_id: chain[i].node_id.clone(),
                    message: CoordinatorMessage::InferenceEnd { request_id: request_id.to_owned() },
                },
            );
        }
        i = i + 1;
    }
    assert(chain@.subrange(0, chain@.len() as int) == chain@);
    out
}

fn report_hops(chain: &Vec<ChainStep>) -> (r: Vec<ClusterHop>)
    ensures
        r@.len() == chain@.len(),
        forall|i: int| 0 <= i < r@.len() ==> hop_reported(#[trigger] r@[i], chain@[i]),
{
    let mut r: Vec<ClusterHop> = Vec::new();
    let mut i: usize = 0;
    while i < chain.len()
        invariant
            i <= chain@.len(),
            r@.len() == i,
            forall|k: int| 0 <= k < i ==> hop_reported(#[trigger] r@[k], chain@[k]),
        decreases chain@.len() - i,
    {
        let s = &chain[i];
        let mut layers = format_number(s.layer_start as u64);
        layers.append("-");
        layers.append(format_number(s.layer_end as u64).as_str());
        let position = if s.is_last {
            "last".to_owned()
        } else {
            "first/middle".to_owned()
        };
        r.push(ClusterHop { node: s.node_id.clone(), layers, position });
        i = i + 1;
    }
    r
}

// ── Events ───────────────────────────────────────────────────────────────────

impl<F: Copy> WsState<F> {
    /// No nodes and no requests.
    pub fn new() -> (r: Self)
        ensures
            r.wf(),
            r.nodes@.len() == 0,
            r.pending_forwards@.len() == 0,
            r.node_stats@.len() == 0,
            r.cluster_mgr@ == (Generations {
                next_gen: 1,
                active: None,
                pending: None,
                draining: Seq::empty(),
            }),
    {
        WsState {
            nodes: Vec::new(),
            pending_forwards: Vec::new(),
            cluster_mgr: ClusterManager::new(),
            node_stats: NodeStatsRegistry::new(),
        }
    }

    /// Number of connected nodes.
    pub fn node_count(&self) -> (n: usize)
        ensures
            n == self.nodes@.len(),
    {
        self.nodes.len()
    }

    /// Divides the layers over the connected GPU nodes, by name, and assigns every node its
    /// range.
    pub fn trigger_rebalance(&mut self) -> (out: Vec<Outgoing<F>>)
        requires
            old(self).wf(),
            old(self).cluster_mgr@.next_gen < u64::MAX,
        ensures
            final(self).wf(),
            final(self).nodes@ == old(self).nodes@,
            final(self).pending_forwards@ == old(self).pending_forwards@,
            final(self).node_stats@ == old(self).node_stats@,
            rebalance_done(
                old(self).cluster_mgr@,
                old(self).nodes@,
                final(self).cluster_mgr@,
                out@,
            ),
    {
        let ghost pre = self.cluster_mgr@;
        let mut ready: Vec<(String, String)> = Vec::new();
        {
            let sorted_nodes = gpu_nodes_by_name(&self.nodes);
            let mut i: usize = 0;
            while i < sorted_nodes.len()
                invariant
                    i <= sorted_nodes@.len(),
                    sorted_nodes@.len() == roster(self.nodes@).len(),
                    forall|k: int|
                        0 <= k < sorted_nodes@.len() ==> *(#[trigger] sorted_nodes@[k]) == roster(
                            self.nodes@,
                        )[k],
                    ready@ == id_name_pairs(roster(self.nodes@)).subrange(0, i as int),
                decreases sorted_nodes@.len() - i,
            {
                let n = sorted_nodes[i];
                assert(*sorted_nodes@[i as int] == roster(self.nodes@)[i as int]);
                ready.push((n.node_id.clone(), n.node_name.clone()));
                i = i + 1;
                assert(id_name_pairs(roster(self.nodes@)).subrange(0, i as int) == id_name_pairs(
                    roster(self.nodes@),
                ).subrange(0, i - 1).push(ready@[i - 1]));
            }
        }
        assert(ready@ == id_name_pairs(roster(self.nodes@)));
        let sent = self.cluster_mgr.rebalance(ready.as_slice());
        let mut out: Vec<Outgoing<F>> = Vec::new();
        let mut i: usize = 0;
        while i < sent.len()
            invariant
                i <= sent@.len(),
                sent@.len() == ready@.len(),
                forall|k: int|
                    0 <= k < sent@.len() ==> {
                        &&& (#[trigger] sent@[k]).0 == ready@[k].0
                        &&& sent@[k].1 == split_start(ready@.len() as int, k)
                        &&& sent@[k].2 == split_start(ready@.len() as int, k + 1)
                        &&& sent@[k].3 == keeps_range(pre.active, ready@, k)
                        &&& sent@[k].4 == pre.next_gen
                    },
                out@.len() == i,
                forall|k: int|
                    0 <= k < i ==> (#[trigger] out@[k]) == (Outgoing::<F>::Send {
                        node_id: ready@[k].0,
                        message: CoordinatorMessage::LayerAssignment {
                            layer_start: split_start(ready@.len() as int, k) as usize,
                            layer_end: split_start(ready@.len() as int, k + 1) as usize,
                            skip_download: keeps_range(pre.active, ready@, k),
                            generation: pre.next_gen,
                        },
                    }),
            decreases sent@.len() - i,
        {
            let a = &sent[i];
            out.push(
                Outgoing::Send {
                    node_id: a.0.clone(),
                    message: CoordinatorMessage::LayerAssignment {
                        layer_start: a.1,
                        layer_end: a.2,
                        skip_download: a.3,
                        generation: a.4,
                    },
                },
            );
            i = i + 1;
        }
        out
    }

    /// The chain of the active generation; empty unless its nodes can serve and cover all
    /// layers.
    pub fn build_inference_chain(&self) -> (chain: Vec<ChainStep>)
        requires
            self.wf(),
        ensures
            chain@ == chain_of(self.nodes@, self.cluster_mgr@),
    {
        let slots = self.cluster_mgr.active_slots();
        let ghost gens = self.cluster_mgr@;
        let mut chain: Vec<ChainStep> = Vec::new();
        if slots.len() == 0 {
            return chain;
        }
        let mut i: usize = 0;
        while i < slots.len()
            invariant
                i <= slots@.len(),
                gens == self.cluster_mgr@,
                slots@.len() == hops(gens).len(),
                slots_match(slots@, hops(gens)),
                chain@.len() == i,
                forall|k: int| 0 <= k < i ==> #[trigger] chain@[k] == step_of(hops(gens)[k]),
                forall|k: int|
                    0 <= k < i ==> can_serve(self.nodes@, (#[trigger] hops(gens)[k]).node_id@),
            decreases slots@.len() - i,
        {
            let slot = &slots[i];
            assert(slot.node_id == hops(gens)[i as int].node_id);
            if !node_can_serve(&self.nodes, slot.node_id.as_str()) {
                assert(!can_serve(self.nodes@, hops(gens)[i as int].node_id@));
                return Vec::new();
            }
            chain.push(
                ChainStep {
                    node_id: slot.node_id.clone(),
                    layer_start: slot.layer_start,
                    layer_end: slot.layer_end,
                    is_last: slot.layer_end >= TOTAL_LAYERS,
                },
            );
            i = i + 1;
        }
        if !self.cluster_mgr.is_operational() {
            return Vec::new();
        }
        assert(chain@ == hops(gens).map_values(|s: NodeSlot| step_of(s)));
        chain
    }

    /// State of the cluster and of every node, by first layer.
    pub fn cluster_status(&self) -> (r: ClusterStatus)
        requires
            self.wf(),
        ensures
            is_status(self.nodes@, self.cluster_mgr@, r),
    {
        let ghost gens = self.cluster_mgr@;
        let active_slots = self.cluster_mgr.active_slots();
        let infra = self.cluster_mgr.snapshot();
        let sorted_nodes = gpu_nodes_by_name(&self.nodes);
        let fresh = assign_gpu_layers(sorted_nodes.as_slice());
        let mut nodes: Vec<NodeInferenceState> = Vec::new();
        let ghost show = |n: WsNode| display_state(self.nodes@, self.cluster_mgr@, n);
        let mut i: usize = 0;
        while i < self.nodes.len()
            invariant
                i <= self.nodes@.len(),
                self.wf(),
                gens == self.cluster_mgr@,
                active_slots@.len() == hops(gens).len(),
                slots_match(active_slots@, hops(gens)),
                infra.pending is Some == gens.pending is Some,
                infra.pending is Some ==> infra.pending->0.nodes@ == gens.pending->0.slots@,
                fresh@.len() == roster(self.nodes@).len(),
                fresh_match(fresh@, roster(self.nodes@)),
                show == (|n: WsNode| display_state(self.nodes@, self.cluster_mgr@, n)),
                nodes@ == sorted(self.nodes@.subrange(0, i as int).map_values(show), start_le()),
            decreases self.nodes@.len() - i,
        {
            let node = &self.nodes[i];
            let (start, end) = if active_slots.len() > 0 {
                range_in_slots(&active_slots, node.node_id.as_str(), Ghost(hops(gens)))
            } else {
                match &infra.pending {
                    Some(p) => range_in_nodes(&p.nodes, node.node_id.as_str()),
                    None => range_in_fresh(
                        &fresh,
                        node.node_id.as_str(),
                        Ghost(roster(self.nodes@)),
                    ),
                }
            };
            let state = NodeInferenceState {
                node_name: node.node_name.clone(),
                state: node.state.clone(),
                detail: node.state_detail.clone(),
                layer_start: start,
                layer_end: end,
                client_version: node.client_version.clone(),
                os: node.os.clone(),
            };
            assert(state == show(self.nodes@[i as int]));
            let ghost done = nodes@;
            let ghost after = |y: NodeInferenceState| !start_le()(y, state);
            let mut k: usize = 0;
            while k < nodes.len() && nodes[k].layer_start <= state.layer_start
                invariant
                    k <= nodes@.len(),
                    done == nodes@,
                    after == (|y: NodeInferenceState| !start_le()(y, state)),
                    forall|j: int| 0 <= j < k ==> !after(#[trigger] done[j]),
                decreases nodes@.len() - k,
            {
                k = k + 1;
            }
            proof {
                lemma_first_index_is(done, after, k as int);
                let all = self.nodes@.subrange(0, i + 1).map_values(show);
                assert(all.drop_last() == self.nodes@.subrange(0, i as int).map_values(show));
                assert(all.last() == state);
            }
            nodes.insert(k, state);
            i = i + 1;
        }
        assert(self.nodes@.subrange(0, self.nodes@.len() as int) == self.nodes@);
        let mut serve: bool = active_slots.len() > 0;
        let mut j: usize = 0;
        while j < active_slots.len()
            invariant
                j <= active_slots@.len(),
                gens == self.cluster_mgr@,
                active_slots@.len() == hops(gens).len(),
                slots_match(active_slots@, hops(gens)),
                serve == (hops(gens).len() > 0 && forall|k: int|
                    0 <= k < j ==> can_serve(self.nodes@, (#[trigger] hops(gens)[k]).node_id@)),
            decreases active_slots@.len() - j,
        {
            assert(active_slots@[j as int].node_id == hops(gens)[j as int].node_id);
            if !node_can_serve(&self.nodes, active_slots[j].node_id.as_str()) {
                serve = false;
            }
            j = j + 1;
        }
        let operational = self.cluster_mgr.is_operational() && serve;
        let status = if operational {
            "operational".to_owned()
        } else if self.nodes.len() == 0 {
            "no_nodes".to_owned()
        } else {
            "forming".to_owned()
        };
        ClusterStatus { status, nodes }
    }

    /// Gives a request up, if it is still under way. Returns whether it was.
    pub fn fail_pending_request(&mut self, request_id: &str) -> (removed: bool)
        requires
            old(self).wf(),
        ensures
            final(self).wf(),
            request_failed(*old(self), request_id@, *final(self)),
            removed == (request_index(old(self).pending_forwards@, request_id@) < old(
                self,
            ).pending_forwards@.len()),
    {
        let k = find_request(&self.pending_forwards, request_id);
        if k < self.pending_forwards.len() {
            let gone = self.pending_forwards.remove(k);
            release_in_flight(&gone.1, &mut self.cluster_mgr);
            true
        } else {
            false
        }
    }

    /// Takes the hidden states that a node sent for a request and says where they go next.
    pub fn route_forward_result(&mut self, request_id: &str, hidden_states: &Vec<u8>) -> (hop:
        Option<ForwardHop<F>>)
        requires
            old(self).wf(),
            forall|i: int|
                0 <= i < old(self).pending_forwards@.len() ==> (#[trigger] old(
                    self,
                ).pending_forwards@[i]).1.current_step < usize::MAX,
        ensures
            final(self).wf(),
            forward_routed(*old(self), request_id@, hidden_states@, *final(self), hop),
    {
        let k = find_request(&self.pending_forwards, request_id);
        if k >= self.pending_forwards.len() {
            return None;
        }
        self.pending_forwards[k].1.hidden_data.clear();
        self.pending_forwards[k].1.current_step = self.pending_forwards[k].1.current_step + 1;
        let p = &self.pending_forwards[k].1;
        if p.current_step >= p.chain.len() {
            return None;
        }
        let next = &p.chain[p.current_step];
        let message = CoordinatorMessage::InferenceForward {
            request_id: request_id.to_owned(),
            hidden_states_ref: String::new(),
            layer_start: next.layer_start,
            layer_end: next.layer_end,
            is_last: next.is_last,
            temperature: if next.is_last {
                Some(p.temperature)
            } else {
                None
            },
            top_p: if next.is_last {
                p.top_p
            } else {
                None
            },
            top_k: if next.is_last {
                p.top_k
            } else {
                None
            },
        };
        Some(
            ForwardHop {
                node_id: next.node_id.clone(),
                message,
                payload: binary_payload(request_id, hidden_states),
                request_id: request_id.to_owned(),
            },
        )
    }

    /// Takes a binary frame of a node; one that is too short to name a request is ignored.
    pub fn handle_binary_data(&mut self, data: &Vec<u8>) -> (hop: Option<ForwardHop<F>>)
        requires
            old(self).wf(),
            forall|i: int|
                0 <= i < old(self).pending_forwards@.len() ==> (#[trigger] old(
                    self,
                ).pending_forwards@[i]).1.current_step < usize::MAX,
        ensures
            final(self).wf(),
            data@.len() < crate::frames::REQUEST_ID_LEN ==> *final(self) == *old(self)
                && hop is None,
            data@.len() >= crate::frames::REQUEST_ID_LEN ==> exists|id: Seq<char>, hidden: Seq<u8>|
                #[trigger] payload_holds(data@, id, hidden) && forward_routed(
                    *old(self),
                    id,
                    hidden,
                    *final(self),
                    hop,
                ),
    {
        match parse_binary_payload(data) {
            None => None,
            Some((request_id, hidden)) => {
                let hop = self.route_forward_result(request_id.as_str(), &hidden);
                assert(payload_holds(data@, request_id@, hidden@));
                hop
            },
        }
    }

    /// Takes a token that the last node generated.
    pub fn handle_generated_token(&mut self, request_id: &str, token_id: u32, is_eos: bool) -> (out:
        Vec<Outgoing<F>>)
        requires
            old(self).wf(),
        ensures
            final(self).wf(),
            token_handled(*old(self), request_id@, token_id, is_eos, *final(self), out@),
    {
        let mut out: Vec<Outgoing<F>> = Vec::new();
        let k = find_request(&self.pending_forwards, request_id);
        if k >= self.pending_forwards.len() {
            return out;
        }
        self.pending_forwards[k].1.generated.push(token_id);
        let finished: bool = is_eos || self.pending_forwards[k].1.generated.len()
            >= self.pending_forwards[k].1.max_tokens;
        if finished {
            let (_, done) = self.pending_forwards.remove(k);
            release_in_flight(&done, &mut self.cluster_mgr);
            let cluster = report_hops(&done.chain);
            let mut ends = end_messages(&done.chain, request_id);
            let ghost sent_ends = ends@;
            out.push(
                Outgoing::Completed {
                    request_id: request_id.to_owned(),
                    result: InferenceResult {
                        text: String::new(),
                        tokens: done.generated.len(),
                        cluster,
                        generated_ids: done.generated,
                    },
                },
            );
            out.append(&mut ends);
            assert(out@.subrange(1, out@.len() as int) == sent_ends);
            assert(self.pending_forwards@ == old(self).pending_forwards@.remove(k as int));
            out
        } else {
            self.pending_forwards[k].1.current_step = 0;
            let p = &self.pending_forwards[k].1;
            let first = &p.chain[0];
            out.push(
                Outgoing::SendOrFail {
                    node_id: first.node_id.clone(),
                    message: CoordinatorMessage::InferenceContinue {
                        request_id: request_id.to_owned(),
                        new_token_id: token_id,
                        layer_start: first.layer_start,
                        layer_end: first.layer_end,
                        max_tokens: p.max_tokens,
                        temperature: p.temperature,
                        top_p: p.top_p,
                        top_k: p.top_k,
                    },
                    request_id: request_id.to_owned(),
                },
            );
            out
        }
    }
}

/// A node that has just registered.
pub open spec fn is_new_node(
    node: WsNode,
    node_id: Seq<char>,
    node_name: String,
    has_gpu: bool,
    ram_mb: u64,
    client_version: String,
    os: String,
) -> bool {
    &&& node.node_id@ == node_id
    &&& node.node_name == node_name
    &&& node.has_gpu == has_gpu
    &&& node.ram_mb == ram_mb
    &&& node.state@ == "connecting"@
    &&& node.state_detail@.len() == 0
    &&& node.client_version == client_version
    &&& node.os == os
}

/// A message of the node behind a connection was taken.
pub open spec fn message_handled<F>(
    pre: WsState<F>,
    node_id: Seq<char>,
    msg: ClientMessage<F>,
    model_available: bool,
    now: u64,
    post: WsState<F>,
    out: Seq<Outgoing<F>>,
) -> bool {
    match msg {
        ClientMessage::Register {
            node_name,
            hardware_info,
            models,
            ram_mb,
            has_gpu,
            layer_range,
            client_version,
            os,
        } => exists|node: WsNode| #[trigger]
            is_new_node(node, node_id, node_name, has_gpu, ram_mb, client_version, os)
                && registered(pre, node, model_available, now, post, out),
        ClientMessage::StateUpdate { state, detail } => state_taken(
            pre,
            node_id,
            state,
            detail,
            post,
        ) && out.len() == 0,
        ClientMessage::TokenGenerated { request_id, token_id, is_eos } => token_handled(
            pre,
            request_id@,
            token_id,
            is_eos,
            post,
            out,
        ),
        _ => post == pre && out.len() == 0,
    }
}

proof fn lemma_keep_distinct(nodes: Seq<WsNode>, p: spec_fn(WsNode) -> bool)
    requires
        distinct_nodes(nodes),
    ensures
        distinct_nodes(keep(nodes, p)),
    decreases nodes.len(),
{
    if nodes.len() > 0 {
        let init = nodes.drop_last();
        lemma_keep_distinct(init, p);
        lemma_keep_members(init, p);
        let kept = keep(nodes, p);
        if p(nodes.last()) {
            assert forall|i: int| 0 <= i < keep(init, p).len() implies (
            #[trigger] kept[i]).node_id@ != nodes.last().node_id@ && kept[i].node_name@
                != nodes.last().node_name@ by {
                let m = choose|m: int| 0 <= m < init.len() && init[m] == keep(init, p)[i];
                assert(nodes[m] == init[m]);
                assert(nodes[nodes.len() - 1] == nodes.last());
            }
        }
    }
}

proof fn lemma_register_distinct(nodes: Seq<WsNode>, node: WsNode)
    requires
        distinct_nodes(nodes),
    ensures
        distinct_nodes(nodes_after_register(nodes, node)),
{
    let p = |n: WsNode| !(n.node_name@ == node.node_name@ && n.node_id@ != node.node_id@);
    let kept = keep(nodes, p);
    lemma_keep_distinct(nodes, p);
    lemma_keep_members(nodes, p);
    let q = |n: WsNode| n.node_id@ == node.node_id@;
    crate::seqs::lemma_index_from(kept, q, 0);
    let k = node_index(kept, node.node_id@);
    let post = nodes_after_register(nodes, node);
    assert forall|i: int| 0 <= i < kept.len() && i != k implies (#[trigger] kept[i]).node_id@
        != node.node_id@ && kept[i].node_name@ != node.node_name@ by {
        assert(p(kept[i]));
        if k < kept.len() && kept[i].node_id@ == node.node_id@ {
            if i < k {
                assert(!q(kept[i]));
            } else {
                assert(kept[k].node_id@ != kept[i].node_id@);
            }
        }
        if k == kept.len() {
            assert(!q(kept[i]));
        }
    }
}

proof fn lemma_keep_requests<F>(
    pending: Seq<(String, PendingForward<F>)>,
    p: spec_fn((String, PendingForward<F>)) -> bool,
)
    requires
        distinct_requests(pending),
        forall|j: int| 0 <= j < pending.len() ==> request_wf((#[trigger] pending[j]).1),
    ensures
        distinct_requests(keep(pending, p)),
        forall|j: int|
            0 <= j < keep(pending, p).len() ==> request_wf((#[trigger] keep(pending, p)[j]).1),
    decreases pending.len(),
{
    if pending.len() > 0 {
        let init = pending.drop_last();
        assert(forall|j: int| 0 <= j < init.len() ==> init[j] == pending[j]);
        lemma_keep_requests(init, p);
        lemma_keep_members(init, p);
        let kept = keep(pending, p);
        if p(pending.last()) {
            assert(pending[pending.len() - 1] == pending.last());
            assert forall|i: int| 0 <= i < keep(init, p).len() implies (#[trigger] kept[i]).0@
                != pending.last().0@ by {
                let m = choose|m: int| 0 <= m < init.len() && init[m] == keep(init, p)[i];
                assert(pending[m] == init[m]);
            }
        }
    }
}

/// The end of a connection and what follows from it.
pub open spec fn disconnected<F>(
    pre: WsState<F>,
    id: Seq<char>,
    model_available: bool,
    now: u64,
    post: WsState<F>,
    failed: Seq<String>,
    out: Seq<Outgoing<F>>,
) -> bool {
    let k = node_index(pre.nodes@, id);
    let known = k < pre.nodes@.len();
    let gone = keep(
        pre.pending_forwards@,
        |e: (String, PendingForward<F>)| waits_for(e, id),
    );
    let gens = released_all(pre.cluster_mgr@, gone);
    &&& post.nodes@ == if known {
        pre.nodes@.remove(k)
    } else {
        pre.nodes@
    }
    &&& post.pending_forwards@ == keep(
        pre.pending_forwards@,
        |e: (String, PendingForward<F>)| !waits_for(e, id),
    )
    &&& failed.len() == gone.len()
    &&& forall|i: int| 0 <= i < failed.len() ==> #[trigger] failed[i] == gone[i].0
    &&& if known && pre.nodes@[k].node_name@.len() > 0 {
        stats_disconnected(pre.node_stats@, pre.nodes@[k].node_name@, now, post.node_stats@)
    } else {
        post.node_stats@ == pre.node_stats@
    }
    &&& if known && pre.nodes@[k].has_gpu && model_available {
        rebalance_done(gens, post.nodes@, post.cluster_mgr@, out)
    } else {
        post.cluster_mgr@ == gens && out.len() == 0
    }
}

impl<F: Copy> WsState<F> {
    /// Registers a connection: other connections under the name are dropped, and a GPU node
    /// brings about a rebalance where the coordinator has the model.
    pub fn register_node(&mut self, node: WsNode, model_available: bool, now: u64) -> (out: Vec<
        Outgoing<F>,
    >)
        requires
            old(self).wf(),
            old(self).cluster_mgr@.next_gen < u64::MAX,
        ensures
            final(self).wf(),
            registered(*old(self), node, model_available, now, *final(self), out@),
    {
        let ghost pre = self.nodes@;
        let ghost p = |n: WsNode|
            !(n.node_name@ == node.node_name@ && n.node_id@ != node.node_id@);
        let ghost mut seen: int = 0;
        let mut i: usize = 0;
        assert(pre.subrange(0, pre.len() as int) == pre);
        while i < self.nodes.len()
            invariant
                0 <= seen <= pre.len(),
                i <= self.nodes@.len(),
                p == (|n: WsNode|
                    !(n.node_name@ == node.node_name@ && n.node_id@ != node.node_id@)),
                i == keep(pre.subrange(0, seen), p).len(),
                self.nodes@ == keep(pre.subrange(0, seen), p) + pre.subrange(
                    seen,
                    pre.len() as int,
                ),
                self.pending_forwards == old(self).pending_forwards,
                self.cluster_mgr == old(self).cluster_mgr,
                self.node_stats == old(self).node_stats,
            decreases pre.len() - seen,
        {
            proof {
                lemma_keep_step(pre, p, seen);
                assert(self.nodes@[i as int] == pre[seen]);
            }
            let stale = self.nodes[i].node_name == node.node_name && self.nodes[i].node_id
                != node.node_id;
            if stale {
                let gone = self.nodes.remove(i);
                assert(self.nodes@ == keep(pre.subrange(0, seen + 1), p) + pre.subrange(
                    seen + 1,
                    pre.len() as int,
                ));
            } else {
                i = i + 1;
                assert(self.nodes@ == keep(pre.subrange(0, seen + 1), p) + pre.subrange(
                    seen + 1,
                    pre.len() as int,
                ));
            }
            proof {
                seen = seen + 1;
            }
        }
        proof {
            assert(seen == pre.len());
            assert(self.nodes@ == keep(pre, p));
            lemma_register_distinct(pre, node);
        }
        let has_gpu = node.has_gpu;
        let name = node.node_name.clone();
        let k = find_node(&self.nodes, node.node_id.as_str());
        if k < self.nodes.len() {
            self.nodes[k] = node;
        } else {
            self.nodes.push(node);
        }
        assert(self.nodes@ == nodes_after_register(pre, node));
        self.node_stats.on_connect(name.as_str(), now);
        if has_gpu && model_available {
            self.trigger_rebalance()
        } else {
            Vec::new()
        }
    }

    /// Takes a state report of a node.
    pub fn update_node_state(&mut self, node_id: &str, node_state: String, detail: String)
        requires
            old(self).wf(),
        ensures
            final(self).wf(),
            state_taken(*old(self), node_id@, node_state, detail, *final(self)),
    {
        let k = find_node(&self.nodes, node_id);
        if k < self.nodes.len() {
            self.nodes[k].state = node_state.clone();
            self.nodes[k].state_detail = detail;
        }
        assert(self.nodes@ == nodes_after_state(old(self).nodes@, node_id@, node_state, detail));
        if str_eq(node_state.as_str(), "ready") {
            let promoted = self.cluster_mgr.node_ready(node_id);
        } else if str_eq(node_state.as_str(), "reinitializing") {
            self.cluster_mgr.node_reinitializing(node_id);
        }
    }

    /// Takes a message of the node behind the connection `node_id`.
    pub fn handle_client_message(
        &mut self,
        node_id: &str,
        msg: ClientMessage<F>,
        model_available: bool,
        now: u64,
    ) -> (out: Vec<Outgoing<F>>)
        requires
            old(self).wf(),
            old(self).cluster_mgr@.next_gen < u64::MAX,
        ensures
            final(self).wf(),
            message_handled(
                *old(self),
                node_id@,
                msg,
                model_available,
                now,
                *final(self),
                out@,
            ),
    {
        match msg {
            ClientMessage::Register {
                node_name,
                hardware_info,
                models,
                ram_mb,
                has_gpu,
                layer_range,
                client_version,
                os,
            } => {
                let node = WsNode {
                    node_id: node_id.to_owned(),
                    node_name,
                    has_gpu,
                    ram_mb,
                    state: "connecting".to_owned(),
                    state_detail: String::new(),
                    client_version,
                    os,
                };
                assert(is_new_node(
                    node,
                    node_id@,
                    node_name,
                    has_gpu,
                    ram_mb,
                    client_version,
                    os,
                ));
                self.register_node(node, model_available, now)
            },
            ClientMessage::StateUpdate { state, detail } => {
                self.update_node_state(node_id, state, detail);
                Vec::new()
            },
            ClientMessage::TokenGenerated { request_id, token_id, is_eos } => {
                self.handle_generated_token(request_id.as_str(), token_id, is_eos)
            },
            _ => Vec::new(),
        }
    }

    /// Takes the end of the connection `node_id`: the node is gone, requests that wait for
    /// it fail, and the end of a GPU node brings about a rebalance where the coordinator has
    /// the model. Returns the failed requests and what is to be sent.
    pub fn handle_disconnect(&mut self, node_id: &str, model_available: bool, now: u64) -> (r: (
        Vec<String>,
        Vec<Outgoing<F>>,
    ))
        requires
            old(self).wf(),
            old(self).cluster_mgr@.next_gen < u64::MAX,
            ({
                let k = node_index(old(self).nodes@, node_id@);
                k < old(self).nodes@.len() ==> can_end_session(
                    old(self).node_stats@,
                    old(self).nodes@[k].node_name@,
                    now,
                )
            }),
        ensures
            final(self).wf(),
            disconnected(*old(self), node_id@, model_available, now, *final(self), r.0@, r.1@),
    {
        let ghost pre_nodes = self.nodes@;
        let mut was_gpu: bool = false;
        let mut node_name = String::new();
        let k = find_node(&self.nodes, node_id);
        if k < self.nodes.len() {
            let gone = self.nodes.remove(k);
            was_gpu = gone.has_gpu;
            node_name = gone.node_name;
        }
        let ghost pre = self.pending_forwards@;
        let ghost stay = |e: (String, PendingForward<F>)| !waits_for(e, node_id@);
        let ghost go = |e: (String, PendingForward<F>)| waits_for(e, node_id@);
        let ghost gens = self.cluster_mgr@;
        let ghost nodes_left = self.nodes;
        let mut failed: Vec<String> = Vec::new();
        let ghost mut seen: int = 0;
        let mut i: usize = 0;
        assert(pre.subrange(0, pre.len() as int) == pre);
        while i < self.pending_forwards.len()
            invariant
                0 <= seen <= pre.len(),
                i <= self.pending_forwards@.len(),
                stay == (|e: (String, PendingForward<F>)| !waits_for(e, node_id@)),
                go == (|e: (String, PendingForward<F>)| waits_for(e, node_id@)),
                distinct_requests(pre),
                forall|j: int| 0 <= j < pre.len() ==> request_wf((#[trigger] pre[j]).1),
                i == keep(pre.subrange(0, seen), stay).len(),
                self.pending_forwards@ == keep(pre.subrange(0, seen), stay) + pre.subrange(
                    seen,
                    pre.len() as int,
                ),
                self.cluster_mgr@.wf(),
                self.cluster_mgr@ == released_all(gens, keep(pre.subrange(0, seen), go)),
                failed@.len() == keep(pre.subrange(0, seen), go).len(),
                forall|j: int|
                    0 <= j < failed@.len() ==> #[trigger] failed@[j] == keep(
                        pre.subrange(0, seen),
                        go,
                    )[j].0,
                self.cluster_mgr@.next_gen == gens.next_gen,
                self.nodes == nodes_left,
                self.node_stats == old(self).node_stats,
            decreases pre.len() - seen,
        {
            proof {
                lemma_keep_step(pre, stay, seen);
                lemma_keep_step(pre, go, seen);
                assert(self.pending_forwards@[i as int] == pre[seen]);
            }
            let step: usize = self.pending_forwards[i].1.current_step;
            let waits: bool = step < self.pending_forwards[i].1.chain.len() && str_eq(
                self.pending_forwards[i].1.chain[step].node_id.as_str(),
                node_id,
            );
            if waits {
                let (id, gone) = self.pending_forwards.remove(i);
                release_in_flight(&gone, &mut self.cluster_mgr);
                failed.push(id);
                proof {
                    let g = keep(pre.subrange(0, seen), go);
                    assert(g.push(pre[seen]).drop_last() == g);
                }
            } else {
                i = i + 1;
            }
            assert(self.pending_forwards@ == keep(pre.subrange(0, seen + 1), stay) + pre.subrange(
                seen + 1,
                pre.len() as int,
            ));
            proof {
                seen = seen + 1;
            }
        }
        proof {
            assert(seen == pre.len());
            assert(self.pending_forwards@ == keep(pre, stay));
            lemma_keep_requests(pre, stay);
        }
        if !node_name.as_str().is_empty() {
            self.node_stats.on_disconnect(node_name.as_str(), now);
        }
        let out = if was_gpu && model_available {
            self.trigger_rebalance()
        } else {
            Vec::new()
        };
        (failed, out)
    }
}

/// The fields that an active slot shares with the slot of its generation.
pub open spec fn slots_match(a: Seq<ActiveSlot>, b: Seq<NodeSlot>) -> bool {
    &&& a.len() == b.len()
    &&& forall|i: int|
        0 <= i < a.len() ==> {
            &&& (#[trigger] a[i]).node_id == b[i].node_id
            &&& a[i].layer_start == b[i].layer_start
            &&& a[i].layer_end == b[i].layer_end
        }
}

pub open spec fn fresh_match(a: Seq<(String, usize, usize)>, b: Seq<WsNode>) -> bool {
    &&& a.len() == b.len()
    &&& forall|i: int|
        0 <= i < a.len() ==> {
            &&& (#[trigger] a[i]).0 == b[i].node_id
            &&& a[i].1 == split_start(b.len() as int, i)
            &&& a[i].2 == split_start(b.len() as int, i + 1)
        }
}

proof fn lemma_last_slot_is(slots: Seq<NodeSlot>, id: Seq<char>, k: int)
    requires
        0 <= k <= slots.len(),
        k > 0 ==> slots[k - 1].node_id@ == id,
        forall|j: int| k <= j < slots.len() ==> (#[trigger] slots[j]).node_id@ != id,
    ensures
        last_slot(slots, id) == if k > 0 {
            Some(slots[k - 1])
        } else {
            None
        },
    decreases slots.len(),
{
    if k < slots.len() {
        let init = slots.drop_last();
        assert(slots.last() == slots[slots.len() - 1]);
        if k > 0 {
            assert(init[k - 1] == slots[k - 1]);
        }
        lemma_last_slot_is(init, id, k);
    }
}

fn range_in_slots(slots: &Vec<ActiveSlot>, id: &str, Ghost(of): Ghost<Seq<NodeSlot>>) -> (r: (
    usize,
    usize,
))
    requires
        slots_match(slots@, of),
    ensures
        (r.0 as int, r.1 as int) == slot_range(of, id@),
{
    let mut k: usize = slots.len();
    while k > 0
        invariant
            k <= slots@.len(),
            slots_match(slots@, of),
            forall|j: int| k <= j < of.len() ==> (#[trigger] of[j]).node_id@ != id@,
        decreases k,
    {
        let s = &slots[k - 1];
        assert(s.node_id == of[k - 1].node_id);
        if str_eq(s.node_id.as_str(), id) {
            proof {
                lemma_last_slot_is(of, id@, k as int);
            }
            return (s.layer_start, s.layer_end);
        }
        k = k - 1;
    }
    proof {
        lemma_last_slot_is(of, id@, 0);
    }
    (0, 0)
}

fn range_in_nodes(slots: &Vec<NodeSlot>, id: &str) -> (r: (usize, usize))
    ensures
        (r.0 as int, r.1 as int) == slot_range(slots@, id@),
{
    let mut k: usize = slots.len();
    while k > 0
        invariant
            k <= slots@.len(),
            forall|j: int| k <= j < slots@.len() ==> (#[trigger] slots@[j]).node_id@ != id@,
        decreases k,
    {
        let s = &slots[k - 1];
        if str_eq(s.node_id.as_str(), id) {
            proof {
                lemma_last_slot_is(slots@, id@, k as int);
            }
            return (s.layer_start, s.layer_end);
        }
        k = k - 1;
    }
    proof {
        lemma_last_slot_is(slots@, id@, 0);
    }
    (0, 0)
}

fn range_in_fresh(
    fresh: &Vec<(String, usize, usize)>,
    id: &str,
    Ghost(of): Ghost<Seq<WsNode>>,
) -> (r: (usize, usize))
    requires
        fresh_match(fresh@, of),
    ensures
        ({
            let k = node_index(of, id@);
            (r.0 as int, r.1 as int) == if k < of.len() {
                (split_start(of.len() as int, k), split_start(of.len() as int, k + 1))
            } else {
                (0, 0)
            }
        }),
{
    let ghost p = |n: WsNode| n.node_id@ == id@;
    let mut k: usize = 0;
    while k < fresh.len()
        invariant
            k <= fresh@.len(),
            fresh_match(fresh@, of),
            p == (|n: WsNode| n.node_id@ == id@),
            forall|j: int| 0 <= j < k ==> !p(#[trigger] of[j]),
        decreases fresh@.len() - k,
    {
        assert(fresh@[k as int].0 == of[k as int].node_id);
        if str_eq(fresh[k].0.as_str(), id) {
            proof {
                lemma_first_index_is(of, p, k as int);
            }
            return (fresh[k].1, fresh[k].2);
        }
        k = k + 1;
    }
    proof {
        lemma_first_index_is(of, p, k as int);
    }
    (0, 0)
}

// ── Starting and abandoning requests ─────────────────────────────────────────

/// Why a request is not started.
#[derive(Debug, Clone, Copy, PartialEq, Eq, Structural)]
pub enum InferenceRefusal {
    /// The prompt is empty.
    PromptRequired,
    /// There is no active generation.
    NotOperational,
    /// The nodes of the active generation cannot serve.
    NoNodes,
}

impl InferenceRefusal {
    /// The error that the client is shown.
    pub fn message(&self) -> (s: &'static str)
        ensures
            s@ == match *self {
                InferenceRefusal::PromptRequired => "prompt required"@,
                InferenceRefusal::NotOperational => "Inference cluster not operational"@,
                InferenceRefusal::NoNodes => "No inference nodes connected via WebSocket"@,
            },
    {
        match self {
            InferenceRefusal::PromptRequired => "prompt required",
            InferenceRefusal::NotOperational => "Inference cluster not operational",
            InferenceRefusal::NoNodes => "No inference nodes connected via WebSocket",
        }
    }

    /// Advice that goes with the error.
    pub fn hint(&self) -> (s: Option<&'static str>)
        ensures
            match *self {
                InferenceRefusal::PromptRequired => s is None,
                InferenceRefusal::NotOperational => s is Some && s->0@
                    == "Wait until GET /api/v1/cluster/status reports operational (all GPU nodes ready on an active generation)"@,
                InferenceRefusal::NoNodes => s is Some && s->0@
                    == "Start Mac node with coordinator_url pointing to this coordinator, wait for nodes to download layers"@,
            },
    {
        match self {
            InferenceRefusal::PromptRequired => None,
            InferenceRefusal::NotOperational => Some(
                "Wait until GET /api/v1/cluster/status reports operational (all GPU nodes ready on an active generation)",
            ),
            InferenceRefusal::NoNodes => Some(
                "Start Mac node with coordinator_url pointing to this coordinator, wait for nodes to download layers",
            ),
        }
    }
}

/// The generations with one more request on the active one.
pub open spec fn counted(pre: Generations) -> Generations {
    match pre.active {
        Some(g) => Generations {
            active: Some(Generation { in_flight: g.in_flight.wrapping_add(1), ..g }),
            ..pre
        },
        None => pre,
    }
}

/// What becomes of a request before its prompt is looked at.
pub open spec fn refusal(prompt: Seq<char>, nodes: Seq<WsNode>, gens: Generations) -> Option<
    InferenceRefusal,
> {
    if prompt.len() == 0 {
        Some(InferenceRefusal::PromptRequired)
    } else if gens.active is None {
        Some(InferenceRefusal::NotOperational)
    } else if !chain_complete(nodes, gens) {
        Some(InferenceRefusal::NoNodes)
    } else {
        None
    }
}

/// A request as it is when its first node gets it.
pub open spec fn is_started<F>(
    p: PendingForward<F>,
    guard: InFlightGuard,
    chain: Seq<ChainStep>,
    token_ids: Seq<u32>,
    max_tokens: usize,
    temperature: F,
    top_p: Option<F>,
    top_k: Option<u32>,
) -> bool {
    &&& p.hidden_data@.len() == 0
    &&& p.chain@ == chain
    &&& p.current_step == 0
    &&& p.token_ids@ == token_ids
    &&& p.generated@.len() == 0
    &&& p.max_tokens == max_tokens
    &&& p.temperature == temperature
    &&& p.top_p == top_p
    &&& p.top_k == top_k
    &&& p.in_flight_guard == Some(guard)
}

pub open spec fn is_start_message<F>(
    o: Outgoing<F>,
    request_id: Seq<char>,
    chain: Seq<ChainStep>,
    ids: Seq<u32>,
    max: usize,
    temp: F,
    p: Option<F>,
    k: Option<u32>,
) -> bool {
    match o {
        Outgoing::SendOrFail { node_id, message, request_id: r } => {
            &&& r@ == request_id
            &&& node_id == chain[0].node_id
            &&& match message {
                CoordinatorMessage::InferenceStart {
                    request_id: rid,
                    token_ids,
                    layer_start,
                    layer_end,
                    max_tokens,
                    temperature,
                    top_p,
                    top_k,
                } => {
                    &&& rid@ == request_id
                    &&& token_ids@ == ids
                    &&& layer_start == chain[0].layer_start
                    &&& layer_end == chain[0].layer_end
                    &&& max_tokens == max
                    &&& temperature == Some(temp)
                    &&& top_p == p
                    &&& top_k == k
                },
                _ => false,
            }
        },
        _ => false,
    }
}

/// The requests with `entry`, in place of an earlier one with its id.
pub open spec fn with_request<F>(
    pending: Seq<(String, PendingForward<F>)>,
    entry: (String, PendingForward<F>),
) -> Seq<(String, PendingForward<F>)> {
    let k = request_index(pending, entry.0@);
    if k < pending.len() {
        pending.update(k, (pending[k].0, entry.1))
    } else {
        pending.push(entry)
    }
}

/// A request was counted and its chain fixed, or it was refused.
pub open spec fn is_begun<F>(
    pre: WsState<F>,
    prompt: Seq<char>,
    post: WsState<F>,
    r: Result<(InFlightGuard, Vec<ChainStep>), InferenceRefusal>,
) -> bool {
    &&& post.nodes@ == pre.nodes@
    &&& post.pending_forwards@ == pre.pending_forwards@
    &&& post.node_stats@ == pre.node_stats@
    &&& match refusal(prompt, pre.nodes@, pre.cluster_mgr@) {
        Some(why) => {
            &&& r == Err::<(InFlightGuard, Vec<ChainStep>), InferenceRefusal>(why)
            &&& post.cluster_mgr@ == if why == InferenceRefusal::NoNodes {
                counted(pre.cluster_mgr@).request_ended(pre.cluster_mgr@.active->0.gen)
            } else {
                pre.cluster_mgr@
            }
        },
        None => {
            &&& r is Ok
            &&& (r->Ok_0).0.generation == pre.cluster_mgr@.active->0.gen
            &&& (r->Ok_0).1@ == chain_of(pre.nodes@, pre.cluster_mgr@)
            &&& (r->Ok_0).1@.len() >= 1
            &&& post.cluster_mgr@ == counted(pre.cluster_mgr@)
        },
    }
}

/// A request was put on its way.
pub open spec fn is_submitted<F>(
    pre: WsState<F>,
    request_id: String,
    guard: InFlightGuard,
    chain: Seq<ChainStep>,
    token_ids: Seq<u32>,
    max_tokens: usize,
    temperature: F,
    top_p: Option<F>,
    top_k: Option<u32>,
    post: WsState<F>,
    out: Outgoing<F>,
) -> bool {
    &&& post.nodes@ == pre.nodes@
    &&& post.node_stats@ == pre.node_stats@
    &&& post.cluster_mgr@ == pre.cluster_mgr@
    &&& exists|p: PendingForward<F>| #[trigger]
        is_started(p, guard, chain, token_ids, max_tokens, temperature, top_p, top_k)
            && post.pending_forwards@ == with_request(pre.pending_forwards@, (request_id, p))
    &&& is_start_message(
        out,
        request_id@,
        chain,
        token_ids,
        max_tokens,
        temperature,
        top_p,
        top_k,
    )
}

fn copy_ids(ids: &Vec<u32>) -> (r: Vec<u32>)
    ensures
        r@ == ids@,
{
    let mut r: Vec<u32> = Vec::new();
    let mut i: usize = 0;
    while i < ids.len()
        invariant
            i <= ids@.len(),
            r@ == ids@.subrange(0, i as int),
        decreases ids@.len() - i,
    {
        r.push(ids[i]);
        i = i + 1;
        assert(ids@.subrange(0, i as int) == ids@.subrange(0, i - 1).push(ids@[i - 1]));
    }
    assert(ids@.subrange(0, ids@.len() as int) == ids@);
    r
}

impl<F: Copy> WsState<F> {
    /// Counts a request on the active generation and fixes the chain that it will take,
    /// before its prompt is tokenized.
    pub fn begin_inference(&mut self, prompt: &str) -> (r: Result<
        (InFlightGuard, Vec<ChainStep>),
        InferenceRefusal,
    >)
        requires
            old(self).wf(),
        ensures
            final(self).wf(),
            is_begun(*old(self), prompt@, *final(self), r),
    {
        if prompt.is_empty() {
            return Err(InferenceRefusal::PromptRequired);
        }
        let guard = match self.cluster_mgr.request_start() {
            Some(g) => g,
            None => {
                return Err(InferenceRefusal::NotOperational);
            },
        };
        proof {
            lemma_counting_keeps_chain(self.nodes@, old(self).cluster_mgr@);
        }
        let chain = self.build_inference_chain();
        if chain.len() == 0 {
            self.cluster_mgr.request_end(&guard);
            return Err(InferenceRefusal::NoNodes);
        }
        Ok((guard, chain))
    }

    /// Puts a request on its way; its first node gets the tokens.
    pub fn submit_inference(
        &mut self,
        request_id: String,
        guard: InFlightGuard,
        chain: Vec<ChainStep>,
        token_ids: Vec<u32>,
        max_tokens: usize,
        temperature: F,
        top_p: Option<F>,
        top_k: Option<u32>,
    ) -> (out: Outgoing<F>)
        requires
            old(self).wf(),
            chain@.len() >= 1,
        ensures
            final(self).wf(),
            is_submitted(
                *old(self),
                request_id,
                guard,
                chain@,
                token_ids@,
                max_tokens,
                temperature,
                top_p,
                top_k,
                *final(self),
                out,
            ),
    {
        let first = chain[0].clone();
        let ids = copy_ids(&token_ids);
        let rid = request_id.clone();
        let p = PendingForward {
            hidden_data: Vec::new(),
            chain,
            current_step: 0,
            token_ids,
            generated: Vec::new(),
            max_tokens,
            temperature,
            top_p,
            top_k,
            in_flight_guard: Some(guard),
        };
        assert(is_started(
            p,
            guard,
            chain@,
            token_ids@,
            max_tokens,
            temperature,
            top_p,
            top_k,
        ));
        let k = find_request(&self.pending_forwards, request_id.as_str());
        if k < self.pending_forwards.len() {
            self.pending_forwards[k].1 = p;
        } else {
            self.pending_forwards.push((request_id, p));
        }
        Outgoing::SendOrFail {
            node_id: first.node_id,
            message: CoordinatorMessage::InferenceStart {
                request_id: rid.clone(),
                token_ids: ids,
                layer_start: first.layer_start,
                layer_end: first.layer_end,
                max_tokens,
                temperature: Some(temperature),
                top_p,
                top_k,
            },
            request_id: rid,
        }
    }

    /// Gives a request up that nobody waits for any more; its nodes drop what they keep.
    pub fn abandon_inference(&mut self, request_id: &str) -> (out: Vec<Outgoing<F>>)
        requires
            old(self).wf(),
        ensures
            final(self).wf(),
            request_failed(*old(self), request_id@, *final(self)),
            ({
                let k = request_index(old(self).pending_forwards@, request_id@);
                if k < old(self).pending_forwards@.len() {
                    ends_sent(out@, old(self).pending_forwards@[k].1.chain@, request_id@)
                } else {
                    out@.len() == 0
                }
            }),
    {
        let k = find_request(&self.pending_forwards, request_id);
        if k < self.pending_forwards.len() {
            let gone = self.pending_forwards.remove(k);
            release_in_flight(&gone.1, &mut self.cluster_mgr);
            end_messages(&gone.1.chain, request_id)
        } else {
            Vec::new()
        }
    }
}

proof fn lemma_counting_keeps_chain(nodes: Seq<WsNode>, gens: Generations)
    ensures
        hops(counted(gens)) == hops(gens),
        chain_complete(nodes, counted(gens)) == chain_complete(nodes, gens),
{
    if gens.active is Some {
        let a = gens.active;
        let b = counted(gens).active;
        assert(forall|layer: int| layer_served(a, layer) == #[trigger] layer_served(b, layer)) by {
            assert forall|layer: int| layer_served(a, layer) == #[trigger] layer_served(
                b,
                layer,
            ) by {
                assert(a->0.slots@ == b->0.slots@);
            }
        }
        if operational(b) {
            assert forall|layer: int| 0 <= layer < TOTAL_LAYERS implies #[trigger] layer_served(
                a,
                layer,
            ) by {
                assert(layer_served(b, layer));
            }
        }
    }
}

/// The ids of ordinary tokens among `ids`; the special ones come last in the vocabulary.
pub fn ordinary_tokens(ids: &Vec<u32>) -> (r: Vec<u32>)
    ensures
        r@ == keep(ids@, |id: u32| id < 151643),
{
    let ghost p = |id: u32| id < 151643;
    let mut r: Vec<u32> = Vec::new();
    let mut i: usize = 0;
    while i < ids.len()
        invariant
            i <= ids@.len(),
            p == (|id: u32| id < 151643),
            r@ == keep(ids@.subrange(0, i as int), p),
        decreases ids@.len() - i,
    {
        proof {
            lemma_keep_step(ids@, p, i as int);
        }
        if ids[i] < 151643 {
            r.push(ids[i]);
        }
        i = i + 1;
    }
    assert(ids@.subrange(0, ids@.len() as int) == ids@);
    r
}

/// Where in the chain a hop stands, for display.
pub fn hop_position(step: &ChainStep) -> (s: &'static str)
    ensures
        s@ == if step.layer_start == 0 {
            "first"@
        } else if step.is_last {
            "last"@
        } else {
            "middle"@
        },
{
    if step.layer_start == 0 {
        "first"
    } else if step.is_last {
        "last"
    } else {
        "middle"
    }
}

// ── Laws ─────────────────────────────────────────────────────────────────────

/// The roster holds exactly the GPU nodes, by ascending name.
pub proof fn law_roster_is_sorted_gpu_nodes(nodes: Seq<WsNode>)
    ensures
        forall|i: int, j: int|
            0 <= i <= j < roster(nodes).len() ==> text_le(
                (#[trigger] roster(nodes)[i]).node_name@,
                (#[trigger] roster(nodes)[j]).node_name@,
            ),
        roster(nodes).to_multiset() == keep(nodes, |n: WsNode| n.has_gpu).to_multiset(),
{
    lemma_name_order();
    let kept = keep(nodes, |n: WsNode| n.has_gpu);
    law_sorted_is_ordered_permutation(kept, name_le());
    let r = roster(nodes);
    assert forall|i: int, j: int| 0 <= i <= j < r.len() implies text_le(
        (#[trigger] r[i]).node_name@,
        (#[trigger] r[j]).node_name@,
    ) by {
        assert(name_le()(sorted(kept, name_le())[i], sorted(kept, name_le())[j]));
    }
}

/// After a node registered, it is connected, and nobody else under its name.
pub proof fn law_register_leaves_one_connection_per_name(nodes: Seq<WsNode>, node: WsNode, i: int)
    requires
        distinct_nodes(nodes),
        0 <= i < nodes_after_register(nodes, node).len(),
        nodes_after_register(nodes, node)[i].node_name@ == node.node_name@,
    ensures
        nodes_after_register(nodes, node)[i] == node,
{
    lemma_register_distinct(nodes, node);
    let p = |n: WsNode| !(n.node_name@ == node.node_name@ && n.node_id@ != node.node_id@);
    let kept = keep(nodes, p);
    lemma_keep_members(nodes, p);
    let q = |n: WsNode| n.node_id@ == node.node_id@;
    crate::seqs::lemma_index_from(kept, q, 0);
    let k = node_index(kept, node.node_id@);
    if k < kept.len() && i != k {
        assert(p(kept[i]));
        assert(kept[i].node_id@ == node.node_id@);
        if i < k {
            assert(!q(kept[i]));
        } else {
            lemma_keep_distinct(nodes, p);
            assert(kept[k].node_id@ != kept[i].node_id@);
        }
    }
    if k == kept.len() && i < kept.len() {
        assert(p(kept[i]));
        assert(!q(kept[i]));
    }
}

/// A chain that is not refused covers every layer of the model.
pub proof fn law_chain_covers_every_layer(nodes: Seq<WsNode>, gens: Generations, layer: int)
    requires
        chain_complete(nodes, gens),
        0 <= layer < TOTAL_LAYERS,
    ensures
        exists|i: int|
            0 <= i < hops(gens).len() && step_of(#[trigger] hops(gens)[i]).layer_start <= layer
                < step_of(hops(gens)[i]).layer_end,
{
    assert(layer_served(gens.active, layer));
    let slots = gens.active->0.slots@;
    let m = choose|m: int|
        0 <= m < slots.len() && (#[trigger] slots[m]).infra_state
            == crate::serving_clusters::InfraState::InCluster && slots[m].layer_start <= layer
            < slots[m].layer_end;
    crate::serving_clusters::lemma_serving_members(slots);
    assert(serving(slots).contains(slots[m]));
    let i = choose|i: int| 0 <= i < serving(slots).len() && serving(slots)[i] == slots[m];
    assert(hops(gens)[i] == slots[m]);
}

proof fn lemma_request_index<F>(pending: Seq<(String, PendingForward<F>)>, id: Seq<char>)
    ensures
        0 <= request_index(pending, id) <= pending.len(),
{
    assert forall|p: spec_fn((String, PendingForward<F>)) -> bool|
        0 <= #[trigger] first_index(pending, p) <= pending.len() by {
        crate::seqs::lemma_index_from(pending, p, 0);
    }
}

/// A request that is still under way after a token has fewer tokens than its limit, and one
/// that is finished has no more than its limit, or one where the limit is zero.
pub proof fn law_token_limit_holds<F>(
    pre: WsState<F>,
    request_id: Seq<char>,
    token_id: u32,
    is_eos: bool,
    post: WsState<F>,
    out: Seq<Outgoing<F>>,
)
    requires
        pre.wf(),
        token_handled(pre, request_id, token_id, is_eos, post, out),
        request_index(pre.pending_forwards@, request_id) < pre.pending_forwards@.len(),
    ensures
        ({
            let k = request_index(pre.pending_forwards@, request_id);
            let p = pre.pending_forwards@[k].1;
            if is_final_token(p, is_eos) {
                match out[0] {
                    Outgoing::Completed { request_id: r, result } => result.tokens <= p.max_tokens
                        || result.tokens == 1,
                    _ => false,
                }
            } else {
                post.pending_forwards@[k].1.generated@.len() < p.max_tokens
            }
        }),
{
    let k = request_index(pre.pending_forwards@, request_id);
    lemma_request_index(pre.pending_forwards@, request_id);
    assert(request_wf(pre.pending_forwards@[k].1));
}

/// A request that is given up frees exactly its own place on its generation.
pub proof fn law_release_frees_one_place(gens: Generations, guard: InFlightGuard)
    requires
        gens.wf(),
        gens.active is Some,
        gens.active->0.gen == guard.generation,
        gens.active->0.in_flight > 0,
    ensures
        released(gens, Some(guard)).active is Some,
        released(gens, Some(guard)).active->0.in_flight == gens.active->0.in_flight - 1,
        released(gens, Some(guard)).active->0.slots == gens.active->0.slots,
        released(gens, Some(guard)).pending == gens.pending,
{
}

} // verus!
