//! The connections between clients and coordinator.
//!
//! `T` is the handle by which a connected client is reached, `F` the number type of the
//! sampling parameters.
use crate::messages::{ClientMessage, CoordinatorMessage};
use crate::table::Table;
use crate::text::concat;
use vstd::prelude::*;

verus! {

/// Seconds before a client connects again.
pub const RECONNECT_SECS: u64 = 5;

/// Seconds between two signs of life of a client.
pub const KEEPALIVE_SECS: u64 = 30;

/// A client of the coordinator.
#[derive(Debug)]
pub struct WsClient {
    pub coordinator_url: String,
    pub node_name: String,
}

impl WsClient {
    pub fn new(coordinator_ws_url: &str, node_name: &str) -> (c: Self)
        ensures
            c.coordinator_url@ == coordinator_ws_url@,
            c.node_name@ == node_name@,
    {
        WsClient { coordinator_url: coordinator_ws_url.to_owned(), node_name: node_name.to_owned() }
    }

    /// Where the client connects.
    pub fn url(&self) -> (r: String)
        ensures
            r@ == self.coordinator_url@ + "/ws"@,
    {
        concat(self.coordinator_url.as_str(), "/ws")
    }

    /// The first message of the client: its name, and no capabilities.
    pub fn registration<F>(&self) -> (m: ClientMessage<F>)
        ensures
            m matches ClientMessage::Register {
                node_name,
                hardware_info,
                models,
                ram_mb,
                has_gpu,
                layer_range,
                client_version,
                os,
            } && node_name == self.node_name && hardware_info@.len() == 0 && models@.len() == 0
                && ram_mb == 0 && !has_gpu && layer_range is None && client_version@.len() == 0
                && os@.len() == 0,
    {
        ClientMessage::Register {
            node_name: self.node_name.clone(),
            hardware_info: String::new(),
            models: Vec::new(),
            ram_mb: 0,
            has_gpu: false,
            layer_range: None,
            client_version: String::new(),
            os: String::new(),
        }
    }
}

/// A connected client.
#[derive(Debug)]
pub struct ConnectedNode<T> {
    pub node_id: String,
    pub node_name: String,
    pub has_gpu: bool,
    pub ram_mb: u64,
    pub current_role: String,
    /// By which the client is reached.
    pub tx: T,
}

/// The connected clients by id.
#[derive(Debug)]
pub struct WsServer<T> {
    pub nodes: Table<ConnectedNode<T>>,
}

/// What the list of clients shows of one.
pub open spec fn are_rows<T>(
    rows: Seq<(String, String, bool, u64)>,
    nodes: Seq<(String, ConnectedNode<T>)>,
) -> bool {
    &&& rows.len() == nodes.len()
    &&& forall|i: int| 0 <= i < rows.len() ==> is_row(#[trigger] rows[i], nodes[i].1)
}

pub open spec fn is_row<T>(row: (String, String, bool, u64), n: ConnectedNode<T>) -> bool {
    row.0 == n.node_id && row.1 == n.node_name && row.2 == n.has_gpu && row.3 == n.ram_mb
}

impl<T> WsServer<T> {
    pub open spec fn wf(self) -> bool {
        self.nodes.wf()
    }

    pub fn new() -> (s: Self)
        ensures
            s.wf(),
            s.nodes@ == Map::<Seq<char>, ConnectedNode<T>>::empty(),
    {
        WsServer { nodes: Table::new() }
    }

    /// A client connected; it takes the place of one with its id.
    pub fn register_node(&mut self, node_id: String, node: ConnectedNode<T>)
        requires
            old(self).wf(),
        ensures
            final(self).wf(),
            final(self).nodes@ == old(self).nodes@.insert(node_id@, node),
    {
        self.nodes.insert(node_id, node);
    }

    /// A client is gone.
    pub fn remove_node(&mut self, node_id: &str)
        requires
            old(self).wf(),
        ensures
            final(self).wf(),
            final(self).nodes@ == old(self).nodes@.remove(node_id@),
    {
        self.nodes.remove(node_id);
    }

    /// The client that a message goes to; none if it is not connected.
    pub fn send_to(&self, node_id: &str) -> (r: Option<&T>)
        ensures
            match r {
                Some(tx) => self.nodes@.dom().contains(node_id@) && *tx == self.nodes@[node_id@].tx,
                None => !self.nodes@.dom().contains(node_id@),
            },
    {
        match self.nodes.get(node_id) {
            Some(n) => Some(&n.tx),
            None => None,
        }
    }

    /// The connected clients: id, name, whether it has a GPU, memory.
    pub fn list_nodes(&self) -> (r: Vec<(String, String, bool, u64)>)
        ensures
            are_rows(r@, self.nodes.entries@),
    {
        let mut r: Vec<(String, String, bool, u64)> = Vec::new();
        let mut i: usize = 0;
        while i < self.nodes.entries.len()
            invariant
                i <= self.nodes.entries@.len(),
                r@.len() == i,
                forall|k: int|
                    0 <= k < i ==> is_row(#[trigger] r@[k], self.nodes.entries@[k].1),
            decreases self.nodes.entries@.len() - i,
        {
            let n = &self.nodes.entries[i].1;
            r.push((n.node_id.clone(), n.node_name.clone(), n.has_gpu, n.ram_mb));
            i = i + 1;
        }
        r
    }

    /// Number of connected clients.
    pub fn node_count(&self) -> (n: usize)
        ensures
            n == self.nodes.entries@.len(),
    {
        self.nodes.len()
    }
}

/// How an inference starts along a chain of nodes, each with its layers: the first node gets
/// the tokens. An empty chain starts nothing.
pub fn run_inference_chain<F: Copy>(
    chain: &Vec<(String, usize, usize)>,
    request_id: &str,
    token_ids: Vec<u32>,
    max_tokens: usize,
    temperature: F,
) -> (r: Option<(String, CoordinatorMessage<F>)>)
    ensures
        r is Some == (chain@.len() > 0),
        r is Some ==> {
            &&& (r->0).0 == chain@[0].0
            &&& (r->0).1 matches CoordinatorMessage::InferenceStart {
                request_id: id,
                token_ids: ids,
                layer_start,
                layer_end,
                max_tokens: limit,
                temperature: t,
                top_p,
                top_k,
            }
            &&& id@ == request_id@
            &&& ids == token_ids
            &&& layer_start == chain@[0].1
            &&& layer_end == chain@[0].2
            &&& limit == max_tokens
            &&& t == Some(temperature)
            &&& top_p is None
            &&& top_k is None
        },
{
    if chain.len() == 0 {
        return None;
    }
    Some(
        (
            chain[0].0.clone(),
            CoordinatorMessage::InferenceStart {
                request_id: request_id.to_owned(),
                token_ids,
                layer_start: chain[0].1,
                layer_end: chain[0].2,
                max_tokens,
                temperature: Some(temperature),
                top_p: None,
                top_k: None,
            },
        ),
    )
}

/// Every connected client is listed once, in order, with what it said of itself.
pub proof fn law_every_client_is_listed<T>(
    rows: Seq<(String, String, bool, u64)>,
    nodes: Seq<(String, ConnectedNode<T>)>,
    i: int,
)
    requires
        are_rows(rows, nodes),
        0 <= i < nodes.len(),
    ensures
        rows.len() == nodes.len(),
        rows[i].0 == nodes[i].1.node_id,
        rows[i].1 == nodes[i].1.node_name,
        rows[i].2 == nodes[i].1.has_gpu,
        rows[i].3 == nodes[i].1.ram_mb,
{
    assert(is_row(rows[i], nodes[i].1));
}

} // verus!
