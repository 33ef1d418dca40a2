//! Messages between the coordinator and its clients.
//!
//! `F` is the number type of the sampling parameters.
use vstd::prelude::*;

verus! {

/// Messages from the coordinator to a client.
#[allow(inconsistent_fields)]
#[derive(Debug)]
pub enum CoordinatorMessage<F> {
    /// Assigns a training shard.
    TrainShard { assignment_id: String, layer_start: usize, layer_end: usize, data_url: String },
    /// Starts an inference chain: the first node embeds the tokens and runs its layers.
    InferenceStart {
        request_id: String,
        token_ids: Vec<u32>,
        layer_start: usize,
        layer_end: usize,
        max_tokens: usize,
        temperature: Option<F>,
        top_p: Option<F>,
        top_k: Option<u32>,
    },
    /// Hands the chain on; the hidden states follow in a binary frame.
    InferenceForward {
        request_id: String,
        hidden_states_ref: String,
        layer_start: usize,
        layer_end: usize,
        is_last: bool,
        temperature: Option<F>,
        top_p: Option<F>,
        top_k: Option<u32>,
    },
    /// Decodes one more token on the first node.
    InferenceContinue {
        request_id: String,
        new_token_id: u32,
        layer_start: usize,
        layer_end: usize,
        max_tokens: usize,
        temperature: F,
        top_p: Option<F>,
        top_k: Option<u32>,
    },
    /// Drops what the node keeps for a request.
    InferenceEnd { request_id: String },
    /// Assigns a layer range; with `skip_download` the node serves that range already.
    LayerAssignment { layer_start: usize, layer_end: usize, skip_download: bool, generation: u64 },
    /// Switches between "trainer" and "executor".
    SwitchRole { role: String, urgency: String },
    /// Keepalive.
    Ping,
}

/// Messages from a client to the coordinator.
#[derive(Debug)]
pub enum ClientMessage<F> {
    /// First message of a connection.
    Register {
        node_name: String,
        hardware_info: String,
        models: Vec<String>,
        ram_mb: u64,
        has_gpu: bool,
        layer_range: Option<(u32, u32)>,
        client_version: String,
        os: String,
    },
    /// Status heartbeat.
    Heartbeat { active_tasks: u32, current_role: String, gpu_memory_used_mb: u64 },
    /// A training shard is done.
    ShardComplete { assignment_id: String, loss: F, steps: usize, adapter_data: Vec<u8> },
    /// Announces the hidden states that follow in a binary frame.
    ForwardResult { request_id: String, hidden_states: Vec<u8>, shape: Vec<usize> },
    /// The last node of a chain generated a token.
    TokenGenerated { request_id: String, token_id: u32, is_eos: bool },
    /// What the node is doing.
    StateUpdate { state: String, detail: String },
    /// Answer to a keepalive.
    Pong,
}

} // verus!
