//! The persistent connection of a node to the coordinator.
//!
//! The node announces itself, gets the layers that it serves, and runs them on what the
//! coordinator sends. `F` is the number type of the sampling parameters.
use crate::frames::{binary_payload, parse_binary_payload, REQUEST_ID_LEN};
use crate::json;
use crate::messages::{ClientMessage, CoordinatorMessage};
use crate::table::Table;
use crate::text::{
    concat,
    concat3,
    format_number,
    has_suffix,
    is_blank,
    join,
    parse_usize,
    replace,
    split,
    str_eq,
    trim,
    trim_end_matches,
};
use vstd::prelude::*;

verus! {

use crate::frames::{law_padded_id_roundtrip, lossy_text, payload_holds, payload_of};
use vstd::utf8::encode_utf8;
use crate::json::{json_error, json_get, json_valid, number_or, numbers_at, numbers_of, string_or};
use crate::text::{
    decimal,
    ends_with,
    is_digit,
    joined,
    lemma_decimal_is_parsed,
    contains,
    find_from,
    law_part_is_found,
    law_replacing_goes_from_part_to_part,
    lemma_find_from,
    lemma_split_append,
    lemma_split_one,
    occurs_at,
    parsed_up_to,
    replaced,
    split_on,
    texts,
    trim_suffix,
    trimmed,
};
use vstd::string::StringExecFns;

/// Seconds before a lost connection is opened again.
pub const RECONNECT_SECS: u64 = 5;

/// Seconds between two signs of life.
pub const PING_SECS: u64 = 30;

/// How often a failed download of layers is tried in all.
pub const DOWNLOAD_ATTEMPTS: u32 = 3;

/// Seconds between two attempts to download layers.
pub const DOWNLOAD_RETRY_SECS: u64 = 10;

/// Port of the local inference server.
pub const SERVER_PORT: u64 = 18100;

/// Width of the hidden states.
pub const HIDDEN_SIZE: usize = 3584;

/// Layers of the whole model.
pub const MODEL_LAYERS: usize = 28;

// ── Sampling ─────────────────────────────────────────────────────────────────

/// The sampling parameters of a request.
#[derive(Debug, PartialEq)]
pub struct SamplingParams<F> {
    pub temperature: Option<F>,
    pub top_p: Option<F>,
    pub top_k: Option<u32>,
}

impl<F: Copy> Clone for SamplingParams<F> {
    fn clone(&self) -> (r: Self)
        ensures
            r == *self,
    {
        SamplingParams { temperature: self.temperature, top_p: self.top_p, top_k: self.top_k }
    }
}

/// Nothing is said of the sampling.
pub open spec fn no_sampling<F>() -> SamplingParams<F> {
    SamplingParams { temperature: None, top_p: None, top_k: None }
}

impl<F> Default for SamplingParams<F> {
    fn default() -> (p: Self)
        ensures
            p == no_sampling::<F>(),
    {
        SamplingParams { temperature: None, top_p: None, top_k: None }
    }
}

/// The first value that is given.
pub open spec fn given_or<T>(new: Option<T>, old_value: Option<T>) -> Option<T> {
    if new is Some {
        new
    } else {
        old_value
    }
}

/// Parameters with what is given put in; the rest stays.
pub open spec fn merged<F>(
    p: SamplingParams<F>,
    temperature: Option<F>,
    top_p: Option<F>,
    top_k: Option<u32>,
) -> SamplingParams<F> {
    SamplingParams {
        temperature: given_or(temperature, p.temperature),
        top_p: given_or(top_p, p.top_p),
        top_k: given_or(top_k, p.top_k),
    }
}

/// Puts in what is given; the rest stays.
pub fn merge_optional_sampling<F>(
    into: &mut SamplingParams<F>,
    temperature: Option<F>,
    top_p: Option<F>,
    top_k: Option<u32>,
)
    ensures
        *final(into) == merged(*old(into), temperature, top_p, top_k),
{
    if temperature.is_some() {
        into.temperature = temperature;
    }
    if top_p.is_some() {
        into.top_p = top_p;
    }
    if top_k.is_some() {
        into.top_k = top_k;
    }
}

/// Puts in the temperature and what else is given; the rest stays.
pub fn merge_from_continue<F>(
    into: &mut SamplingParams<F>,
    temperature: F,
    top_p: Option<F>,
    top_k: Option<u32>,
)
    ensures
        *final(into) == merged(*old(into), Some(temperature), top_p, top_k),
{
    into.temperature = Some(temperature);
    if top_p.is_some() {
        into.top_p = top_p;
    }
    if top_k.is_some() {
        into.top_k = top_k;
    }
}

// ── The layer range in a path ────────────────────────────────────────────────

/// The layers that a directory holds, by its name.
pub open spec fn layer_range(model_dir: Seq<char>) -> (nat, nat) {
    let parts = split_on(split_on(model_dir, '/').last(), '_');
    let n = parts.len();
    if n >= 4 {
        (
            match parsed_up_to(parts[n - 2], usize::MAX as nat) {
                Some(v) => v,
                None => 0,
            },
            match parsed_up_to(parts[n - 1], usize::MAX as nat) {
                Some(v) => v,
                None => 28,
            },
        )
    } else {
        (0, 28)
    }
}

/// The layers that a directory like `inference_layers_10_20` holds; others hold them all.
pub fn parse_layer_range(model_dir: &str) -> (r: (usize, usize))
    ensures
        r.0 == layer_range(model_dir@).0,
        r.1 == layer_range(model_dir@).1,
{
    let path = split(model_dir, '/');
    proof {
        assert(texts(path@).len() == path@.len());
        lemma_split_not_empty(model_dir@, '/');
        assert(texts(path@).last() == path@.last()@);
    }
    let name = path[path.len() - 1].as_str();
    let parts = split(name, '_');
    let n: usize = parts.len();
    assert(texts(parts@).len() == n);
    if n >= 4 {
        assert(texts(parts@)[n - 2] == parts@[n - 2]@);
        assert(texts(parts@)[n - 1] == parts@[n - 1]@);
        let start: usize = match parse_usize(parts[n - 2].as_str()) {
            Some(v) => v,
            None => 0,
        };
        let end: usize = match parse_usize(parts[n - 1].as_str()) {
            Some(v) => v,
            None => MODEL_LAYERS,
        };
        (start, end)
    } else {
        (0, MODEL_LAYERS)
    }
}

proof fn lemma_split_not_empty(s: Seq<char>, c: char)
    ensures
        split_on(s, c).len() >= 1,
{
}

/// The directory of a range of layers.
pub open spec fn layers_dir(model_dir: Seq<char>, from: int, to: int) -> Seq<char> {
    model_dir + "/inference_layers_"@ + decimal(from as nat) + "_"@ + decimal(to as nat)
}

fn layers_path(model_dir: &str, from: usize, to: usize) -> (r: String)
    ensures
        r@ == layers_dir(model_dir@, from as int, to as int),
{
    let a = format_number(from as u64);
    let b = format_number(to as u64);
    let mut r = concat3(model_dir, "/inference_layers_", a.as_str());
    r.append("_");
    r.append(b.as_str());
    r
}

proof fn lemma_digits_hold_no_separator(n: nat)
    ensures
        !decimal(n).contains('_'),
        !decimal(n).contains('/'),
{
    lemma_decimal_is_parsed(n);
    let d = decimal(n);
    assert forall|i: int| 0 <= i < d.len() implies d[i] != '_' && d[i] != '/' by {
        assert(is_digit(d[i]));
    }
}

/// The layers that a node was assigned are read back from the name of their directory.
pub proof fn law_layer_range_is_read_back(model_dir: Seq<char>, from: usize, to: usize)
    ensures
        layer_range(layers_dir(model_dir, from as int, to as int)) == (from as nat, to as nat),
{
    let a = decimal(from as nat);
    let b = decimal(to as nat);
    reveal_strlit("/inference_layers_");
    reveal_strlit("_");
    lemma_digits_hold_no_separator(from as nat);
    lemma_digits_hold_no_separator(to as nat);
    lemma_decimal_is_parsed(from as nat);
    lemma_decimal_is_parsed(to as nat);
    let word1 = seq!['i', 'n', 'f', 'e', 'r', 'e', 'n', 'c', 'e'];
    let word2 = seq!['l', 'a', 'y', 'e', 'r', 's'];
    let name = word1 + seq!['_'] + word2 + seq!['_'] + a + seq!['_'] + b;
    let whole = layers_dir(model_dir, from as int, to as int);
    assert("_"@ =~= seq!['_']);
    assert("/inference_layers_"@ =~= seq!['/'] + word1 + seq!['_'] + word2 + seq!['_']);
    assert(whole =~= model_dir + seq!['/'] + name);
    assert forall|i: int| 0 <= i < name.len() implies name[i] != '/' by {
        let base = word1 + seq!['_'] + word2 + seq!['_'];
        if i < base.len() {
            assert(name[i] == base[i]);
        } else if i < base.len() + a.len() {
            assert(name[i] == a[i - base.len()]);
        } else if i > base.len() + a.len() {
            assert(name[i] == b[i - base.len() - a.len() - 1]);
        }
    }
    lemma_split_append(model_dir, '/', name);
    lemma_split_one(name, '/');
    assert(split_on(whole, '/').last() == name);
    lemma_split_append(word1 + seq!['_'] + word2 + seq!['_'] + a, '_', b);
    lemma_split_append(word1 + seq!['_'] + word2, '_', a);
    lemma_split_append(word1, '_', word2);
    lemma_split_one(word1, '_');
    lemma_split_one(word2, '_');
    lemma_split_one(a, '_');
    lemma_split_one(b, '_');
    assert(split_on(name, '_') =~= seq![word1, word2, a, b]);
}

// ── The worker ───────────────────────────────────────────────────────────────

/// What a node knows of its connection.
#[derive(Debug)]
pub struct WsWorker<F> {
    pub ws_url: String,
    pub coordinator_http: String,
    pub node_name: String,
    pub hardware_info: String,
    pub has_gpu: bool,
    pub ram_mb: u64,
    pub model_dir: String,
    /// The layers that the coordinator assigned.
    pub assigned_layers: Option<(usize, usize)>,
    /// Whether the node has what it needs.
    pub layers_ready: bool,
    pub download_failed: bool,
    /// The sampling parameters of running requests.
    pub sampling: Table<SamplingParams<F>>,
}

/// What a node does next.
#[derive(Debug)]
pub enum WorkerAction<F> {
    Nothing,
    /// Send this.
    Reply(ClientMessage<F>),
    /// Send this, then download the layers to the directory.
    Download { announce: ClientMessage<F>, cache: String, layer_start: usize, layer_end: usize },
    /// Run the tokens of a new request through the layers.
    Embed { request_id: String, token_ids: Vec<u32> },
    /// Run one more token of a request through the layers.
    EmbedStep { request_id: String, token_id: u32 },
    /// Forget what the inference server keeps for a request.
    ClearCache { request_id: String },
}

/// What follows an attempt to download layers.
#[derive(Debug)]
pub enum DownloadStep<F> {
    StartServer,
    Retry,
    GiveUp(ClientMessage<F>),
}

/// Hidden states that are to be run through the layers.
#[derive(Debug)]
pub struct ForwardJob<F> {
    pub request_id: String,
    pub hidden: Vec<u8>,
    pub mode: &'static str,
    pub is_last: bool,
    pub seq_len: usize,
    pub sampling: SamplingParams<F>,
}

/// What the inference server answered.
#[derive(Debug)]
pub struct ForwardResponse {
    pub shape: Vec<usize>,
    pub next_token: Option<u32>,
    pub hidden: Vec<u8>,
}

/// What a node sends after it ran its layers.
#[derive(Debug)]
pub enum WsResponse<F> {
    Text(ClientMessage<F>),
    TextAndBinary(ClientMessage<F>, Vec<u8>),
}

/// The address of the coordinator's socket.
pub open spec fn ws_url_of(url: Seq<char>) -> Seq<char> {
    trim_suffix(
        replaced(replaced(url, "https://"@, "wss://"@), "http://"@, "ws://"@),
        "/"@,
    ) + "/ws"@
}

/// The address of the coordinator's HTTP interface.
pub open spec fn http_url_of(url: Seq<char>) -> Seq<char> {
    replaced(
        replaced(replaced(url, "wss://"@, "https://"@), "ws://"@, "http://"@),
        "/ws"@,
        ""@,
    )
}

/// Whether a message reports this state.
pub open spec fn reports<F>(m: ClientMessage<F>, state: Seq<char>, detail: Seq<char>) -> bool {
    m matches ClientMessage::StateUpdate { state: s, detail: d } && s@ == state && d@ == detail
}

fn report<F>(state: &str, detail: String) -> (m: ClientMessage<F>)
    ensures
        reports(m, state@, detail@),
{
    ClientMessage::StateUpdate { state: state.to_owned(), detail }
}

/// A span of layers in words.
pub open spec fn span_text(from: int, to: int) -> Seq<char> {
    decimal(from as nat) + "-"@ + decimal(to as nat)
}

fn span(from: usize, to: usize) -> (r: String)
    ensures
        r@ == span_text(from as int, to as int),
{
    let a = format_number(from as u64);
    let b = format_number(to as u64);
    concat3(a.as_str(), "-", b.as_str())
}

/// What a node says when its layers are served.
pub open spec fn ready_text(from: int, to: int) -> Seq<char> {
    "Layers "@ + span_text(from, to) + " loaded, inference server running"@
}

/// The announcement of hidden states that follow in a binary frame.
pub open spec fn announces<F>(
    r: WsResponse<F>,
    request_id: Seq<char>,
    shape: Seq<usize>,
    hidden: Seq<u8>,
) -> bool {
    &&& r matches WsResponse::TextAndBinary(m, data)
    &&& m matches ClientMessage::ForwardResult { request_id: id, hidden_states: h, shape: s }
    &&& id@ == request_id
    &&& h@.len() == 0
    &&& s@ == shape
    &&& data@ == payload_of(request_id, hidden)
}

/// Whether a token ends the text.
pub open spec fn is_end_token(t: u32) -> bool {
    t == 151643 || t == 151644 || t == 151645
}

/// The sampling parameters of a request.
pub open spec fn sampling_of<F>(
    m: Map<Seq<char>, SamplingParams<F>>,
    id: Seq<char>,
) -> SamplingParams<F> {
    if m.dom().contains(id) {
        m[id]
    } else {
        no_sampling()
    }
}

/// Whether a message of the coordinator was handled so: the state before, the state after, and
/// what the node does.
pub open spec fn is_handled<F: Copy>(
    pre: WsWorker<F>,
    msg: CoordinatorMessage<F>,
    post: WsWorker<F>,
    r: WorkerAction<F>,
) -> bool {
    &&& post.same_node(pre)
    &&& match msg {
        CoordinatorMessage::LayerAssignment {
            layer_start,
            layer_end,
            skip_download,
            generation,
        } => {
            &&& post.assigned_layers == Some((layer_start, layer_end))
            &&& post.sampling@ == pre.sampling@
            &&& post.download_failed == pre.download_failed
            &&& if skip_download {
                &&& post.layers_ready
                &&& r is Reply
                &&& reports(
                    r->Reply_0,
                    "ready"@,
                    ready_text(layer_start as int, layer_end as int),
                )
            } else {
                &&& post.layers_ready == pre.layers_ready
                &&& r matches WorkerAction::Download {
                    announce,
                    cache,
                    layer_start: from,
                    layer_end: to,
                }
                &&& reports(
                    announce,
                    "downloading"@,
                    "Downloading layers "@ + span_text(
                        layer_start as int,
                        layer_end as int,
                    ),
                )
                &&& cache@ == post.current_dir()
                &&& from == layer_start
                &&& to == layer_end
            }
        },
        CoordinatorMessage::InferenceStart {
            request_id,
            token_ids,
            layer_start,
            layer_end,
            max_tokens,
            temperature,
            top_p,
            top_k,
        } => {
            &&& post.same_layers(pre)
            &&& post.sampling@ == pre.sampling@.insert(
                request_id@,
                merged(no_sampling(), temperature, top_p, top_k),
            )
            &&& r matches WorkerAction::Embed { request_id: id, token_ids: ids }
            &&& id == request_id
            &&& ids == token_ids
        },
        CoordinatorMessage::InferenceForward {
            request_id,
            hidden_states_ref,
            layer_start,
            layer_end,
            is_last,
            temperature,
            top_p,
            top_k,
        } => {
            &&& post.same_layers(pre)
            &&& post.sampling@ == if is_last {
                pre.sampling@.insert(
                    request_id@,
                    merged(
                        sampling_of(pre.sampling@, request_id@),
                        temperature,
                        top_p,
                        top_k,
                    ),
                )
            } else {
                pre.sampling@
            }
            &&& r is Nothing
        },
        CoordinatorMessage::InferenceContinue {
            request_id,
            new_token_id,
            layer_start,
            layer_end,
            max_tokens,
            temperature,
            top_p,
            top_k,
        } => {
            &&& post.same_layers(pre)
            &&& post.sampling@ == pre.sampling@.insert(
                request_id@,
                merged(
                    sampling_of(pre.sampling@, request_id@),
                    Some(temperature),
                    top_p,
                    top_k,
                ),
            )
            &&& r matches WorkerAction::EmbedStep { request_id: id, token_id }
            &&& id == request_id
            &&& token_id == new_token_id
        },
        CoordinatorMessage::InferenceEnd { request_id } => {
            &&& post.same_layers(pre)
            &&& post.sampling@ == pre.sampling@.remove(request_id@)
            &&& r matches WorkerAction::ClearCache { request_id: id }
            &&& id == request_id
        },
        CoordinatorMessage::Ping => {
            &&& post == pre
            &&& r matches WorkerAction::Reply(m)
            &&& m is Pong
        },
        _ => post == pre && r is Nothing,
    }
}

/// The job that a binary frame makes for a node; one that is too short makes none.
pub open spec fn is_forward_job<F: Copy>(
    w: WsWorker<F>,
    data: Seq<u8>,
    r: Option<ForwardJob<F>>,
) -> bool {
    &&& r is Some == (data.len() >= REQUEST_ID_LEN)
    &&& r is Some ==> {
        let job = r->0;
        let last = layer_range(w.current_dir()).1 >= 28;
        &&& job.request_id@ == trim_suffix(
            lossy_text(data.subrange(0, REQUEST_ID_LEN as int)),
            "\0"@,
        )
        &&& payload_holds(
            data,
            lossy_text(data.subrange(0, REQUEST_ID_LEN as int)),
            job.hidden@,
        )
        &&& job.is_last == last
        &&& job.mode@ == if last {
            "generate"@
        } else {
            "forward"@
        }
        &&& job.seq_len == job.hidden@.len() / 7168
        &&& job.sampling == sampling_of(w.sampling@, job.request_id@)
    }
}

/// What a node sends for the answer of the inference server.
pub open spec fn is_answer_sent<F>(
    request_id: String,
    is_last: bool,
    answer: ForwardResponse,
    r: Option<WsResponse<F>>,
) -> bool {
    if is_last {
        match answer.next_token {
            Some(t) => {
                &&& r is Some
                &&& r->0 matches WsResponse::Text(m)
                &&& m matches ClientMessage::TokenGenerated {
                    request_id: id,
                    token_id,
                    is_eos,
                }
                &&& id == request_id
                &&& token_id == t
                &&& is_eos == is_end_token(t)
            },
            None => r is None,
        }
    } else {
        r is Some && announces(r->0, request_id@, answer.shape@, answer.hidden@)
    }
}

/// What follows the `attempt`-th download of the layers.
pub open spec fn is_download_step<F: Copy>(
    pre: WsWorker<F>,
    attempt: u32,
    succeeded: bool,
    post: WsWorker<F>,
    r: DownloadStep<F>,
) -> bool {
    &&& post.same_node(pre)
    &&& post.sampling == pre.sampling
    &&& post.assigned_layers == pre.assigned_layers
    &&& post.layers_ready == (pre.layers_ready || succeeded)
    &&& post.download_failed == (pre.download_failed || (!succeeded && attempt
        >= DOWNLOAD_ATTEMPTS))
    &&& if succeeded {
        r is StartServer
    } else if attempt < DOWNLOAD_ATTEMPTS {
        r is Retry
    } else {
        &&& r is GiveUp
        &&& reports(r->GiveUp_0, "error"@, "Layer download failed"@)
    }
}

impl<F: Copy> WsWorker<F> {
    pub open spec fn wf(self) -> bool {
        self.sampling.wf()
    }

    /// Everything but the layers and the sampling is the same.
    pub open spec fn same_node(self, other: Self) -> bool {
        &&& self.ws_url == other.ws_url
        &&& self.coordinator_http == other.coordinator_http
        &&& self.node_name == other.node_name
        &&& self.hardware_info == other.hardware_info
        &&& self.has_gpu == other.has_gpu
        &&& self.ram_mb == other.ram_mb
        &&& self.model_dir == other.model_dir
    }

    /// What is known of the layers is the same.
    pub open spec fn same_layers(self, other: Self) -> bool {
        &&& self.assigned_layers == other.assigned_layers
        &&& self.layers_ready == other.layers_ready
        &&& self.download_failed == other.download_failed
    }

    /// The directory of the layers that the node serves.
    pub open spec fn current_dir(self) -> Seq<char> {
        match self.assigned_layers {
            Some((from, to)) => layers_dir(self.model_dir@, from as int, to as int),
            None => self.model_dir@,
        }
    }

    /// A node before its first connection. Without a GPU it needs no layers.
    pub fn new(
        coordinator_url: &str,
        node_name: &str,
        hardware_info: &str,
        has_gpu: bool,
        ram_mb: u64,
        model_dir: &str,
    ) -> (w: Self)
        ensures
            w.wf(),
            w.ws_url@ == ws_url_of(coordinator_url@),
            w.coordinator_http@ == http_url_of(coordinator_url@),
            w.node_name@ == node_name@,
            w.hardware_info@ == hardware_info@,
            w.has_gpu == has_gpu,
            w.ram_mb == ram_mb,
            w.model_dir@ == model_dir@,
            w.assigned_layers is None,
            w.layers_ready == !has_gpu,
            !w.download_failed,
            w.sampling@ == Map::<Seq<char>, SamplingParams<F>>::empty(),
    {
        proof {
            reveal_strlit("https://");
            reveal_strlit("http://");
            reveal_strlit("wss://");
            reveal_strlit("ws://");
            reveal_strlit("/ws");
        }
        let secure = replace(coordinator_url, "https://", "wss://");
        let socket = replace(secure.as_str(), "http://", "ws://");
        let socket = trim_end_matches(socket.as_str(), "/");
        let plain = replace(coordinator_url, "wss://", "https://");
        let plain = replace(plain.as_str(), "ws://", "http://");
        WsWorker {
            ws_url: concat(socket.as_str(), "/ws"),
            coordinator_http: replace(plain.as_str(), "/ws", ""),
            node_name: node_name.to_owned(),
            hardware_info: hardware_info.to_owned(),
            has_gpu,
            ram_mb,
            model_dir: model_dir.to_owned(),
            assigned_layers: None,
            layers_ready: !has_gpu,
            download_failed: false,
            sampling: Table::new(),
        }
    }

    /// The first message of a connection. The coordinator assigns layers later.
    pub fn registration(&self, client_version: String, os: String) -> (m: ClientMessage<F>)
        ensures
            m matches ClientMessage::Register {
                node_name,
                hardware_info,
                models,
                ram_mb,
                has_gpu,
                layer_range,
                client_version: v,
                os: o,
            } && node_name == self.node_name && hardware_info == self.hardware_info
                && models@.len() == 0 && ram_mb == self.ram_mb && has_gpu == self.has_gpu
                && layer_range is None && v == client_version && o == os,
    {
        ClientMessage::Register {
            node_name: self.node_name.clone(),
            hardware_info: self.hardware_info.clone(),
            models: Vec::new(),
            ram_mb: self.ram_mb,
            has_gpu: self.has_gpu,
            layer_range: None,
            client_version,
            os,
        }
    }

    /// The state that a node reports when a connection is open.
    pub fn initial_state(&self) -> (m: ClientMessage<F>)
        ensures
            if self.layers_ready {
                reports(
                    m,
                    "ready"@,
                    if self.has_gpu {
                        "GPU node — waiting for layer assignment"@
                    } else {
                        "CPU node — training/synthesis only"@
                    },
                )
            } else {
                reports(m, "connecting"@, "Waiting for layer assignment from coordinator"@)
            },
    {
        if self.layers_ready {
            if self.has_gpu {
                report("ready", "GPU node — waiting for layer assignment".to_owned())
            } else {
                report("ready", "CPU node — training/synthesis only".to_owned())
            }
        } else {
            report("connecting", "Waiting for layer assignment from coordinator".to_owned())
        }
    }

    /// The directory of the layers that the node serves.
    pub fn current_model_dir(&self) -> (r: String)
        ensures
            r@ == self.current_dir(),
    {
        match self.assigned_layers {
            Some((from, to)) => layers_path(self.model_dir.as_str(), from, to),
            None => self.model_dir.clone(),
        }
    }

    fn sampling_for(&self, request_id: &str) -> (p: SamplingParams<F>)
        ensures
            p == sampling_of(self.sampling@, request_id@),
    {
        match self.sampling.get(request_id) {
            Some(p) => p.clone(),
            None => Default::default(),
        }
    }

    /// A message of the coordinator. Layers that the node already serves are confirmed at
    /// once, other ones are to be downloaded first.
    pub fn handle_coordinator_message(&mut self, msg: CoordinatorMessage<F>) -> (r: WorkerAction<F>)
        requires
            old(self).wf(),
        ensures
            final(self).wf(),
            is_handled(*old(self), msg, *final(self), r),
    {
        match msg {
            CoordinatorMessage::LayerAssignment {
                layer_start,
                layer_end,
                skip_download,
                generation,
            } => {
                self.assigned_layers = Some((layer_start, layer_end));
                let layers = span(layer_start, layer_end);
                if skip_download {
                    self.layers_ready = true;
                    WorkerAction::Reply(
                        report(
                            "ready",
                            concat3(
                                "Layers ",
                                layers.as_str(),
                                " loaded, inference server running",
                            ),
                        ),
                    )
                } else {
                    WorkerAction::Download {
                        announce: report(
                            "downloading",
                            concat("Downloading layers ", layers.as_str()),
                        ),
                        cache: self.current_model_dir(),
                        layer_start,
                        layer_end,
                    }
                }
            },
            CoordinatorMessage::InferenceStart {
                request_id,
                token_ids,
                layer_start,
                layer_end,
                max_tokens,
                temperature,
                top_p,
                top_k,
            } => {
                let mut p: SamplingParams<F> = Default::default();
                merge_optional_sampling(&mut p, temperature, top_p, top_k);
                self.sampling.insert(request_id.clone(), p);
                WorkerAction::Embed { request_id, token_ids }
            },
            CoordinatorMessage::InferenceForward {
                request_id,
                hidden_states_ref,
                layer_start,
                layer_end,
                is_last,
                temperature,
                top_p,
                top_k,
            } => {
                if is_last {
                    let mut p = self.sampling_for(request_id.as_str());
                    merge_optional_sampling(&mut p, temperature, top_p, top_k);
                    self.sampling.insert(request_id, p);
                }
                WorkerAction::Nothing
            },
            CoordinatorMessage::InferenceContinue {
                request_id,
                new_token_id,
                layer_start,
                layer_end,
                max_tokens,
                temperature,
                top_p,
                top_k,
            } => {
                let mut p = self.sampling_for(request_id.as_str());
                merge_from_continue(&mut p, temperature, top_p, top_k);
                self.sampling.insert(request_id.clone(), p);
                WorkerAction::EmbedStep { request_id, token_id: new_token_id }
            },
            CoordinatorMessage::InferenceEnd { request_id } => {
                self.sampling.remove(request_id.as_str());
                WorkerAction::ClearCache { request_id }
            },
            CoordinatorMessage::Ping => WorkerAction::Reply(ClientMessage::Pong),
            CoordinatorMessage::TrainShard { .. } => WorkerAction::Nothing,
            CoordinatorMessage::SwitchRole { .. } => WorkerAction::Nothing,
        }
    }

    /// The `attempt`-th download of the layers ended.
    pub fn on_download(&mut self, attempt: u32, succeeded: bool) -> (r: DownloadStep<F>)
        ensures
            is_download_step(*old(self), attempt, succeeded, *final(self), r),
    {
        if succeeded {
            self.layers_ready = true;
            DownloadStep::StartServer
        } else if attempt < DOWNLOAD_ATTEMPTS {
            DownloadStep::Retry
        } else {
            self.download_failed = true;
            DownloadStep::GiveUp(report("error", "Layer download failed".to_owned()))
        }
    }

    /// What a node reports once its layers are there.
    pub fn on_served(layer_start: usize, layer_end: usize) -> (m: ClientMessage<F>)
        ensures
            reports(m, "ready"@, ready_text(layer_start as int, layer_end as int)),
    {
        let layers = span(layer_start, layer_end);
        report(
            "ready",
            concat3("Layers ", layers.as_str(), " loaded, inference server running"),
        )
    }

    /// What a node sends for hidden states that it computed.
    pub fn forward_result(request_id: String, shape: Vec<usize>, hidden: &Vec<u8>) -> (r:
        WsResponse<F>)
        ensures
            announces(r, request_id@, shape@, hidden@),
    {
        let data = binary_payload(request_id.as_str(), hidden);
        WsResponse::TextAndBinary(
            ClientMessage::ForwardResult { request_id, hidden_states: Vec::new(), shape },
            data,
        )
    }

    /// Hidden states arrived in a binary frame; one that is too short is passed over.
    pub fn handle_binary_forward(&self, data: &Vec<u8>) -> (r: Option<ForwardJob<F>>)
        ensures
            is_forward_job(*self, data@, r),
    {
        let (raw_id, hidden) = match parse_binary_payload(data) {
            Some(p) => p,
            None => {
                return None;
            },
        };
        let request_id = trim_end_matches(raw_id.as_str(), "\0");
        let dir = self.current_model_dir();
        let (from, to) = parse_layer_range(dir.as_str());
        let is_last = to >= MODEL_LAYERS;
        let sampling = self.sampling_for(request_id.as_str());
        let seq_len: usize = hidden.len() / 7168;
        Some(
            ForwardJob {
                request_id,
                hidden,
                mode: if is_last {
                    "generate"
                } else {
                    "forward"
                },
                is_last,
                seq_len,
                sampling,
            },
        )
    }

    /// What a node sends for the answer of the inference server: the last node of the chain a
    /// token, another one its hidden states. A last node without a token sends nothing.
    pub fn on_forwarded(request_id: String, is_last: bool, answer: ForwardResponse) -> (r: Option<
        WsResponse<F>,
    >)
        ensures
            is_answer_sent(request_id, is_last, answer, r),
    {
        if is_last {
            match answer.next_token {
                Some(t) => Some(
                    WsResponse::Text(
                        ClientMessage::TokenGenerated {
                            request_id,
                            token_id: t,
                            is_eos: t == 151643 || t == 151644 || t == 151645,
                        },
                    ),
                ),
                None => None,
            }
        } else {
            Some(Self::forward_result(request_id, answer.shape, &answer.hidden))
        }
    }
}

// ── Answers of the inference server ──────────────────────────────────────────

/// Why an answer of the inference server is of no use.
#[derive(Debug)]
pub enum AnswerError {
    /// Its header is no JSON.
    Malformed(String),
    /// It reports an error.
    Server { status: u16, error: String },
}

/// Numbers as sizes.
pub open spec fn sizes(v: Seq<u64>) -> Seq<usize> {
    v.map_values(|n: u64| n as usize)
}

fn to_sizes(v: &Vec<u64>) -> (r: Vec<usize>)
    ensures
        r@ == sizes(v@),
{
    let mut r: Vec<usize> = Vec::new();
    let mut i: usize = 0;
    while i < v.len()
        invariant
            i <= v@.len(),
            r@ == sizes(v@.subrange(0, i as int)),
        decreases v@.len() - i,
    {
        r.push(v[i] as usize);
        i = i + 1;
        assert(sizes(v@.subrange(0, i as int)) =~= sizes(v@.subrange(0, i - 1)).push(
            v@[i - 1] as usize,
        ));
    }
    assert(v@.subrange(0, v@.len() as int) =~= v@);
    r
}

/// The status that a header states; without one all is well.
pub open spec fn status_of(header: Seq<char>) -> u16 {
    (number_or(header, "status"@, 200) % 0x1_0000) as u16
}

/// The token that a header states under a key.
pub open spec fn token_at(header: Seq<char>, key: Seq<char>) -> Option<u32> {
    match crate::json::number_at(header, key) {
        Some(n) => Some((n % 0x1_0000_0000) as u32),
        None => None,
    }
}

fn get_token(header: &str, key: &str) -> (r: Option<u32>)
    ensures
        r == token_at(header@, key@),
{
    match json::get_number(header, key) {
        Some(n) => Some((n % 0x1_0000_0000) as u32),
        None => None,
    }
}

/// Whether the answer to a forward frame is read so.
pub open spec fn is_answer_read(
    header: Seq<char>,
    hidden: Vec<u8>,
    r: Result<ForwardResponse, AnswerError>,
) -> bool {
    if !json_valid(header) {
        &&& r is Err
        &&& r->Err_0 matches AnswerError::Malformed(e)
        &&& Some(e@) == json_error(header)
    } else if status_of(header) >= 400 {
        &&& r is Err
        &&& r->Err_0 matches AnswerError::Server { status, error }
        &&& status == status_of(header)
        &&& error@ == string_or(header, "error"@, "unknown error"@)
    } else {
        &&& r is Ok
        &&& (r->Ok_0).shape@ == sizes(numbers_at(header, "shape"@))
        &&& (r->Ok_0).next_token == token_at(header, "next_token"@)
        &&& (r->Ok_0).hidden == hidden
    }
}

/// Reads the answer to a forward frame: the JSON header and the binary part.
pub fn parse_tcp_answer(header: &str, hidden: Vec<u8>) -> (r: Result<ForwardResponse, AnswerError>)
    ensures
        is_answer_read(header@, hidden, r),
{
    if let Some(e) = json::error(header) {
        return Err(AnswerError::Malformed(e));
    }
    let status: u16 = (json::get_number_or(header, "status", 200) % 0x1_0000) as u16;
    if status >= 400 {
        let error = json::get_string_or(header, "error", "unknown error");
        return Err(AnswerError::Server { status, error });
    }
    let shape = json::get_number_list(header, "shape");
    Ok(
        ForwardResponse {
            shape: to_sizes(&shape),
            next_token: get_token(header, "next_token"),
            hidden,
        },
    )
}

/// The message of a failed forward.
pub fn answer_error_text(e: &AnswerError) -> (r: String)
    ensures
        match *e {
            AnswerError::Malformed(error) => r@ == error@,
            AnswerError::Server { status, error } => r@ == "inference server error "@ + decimal(
                status as nat,
            ) + ": "@ + error@,
        },
{
    match e {
        AnswerError::Malformed(error) => error.clone(),
        AnswerError::Server { status, error } => {
            let n = format_number(*status as u64);
            let mut r = concat3("inference server error ", n.as_str(), ": ");
            r.append(error.as_str());
            r
        },
    }
}

/// The token that the inference server generated, from its answer over HTTP; none if it
/// reports an error.
pub fn parse_generate_answer(body: &str) -> (r: Option<u32>)
    ensures
        r == if json_get(body@, "error"@) is Some {
            None
        } else {
            token_at(body@, "token_id"@)
        },
{
    if json::get(body, "error").is_some() {
        return None;
    }
    get_token(body, "token_id")
}

/// The shape that a header of the inference server states; none if it is malformed.
pub fn parse_shape_header(value: &str) -> (r: Vec<usize>)
    ensures
        r@ == match numbers_of(value@) {
            Some(v) => sizes(v),
            None => Seq::empty(),
        },
{
    match json::get_numbers(value) {
        Some(v) => to_sizes(&v),
        None => Vec::new(),
    }
}

/// The shape that goes with hidden states.
pub fn shape_header(seq_len: usize) -> (r: String)
    ensures
        r@ == "[1,"@ + decimal(seq_len as nat) + ",3584]"@,
{
    let n = format_number(seq_len as u64);
    concat3("[1,", n.as_str(), ",3584]")
}

// ── Commands ─────────────────────────────────────────────────────────────────

/// Whether a file of this name shows that layers were downloaded.
pub open spec fn is_weight_file(name: Seq<char>) -> bool {
    ends_with(name, ".safetensors"@) || name == "config.json"@
}

/// Whether a directory with these files needs no download.
pub fn has_weights(names: &Vec<String>) -> (r: bool)
    ensures
        r == (exists|i: int|
            0 <= i < names@.len() && is_weight_file((#[trigger] names@[i])@)),
{
    let mut i: usize = 0;
    while i < names.len()
        invariant
            i <= names@.len(),
            forall|j: int| 0 <= j < i ==> !is_weight_file((#[trigger] names@[j])@),
        decreases names@.len() - i,
    {
        if has_suffix(names[i].as_str(), ".safetensors") || str_eq(
            names[i].as_str(),
            "config.json",
        ) {
            return true;
        }
        i = i + 1;
    }
    false
}

/// Arguments of the script that downloads layers.
pub fn download_args(
    script: &str,
    model_dir: &str,
    coordinator_url: &str,
    layer_start: usize,
    layer_end: usize,
) -> (r: Vec<String>)
    ensures
        texts(r@) == seq![
            script@,
            "--mode"@,
            "download"@,
            "--model-dir"@,
            model_dir@,
            "--coordinator"@,
            coordinator_url@,
            "--layer-start"@,
            decimal(layer_start as nat),
            "--layer-end"@,
            decimal(layer_end as nat),
        ],
{
    let r = vec![
        script.to_owned(),
        "--mode".to_owned(),
        "download".to_owned(),
        "--model-dir".to_owned(),
        model_dir.to_owned(),
        "--coordinator".to_owned(),
        coordinator_url.to_owned(),
        "--layer-start".to_owned(),
        format_number(layer_start as u64),
        "--layer-end".to_owned(),
        format_number(layer_end as u64),
    ];
    assert(texts(r@) =~= seq![
        script@,
        "--mode"@,
        "download"@,
        "--model-dir"@,
        model_dir@,
        "--coordinator"@,
        coordinator_url@,
        "--layer-start"@,
        decimal(layer_start as nat),
        "--layer-end"@,
        decimal(layer_end as nat),
    ]);
    r
}

/// What a failed download is reported as: the script's errors, else its exit code and output.
pub fn download_error(exit_code: Option<&str>, stdout: &str, stderr: &str) -> (r: String)
    ensures
        r@ == "Layer download failed: "@ + if trimmed(stderr@).len() > 0 {
            stderr@
        } else {
            "exit="@ + match exit_code {
                Some(c) => c@,
                None => "?"@,
            } + " stdout="@ + trimmed(stdout@)
        },
{
    if is_blank(stderr) {
        let code = match exit_code {
            Some(c) => c,
            None => "?",
        };
        let out = trim(stdout);
        let mut detail = concat3("exit=", code, " stdout=");
        detail.append(out.as_str());
        concat("Layer download failed: ", detail.as_str())
    } else {
        concat("Layer download failed: ", stderr)
    }
}

/// Arguments of the persistent inference server.
pub fn serve_args(script: &str, model_dir: &str, layer_start: usize, layer_end: usize, port: u16)
    -> (r: Vec<String>)
    ensures
        texts(r@) == seq![
            script@,
            "--mode"@,
            "serve"@,
            "--model-dir"@,
            model_dir@,
            "--layer-start"@,
            decimal(layer_start as nat),
            "--layer-end"@,
            decimal(layer_end as nat),
            "--port"@,
            decimal(port as nat),
        ],
{
    let r = vec![
        script.to_owned(),
        "--mode".to_owned(),
        "serve".to_owned(),
        "--model-dir".to_owned(),
        model_dir.to_owned(),
        "--layer-start".to_owned(),
        format_number(layer_start as u64),
        "--layer-end".to_owned(),
        format_number(layer_end as u64),
        "--port".to_owned(),
        format_number(port as u64),
    ];
    assert(texts(r@) =~= seq![
        script@,
        "--mode"@,
        "serve"@,
        "--model-dir"@,
        model_dir@,
        "--layer-start"@,
        decimal(layer_start as nat),
        "--layer-end"@,
        decimal(layer_end as nat),
        "--port"@,
        decimal(port as nat),
    ]);
    r
}

/// Where a single run of the script leaves its hidden states.
pub fn hidden_file(layer_start: usize, layer_end: usize) -> (r: String)
    ensures
        r@ == "/tmp/hyverk_hidden_"@ + decimal(layer_start as nat) + "_"@ + decimal(
            layer_end as nat,
        ) + ".pt"@,
{
    let a = format_number(layer_start as u64);
    let b = format_number(layer_end as u64);
    let mut r = concat3("/tmp/hyverk_hidden_", a.as_str(), "_");
    r.append(b.as_str());
    r.append(".pt");
    r
}

/// Token ids in decimal.
pub open spec fn id_texts(ids: Seq<u32>) -> Seq<Seq<char>> {
    ids.map_values(|t: u32| decimal(t as nat))
}

fn joined_ids(ids: &Vec<u32>) -> (r: String)
    ensures
        r@ == joined(id_texts(ids@), ","@),
{
    let mut parts: Vec<String> = Vec::new();
    let mut i: usize = 0;
    while i < ids.len()
        invariant
            i <= ids@.len(),
            parts@.len() == i,
            forall|k: int| 0 <= k < i ==> (#[trigger] parts@[k])@ == decimal(ids@[k] as nat),
        decreases ids@.len() - i,
    {
        parts.push(format_number(ids[i] as u64));
        i = i + 1;
    }
    assert(texts(parts@).subrange(0, parts@.len() as int) =~= id_texts(ids@));
    join(&parts, 0, parts.len(), ",")
}

/// Arguments of a single run of the script: the first node embeds its tokens, another one
/// takes hidden states.
pub fn forward_args(
    script: &str,
    model_dir: &str,
    layer_start: usize,
    layer_end: usize,
    token_ids: Option<&Vec<u32>>,
) -> (r: Vec<String>)
    ensures
        ({
            let common = seq![
                script@,
                "--mode"@,
                if token_ids is Some {
                    "embed"@
                } else {
                    "forward"@
                },
                "--model-dir"@,
                model_dir@,
                "--layer-start"@,
                decimal(layer_start as nat),
                "--layer-end"@,
                decimal(layer_end as nat),
                "--output-file"@,
                "/tmp/hyverk_hidden_"@ + decimal(layer_start as nat) + "_"@ + decimal(
                    layer_end as nat,
                ) + ".pt"@,
            ];
            texts(r@) == match token_ids {
                Some(ids) => common + seq!["--token-ids"@, joined(id_texts(ids@), ","@)],
                None => common,
            }
        }),
{
    let mode = if token_ids.is_some() {
        "embed"
    } else {
        "forward"
    };
    let mut r = vec![
        script.to_owned(),
        "--mode".to_owned(),
        mode.to_owned(),
        "--model-dir".to_owned(),
        model_dir.to_owned(),
        "--layer-start".to_owned(),
        format_number(layer_start as u64),
        "--layer-end".to_owned(),
        format_number(layer_end as u64),
        "--output-file".to_owned(),
        hidden_file(layer_start, layer_end),
    ];
    let ghost common = texts(r@);
    assert(common =~= seq![
        script@,
        "--mode"@,
        mode@,
        "--model-dir"@,
        model_dir@,
        "--layer-start"@,
        decimal(layer_start as nat),
        "--layer-end"@,
        decimal(layer_end as nat),
        "--output-file"@,
        "/tmp/hyverk_hidden_"@ + decimal(layer_start as nat) + "_"@ + decimal(layer_end as nat)
            + ".pt"@,
    ]);
    if let Some(ids) = token_ids {
        r.push("--token-ids".to_owned());
        r.push(joined_ids(ids));
        assert(texts(r@) =~= common + seq!["--token-ids"@, joined(id_texts(ids@), ","@)]);
    }
    r
}

// ── Laws ─────────────────────────────────────────────────────────────────────

/// A request's sampling parameters live from its start to its end: what the start gave is
/// used until something new is given, and after the end nothing is left.
pub proof fn law_sampling_lives_with_its_request<F>(
    m: Map<Seq<char>, SamplingParams<F>>,
    id: Seq<char>,
    start: SamplingParams<F>,
    temperature: F,
    top_p: Option<F>,
    top_k: Option<u32>,
)
    ensures
        ({
            let started = m.insert(id, start);
            let continued = started.insert(
                id,
                merged(sampling_of(started, id), Some(temperature), top_p, top_k),
            );
            &&& sampling_of(started, id) == start
            &&& sampling_of(continued, id).temperature == Some(temperature)
            &&& top_p is None ==> sampling_of(continued, id).top_p == start.top_p
            &&& top_k is None ==> sampling_of(continued, id).top_k == start.top_k
            &&& sampling_of(continued.remove(id), id) == no_sampling::<F>()
        }),
{
}

/// A node that was assigned layers serves these: the directory that it downloads to names them,
/// and it is ready at once where it has them already.
pub proof fn law_assigned_layers_are_served<F: Copy>(
    pre: WsWorker<F>,
    from: usize,
    to: usize,
    skip_download: bool,
    generation: u64,
    post: WsWorker<F>,
    r: WorkerAction<F>,
)
    requires
        is_handled(
            pre,
            CoordinatorMessage::LayerAssignment {
                layer_start: from,
                layer_end: to,
                skip_download,
                generation,
            },
            post,
            r,
        ),
    ensures
        layer_range(post.current_dir()) == (from as nat, to as nat),
        skip_download ==> post.layers_ready && r is Reply,
        !skip_download ==> {
            &&& r is Download
            &&& layer_range(r->cache@) == (from as nat, to as nat)
            &&& r->layer_start == from
            &&& r->layer_end == to
        },
{
    law_layer_range_is_read_back(pre.model_dir@, from, to);
}

/// Requests do not touch each other's sampling parameters, nor the layers: whatever is said of
/// one request leaves those of another as they are.
pub proof fn law_requests_keep_apart<F: Copy>(
    pre: WsWorker<F>,
    msg: CoordinatorMessage<F>,
    post: WsWorker<F>,
    r: WorkerAction<F>,
    id: Seq<char>,
)
    requires
        is_handled(pre, msg, post, r),
        msg is InferenceStart ==> msg->InferenceStart_request_id@ != id,
        msg is InferenceForward ==> msg->InferenceForward_request_id@ != id,
        msg is InferenceContinue ==> msg->InferenceContinue_request_id@ != id,
        msg is InferenceEnd ==> msg->InferenceEnd_request_id@ != id,
    ensures
        sampling_of(post.sampling@, id) == sampling_of(pre.sampling@, id),
        !(msg is LayerAssignment) ==> post.assigned_layers == pre.assigned_layers
            && post.layers_ready == pre.layers_ready,
{
}

/// A request that starts has the parameters that it came with, its tokens are embedded as they
/// are, each further token is embedded alone with the parameters that are newly given, and at
/// its end all that was kept for it is given up.
pub proof fn law_request_is_carried_through<F: Copy>(
    pre: WsWorker<F>,
    msg: CoordinatorMessage<F>,
    post: WsWorker<F>,
    r: WorkerAction<F>,
)
    requires
        is_handled(pre, msg, post, r),
    ensures
        msg matches CoordinatorMessage::InferenceStart {
            request_id,
            token_ids,
            temperature,
            top_p,
            top_k,
            ..
        } ==> {
            &&& post.sampling@.dom().contains(request_id@)
            &&& post.sampling@[request_id@] == SamplingParams { temperature, top_p, top_k }
            &&& r is Embed && r->Embed_request_id@ == request_id@ && r->token_ids@ == token_ids@
        },
        msg matches CoordinatorMessage::InferenceContinue {
            request_id,
            new_token_id,
            temperature,
            top_p,
            top_k,
            ..
        } ==> {
            &&& post.sampling@.dom().contains(request_id@)
            &&& post.sampling@[request_id@].temperature == Some(temperature)
            &&& top_p is Some ==> post.sampling@[request_id@].top_p == top_p
            &&& top_k is Some ==> post.sampling@[request_id@].top_k == top_k
            &&& top_p is None && pre.sampling@.dom().contains(request_id@)
                ==> post.sampling@[request_id@].top_p == pre.sampling@[request_id@].top_p
            &&& top_k is None && pre.sampling@.dom().contains(request_id@)
                ==> post.sampling@[request_id@].top_k == pre.sampling@[request_id@].top_k
            &&& r is EmbedStep && r->EmbedStep_request_id@ == request_id@ && r->token_id
                == new_token_id
        },
        msg matches CoordinatorMessage::InferenceForward {
            request_id,
            is_last,
            temperature,
            top_p,
            top_k,
            ..
        } ==> {
            &&& r is Nothing
            &&& is_last && temperature is Some ==> sampling_of(
                post.sampling@,
                request_id@,
            ).temperature == temperature
            &&& is_last && top_p is Some ==> sampling_of(post.sampling@, request_id@).top_p == top_p
            &&& is_last && top_k is Some ==> sampling_of(post.sampling@, request_id@).top_k == top_k
            &&& !is_last ==> sampling_of(post.sampling@, request_id@) == sampling_of(
                pre.sampling@,
                request_id@,
            )
        },
        msg matches CoordinatorMessage::InferenceEnd { request_id } ==> {
            &&& !post.sampling@.dom().contains(request_id@)
            &&& r is ClearCache && r->ClearCache_request_id@ == request_id@
        },
        msg is Ping ==> r is Reply && r->Reply_0 is Pong && post == pre,
{
}

/// A node runs what was sent to it: the request and the hidden states of the frame, with the
/// parameters of that request. It generates exactly if it has the last layer of the model.
pub proof fn law_frame_is_run_as_it_was_sent<F: Copy>(
    w: WsWorker<F>,
    id: Seq<char>,
    hidden: Seq<u8>,
    from: usize,
    to: usize,
    r: Option<ForwardJob<F>>,
)
    requires
        encode_utf8(id).len() <= REQUEST_ID_LEN,
        id.len() == 0 || id.last() != '\0',
        w.assigned_layers == Some((from, to)),
        is_forward_job(w, payload_of(id, hidden), r),
    ensures
        r is Some,
        r->0.request_id@ == id,
        r->0.hidden@ == hidden,
        r->0.is_last == (to >= 28),
        r->0.sampling == sampling_of(w.sampling@, id),
        7168 * r->0.seq_len <= hidden.len() < 7168 * (r->0.seq_len + 1),
{
    let data = payload_of(id, hidden);
    law_layer_range_is_read_back(w.model_dir@, from, to);
    law_padded_id_roundtrip(
        id,
        hidden,
        lossy_text(data.subrange(0, REQUEST_ID_LEN as int)),
        r->0.hidden@,
    );
    let n = hidden.len();
    assert(7168 * (n / 7168) <= n < 7168 * (n / 7168 + 1));
}

/// The last node hands on the token, and says of the three end tokens alone that the text ends;
/// every other node hands on the hidden states under the request that they belong to.
pub proof fn law_answer_is_handed_on<F>(
    request_id: String,
    is_last: bool,
    answer: ForwardResponse,
    r: Option<WsResponse<F>>,
    read_id: Seq<char>,
    read_hidden: Seq<u8>,
)
    requires
        is_answer_sent(request_id, is_last, answer, r),
    ensures
        is_last && answer.next_token is Some ==> {
            &&& r is Some
            &&& r->0 matches WsResponse::Text(m)
            &&& m matches ClientMessage::TokenGenerated { request_id: id, token_id, is_eos }
            &&& id@ == request_id@
            &&& token_id == answer.next_token->0
            &&& is_eos == (151643 <= token_id <= 151645)
        },
        is_last && answer.next_token is None ==> r is None,
        !is_last ==> {
            &&& r is Some
            &&& r->0 matches WsResponse::TextAndBinary(m, data)
            &&& m matches ClientMessage::ForwardResult { request_id: id, hidden_states, shape }
            &&& id@ == request_id@
            &&& shape@ == answer.shape@
            &&& encode_utf8(request_id@).len() <= REQUEST_ID_LEN && (request_id@.len() == 0
                || request_id@.last() != '\0') && payload_holds(data@, read_id, read_hidden)
                ==> trim_suffix(read_id, "\0"@) == request_id@ && read_hidden
                == answer.hidden@
        },
{
    if !is_last && encode_utf8(request_id@).len() <= REQUEST_ID_LEN && (request_id@.len() == 0
        || request_id@.last() != '\0') && payload_holds(
        payload_of(request_id@, answer.hidden@),
        read_id,
        read_hidden,
    ) {
        law_padded_id_roundtrip(request_id@, answer.hidden@, read_id, read_hidden);
    }
}

/// A failed download is tried three times in all, then it is reported; a successful one makes
/// the node ready.
pub proof fn law_download_is_tried_three_times<F: Copy>(
    pre: WsWorker<F>,
    attempt: u32,
    succeeded: bool,
    post: WsWorker<F>,
    r: DownloadStep<F>,
)
    requires
        is_download_step(pre, attempt, succeeded, post, r),
    ensures
        succeeded ==> post.layers_ready && r is StartServer && post.download_failed
            == pre.download_failed,
        !succeeded && attempt < 3 ==> r is Retry && post.download_failed == pre.download_failed
            && post.layers_ready == pre.layers_ready,
        !succeeded && attempt >= 3 ==> r is GiveUp && post.download_failed && post.layers_ready
            == pre.layers_ready,
        post.assigned_layers == pre.assigned_layers,
{
}

/// The token ids that the script is given can be read back one by one.
pub proof fn law_token_ids_are_read_back(ids: Seq<u32>)
    requires
        ids.len() > 0,
    ensures
        split_on(joined(id_texts(ids), ","@), ',').len() == ids.len(),
        forall|i: int|
            0 <= i < ids.len() ==> parsed_up_to(
                #[trigger] split_on(joined(id_texts(ids), ","@), ',')[i],
                u32::MAX as nat,
            ) == Some(ids[i] as nat),
{
    lemma_ids_split(ids);
    assert forall|i: int| 0 <= i < ids.len() implies parsed_up_to(
        #[trigger] split_on(joined(id_texts(ids), ","@), ',')[i],
        u32::MAX as nat,
    ) == Some(ids[i] as nat) by {
        lemma_decimal_is_parsed(ids[i] as nat);
    }
}

proof fn lemma_ids_split(ids: Seq<u32>)
    requires
        ids.len() > 0,
    ensures
        split_on(joined(id_texts(ids), ","@), ',') == id_texts(ids),
    decreases ids.len(),
{
    reveal_strlit(",");
    assert(","@ =~= seq![',']);
    let parts = id_texts(ids);
    let d = decimal(ids.last() as nat);
    assert(parts.last() == d);
    lemma_decimal_is_parsed(ids.last() as nat);
    assert forall|i: int| 0 <= i < d.len() implies d[i] != ',' by {
        assert(is_digit(d[i]));
    }
    lemma_split_one(d, ',');
    if ids.len() == 1 {
        assert(parts =~= seq![d]);
    } else {
        let init = ids.drop_last();
        assert(parts.drop_last() =~= id_texts(init));
        lemma_ids_split(init);
        lemma_split_append(joined(id_texts(init), ","@), ',', d);
        assert(id_texts(init) + seq![d] =~= parts);
    }
}

/// Whether a text holds no slash.
pub open spec fn no_slash(s: Seq<char>) -> bool {
    forall|i: int| 0 <= i < s.len() ==> #[trigger] s[i] != '/'
}

proof fn lemma_scheme_place(scheme: Seq<char>, host: Seq<char>, p: Seq<char>, k: int)
    requires
        no_slash(host),
        2 <= k,
        scheme.len() == k + 2,
        forall|i: int| 0 <= i < k ==> #[trigger] scheme[i] != '/',
        scheme[k] == '/',
        scheme[k + 1] == '/',
        p.len() >= 2,
        p[p.len() - 2] == '/',
        p[p.len() - 1] == '/',
    ensures
        forall|i: int| #[trigger] occurs_at(scheme + host, p, i) ==> i + p.len() == scheme.len(),
        !contains(host, p),
{
    let url = scheme + host;
    assert forall|i: int| #[trigger] occurs_at(url, p, i) implies i + p.len() == scheme.len() by {
        let part = url.subrange(i, i + p.len());
        let at = i + p.len() - 2;
        assert(part[p.len() - 2] == url[at]);
        assert(part[p.len() - 1] == url[at + 1]);
        if at > k {
            if at + 1 >= scheme.len() {
                assert(url[at + 1] == host[at + 1 - scheme.len()]);
            }
        } else if at < k {
            assert(url[at] == scheme[at]);
        }
    }
    assert forall|i: int| !#[trigger] occurs_at(host, p, i) by {
        if occurs_at(host, p, i) {
            let part = host.subrange(i, i + p.len());
            assert(part[p.len() - 1] == host[i + p.len() - 1]);
        }
    }
}

/// A coordinator's socket is reached at its host, over TLS exactly if its address says so.
pub proof fn law_socket_is_at_the_host(host: Seq<char>)
    requires
        host.len() > 0,
        no_slash(host),
    ensures
        ws_url_of("http://"@ + host) == "ws://"@ + host + "/ws"@,
        ws_url_of("https://"@ + host) == "wss://"@ + host + "/ws"@,
{
    reveal_strlit("http://");
    reveal_strlit("https://");
    reveal_strlit("ws://");
    reveal_strlit("wss://");
    reveal_strlit("/");
    let none = Seq::<char>::empty();
    let plain = "http://"@ + host;
    lemma_scheme_place("http://"@, host, "https://"@, 5);
    lemma_scheme_place("http://"@, host, "http://"@, 5);
    assert forall|i: int| !#[trigger] occurs_at(plain, "https://"@, i) by {}
    law_replacing_goes_from_part_to_part(plain, "https://"@, "wss://"@, none, none);
    lemma_replaced_scheme("http://"@, host, "ws://"@);
    lemma_ends_bare("ws://"@, host);
    let secure = "https://"@ + host;
    lemma_scheme_place("https://"@, host, "https://"@, 6);
    lemma_replaced_scheme("https://"@, host, "wss://"@);
    let socket = "wss://"@ + host;
    lemma_scheme_place("wss://"@, host, "http://"@, 4);
    assert forall|i: int| !#[trigger] occurs_at(socket, "http://"@, i) by {}
    law_replacing_goes_from_part_to_part(socket, "http://"@, "ws://"@, none, none);
    lemma_ends_bare("wss://"@, host);
}

proof fn lemma_replaced_scheme(scheme: Seq<char>, host: Seq<char>, to: Seq<char>)
    requires
        scheme.len() > 0,
        forall|i: int| #[trigger] occurs_at(scheme + host, scheme, i) ==> i + scheme.len()
            == scheme.len(),
        !contains(host, scheme),
    ensures
        replaced(scheme + host, scheme, to) == to + host,
{
    let none = Seq::<char>::empty();
    let url = scheme + host;
    lemma_find_from(url, scheme, 0);
    law_part_is_found(none, scheme, host);
    assert(none + scheme + host =~= url);
    assert(find_from(url, scheme, 0) == 0);
    law_replacing_goes_from_part_to_part(url, scheme, to, none, host);
    law_replacing_goes_from_part_to_part(host, scheme, to, none, none);
    assert(none + to + host =~= to + host);
}

proof fn lemma_ends_bare(scheme: Seq<char>, host: Seq<char>)
    requires
        host.len() > 0,
        no_slash(host),
    ensures
        trim_suffix(scheme + host, "/"@) == scheme + host,
{
    reveal_strlit("/");
    let s = scheme + host;
    if ends_with(s, "/"@) {
        assert(s.subrange(s.len() - 1, s.len() as int)[0] == "/"@[0]);
        assert(s[s.len() - 1] == host[host.len() - 1]);
    }
}

/// An answer that reports no error is read as it was sent: the hidden states, their shape number
/// by number, and the token. One that reports an error is never taken for a result.
pub proof fn law_answer_is_read_as_it_was_sent(
    header: Seq<char>,
    hidden: Vec<u8>,
    r: Result<ForwardResponse, AnswerError>,
    i: int,
)
    requires
        is_answer_read(header, hidden, r),
        json_valid(header),
        0 <= i < numbers_at(header, "shape"@).len(),
    ensures
        match json_number_under(header, "status"@) {
            None => r is Ok,
            Some(n) => n < 0x1_0000 ==> (r is Ok <==> n < 400),
        },
        r is Ok ==> {
            &&& (r->Ok_0).hidden == hidden
            &&& (r->Ok_0).shape@.len() == numbers_at(header, "shape"@).len()
            &&& numbers_at(header, "shape"@)[i] <= usize::MAX ==> (r->Ok_0).shape@[i]
                == numbers_at(header, "shape"@)[i]
            &&& match json_number_under(header, "next_token"@) {
                None => (r->Ok_0).next_token is None,
                Some(n) => n < 0x1_0000_0000 ==> (r->Ok_0).next_token == Some(n as u32),
            }
        },
        r is Err ==> (r->Err_0 matches AnswerError::Server { status, .. } && 400 <= status),
{
}

/// The number that a text states under a key.
pub open spec fn json_number_under(text: Seq<char>, key: Seq<char>) -> Option<u64> {
    match json_get(text, key) {
        Some(v) => crate::json::json_number(v),
        None => None,
    }
}

/// A directory holds weights where a file ends like them, whatever it is called.
pub proof fn law_weight_files_are_seen_by_their_ending(name: Seq<char>)
    ensures
        is_weight_file(name + ".safetensors"@),
        is_weight_file("config.json"@),
{
    let s = name + ".safetensors"@;
    assert(s.subrange(s.len() - ".safetensors"@.len(), s.len() as int) =~= ".safetensors"@);
}

/// The HTTP interface of a coordinator is at the host of its socket, over TLS exactly if the
/// socket is.
pub proof fn law_interface_is_at_the_host(host: Seq<char>)
    requires
        host.len() > 0,
        no_slash(host),
        host[0] != 'w',
    ensures
        http_url_of("wss://"@ + host + "/ws"@) == "https://"@ + host,
{
    reveal_strlit("https://");
    reveal_strlit("http://");
    reveal_strlit("wss://");
    reveal_strlit("ws://");
    reveal_strlit("/ws");
    reveal_strlit("");
    let none = Seq::<char>::empty();
    let tail = host + "/ws"@;
    let socket = "wss://"@ + tail;
    assert("wss://"@ + host + "/ws"@ =~= socket);
    lemma_double_slash(socket, "wss://"@, 4);
    lemma_double_slash(tail, "wss://"@, -1);
    lemma_replaced_scheme("wss://"@, tail, "https://"@);
    let plain = "https://"@ + tail;
    lemma_double_slash(plain, "ws://"@, 6);
    assert forall|i: int| !#[trigger] occurs_at(plain, "ws://"@, i) by {
        if occurs_at(plain, "ws://"@, i) {
            assert(plain.subrange(i, i + 5)[0] == "ws://"@[0]);
            assert(plain[i] == 'p');
        }
    }
    law_replacing_goes_from_part_to_part(plain, "ws://"@, "http://"@, none, none);
    let kept = "https://"@ + host;
    assert(plain =~= kept + "/ws"@ + none);
    assert forall|i: int| #[trigger] occurs_at(plain, "/ws"@, i) implies i == kept.len() by {
        let part = plain.subrange(i, i + 3);
        assert(part[0] == "/ws"@[0] && part[1] == "/ws"@[1]);
        assert(plain[i] == '/' && plain[i + 1] == 'w');
        if i < 8 {
            assert(i == 6 || i == 7);
            assert(plain[7] == '/' && plain[8] == host[0]);
        } else if i < kept.len() {
            assert(plain[i] == host[i - 8]);
        }
    }
    lemma_find_from(plain, "/ws"@, 0);
    law_part_is_found(kept, "/ws"@, none);
    law_replacing_goes_from_part_to_part(plain, "/ws"@, ""@, kept, none);
    assert(!contains(none, "/ws"@));
    law_replacing_goes_from_part_to_part(none, "/ws"@, ""@, none, none);
    assert(""@ =~= none);
    assert(kept + none + none =~= kept);
}

proof fn lemma_double_slash(s: Seq<char>, p: Seq<char>, k: int)
    requires
        p.len() >= 2,
        p[p.len() - 2] == '/',
        p[p.len() - 1] == '/',
        forall|i: int| 0 <= i < s.len() - 1 && i != k && #[trigger] s[i] == '/' ==> s[i + 1] != '/',
    ensures
        forall|i: int| #[trigger] occurs_at(s, p, i) ==> i + p.len() - 2 == k,
        k < 0 ==> !contains(s, p),
{
    assert forall|i: int| #[trigger] occurs_at(s, p, i) implies i + p.len() - 2 == k by {
        let part = s.subrange(i, i + p.len());
        let at = i + p.len() - 2;
        assert(part[p.len() - 2] == s[at]);
        assert(part[p.len() - 1] == s[at + 1]);
    }
}

} // verus!
