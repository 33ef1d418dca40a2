//! What the coordinator's HTTP handlers decide and compute.
//!
//! Request bodies come as JSON texts, moments in nanoseconds, times in seconds since the
//! epoch. `F` is the number type of scores and temperatures.
use crate::chatml::chat_prompt;
use crate::codec::decode_adapter;
use crate::dataset_store::{DatasetExample, DatasetStats};
use crate::ids::fresh_id;
use crate::json;
use crate::layer_training::{LayerAssignment, LayerTrainingStore};
use crate::node_stats::NANOS_PER_SEC;
use crate::synthesis::prompts::{random_prompt, Prompt};
use crate::registry::{NodeCapabilities, NodeInfo, NodeRegistry};
use crate::task_store::{TaskInfo, TaskStatus};
use crate::text::{
    concat,
    concat3,
    format_number,
    has,
    has_suffix,
    lines,
    parse_usize,
    replace,
    str_eq,
    to_lowercase,
    trim,
};
use crate::training_store::TrainingStore;
use vstd::prelude::*;

verus! {

use crate::chatml::chat_text;
use crate::codec::base64_bytes;
use crate::layer_training::{adapter_taken, holds_id, is_new_round};
use crate::json::{
    is_true,
    json_get,
    json_members,
    json_number,
    json_number_list,
    json_signed,
    number_at,
    number_or,
    string_at,
    string_or,
    strings_at,
};
use crate::node_stats::secs_between;
use crate::synthesis::prompts::{category_of as bank_category, lemma_selects, place_of, prompt_of, prompt_texts};
use crate::seqs::{first_index, keep, lemma_first_index_is, lemma_keep_all, lemma_keep_step};
use crate::text::{
    contains,
    decimal,
    ends_with,
    find_from,
    is_line,
    joined,
    law_joined_lines_are_read_back,
    law_part_is_found,
    law_replacing_goes_from_part_to_part,
    lemma_decimal_is_parsed,
    lemma_find_from,
    lines_of,
    lowercase,
    occurs_at,
    parsed_up_to,
    replaced,
    texts,
    trimmed,
};
use vstd::string::StringExecFns;

// ── Access ───────────────────────────────────────────────────────────────────

/// Whether a request presents a key: as a bearer token or in the API key header.
pub open spec fn presents_key(
    authorization: Option<Seq<char>>,
    api_key: Option<Seq<char>>,
    key: Seq<char>,
) -> bool {
    authorization == Some("Bearer "@ + key) || api_key == Some(key)
}

pub open spec fn opt_text(o: Option<&str>) -> Option<Seq<char>> {
    match o {
        Some(s) => Some(s@),
        None => None,
    }
}

/// Whether a request may pass: anyone where no key is configured, else who presents it.
pub open spec fn may_pass(
    expected: Option<Seq<char>>,
    authorization: Option<Seq<char>>,
    api_key: Option<Seq<char>>,
) -> bool {
    match expected {
        None => true,
        Some(k) => k.len() == 0 || presents_key(authorization, api_key, k),
    }
}

/// Whether a request may pass: anyone where no key is configured, else who presents it.
pub fn require_api_key(
    expected: Option<&str>,
    authorization: Option<&str>,
    api_key: Option<&str>,
) -> (allowed: bool)
    ensures
        allowed == may_pass(opt_text(expected), opt_text(authorization), opt_text(api_key)),
{
    let key = match expected {
        None => {
            return true;
        },
        Some(k) => k,
    };
    if key.is_empty() {
        return true;
    }
    if let Some(a) = authorization {
        let expected = concat("Bearer ", key);
        if str_eq(a, expected.as_str()) {
            return true;
        }
    }
    match api_key {
        Some(k) => str_eq(k, key),
        None => false,
    }
}

// ── Registration and tasks ───────────────────────────────────────────────────

/// Seconds between heartbeats that registered nodes are told.
pub const HEARTBEAT_INTERVAL_SECS: u64 = 20;

/// Bytes that one heartbeat counts for.
pub const HEARTBEAT_BYTES: u64 = 64;

fn low_half(n: u64) -> (r: u32)
    ensures
        r == n % 0x1_0000_0000,
{
    (n % 0x1_0000_0000) as u32
}

/// The name and capabilities that a registration states; what is missing has a default.
pub fn parse_registration(body: &str) -> (r: (String, NodeCapabilities))
    ensures
        r.0@ == string_or(body@, "node_name"@, "unknown"@),
        texts(r.1.available_models@) == strings_at(body@, "models"@),
        r.1.hardware_info@ == string_or(body@, "hardware_info"@, ""@),
        r.1.max_concurrent_tasks == number_or(body@, "max_concurrent_tasks"@, 1) % 0x1_0000_0000,
{
    let name = json::get_string_or(body, "node_name", "unknown");
    let caps = NodeCapabilities {
        available_models: json::get_strings(body, "models"),
        hardware_info: json::get_string_or(body, "hardware_info", ""),
        max_concurrent_tasks: low_half(json::get_number_or(body, "max_concurrent_tasks", 1)),
    };
    (name, caps)
}

/// The node and its number of active tasks that a heartbeat states.
pub fn parse_heartbeat(body: &str) -> (r: (String, u32))
    ensures
        r.0@ == string_or(body@, "node_id"@, ""@),
        r.1 == number_or(body@, "active_tasks"@, 0) % 0x1_0000_0000,
{
    (
        json::get_string_or(body, "node_id", ""),
        low_half(json::get_number_or(body, "active_tasks", 0)),
    )
}

/// The node id that a request states.
pub fn parse_node_id(body: &str) -> (r: String)
    ensures
        r@ == string_or(body@, "node_id"@, ""@),
{
    json::get_string_or(body, "node_id", "")
}

/// How a task ended, as its node reports it.
#[derive(Debug)]
pub enum TaskReport {
    Done { task_id: String, response_text: String, duration_ms: u64 },
    Failed { task_id: String, error_message: String },
}

/// Reads a node's report on a task.
pub fn parse_task_report(body: &str) -> (r: TaskReport)
    ensures
        match r {
            TaskReport::Done { task_id, response_text, duration_ms } => {
                &&& is_true(body@, "success"@)
                &&& task_id@ == string_or(body@, "task_id"@, ""@)
                &&& response_text@ == string_or(body@, "response_text"@, ""@)
                &&& duration_ms == number_or(body@, "duration_ms"@, 0)
            },
            TaskReport::Failed { task_id, error_message } => {
                &&& !is_true(body@, "success"@)
                &&& task_id@ == string_or(body@, "task_id"@, ""@)
                &&& error_message@ == string_or(body@, "error_message"@, ""@)
            },
        },
{
    let task_id = json::get_string_or(body, "task_id", "");
    if json::get_true(body, "success") {
        TaskReport::Done {
            task_id,
            response_text: json::get_string_or(body, "response_text", ""),
            duration_ms: json::get_number_or(body, "duration_ms", 0),
        }
    } else {
        TaskReport::Failed {
            task_id,
            error_message: json::get_string_or(body, "error_message", ""),
        }
    }
}

/// Tokens of a task that states no limit.
pub const DEFAULT_MAX_TOKENS: u32 = 512;

/// A task as the client sees it.
#[derive(Debug)]
pub struct InferenceStatus {
    pub task_id: String,
    pub status: String,
    pub model: String,
    pub response_text: Option<String>,
    pub error: Option<String>,
    pub duration_ms: Option<u64>,
}

/// The client's view of a task.
pub fn inference_status<F>(task: &TaskInfo<F>) -> (r: InferenceStatus)
    ensures
        r.task_id == task.task_id,
        r.model == task.model,
        match task.status {
            TaskStatus::Pending => r.status@ == "pending"@ && r.response_text is None
                && r.error is None && r.duration_ms is None,
            TaskStatus::Assigned { node_id, assigned_at } => r.status@ == "assigned"@
                && r.response_text is None && r.error is None && r.duration_ms is None,
            TaskStatus::Completed { response_text, duration_ms } => r.status@ == "completed"@
                && r.response_text == Some(response_text) && r.error is None && r.duration_ms
                == Some(duration_ms),
            TaskStatus::Failed { error } => r.status@ == "failed"@ && r.response_text is None
                && r.error == Some(error) && r.duration_ms is None,
        },
{
    let (status, response_text, error, duration_ms) = match &task.status {
        TaskStatus::Pending => ("pending", None, None, None),
        TaskStatus::Assigned { node_id, assigned_at } => ("assigned", None, None, None),
        TaskStatus::Completed { response_text, duration_ms } => (
            "completed",
            Some(response_text.clone()),
            None,
            Some(*duration_ms),
        ),
        TaskStatus::Failed { error } => ("failed", None, Some(error.clone()), None),
    };
    InferenceStatus {
        task_id: task.task_id.clone(),
        status: status.to_owned(),
        model: task.model.clone(),
        response_text,
        error,
        duration_ms,
    }
}

// ── Nodes ────────────────────────────────────────────────────────────────────

/// Whether a hardware description names a GPU on which the cluster entry can rely.
pub open spec fn names_cluster_gpu(hw: Seq<char>) -> bool {
    ||| contains(hw, "M1"@)
    ||| contains(hw, "M2"@)
    ||| contains(hw, "M3"@)
    ||| contains(hw, "M4"@)
    ||| contains(hw, "NVIDIA"@)
    ||| contains(hw, "RTX"@)
}

/// Whether a hardware description names a GPU.
pub open spec fn names_gpu(hw: Seq<char>) -> bool {
    names_cluster_gpu(hw) || contains(hw, "GTX"@)
}

/// Whether a node counts as a GPU node: it has models, or its hardware is a GPU.
pub open spec fn is_gpu_node(n: NodeInfo) -> bool {
    n.capabilities.available_models@.len() > 0 || names_gpu(n.capabilities.hardware_info@)
}

fn hardware_is_cluster_gpu(hw: &str) -> (r: bool)
    ensures
        r == names_cluster_gpu(hw@),
{
    has(hw, "M1") || has(hw, "M2") || has(hw, "M3") || has(hw, "M4") || has(hw, "NVIDIA") || has(
        hw,
        "RTX",
    )
}

/// Whether a node counts as a GPU node.
pub fn has_gpu(n: &NodeInfo) -> (r: bool)
    ensures
        r == is_gpu_node(*n),
{
    n.capabilities.available_models.len() > 0 || hardware_is_cluster_gpu(
        n.capabilities.hardware_info.as_str(),
    ) || has(n.capabilities.hardware_info.as_str(), "GTX")
}

/// A node as the node list shows it.
#[derive(Debug)]
pub struct NodeSummary {
    pub node_id: String,
    pub node_name: String,
    pub models: Vec<String>,
    pub active_tasks: u32,
    pub hardware: String,
    pub has_gpu: bool,
    pub role: String,
    pub uptime_secs: u64,
    pub last_seen_secs: u64,
    pub status: String,
    pub contributions: usize,
}

/// The count under a name, if there is one.
pub open spec fn count_under(counts: Seq<(String, usize)>, name: Seq<char>) -> Option<usize> {
    let k = first_index(counts, |e: (String, usize)| e.0@ == name);
    if k < counts.len() {
        Some(counts[k].1)
    } else {
        None
    }
}

/// The examples that a node contributed: under its id, else under its name.
pub open spec fn contributions_of(
    counts: Seq<(String, usize)>,
    node_id: Seq<char>,
    node_name: Seq<char>,
) -> usize {
    match count_under(counts, node_id) {
        Some(n) => n,
        None => match count_under(counts, node_name) {
            Some(n) => n,
            None => 0,
        },
    }
}

fn find_count(counts: &Vec<(String, usize)>, name: &str) -> (r: Option<usize>)
    ensures
        r == count_under(counts@, name@),
{
    let ghost p = |e: (String, usize)| e.0@ == name@;
    let mut k: usize = 0;
    while k < counts.len()
        invariant
            k <= counts@.len(),
            p == (|e: (String, usize)| e.0@ == name@),
            forall|j: int| 0 <= j < k ==> !p(#[trigger] counts@[j]),
        decreases counts@.len() - k,
    {
        if str_eq(counts[k].0.as_str(), name) {
            proof {
                lemma_first_index_is(counts@, p, k as int);
            }
            return Some(counts[k].1);
        }
        k = k + 1;
    }
    proof {
        lemma_first_index_is(counts@, p, k as int);
    }
    None
}

fn clone_texts(v: &Vec<String>) -> (r: Vec<String>)
    ensures
        r@ == v@,
{
    let mut r: Vec<String> = Vec::new();
    let mut i: usize = 0;
    while i < v.len()
        invariant
            i <= v@.len(),
            r@ == v@.subrange(0, i as int),
        decreases v@.len() - i,
    {
        r.push(v[i].clone());
        i = i + 1;
        assert(v@.subrange(0, i as int) == v@.subrange(0, i - 1).push(v@[i - 1]));
    }
    assert(v@.subrange(0, v@.len() as int) == v@);
    r
}

/// A node for the node list.
pub fn node_summary(n: &NodeInfo, by_node: &Vec<(String, usize)>, now: u64) -> (s: NodeSummary)
    ensures
        s.node_id == n.node_id,
        s.node_name == n.node_name,
        s.models@ == n.capabilities.available_models@,
        s.active_tasks == n.active_tasks,
        s.hardware@ == if n.capabilities.hardware_info@.len() == 0 {
            "unknown"@
        } else {
            n.capabilities.hardware_info@
        },
        s.has_gpu == is_gpu_node(*n),
        s.role@ == if is_gpu_node(*n) {
            "trainer"@
        } else {
            "worker"@
        },
        s.uptime_secs == secs_between(n.registered_at, now),
        s.last_seen_secs == secs_between(n.last_heartbeat, now),
        s.status@ == if secs_between(n.last_heartbeat, now) < 60 {
            "online"@
        } else {
            "stale"@
        },
        s.contributions == contributions_of(by_node@, n.node_id@, n.node_name@),
{
    let uptime_secs: u64 = now.saturating_sub(n.registered_at) / NANOS_PER_SEC;
    let last_seen_secs: u64 = now.saturating_sub(n.last_heartbeat) / NANOS_PER_SEC;
    let gpu = has_gpu(n);
    let contributions: usize = match find_count(by_node, n.node_id.as_str()) {
        Some(c) => c,
        None => match find_count(by_node, n.node_name.as_str()) {
            Some(c) => c,
            None => 0,
        },
    };
    NodeSummary {
        node_id: n.node_id.clone(),
        node_name: n.node_name.clone(),
        models: clone_texts(&n.capabilities.available_models),
        active_tasks: n.active_tasks,
        hardware: if n.capabilities.hardware_info.as_str().is_empty() {
            "unknown".to_owned()
        } else {
            n.capabilities.hardware_info.clone()
        },
        has_gpu: gpu,
        role: if gpu {
            "trainer".to_owned()
        } else {
            "worker".to_owned()
        },
        uptime_secs,
        last_seen_secs,
        status: if last_seen_secs < 60 {
            "online".to_owned()
        } else {
            "stale".to_owned()
        },
        contributions,
    }
}

/// Number of GPU nodes.
pub fn count_gpu_nodes(registry: &NodeRegistry) -> (n: usize)
    ensures
        n == keep(
            registry.nodes.entries@,
            |e: (String, NodeInfo)| is_gpu_node(e.1),
        ).len(),
        n <= registry.nodes.entries@.len(),
{
    let nodes = registry.list_nodes();
    let ghost p = |e: (String, NodeInfo)| is_gpu_node(e.1);
    let mut n: usize = 0;
    let mut i: usize = 0;
    while i < nodes.len()
        invariant
            i <= nodes@.len(),
            p == (|e: (String, NodeInfo)| is_gpu_node(e.1)),
            n <= i,
            n == keep(nodes@.subrange(0, i as int), p).len(),
        decreases nodes@.len() - i,
    {
        proof {
            lemma_keep_step(nodes@, p, i as int);
        }
        if has_gpu(&nodes[i].1) {
            n = n + 1;
        }
        i = i + 1;
    }
    assert(nodes@.subrange(0, nodes@.len() as int) == nodes@);
    n
}

// ── Prompts and examples ─────────────────────────────────────────────────────

/// How many prompts a request gets: what it asks for, ten by default, a hundred at most.
pub open spec fn prompt_count(param: Option<Seq<char>>) -> nat {
    let asked = match param {
        Some(s) => match parsed_up_to(s, usize::MAX as nat) {
            Some(n) => n,
            None => 10,
        },
        None => 10,
    };
    if asked <= 100 {
        asked
    } else {
        100
    }
}

/// The seed of prompt `i`.
pub open spec fn prompt_seed(base: u64, i: int) -> u64 {
    base.wrapping_add((i * 31337) as u64)
}

/// Whether these are the prompts that a request gets.
pub open spec fn are_prompts(r: Seq<Prompt>, count: Option<Seq<char>>, base_seed: u64) -> bool {
    &&& r.len() == prompt_count(count)
    &&& forall|i: int|
        0 <= i < r.len() ==> prompt_texts(r)[i] == prompt_of(prompt_seed(base_seed, i) as int)
}

/// A batch of prompts.
pub fn get_prompts(count: Option<&str>, base_seed: u64) -> (r: Vec<Prompt>)
    ensures
        are_prompts(r@, opt_text(count), base_seed),
{
    let asked: usize = match count {
        Some(s) => match parse_usize(s) {
            Some(n) => n,
            None => 10,
        },
        None => 10,
    };
    let n: usize = if asked <= 100 {
        asked
    } else {
        100
    };
    let mut r: Vec<Prompt> = Vec::new();
    let mut i: usize = 0;
    while i < n
        invariant
            i <= n <= 100,
            r@.len() == i,
            forall|k: int|
                0 <= k < i ==> prompt_texts(r@)[k] == prompt_of(
                    prompt_seed(base_seed, k) as int,
                ),
        decreases n - i,
    {
        let ghost before = r@;
        r.push(random_prompt(base_seed.wrapping_add(i as u64 * 31337)));
        assert(prompt_texts(r@) == prompt_texts(before).push((
            r@[i as int].category@,
            r@[i as int].instruction@,
        )));
        i = i + 1;
    }
    r
}

/// Why a submitted example is refused.
#[derive(Debug, Clone, Copy, PartialEq, Eq, Structural)]
pub enum ExampleRefusal {
    MissingInstruction,
    MissingResponse,
}

impl ExampleRefusal {
    /// The error that the client is shown.
    pub fn message(&self) -> (s: &'static str)
        ensures
            s@ == match *self {
                ExampleRefusal::MissingInstruction => "Missing instruction"@,
                ExampleRefusal::MissingResponse => "Missing response"@,
            },
    {
        match self {
            ExampleRefusal::MissingInstruction => "Missing instruction",
            ExampleRefusal::MissingResponse => "Missing response",
        }
    }
}

/// Whether the text holds a string under the key that is not empty.
pub open spec fn has_text(body: Seq<char>, key: Seq<char>) -> bool {
    string_at(body, key) is Some && string_at(body, key)->0.len() > 0
}

/// The example that a node submits.
pub fn parse_example<F>(
    example: &str,
    node_id: String,
    quality_score: Option<F>,
    now_secs: u64,
) -> (r: Result<DatasetExample<F>, ExampleRefusal>)
    ensures
        match r {
            Err(ExampleRefusal::MissingInstruction) => !has_text(example@, "instruction"@),
            Err(ExampleRefusal::MissingResponse) => has_text(example@, "instruction"@)
                && !has_text(example@, "response"@),
            Ok(e) => {
                &&& has_text(example@, "instruction"@)
                &&& has_text(example@, "response"@)
                &&& string_at(example@, "id"@) is Some ==> e.id@ == string_at(example@, "id"@)->0
                &&& string_at(example@, "id"@) is None ==> e.id@.len() == 36
                &&& e.instruction@ == string_at(example@, "instruction"@)->0
                &&& e.response@ == string_at(example@, "response"@)->0
                &&& e.category@ == string_or(example@, "category"@, "unknown"@)
                &&& e.provider@ == string_or(example@, "provider"@, "unknown"@)
                &&& e.model@ == string_or(example@, "model"@, ""@)
                &&& e.node_id == node_id
                &&& e.refined == is_true(example@, "refined"@)
                &&& e.execution_verified == is_true(example@, "execution_verified"@)
                &&& e.quality_score == quality_score
                &&& e.submitted_at_secs == now_secs
            },
        },
{
    let instruction = match json::get_string(example, "instruction") {
        Some(s) => s,
        None => {
            return Err(ExampleRefusal::MissingInstruction);
        },
    };
    if instruction.as_str().is_empty() {
        return Err(ExampleRefusal::MissingInstruction);
    }
    let response = match json::get_string(example, "response") {
        Some(s) => s,
        None => {
            return Err(ExampleRefusal::MissingResponse);
        },
    };
    if response.as_str().is_empty() {
        return Err(ExampleRefusal::MissingResponse);
    }
    let id = match json::get_string(example, "id") {
        Some(s) => s,
        None => fresh_id(),
    };
    Ok(
        DatasetExample {
            id,
            instruction,
            response,
            category: json::get_string_or(example, "category", "unknown"),
            provider: json::get_string_or(example, "provider", "unknown"),
            model: json::get_string_or(example, "model", ""),
            node_id,
            refined: json::get_true(example, "refined"),
            execution_verified: json::get_true(example, "execution_verified"),
            quality_score,
            submitted_at_secs: now_secs,
        },
    )
}

/// The category that the words of a lowercase instruction suggest.
pub open spec fn category_spec(lower: Seq<char>) -> Seq<char> {
    if contains(lower, "debug"@) || contains(lower, "fix"@) || contains(lower, "error"@) {
        "debugging"@
    } else if contains(lower, "test"@) {
        "testing"@
    } else if contains(lower, "refactor"@) || contains(lower, "optimize"@) {
        "refactoring"@
    } else if contains(lower, "algorithm"@) || contains(lower, "sort"@) {
        "algorithms"@
    } else if contains(lower, "api"@) || contains(lower, "endpoint"@) {
        "api_design"@
    } else if contains(lower, "database"@) || contains(lower, "sql"@) {
        "database"@
    } else if contains(lower, "docker"@) || contains(lower, "deploy"@) {
        "devops"@
    } else {
        "code_generation"@
    }
}

/// The category that the words of a lowercase instruction suggest.
pub fn category_of(lower: &str) -> (c: &'static str)
    ensures
        c@ == category_spec(lower@),
{
    if has(lower, "debug") || has(lower, "fix") || has(lower, "error") {
        "debugging"
    } else if has(lower, "test") {
        "testing"
    } else if has(lower, "refactor") || has(lower, "optimize") {
        "refactoring"
    } else if has(lower, "algorithm") || has(lower, "sort") {
        "algorithms"
    } else if has(lower, "api") || has(lower, "endpoint") {
        "api_design"
    } else if has(lower, "database") || has(lower, "sql") {
        "database"
    } else if has(lower, "docker") || has(lower, "deploy") {
        "devops"
    } else {
        "code_generation"
    }
}

/// Whether a line of an import holds an example.
pub open spec fn line_has_example(line: Seq<char>) -> bool {
    has_text(line, "instruction"@) && has_text(line, "response"@)
}

/// The provider that a line names, under "source" or "provider".
pub open spec fn line_provider(line: Seq<char>) -> Seq<char> {
    match string_at(line, "source"@) {
        Some(s) => s,
        None => string_or(line, "provider"@, "huggingface"@),
    }
}

/// The example that a line of an import holds.
pub open spec fn is_imported<F>(e: DatasetExample<F>, line: Seq<char>, now_secs: u64) -> bool {
    &&& e.id@.len() == 36
    &&& e.instruction@ == string_at(line, "instruction"@)->0
    &&& e.response@ == string_at(line, "response"@)->0
    &&& e.category@ == category_spec(lowercase(e.instruction@))
    &&& e.provider@ == line_provider(line)
    &&& e.model@ == string_or(line, "model"@, ""@)
    &&& e.node_id@ == "bulk-import"@
    &&& !e.refined
    &&& !e.execution_verified
    &&& e.quality_score is None
    &&& e.submitted_at_secs == now_secs
}

/// The trimmed lines of an import that hold examples.
pub open spec fn example_lines(body: Seq<char>) -> Seq<Seq<char>> {
    keep(
        lines_of(body).map_values(|l: Seq<char>| trimmed(l)),
        |l: Seq<char>| l.len() > 0 && line_has_example(l),
    )
}

/// Whether these are the examples of an import.
pub open spec fn is_import<F>(r: Seq<DatasetExample<F>>, body: Seq<char>, now_secs: u64) -> bool {
    &&& r.len() == example_lines(body).len()
    &&& forall|i: int|
        0 <= i < r.len() ==> is_imported(#[trigger] r[i], example_lines(body)[i], now_secs)
}

/// The example that a trimmed line of an import holds, if any.
pub fn import_line<F>(line: &str, now_secs: u64) -> (r: Option<DatasetExample<F>>)
    ensures
        r is Some == line_has_example(line@),
        r is Some ==> is_imported(r->0, line@, now_secs),
{
    let instruction = match json::get_string(line, "instruction") {
        Some(s) => s,
        None => {
            return None;
        },
    };
    let response = match json::get_string(line, "response") {
        Some(s) => s,
        None => {
            return None;
        },
    };
    if instruction.as_str().is_empty() || response.as_str().is_empty() {
        return None;
    }
    let lower = to_lowercase(instruction.as_str());
    let category = category_of(lower.as_str()).to_owned();
    let provider = match json::get_string(line, "source") {
        Some(s) => s,
        None => json::get_string_or(line, "provider", "huggingface"),
    };
    Some(
        DatasetExample {
            id: fresh_id(),
            instruction,
            response,
            category,
            provider,
            model: json::get_string_or(line, "model", ""),
            node_id: "bulk-import".to_owned(),
            refined: false,
            execution_verified: false,
            quality_score: None,
            submitted_at_secs: now_secs,
        },
    )
}

/// The examples of an import with one JSON object per line; other lines are passed over.
pub fn bulk_import<F>(body: &str, now_secs: u64) -> (r: Vec<DatasetExample<F>>)
    ensures
        is_import(r@, body@, now_secs),
{
    let all = lines(body);
    let ghost src = lines_of(body@).map_values(|l: Seq<char>| trimmed(l));
    let ghost p = |l: Seq<char>| l.len() > 0 && line_has_example(l);
    let mut r: Vec<DatasetExample<F>> = Vec::new();
    let mut i: usize = 0;
    assert(keep(src.subrange(0, 0), p).len() == 0);
    while i < all.len()
        invariant
            i <= all@.len(),
            texts(all@) == lines_of(body@),
            src == lines_of(body@).map_values(|l: Seq<char>| trimmed(l)),
            p == (|l: Seq<char>| l.len() > 0 && line_has_example(l)),
            r@.len() == keep(src.subrange(0, i as int), p).len(),
            forall|k: int|
                0 <= k < r@.len() ==> is_imported(
                    #[trigger] r@[k],
                    keep(src.subrange(0, i as int), p)[k],
                    now_secs,
                ),
        decreases all@.len() - i,
    {
        proof {
            lemma_keep_step(src, p, i as int);
            assert(lines_of(body@)[i as int] == all@[i as int]@);
        }
        let line = trim(all[i].as_str());
        if !line.as_str().is_empty() {
            if let Some(e) = import_line(line.as_str(), now_secs) {
                r.push(e);
            }
        }
        i = i + 1;
    }
    assert(src.subrange(0, src.len() as int) == src);
    r
}

// ── Defaults of request fields ───────────────────────────────────────────────

pub fn default_shard_size() -> (n: usize)
    ensures
        n == 50,
{
    50
}

pub fn default_lora_rank() -> (n: u32)
    ensures
        n == 16,
{
    16
}

pub fn default_num_epochs() -> (n: u32)
    ensures
        n == 3,
{
    3
}

pub fn default_version() -> (s: String)
    ensures
        s@ == "v0.1"@,
{
    "v0.1".to_owned()
}

pub fn default_layers_per() -> (n: usize)
    ensures
        n == 2,
{
    2
}

pub fn default_examples_per() -> (n: usize)
    ensures
        n == 1000,
{
    1000
}

pub fn default_top_k() -> (n: usize)
    ensures
        n == 5,
{
    5
}

// ── The code to verify ───────────────────────────────────────────────────────

/// The code that a request wants verified; none if it states none.
pub fn parse_verify_request(body: &str) -> (r: Option<String>)
    ensures
        match r {
            Some(c) => has_text(body@, "code"@) && string_at(body@, "code"@) == Some(c@),
            None => !has_text(body@, "code"@),
        },
{
    match json::get_string(body, "code") {
        Some(c) => if c.as_str().is_empty() {
            None
        } else {
            Some(c)
        },
        None => None,
    }
}

// ── Inference ────────────────────────────────────────────────────────────────

/// Where the inference proxy sends its requests: the configured entry, else this machine if
/// some registered node has a GPU.
pub open spec fn proxy_target_spec(entry: Seq<char>, nodes: Seq<(String, NodeInfo)>) -> Option<
    Seq<char>,
> {
    if entry.len() > 0 {
        Some(entry)
    } else if exists|i: int|
        0 <= i < nodes.len() && names_cluster_gpu(
            (#[trigger] nodes[i]).1.capabilities.hardware_info@,
        ) {
        Some("http://localhost:18200"@)
    } else {
        None
    }
}

/// The base URL for the inference proxy; none if there is no GPU cluster.
pub fn proxy_target(cluster_entry_url: &str, registry: &NodeRegistry) -> (r: Option<String>)
    ensures
        match r {
            Some(u) => proxy_target_spec(cluster_entry_url@, registry.nodes.entries@) == Some(u@),
            None => proxy_target_spec(cluster_entry_url@, registry.nodes.entries@) is None,
        },
{
    if !cluster_entry_url.is_empty() {
        return Some(cluster_entry_url.to_owned());
    }
    let nodes = registry.list_nodes();
    let mut i: usize = 0;
    while i < nodes.len()
        invariant
            i <= nodes@.len(),
            nodes@ == registry.nodes.entries@,
            cluster_entry_url@.len() == 0,
            forall|j: int|
                0 <= j < i ==> !names_cluster_gpu(
                    (#[trigger] nodes@[j]).1.capabilities.hardware_info@,
                ),
        decreases nodes@.len() - i,
    {
        if hardware_is_cluster_gpu(nodes[i].1.capabilities.hardware_info.as_str()) {
            return Some("http://localhost:18200".to_owned());
        }
        i = i + 1;
    }
    None
}

/// What the proxy asks of the cluster entry.
#[derive(Debug)]
pub struct ProxyRequest {
    pub url: String,
    pub prompt: String,
    pub max_tokens: u64,
}

/// The request that goes to the cluster entry.
pub fn proxy_request(target: &str, body: &str) -> (r: ProxyRequest)
    ensures
        r.url@ == target@ + "/generate"@,
        r.prompt@ == chat_text(
            "You are Hyverk, an expert coding assistant."@,
            string_or(body@, "prompt"@, ""@),
        ),
        r.max_tokens == number_or(body@, "max_tokens"@, 256),
{
    let prompt = json::get_string_or(body, "prompt", "");
    ProxyRequest {
        url: concat(target, "/generate"),
        prompt: chat_prompt("You are Hyverk, an expert coding assistant.", prompt.as_str()),
        max_tokens: json::get_number_or(body, "max_tokens", 256),
    }
}

/// The integers and the prompt of a request for distributed inference.
#[derive(Debug)]
pub struct WsInferenceRequest {
    pub prompt: String,
    pub max_tokens: usize,
    pub top_k: Option<u32>,
}

/// Reads a request for distributed inference.
pub fn parse_ws_inference(body: &str) -> (r: WsInferenceRequest)
    ensures
        r.prompt@ == string_or(body@, "prompt"@, ""@),
        r.max_tokens == number_or(body@, "max_tokens"@, 64) as usize,
        match number_at(body@, "top_k"@) {
            Some(n) => r.top_k is Some && r.top_k->0 == n % 0x1_0000_0000,
            None => r.top_k is None,
        },
{
    WsInferenceRequest {
        prompt: json::get_string_or(body, "prompt", ""),
        max_tokens: json::get_number_or(body, "max_tokens", 64) as usize,
        top_k: match json::get_number(body, "top_k") {
            Some(n) => Some(low_half(n)),
            None => None,
        },
    }
}

/// The text whose tokens start an inference.
pub fn inference_prompt(prompt: &str) -> (s: String)
    ensures
        s@ == chat_text("You are a helpful coding assistant."@, prompt@),
{
    chat_prompt("You are a helpful coding assistant.", prompt)
}

/// The token ids for parsed numbers, each modulo the range of a token id; an error says that the
/// text could not be parsed, and why.
pub open spec fn ids_of(parsed: Result<Seq<u64>, Seq<char>>) -> Result<Seq<int>, Seq<char>> {
    match parsed {
        Ok(numbers) => Ok(numbers.map_values(|n: u64| (n % 0x1_0000_0000) as int)),
        Err(e) => Err("JSON parse error: "@ + e),
    }
}

/// Whether `r` is `ids` or its error.
pub open spec fn are_ids(
    r: Result<Vec<u32>, String>,
    ids: Result<Seq<int>, Seq<char>>,
) -> bool {
    match r {
        Ok(v) => ids == Ok::<Seq<int>, Seq<char>>(v@.map_values(|id: u32| id as int)),
        Err(e) => ids == Err::<Seq<int>, Seq<char>>(e@),
    }
}

/// The token ids for the numbers that a parser read, or for its error.
pub fn token_ids(parsed: Result<Vec<u64>, String>) -> (r: Result<Vec<u32>, String>)
    ensures
        are_ids(
            r,
            ids_of(
                match parsed {
                    Ok(numbers) => Ok(numbers@),
                    Err(e) => Err(e@),
                },
            ),
        ),
{
    match parsed {
        Err(e) => {
            let mut message = String::from_str("JSON parse error: ");
            message.append(e.as_str());
            Err(message)
        },
        Ok(numbers) => {
            let mut ids: Vec<u32> = Vec::new();
            let mut i: usize = 0;
            while i < numbers.len()
                invariant
                    i <= numbers@.len(),
                    ids@.len() == i,
                    forall|j: int| 0 <= j < i ==> #[trigger] ids@[j] == numbers@[j] % 0x1_0000_0000,
                decreases numbers@.len() - i,
            {
                ids.push(low_half(numbers[i]));
                i = i + 1;
            }
            assert(ids@.map_values(|id: u32| id as int) =~= numbers@.map_values(
                |n: u64| (n % 0x1_0000_0000) as int,
            ));
            Ok(ids)
        },
    }
}

/// The token ids that the tokenizer printed: the numbers of a JSON array.
pub fn parse_token_ids(printed: &str) -> (r: Result<Vec<u32>, String>)
    ensures
        are_ids(r, ids_of(json_number_list(trimmed(printed@)))),
{
    let text = trim(printed);
    token_ids(json::number_list(text.as_str()))
}

/// What stands for the generated text where it cannot be decoded.
pub fn undecoded_text(tokens: usize) -> (s: String)
    ensures
        s@ == "["@ + decimal(tokens as nat) + " tokens]"@,
{
    let n = format_number(tokens as u64);
    concat3("[", n.as_str(), " tokens]")
}

/// A span of layers for display.
pub fn layers_label(layer_start: usize, layer_end: usize) -> (s: String)
    ensures
        s@ == decimal(layer_start as nat) + "-"@ + decimal(layer_end as nat),
{
    let a = format_number(layer_start as u64);
    let b = format_number(layer_end as u64);
    concat3(a.as_str(), "-", b.as_str())
}

// ── Model files ──────────────────────────────────────────────────────────────

/// Whether a file of this name may be served.
pub open spec fn is_model_file(filename: Seq<char>) -> bool {
    ends_with(filename, ".safetensors"@) || ends_with(filename, ".json"@)
}

/// Whether a requested model file is looked up under this name, or refused.
pub open spec fn is_served_name(filename: Seq<char>, r: Option<String>) -> bool {
    match r {
        Some(n) => is_model_file(filename) && n@ == replaced(
            replaced(filename, ".."@, ""@),
            "/"@,
            ""@,
        ),
        None => !is_model_file(filename),
    }
}

/// The name under which a requested model file is looked up: without `..` and `/`. Other
/// files than weights and JSON are refused.
pub fn shard_file_name(filename: &str) -> (r: Option<String>)
    ensures
        is_served_name(filename@, r),
{
    if !has_suffix(filename, ".safetensors") && !has_suffix(filename, ".json") {
        return None;
    }
    proof {
        reveal_strlit("..");
        reveal_strlit("/");
    }
    let flat = replace(filename, "..", "");
    Some(replace(flat.as_str(), "/", ""))
}

/// A served name holds no separator, so it names a file of the model directory itself.
pub proof fn law_served_name_has_no_separator(s: Seq<char>)
    ensures
        !replaced(s, "/"@, ""@).contains('/'),
    decreases s.len(),
{
    reveal_strlit("/");
    reveal_strlit("");
    let sep = "/"@;
    let k = find_from(s, sep, 0);
    lemma_find_from(s, sep, 0);
    assert forall|j: int| 0 <= j < s.len() && s[j] == '/' implies occurs_at(s, sep, j) by {
        assert(s.subrange(j, j + 1) =~= sep);
    }
    if k < 0 || k + 1 > s.len() {
        assert(!s.contains('/'));
    } else {
        law_served_name_has_no_separator(s.subrange(k + 1, s.len() as int));
        let rest = replaced(s.subrange(k + 1, s.len() as int), sep, ""@);
        let all = s.subrange(0, k) + ""@ + rest;
        assert forall|j: int| 0 <= j < all.len() implies all[j] != '/' by {
            if j < k {
                assert(all[j] == s[j]);
            } else {
                assert(all[j] == rest[j - k]);
            }
        }
    }
}

/// Whether the model index lists weights and the model configuration states its layers.
pub open spec fn model_complete(index: Seq<char>, config: Seq<char>) -> bool {
    &&& json_get(trimmed(index), "weight_map"@) is Some
    &&& json_members(json_get(trimmed(index), "weight_map"@)->0) is Some
    &&& json_members(json_get(trimmed(index), "weight_map"@)->0)->0.len() > 0
    &&& json_get(trimmed(config), "num_hidden_layers"@) is Some
    &&& json_number(json_get(trimmed(config), "num_hidden_layers"@)->0) is Some || json_signed(
        json_get(trimmed(config), "num_hidden_layers"@)->0,
    ) is Some
}

/// Whether the coordinator has a model, given what its index and its configuration hold.
pub fn model_available(index_raw: &str, config_raw: &str) -> (r: bool)
    ensures
        r == model_complete(index_raw@, config_raw@),
{
    let index = trim(index_raw);
    let config = trim(config_raw);
    let index_ok = match json::get(index.as_str(), "weight_map") {
        Some(w) => match json::members(w.as_str()) {
            Some(m) => m.len() > 0,
            None => false,
        },
        None => false,
    };
    let config_ok = match json::get(config.as_str(), "num_hidden_layers") {
        Some(v) => json::number(v.as_str()).is_some() || json::signed(v.as_str()).is_some(),
        None => false,
    };
    index_ok && config_ok
}

/// What a client is told of where the model has to lie.
pub fn missing_model_hint(model_dir: &str) -> (s: String)
    ensures
        s@
            == "Coordinator reads {config.json,model.safetensors.index.json,tokenizer.json,*.safetensors} under "@
            + model_dir@
            + ". Set HYVERK_MODEL_DIR or run scripts/prepare-model.sh. Nodes poll GET /api/v1/model/config before layer download."@,
{
    concat3(
        "Coordinator reads {config.json,model.safetensors.index.json,tokenizer.json,*.safetensors} under ",
        model_dir,
        ". Set HYVERK_MODEL_DIR or run scripts/prepare-model.sh. Nodes poll GET /api/v1/model/config before layer download.",
    )
}

/// Tensors of one layer.
pub const TENSORS_PER_LAYER: usize = 12;

/// The name of tensor `t` within its layer.
pub open spec fn tensor_suffix(t: int) -> Seq<char> {
    if t == 0 {
        ".self_attn.q_proj.weight"@
    } else if t == 1 {
        ".self_attn.k_proj.weight"@
    } else if t == 2 {
        ".self_attn.v_proj.weight"@
    } else if t == 3 {
        ".self_attn.o_proj.weight"@
    } else if t == 4 {
        ".self_attn.q_proj.bias"@
    } else if t == 5 {
        ".self_attn.k_proj.bias"@
    } else if t == 6 {
        ".self_attn.v_proj.bias"@
    } else if t == 7 {
        ".input_layernorm.weight"@
    } else if t == 8 {
        ".post_attention_layernorm.weight"@
    } else if t == 9 {
        ".mlp.gate_proj.weight"@
    } else if t == 10 {
        ".mlp.up_proj.weight"@
    } else {
        ".mlp.down_proj.weight"@
    }
}

/// The full name of tensor `t` of a layer.
pub open spec fn tensor_name(layer: int, t: int) -> Seq<char> {
    "model.layers."@ + decimal(layer as nat) + tensor_suffix(t)
}

fn suffix_of(t: usize) -> (s: &'static str)
    requires
        t < TENSORS_PER_LAYER,
    ensures
        s@ == tensor_suffix(t as int),
{
    match t {
        0 => ".self_attn.q_proj.weight",
        1 => ".self_attn.k_proj.weight",
        2 => ".self_attn.v_proj.weight",
        3 => ".self_attn.o_proj.weight",
        4 => ".self_attn.q_proj.bias",
        5 => ".self_attn.k_proj.bias",
        6 => ".self_attn.v_proj.bias",
        7 => ".input_layernorm.weight",
        8 => ".post_attention_layernorm.weight",
        9 => ".mlp.gate_proj.weight",
        10 => ".mlp.up_proj.weight",
        _ => ".mlp.down_proj.weight",
    }
}

/// Whether these are the names of the tensors of a span of layers.
pub open spec fn are_tensor_names(r: Seq<String>, layer_start: int, layer_end: int) -> bool {
    &&& r.len() == if layer_start < layer_end {
        (layer_end - layer_start) * 12
    } else {
        0
    }
    &&& forall|i: int|
        0 <= i < r.len() ==> (#[trigger] r[i])@ == tensor_name(layer_start + i / 12, i % 12)
}

/// The names of the tensors of a span of layers, layer by layer.
pub fn layer_tensor_names(layer_start: usize, layer_end: usize) -> (r: Vec<String>)
    requires
        (layer_end - layer_start) * 12 <= usize::MAX,
    ensures
        are_tensor_names(r@, layer_start as int, layer_end as int),
{
    let mut r: Vec<String> = Vec::new();
    let mut layer: usize = layer_start;
    while layer < layer_end
        invariant
            layer_start <= layer,
            layer == layer_start || layer <= layer_end,
            r@.len() == (layer - layer_start) * 12,
            forall|i: int|
                0 <= i < r@.len() ==> (#[trigger] r@[i])@ == tensor_name(
                    layer_start + i / 12,
                    i % 12,
                ),
        decreases layer_end - layer,
    {
        let mut t: usize = 0;
        while t < TENSORS_PER_LAYER
            invariant
                layer_start <= layer < layer_end,
                t <= 12,
                r@.len() == (layer - layer_start) * 12 + t,
                forall|i: int|
                    0 <= i < r@.len() ==> (#[trigger] r@[i])@ == tensor_name(
                        layer_start + i / 12,
                        i % 12,
                    ),
            decreases 12 - t,
        {
            let n = format_number(layer as u64);
            r.push(concat3("model.layers.", n.as_str(), suffix_of(t)));
            t = t + 1;
        }
        layer = layer + 1;
    }
    r
}

// ── Training rounds ──────────────────────────────────────────────────────────

/// What a client learns of a round that it created.
#[derive(Debug)]
pub struct RoundCreated {
    pub round_id: String,
    pub total_layers: usize,
    pub assignments: usize,
    pub dataset_size: usize,
}

/// Starts a training round on the whole dataset; without data there is none.
pub fn create_training_round<F: Copy>(
    store: &mut LayerTrainingStore<F>,
    version: &str,
    layers_per_assignment: usize,
    dataset_size: usize,
    examples_per_shard: usize,
    now: u64,
) -> (r: Option<RoundCreated>)
    requires
        0 < layers_per_assignment <= usize::MAX - 28,
        dataset_size + examples_per_shard <= usize::MAX,
    ensures
        r is Some == (dataset_size > 0),
        match r {
            None => *final(store) == *old(store),
            Some(c) => {
                &&& final(store).rounds@.len() == old(store).rounds@.len() + 1
                &&& final(store).rounds@.drop_last() == old(store).rounds@
                &&& final(store).total_rounds_completed == old(store).total_rounds_completed
                &&& final(store).first_round_at == if old(store).first_round_at is None {
                    Some(now)
                } else {
                    old(store).first_round_at
                }
                &&& is_new_round(
                    final(store).rounds@.last(),
                    version@,
                    "Qwen2.5-Coder-7B"@,
                    28,
                    layers_per_assignment,
                    dataset_size as int,
                    examples_per_shard as int,
                    now,
                )
                &&& c.round_id == final(store).rounds@.last().round_id
                &&& c.total_layers == 28
                &&& c.assignments == 28int / layers_per_assignment as int
                &&& c.dataset_size == dataset_size
            },
        },
{
    if dataset_size == 0 {
        return None;
    }
    let round_id = store.create_round(
        version,
        "Qwen2.5-Coder-7B",
        28,
        layers_per_assignment,
        dataset_size,
        examples_per_shard,
        now,
    );
    let n: usize = 28;
    Some(
        RoundCreated {
            round_id,
            total_layers: 28,
            assignments: n / layers_per_assignment,
            dataset_size,
        },
    )
}

/// Where a node finds the layers of its assignment.
pub fn layers_url<F>(a: &LayerAssignment<F>) -> (s: String)
    ensures
        s@ == "/api/v1/layer-training/layers/"@ + decimal(a.layer_start as nat) + "/"@ + decimal(
            a.layer_end as nat,
        ),
{
    let from = format_number(a.layer_start as u64);
    let to = format_number(a.layer_end as u64);
    let head = concat3("/api/v1/layer-training/layers/", from.as_str(), "/");
    concat(head.as_str(), to.as_str())
}

/// Where a node finds the examples of its assignment.
pub fn data_url<F>(a: &LayerAssignment<F>) -> (s: String)
    ensures
        s@ == "/api/v1/layer-training/shard/"@ + decimal(a.data_shard_start as nat) + "/"@
            + decimal(a.data_shard_size as nat),
{
    let from = format_number(a.data_shard_start as u64);
    let size = format_number(a.data_shard_size as u64);
    let head = concat3("/api/v1/layer-training/shard/", from.as_str(), "/");
    concat(head.as_str(), size.as_str())
}

/// What becomes of a submitted layer adapter.
#[derive(Debug)]
pub enum LayerSubmission {
    /// The text is not base64.
    InvalidBase64,
    /// There is no such assignment.
    NotFound,
    /// The adapter was taken; these are its bytes.
    Accepted { adapter: Vec<u8> },
}

/// Takes the adapter of an assignment.
pub fn submit_layer_adapter<F: Copy>(
    store: &mut LayerTrainingStore<F>,
    assignment_id: &str,
    adapter_base64: &str,
    loss: F,
    steps: usize,
) -> (r: LayerSubmission)
    requires
        old(store).total_rounds_completed < u64::MAX,
    ensures
        match base64_bytes(adapter_base64@) {
            None => r is InvalidBase64 && *final(store) == *old(store),
            Some(bytes) => {
                &&& adapter_taken(
                    *old(store),
                    assignment_id@,
                    loss,
                    steps,
                    *final(store),
                )
                &&& if first_index(old(store).rounds@, holds_id(assignment_id@)) < old(
                    store,
                ).rounds@.len() {
                    r is Accepted && r->adapter@ == bytes
                } else {
                    r is NotFound
                }
            },
        },
{
    let adapter = match decode_adapter(adapter_base64) {
        Some(b) => b,
        None => {
            return LayerSubmission::InvalidBase64;
        },
    };
    if store.submit_adapter(assignment_id, loss, steps) {
        LayerSubmission::Accepted { adapter }
    } else {
        LayerSubmission::NotFound
    }
}

// ── The model at a glance ────────────────────────────────────────────────────

/// A dataset that lies on disk.
#[derive(Debug)]
pub struct DiskDataset {
    pub name: &'static str,
    pub file: &'static str,
    pub examples: u64,
    pub size_mb: u64,
}

/// A release that the network works towards.
#[derive(Debug)]
pub struct Goal {
    pub name: &'static str,
    pub description: &'static str,
    pub target_rounds: u64,
    pub rounds_done: usize,
    pub dataset_size: usize,
    pub min_clients: u64,
    pub est_days: u64,
    pub status: &'static str,
}

/// What is known of the model and of how its training stands.
#[derive(Debug)]
pub struct ModelInfo {
    pub datasets: Vec<DiskDataset>,
    pub phase: &'static str,
    pub version: &'static str,
    pub data_collected: usize,
    pub data_verified: usize,
    pub rounds_completed: usize,
    pub goals: Vec<Goal>,
    pub total_nodes: usize,
    pub gpu_nodes: usize,
    pub cpu_nodes: usize,
    pub rounds_remaining: u64,
}

pub open spec fn dataset_row(d: DiskDataset) -> (Seq<char>, Seq<char>, u64, u64) {
    (d.name@, d.file@, d.examples, d.size_mb)
}

/// The datasets on disk: name, file, examples and size in megabytes.
pub open spec fn disk_dataset_rows() -> Seq<(Seq<char>, Seq<char>, u64, u64)> {
    seq![
        ("Magicoder-OSS-Instruct"@, "magicoder_oss.jsonl"@, 75000u64, 175u64),
        ("CodeFeedback-Filtered"@, "codefeedback.jsonl"@, 157000u64, 360u64),
        ("Evol-Instruct-Code"@, "evol_code_80k.jsonl"@, 80000u64, 120u64),
        ("Evol-CodeAlpaca"@, "evol_codealpaca.jsonl"@, 152000u64, 253u64),
        ("Code-Alpaca-20K"@, "code_alpaca_122k.jsonl"@, 122000u64, 79u64),
    ]
}

/// Examples on disk as the overview states them.
pub const TOTAL_DISK_EXAMPLES: u64 = 586445;

fn disk_datasets() -> (r: Vec<DiskDataset>)
    ensures
        r@.map_values(|d: DiskDataset| dataset_row(d)) == disk_dataset_rows(),
{
    let r = vec![
        DiskDataset {
            name: "Magicoder-OSS-Instruct",
            file: "magicoder_oss.jsonl",
            examples: 75000,
            size_mb: 175,
        },
        DiskDataset {
            name: "CodeFeedback-Filtered",
            file: "codefeedback.jsonl",
            examples: 157000,
            size_mb: 360,
        },
        DiskDataset {
            name: "Evol-Instruct-Code",
            file: "evol_code_80k.jsonl",
            examples: 80000,
            size_mb: 120,
        },
        DiskDataset {
            name: "Evol-CodeAlpaca",
            file: "evol_codealpaca.jsonl",
            examples: 152000,
            size_mb: 253,
        },
        DiskDataset {
            name: "Code-Alpaca-20K",
            file: "code_alpaca_122k.jsonl",
            examples: 122000,
            size_mb: 79,
        },
    ];
    assert(r@.map_values(|d: DiskDataset| dataset_row(d)) =~= disk_dataset_rows());
    r
}

/// How the first goal stands after some rounds.
pub open spec fn goal_status(rounds: int) -> Seq<char> {
    if rounds >= 100 {
        "complete"@
    } else if rounds > 0 {
        "active"@
    } else {
        "pending"@
    }
}

/// A goal as the overview shows it.
pub open spec fn goal_is(
    g: Goal,
    name: Seq<char>,
    description: Seq<char>,
    target_rounds: u64,
    rounds_done: int,
    dataset_size: int,
    min_clients: u64,
    est_days: u64,
    status: Seq<char>,
) -> bool {
    &&& g.name@ == name
    &&& g.description@ == description
    &&& g.target_rounds == target_rounds
    &&& g.rounds_done == rounds_done
    &&& g.dataset_size == dataset_size
    &&& g.min_clients == min_clients
    &&& g.est_days == est_days
    &&& g.status@ == status
}

/// The goals: the first one counts what was done, the others wait.
pub open spec fn goals_are(g: Seq<Goal>, rounds: int, examples: int) -> bool {
    &&& g.len() == 4
    &&& goal_is(
        g[0],
        "v0.1"@,
        "Proof of concept — first working LoRA adapter"@,
        100,
        rounds,
        examples,
        3,
        2,
        goal_status(rounds),
    )
    &&& goal_is(
        g[1],
        "v0.2"@,
        "First usable model — measurable improvement over base"@,
        500,
        0,
        200000,
        100,
        7,
        "pending"@,
    )
    &&& goal_is(
        g[2],
        "v0.3"@,
        "Competitive model — beats base on HumanEval"@,
        2000,
        0,
        500000,
        1000,
        30,
        "pending"@,
    )
    &&& goal_is(
        g[3],
        "v1.0"@,
        "Production quality — top open-source coding model"@,
        10000,
        0,
        2000000,
        10000,
        60,
        "pending"@,
    )
}

fn goals(rounds: usize, examples: usize) -> (r: Vec<Goal>)
    ensures
        goals_are(r@, rounds as int, examples as int),
{
    vec![
        Goal {
            name: "v0.1",
            description: "Proof of concept — first working LoRA adapter",
            target_rounds: 100,
            rounds_done: rounds,
            dataset_size: examples,
            min_clients: 3,
            est_days: 2,
            status: if rounds >= 100 {
                "complete"
            } else if rounds > 0 {
                "active"
            } else {
                "pending"
            },
        },
        Goal {
            name: "v0.2",
            description: "First usable model — measurable improvement over base",
            target_rounds: 500,
            rounds_done: 0,
            dataset_size: 200000,
            min_clients: 100,
            est_days: 7,
            status: "pending",
        },
        Goal {
            name: "v0.3",
            description: "Competitive model — beats base on HumanEval",
            target_rounds: 2000,
            rounds_done: 0,
            dataset_size: 500000,
            min_clients: 1000,
            est_days: 30,
            status: "pending",
        },
        Goal {
            name: "v1.0",
            description: "Production quality — top open-source coding model",
            target_rounds: 10000,
            rounds_done: 0,
            dataset_size: 2000000,
            min_clients: 10000,
            est_days: 60,
            status: "pending",
        },
    ]
}

/// The overview of the model, from the state of the coordinator.
pub fn get_model_info<F: Copy, G: Copy>(
    registry: &NodeRegistry,
    training: &TrainingStore<F>,
    stats: &DatasetStats,
    layer_training: &LayerTrainingStore<G>,
) -> (r: ModelInfo)
    ensures
        r.datasets@.map_values(|d: DiskDataset| dataset_row(d)) == disk_dataset_rows(),
        r.phase@ == if layer_training.rounds@.len() > 0 {
            "training"@
        } else if stats.total_examples > 0 {
            "collection"@
        } else {
            "not_started"@
        },
        r.version@ == if training.jobs.entries@.len() > 0 {
            "v0.1 (training in progress)"@
        } else if stats.total_examples > 0 {
            "v0 (collecting data)"@
        } else {
            "v0 (not yet started)"@
        },
        r.data_collected == stats.total_examples,
        r.data_verified == stats.execution_verified,
        r.rounds_completed == layer_training.rounds@.len(),
        goals_are(
            r.goals@,
            layer_training.rounds@.len() as int,
            stats.total_examples as int,
        ),
        r.total_nodes == registry.nodes.entries@.len(),
        r.gpu_nodes == keep(
            registry.nodes.entries@,
            |e: (String, NodeInfo)| is_gpu_node(e.1),
        ).len(),
        r.cpu_nodes == r.total_nodes - r.gpu_nodes,
        r.rounds_remaining == if layer_training.total_rounds_completed <= 100 {
            100 - layer_training.total_rounds_completed
        } else {
            0
        },
{
    let total_nodes: usize = registry.list_nodes().len();
    let gpu_nodes: usize = count_gpu_nodes(registry);
    let rounds: usize = layer_training.rounds.len();
    let version = if training.jobs.entries.len() > 0 {
        "v0.1 (training in progress)"
    } else if stats.total_examples > 0 {
        "v0 (collecting data)"
    } else {
        "v0 (not yet started)"
    };
    let phase = if rounds > 0 {
        "training"
    } else if stats.total_examples > 0 {
        "collection"
    } else {
        "not_started"
    };
    ModelInfo {
        datasets: disk_datasets(),
        phase,
        version,
        data_collected: stats.total_examples,
        data_verified: stats.execution_verified,
        rounds_completed: rounds,
        goals: goals(rounds, stats.total_examples),
        total_nodes,
        gpu_nodes,
        cpu_nodes: total_nodes - gpu_nodes,
        rounds_remaining: layer_training.rounds_remaining(100),
    }
}

// ── Laws ─────────────────────────────────────────────────────────────────────

/// Where a key is configured, it opens the way in either header, and no other text does.
pub proof fn law_only_the_key_opens(
    key: Seq<char>,
    authorization: Option<Seq<char>>,
    api_key: Option<Seq<char>>,
)
    requires
        key.len() > 0,
    ensures
        may_pass(Some(key), authorization, Some(key)),
        may_pass(Some(key), Some("Bearer "@ + key), api_key),
        may_pass(Some(key), authorization, api_key) ==> api_key == Some(key) || authorization
            == Some("Bearer "@ + key),
        may_pass(None, authorization, api_key),
{
}

/// A request gets as many prompts as it asks for, up to a hundred, and ten if it does not say.
pub proof fn law_asked_number_of_prompts(r: Seq<Prompt>, n: nat, base_seed: u64)
    requires
        n <= usize::MAX,
    ensures
        are_prompts(r, Some(decimal(n)), base_seed) ==> r.len() == if n < 100 {
            n
        } else {
            100
        },
        are_prompts(r, None, base_seed) ==> r.len() == 10,
{
    lemma_decimal_is_parsed(n);
}

/// The prompts of one request stand at different places of the bank.
pub proof fn law_no_prompt_twice(base_seed: u64, i: int, j: int)
    requires
        0 <= i < j < 100,
    ensures
        (
            bank_category(prompt_seed(base_seed, i) as int),
            place_of(prompt_seed(base_seed, i) as int),
        ) != (
            bank_category(prompt_seed(base_seed, j) as int),
            place_of(prompt_seed(base_seed, j) as int),
        ),
{
    let a = prompt_seed(base_seed, i) as int;
    let b = prompt_seed(base_seed, j) as int;
    lemma_seed_place(base_seed, i);
    lemma_seed_place(base_seed, j);
    lemma_selects(a);
    lemma_selects(b);
    lemma_steps_differ(base_seed as int, i, j);
}

proof fn lemma_seed_place(base_seed: u64, i: int)
    requires
        0 <= i < 100,
    ensures
        prompt_seed(base_seed, i) as int % 512 == (base_seed + i * 31337) % 512,
{
    let x = base_seed + i * 31337;
    assert(0 <= i * 31337 <= 31337 * 99);
    let a = prompt_seed(base_seed, i) as int;
    assert(a == x || a == x - 0x1_0000_0000_0000_0000);
    assert(0x1_0000_0000_0000_0000int == 512 * 0x80_0000_0000_0000);
}

proof fn lemma_steps_differ(x: int, i: int, j: int)
    requires
        0 <= i < j < 100,
    ensures
        (x + i * 31337) % 512 != (x + j * 31337) % 512,
{
    let a = x + i * 31337;
    let b = x + j * 31337;
    if a % 512 == b % 512 {
        let q = b / 512 - a / 512;
        assert((j - i) * 31337 == 512 * q);
        assert(j - i == 512 * (q * 473 - (j - i) * 28950));
    }
}

/// Every line of an import that holds an example gives that example, in order.
pub proof fn law_every_line_is_imported<F>(
    lines: Seq<Seq<char>>,
    r: Seq<DatasetExample<F>>,
    now_secs: u64,
)
    requires
        lines.len() > 0,
        forall|i: int|
            0 <= i < lines.len() ==> is_line(#[trigger] lines[i]) && trimmed(lines[i]).len() > 0
                && has_text(trimmed(lines[i]), "instruction"@) && has_text(
                trimmed(lines[i]),
                "response"@,
            ),
        is_import(r, joined(lines, "\n"@), now_secs),
    ensures
        r.len() == lines.len(),
        forall|i: int|
            0 <= i < lines.len() ==> Some((#[trigger] r[i]).instruction@) == string_at(
                trimmed(lines[i]),
                "instruction"@,
            ) && Some(r[i].response@) == string_at(trimmed(lines[i]), "response"@),
{
    let last = lines.len() - 1;
    assert(trimmed(lines[last]).len() > 0);
    if lines.last().len() == 0 {
        assert(trimmed(lines.last()) =~= lines.last());
    }
    law_joined_lines_are_read_back(lines);
    let body = joined(lines, "\n"@);
    let src = lines_of(body).map_values(|l: Seq<char>| trimmed(l));
    let p = |l: Seq<char>| l.len() > 0 && line_has_example(l);
    assert forall|i: int| 0 <= i < src.len() implies p(#[trigger] src[i]) by {
        assert(src[i] == trimmed(lines[i]));
    }
    lemma_keep_all(src, p);
    assert(example_lines(body) == src);
    assert forall|i: int| 0 <= i < lines.len() implies Some((#[trigger] r[i]).instruction@)
        == string_at(trimmed(lines[i]), "instruction"@) && Some(r[i].response@) == string_at(
        trimmed(lines[i]),
        "response"@,
    ) by {
        assert(is_imported(r[i], example_lines(body)[i], now_secs));
        assert(src[i] == trimmed(lines[i]));
        assert(has_text(trimmed(lines[i]), "instruction"@));
    }
}

/// A hardware description that names a GPU anywhere makes a GPU node, and so does any model.
pub proof fn law_named_gpu_counts(n: NodeInfo, a: Seq<char>, b: Seq<char>)
    ensures
        n.capabilities.hardware_info@ == a + "NVIDIA"@ + b ==> is_gpu_node(n),
        n.capabilities.hardware_info@ == a + "RTX"@ + b ==> is_gpu_node(n),
        n.capabilities.hardware_info@ == a + "GTX"@ + b ==> is_gpu_node(n),
        n.capabilities.hardware_info@ == a + "M1"@ + b ==> is_gpu_node(n),
        n.capabilities.hardware_info@ == a + "M2"@ + b ==> is_gpu_node(n),
        n.capabilities.hardware_info@ == a + "M3"@ + b ==> is_gpu_node(n),
        n.capabilities.hardware_info@ == a + "M4"@ + b ==> is_gpu_node(n),
        n.capabilities.available_models@.len() > 0 ==> is_gpu_node(n),
{
    law_part_is_found(a, "NVIDIA"@, b);
    law_part_is_found(a, "RTX"@, b);
    law_part_is_found(a, "GTX"@, b);
    law_part_is_found(a, "M1"@, b);
    law_part_is_found(a, "M2"@, b);
    law_part_is_found(a, "M3"@, b);
    law_part_is_found(a, "M4"@, b);
}

/// The configured entry is used if there is one; else a node with a named GPU leads to this
/// machine.
pub proof fn law_entry_comes_before_gpu(
    entry: Seq<char>,
    nodes: Seq<(String, NodeInfo)>,
    i: int,
    a: Seq<char>,
    b: Seq<char>,
)
    ensures
        entry.len() > 0 ==> proxy_target_spec(entry, nodes) == Some(entry),
        entry.len() == 0 && 0 <= i < nodes.len() && nodes[i].1.capabilities.hardware_info@ == a
            + "RTX"@ + b ==> proxy_target_spec(entry, nodes) == Some("http://localhost:18200"@),
        entry.len() == 0 && nodes.len() == 0 ==> proxy_target_spec(entry, nodes) is None,
{
    law_part_is_found(a, "RTX"@, b);
}

/// A node is credited with what is counted under its id; where nothing is, with what is counted
/// under its name.
pub proof fn law_contributions_go_by_id_first(
    counts: Seq<(String, usize)>,
    node_id: Seq<char>,
    node_name: Seq<char>,
    k: int,
)
    requires
        0 <= k < counts.len(),
    ensures
        counts[k].0@ == node_id && (forall|j: int| 0 <= j < k ==> (#[trigger] counts[j]).0@
            != node_id) ==> contributions_of(counts, node_id, node_name) == counts[k].1,
        counts[k].0@ == node_name && (forall|j: int| 0 <= j < k ==> (#[trigger] counts[j]).0@
            != node_name) && (forall|j: int| 0 <= j < counts.len() ==> (#[trigger] counts[j]).0@
            != node_id) ==> contributions_of(counts, node_id, node_name) == counts[k].1,
        (forall|j: int|
            0 <= j < counts.len() ==> (#[trigger] counts[j]).0@ != node_id && counts[j].0@
                != node_name) ==> contributions_of(counts, node_id, node_name) == 0,
{
    lemma_count_under(counts, node_id, k);
    lemma_count_under(counts, node_name, k);
}

proof fn lemma_count_under(counts: Seq<(String, usize)>, name: Seq<char>, k: int)
    requires
        0 <= k < counts.len(),
    ensures
        counts[k].0@ == name && (forall|j: int| 0 <= j < k ==> (#[trigger] counts[j]).0@ != name)
            ==> count_under(counts, name) == Some(counts[k].1),
        (forall|j: int| 0 <= j < counts.len() ==> (#[trigger] counts[j]).0@ != name)
            ==> count_under(counts, name) is None,
{
    let none = forall|j: int| 0 <= j < counts.len() ==> (#[trigger] counts[j]).0@ != name;
    let first = counts[k].0@ == name && (forall|j: int|
        0 <= j < k ==> (#[trigger] counts[j]).0@ != name);
    if first || none {
        let at = if first {
            k
        } else {
            counts.len() as int
        };
        assert forall|p: spec_fn((String, usize)) -> bool|
            (forall|e: (String, usize)| #[trigger] p(e) == (e.0@ == name)) implies (
        #[trigger] first_index(counts, p)) == at by {
            lemma_first_index_is(counts, p, at);
        }
    }
}

/// Numbers that fit are the token ids, in order.
pub proof fn law_small_numbers_are_token_ids(numbers: Seq<u64>, r: Result<Vec<u32>, String>)
    requires
        are_ids(r, ids_of(Ok(numbers))),
        forall|i: int| 0 <= i < numbers.len() ==> #[trigger] numbers[i] <= u32::MAX,
    ensures
        r is Ok,
        r->Ok_0@.len() == numbers.len(),
        forall|i: int| 0 <= i < numbers.len() ==> #[trigger] r->Ok_0@[i] == numbers[i],
{
    let ids = numbers.map_values(|n: u64| (n % 0x1_0000_0000) as int);
    let got = r->Ok_0@.map_values(|id: u32| id as int);
    assert(ids == got);
    assert forall|i: int| 0 <= i < numbers.len() implies #[trigger] r->Ok_0@[i] == numbers[i] by {
        assert(ids[i] == got[i]);
        assert(numbers[i] <= u32::MAX);
    }
}

/// A model file whose name leads nowhere else is served under that name.
pub proof fn law_plain_name_is_served_as_it_is(filename: Seq<char>, r: Option<String>)
    requires
        is_served_name(filename, r),
        !contains(filename, ".."@),
        !contains(filename, "/"@),
    ensures
        ends_with(filename, ".safetensors"@) || ends_with(filename, ".json"@) ==> r is Some
            && r->0@ == filename,
        !ends_with(filename, ".safetensors"@) && !ends_with(filename, ".json"@) ==> r is None,
{
    reveal_strlit("..");
    reveal_strlit("/");
    law_replacing_goes_from_part_to_part(filename, ".."@, ""@, filename, filename);
    law_replacing_goes_from_part_to_part(filename, "/"@, ""@, filename, filename);
}

/// The names for a span hold each of the twelve tensors of every layer of the span, the layers
/// in order.
pub proof fn law_every_tensor_is_named(
    r: Seq<String>,
    layer_start: int,
    layer_end: int,
    layer: int,
    t: int,
)
    requires
        are_tensor_names(r, layer_start, layer_end),
        layer_start <= layer < layer_end,
        0 <= t < 12,
    ensures
        (layer - layer_start) * 12 + t < r.len(),
        r[(layer - layer_start) * 12 + t]@ == "model.layers."@ + decimal(layer as nat)
            + tensor_suffix(t),
        r.len() == 12 * (layer_end - layer_start),
{
    let i = (layer - layer_start) * 12 + t;
    assert(i / 12 == layer - layer_start && i % 12 == t);
}

/// A model is complete only with weights listed and a number of layers stated.
pub proof fn law_model_needs_weights_and_layers(
    index: Seq<char>,
    config: Seq<char>,
    weights: Seq<char>,
    m: Seq<(Seq<char>, Seq<char>)>,
    layers: Seq<char>,
)
    requires
        json_get(trimmed(index), "weight_map"@) == Some(weights),
        json_members(weights) == Some(m),
        json_get(trimmed(config), "num_hidden_layers"@) == Some(layers),
    ensures
        model_complete(index, config) == (m.len() > 0 && (json_number(layers) is Some
            || json_signed(layers) is Some)),
{
}

/// An instruction that speaks of errors is about debugging whatever else it says; one that
/// speaks of tests and of no errors is about testing.
pub proof fn law_words_tell_the_category(a: Seq<char>, b: Seq<char>)
    ensures
        category_spec(a + "debug"@ + b) == "debugging"@,
        category_spec(a + "fix"@ + b) == "debugging"@,
        category_spec(a + "error"@ + b) == "debugging"@,
        ({
            let s = a + "test"@ + b;
            !contains(s, "debug"@) && !contains(s, "fix"@) && !contains(s, "error"@)
                ==> category_spec(s) == "testing"@
        }),
        ({
            let s = a + "refactor"@ + b;
            !contains(s, "debug"@) && !contains(s, "fix"@) && !contains(s, "error"@) && !contains(
                s,
                "test"@,
            ) ==> category_spec(s) == "refactoring"@
        }),
{
    law_part_is_found(a, "debug"@, b);
    law_part_is_found(a, "fix"@, b);
    law_part_is_found(a, "error"@, b);
    law_part_is_found(a, "test"@, b);
    law_part_is_found(a, "refactor"@, b);
}

/// An example that is imported has what its line says, under its line's source, and is neither
/// refined nor verified.
pub proof fn law_imported_example_is_its_line<F>(
    e: DatasetExample<F>,
    line: Seq<char>,
    now_secs: u64,
    source: Seq<char>,
)
    requires
        is_imported(e, line, now_secs),
        line_has_example(line),
    ensures
        string_at(line, "instruction"@) == Some(e.instruction@),
        string_at(line, "response"@) == Some(e.response@),
        e.instruction@.len() > 0,
        e.response@.len() > 0,
        string_at(line, "source"@) == Some(source) ==> e.provider@ == source,
        string_at(line, "source"@) is None && string_at(line, "provider"@) == Some(source)
            ==> e.provider@ == source,
        !e.refined,
        !e.execution_verified,
{
}

/// The first goal counts the rounds and the examples that there are, and is reached after a
/// hundred rounds. Each goal asks for more rounds, examples and clients than the one before.
pub proof fn law_goals_rise(g: Seq<Goal>, rounds: int, examples: int, i: int)
    requires
        goals_are(g, rounds, examples),
        0 <= i < 3,
    ensures
        g.len() == 4,
        g[0].rounds_done == rounds && g[0].dataset_size == examples,
        g[0].status@ == "complete"@ <==> rounds >= g[0].target_rounds,
        g[0].status@ == "pending"@ <==> rounds <= 0,
        g[i + 1].status@ == "pending"@ && g[i + 1].rounds_done == 0,
        g[i].target_rounds < g[i + 1].target_rounds,
        i > 0 ==> g[i].dataset_size < g[i + 1].dataset_size,
        g[i].min_clients < g[i + 1].min_clients,
        g[i].est_days < g[i + 1].est_days,
{
    reveal_strlit("complete");
    reveal_strlit("active");
    reveal_strlit("pending");
    assert("complete"@.len() == 8 && "active"@.len() == 6 && "pending"@.len() == 7);
}

} // verus!
