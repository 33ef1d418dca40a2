//! Running a task on the local cluster, and starting a server of layers.
use crate::chatml::chat_prompt;
use crate::json;
use crate::text::{concat, concat3, format_number};
use vstd::prelude::*;

verus! {

use crate::chatml::chat_text;
use crate::json::{json_get, string_or};
use crate::text::{contains, decimal, law_part_is_found, texts};
use vstd::string::StringExecFns;

/// Where the local cluster generates text.
pub const CLUSTER_URL: &'static str = "http://localhost:18000/generate";

/// How a task ended, as the node submits it.
#[derive(Debug)]
pub struct SubmitResultRequest {
    pub node_id: String,
    pub task_id: String,
    pub success: bool,
    pub response_text: String,
    pub error_message: String,
    pub duration_ms: u64,
}

/// What the cluster answered.
#[derive(Debug)]
pub enum ClusterAnswer {
    /// It could not be reached, for this reason.
    Unreachable(String),
    /// Its answer could not be read, for this reason.
    Unreadable(String),
    /// It answered with this JSON text.
    Data(String),
}

/// What the cluster is asked for a task.
pub fn task_prompt(prompt: &str) -> (r: String)
    ensures
        r@ == chat_text("You are Hyverk, an expert coding assistant."@, prompt@),
{
    chat_prompt("You are Hyverk, an expert coding assistant.", prompt)
}

/// The generated text with what the cluster says of itself.
pub open spec fn text_with_meta(data: Seq<char>) -> Seq<char> {
    string_or(data, "text"@, ""@) + "\n\n<!-- CLUSTER_META: "@ + match json_get(data, "cluster"@) {
        Some(c) => c,
        None => ""@,
    } + " -->"@
}

/// Whether this is the result of a task that the cluster answered so.
pub open spec fn is_result_of(
    r: SubmitResultRequest,
    node_id: Seq<char>,
    task_id: String,
    answer: ClusterAnswer,
    duration_ms: u64,
) -> bool {
    &&& r.node_id@ == node_id
    &&& r.task_id == task_id
    &&& r.duration_ms == duration_ms
    &&& match answer {
        ClusterAnswer::Data(data) => {
            &&& r.success
            &&& r.response_text@ == text_with_meta(data@)
            &&& r.error_message@.len() == 0
        },
        ClusterAnswer::Unreadable(e) => {
            &&& !r.success
            &&& r.response_text@.len() == 0
            &&& r.error_message@ == "Cluster parse error: "@ + e@
        },
        ClusterAnswer::Unreachable(e) => {
            &&& !r.success
            &&& r.response_text@.len() == 0
            &&& r.error_message@ == "Cluster offline: "@ + e@ + ". Run: make inference"@
        },
    }
}

/// The result of a task, from the answer of the cluster.
pub fn execute_task(node_id: &str, task_id: String, answer: ClusterAnswer, duration_ms: u64) -> (r:
    SubmitResultRequest)
    ensures
        is_result_of(r, node_id@, task_id, answer, duration_ms),
{
    match answer {
        ClusterAnswer::Data(data) => {
            let text = json::get_string_or(data.as_str(), "text", "");
            let info = match json::get(data.as_str(), "cluster") {
                Some(c) => c,
                None => "".to_owned(),
            };
            let mut response_text = concat3(
                text.as_str(),
                "\n\n<!-- CLUSTER_META: ",
                info.as_str(),
            );
            response_text.append(" -->");
            SubmitResultRequest {
                node_id: node_id.to_owned(),
                task_id,
                success: true,
                response_text,
                error_message: String::new(),
                duration_ms,
            }
        },
        ClusterAnswer::Unreadable(e) => SubmitResultRequest {
            node_id: node_id.to_owned(),
            task_id,
            success: false,
            response_text: String::new(),
            error_message: concat("Cluster parse error: ", e.as_str()),
            duration_ms,
        },
        ClusterAnswer::Unreachable(e) => SubmitResultRequest {
            node_id: node_id.to_owned(),
            task_id,
            success: false,
            response_text: String::new(),
            error_message: concat3("Cluster offline: ", e.as_str(), ". Run: make inference"),
            duration_ms,
        },
    }
}

/// Arguments of a server of layers that every server has.
pub open spec fn server_args_common(
    script: Seq<char>,
    model_dir: Seq<char>,
    layer_start: int,
    layer_end: int,
    listen_port: int,
    position: Seq<char>,
) -> Seq<Seq<char>> {
    seq![
        script,
        "--model-dir"@,
        model_dir,
        "--layer-start"@,
        decimal(layer_start as nat),
        "--layer-end"@,
        decimal(layer_end as nat),
        "--listen-port"@,
        decimal(listen_port as nat),
        "--position"@,
        position,
    ]
}

/// An option with its value; nothing for an empty value.
pub open spec fn optional_arg(name: Seq<char>, value: Seq<char>) -> Seq<Seq<char>> {
    if value.len() > 0 {
        seq![name, value]
    } else {
        Seq::empty()
    }
}

/// Arguments of a server of layers.
pub open spec fn server_args(
    script: Seq<char>,
    model_dir: Seq<char>,
    adapter_path: Seq<char>,
    layer_start: int,
    layer_end: int,
    position: Seq<char>,
    listen_port: int,
    next_node_url: Seq<char>,
) -> Seq<Seq<char>> {
    server_args_common(script, model_dir, layer_start, layer_end, listen_port, position)
        + optional_arg("--adapter"@, adapter_path) + optional_arg("--next-node"@, next_node_url)
}

/// Arguments of a server of layers: adapter and next node only where they are given.
pub fn inference_worker_args(
    script: &str,
    model_dir: &str,
    adapter_path: &str,
    layer_start: usize,
    layer_end: usize,
    position: &str,
    listen_port: u16,
    next_node_url: &str,
) -> (r: Vec<String>)
    ensures
        texts(r@) == server_args(
            script@,
            model_dir@,
            adapter_path@,
            layer_start as int,
            layer_end as int,
            position@,
            listen_port as int,
            next_node_url@,
        ),
{
    let mut r = vec![
        script.to_owned(),
        "--model-dir".to_owned(),
        model_dir.to_owned(),
        "--layer-start".to_owned(),
        format_number(layer_start as u64),
        "--layer-end".to_owned(),
        format_number(layer_end as u64),
        "--listen-port".to_owned(),
        format_number(listen_port as u64),
        "--position".to_owned(),
        position.to_owned(),
    ];
    let ghost common = texts(r@);
    assert(common =~= server_args_common(
        script@,
        model_dir@,
        layer_start as int,
        layer_end as int,
        listen_port as int,
        position@,
    ));
    if !adapter_path.is_empty() {
        r.push("--adapter".to_owned());
        r.push(adapter_path.to_owned());
    }
    assert(texts(r@) =~= common + optional_arg("--adapter"@, adapter_path@));
    let ghost with_adapter = texts(r@);
    if !next_node_url.is_empty() {
        r.push("--next-node".to_owned());
        r.push(next_node_url.to_owned());
    }
    assert(texts(r@) =~= with_adapter + optional_arg("--next-node"@, next_node_url@));
    r
}

/// A task succeeds exactly if the cluster answered with data. Its result begins with the text
/// that the cluster generated and names the cluster; a failure says why.
pub proof fn law_task_ends_as_the_cluster_answered(
    r: SubmitResultRequest,
    node_id: Seq<char>,
    task_id: String,
    answer: ClusterAnswer,
    duration_ms: u64,
)
    requires
        is_result_of(r, node_id, task_id, answer, duration_ms),
    ensures
        r.node_id@ == node_id && r.task_id == task_id && r.duration_ms == duration_ms,
        r.success <==> answer is Data,
        match answer {
            ClusterAnswer::Data(data) => {
                let text = string_or(data@, "text"@, ""@);
                &&& r.response_text@.len() >= text.len()
                &&& r.response_text@.subrange(0, text.len() as int) == text
                &&& json_get(data@, "cluster"@) is Some ==> contains(
                    r.response_text@,
                    json_get(data@, "cluster"@)->0,
                )
                &&& r.error_message@.len() == 0
            },
            ClusterAnswer::Unreadable(e) | ClusterAnswer::Unreachable(e) => {
                &&& r.response_text@.len() == 0
                &&& contains(r.error_message@, e@)
            },
        },
{
    match answer {
        ClusterAnswer::Data(data) => {
            let text = string_or(data@, "text"@, ""@);
            assert(r.response_text@.subrange(0, text.len() as int) =~= text);
            if json_get(data@, "cluster"@) is Some {
                let a = text + "\n\n<!-- CLUSTER_META: "@;
                assert(r.response_text@ =~= a + json_get(data@, "cluster"@)->0 + " -->"@);
                law_part_is_found(a, json_get(data@, "cluster"@)->0, " -->"@);
            }
        },
        ClusterAnswer::Unreadable(e) => {
            assert(r.error_message@ =~= "Cluster parse error: "@ + e@ + Seq::<char>::empty());
            law_part_is_found("Cluster parse error: "@, e@, Seq::<char>::empty());
        },
        ClusterAnswer::Unreachable(e) => {
            law_part_is_found("Cluster offline: "@, e@, ". Run: make inference"@);
        },
    }
}

/// A server of layers is told its script, its model, both ends of its layers, its port and its
/// place. An adapter and a next node are named exactly if there are any.
pub proof fn law_server_is_told_its_layers(
    script: Seq<char>,
    model_dir: Seq<char>,
    adapter_path: Seq<char>,
    layer_start: int,
    layer_end: int,
    position: Seq<char>,
    listen_port: int,
    next_node_url: Seq<char>,
)
    ensures
        ({
            let a = server_args(
                script,
                model_dir,
                adapter_path,
                layer_start,
                layer_end,
                position,
                listen_port,
                next_node_url,
            );
            let adapter = adapter_path.len() > 0;
            let next = next_node_url.len() > 0;
            &&& a[0] == script
            &&& a[1] == "--model-dir"@ && a[2] == model_dir
            &&& a[3] == "--layer-start"@ && a[4] == decimal(layer_start as nat)
            &&& a[5] == "--layer-end"@ && a[6] == decimal(layer_end as nat)
            &&& a[7] == "--listen-port"@ && a[8] == decimal(listen_port as nat)
            &&& a[9] == "--position"@ && a[10] == position
            &&& adapter ==> a[11] == "--adapter"@ && a[12] == adapter_path
            &&& next ==> a[a.len() - 2] == "--next-node"@ && a.last() == next_node_url
            &&& adapter && next ==> a.len() == 15
            &&& adapter != next ==> a.len() == 13
            &&& !adapter && !next ==> a.len() == 11
        }),
{
}

} // verus!
