//! The node's side of the coordinator's HTTP interface.
use crate::json;
use crate::text::{concat, concat3, has, has_prefix, replace, str_eq, trim_start_matches};
use vstd::prelude::*;

verus! {

use crate::json::{is_true, json_get, number_or, string_at, string_or};
use crate::text::{
    contains,
    find_from,
    law_part_is_found,
    law_replacing_goes_from_part_to_part,
    law_trimming_cuts_the_ends,
    replaced,
    starts_with,
    trim_prefix,
};

/// A node that is registered with a coordinator.
#[derive(Debug)]
pub struct CoordinatorConnection {
    pub base_url: String,
    pub node_id: String,
    pub node_name: String,
    pub heartbeat_interval_secs: u64,
}

/// The HTTP address of a coordinator: the old gRPC port stands for the HTTP port, and hosts
/// of fly.dev speak HTTPS.
pub open spec fn base_url_of(url: Seq<char>) -> Seq<char> {
    if contains(url, ":17001"@) {
        replaced(url, ":17001"@, ":17000"@)
    } else if contains(url, "fly.dev"@) && !starts_with(url, "https"@) {
        "https://"@ + trim_prefix(url, "http://"@)
    } else {
        url
    }
}

/// The HTTP address of a coordinator.
pub fn derive_base_url(coordinator_url: &str) -> (r: String)
    ensures
        r@ == base_url_of(coordinator_url@),
{
    if has(coordinator_url, ":17001") {
        proof {
            reveal_strlit(":17001");
        }
        replace(coordinator_url, ":17001", ":17000")
    } else if has(coordinator_url, "fly.dev") && !has_prefix(coordinator_url, "https") {
        let host = trim_start_matches(coordinator_url, "http://");
        concat("https://", host.as_str())
    } else {
        coordinator_url.to_owned()
    }
}

/// What a node does after a heartbeat.
#[derive(Debug)]
pub enum HeartbeatOutcome {
    /// The coordinator does not know the node, which registers again.
    ReRegister,
    /// The coordinator sent an order, as JSON.
    Signal(String),
    Nothing,
}

/// A task that the coordinator handed out; its temperature is read by the caller.
#[derive(Debug)]
pub struct PolledTask {
    pub task_id: String,
    pub model: String,
    pub prompt: String,
    pub max_tokens: u32,
}

/// How many tasks a node that registers again states that it takes.
pub const RE_REGISTER_TASKS: u32 = 2;

impl CoordinatorConnection {
    /// The connection that the answer to a registration opens; none if it names no node.
    pub fn connected(coordinator_url: &str, node_name: String, reply: &str) -> (r: Option<Self>)
        ensures
            match r {
                Some(c) => {
                    &&& string_at(reply@, "node_id"@) == Some(c.node_id@)
                    &&& c.base_url@ == base_url_of(coordinator_url@)
                    &&& c.node_name == node_name
                    &&& c.heartbeat_interval_secs == number_or(
                        reply@,
                        "heartbeat_interval_secs"@,
                        20,
                    )
                },
                None => string_at(reply@, "node_id"@) is None,
            },
    {
        match json::get_string(reply, "node_id") {
            None => None,
            Some(node_id) => Some(
                CoordinatorConnection {
                    base_url: derive_base_url(coordinator_url),
                    node_id,
                    node_name,
                    heartbeat_interval_secs: json::get_number_or(
                        reply,
                        "heartbeat_interval_secs",
                        20,
                    ),
                },
            ),
        }
    }

    pub fn node_id(&self) -> (r: &str)
        ensures
            r@ == self.node_id@,
    {
        self.node_id.as_str()
    }

    pub fn base_url(&self) -> (r: &str)
        ensures
            r@ == self.base_url@,
    {
        self.base_url.as_str()
    }

    /// Seconds between two heartbeats.
    pub fn heartbeat_interval(&self) -> (r: u64)
        ensures
            r == self.heartbeat_interval_secs,
    {
        self.heartbeat_interval_secs
    }

    /// The address of an operation on nodes.
    pub fn node_url(&self, operation: &str) -> (r: String)
        ensures
            r@ == self.base_url@ + "/api/v1/node/"@ + operation@,
    {
        concat3(self.base_url.as_str(), "/api/v1/node/", operation)
    }
}

/// Where a node registers.
pub fn register_url(base_url: &str) -> (r: String)
    ensures
        r@ == base_url@ + "/api/v1/node/register"@,
{
    concat(base_url, "/api/v1/node/register")
}

/// Reads the answer to a heartbeat.
pub fn parse_heartbeat_reply(body: &str) -> (r: HeartbeatOutcome)
    ensures
        if string_at(body@, "error"@) == Some("Node not registered"@) {
            r is ReRegister
        } else {
            match json_get(body@, "signal"@) {
                Some(s) => if s == "null"@ {
                    r is Nothing
                } else {
                    r is Signal && r->0@ == s
                },
                None => r is Nothing,
            }
        },
{
    if let Some(e) = json::get_string(body, "error") {
        if str_eq(e.as_str(), "Node not registered") {
            return HeartbeatOutcome::ReRegister;
        }
    }
    match json::get(body, "signal") {
        Some(s) => if str_eq(s.as_str(), "null") {
            HeartbeatOutcome::Nothing
        } else {
            HeartbeatOutcome::Signal(s)
        },
        None => HeartbeatOutcome::Nothing,
    }
}

/// The text of the task in an answer to a poll.
pub open spec fn task_text(body: Seq<char>) -> Seq<char> {
    match json_get(body, "task"@) {
        Some(t) => t,
        None => "null"@,
    }
}

/// Reads the answer to a poll.
pub fn parse_poll_reply(body: &str) -> (r: Option<PolledTask>)
    ensures
        r is Some == is_true(body@, "has_task"@),
        r is Some ==> {
            let t = task_text(body@);
            &&& (r->0).task_id@ == string_or(t, "task_id"@, ""@)
            &&& (r->0).model@ == string_or(t, "model"@, ""@)
            &&& (r->0).prompt@ == string_or(t, "prompt"@, ""@)
            &&& (r->0).max_tokens == number_or(t, "max_tokens"@, 256) % 0x1_0000_0000
        },
{
    if !json::get_true(body, "has_task") {
        return None;
    }
    let task = match json::get(body, "task") {
        Some(t) => t,
        None => "null".to_owned(),
    };
    let t = task.as_str();
    Some(
        PolledTask {
            task_id: json::get_string_or(t, "task_id", ""),
            model: json::get_string_or(t, "model", ""),
            prompt: json::get_string_or(t, "prompt", ""),
            max_tokens: (json::get_number_or(t, "max_tokens", 256) % 0x1_0000_0000) as u32,
        },
    )
}

/// The old port of an address becomes the HTTP port, and the rest of the address stays.
pub proof fn law_old_port_becomes_the_http_port(a: Seq<char>, b: Seq<char>)
    requires
        find_from(a + ":17001"@ + b, ":17001"@, 0) == a.len(),
        !contains(b, ":17001"@),
    ensures
        base_url_of(a + ":17001"@ + b) == a + ":17000"@ + b,
{
    reveal_strlit(":17001");
    let url = a + ":17001"@ + b;
    law_part_is_found(a, ":17001"@, b);
    law_replacing_goes_from_part_to_part(url, ":17001"@, ":17000"@, a, b);
    law_replacing_goes_from_part_to_part(b, ":17001"@, ":17000"@, a, b);
}

/// A host of fly.dev is spoken to over HTTPS; any other address stays as it is.
pub proof fn law_fly_hosts_speak_https(host: Seq<char>, url: Seq<char>)
    ensures
        !contains("http://"@ + host, ":17001"@) && contains("http://"@ + host, "fly.dev"@)
            && !starts_with(host, "http://"@) ==> base_url_of("http://"@ + host) == "https://"@
            + host,
        !contains(url, ":17001"@) && !contains(url, "fly.dev"@) ==> base_url_of(url) == url,
{
    reveal_strlit("http://");
    reveal_strlit("https");
    law_trimming_cuts_the_ends("http://"@, host);
    let plain = "http://"@ + host;
    if starts_with(plain, "https"@) {
        assert(plain.subrange(0, 5)[4] == "https"@[4]);
        assert(plain[4] == "http://"@[4]);
    }
}

} // verus!
