//! The configuration of nodes and coordinator, and the identity of a machine.
use crate::model_paths::join;
use crate::text::{chars_of, concat, is_blank, str_eq, string_of, trim, without_prefix};
use vstd::prelude::*;

verus! {

use crate::model_paths::path_join;
use crate::seqs::{keep, law_one_element_counts_once, law_parts_are_counted_alone};
use crate::text::{lemma_trimmed_edges, lemma_trimmed_same, starts_with, trimmed};

#[derive(Debug)]
pub struct HyverkConfig {
    pub mode: Mode,
    pub node: NodeConfig,
    pub coordinator: CoordinatorConfig,
    pub synthesis: SynthesisConfig,
}

/// Whether and how a node takes part in the generation of the dataset.
#[derive(Debug)]
pub struct SynthesisConfig {
    pub enabled: bool,
    pub target_per_hour: u32,
    pub enable_refinement: bool,
    pub coordinator_url: String,
    pub providers: Vec<SynthesisProviderConfig>,
}

#[derive(Debug)]
pub struct SynthesisProviderConfig {
    pub name: String,
    pub api_key: String,
    pub model: String,
    pub rpm_limit: Option<u32>,
    pub rpd_limit: Option<u32>,
}

/// The target of a configuration that has a synthesis section but states none.
pub fn default_target_per_hour() -> (n: u32)
    ensures
        n == 50,
{
    50
}

#[derive(Debug, Clone, Copy, PartialEq, Eq, Structural)]
pub enum Mode {
    Node,
    Coordinator,
    Both,
}

#[derive(Debug)]
pub struct NodeConfig {
    pub name: String,
    pub coordinator_url: String,
    pub models_dir: String,
    pub max_concurrent_tasks: u32,
    pub poll_interval_ms: u64,
    pub hardware_info: String,
}

#[derive(Debug)]
pub struct CoordinatorConfig {
    pub grpc_port: u16,
    pub http_port: u16,
    pub bind_addr: String,
    pub heartbeat_timeout_secs: u64,
}

impl Default for SynthesisConfig {
    /// No synthesis.
    fn default() -> (c: Self)
        ensures
            !c.enabled,
            c.target_per_hour == 0,
            !c.enable_refinement,
            c.coordinator_url@.len() == 0,
            c.providers@.len() == 0,
    {
        SynthesisConfig {
            enabled: false,
            target_per_hour: 0,
            enable_refinement: false,
            coordinator_url: String::new(),
            providers: Vec::new(),
        }
    }
}

/// A file in the project's directory in a home directory.
pub open spec fn in_home(home: Option<&str>, name: Seq<char>) -> Seq<char> {
    path_join(
        path_join(
            match home {
                Some(h) => h@,
                None => "."@,
            },
            ".hyverk"@,
        ),
        name,
    )
}

/// A file in the project's directory in the home directory, or here if there is none.
pub fn home_file(home: Option<&str>, name: &str) -> (r: String)
    ensures
        r@ == in_home(home, name@),
{
    let base = match home {
        Some(h) => h,
        None => ".",
    };
    let dir = join(base, ".hyverk");
    join(dir.as_str(), name)
}

impl HyverkConfig {
    /// The configuration without a configuration file.
    pub fn default_for(home: Option<&str>) -> (c: Self)
        ensures
            c.mode == Mode::Node,
            c.node.name@ == "hyverk-node"@,
            c.node.coordinator_url@ == "http://127.0.0.1:17001"@,
            c.node.models_dir@ == in_home(home, "models"@),
            c.node.max_concurrent_tasks == 1,
            c.node.poll_interval_ms == 1000,
            c.node.hardware_info@.len() == 0,
            c.coordinator.grpc_port == 17001,
            c.coordinator.http_port == 17000,
            c.coordinator.bind_addr@ == "0.0.0.0"@,
            c.coordinator.heartbeat_timeout_secs == 30,
            !c.synthesis.enabled,
            c.synthesis.target_per_hour == 0,
            !c.synthesis.enable_refinement,
            c.synthesis.coordinator_url@.len() == 0,
            c.synthesis.providers@.len() == 0,
    {
        HyverkConfig {
            mode: Mode::Node,
            node: NodeConfig {
                name: "hyverk-node".to_owned(),
                coordinator_url: "http://127.0.0.1:17001".to_owned(),
                models_dir: home_file(home, "models"),
                max_concurrent_tasks: 1,
                poll_interval_ms: 1000,
                hardware_info: String::new(),
            },
            coordinator: CoordinatorConfig {
                grpc_port: 17001,
                http_port: 17000,
                bind_addr: "0.0.0.0".to_owned(),
                heartbeat_timeout_secs: 30,
            },
            synthesis: Default::default(),
        }
    }

    /// Completes a configuration that was read from a file: the models directory is found in
    /// the home directory, and the node goes by the machine's stable id whatever the file says.
    pub fn completed(self, home: Option<&str>, node_id: String) -> (c: Self)
        ensures
            c.mode == self.mode,
            c.coordinator == self.coordinator,
            c.synthesis == self.synthesis,
            c.node.name == node_id,
            c.node.models_dir@ == tilde_expanded(self.node.models_dir@, home),
            c.node.coordinator_url == self.node.coordinator_url,
            c.node.max_concurrent_tasks == self.node.max_concurrent_tasks,
            c.node.poll_interval_ms == self.node.poll_interval_ms,
            c.node.hardware_info == self.node.hardware_info,
    {
        let models_dir = expand_tilde(self.node.models_dir.as_str(), home);
        HyverkConfig {
            mode: self.mode,
            node: NodeConfig {
                name: node_id,
                coordinator_url: self.node.coordinator_url,
                models_dir,
                max_concurrent_tasks: self.node.max_concurrent_tasks,
                poll_interval_ms: self.node.poll_interval_ms,
                hardware_info: self.node.hardware_info,
            },
            coordinator: self.coordinator,
            synthesis: self.synthesis,
        }
    }
}

/// A path with `~` replaced by the home directory, where that is known.
pub open spec fn tilde_expanded(path: Seq<char>, home: Option<&str>) -> Seq<char> {
    match home {
        None => path,
        Some(h) => if starts_with(path, "~/"@) {
            path_join(h@, path.subrange(2, path.len() as int))
        } else if path == "~"@ {
            path_join(h@, ""@)
        } else {
            path
        },
    }
}

/// Expands `~` to the home directory.
pub fn expand_tilde(path: &str, home: Option<&str>) -> (r: String)
    ensures
        r@ == tilde_expanded(path@, home),
{
    proof {
        reveal_strlit("~/");
    }
    if let Some(h) = home {
        match without_prefix(path, "~/") {
            Some(rest) => {
                return join(h, rest.as_str());
            },
            None => {
                if str_eq(path, "~") {
                    return join(h, "");
                }
            },
        }
    }
    path.to_owned()
}

// ── The identity of a machine ────────────────────────────────────────────────

/// A character of a host name in an id: letters in lowercase, digits, and `-` for the rest.
pub open spec fn id_char(c: char) -> char {
    if 'a' <= c <= 'z' || '0' <= c <= '9' {
        c
    } else if 'A' <= c <= 'Z' {
        ((c as u32 + 32) as u32) as char
    } else {
        '-'
    }
}

/// A text with every run of dashes made one dash.
pub open spec fn single_dashes(s: Seq<char>) -> Seq<char>
    decreases s.len(),
{
    if s.len() == 0 {
        Seq::empty()
    } else {
        let rest = single_dashes(s.drop_last());
        if s.last() == '-' && s.len() >= 2 && s[s.len() - 2] == '-' {
            rest
        } else {
            rest.push(s.last())
        }
    }
}

/// A text without a dash at its start and at its end.
pub open spec fn without_edge_dashes(s: Seq<char>) -> Seq<char> {
    let t = if s.len() > 0 && s[0] == '-' {
        s.subrange(1, s.len() as int)
    } else {
        s
    };
    if t.len() > 0 && t.last() == '-' {
        t.drop_last()
    } else {
        t
    }
}

/// The id that a host name gives: lowercase, `-` for what is neither letter nor digit, runs
/// collapsed, edges stripped.
pub open spec fn sanitized(host: Seq<char>) -> Seq<char> {
    let id = without_edge_dashes(single_dashes(host.map_values(|c: char| id_char(c))));
    if id.len() == 0 {
        "node"@
    } else {
        id
    }
}

fn to_id_char(c: char) -> (r: char)
    ensures
        r == id_char(c),
{
    if ('a' <= c && c <= 'z') || ('0' <= c && c <= '9') {
        c
    } else if 'A' <= c && c <= 'Z' {
        lowered(c)
    } else {
        '-'
    }
}

fn lowered(c: char) -> (r: char)
    requires
        'A' <= c <= 'Z',
    ensures
        r == ((c as u32 + 32) as u32) as char,
{
    let letters = chars_of("abcdefghijklmnopqrstuvwxyz");
    proof {
        reveal_strlit("abcdefghijklmnopqrstuvwxyz");
    }
    let k: usize = (c as u32 - 65) as usize;
    letters[k]
}

/// The id that a host name gives.
pub fn sanitize_host(host: &str) -> (r: String)
    ensures
        r@ == sanitized(host@),
{
    let v = chars_of(host);
    let ghost f = |c: char| id_char(c);
    let ghost mapped = v@.map_values(f);
    let mut out: Vec<char> = Vec::new();
    let mut last_dash: bool = false;
    let mut i: usize = 0;
    assert(single_dashes(mapped.subrange(0, 0)) =~= out@);
    while i < v.len()
        invariant
            i <= v@.len(),
            f == (|c: char| id_char(c)),
            mapped == v@.map_values(f),
            out@ == single_dashes(mapped.subrange(0, i as int)),
            last_dash == (i > 0 && mapped[i - 1] == '-'),
        decreases v@.len() - i,
    {
        let c = to_id_char(v[i]);
        proof {
            let next = mapped.subrange(0, i + 1);
            assert(next.drop_last() =~= mapped.subrange(0, i as int));
            assert(next.last() == c);
        }
        if !(c == '-' && last_dash) {
            out.push(c);
        }
        last_dash = c == '-';
        i = i + 1;
    }
    assert(mapped.subrange(0, mapped.len() as int) =~= mapped);
    let ghost all = out@;
    if out.len() > 0 && out[0] == '-' {
        out.remove(0);
        assert(out@ =~= all.subrange(1, all.len() as int));
    }
    let ghost t = out@;
    if out.len() > 0 && out[out.len() - 1] == '-' {
        out.pop();
        assert(out@ =~= t.drop_last());
    }
    if out.len() == 0 {
        "node".to_owned()
    } else {
        string_of(&out)
    }
}

/// Whether an id was written down before.
pub open spec fn is_known(stored: Option<Seq<char>>) -> bool {
    stored is Some && trimmed(stored->0).len() > 0
}

/// The id of a machine: the one that was written down, else the one that the host name gives.
pub open spec fn node_id_of(stored: Option<Seq<char>>, host: Option<Seq<char>>) -> Seq<char> {
    if is_known(stored) {
        trimmed(stored->0)
    } else {
        sanitized(
            match host {
                Some(h) => h,
                None => "node"@,
            },
        )
    }
}

/// The characters of an optional text.
pub open spec fn text_of(s: Option<&str>) -> Option<Seq<char>> {
    match s {
        Some(t) => Some(t@),
        None => None,
    }
}

/// The stable id of a machine, and whether it has to be written down: what was written down
/// before, else what the host name gives.
pub fn stable_node_id(stored: Option<&str>, host: Option<&str>) -> (r: (String, bool))
    ensures
        r.0@ == node_id_of(text_of(stored), text_of(host)),
        r.1 == !is_known(text_of(stored)),
{
    if let Some(s) = stored {
        if !is_blank(s) {
            return (trim(s), false);
        }
    }
    let host = match host {
        Some(h) => h,
        None => "node",
    };
    (sanitize_host(host), true)
}

/// Whether a text can be an id.
pub open spec fn is_clean_id(s: Seq<char>) -> bool {
    &&& s.len() > 0
    &&& s[0] != '-'
    &&& s.last() != '-'
    &&& forall|i: int|
        0 <= i < s.len() ==> ('a' <= #[trigger] s[i] <= 'z' || '0' <= s[i] <= '9' || s[i] == '-')
    &&& forall|i: int| 0 <= i < s.len() - 1 ==> !((#[trigger] s[i]) == '-' && s[i + 1] == '-')
}

proof fn lemma_single_dashes(s: Seq<char>)
    requires
        forall|i: int|
            0 <= i < s.len() ==> ('a' <= #[trigger] s[i] <= 'z' || '0' <= s[i] <= '9' || s[i]
                == '-'),
    ensures
        ({
            let r = single_dashes(s);
            &&& s.len() > 0 ==> r.len() > 0 && r.last() == s.last()
            &&& s.len() == 0 ==> r.len() == 0
            &&& forall|i: int|
                0 <= i < r.len() ==> ('a' <= #[trigger] r[i] <= 'z' || '0' <= r[i] <= '9' || r[i]
                    == '-')
            &&& forall|i: int| 0 <= i < r.len() - 1 ==> !((#[trigger] r[i]) == '-' && r[i + 1] == '-')
        }),
    decreases s.len(),
{
    if s.len() > 0 {
        let t = s.drop_last();
        assert forall|i: int| 0 <= i < t.len() implies ('a' <= #[trigger] t[i] <= 'z' || '0'
            <= t[i] <= '9' || t[i] == '-') by {
            assert(t[i] == s[i]);
        }
        lemma_single_dashes(t);
        let rest = single_dashes(t);
        let r = single_dashes(s);
        assert forall|i: int| 0 <= i < r.len() - 1 implies !((#[trigger] r[i]) == '-' && r[i + 1]
            == '-') by {
            if i + 1 < rest.len() {
                assert(rest[i] == r[i] && rest[i + 1] == r[i + 1]);
            } else if t.len() > 0 {
                assert(rest.last() == t.last());
                assert(t.last() == s[s.len() - 2]);
            }
        }
        assert forall|i: int| 0 <= i < r.len() implies ('a' <= #[trigger] r[i] <= 'z' || '0'
            <= r[i] <= '9' || r[i] == '-') by {
            if i < rest.len() {
                assert(r[i] == rest[i]);
            } else {
                assert(r[i] == s.last());
            }
        }
    }
}

/// An id made of a host name consists of lowercase letters, digits and single dashes, and has
/// no dash at its edges.
pub proof fn law_node_id_is_clean(host: Seq<char>)
    ensures
        is_clean_id(sanitized(host)),
{
    let f = |c: char| id_char(c);
    let mapped = host.map_values(f);
    assert forall|i: int| 0 <= i < mapped.len() implies ('a' <= #[trigger] mapped[i] <= 'z' || '0'
        <= mapped[i] <= '9' || mapped[i] == '-') by {
        assert(mapped[i] == id_char(host[i]));
    }
    lemma_single_dashes(mapped);
    let s = single_dashes(mapped);
    let t = if s.len() > 0 && s[0] == '-' {
        s.subrange(1, s.len() as int)
    } else {
        s
    };
    assert forall|i: int| 0 <= i < t.len() - 1 implies !((#[trigger] t[i]) == '-' && t[i + 1]
        == '-') by {
        if s.len() > 0 && s[0] == '-' {
            assert(t[i] == s[i + 1] && t[i + 1] == s[i + 2]);
        }
    }
    assert forall|i: int| 0 <= i < t.len() implies ('a' <= #[trigger] t[i] <= 'z' || '0' <= t[i]
        <= '9' || t[i] == '-') by {
        if s.len() > 0 && s[0] == '-' {
            assert(t[i] == s[i + 1]);
        }
    }
    if s.len() > 1 && s[0] == '-' {
        assert(!(s[0] == '-' && s[1] == '-'));
        assert(t[0] == s[1]);
    }
    let id = without_edge_dashes(s);
    if id.len() > 0 {
        if t.last() == '-' {
            assert(id =~= t.drop_last());
            assert(!(t[t.len() - 2] == '-' && t[t.len() - 2 + 1] == '-'));
            assert forall|i: int| 0 <= i < id.len() - 1 implies !((#[trigger] id[i]) == '-'
                && id[i + 1] == '-') by {
                assert(id[i] == t[i] && id[i + 1] == t[i + 1]);
            }
            assert(id.last() == t[t.len() - 2]);
        }
        assert(id[0] == t[0]);
    } else {
        reveal_strlit("node");
    }
}

/// The id of a machine is stable: once it is written down, it is read back, whatever the host
/// is called then.
pub proof fn law_node_id_is_stable(
    stored: Option<Seq<char>>,
    host: Option<Seq<char>>,
    later_host: Option<Seq<char>>,
)
    ensures
        is_known(Some(node_id_of(stored, host))),
        node_id_of(Some(node_id_of(stored, host)), later_host) == node_id_of(stored, host),
{
    let id = node_id_of(stored, host);
    if is_known(stored) {
        lemma_trimmed_edges(stored->0);
    } else {
        law_node_id_is_clean(
            match host {
                Some(h) => h,
                None => "node"@,
            },
        );
    }
    lemma_trimmed_same(id);
}

// ── Errors ───────────────────────────────────────────────────────────────────

#[derive(Debug)]
pub enum HyverkError {
    Config(String),
    Inference(String),
    Coordinator(String),
    Grpc(String),
    Transport(String),
    NodeNotFound(String),
    TaskNotFound(String),
}

impl HyverkError {
    /// The error in words.
    pub fn message(&self) -> (r: String)
        ensures
            r@ == match *self {
                HyverkError::Config(e) => "Config error: "@ + e@,
                HyverkError::Inference(e) => "Inference error: "@ + e@,
                HyverkError::Coordinator(e) => "Coordinator error: "@ + e@,
                HyverkError::Grpc(e) => "gRPC error: "@ + e@,
                HyverkError::Transport(e) => "Transport error: "@ + e@,
                HyverkError::NodeNotFound(e) => "Node not found: "@ + e@,
                HyverkError::TaskNotFound(e) => "Task not found: "@ + e@,
            },
    {
        match self {
            HyverkError::Config(e) => concat("Config error: ", e.as_str()),
            HyverkError::Inference(e) => concat("Inference error: ", e.as_str()),
            HyverkError::Coordinator(e) => concat("Coordinator error: ", e.as_str()),
            HyverkError::Grpc(e) => concat("gRPC error: ", e.as_str()),
            HyverkError::Transport(e) => concat("Transport error: ", e.as_str()),
            HyverkError::NodeNotFound(e) => concat("Node not found: ", e.as_str()),
            HyverkError::TaskNotFound(e) => concat("Task not found: ", e.as_str()),
        }
    }
}

// ── Laws ─────────────────────────────────────────────────────────────────────

/// Being no dash.
pub open spec fn no_dash() -> spec_fn(char) -> bool {
    |c: char| c != '-'
}

proof fn lemma_dashes_aside(s: Seq<char>)
    ensures
        keep(single_dashes(s), no_dash()) == keep(s, no_dash()),
    decreases s.len(),
{
    if s.len() > 0 {
        lemma_dashes_aside(s.drop_last());
        let rest = single_dashes(s.drop_last());
        assert(rest.push(s.last()).drop_last() =~= rest);
    }
}

proof fn lemma_edges_aside(s: Seq<char>)
    ensures
        keep(without_edge_dashes(s), no_dash()) == keep(s, no_dash()),
{
    let t = if s.len() > 0 && s[0] == '-' {
        s.subrange(1, s.len() as int)
    } else {
        s
    };
    let zero = |c: char| 0nat;
    if s.len() > 0 && s[0] == '-' {
        law_parts_are_counted_alone(seq!['-'], t, no_dash(), zero);
        law_one_element_counts_once('-', no_dash(), zero);
        assert(seq!['-'] + t =~= s);
        assert(Seq::<char>::empty() + keep(t, no_dash()) =~= keep(t, no_dash()));
    }
}

/// The letters and digits of a host name are those of its id, in order, letters in lowercase;
/// a name without any gives a fixed one.
pub proof fn law_id_keeps_letters_and_digits(host: Seq<char>)
    ensures
        ({
            let named = keep(host.map_values(|c: char| id_char(c)), no_dash());
            &&& named.len() > 0 ==> keep(sanitized(host), no_dash()) == named
            &&& named.len() == 0 ==> sanitized(host) == "node"@
        }),
        forall|c: char| 'a' <= c <= 'z' || '0' <= c <= '9' ==> #[trigger] id_char(c) == c,
        forall|c: char|
            'A' <= c <= 'Z' ==> (#[trigger] id_char(c)) as u32 == c as u32 + 32,
        forall|c: char|
            !('a' <= c <= 'z') && !('A' <= c <= 'Z') && !('0' <= c <= '9') ==> #[trigger] id_char(c)
                == '-',
{
    let mapped = host.map_values(|c: char| id_char(c));
    let single = single_dashes(mapped);
    let id = without_edge_dashes(single);
    lemma_dashes_aside(mapped);
    lemma_edges_aside(single);
    law_node_id_is_clean(host);
    if keep(mapped, no_dash()).len() == 0 && id.len() > 0 {
        assert(sanitized(host) == id);
        assert(no_dash()(id.last()));
        assert(keep(id, no_dash()).len() > 0);
    }
    if id.len() == 0 {
        assert(keep(id, no_dash()).len() == 0);
    }
}

/// A host name that can be an id is the id.
pub proof fn law_clean_name_is_the_id(host: Seq<char>)
    requires
        is_clean_id(host),
    ensures
        sanitized(host) == host,
{
    let mapped = host.map_values(|c: char| id_char(c));
    assert forall|i: int| 0 <= i < host.len() implies mapped[i] == host[i] by {
        assert('a' <= host[i] <= 'z' || '0' <= host[i] <= '9' || host[i] == '-');
    }
    assert(mapped =~= host);
    lemma_no_runs(host);
}

proof fn lemma_no_runs(s: Seq<char>)
    requires
        forall|i: int| 0 <= i < s.len() - 1 ==> !((#[trigger] s[i]) == '-' && s[i + 1] == '-'),
    ensures
        single_dashes(s) == s,
    decreases s.len(),
{
    if s.len() > 0 {
        let t = s.drop_last();
        assert forall|i: int| 0 <= i < t.len() - 1 implies !((#[trigger] t[i]) == '-' && t[i + 1]
            == '-') by {
            assert(t[i] == s[i] && t[i + 1] == s[i + 1]);
        }
        lemma_no_runs(t);
        if s.len() >= 2 {
            assert(!(s[s.len() - 2] == '-' && s[s.len() - 2 + 1] == '-'));
        }
        assert(t.push(s.last()) =~= s);
    }
}

/// A path that begins with a tilde lies below the home directory; any other stays as it is.
pub proof fn law_tilde_is_the_home(home: &str, rest: Seq<char>, path: Seq<char>)
    ensures
        tilde_expanded("~/"@ + rest, Some(home)) == path_join(home@, rest),
        tilde_expanded(path, None) == path,
        path.len() > 0 && path[0] != '~' ==> tilde_expanded(path, Some(home)) == path,
{
    reveal_strlit("~/");
    reveal_strlit("~");
    let p = "~/"@ + rest;
    assert(p.subrange(0, 2) =~= "~/"@);
    assert(p.subrange(2, p.len() as int) =~= rest);
    if starts_with(path, "~/"@) {
        assert(path.subrange(0, 2)[0] == "~/"@[0]);
    }
}

} // verus!
