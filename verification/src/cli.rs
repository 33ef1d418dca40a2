//! What the command line decides.
use crate::config::{HyverkConfig, Mode, SynthesisProviderConfig};
use crate::synthesis::{ProviderConfig, SynthesisConfig};
use crate::text::{format_number, join, lines, replace, str_eq};
use vstd::prelude::*;

verus! {

use crate::text::{
    contains,
    decimal,
    find_from,
    is_line,
    joined,
    law_joined_lines_are_read_back,
    law_replacing_goes_from_part_to_part,
    lemma_find_from,
    lines_of,
    occurs_at,
    replaced,
    texts,
};
use vstd::string::StringExecFns;

/// Lines of a search result that are shown.
pub const PREVIEW_LINES: usize = 8;

/// Milliseconds that a coordinator has to start before the node on the same machine does.
pub const NODE_DELAY_MS: u64 = 500;

/// The mode that is run: that of the command line, or else that of the configuration. None if
/// the command line names no mode.
pub fn choose_mode(given: Option<&str>, configured: Mode) -> (r: Option<Mode>)
    ensures
        r == match given {
            None => Some(configured),
            Some(m) => if m@ == "node"@ {
                Some(Mode::Node)
            } else if m@ == "coordinator"@ {
                Some(Mode::Coordinator)
            } else if m@ == "both"@ {
                Some(Mode::Both)
            } else {
                None
            },
        },
{
    match given {
        None => Some(configured),
        Some(m) => if str_eq(m, "node") {
            Some(Mode::Node)
        } else if str_eq(m, "coordinator") {
            Some(Mode::Coordinator)
        } else if str_eq(m, "both") {
            Some(Mode::Both)
        } else {
            None
        },
    }
}

/// Whether a provider is set up as it is configured.
pub open spec fn same_provider(a: ProviderConfig, b: SynthesisProviderConfig) -> bool {
    &&& a.name@ == b.name@
    &&& a.api_key@ == b.api_key@
    &&& a.model@ == b.model@
    &&& a.rpm_limit == b.rpm_limit
    &&& a.rpd_limit == b.rpd_limit
}

/// Where a coordinator on this machine is reached.
pub open spec fn local_url(bind_addr: Seq<char>, http_port: u16) -> Seq<char> {
    "http://"@ + replaced(bind_addr, "0.0.0.0"@, "127.0.0.1"@) + ":"@ + decimal(http_port as nat)
}

fn local(bind_addr: &str, http_port: u16) -> (r: String)
    ensures
        r@ == local_url(bind_addr@, http_port),
{
    proof {
        reveal_strlit("0.0.0.0");
    }
    let host = replace(bind_addr, "0.0.0.0", "127.0.0.1");
    let port = format_number(http_port as u64);
    let mut r = "http://".to_owned();
    r.append(host.as_str());
    r.append(":");
    r.append(port.as_str());
    r
}

/// Whether synthesis is set up so.
pub open spec fn is_setup(
    r: SynthesisConfig,
    config: HyverkConfig,
    target_per_hour: Option<u32>,
) -> bool {
    &&& r.enabled
    &&& r.target_per_hour == match target_per_hour {
        Some(n) => n,
        None => config.synthesis.target_per_hour,
    }
    &&& r.enable_refinement == config.synthesis.enable_refinement
    &&& r.coordinator_url@ == if config.synthesis.coordinator_url@.len() == 0 {
        local_url(config.coordinator.bind_addr@, config.coordinator.http_port)
    } else {
        config.synthesis.coordinator_url@
    }
    &&& r.providers@.len() == config.synthesis.providers@.len()
    &&& forall|i: int|
        0 <= i < r.providers@.len() ==> same_provider(
            #[trigger] r.providers@[i],
            config.synthesis.providers@[i],
        )
}

/// What the synthesis engine runs with.
pub fn synthesis_setup(config: &HyverkConfig, target_per_hour: Option<u32>) -> (r: SynthesisConfig)
    ensures
        is_setup(r, *config, target_per_hour),
{
    let all = &config.synthesis.providers;
    let mut providers: Vec<ProviderConfig> = Vec::new();
    let mut i: usize = 0;
    while i < all.len()
        invariant
            i <= all@.len(),
            providers@.len() == i,
            forall|j: int|
                0 <= j < i ==> same_provider(#[trigger] providers@[j], all@[j]),
        decreases all@.len() - i,
    {
        let p = &all[i];
        providers.push(
            ProviderConfig {
                name: p.name.clone(),
                api_key: p.api_key.clone(),
                model: p.model.clone(),
                rpm_limit: p.rpm_limit,
                rpd_limit: p.rpd_limit,
            },
        );
        i = i + 1;
    }
    let url = config.synthesis.coordinator_url.as_str();
    proof {
        reveal_strlit("");
        assert(url@.len() == 0 ==> url@ =~= ""@);
    }
    SynthesisConfig {
        enabled: true,
        target_per_hour: match target_per_hour {
            Some(n) => n,
            None => config.synthesis.target_per_hour,
        },
        enable_refinement: config.synthesis.enable_refinement,
        coordinator_url: if str_eq(url, "") {
            local(config.coordinator.bind_addr.as_str(), config.coordinator.http_port)
        } else {
            url.to_owned()
        },
        providers,
    }
}

/// The seconds that the synthesis engine runs; none if it has no end.
pub fn synthesis_secs(hours: u64) -> (r: Option<u64>)
    requires
        hours * 3600 <= u64::MAX,
    ensures
        match r {
            Some(n) => hours > 0 && n == hours * 3600,
            None => hours == 0,
        },
{
    if hours > 0 {
        Some(hours * 3600)
    } else {
        None
    }
}

/// The first of these lines.
pub open spec fn first_lines(all: Seq<Seq<char>>) -> Seq<Seq<char>> {
    if all.len() > PREVIEW_LINES {
        all.subrange(0, PREVIEW_LINES as int)
    } else {
        all
    }
}

/// Whether these are the first lines of a search result.
pub open spec fn is_preview(content: Seq<char>, r: Seq<char>) -> bool {
    r == joined(first_lines(lines_of(content)), "\n"@)
}

/// The first lines of a search result.
pub fn preview(content: &str) -> (r: String)
    ensures
        is_preview(content@, r@),
{
    let all = lines(content);
    let n: usize = if all.len() > PREVIEW_LINES {
        PREVIEW_LINES
    } else {
        all.len()
    };
    assert(texts(all@).subrange(0, n as int) =~= first_lines(texts(all@)));
    join(&all, 0, n, "\n")
}

/// A short result is shown as it is, of a long one its first eight lines.
pub proof fn law_first_eight_lines_are_shown(lines: Seq<Seq<char>>, r: Seq<char>)
    requires
        lines.len() > 0,
        lines.last().len() > 0,
        forall|i: int| 0 <= i < lines.len() ==> is_line(#[trigger] lines[i]),
        is_preview(joined(lines, "\n"@), r),
    ensures
        lines.len() <= 8 ==> r == joined(lines, "\n"@),
        lines.len() > 8 ==> r == joined(lines.subrange(0, 8), "\n"@),
{
    law_joined_lines_are_read_back(lines);
}

/// A coordinator that listens everywhere is reached on this machine, any other where it listens.
pub proof fn law_local_coordinator_is_reached_here(addr: Seq<char>, port: u16)
    ensures
        local_url("0.0.0.0"@, port) == "http://127.0.0.1:"@ + decimal(port as nat),
        !contains(addr, "0.0.0.0"@) ==> local_url(addr, port) == "http://"@ + addr + ":"@ + decimal(
            port as nat,
        ),
{
    reveal_strlit("0.0.0.0");
    reveal_strlit("127.0.0.1");
    reveal_strlit("http://");
    reveal_strlit(":");
    reveal_strlit("http://127.0.0.1:");
    let all = "0.0.0.0"@;
    let none = Seq::<char>::empty();
    assert(all.subrange(0, 7) =~= all);
    assert(occurs_at(all, all, 0));
    lemma_find_from(all, all, 0);
    assert(all =~= none + all + none);
    law_replacing_goes_from_part_to_part(all, all, "127.0.0.1"@, none, none);
    assert(!contains(none, all));
    law_replacing_goes_from_part_to_part(none, all, "127.0.0.1"@, none, none);
    assert(none + "127.0.0.1"@ + none =~= "127.0.0.1"@);
    assert("http://"@ + "127.0.0.1"@ + ":"@ =~= "http://127.0.0.1:"@);
    law_replacing_goes_from_part_to_part(addr, all, "127.0.0.1"@, none, none);
}

/// Every configured provider is asked, in order and within its limits, and what was asked for on
/// the command line comes before what is configured.
pub proof fn law_every_provider_is_set_up(
    r: SynthesisConfig,
    config: HyverkConfig,
    target_per_hour: Option<u32>,
    i: int,
)
    requires
        is_setup(r, config, target_per_hour),
        0 <= i < config.synthesis.providers@.len(),
    ensures
        r.enabled,
        r.providers@.len() == config.synthesis.providers@.len(),
        r.providers@[i].name@ == config.synthesis.providers@[i].name@,
        r.providers@[i].api_key@ == config.synthesis.providers@[i].api_key@,
        r.providers@[i].model@ == config.synthesis.providers@[i].model@,
        r.providers@[i].rpm_limit == config.synthesis.providers@[i].rpm_limit,
        r.providers@[i].rpd_limit == config.synthesis.providers@[i].rpd_limit,
        r.enable_refinement == config.synthesis.enable_refinement,
        target_per_hour is Some ==> r.target_per_hour == target_per_hour->0,
        target_per_hour is None ==> r.target_per_hour == config.synthesis.target_per_hour,
        config.synthesis.coordinator_url@.len() > 0 ==> r.coordinator_url@
            == config.synthesis.coordinator_url@,
{
    assert(same_provider(r.providers@[i], config.synthesis.providers@[i]));
}

} // verus!
