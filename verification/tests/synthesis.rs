//! Generating training examples.
use hyverk::synthesis::prompts::{all_prompts, random_prompt};
use hyverk::synthesis::provider::{build_provider, parse_response, Protocol, ProviderError};
use hyverk::synthesis::worker::{
    apply_refinement, apply_verification, critique_prompt, generate_example, outcome_of,
    rand_seed, refine_prompt, GenerationOutcome, SynthesisStep, SynthesisWorker,
};
use hyverk::synthesis::{run_synthesis, ProviderConfig, SynthesisConfig};
use std::collections::BTreeMap;

const SEC: u64 = 1_000_000_000;

fn provider(name: &str, rpd_limit: Option<u32>) -> ProviderConfig {
    ProviderConfig {
        name: name.to_string(),
        api_key: "k".to_string(),
        model: String::new(),
        rpm_limit: None,
        rpd_limit,
    }
}

fn worker(providers: Vec<ProviderConfig>) -> SynthesisWorker {
    let config = SynthesisConfig {
        enabled: true,
        target_per_hour: 10,
        enable_refinement: true,
        coordinator_url: "http://c".to_string(),
        providers,
    };
    SynthesisWorker::new(config, "n".to_string(), 5)
}

#[test]
fn seeds_go_through_the_bank() {
    let all = all_prompts();
    assert_eq!(all.len(), 512);
    let n = all.len() as u64;
    assert_eq!(random_prompt(0).instruction, all[0].instruction);
    assert_eq!(random_prompt(n + 3).instruction, all[192].instruction);
    assert_eq!(random_prompt(11).instruction, all[193].instruction);
    let mut picked: Vec<String> = (7..n + 7).map(|s| random_prompt(s).instruction).collect();
    let mut bank: Vec<String> = all.into_iter().map(|p| p.instruction).collect();
    picked.sort();
    bank.sort();
    assert_eq!(picked, bank);
    bank.dedup();
    assert_eq!(bank.len(), 512);
}

#[test]
fn categories_come_up_equally_often() {
    let mut counts: BTreeMap<String, usize> = BTreeMap::new();
    for seed in 100..612 {
        *counts.entry(random_prompt(seed).category).or_default() += 1;
    }
    let names: Vec<&str> = counts.keys().map(|k| k.as_str()).collect();
    assert_eq!(
        names,
        vec!["async", "cli", "data-structures", "distributed", "errors", "refactoring", "rust", "testing"]
    );
    assert!(counts.values().all(|n| *n == 64));
}

#[test]
fn tasks_fill_up_the_bank() {
    let all = all_prompts();
    assert_eq!(
        all[15].instruction,
        "Implement a generic stack in Rust with documentation comments and unit tests."
    );
    assert_eq!(
        all[24].instruction,
        "Write a minimal working Rust example of an iterator over overlapping windows and explain each step."
    );
}

#[test]
fn providers_are_built() {
    let p = build_provider(&provider("groq", None));
    assert_eq!(p.model, "llama-3.3-70b-versatile");
    assert_eq!((p.rpm, p.rpd, p.timeout_secs), (30, 14_400, 60));
    assert_eq!(p.endpoint, "https://api.groq.com/openai/v1/chat/completions");
    let p = build_provider(&provider("gemini", None));
    assert!(matches!(p.protocol, Protocol::Gemini));
    assert_eq!(
        p.endpoint,
        "https://generativelanguage.googleapis.com/v1beta/models/gemini-1.5-flash:generateContent?key=k"
    );
    let p = build_provider(&provider("mistral", None));
    assert_eq!((p.rpm, p.rpd, p.timeout_secs), (1, 200, 90));
    let p = build_provider(&provider("acme", None));
    assert_eq!(p.endpoint, "https://api.acme.com/v1/chat/completions");
    assert_eq!((p.name.as_str(), p.rpm, p.rpd), ("acme", 10, 100));
}

#[test]
fn responses_are_read() {
    let body = "{\"choices\":[{\"message\":{\"content\":\"hi\"}}]}";
    assert_eq!(parse_response(Protocol::OpenAi, 200, body).ok().as_deref(), Some("hi"));
    let body = "{\"candidates\":[{\"content\":{\"parts\":[{\"text\":\"ho\"}]}}]}";
    assert_eq!(parse_response(Protocol::Gemini, 200, body).ok().as_deref(), Some("ho"));
    let error = |status: u16, body: &str| match parse_response(Protocol::OpenAi, status, body) {
        Ok(_) => panic!("taken"),
        Err(e) => e,
    };
    let e = error(200, "{}");
    assert!(matches!(e, ProviderError::EmptyResponse));
    assert_eq!(e.message(), "Empty response from provider");
    let e = error(429, "");
    assert_eq!(e.message(), "Rate limit exceeded");
    assert!(matches!(outcome_of(&e), GenerationOutcome::RateLimited));
    let e = error(500, "down");
    assert_eq!(e.message(), "API error 500: down");
    assert!(matches!(outcome_of(&e), GenerationOutcome::Failed));
    assert!(matches!(error(200, "{"), ProviderError::Http(_)));
    assert_eq!(ProviderError::Http("x".to_string()).message(), "HTTP error: x");
}

#[test]
fn interval_respects_the_budget() {
    assert_eq!(worker(vec![provider("groq", None)]).interval(), 12 * SEC);
    assert_eq!(worker(vec![provider("mistral", None)]).interval(), 60 * SEC);
    let many = (0..8).map(|_| provider("groq", None)).collect();
    assert_eq!(worker(many).interval(), 2 * SEC);
    let seven = (0..7).map(|_| provider("mistral", None)).collect();
    assert_eq!(worker(seven).interval(), 8_571_428_571);
    assert!(!run_synthesis(&worker(vec![]).config));
}

fn generate(step: SynthesisStep) -> (usize, u64) {
    match step {
        SynthesisStep::Generate(g) => (g.provider, g.seed),
        _ => panic!("asks nobody"),
    }
}

#[test]
fn providers_take_turns() {
    let mut w = worker(vec![provider("groq", Some(1)), provider("gemini", Some(2))]);
    assert_eq!(generate(w.next(0)), (0, 5));
    w.on_outcome(GenerationOutcome::Generated, 0);
    assert_eq!(generate(w.next(0)), (1, 6));
    w.on_outcome(GenerationOutcome::Failed, 0);
    match w.next(0) {
        SynthesisStep::Generate(g) => {
            assert_eq!((g.provider, g.seed), (1, 7));
            assert_eq!(g.prompt.instruction, random_prompt(7).instruction);
        }
        _ => panic!("asks nobody"),
    }
    w.on_outcome(GenerationOutcome::Generated, 0);
    assert!(matches!(w.next(0), SynthesisStep::Rest));
    assert!(matches!(w.next(3600 * SEC), SynthesisStep::Rest));
    assert!(!w.may_call(0, 3600 * SEC));
}

#[test]
fn daily_limits_are_kept() {
    let mut w = worker(vec![provider("groq", Some(0)), provider("gemini", Some(3))]);
    assert!(!w.can_ask(0, 0));
    let mut asked = Vec::new();
    for hour in 0..100 {
        if let SynthesisStep::Generate(g) = w.next(hour * 3600 * SEC) {
            assert_eq!(g.provider, 1);
            asked.push(hour);
            w.on_outcome(GenerationOutcome::Failed, hour * 3600 * SEC);
        }
    }
    assert_eq!(asked, vec![0, 1, 2, 25, 26, 27, 50, 51, 52, 75, 76, 77]);
}

#[test]
fn minute_limits_are_kept() {
    let mut w = worker(vec![provider("mistral", None)]);
    assert_eq!(generate(w.next(0)).0, 0);
    assert!(!w.may_call(0, SEC));
    assert!(matches!(w.next(60 * SEC), SynthesisStep::Wait));
    assert_eq!(generate(w.next(61 * SEC)).0, 0);
    let two = ProviderConfig { rpm_limit: Some(2), ..provider("groq", Some(3)) };
    let mut w = worker(vec![two]);
    assert!(w.may_call(0, 0) && w.may_call(0, 30 * SEC));
    assert!(!w.can_ask(0, 40 * SEC));
    assert!(w.may_call(0, 61 * SEC));
    assert!(matches!(w.next(100 * SEC), SynthesisStep::Rest));
}

#[test]
fn refinements_and_refusals_are_charged() {
    let mut w = worker(vec![provider("groq", Some(102))]);
    assert!(w.may_call(0, 0));
    w.on_outcome(GenerationOutcome::RateLimited, SEC);
    assert!(w.may_call(0, 2 * SEC));
    assert!(matches!(w.next(3 * SEC), SynthesisStep::Rest));
    assert_eq!(generate(w.next(86_401 * SEC)).0, 0);
    assert!(matches!(w.next(86_401 * SEC), SynthesisStep::Rest));
    assert!(w.can_ask(0, 86_402 * SEC));
}

#[test]
fn a_new_day_starts_afresh() {
    let mut w = worker(vec![provider("groq", Some(1))]);
    generate(w.next(0));
    w.on_outcome(GenerationOutcome::Generated, 0);
    assert!(matches!(w.next(86_400 * SEC), SynthesisStep::Rest));
    assert_eq!(generate(w.next(86_401 * SEC)).0, 0);
}

#[test]
fn examples_are_made() {
    let prompt = random_prompt(0);
    match generate_example(&prompt, "groq", "x".repeat(49)) {
        Err(e) => assert!(matches!(e, ProviderError::EmptyResponse)),
        Ok(_) => panic!("taken"),
    }
    let mut e = match generate_example(&prompt, "groq", "x".repeat(50)) {
        Ok(e) => e,
        Err(_) => panic!("refused"),
    };
    assert_eq!(e.id.len(), 36);
    assert_eq!(e.instruction, prompt.instruction);
    assert_eq!(e.model, "");
    assert!(!e.refined);
    apply_refinement(&mut e, "better".to_string());
    apply_verification(&mut e, true);
    assert_eq!(e.response, "better");
    assert!(e.refined && e.execution_verified);
    let w = worker(vec![provider("groq", None), provider("gemini", None)]);
    assert!(w.refines());
    assert_eq!(w.refiner(2), 1);
    assert_eq!(w.submit_url(), "http://c/api/v1/dataset/examples");
    assert!(critique_prompt("i", "d").contains("## Instruction\ni\n\n## Response\nd\n\n"));
    assert!(refine_prompt("i", "d", "c").contains("## Critique\nc\n\n"));
}

#[test]
fn seed_mixes_time_and_process() {
    assert_eq!(rand_seed(0, 0), 0);
    assert_eq!(rand_seed(7, 1), 7 ^ (1 << 32) ^ 6364136223846793005);
}
