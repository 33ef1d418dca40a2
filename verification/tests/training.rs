//! Training jobs, rounds, batches and memory.
use hyverk::codec::{decode_adapter, encode_adapter, encode_compressed, EncodeError};
use hyverk::http_api::{
    create_training_round, data_url, layer_tensor_names, layers_url, submit_layer_adapter,
    LayerSubmission,
};
use hyverk::layer_training::{AssignmentStatus, LayerTrainingStore, RoundStatus};
use hyverk::training::dataset::{
    build_batch, format_chatml, format_chatml_prompt_only, make_batches, tokenize_examples,
    TokenizeError, TrainingExample, IGNORED,
};
use hyverk::training::support::can_encode_any;
use hyverk::training::trainer::{
    check_memory_limit, check_sequences, examples_used, memory_error, Accumulation, MemoryCheck,
    TrainPlanError,
};
use hyverk::training::weights::{average_plan, shard_files, IndexError};
use hyverk::training::{Qwen2Config, TrainingConfig};
use hyverk::training_store::{JobStatus, TrainingStore};

fn example(instruction: &str, response: &str) -> TrainingExample {
    TrainingExample {
        instruction: instruction.to_string(),
        response: response.to_string(),
        category: String::new(),
    }
}

#[test]
fn shards_partition_the_lines() {
    let mut t: TrainingStore<f64> = TrainingStore::new();
    let job = t.create_job("m".to_string(), "a\n\nb\nc\n", 2, 16, 32.0, 3, 0);
    let stats = t.job_stats(&job).unwrap();
    assert_eq!(stats.shards_total, 2);
    assert_eq!(stats.shards_available, 2);
    let (first, content) = t.claim_next_shard(&job, "n", 0).unwrap();
    assert_eq!(content, "a\nb");
    let (second, content) = t.claim_next_shard(&job, "n", 0).unwrap();
    assert_eq!(content, "c");
    assert_ne!(first, second);
    assert!(t.claim_next_shard(&job, "n", 0).is_none());
    assert!(t.claim_next_shard("nobody", "n", 0).is_none());
}

#[test]
fn submitted_shards_finish_the_job() {
    let mut t: TrainingStore<f64> = TrainingStore::new();
    let job = t.create_job("m".to_string(), "a\nb", 1, 16, 32.0, 3, 0);
    let (a, _) = t.claim_next_shard(&job, "n", 0).unwrap();
    let (b, _) = t.claim_next_shard(&job, "n", 0).unwrap();
    assert!(t.submit_adapter(&job, &a, "n", "x".to_string(), 0.5, 1, 0));
    assert_eq!(t.job_stats(&job).unwrap().status, JobStatus::InProgress);
    assert!(t.submit_adapter(&job, &b, "n", "y".to_string(), 0.25, 2, 0));
    let stats = t.job_stats(&job).unwrap();
    assert_eq!(stats.shards_completed, 2);
    assert_eq!(stats.adapters_submitted, 2);
    assert_eq!(stats.status, JobStatus::Aggregating);
    assert_eq!(t.get_submissions(&job).unwrap()[1].adapter_b64, "y");
}

fn rounds() -> LayerTrainingStore<f32> {
    LayerTrainingStore::restore(Vec::new(), None, None)
}

#[test]
fn round_partitions_the_layers() {
    let mut s = rounds();
    let r = create_training_round(&mut s, "v0.1", 3, 100, 30, 7).unwrap();
    assert_eq!(r.total_layers, 28);
    assert_eq!(r.assignments, 9);
    let a = &s.rounds[0].assignments;
    assert_eq!(a.len(), 10);
    assert_eq!((a[0].layer_start, a[0].layer_end), (0, 3));
    assert_eq!((a[9].layer_start, a[9].layer_end), (27, 28));
    assert_eq!((a[3].data_shard_start, a[3].data_shard_size), (90, 10));
    assert_eq!(a[4].data_shard_start, 20);
    assert_eq!(layers_url(&a[0]), "/api/v1/layer-training/layers/0/3");
    assert_eq!(data_url(&a[3]), "/api/v1/layer-training/shard/90/10");
    assert_eq!(s.first_round_at, Some(7));
    assert!(create_training_round(&mut s, "v", 3, 0, 30, 7).is_none());
}

#[test]
fn claimed_assignment_is_taken_back() {
    let mut s = rounds();
    s.create_round("v", "m", 4, 2, 10, 5, 100);
    let a = s.claim_assignment("n", 100).unwrap();
    assert_eq!(a.status, AssignmentStatus::Assigned);
    assert_eq!(a.assigned_to.as_deref(), Some("n"));
    let b = s.claim_assignment("n", 100).unwrap();
    assert_ne!(a.assignment_id, b.assignment_id);
    assert!(s.claim_assignment("n", 100).is_none());
    assert!(s.reassign_stale(120, 220).is_empty());
    assert_eq!(s.reassign_stale(120, 221), vec![0]);
    assert_eq!(s.claim_assignment("o", 221).unwrap().assignment_id, a.assignment_id);
}

#[test]
fn finished_round_is_merged_and_followed() {
    let mut s = rounds();
    s.create_round("v", "m", 2, 1, 10, 5, 100);
    for _ in 0..2 {
        let a = s.claim_assignment("n", 100).unwrap();
        assert!(s.submit_adapter(&a.assignment_id, 0.5, 3));
    }
    assert!(!s.submit_adapter("nobody", 0.5, 3));
    assert_eq!(s.rounds[0].status, RoundStatus::Merging);
    assert_eq!(s.total_rounds_completed, 1);
    assert_eq!(s.stats(), (1, 2, 2, vec![0.5, 0.5]));
    assert_eq!(s.rounds_remaining(100), 99);
    assert_eq!(s.rounds_remaining(1), 0);
    let plans = s.merge_plans("/d");
    assert_eq!(plans.len(), 1);
    let short = &s.rounds[0].round_id[..8];
    assert_eq!(plans[0].adapter_dir, format!("/d/adapters_{short}"));
    assert_eq!(plans[0].output_path, "/d/hyverk-v.safetensors");
    assert_eq!(plans[0].files[1].1, format!("/d/adapters_{short}/layers_1_2.safetensors"));
    assert!(s.auto_advance(10, 200));
    assert_eq!(s.rounds[0].status, RoundStatus::Complete);
    assert_eq!(s.rounds[1].version, "v0.1-r2");
    assert_eq!(s.rounds[1].assignments.len(), 14);
    assert!(!s.auto_advance(10, 200));
    assert_eq!(s.active_round().unwrap().version, "v0.1-r2");
}

#[test]
fn stored_counters_are_restored() {
    let s: LayerTrainingStore<f32> =
        LayerTrainingStore::restore(Vec::new(), Some("12".to_string()), Some("x".to_string()));
    assert_eq!(s.total_rounds_completed, 12);
    assert_eq!(s.first_round_at, None);
}

#[test]
fn adapter_survives_its_encoding() {
    let encoded = encode_compressed(&vec![1, 2, 255]).unwrap();
    assert_eq!(encoded, "AQL/");
    assert_eq!(decode_adapter(&encoded), Some(vec![1, 2, 255]));
    assert_eq!(decode_adapter("!"), None);
}

#[test]
fn adapter_is_compressed() {
    let raw = vec![7u8; 10_000];
    let encoded = encode_adapter(&raw).unwrap();
    assert!(encoded.len() < 1000);
    let zipped = decode_adapter(&encoded).unwrap();
    assert_eq!(zipped[..2], [0x1f, 0x8b]);
    let mut plain = Vec::new();
    std::io::Read::read_to_end(&mut flate2::read::GzDecoder::new(&zipped[..]), &mut plain)
        .unwrap();
    assert_eq!(plain, raw);
    assert_ne!(EncodeError::Compression, EncodeError::TooLarge);
}

#[test]
fn layer_adapter_is_submitted() {
    let mut s = rounds();
    s.create_round("v", "m", 2, 2, 10, 5, 100);
    let id = s.claim_assignment("n", 100).unwrap().assignment_id;
    assert!(matches!(
        submit_layer_adapter(&mut s, &id, "!", 0.5, 1),
        LayerSubmission::InvalidBase64
    ));
    assert!(matches!(
        submit_layer_adapter(&mut s, "nobody", "AQI=", 0.5, 1),
        LayerSubmission::NotFound
    ));
    match submit_layer_adapter(&mut s, &id, "AQI=", 0.5, 1) {
        LayerSubmission::Accepted { adapter } => assert_eq!(adapter, vec![1, 2]),
        other => panic!("{other:?}"),
    }
    assert_eq!(s.rounds[0].assignments[0].training_loss, Some(0.5));
}

#[test]
fn tensors_of_layers() {
    let names = layer_tensor_names(3, 5);
    assert_eq!(names.len(), 24);
    assert_eq!(names[0], "model.layers.3.self_attn.q_proj.weight");
    assert_eq!(names[23], "model.layers.4.mlp.down_proj.weight");
    assert!(layer_tensor_names(5, 3).is_empty());
}

#[test]
fn prompt_is_a_prefix_of_the_conversation() {
    let e = example("Do it", "Done");
    let full = format_chatml(&e);
    let prompt = format_chatml_prompt_only(&e);
    assert!(full.starts_with(&prompt));
    assert!(prompt.ends_with("<|im_start|>user\nDo it<|im_end|>\n<|im_start|>assistant\n"));
    assert_eq!(&full[prompt.len()..], "Done<|im_end|>");
}

#[test]
fn only_answers_are_learned() {
    let prompts = vec![vec![1, 2], vec![1, 2, 3, 4], vec![9]];
    let fulls = vec![vec![1, 2, 5], vec![1, 2, 3, 4, 5], vec![9]];
    let b = build_batch(&prompts, &fulls, 4);
    assert_eq!(b.input_ids, vec![vec![1, 2, 5, 0]]);
    assert_eq!(b.labels, vec![vec![IGNORED, IGNORED, 5, IGNORED]]);
}

#[test]
fn batches_partition_the_sequences() {
    let prompts = vec![vec![1], vec![1], vec![1]];
    let fulls = vec![vec![1, 2], vec![1, 3], vec![1, 4]];
    let b = build_batch(&prompts, &fulls, 2);
    let parts = make_batches(&b, 2);
    assert_eq!(parts.len(), 2);
    assert_eq!(parts[0].0, vec![vec![1, 2], vec![1, 3]]);
    assert_eq!(parts[1].0, vec![vec![1, 4]]);
    assert_eq!(parts[1].1, vec![vec![IGNORED, 4]]);
}

#[test]
fn examples_are_tokenized() {
    let json = r#"{
        "version": "1.0", "truncation": null, "padding": null, "added_tokens": [],
        "normalizer": null, "pre_tokenizer": {"type": "Whitespace"}, "post_processor": null,
        "decoder": null,
        "model": {"type": "WordLevel", "vocab": {"[UNK]": 0, "ping": 1, "pong": 2}, "unk_token": "[UNK]"}
    }"#;
    let tokenizer = tokenizers::Tokenizer::from_bytes(json.as_bytes()).unwrap();
    let examples = vec![example("ping", "pong")];
    let b = tokenize_examples(&examples, &tokenizer, 200).unwrap();
    assert_eq!(b.input_ids.len(), 1);
    assert_eq!(b.input_ids[0].len(), 200);
    let learned: Vec<i64> = b.labels[0].iter().copied().filter(|l| *l != IGNORED).collect();
    assert_eq!(learned[0], 2);
    assert!(b.input_ids[0].contains(&1));
    assert!(tokenize_examples(&examples, &tokenizer, 1).unwrap().input_ids.is_empty());
}

/// A tokenizer of words with this truncation, padding, added tokens, normalizer, pre-tokenizer
/// and post-processor.
fn words_with(parts: [&str; 6]) -> tokenizers::Tokenizer {
    let json = format!(
        r#"{{"version": "1.0", "truncation": {}, "padding": {}, "added_tokens": {},
        "normalizer": {}, "pre_tokenizer": {}, "post_processor": {}, "decoder": null,
        "model": {{"type": "WordLevel", "vocab": {{"[UNK]": 0, "ping": 1, "pong": 2}},
        "unk_token": "[UNK]"}}}}"#,
        parts[0], parts[1], parts[2], parts[3], parts[4], parts[5]
    );
    tokenizers::Tokenizer::from_bytes(json.as_bytes()).unwrap()
}

fn is_unsupported(parts: [&str; 6]) -> bool {
    let r = tokenize_examples(&vec![example("ping", "pong")], &words_with(parts), 200);
    matches!(r, Err(TokenizeError::Unsupported))
}

const WHITESPACE: &str = r#"{"type": "Whitespace"}"#;

#[test]
fn stride_matters_where_a_text_is_cut() {
    let examples = vec![example("ping", "pong")];
    let cut = |length: usize| {
        format!(
            r#"{{"direction": "Right", "max_length": {length}, "strategy": "LongestFirst", "stride": {length}}}"#
        )
    };
    let with = |length: usize, padding: &str| {
        words_with([&cut(length), padding, "[]", "null", WHITESPACE, "null"])
    };
    let whole = words_with(["null", "null", "[]", "null", WHITESPACE, "null"]);
    let expected = tokenize_examples(&examples, &whole, 200).unwrap();
    match tokenize_examples(&examples, &with(3, "null"), 200) {
        Err(e) => {
            assert!(matches!(e, TokenizeError::Stride));
            assert_eq!(e.message(), "tokenizer stride is not below its maximal length");
        }
        Ok(_) => panic!("not refused"),
    }
    let r = tokenize_examples(&examples, &with(150, "null"), 200).unwrap();
    assert_eq!((&r.input_ids, &r.labels), (&expected.input_ids, &expected.labels));
    let padding = r#"{"strategy": {"Fixed": 160}, "direction": "Right", "pad_to_multiple_of": null,
        "pad_id": 7, "pad_type_id": 0, "pad_token": "[PAD]"}"#;
    let r = tokenize_examples(&examples, &with(150, padding), 200);
    assert!(!matches!(r, Err(TokenizeError::Stride)));
    let r = tokenize_examples(&examples, &with(0, "null"), 200).unwrap();
    assert!(r.input_ids.is_empty());
    let only_second = cut(3).replace("LongestFirst", "OnlySecond");
    let t = words_with([&only_second, "null", "[]", "null", WHITESPACE, "null"]);
    match tokenize_examples(&examples, &t, 200) {
        Err(e) => assert!(e.message().starts_with("batch tokenizer error (prompts): ")),
        Ok(_) => panic!("not refused"),
    }
}

#[test]
fn tokenizer_errors_are_told_apart() {
    let prompts = TokenizeError::Prompts("e".to_string());
    assert_eq!(prompts.message(), "batch tokenizer error (prompts): e");
    let fulls = TokenizeError::Conversations("e".to_string());
    assert_eq!(fulls.message(), "batch tokenizer error (fulls): e");
    assert_eq!(
        TokenizeError::Unsupported.message(),
        "tokenizer has a part that is not supported"
    );
}

#[test]
fn parts_that_may_break_off_are_refused() {
    let empty = r#"{"type": "FixedLength", "length": 0}"#;
    assert!(is_unsupported(["null", "null", "[]", "null", empty, "null"]));
    let sequence = format!(r#"{{"type": "Sequence", "pretokenizers": [{WHITESPACE}, {empty}]}}"#);
    assert!(is_unsupported(["null", "null", "[]", "null", &sequence, "null"]));
    let long = r#"{"type": "FixedLength", "length": 5}"#;
    assert!(!is_unsupported(["null", "null", "[]", "null", long, "null"]));

    let second = r#"{"type": "TemplateProcessing", "special_tokens": {}, "pair": [],
        "single": [{"Sequence": {"id": "B", "type_id": 0}}]}"#;
    assert!(is_unsupported(["null", "null", "[]", "null", WHITESPACE, second]));
    let first = second.replace("\"B\"", "\"A\"");
    assert!(!is_unsupported(["null", "null", "[]", "null", WHITESPACE, &first]));

    let split = |regex: &str| {
        format!(
            r#"{{"type": "Split", "pattern": {{"Regex": "{regex}"}}, "behavior": "Isolated",
            "invert": false}}"#
        )
    };
    assert!(is_unsupported(["null", "null", "[]", "null", &split(r"(a)\\1"), "null"]));
    assert!(!is_unsupported(["null", "null", "[]", "null", &split(r"\\s+(?!\\S)|\\S+"), "null"]));

    let padding = |n: u64| {
        format!(
            r#"{{"strategy": {{"Fixed": {n}}}, "direction": "Right", "pad_to_multiple_of": null,
            "pad_id": 0, "pad_type_id": 0, "pad_token": "[PAD]"}}"#
        )
    };
    assert!(is_unsupported(["null", &padding(u64::MAX), "[]", "null", WHITESPACE, "null"]));
    assert!(!is_unsupported(["null", &padding(64), "[]", "null", WHITESPACE, "null"]));

    let prepend = |s: &str| format!(r#"{{"type": "Prepend", "prepend": "{s}"}}"#);
    assert!(is_unsupported(["null", "null", "[]", &prepend(""), WHITESPACE, "null"]));
    assert!(!is_unsupported(["null", "null", "[]", &prepend("_"), WHITESPACE, "null"]));

    let token = |id: u64, text: &str, left: bool, right: bool| {
        format!(
            r#"{{"id": {id}, "content": "{text}", "single_word": false, "lstrip": {left},
            "rstrip": {right}, "normalized": false, "special": true}}"#
        )
    };
    let both = format!("[{}, {}]", token(3, "<a>", true, false), token(4, "<b>", false, true));
    assert!(is_unsupported(["null", "null", &both, "null", WHITESPACE, "null"]));
    let one = format!("[{}, {}]", token(3, "<a>", true, false), token(4, "<b>", true, false));
    assert!(!is_unsupported(["null", "null", &one, "null", WHITESPACE, "null"]));
    let strip = r#"{"type": "Strip", "strip_left": true, "strip_right": true}"#;
    let space = format!("[{}]", token(3, " ", false, false));
    assert!(is_unsupported(["null", "null", &space, strip, WHITESPACE, "null"]));
    assert!(!is_unsupported(["null", "null", &one, strip, WHITESPACE, "null"]));
    assert!(!is_unsupported(["null", "null", "[]", strip, WHITESPACE, "null"]));
    let replace = r#"{"type": "Sequence", "normalizers": [{"type": "Strip", "strip_left": true,
        "strip_right": true}, {"type": "Replace", "pattern": {"String": "<"}, "content": " "}]}"#;
    assert!(is_unsupported(["null", "null", &one, replace, WHITESPACE, "null"]));
}

#[test]
fn byte_level_tokenizer_is_supported() {
    let regex = r"(?i:'s|'t|'re|'ve|'m|'ll|'d)|[^\\r\\n\\p{L}\\p{N}]?\\p{L}+|\\p{N}| ?[^\\s\\p{L}\\p{N}]+[\\r\\n]*|\\s*[\\r\\n]+|\\s+(?!\\S)|\\s+";
    let bytes = r#"{"type": "ByteLevel", "add_prefix_space": false, "trim_offsets": false,
        "use_regex": false}"#;
    let pre = format!(
        r#"{{"type": "Sequence", "pretokenizers": [{{"type": "Split", "pattern": {{"Regex": "{regex}"}},
        "behavior": "Isolated", "invert": false}}, {bytes}]}}"#
    );
    let tokens = r#"[{"id": 3, "content": "<|im_end|>", "single_word": false, "lstrip": false,
        "rstrip": false, "normalized": false, "special": true}]"#;
    let t = words_with(["null", "null", tokens, r#"{"type": "NFC"}"#, &pre, bytes]);
    let b = tokenize_examples(&vec![example("ping", "pong")], &t, 200).unwrap();
    assert_eq!(b.input_ids.len(), 1);
    let learned: Vec<i64> = b.labels[0].iter().copied().filter(|l| *l != IGNORED).collect();
    assert_eq!(learned, vec![2, 3]);
}

#[test]
fn parts_are_judged_by_their_text() {
    assert!(can_encode_any("[null,null,null,null,[],0]"));
    assert!(!can_encode_any("[null,null,null,null,[]]"));
    assert!(!can_encode_any("[null,null,null,null,null,0]"));
    assert!(!can_encode_any("x"));
    assert!(!can_encode_any(r#"[{"type":"Precompiled"},null,null,null,[],0]"#));
    assert!(can_encode_any(r#"[{"type":"Sequence","normalizers":[]},null,null,null,[],0]"#));
    assert!(!can_encode_any(r#"[{"type":"Sequence"},null,null,null,[],0]"#));
    assert!(!can_encode_any(r#"[null,{"type":"Unheard"},null,null,[],0]"#));
    assert!(!can_encode_any(r#"[null,null,{"type":"TemplateProcessing","single":[]},null,[],0]"#));
    assert!(can_encode_any(r#"[{"type":"StripAccents"},null,null,null,[{"content":"a"}],1]"#));
    assert!(!can_encode_any(r#"[{"type":"StripAccents"},null,null,null,[{"content":"a"}],2]"#));
    assert!(!can_encode_any(r#"[{"type":"StripAccents"},null,null,null,[{"content":"ä"}],1]"#));
}

#[test]
fn tokens_are_matched_as_the_normalizer_leaves_them() {
    let strip = r#"{"type": "Strip", "strip_left": true, "strip_right": true}"#;
    let token = r#"[{"id": 3, "content": " ", "single_word": false, "lstrip": false,
        "rstrip": false, "normalized": true, "special": false}]"#;
    let mut t = words_with(["null", "null", token, strip, WHITESPACE, "null"]);
    let examples = vec![example("ping é", "pong")];
    let refused = tokenize_examples(&examples, &t, 200);
    assert!(matches!(refused, Err(TokenizeError::Unsupported)));
    t.with_normalizer(None::<tokenizers::NormalizerWrapper>);
    let b = tokenize_examples(&examples, &t, 200).unwrap();
    assert!(b.input_ids[0].contains(&3));
}

#[test]
fn memory_is_guarded() {
    let gb = 1 << 30;
    assert_eq!(check_memory_limit(4, 3 * gb), MemoryCheck::Low);
    assert_eq!(check_memory_limit(4, 3 * gb + 1), MemoryCheck::High);
    assert_eq!(check_memory_limit(4, 4 * gb), MemoryCheck::High);
    assert_eq!(check_memory_limit(4, 4 * gb + 1), MemoryCheck::Exceeded);
    let text = memory_error("before forward pass", "4.3", 4);
    assert_eq!(
        text,
        "MEMORY LIMIT EXCEEDED during before forward pass: 4.3GB > 4GB limit. Reduce --batch-size, --max-seq-len, or use a smaller model (1.5B instead of 7B)."
    );
}

#[test]
fn training_plan_is_checked() {
    assert_eq!(examples_used(5, 0).unwrap(), 5);
    assert_eq!(examples_used(5, 3).unwrap(), 3);
    assert_eq!(examples_used(5, 9).unwrap(), 5);
    assert_eq!(examples_used(0, 9).unwrap_err().message(), "No examples in shard");
    assert!(check_sequences(1).is_ok());
    let e: TrainPlanError = check_sequences(0).unwrap_err();
    assert_eq!(e.message(), "All examples were filtered out during tokenization");
}

#[test]
fn run_has_the_steps_of_its_epochs() {
    for (accum, batches, epochs, expected) in
        [(2, 5, 3, 9), (0, 4, 2, 8), (8, 3, 4, 4), (3, 6, 1, 2), (3, 0, 5, 0)]
    {
        let mut a = Accumulation::new(accum, batches);
        for _ in 0..epochs {
            a.start_epoch();
            for step in 0..batches {
                a.on_batch(step);
            }
        }
        assert_eq!(a.total_steps, expected);
    }
}

#[test]
fn optimizer_steps_for_each_group() {
    let mut a = Accumulation::new(2, 5);
    let mut stepped = Vec::new();
    for epoch in 0..2 {
        a.start_epoch();
        for step in 0..5 {
            if a.on_batch(step) {
                stepped.push((epoch, step));
            }
        }
    }
    assert_eq!(stepped, vec![(0, 1), (0, 3), (0, 4), (1, 1), (1, 3), (1, 4)]);
    assert_eq!(a.total_steps, 6);
}

#[test]
fn epoch_starts_with_an_empty_group() {
    let mut a = Accumulation::new(3, 5);
    assert!(!a.on_batch(0));
    assert!(!a.on_batch(1));
    assert_eq!(a.count, 2);
    a.start_epoch();
    assert_eq!(a.count, 0);
    assert!(!a.on_batch(0));
    assert_eq!((a.grad_accum_steps, a.batches, a.total_steps), (3, 5, 0));
}

#[test]
fn configurations_have_their_defaults() {
    let c = TrainingConfig::default_with(32.0, 2e-4);
    assert_eq!(c.lora_rank, 16);
    assert_eq!(c.lora_alpha, 32.0);
    let big = Qwen2Config::qwen25_7b(1e-6, 1e6);
    assert_eq!(big.head_dim(), 128);
    let small = Qwen2Config::qwen25_1_5b(1e-6, 1e6);
    assert_eq!(small.head_dim(), 128);
    assert_eq!(small.hidden_size, 1536);
}

#[test]
fn every_file_is_loaded_once() {
    let index = "{\"weight_map\":{\"a\":\"x.safetensors\",\"b\":\"y.safetensors\",\"c\":\"x.safetensors\",\"d\":1}}";
    assert_eq!(shard_files(index).ok(), Some(vec!["x.safetensors".to_string(), "y.safetensors".to_string(), String::new()]));
    let error = |text: &str| match shard_files(text) {
        Ok(_) => panic!("taken"),
        Err(e) => e,
    };
    assert!(matches!(error("{"), IndexError::Unreadable(_)));
    assert_eq!(error("x").message(), "parse index: expected value at line 1 column 1");
    assert!(matches!(error("[]"), IndexError::NoMap));
    assert_eq!(error("{\"weight_map\":[]}").message(), "invalid index");
}

#[test]
fn tensors_are_averaged_over_their_holders() {
    let names = |all: &[&str]| all.iter().map(|n| n.to_string()).collect::<Vec<_>>();
    let plan = average_plan(&vec![names(&["a", "b"]), names(&["b", "c"]), names(&["a", "b"])]);
    assert_eq!(plan.len(), 2);
    assert_eq!((plan[0].key.as_str(), &plan[0].holders), ("a", &vec![0, 2]));
    assert_eq!((plan[1].key.as_str(), &plan[1].holders), ("b", &vec![0, 1, 2]));
    assert!(average_plan(&vec![]).is_empty());
}
