//! Frames, JSON members and text.
use hyverk::chatml::chat_prompt;
use hyverk::frames::{
    binary_payload, encode_frame, frame_lengths, parse_binary_payload, push_le, REQUEST_ID_LEN,
};
use hyverk::json::{
    get, get_number, get_number_list, get_number_or, get_numbers, get_string, get_string_or,
    get_strings, get_true, item,
};
use hyverk::layers::split_layers;
use hyverk::offsets::Positions;
use hyverk::text::{
    format_number, has, has_prefix, has_suffix, join, le, len_bytes, lines, parse_u64,
    parse_usize, replace, split, trim, trim_end_matches, trim_ends, trim_start_matches,
    without_prefix,
};

#[test]
fn payload_comes_back() {
    let id = "0123456789abcdef0123456789abcdef0123";
    assert_eq!(id.len(), REQUEST_ID_LEN);
    let data = binary_payload(id, &vec![9, 8]);
    assert_eq!(data.len(), REQUEST_ID_LEN + 2);
    assert_eq!(parse_binary_payload(&data), Some((id.to_string(), vec![9, 8])));
    let data = binary_payload("short", &vec![7]);
    let (id, hidden) = parse_binary_payload(&data).unwrap();
    assert_eq!(trim_end_matches(&id, "\0"), "short");
    assert_eq!(hidden, vec![7]);
    assert_eq!(parse_binary_payload(&vec![0; REQUEST_ID_LEN - 1]), None);
}

#[test]
fn broken_ids_are_mended() {
    let mut data = vec![b'a'; REQUEST_ID_LEN];
    data[0] = 0xff;
    let (id, hidden) = parse_binary_payload(&data).unwrap();
    assert_eq!(id, format!("\u{fffd}{}", "a".repeat(REQUEST_ID_LEN - 1)));
    assert!(hidden.is_empty());
}

#[test]
fn frame_tells_its_lengths() {
    let frame = encode_frame(&b"{}".to_vec(), &vec![1, 2, 3]);
    assert_eq!(frame, vec![5, 0, 0, 0, 2, 0, 0, 0, b'{', b'}', 1, 2, 3]);
    assert_eq!(frame_lengths(&frame[..8].to_vec()), (2, 3));
    let mut out = Vec::new();
    push_le(&mut out, 0x0102);
    assert_eq!(out, vec![2, 1, 0, 0]);
}

#[test]
fn members_are_read() {
    let text = "{\"a\":\"x\\n\",\"n\":5,\"neg\":-5,\"t\":true,\"l\":[\"p\",1,\"q\"],\"m\":[3,\"x\",4],\"o\":{\"i\":7}}";
    assert_eq!(get_string(text, "a").as_deref(), Some("x\n"));
    assert_eq!(get_string(text, "n"), None);
    assert_eq!(get_string(text, "z"), None);
    assert_eq!(get_string_or(text, "z", "d"), "d");
    assert_eq!(get_number(text, "n"), Some(5));
    assert_eq!(get_number(text, "neg"), None);
    assert_eq!(get_number_or(text, "a", 9), 9);
    assert!(get_true(text, "t"));
    assert!(!get_true(text, "n"));
    assert_eq!(get_strings(text, "l"), vec!["p", "q"]);
    assert_eq!(get_number_list(text, "m"), vec![3, 4]);
    let inner = get(text, "o").unwrap();
    assert_eq!(get_number(&inner, "i"), Some(7));
    assert_eq!(get("[1]", "o"), None);
    assert_eq!(get("{", "o"), None);
    assert_eq!(item("[1,\"b\"]", 1).as_deref(), Some("\"b\""));
    assert_eq!(item("[1]", 1), None);
    assert_eq!(get_numbers("[1,2]"), Some(vec![1, 2]));
    assert_eq!(get_numbers("[1,\"2\"]"), None);
}

#[test]
fn layers_are_split_evenly() {
    assert_eq!(split_layers(1), vec![(0, 28)]);
    assert_eq!(split_layers(3), vec![(0, 10), (10, 19), (19, 28)]);
    assert_eq!(split_layers(4), vec![(0, 7), (7, 14), (14, 21), (21, 28)]);
    let ranges = split_layers(5);
    for layer in 0..28 {
        let owners = ranges.iter().filter(|r| r.0 <= layer && layer < r.1).count();
        assert_eq!(owners, 1);
    }
}

#[test]
fn text_is_cut_and_joined() {
    assert_eq!(trim("\u{a0} a b\t\n"), "a b");
    assert_eq!(trim_ends("[[1]", '[', ']'), "1");
    assert_eq!(lines("a\r\nb\n\nc"), vec!["a", "b", "", "c"]);
    assert_eq!(split("a,,b", ','), vec!["a", "", "b"]);
    let parts = vec!["a".to_string(), "b".to_string(), "c".to_string()];
    assert_eq!(join(&parts, 1, 3, "-"), "b-c");
    assert_eq!(replace("aaa", "aa", "b"), "ba");
    assert_eq!(trim_end_matches("x//", "/"), "x");
    assert_eq!(trim_start_matches("--x", "-"), "x");
    assert_eq!(without_prefix("~/x", "~/").as_deref(), Some("x"));
    assert!(has_prefix("abc", "ab") && has_suffix("abc", "bc") && has("abc", "b"));
    assert!(!has("abc", "ac"));
    assert!(le("a", "b") && le("a", "a") && !le("b", "a") && le("a", "aa"));
    assert_eq!(len_bytes("aä€"), 6);
}

#[test]
fn numbers_are_read_and_written() {
    assert_eq!(format_number(0), "0");
    assert_eq!(format_number(u64::MAX), "18446744073709551615");
    assert_eq!(parse_u64("18446744073709551615"), Some(u64::MAX));
    assert_eq!(parse_u64("18446744073709551616"), None);
    assert_eq!(parse_usize("+7"), Some(7));
    assert_eq!(parse_usize("-7"), None);
    assert_eq!(parse_usize(""), None);
    assert_eq!(parse_usize("7 "), None);
}

#[test]
fn positions_snap_to_characters() {
    let p = Positions::new("aäb");
    assert_eq!(p.total(), 4);
    assert_eq!(p.snap(2), 1);
    assert_eq!(p.slice(1, 4), "äb");
}

#[test]
fn chat_prompt_has_three_turns() {
    assert_eq!(
        chat_prompt("S", "U"),
        "<|im_start|>system\nS<|im_end|>\n<|im_start|>user\nU<|im_end|>\n<|im_start|>assistant\n"
    );
}
