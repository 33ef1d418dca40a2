//! Which tokenizers are made of parts that encode any text.
//!
//! A tokenizer is described by its parts as JSON: the normalizer, the pre-tokenizer, the
//! post-processor, the padding, the added tokens and the number of their contents. Some parts,
//! though they can be loaded, break off on ordinary texts; a tokenizer with such a part is not
//! used.
use crate::json::{get, get_number, get_string, get_string_or, get_true, items, number};
use crate::text::{has, str_eq};
use vstd::prelude::*;

verus! {

use crate::json::{is_true, json_get, json_items, json_number, number_at, string_at, string_or};
use crate::text::{contains, texts};
use vstd::string::StringExecFns;

/// How deep sequences of parts may be nested.
pub const MAX_NESTING: usize = 64;

/// The largest length to which texts are padded, so that what is padded can be allocated.
pub const MAX_PADDING: u64 = 0x100_0000;

/// What kind of part a text describes.
pub open spec fn kind_of(part: Seq<char>) -> Seq<char> {
    string_or(part, "type"@, ""@)
}

/// Whether there is no such part.
pub open spec fn is_absent(part: Seq<char>) -> bool {
    part == "null"@
}

/// The parts that a sequence lists under a key.
pub open spec fn listed(part: Seq<char>, key: Seq<char>) -> Option<Seq<Seq<char>>> {
    match json_get(part, key) {
        Some(v) => json_items(v),
        None => None,
    }
}

fn list(part: &str, key: &str) -> (r: Option<Vec<String>>)
    ensures
        match r {
            Some(v) => listed(part@, key@) == Some(texts(v@)),
            None => listed(part@, key@) is None,
        },
{
    match get(part, key) {
        Some(v) => items(v.as_str()),
        None => None,
    }
}

// ── Patterns ─────────────────────────────────────────────────────────────────

/// Whether a regular expression refers back to what it matched, or moves where its match
/// starts.
pub open spec fn refers_back(regex: Seq<char>) -> bool {
    ||| contains(regex, "\\K"@)
    ||| contains(regex, "\\k"@)
    ||| contains(regex, "\\g"@)
    ||| contains(regex, "\\1"@)
    ||| contains(regex, "\\2"@)
    ||| contains(regex, "\\3"@)
    ||| contains(regex, "\\4"@)
    ||| contains(regex, "\\5"@)
    ||| contains(regex, "\\6"@)
    ||| contains(regex, "\\7"@)
    ||| contains(regex, "\\8"@)
    ||| contains(regex, "\\9"@)
    ||| contains(regex, "(?P="@)
    ||| contains(regex, "(?P>"@)
    ||| contains(regex, "(?("@)
}

fn has_reference(regex: &str) -> (r: bool)
    ensures
        r == refers_back(regex@),
{
    has(regex, "\\K") || has(regex, "\\k") || has(regex, "\\g") || has(regex, "\\1") || has(
        regex,
        "\\2",
    ) || has(regex, "\\3") || has(regex, "\\4") || has(regex, "\\5") || has(regex, "\\6") || has(
        regex,
        "\\7",
    ) || has(regex, "\\8") || has(regex, "\\9") || has(regex, "(?P=") || has(regex, "(?P>")
        || has(regex, "(?(")
}

/// Whether texts can be split at a pattern: a text, or a regular expression that does not refer
/// back.
pub open spec fn splits_at(pattern: Seq<char>) -> bool {
    match string_at(pattern, "Regex"@) {
        Some(regex) => !refers_back(regex),
        None => string_at(pattern, "String"@) is Some,
    }
}

fn can_split_at(pattern: &str) -> (r: bool)
    ensures
        r == splits_at(pattern@),
{
    match get_string(pattern, "Regex") {
        Some(regex) => !has_reference(regex.as_str()),
        None => get_string(pattern, "String").is_some(),
    }
}

/// Whether a pattern never matches nothing: a text that is not empty, or one of two regular
/// expressions for runs of white space.
pub open spec fn matches_something(pattern: Seq<char>) -> bool {
    match string_at(pattern, "Regex"@) {
        Some(regex) => regex == "\\s+"@ || regex == " {2,}"@,
        None => match string_at(pattern, "String"@) {
            Some(s) => s.len() > 0,
            None => false,
        },
    }
}

fn can_replace(pattern: &str) -> (r: bool)
    ensures
        r == matches_something(pattern@),
{
    match get_string(pattern, "Regex") {
        Some(regex) => str_eq(regex.as_str(), "\\s+") || str_eq(regex.as_str(), " {2,}"),
        None => match get_string(pattern, "String") {
            Some(s) => !s.as_str().is_empty(),
            None => false,
        },
    }
}

// ── Parts ────────────────────────────────────────────────────────────────────

/// Of which texts a normalizer must leave something. An added token that is matched after
/// normalization must not become empty.
#[derive(Debug, Clone, Copy, PartialEq, Eq, Structural)]
pub enum Kept {
    /// Of none.
    Nothing,
    /// Of those made of visible ASCII characters.
    Plain,
    /// Of all that are not empty.
    Everything,
}

/// Whether a normalizer works on any text, and leaves something of those that must be kept.
pub open spec fn normalizes(part: Seq<char>, kept: Kept, depth: nat) -> bool
    decreases depth,
{
    let kind = kind_of(part);
    if is_absent(part) {
        true
    } else if kind == "Sequence"@ {
        match listed(part, "normalizers"@) {
            Some(v) => depth > 0 && forall|i: int|
                0 <= i < v.len() ==> normalizes(#[trigger] v[i], kept, (depth - 1) as nat),
            None => false,
        }
    } else if kind == "Prepend"@ {
        string_or(part, "prepend"@, ""@).len() > 0
    } else if kind == "Replace"@ {
        match json_get(part, "pattern"@) {
            Some(pattern) => matches_something(pattern) && match kept {
                Kept::Nothing => true,
                Kept::Plain => false,
                Kept::Everything => string_or(part, "content"@, ""@).len() > 0,
            },
            None => false,
        }
    } else if kind == "BertNormalizer"@ || kind == "Strip"@ || kind == "StripAccents"@ || kind
        == "Nmt"@ {
        kept != Kept::Everything
    } else {
        kind == "NFC"@ || kind == "NFD"@ || kind == "NFKC"@ || kind == "NFKD"@ || kind
            == "Lowercase"@ || kind == "ByteLevel"@
    }
}

fn can_normalize(part: &str, kept: Kept, depth: usize) -> (r: bool)
    ensures
        r == normalizes(part@, kept, depth as nat),
    decreases depth,
{
    if str_eq(part, "null") {
        return true;
    }
    let kind = get_string_or(part, "type", "");
    let kind = kind.as_str();
    if str_eq(kind, "Sequence") {
        match list(part, "normalizers") {
            Some(v) => {
                if depth == 0 {
                    return false;
                }
                let ghost all = texts(v@);
                let mut ok: bool = true;
                let mut i: usize = 0;
                while i < v.len()
                    invariant
                        i <= v@.len(),
                        depth > 0,
                        all == texts(v@),
                        ok == (forall|j: int|
                            0 <= j < i ==> normalizes(#[trigger] all[j], kept, (depth - 1) as nat)),
                    decreases v@.len() - i,
                {
                    assert(all[i as int] == v@[i as int]@);
                    if !can_normalize(v[i].as_str(), kept, depth - 1) {
                        ok = false;
                    }
                    i = i + 1;
                }
                assert(all.len() == v@.len());
                ok
            },
            None => false,
        }
    } else if str_eq(kind, "Prepend") {
        !get_string_or(part, "prepend", "").as_str().is_empty()
    } else if str_eq(kind, "Replace") {
        match get(part, "pattern") {
            Some(pattern) => can_replace(pattern.as_str()) && match kept {
                Kept::Nothing => true,
                Kept::Plain => false,
                Kept::Everything => !get_string_or(part, "content", "").as_str().is_empty(),
            },
            None => false,
        }
    } else if str_eq(kind, "BertNormalizer") || str_eq(kind, "Strip") || str_eq(
        kind,
        "StripAccents",
    ) || str_eq(kind, "Nmt") {
        kept != Kept::Everything
    } else {
        str_eq(kind, "NFC") || str_eq(kind, "NFD") || str_eq(kind, "NFKC") || str_eq(kind, "NFKD")
            || str_eq(kind, "Lowercase") || str_eq(kind, "ByteLevel")
    }
}

/// Whether a pre-tokenizer splits any text.
pub open spec fn pre_tokenizes(part: Seq<char>, depth: nat) -> bool
    decreases depth,
{
    let kind = kind_of(part);
    if is_absent(part) {
        true
    } else if kind == "Sequence"@ {
        match listed(part, "pretokenizers"@) {
            Some(v) => depth > 0 && forall|i: int|
                0 <= i < v.len() ==> pre_tokenizes(#[trigger] v[i], (depth - 1) as nat),
            None => false,
        }
    } else if kind == "Split"@ {
        match json_get(part, "pattern"@) {
            Some(pattern) => splits_at(pattern),
            None => false,
        }
    } else if kind == "FixedLength"@ {
        match number_at(part, "length"@) {
            Some(n) => n > 0,
            None => false,
        }
    } else {
        kind == "ByteLevel"@ || kind == "Whitespace"@ || kind == "WhitespaceSplit"@ || kind
            == "Metaspace"@ || kind == "BertPreTokenizer"@ || kind == "Punctuation"@ || kind
            == "Digits"@ || kind == "CharDelimiterSplit"@ || kind == "UnicodeScripts"@
    }
}

fn can_pre_tokenize(part: &str, depth: usize) -> (r: bool)
    ensures
        r == pre_tokenizes(part@, depth as nat),
    decreases depth,
{
    if str_eq(part, "null") {
        return true;
    }
    let kind = get_string_or(part, "type", "");
    let kind = kind.as_str();
    if str_eq(kind, "Sequence") {
        match list(part, "pretokenizers") {
            Some(v) => {
                if depth == 0 {
                    return false;
                }
                let ghost all = texts(v@);
                let mut ok: bool = true;
                let mut i: usize = 0;
                while i < v.len()
                    invariant
                        i <= v@.len(),
                        depth > 0,
                        all == texts(v@),
                        ok == (forall|j: int|
                            0 <= j < i ==> pre_tokenizes(#[trigger] all[j], (depth - 1) as nat)),
                    decreases v@.len() - i,
                {
                    assert(all[i as int] == v@[i as int]@);
                    if !can_pre_tokenize(v[i].as_str(), depth - 1) {
                        ok = false;
                    }
                    i = i + 1;
                }
                assert(all.len() == v@.len());
                ok
            },
            None => false,
        }
    } else if str_eq(kind, "Split") {
        match get(part, "pattern") {
            Some(pattern) => can_split_at(pattern.as_str()),
            None => false,
        }
    } else if str_eq(kind, "FixedLength") {
        match get_number(part, "length") {
            Some(n) => n > 0,
            None => false,
        }
    } else {
        str_eq(kind, "ByteLevel") || str_eq(kind, "Whitespace") || str_eq(kind, "WhitespaceSplit")
            || str_eq(kind, "Metaspace") || str_eq(kind, "BertPreTokenizer") || str_eq(
            kind,
            "Punctuation",
        ) || str_eq(kind, "Digits") || str_eq(kind, "CharDelimiterSplit") || str_eq(
            kind,
            "UnicodeScripts",
        )
    }
}

/// How many of the pieces of a template stand for a text.
pub open spec fn text_pieces(pieces: Seq<Seq<char>>) -> nat
    decreases pieces.len(),
{
    if pieces.len() == 0 {
        0
    } else {
        text_pieces(pieces.drop_last()) + if json_get(pieces.last(), "Sequence"@) is Some {
            1nat
        } else {
            0
        }
    }
}

/// Whether a piece of a template stands for no text but the first.
pub open spec fn is_first_text(piece: Seq<char>) -> bool {
    match json_get(piece, "Sequence"@) {
        Some(s) => string_at(s, "id"@) == Some("A"@),
        None => true,
    }
}

/// Whether a template for one text holds that text, once.
pub open spec fn holds_one_text(pieces: Seq<Seq<char>>) -> bool {
    text_pieces(pieces) == 1 && forall|i: int|
        0 <= i < pieces.len() ==> is_first_text(#[trigger] pieces[i])
}

fn has_one_text(pieces: &Vec<String>) -> (r: bool)
    ensures
        r == holds_one_text(texts(pieces@)),
{
    let ghost all = texts(pieces@);
    let mut count: usize = 0;
    let mut first: bool = true;
    let mut i: usize = 0;
    assert(text_pieces(all.subrange(0, 0)) == 0);
    while i < pieces.len()
        invariant
            i <= pieces@.len(),
            all == texts(pieces@),
            count <= i,
            count == text_pieces(all.subrange(0, i as int)),
            first == (forall|j: int| 0 <= j < i ==> is_first_text(#[trigger] all[j])),
        decreases pieces@.len() - i,
    {
        proof {
            let next = all.subrange(0, i + 1);
            assert(next.drop_last() =~= all.subrange(0, i as int));
            assert(next.last() == pieces@[i as int]@);
            assert(all[i as int] == pieces@[i as int]@);
        }
        if let Some(s) = get(pieces[i].as_str(), "Sequence") {
            count = count + 1;
            let is_a = match get_string(s.as_str(), "id") {
                Some(id) => str_eq(id.as_str(), "A"),
                None => false,
            };
            if !is_a {
                first = false;
            }
        }
        i = i + 1;
    }
    assert(all.subrange(0, all.len() as int) =~= all);
    count == 1 && first
}

/// Whether a post-processor works on one text of any length.
pub open spec fn post_processes(part: Seq<char>, depth: nat) -> bool
    decreases depth,
{
    let kind = kind_of(part);
    if is_absent(part) {
        true
    } else if kind == "Sequence"@ {
        match listed(part, "processors"@) {
            Some(v) => depth > 0 && forall|i: int|
                0 <= i < v.len() ==> post_processes(#[trigger] v[i], (depth - 1) as nat),
            None => false,
        }
    } else if kind == "TemplateProcessing"@ {
        match listed(part, "single"@) {
            Some(pieces) => holds_one_text(pieces),
            None => false,
        }
    } else {
        kind == "ByteLevel"@ || kind == "BertProcessing"@ || kind == "RobertaProcessing"@
    }
}

fn can_post_process(part: &str, depth: usize) -> (r: bool)
    ensures
        r == post_processes(part@, depth as nat),
    decreases depth,
{
    if str_eq(part, "null") {
        return true;
    }
    let kind = get_string_or(part, "type", "");
    let kind = kind.as_str();
    if str_eq(kind, "Sequence") {
        match list(part, "processors") {
            Some(v) => {
                if depth == 0 {
                    return false;
                }
                let ghost all = texts(v@);
                let mut ok: bool = true;
                let mut i: usize = 0;
                while i < v.len()
                    invariant
                        i <= v@.len(),
                        depth > 0,
                        all == texts(v@),
                        ok == (forall|j: int|
                            0 <= j < i ==> post_processes(#[trigger] all[j], (depth - 1) as nat)),
                    decreases v@.len() - i,
                {
                    assert(all[i as int] == v@[i as int]@);
                    if !can_post_process(v[i].as_str(), depth - 1) {
                        ok = false;
                    }
                    i = i + 1;
                }
                assert(all.len() == v@.len());
                ok
            },
            None => false,
        }
    } else if str_eq(kind, "TemplateProcessing") {
        match list(part, "single") {
            Some(pieces) => has_one_text(&pieces),
            None => false,
        }
    } else {
        str_eq(kind, "ByteLevel") || str_eq(kind, "BertProcessing") || str_eq(
            kind,
            "RobertaProcessing",
        )
    }
}

/// Whether a length is absent or can be padded to.
pub open spec fn is_small(part: Seq<char>, key: Seq<char>) -> bool {
    match json_get(part, key) {
        Some(v) => is_absent(v) || match number_at(part, key) {
            Some(n) => n <= MAX_PADDING,
            None => false,
        },
        None => true,
    }
}

fn has_small(part: &str, key: &str) -> (r: bool)
    ensures
        r == is_small(part@, key@),
{
    match get(part, key) {
        Some(v) => str_eq(v.as_str(), "null") || match get_number(part, key) {
            Some(n) => n <= MAX_PADDING,
            None => false,
        },
        None => true,
    }
}

/// Whether texts can be padded: to the longest of a batch or to a length that can be allocated.
pub open spec fn pads(part: Seq<char>) -> bool {
    is_absent(part) || (is_small(part, "pad_to_multiple_of"@) && match json_get(
        part,
        "strategy"@,
    ) {
        Some(strategy) => is_small(strategy, "Fixed"@),
        None => false,
    })
}

fn can_pad(part: &str) -> (r: bool)
    ensures
        r == pads(part@),
{
    str_eq(part, "null") || (has_small(part, "pad_to_multiple_of") && match get(part, "strategy") {
        Some(strategy) => has_small(strategy.as_str(), "Fixed"),
        None => false,
    })
}

/// Whether some added token takes up the white space on one side of it.
pub open spec fn strips(tokens: Seq<Seq<char>>, side: Seq<char>) -> bool {
    exists|i: int| 0 <= i < tokens.len() && is_true(#[trigger] tokens[i], side)
}

fn has_stripping(tokens: &Vec<String>, side: &str) -> (r: bool)
    ensures
        r == strips(texts(tokens@), side@),
{
    let ghost all = texts(tokens@);
    let mut i: usize = 0;
    while i < tokens.len()
        invariant
            i <= tokens@.len(),
            all == texts(tokens@),
            forall|j: int| 0 <= j < i ==> !is_true(#[trigger] all[j], side@),
        decreases tokens@.len() - i,
    {
        assert(all[i as int] == tokens@[i as int]@);
        if get_true(tokens[i].as_str(), side) {
            return true;
        }
        i = i + 1;
    }
    false
}

/// Whether a text is made of visible ASCII characters.
pub open spec fn is_visible(s: Seq<char>) -> bool {
    s.len() > 0 && forall|i: int| 0 <= i < s.len() ==> '!' <= #[trigger] s[i] <= '~'
}

fn all_visible(s: &str) -> (r: bool)
    ensures
        r == is_visible(s@),
{
    let n: usize = s.unicode_len();
    let mut i: usize = 0;
    while i < n
        invariant
            i <= n,
            n == s@.len(),
            forall|j: int| 0 <= j < i ==> '!' <= #[trigger] s@[j] <= '~',
        decreases n - i,
    {
        let c = s.get_char(i);
        if c < '!' || c > '~' {
            return false;
        }
        i = i + 1;
    }
    n > 0
}

/// Whether an added token is made of visible ASCII characters.
pub open spec fn is_plain_token(token: Seq<char>) -> bool {
    match string_at(token, "content"@) {
        Some(content) => is_visible(content),
        None => false,
    }
}

/// Whether added tokens, which have `contents` contents, are all made of visible ASCII
/// characters. With as many contents as tokens no token hides another of a different content.
pub open spec fn are_plain(tokens: Seq<Seq<char>>, contents: Seq<char>) -> bool {
    match json_number(contents) {
        Some(n) => n == tokens.len() && forall|i: int|
            0 <= i < tokens.len() ==> is_plain_token(#[trigger] tokens[i]),
        None => false,
    }
}

fn all_plain(tokens: &Vec<String>, contents: &str) -> (r: bool)
    ensures
        r == are_plain(texts(tokens@), contents@),
{
    let ghost all = texts(tokens@);
    let mut plain: bool = true;
    let mut i: usize = 0;
    while i < tokens.len()
        invariant
            i <= tokens@.len(),
            all == texts(tokens@),
            plain == (forall|j: int| 0 <= j < i ==> is_plain_token(#[trigger] all[j])),
        decreases tokens@.len() - i,
    {
        assert(all[i as int] == tokens@[i as int]@);
        let is_plain = match get_string(tokens[i].as_str(), "content") {
            Some(content) => all_visible(content.as_str()),
            None => false,
        };
        if !is_plain {
            plain = false;
        }
        i = i + 1;
    }
    assert(all.len() == tokens@.len());
    match number(contents) {
        Some(n) => n == tokens.len() as u64 && plain,
        None => false,
    }
}

// ── Tokenizers ───────────────────────────────────────────────────────────────

/// Whether a normalizer works on any text and leaves something of every added token.
pub open spec fn normalizes_with(
    part: Seq<char>,
    tokens: Seq<Seq<char>>,
    contents: Seq<char>,
) -> bool {
    let depth = MAX_NESTING as nat;
    if tokens.len() == 0 {
        normalizes(part, Kept::Nothing, depth)
    } else {
        normalizes(part, Kept::Everything, depth) || are_plain(tokens, contents) && normalizes(
            part,
            Kept::Plain,
            depth,
        )
    }
}

fn can_normalize_with(part: &str, tokens: &Vec<String>, contents: &str) -> (r: bool)
    ensures
        r == normalizes_with(part@, texts(tokens@), contents@),
{
    assert(texts(tokens@).len() == tokens@.len());
    if tokens.len() == 0 {
        can_normalize(part, Kept::Nothing, MAX_NESTING)
    } else {
        can_normalize(part, Kept::Everything, MAX_NESTING) || all_plain(tokens, contents)
            && can_normalize(part, Kept::Plain, MAX_NESTING)
    }
}

/// Whether a tokenizer of these parts encodes any text. Its added tokens may take up white space
/// on one side only, for two of them could else claim the same.
pub open spec fn encodes_any(parts: Option<Seq<char>>) -> bool {
    match parts {
        None => false,
        Some(p) => match json_items(p) {
            None => false,
            Some(v) => v.len() == 6 && match json_items(v[4]) {
                None => false,
                Some(tokens) => {
                    &&& normalizes_with(v[0], tokens, v[5])
                    &&& pre_tokenizes(v[1], MAX_NESTING as nat)
                    &&& post_processes(v[2], MAX_NESTING as nat)
                    &&& pads(v[3])
                    &&& !(strips(tokens, "lstrip"@) && strips(tokens, "rstrip"@))
                },
            },
        },
    }
}

/// Whether a tokenizer of these parts encodes any text.
pub fn can_encode_any(parts: &str) -> (r: bool)
    ensures
        r == encodes_any(Some(parts@)),
{
    let v = match items(parts) {
        Some(v) => v,
        None => {
            return false;
        },
    };
    assert(texts(v@).len() == v@.len());
    if v.len() != 6 {
        return false;
    }
    assert(texts(v@)[0] == v@[0]@ && texts(v@)[1] == v@[1]@ && texts(v@)[2] == v@[2]@);
    assert(texts(v@)[3] == v@[3]@ && texts(v@)[4] == v@[4]@ && texts(v@)[5] == v@[5]@);
    let tokens = match items(v[4].as_str()) {
        Some(t) => t,
        None => {
            return false;
        },
    };
    can_normalize_with(v[0].as_str(), &tokens, v[5].as_str()) && can_pre_tokenize(
        v[1].as_str(),
        MAX_NESTING,
    ) && can_post_process(v[2].as_str(), MAX_NESTING) && can_pad(v[3].as_str()) && !(has_stripping(
        &tokens,
        "lstrip",
    ) && has_stripping(&tokens, "rstrip"))
}

} // verus!
