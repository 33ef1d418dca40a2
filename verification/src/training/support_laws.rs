//! What holds of the tokenizers that are used.
use vstd::prelude::*;

verus! {

use super::support::{encodes_any, kind_of, normalizes, post_processes, pre_tokenizes, Kept};
use crate::json::{json_get, json_items, string_at};
use crate::text::law_part_is_found;

/// A tokenizer without any of these parts encodes any text.
pub proof fn law_bare_tokenizer_is_used(
    p: Seq<char>,
    v: Seq<Seq<char>>,
    tokens: Seq<Seq<char>>,
)
    requires
        json_items(p) == Some(v),
        v.len() == 6,
        v[0] == "null"@,
        v[1] == "null"@,
        v[2] == "null"@,
        v[3] == "null"@,
        json_items(v[4]) == Some(tokens),
        tokens.len() == 0,
    ensures
        encodes_any(Some(p)),
{
}

/// Patterns that refer back to what they matched are not split at, wherever they do so.
pub proof fn law_back_references_are_refused(
    part: Seq<char>,
    pattern: Seq<char>,
    a: Seq<char>,
    b: Seq<char>,
    depth: nat,
)
    requires
        part != "null"@,
        kind_of(part) == "Split"@,
        json_get(part, "pattern"@) == Some(pattern),
        string_at(pattern, "Regex"@) == Some(a + "\\1"@ + b),
    ensures
        !pre_tokenizes(part, depth),
{
    law_part_is_found(a, "\\1"@, b);
    reveal_strlit("Split");
    reveal_strlit("Sequence");
    assert("Split"@.len() != "Sequence"@.len());
}

/// A sequence of parts works exactly if each of its parts does.
pub proof fn law_sequence_needs_every_part(
    part: Seq<char>,
    normalizers: Seq<Seq<char>>,
    pretokenizers: Seq<Seq<char>>,
    processors: Seq<Seq<char>>,
    kept: Kept,
    depth: nat,
)
    requires
        part != "null"@,
        kind_of(part) == "Sequence"@,
    ensures
        lists(part, "normalizers"@, normalizers) ==> (normalizes(part, kept, depth + 1)
            <==> forall|i: int|
            0 <= i < normalizers.len() ==> normalizes(#[trigger] normalizers[i], kept, depth)),
        lists(part, "pretokenizers"@, pretokenizers) ==> (pre_tokenizes(part, depth + 1)
            <==> forall|i: int|
            0 <= i < pretokenizers.len() ==> pre_tokenizes(#[trigger] pretokenizers[i], depth)),
        lists(part, "processors"@, processors) ==> (post_processes(part, depth + 1)
            <==> forall|i: int|
            0 <= i < processors.len() ==> post_processes(#[trigger] processors[i], depth)),
        !normalizes(part, kept, 0),
        !pre_tokenizes(part, 0),
        !post_processes(part, 0),
{
}

/// Whether a part lists these under a key.
pub open spec fn lists(part: Seq<char>, key: Seq<char>, v: Seq<Seq<char>>) -> bool {
    json_get(part, key) is Some && json_items(json_get(part, key)->0) == Some(v)
}

/// A part that does not say what it is, or that has a name longer than any that is known, is
/// refused.
pub proof fn law_unknown_parts_are_refused(part: Seq<char>, kept: Kept, depth: nat)
    requires
        part != "null"@,
        kind_of(part).len() == 0 || kind_of(part).len() > 18,
    ensures
        !normalizes(part, kept, depth),
        !pre_tokenizes(part, depth),
        !post_processes(part, depth),
{
    reveal_strlit("Sequence");
    reveal_strlit("Prepend");
    reveal_strlit("Replace");
    reveal_strlit("BertNormalizer");
    reveal_strlit("Strip");
    reveal_strlit("StripAccents");
    reveal_strlit("Nmt");
    reveal_strlit("NFC");
    reveal_strlit("NFD");
    reveal_strlit("NFKC");
    reveal_strlit("NFKD");
    reveal_strlit("Lowercase");
    reveal_strlit("ByteLevel");
    reveal_strlit("Split");
    reveal_strlit("FixedLength");
    reveal_strlit("Whitespace");
    reveal_strlit("WhitespaceSplit");
    reveal_strlit("Metaspace");
    reveal_strlit("BertPreTokenizer");
    reveal_strlit("Punctuation");
    reveal_strlit("Digits");
    reveal_strlit("CharDelimiterSplit");
    reveal_strlit("UnicodeScripts");
    reveal_strlit("TemplateProcessing");
    reveal_strlit("BertProcessing");
    reveal_strlit("RobertaProcessing");
}

/// Where an added token must not become empty, no normalizer is used that could strip it.
pub proof fn law_stripping_is_refused_where_all_must_be_kept(part: Seq<char>, depth: nat)
    requires
        part != "null"@,
        kind_of(part) == "Strip"@ || kind_of(part) == "StripAccents"@ || kind_of(part)
            == "BertNormalizer"@ || kind_of(part) == "Nmt"@,
    ensures
        !normalizes(part, Kept::Everything, depth),
        normalizes(part, Kept::Nothing, depth),
        normalizes(part, Kept::Plain, depth),
{
    reveal_strlit("Sequence");
    reveal_strlit("Prepend");
    reveal_strlit("Replace");
    reveal_strlit("Strip");
    reveal_strlit("StripAccents");
    reveal_strlit("BertNormalizer");
    reveal_strlit("Nmt");
    assert("Sequence"@.len() == 8 && "Prepend"@.len() == 7 && "Replace"@.len() == 7);
    assert("Strip"@.len() == 5 && "StripAccents"@.len() == 12 && "BertNormalizer"@.len() == 14);
    assert("Nmt"@.len() == 3);
}

} // verus!
