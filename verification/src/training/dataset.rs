//! From examples to batches of tokens.
//!
//! Labels are -100 where nothing is to be learned: on the prompt and on the padding.
use super::support::can_encode_any;
use crate::chatml::chat_prompt;
use crate::text::concat;
use tokenizers::{Tokenizer, TruncationStrategy};
use vstd::prelude::*;

verus! {

use super::support::encodes_any;
use crate::chatml::{chat_text, law_chat_text_holds_both};
use crate::seqs::{keep, lemma_keep_step};
use crate::text::{ends_with, starts_with, texts};
use vstd::string::StringExecFns;

/// An instruction with the response to learn.
#[derive(Debug)]
pub struct TrainingExample {
    pub instruction: String,
    pub response: String,
    pub category: String,
}

/// The system text that defines the persona.
pub const HYVERK_SYSTEM: &'static str =
    "You are Hyverk, an expert software engineer specializing in Rust, TypeScript, distributed systems, and DevOps. You write clean, idiomatic, production-quality code with proper error handling.";

/// The label of what is not learned.
pub const IGNORED: i64 = -100;

/// The conversation up to the answer.
pub open spec fn prompt_text(e: TrainingExample) -> Seq<char> {
    chat_text(HYVERK_SYSTEM@, e.instruction@)
}

/// The whole conversation.
pub open spec fn full_text(e: TrainingExample) -> Seq<char> {
    prompt_text(e) + e.response@ + "<|im_end|>"@
}

/// Formats a training example as a conversation.
pub fn format_chatml(example: &TrainingExample) -> (r: String)
    ensures
        r@ == full_text(*example),
{
    let mut r = format_chatml_prompt_only(example);
    r.append(example.response.as_str());
    r.append("<|im_end|>");
    r
}

/// Formats a training example as a conversation that is open for the answer.
pub fn format_chatml_prompt_only(example: &TrainingExample) -> (r: String)
    ensures
        r@ == prompt_text(*example),
{
    chat_prompt(HYVERK_SYSTEM, example.instruction.as_str())
}

/// Every formatted example begins with its prompt, which is what the labels leave out.
pub proof fn law_prompt_is_a_prefix(e: TrainingExample)
    ensures
        full_text(e).len() >= prompt_text(e).len(),
        full_text(e).subrange(0, prompt_text(e).len() as int) == prompt_text(e),
{
    assert(full_text(e).subrange(0, prompt_text(e).len() as int) =~= prompt_text(e));
}

/// Sequences of tokens with their labels, all of one length.
#[derive(Debug)]
pub struct TokenizedBatch {
    pub input_ids: Vec<Vec<u32>>,
    pub labels: Vec<Vec<i64>>,
}

/// The contents of rows.
pub open spec fn rows<T>(v: Seq<Vec<T>>) -> Seq<Seq<T>> {
    v.map_values(|r: Vec<T>| r@)
}

/// A row of tokens, cut or padded with zeros to the sequence length.
pub open spec fn padded_ids(full: Seq<u32>, len: int) -> Seq<u32> {
    Seq::new(
        len as nat,
        |i: int|
            if i < full.len() {
                full[i]
            } else {
                0
            },
    )
}

/// The labels of a row: the tokens after the prompt, and nothing else.
pub open spec fn padded_labels(prompt_len: int, full: Seq<u32>, len: int) -> Seq<i64> {
    Seq::new(
        len as nat,
        |i: int|
            if prompt_len <= i < full.len() {
                full[i] as i64
            } else {
                IGNORED
            },
    )
}

/// Whether anything is left to learn of a row: its answer starts within the sequence length.
pub open spec fn is_kept(prompt_len: int, full_len: int, len: int) -> bool {
    prompt_len < full_len && prompt_len < len
}

/// The tokens of the first `n` examples of which something is left to learn.
pub open spec fn kept_ids(prompts: Seq<Seq<u32>>, fulls: Seq<Seq<u32>>, len: int, n: int) -> Seq<
    Seq<u32>,
>
    decreases n,
{
    if n <= 0 {
        Seq::empty()
    } else if is_kept(prompts[n - 1].len() as int, fulls[n - 1].len() as int, len) {
        kept_ids(prompts, fulls, len, n - 1).push(padded_ids(fulls[n - 1], len))
    } else {
        kept_ids(prompts, fulls, len, n - 1)
    }
}

/// The labels of the first `n` examples of which something is left to learn.
pub open spec fn kept_labels(
    prompts: Seq<Seq<u32>>,
    fulls: Seq<Seq<u32>>,
    len: int,
    n: int,
) -> Seq<Seq<i64>>
    decreases n,
{
    if n <= 0 {
        Seq::empty()
    } else if is_kept(prompts[n - 1].len() as int, fulls[n - 1].len() as int, len) {
        kept_labels(prompts, fulls, len, n - 1).push(
            padded_labels(prompts[n - 1].len() as int, fulls[n - 1], len),
        )
    } else {
        kept_labels(prompts, fulls, len, n - 1)
    }
}

/// Whether a batch is what these encodings of prompts and conversations make.
pub open spec fn is_batch_of(
    b: TokenizedBatch,
    prompts: Seq<Seq<u32>>,
    fulls: Seq<Seq<u32>>,
    len: int,
) -> bool {
    &&& rows(b.input_ids@) == kept_ids(prompts, fulls, len, prompts.len() as int)
    &&& rows(b.labels@) == kept_labels(prompts, fulls, len, prompts.len() as int)
}

fn pad_ids(full: &Vec<u32>, len: usize) -> (r: Vec<u32>)
    ensures
        r@ == padded_ids(full@, len as int),
{
    let mut r: Vec<u32> = Vec::new();
    let mut i: usize = 0;
    while i < len
        invariant
            i <= len,
            r@ == padded_ids(full@, len as int).subrange(0, i as int),
        decreases len - i,
    {
        let id: u32 = if i < full.len() {
            full[i]
        } else {
            0
        };
        r.push(id);
        i = i + 1;
        assert(padded_ids(full@, len as int).subrange(0, i as int) =~= padded_ids(
            full@,
            len as int,
        ).subrange(0, i - 1).push(id));
    }
    assert(padded_ids(full@, len as int).subrange(0, len as int) =~= padded_ids(full@, len as int));
    r
}

fn pad_labels(prompt_len: usize, full: &Vec<u32>, len: usize) -> (r: Vec<i64>)
    ensures
        r@ == padded_labels(prompt_len as int, full@, len as int),
{
    let ghost want = padded_labels(prompt_len as int, full@, len as int);
    let mut r: Vec<i64> = Vec::new();
    let mut i: usize = 0;
    while i < len
        invariant
            i <= len,
            want == padded_labels(prompt_len as int, full@, len as int),
            r@ == want.subrange(0, i as int),
        decreases len - i,
    {
        let label: i64 = if prompt_len <= i && i < full.len() {
            full[i] as i64
        } else {
            IGNORED
        };
        r.push(label);
        i = i + 1;
        assert(want.subrange(0, i as int) =~= want.subrange(0, i - 1).push(label));
    }
    assert(want.subrange(0, len as int) =~= want);
    r
}

/// The batch that encodings of prompts and conversations make.
pub fn build_batch(
    prompts: &Vec<Vec<u32>>,
    fulls: &Vec<Vec<u32>>,
    max_seq_len: usize,
) -> (b: TokenizedBatch)
    requires
        prompts@.len() == fulls@.len(),
    ensures
        is_batch_of(b, rows(prompts@), rows(fulls@), max_seq_len as int),
{
    let ghost p = rows(prompts@);
    let ghost f = rows(fulls@);
    let ghost len = max_seq_len as int;
    let mut input_ids: Vec<Vec<u32>> = Vec::new();
    let mut labels: Vec<Vec<i64>> = Vec::new();
    let mut i: usize = 0;
    assert(rows(input_ids@) =~= Seq::<Seq<u32>>::empty());
    assert(rows(labels@) =~= Seq::<Seq<i64>>::empty());
    while i < prompts.len()
        invariant
            i <= prompts@.len(),
            prompts@.len() == fulls@.len(),
            p == rows(prompts@),
            f == rows(fulls@),
            len == max_seq_len,
            rows(input_ids@) == kept_ids(p, f, len, i as int),
            rows(labels@) == kept_labels(p, f, len, i as int),
        decreases prompts@.len() - i,
    {
        assert(p[i as int] == prompts@[i as int]@ && f[i as int] == fulls@[i as int]@);
        let prompt_len: usize = prompts[i].len();
        if prompt_len < fulls[i].len() && prompt_len < max_seq_len {
            let ghost ids_before = input_ids@;
            let ghost labels_before = labels@;
            input_ids.push(pad_ids(&fulls[i], max_seq_len));
            labels.push(pad_labels(prompt_len, &fulls[i], max_seq_len));
            proof {
                assert(rows(input_ids@) =~= rows(ids_before).push(padded_ids(f[i as int], len)));
                assert(rows(labels@) =~= rows(labels_before).push(
                    padded_labels(p[i as int].len() as int, f[i as int], len),
                ));
            }
        }
        i = i + 1;
    }
    TokenizedBatch { input_ids, labels }
}

/// `tokenizers::Tokenizer`: a tokenizer as it was loaded. Nothing is known of its parts.
#[verifier::external_type_specification]
#[verifier::external_body]
pub struct ExTokenizer(tokenizers::Tokenizer);

/// Whether a tokenizer that matches its added tokens as its normalizer leaves them may give these
/// ids and attention masks for texts, or nothing at all where it fails. With dropout, which draws
/// merges at random, it may give different ids for the same texts.
pub uninterp spec fn may_encode(
    tokenizer: Tokenizer,
    input: Seq<Seq<char>>,
    encoded: Option<(Seq<Seq<u32>>, Seq<Seq<u32>>)>,
) -> bool;

/// Whether a tokenizer may give these ids for texts.
pub open spec fn may_give(tokenizer: Tokenizer, input: Seq<Seq<char>>, ids: Seq<Seq<u32>>) -> bool {
    exists|masks: Seq<Seq<u32>>| #[trigger] may_encode(tokenizer, input, Some((ids, masks)))
}

/// The length to which a tokenizer cuts texts, the overlap of the pieces, and whether only a
/// second text is cut.
pub uninterp spec fn truncation_of(tokenizer: Tokenizer) -> Option<(usize, usize, bool)>;

/// `tokenizers::Tokenizer::get_truncation`: the maximal length, the stride, and whether the
/// strategy is to cut only a second text, where texts are cut at all.
#[verifier::external_body]
fn truncation(tokenizer: &Tokenizer) -> (r: Option<(usize, usize, bool)>)
    ensures
        r == truncation_of(*tokenizer),
{
    tokenizer.get_truncation().map(
        |t| (t.max_length, t.stride, matches!(t.strategy, TruncationStrategy::OnlySecond)),
    )
}

/// Whether a tokenizer can cut a text that is too long: to nothing, or into pieces that overlap
/// by less than their length. Where only a second text would be cut, it says that there is none.
pub open spec fn can_cut(tokenizer: Tokenizer) -> bool {
    match truncation_of(tokenizer) {
        None => true,
        Some((max_length, stride, only_second)) => max_length == 0 || stride < max_length
            || only_second,
    }
}

/// Not being padding, in an attention mask.
pub open spec fn is_attended() -> spec_fn(u32) -> bool {
    |m: u32| m != 0
}

/// Whether no encoding, without its padding, exceeds the length to which a tokenizer cuts texts.
pub open spec fn fits(tokenizer: Tokenizer, masks: Seq<Seq<u32>>) -> bool {
    match truncation_of(tokenizer) {
        None => true,
        Some((max_length, _, _)) => forall|i: int|
            0 <= i < masks.len() ==> keep(#[trigger] masks[i], is_attended()).len() <= max_length,
    }
}

/// The parts of a tokenizer as a JSON array: normalizer, pre-tokenizer, post-processor, padding,
/// added tokens and the number of their contents.
pub uninterp spec fn parts_of(tokenizer: Tokenizer) -> Option<Seq<char>>;

/// `serde_json::to_string` of what `tokenizers::Tokenizer` hands out of its parts: the normalizer,
/// the pre-tokenizer, the post-processor, the padding, the added tokens by id and the number of
/// their contents, in this order. There is no text where one of them cannot be written as JSON.
#[verifier::external_body]
fn parts(tokenizer: &Tokenizer) -> (r: Option<String>)
    ensures
        match r {
            Some(p) => parts_of(*tokenizer) == Some(p@),
            None => parts_of(*tokenizer) is None,
        },
{
    serde_json::to_string(
        &(
            tokenizer.get_normalizer(),
            tokenizer.get_pre_tokenizer(),
            tokenizer.get_post_processor(),
            tokenizer.get_padding(),
            tokenizer.get_added_vocabulary(),
            tokenizer.get_added_vocabulary().len(),
        ),
    ).ok()
}

/// A tokenizer without its truncation.
pub uninterp spec fn untruncated_of(tokenizer: Tokenizer) -> Tokenizer;

/// `tokenizers::Tokenizer::with_truncation` on a copy, to cut no text. The parts stay, and what
/// the copy gives or refuses, the tokenizer itself may give or refuse, where its parts encode any
/// text and no encoding is longer than it would cut: those parts never make an encoding shorter.
#[verifier::external_body]
fn untruncated(tokenizer: &Tokenizer) -> (r: Tokenizer)
    ensures
        r == untruncated_of(*tokenizer),
        truncation_of(r) is None,
        parts_of(r) == parts_of(*tokenizer),
        forall|input: Seq<Seq<char>>, ids: Seq<Seq<u32>>, masks: Seq<Seq<u32>>| #[trigger]
            may_encode(r, input, Some((ids, masks))) && fits(*tokenizer, masks) && encodes_any(
                parts_of(*tokenizer),
            ) ==> may_encode(*tokenizer, input, Some((ids, masks))),
        forall|input: Seq<Seq<char>>| #[trigger]
            may_encode(r, input, None) && encodes_any(parts_of(*tokenizer)) ==> may_encode(
                *tokenizer,
                input,
                None,
            ),
{
    let mut copy = tokenizer.clone();
    let _ = copy.with_truncation(None);
    copy
}

/// `tokenizers::Tokenizer::encode_batch` without special tokens: token ids and attention masks
/// that the tokenizer may give, one of each for each text, or the error in words. It is called on
/// a copy, on which `add_tokens` with nothing to add makes the patterns of the added tokens anew:
/// where a normalizer was set after the tokens, they are still those of the normalizer before it.
/// Tokenizers that may break off on a text are left out: those with such a part, and those whose
/// pieces would overlap by their whole length.
#[verifier::external_body]
fn encode_batch(tokenizer: &Tokenizer, input: Vec<String>) -> (r: Result<
    (Vec<Vec<u32>>, Vec<Vec<u32>>),
    String,
>)
    requires
        can_cut(*tokenizer),
        encodes_any(parts_of(*tokenizer)),
    ensures
        match r {
            Ok((ids, masks)) => ids@.len() == input@.len() && masks@.len() == input@.len()
                && may_encode(*tokenizer, texts(input@), Some((rows(ids@), rows(masks@)))),
            Err(_) => may_encode(*tokenizer, texts(input@), None),
        },
{
    let mut copy = tokenizer.clone();
    copy.add_tokens(&[]);
    let encodings = copy.encode_batch(input, false).map_err(|e| e.to_string())?;
    let ids = encodings.iter().map(|e| e.get_ids().to_vec()).collect();
    let masks = encodings.iter().map(|e| e.get_attention_mask().to_vec()).collect();
    Ok((ids, masks))
}

/// Whether a tokenizer that cannot cut may give an encoding that it would have to cut.
pub open spec fn must_cut(tokenizer: Tokenizer, input: Seq<Seq<char>>) -> bool {
    !can_cut(tokenizer) && exists|ids: Seq<Seq<u32>>, masks: Seq<Seq<u32>>| #[trigger]
        may_encode(untruncated_of(tokenizer), input, Some((ids, masks))) && !fits(tokenizer, masks)
}

/// How many entries of an attention mask are not padding.
fn attended(mask: &Vec<u32>) -> (n: usize)
    ensures
        n == keep(mask@, is_attended()).len(),
{
    let mut n: usize = 0;
    let mut i: usize = 0;
    assert(keep(mask@.subrange(0, 0), is_attended()).len() == 0);
    while i < mask.len()
        invariant
            i <= mask@.len(),
            n <= i,
            n == keep(mask@.subrange(0, i as int), is_attended()).len(),
        decreases mask@.len() - i,
    {
        proof {
            lemma_keep_step(mask@, is_attended(), i as int);
        }
        if mask[i] != 0 {
            n = n + 1;
        }
        i = i + 1;
    }
    assert(mask@.subrange(0, mask@.len() as int) =~= mask@);
    n
}

/// Encodes texts; nothing comes of it where one is too long for a tokenizer that cannot cut.
fn encode_texts(tokenizer: &Tokenizer, input: Vec<String>) -> (r: Result<
    Option<Vec<Vec<u32>>>,
    String,
>)
    requires
        encodes_any(parts_of(*tokenizer)),
    ensures
        match r {
            Ok(Some(ids)) => ids@.len() == input@.len() && may_give(
                *tokenizer,
                texts(input@),
                rows(ids@),
            ),
            Ok(None) => must_cut(*tokenizer, texts(input@)),
            Err(_) => may_encode(*tokenizer, texts(input@), None),
        },
{
    let max_length: usize = match truncation(tokenizer) {
        Some((max_length, stride, only_second)) => {
            if max_length == 0 || stride < max_length || only_second {
                return match encode_batch(tokenizer, input) {
                    Ok((ids, _)) => Ok(Some(ids)),
                    Err(e) => Err(e),
                };
            }
            max_length
        },
        None => {
            return match encode_batch(tokenizer, input) {
                Ok((ids, _)) => Ok(Some(ids)),
                Err(e) => Err(e),
            };
        },
    };
    let ghost given = texts(input@);
    let copy = untruncated(tokenizer);
    let (ids, masks) = match encode_batch(&copy, input) {
        Ok(encoded) => encoded,
        Err(e) => {
            return Err(e);
        },
    };
    let ghost all = rows(masks@);
    let mut fit: bool = true;
    let mut i: usize = 0;
    while i < masks.len()
        invariant
            i <= masks@.len(),
            all == rows(masks@),
            fit == (forall|k: int|
                0 <= k < i ==> keep(#[trigger] all[k], is_attended()).len() <= max_length),
        decreases masks@.len() - i,
    {
        assert(all[i as int] == masks@[i as int]@);
        if attended(&masks[i]) > max_length {
            fit = false;
        }
        i = i + 1;
    }
    proof {
        assert(all.len() == masks@.len());
        assert(fit == fits(*tokenizer, all));
        assert(may_encode(copy, given, Some((rows(ids@), all))));
    }
    if fit {
        Ok(Some(ids))
    } else {
        Ok(None)
    }
}

/// The prompts of examples.
pub open spec fn prompt_texts(examples: Seq<TrainingExample>) -> Seq<Seq<char>> {
    Seq::new(examples.len(), |i: int| prompt_text(examples[i]))
}

/// The conversations of examples.
pub open spec fn full_texts(examples: Seq<TrainingExample>) -> Seq<Seq<char>> {
    Seq::new(examples.len(), |i: int| full_text(examples[i]))
}

/// Whether a batch is what encodings of the prompts and the conversations make.
pub open spec fn is_encoded(
    b: TokenizedBatch,
    tokenizer: Tokenizer,
    examples: Seq<TrainingExample>,
    len: int,
) -> bool {
    exists|p: Seq<Seq<u32>>, f: Seq<Seq<u32>>|
        may_give(tokenizer, prompt_texts(examples), p) && may_give(
            tokenizer,
            full_texts(examples),
            f,
        ) && #[trigger] is_batch_of(b, p, f, len)
}

/// Why examples could not be tokenized.
#[derive(Debug)]
pub enum TokenizeError {
    /// The tokenizer has a part on which encoding may break off.
    Unsupported,
    /// A text is longer than the tokenizer allows, and the pieces that it would cut overlap by
    /// their whole length.
    Stride,
    /// The tokenizer refused the prompts.
    Prompts(String),
    /// The tokenizer refused the whole conversations.
    Conversations(String),
}

impl TokenizeError {
    /// The error in words.
    pub open spec fn words(self) -> Seq<char> {
        match self {
            TokenizeError::Unsupported => "tokenizer has a part that is not supported"@,
            TokenizeError::Stride => "tokenizer stride is not below its maximal length"@,
            TokenizeError::Prompts(e) => "batch tokenizer error (prompts): "@ + e@,
            TokenizeError::Conversations(e) => "batch tokenizer error (fulls): "@ + e@,
        }
    }

    /// The error in words.
    pub fn message(&self) -> (r: String)
        ensures
            r@ == self.words(),
    {
        match self {
            TokenizeError::Unsupported => "tokenizer has a part that is not supported".to_owned(),
            TokenizeError::Stride => "tokenizer stride is not below its maximal length".to_owned(),
            TokenizeError::Prompts(e) => concat("batch tokenizer error (prompts): ", e.as_str()),
            TokenizeError::Conversations(e) => concat(
                "batch tokenizer error (fulls): ",
                e.as_str(),
            ),
        }
    }
}

/// Tokenizes examples. Prompt tokens are masked, sequences are cut and padded to one length,
/// and an example whose answer is cut off entirely is left out.
pub fn tokenize_examples(
    examples: &Vec<TrainingExample>,
    tokenizer: &Tokenizer,
    max_seq_len: usize,
) -> (r: Result<TokenizedBatch, TokenizeError>)
    ensures
        r == Err::<TokenizedBatch, TokenizeError>(TokenizeError::Unsupported) <==> !encodes_any(
            parts_of(*tokenizer),
        ),
        match r {
            Ok(b) => is_encoded(b, *tokenizer, examples@, max_seq_len as int),
            Err(TokenizeError::Unsupported) => !encodes_any(parts_of(*tokenizer)),
            Err(TokenizeError::Stride) => must_cut(*tokenizer, prompt_texts(examples@))
                || must_cut(*tokenizer, full_texts(examples@)),
            Err(TokenizeError::Prompts(_)) => may_encode(
                *tokenizer,
                prompt_texts(examples@),
                None,
            ),
            Err(TokenizeError::Conversations(_)) => may_encode(
                *tokenizer,
                full_texts(examples@),
                None,
            ),
        },
{
    let supported = match parts(tokenizer) {
        Some(p) => can_encode_any(p.as_str()),
        None => false,
    };
    if !supported {
        return Err(TokenizeError::Unsupported);
    }
    let mut prompts: Vec<String> = Vec::new();
    let mut fulls: Vec<String> = Vec::new();
    let mut i: usize = 0;
    while i < examples.len()
        invariant
            i <= examples@.len(),
            prompts@.len() == i,
            fulls@.len() == i,
            forall|k: int| 0 <= k < i ==> (#[trigger] prompts@[k])@ == prompt_text(examples@[k]),
            forall|k: int| 0 <= k < i ==> (#[trigger] fulls@[k])@ == full_text(examples@[k]),
        decreases examples@.len() - i,
    {
        prompts.push(format_chatml_prompt_only(&examples[i]));
        fulls.push(format_chatml(&examples[i]));
        i = i + 1;
    }
    assert(texts(prompts@) =~= prompt_texts(examples@));
    assert(texts(fulls@) =~= full_texts(examples@));
    let prompt_ids = match encode_texts(tokenizer, prompts) {
        Ok(Some(v)) => v,
        Ok(None) => {
            return Err(TokenizeError::Stride);
        },
        Err(e) => {
            return Err(TokenizeError::Prompts(e));
        },
    };
    let full_ids = match encode_texts(tokenizer, fulls) {
        Ok(Some(v)) => v,
        Ok(None) => {
            return Err(TokenizeError::Stride);
        },
        Err(e) => {
            return Err(TokenizeError::Conversations(e));
        },
    };
    let b = build_batch(&prompt_ids, &full_ids, max_seq_len);
    let ghost p = rows(prompt_ids@);
    let ghost f = rows(full_ids@);
    assert(is_batch_of(b, p, f, max_seq_len as int));
    Ok(b)
}

// ── Mini-batches ─────────────────────────────────────────────────────────────

/// Number of mini-batches.
pub open spec fn batch_count(n: int, size: int) -> int {
    if n <= 0 {
        0
    } else {
        (n - 1) / size + 1
    }
}

/// Where mini-batch `k` ends.
pub open spec fn batch_end(n: int, size: int, k: int) -> int {
    if (k + 1) * size <= n {
        (k + 1) * size
    } else {
        n
    }
}

/// Mini-batch `k` of rows.
pub open spec fn batch_rows<T>(all: Seq<Seq<T>>, n: int, size: int, k: int) -> Seq<Seq<T>> {
    all.subrange(k * size, batch_end(n, size, k))
}

fn copy_ids(v: &Vec<Vec<u32>>, from: usize, to: usize) -> (r: Vec<Vec<u32>>)
    requires
        from <= to <= v@.len(),
    ensures
        rows(r@) == rows(v@).subrange(from as int, to as int),
{
    let mut r: Vec<Vec<u32>> = Vec::new();
    let mut i: usize = from;
    assert(rows(r@) =~= rows(v@).subrange(from as int, from as int));
    while i < to
        invariant
            from <= i <= to <= v@.len(),
            rows(r@) == rows(v@).subrange(from as int, i as int),
        decreases to - i,
    {
        let row = pad_ids(&v[i], v[i].len());
        assert(row@ =~= v@[i as int]@);
        let ghost before = r@;
        r.push(row);
        i = i + 1;
        proof {
            assert(rows(r@) =~= rows(before).push(v@[i - 1]@));
            assert(rows(v@).subrange(from as int, i as int) =~= rows(v@).subrange(
                from as int,
                i - 1,
            ).push(v@[i - 1]@));
        }
    }
    r
}

fn copy_labels(v: &Vec<Vec<i64>>, from: usize, to: usize) -> (r: Vec<Vec<i64>>)
    requires
        from <= to <= v@.len(),
    ensures
        rows(r@) == rows(v@).subrange(from as int, to as int),
{
    let mut r: Vec<Vec<i64>> = Vec::new();
    let mut i: usize = from;
    assert(rows(r@) =~= rows(v@).subrange(from as int, from as int));
    while i < to
        invariant
            from <= i <= to <= v@.len(),
            rows(r@) == rows(v@).subrange(from as int, i as int),
        decreases to - i,
    {
        let src = &v[i];
        let mut row: Vec<i64> = Vec::new();
        let mut j: usize = 0;
        while j < src.len()
            invariant
                j <= src@.len(),
                row@ == src@.subrange(0, j as int),
            decreases src@.len() - j,
        {
            row.push(src[j]);
            j = j + 1;
            assert(src@.subrange(0, j as int) =~= src@.subrange(0, j - 1).push(src@[j - 1]));
        }
        assert(src@.subrange(0, src@.len() as int) =~= src@);
        let ghost before = r@;
        r.push(row);
        i = i + 1;
        proof {
            assert(rows(r@) =~= rows(before).push(v@[i - 1]@));
            assert(rows(v@).subrange(from as int, i as int) =~= rows(v@).subrange(
                from as int,
                i - 1,
            ).push(v@[i - 1]@));
        }
    }
    r
}

/// Splits sequences into mini-batches of `batch_size`; the last one may be smaller.
pub fn make_batches(batch: &TokenizedBatch, batch_size: usize) -> (r: Vec<
    (Vec<Vec<u32>>, Vec<Vec<i64>>),
>)
    requires
        batch_size > 0,
        batch.input_ids@.len() <= batch.labels@.len(),
    ensures
        ({
            let n = batch.input_ids@.len() as int;
            let size = batch_size as int;
            &&& r@.len() == batch_count(n, size)
            &&& forall|k: int|
                0 <= k < r@.len() ==> rows((#[trigger] r@[k]).0@) == batch_rows(
                    rows(batch.input_ids@),
                    n,
                    size,
                    k,
                ) && rows(r@[k].1@) == batch_rows(rows(batch.labels@), n, size, k)
        }),
{
    let n: usize = batch.input_ids.len();
    let ghost size = batch_size as int;
    let mut r: Vec<(Vec<Vec<u32>>, Vec<Vec<i64>>)> = Vec::new();
    let mut start: usize = 0;
    proof {
        lemma_batch_count(n as int, size, 0);
    }
    while start < n
        invariant
            batch_size > 0,
            size == batch_size,
            n == batch.input_ids@.len(),
            n <= batch.labels@.len(),
            start <= n,
            start < n ==> start == r@.len() * size,
            start == n ==> r@.len() == batch_count(n as int, size),
            forall|k: int|
                0 <= k < r@.len() ==> rows((#[trigger] r@[k]).0@) == batch_rows(
                    rows(batch.input_ids@),
                    n as int,
                    size,
                    k,
                ) && rows(r@[k].1@) == batch_rows(rows(batch.labels@), n as int, size, k),
        decreases n - start,
    {
        let ghost k = r@.len() as int;
        proof {
            assert((k + 1) * size == k * size + size) by (nonlinear_arith);
            lemma_batch_count(n as int, size, k);
        }
        let end: usize = if batch_size <= n - start {
            start + batch_size
        } else {
            n
        };
        let ids = copy_ids(&batch.input_ids, start, end);
        let labels = copy_labels(&batch.labels, start, end);
        r.push((ids, labels));
        start = end;
    }
    r
}

proof fn lemma_batch_count(n: int, size: int, k: int)
    requires
        size > 0,
        0 <= k,
        0 <= n,
    ensures
        n == 0 ==> batch_count(n, size) == 0,
        k * size < n && n <= (k + 1) * size ==> batch_count(n, size) == k + 1,
{
    if n > 0 && k * size < n && n <= (k + 1) * size {
        assert((k + 1) * size == k * size + size) by (nonlinear_arith);
        vstd::arithmetic::div_mod::lemma_fundamental_div_mod_converse(
            n - 1,
            size,
            k,
            n - 1 - k * size,
        );
    }
}

proof fn lemma_batches_concat<T>(all: Seq<Seq<T>>, n: int, size: int, k: int)
    requires
        size > 0,
        0 <= n <= all.len(),
        0 <= k <= batch_count(n, size),
    ensures
        joined_batches(all, n, size, k) == all.subrange(
            0,
            if k * size <= n {
                k * size
            } else {
                n
            },
        ),
        k < batch_count(n, size) ==> 0 <= k * size < n,
    decreases k,
{
    assert(0 <= k * size) by (nonlinear_arith)
        requires
            0 <= k,
            size > 0,
    ;
    if k < batch_count(n, size) {
        vstd::arithmetic::div_mod::lemma_fundamental_div_mod(n - 1, size);
        assert(k * size <= size * ((n - 1) / size)) by (nonlinear_arith)
            requires
                k <= (n - 1) / size,
                size > 0,
        ;
    }
    if k > 0 {
        lemma_batches_concat(all, n, size, k - 1);
        assert(k * size == (k - 1) * size + size) by (nonlinear_arith);
        assert(joined_batches(all, n, size, k) =~= all.subrange(
            0,
            if k * size <= n {
                k * size
            } else {
                n
            },
        ));
    } else {
        assert(0 * size == 0) by (nonlinear_arith);
        assert(joined_batches(all, n, size, 0) =~= all.subrange(0, 0));
    }
}

/// The first `k` mini-batches in a row.
pub open spec fn joined_batches<T>(all: Seq<Seq<T>>, n: int, size: int, k: int) -> Seq<Seq<T>>
    decreases k,
{
    if k <= 0 {
        Seq::empty()
    } else {
        joined_batches(all, n, size, k - 1) + batch_rows(all, n, size, k - 1)
    }
}

/// The mini-batches in a row are the sequences: none is lost, none occurs twice, and their
/// order is kept.
pub proof fn law_batches_partition_the_sequences<T>(all: Seq<Seq<T>>, size: int)
    requires
        size > 0,
    ensures
        joined_batches(
            all,
            all.len() as int,
            size,
            batch_count(all.len() as int, size),
        ) == all,
{
    let n = all.len() as int;
    let k = batch_count(n, size);
    if n > 0 {
        vstd::arithmetic::div_mod::lemma_fundamental_div_mod(n - 1, size);
        assert(k * size >= n) by (nonlinear_arith)
            requires
                k == (n - 1) / size + 1,
                n - 1 == size * ((n - 1) / size) + (n - 1) % size,
                (n - 1) % size < size,
        ;
        assert(k >= 0) by {
            vstd::arithmetic::div_mod::lemma_div_pos_is_pos(n - 1, size);
        }
    }
    lemma_batches_concat(all, n, size, k);
    assert(all.subrange(0, n) =~= all);
    if n == 0 {
        assert(0 * size == 0) by (nonlinear_arith);
    }
}

/// Nothing is learned from prompts and padding, and every kept row teaches something.
pub proof fn law_only_answers_are_learned(prompt_len: int, full: Seq<u32>, len: int)
    requires
        0 <= prompt_len,
        0 <= len,
    ensures
        forall|i: int|
            0 <= i < len && (i < prompt_len || i >= full.len()) ==> #[trigger] padded_labels(
                prompt_len,
                full,
                len,
            )[i] == IGNORED,
        is_kept(prompt_len, full.len() as int, len) == (exists|i: int|
            0 <= i < len && #[trigger] padded_labels(prompt_len, full, len)[i] != IGNORED),
{
    let l = padded_labels(prompt_len, full, len);
    if is_kept(prompt_len, full.len() as int, len) {
        assert(l[prompt_len] == full[prompt_len] as i64);
        assert(l[prompt_len] >= 0);
    }
}

/// How many of the first `n` examples have an answer that begins within the sequence length.
pub open spec fn answered_before(
    prompts: Seq<Seq<u32>>,
    fulls: Seq<Seq<u32>>,
    len: int,
    n: int,
) -> nat
    decreases n,
{
    if n <= 0 {
        0
    } else {
        answered_before(prompts, fulls, len, n - 1) + if prompts[n - 1].len() < fulls[n - 1].len()
            && prompts[n - 1].len() < len {
            1nat
        } else {
            0
        }
    }
}

proof fn lemma_kept_row(
    prompts: Seq<Seq<u32>>,
    fulls: Seq<Seq<u32>>,
    len: int,
    n: int,
    i: int,
)
    requires
        0 <= i < n,
        prompts[i].len() < fulls[i].len(),
        prompts[i].len() < len,
    ensures
        kept_ids(prompts, fulls, len, n).len() == answered_before(prompts, fulls, len, n),
        kept_labels(prompts, fulls, len, n).len() == answered_before(prompts, fulls, len, n),
        ({
            let row = answered_before(prompts, fulls, len, i) as int;
            &&& row < answered_before(prompts, fulls, len, n)
            &&& kept_ids(prompts, fulls, len, n)[row] == padded_ids(fulls[i], len)
            &&& kept_labels(prompts, fulls, len, n)[row] == padded_labels(
                prompts[i].len() as int,
                fulls[i],
                len,
            )
        }),
    decreases n,
{
    lemma_kept_count(prompts, fulls, len, n);
    lemma_kept_count(prompts, fulls, len, n - 1);
    if i < n - 1 {
        lemma_kept_row(prompts, fulls, len, n - 1, i);
    }
}

proof fn lemma_kept_count(prompts: Seq<Seq<u32>>, fulls: Seq<Seq<u32>>, len: int, n: int)
    ensures
        kept_ids(prompts, fulls, len, n).len() == answered_before(prompts, fulls, len, n),
        kept_labels(prompts, fulls, len, n).len() == answered_before(prompts, fulls, len, n),
    decreases n,
{
    if n > 0 {
        lemma_kept_count(prompts, fulls, len, n - 1);
    }
}

/// A batch has one row for each example whose answer begins within the sequence length, in order.
/// The row holds the conversation's own tokens, as far as they fit, and zeros after them; its
/// labels are the tokens of the answer, and `-100` everywhere else.
pub proof fn law_batch_holds_every_answer(
    b: TokenizedBatch,
    prompts: Seq<Seq<u32>>,
    fulls: Seq<Seq<u32>>,
    len: int,
    i: int,
)
    requires
        is_batch_of(b, prompts, fulls, len),
        prompts.len() == fulls.len(),
        0 <= i < prompts.len(),
        0 <= len,
    ensures
        b.input_ids@.len() == answered_before(prompts, fulls, len, prompts.len() as int),
        b.labels@.len() == b.input_ids@.len(),
        prompts[i].len() < fulls[i].len() && prompts[i].len() < len ==> {
            let row = answered_before(prompts, fulls, len, i) as int;
            let ids = b.input_ids@[row]@;
            let labels = b.labels@[row]@;
            &&& row < b.input_ids@.len()
            &&& ids.len() == len
            &&& labels.len() == len
            &&& forall|j: int|
                0 <= j < len && j < fulls[i].len() ==> #[trigger] ids[j] == fulls[i][j]
            &&& forall|j: int| fulls[i].len() <= j < len ==> #[trigger] ids[j] == 0
            &&& forall|j: int|
                prompts[i].len() <= j < len && j < fulls[i].len() ==> #[trigger] labels[j]
                    == fulls[i][j]
            &&& forall|j: int|
                0 <= j < len && (j < prompts[i].len() || fulls[i].len() <= j)
                    ==> #[trigger] labels[j] == -100
        },
{
    let n = prompts.len() as int;
    lemma_kept_count(prompts, fulls, len, n);
    assert(rows(b.input_ids@).len() == b.input_ids@.len());
    assert(rows(b.labels@).len() == b.labels@.len());
    if prompts[i].len() < fulls[i].len() && prompts[i].len() < len {
        lemma_kept_row(prompts, fulls, len, n, i);
        let row = answered_before(prompts, fulls, len, i) as int;
        assert(rows(b.input_ids@)[row] == b.input_ids@[row]@);
        assert(rows(b.labels@)[row] == b.labels@[row]@);
    }
}

/// A mini-batch is not empty and has no more than `size` sequences; only the last may have fewer.
pub proof fn law_mini_batches_are_full(n: int, size: int, k: int)
    requires
        size > 0,
        0 <= k < batch_count(n, size),
    ensures
        k * size < batch_end(n, size, k) <= k * size + size,
        k + 1 < batch_count(n, size) ==> batch_end(n, size, k) == k * size + size,
        k + 1 == batch_count(n, size) ==> batch_end(n, size, k) == n,
{
    vstd::arithmetic::div_mod::lemma_fundamental_div_mod(n - 1, size);
    vstd::arithmetic::div_mod::lemma_mod_bound(n - 1, size);
    let q = (n - 1) / size;
    assert((k + 1) * size == k * size + size) by (nonlinear_arith);
    assert(q * size == size * q) by (nonlinear_arith);
    assert(k * size <= q * size) by (nonlinear_arith)
        requires
            k <= q,
            size > 0,
    ;
    if k + 1 <= q {
        assert((k + 1) * size <= q * size) by (nonlinear_arith)
            requires
                k + 1 <= q,
                size > 0,
        ;
    } else {
        assert(k == q);
    }
}

/// A conversation holds the instruction in the place of the question, and what follows the prompt
/// is the response and the mark of its end.
pub proof fn law_conversation_asks_and_answers(e: TrainingExample)
    ensures
        full_text(e).subrange(prompt_text(e).len() as int, full_text(e).len() as int)
            == e.response@ + "<|im_end|>"@,
        ends_with(
            prompt_text(e),
            "<|im_start|>user\n"@ + e.instruction@ + "<|im_end|>\n<|im_start|>assistant\n"@,
        ),
        starts_with(prompt_text(e), "<|im_start|>system\n"@ + HYVERK_SYSTEM@ + "<|im_end|>\n"@),
{
    law_chat_text_holds_both(HYVERK_SYSTEM@, e.instruction@);
    assert(full_text(e).subrange(prompt_text(e).len() as int, full_text(e).len() as int)
        =~= e.response@ + "<|im_end|>"@);
}

/// A batch is made of the encodings of all examples: each one's conversation as far as its
/// question, and the same with its answer behind it.
pub proof fn law_batch_is_of_the_examples(
    b: TokenizedBatch,
    tokenizer: Tokenizer,
    examples: Seq<TrainingExample>,
    len: int,
    i: int,
) -> (r: (Seq<Seq<char>>, Seq<Seq<u32>>, Seq<Seq<char>>, Seq<Seq<u32>>))
    requires
        is_encoded(b, tokenizer, examples, len),
        0 <= i < examples.len(),
    ensures
        ({
            let (asked, prompts, answered, fulls) = r;
            &&& may_give(tokenizer, asked, prompts)
            &&& may_give(tokenizer, answered, fulls)
            &&& is_batch_of(b, prompts, fulls, len)
            &&& asked.len() == examples.len()
            &&& answered.len() == examples.len()
            &&& ends_with(
                asked[i],
                "<|im_start|>user\n"@ + examples[i].instruction@
                    + "<|im_end|>\n<|im_start|>assistant\n"@,
            )
            &&& answered[i] == asked[i] + examples[i].response@ + "<|im_end|>"@
        }),
{
    let asked = prompt_texts(examples);
    let answered = full_texts(examples);
    let (p, f) = choose|p: Seq<Seq<u32>>, f: Seq<Seq<u32>>|
        may_give(tokenizer, asked, p) && may_give(tokenizer, answered, f) && #[trigger] is_batch_of(
            b,
            p,
            f,
            len,
        );
    law_conversation_asks_and_answers(examples[i]);
    assert(answered[i] =~= asked[i] + examples[i].response@ + "<|im_end|>"@);
    (asked, p, answered, f)
}

} // verus!
