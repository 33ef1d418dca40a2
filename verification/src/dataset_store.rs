//! Which training examples the dataset takes: those that pass a quality filter and whose
//! instruction is new.
use crate::text::{chars_of, has, has_prefix, len_bytes, substring, to_lowercase, trim};
use std::collections::HashSet;
use vstd::prelude::*;

verus! {

use crate::text::{
    byte_len,
    contains,
    law_part_is_found,
    lowercase,
    occurs_at,
    starts_with,
    trimmed,
};
use vstd::std_specs::hash::*;
use vstd::utf8::encode_utf8;

/// A training example. `F` is the number type of the quality score.
#[derive(Debug)]
pub struct DatasetExample<F> {
    pub id: String,
    pub instruction: String,
    pub response: String,
    pub category: String,
    pub provider: String,
    pub model: String,
    pub node_id: String,
    pub refined: bool,
    pub execution_verified: bool,
    pub quality_score: Option<F>,
    pub submitted_at_secs: u64,
}

/// Counts of the stored examples.
#[derive(Debug)]
pub struct DatasetStats {
    pub total_examples: usize,
    pub by_category: Vec<(String, usize)>,
    pub by_provider: Vec<(String, usize)>,
    pub by_node: Vec<(String, usize)>,
    pub execution_verified: usize,
    pub refined: usize,
    pub deduplicated: usize,
}

/// The hashes of the instructions that were taken, and how many examples were refused
/// because theirs was.
#[derive(Debug)]
pub struct DatasetStore {
    seen_hashes: HashSet<u64>,
    deduplicated: usize,
}

/// What is known of a [`DatasetStore`].
pub struct Dedup {
    pub seen: Set<u64>,
    pub deduplicated: nat,
}

impl View for DatasetStore {
    type V = Dedup;

    closed spec fn view(&self) -> Dedup {
        Dedup { seen: self.seen_hashes@, deduplicated: self.deduplicated as nat }
    }
}

// ── Model ────────────────────────────────────────────────────────────────────

/// The FNV-1a hash of bytes.
pub open spec fn fnv1a(bytes: Seq<u8>) -> u64
    decreases bytes.len(),
{
    if bytes.len() == 0 {
        14695981039346656037
    } else {
        (fnv1a(bytes.drop_last()) ^ (bytes.last() as u64)).wrapping_mul(1099511628211)
    }
}

/// The first 200 characters, or all if there are fewer.
pub open spec fn first_200(s: Seq<char>) -> Seq<char> {
    if s.len() <= 200 {
        s
    } else {
        s.subrange(0, 200)
    }
}

/// The hash of a lowercase instruction.
pub open spec fn normalized_hash(lower: Seq<char>) -> u64 {
    fnv1a(encode_utf8(first_200(lower)))
}

/// The hash under which an instruction is remembered.
pub open spec fn hash_of(instruction: Seq<char>) -> u64 {
    normalized_hash(lowercase(trimmed(instruction)))
}

/// Whether a lowercase response starts as a refusal does.
pub open spec fn refuses(lower: Seq<char>) -> bool {
    ||| starts_with(lower, "i cannot"@)
    ||| starts_with(lower, "i'm unable"@)
    ||| starts_with(lower, "i am unable"@)
    ||| starts_with(lower, "as an ai"@)
}

/// Whether instruction and response are long enough, and the response has a code block or
/// is long.
pub open spec fn is_substantial(instruction: Seq<char>, response: Seq<char>) -> bool {
    &&& byte_len(instruction) >= 20
    &&& byte_len(response) >= 30
    &&& contains(response, "```"@) || byte_len(response) > 200
}

/// Whether an example is good enough.
pub open spec fn passes(instruction: Seq<char>, response: Seq<char>) -> bool {
    is_substantial(instruction, response) && !refuses(lowercase(response))
}

impl Dedup {
    /// Whether the example is taken.
    pub open spec fn takes(self, instruction: Seq<char>, response: Seq<char>) -> bool {
        passes(instruction, response) && !self.seen.contains(hash_of(instruction))
    }

    /// What is known after the example was offered.
    pub open spec fn after(self, instruction: Seq<char>, response: Seq<char>) -> Dedup {
        if !passes(instruction, response) {
            self
        } else if self.seen.contains(hash_of(instruction)) {
            Dedup { deduplicated: self.deduplicated + 1, ..self }
        } else {
            Dedup { seen: self.seen.insert(hash_of(instruction)), ..self }
        }
    }

    /// What is known after the first `n` examples were offered in turn.
    pub open spec fn after_all<F>(self, examples: Seq<DatasetExample<F>>, n: int) -> Dedup
        decreases n,
    {
        if n <= 0 {
            self
        } else {
            self.after_all(examples, n - 1).after(
                examples[n - 1].instruction@,
                examples[n - 1].response@,
            )
        }
    }

    /// The examples among the first `n` that are taken when they are offered in turn.
    pub open spec fn taken<F>(self, examples: Seq<DatasetExample<F>>, n: int) -> Seq<
        DatasetExample<F>,
    >
        decreases n,
    {
        if n <= 0 {
            Seq::empty()
        } else if self.after_all(examples, n - 1).takes(
            examples[n - 1].instruction@,
            examples[n - 1].response@,
        ) {
            self.taken(examples, n - 1).push(examples[n - 1])
        } else {
            self.taken(examples, n - 1)
        }
    }
}

// ── Operations ───────────────────────────────────────────────────────────────

/// Whether a lowercase response starts as a refusal does.
pub fn is_refusal(lower: &str) -> (r: bool)
    ensures
        r == refuses(lower@),
{
    has_prefix(lower, "i cannot") || has_prefix(lower, "i'm unable") || has_prefix(
        lower,
        "i am unable",
    ) || has_prefix(lower, "as an ai")
}

/// Whether an example is good enough for the dataset.
pub fn passes_quality_filter<F>(ex: &DatasetExample<F>) -> (r: bool)
    ensures
        r == passes(ex.instruction@, ex.response@),
{
    if len_bytes(ex.instruction.as_str()) < 20 {
        return false;
    }
    if len_bytes(ex.response.as_str()) < 30 {
        return false;
    }
    let has_code = has(ex.response.as_str(), "```");
    let is_long = len_bytes(ex.response.as_str()) > 200;
    if !has_code && !is_long {
        return false;
    }
    let lower = to_lowercase(ex.response.as_str());
    !is_refusal(lower.as_str())
}

/// The hash of an instruction that was trimmed and made lowercase.
pub fn hash_normalized(lower: &str) -> (h: u64)
    ensures
        h == normalized_hash(lower@),
{
    let v = chars_of(lower);
    let n: usize = if v.len() <= 200 {
        v.len()
    } else {
        200
    };
    let text = substring(&v, 0, n);
    assert(text@ == first_200(lower@));
    let bytes = text.as_str().as_bytes();
    let mut hash: u64 = 14695981039346656037;
    let mut i: usize = 0;
    while i < bytes.len()
        invariant
            i <= bytes@.len(),
            hash == fnv1a(bytes@.subrange(0, i as int)),
        decreases bytes@.len() - i,
    {
        proof {
            let next = bytes@.subrange(0, i + 1);
            assert(next.drop_last() == bytes@.subrange(0, i as int));
            assert(next.last() == bytes@[i as int]);
        }
        hash = hash ^ (bytes[i] as u64);
        hash = hash.wrapping_mul(1099511628211);
        i = i + 1;
    }
    assert(bytes@.subrange(0, bytes@.len() as int) == bytes@);
    hash
}

/// The hash under which an instruction is remembered; case and surrounding white space do
/// not matter, nor what comes after 200 characters.
pub fn instruction_hash(instruction: &str) -> (h: u64)
    ensures
        h == hash_of(instruction@),
{
    let t = trim(instruction);
    let lower = to_lowercase(t.as_str());
    hash_normalized(lower.as_str())
}

impl DatasetStore {
    /// A store that has taken nothing.
    pub fn new() -> (s: Self)
        ensures
            s@ == (Dedup { seen: Set::empty(), deduplicated: 0 }),
    {
        broadcast use group_hash_axioms;

        DatasetStore { seen_hashes: HashSet::new(), deduplicated: 0 }
    }

    /// A store that has taken examples with these instructions.
    pub fn open(instructions: &Vec<String>) -> (s: Self)
        ensures
            s@.deduplicated == 0,
            forall|h: u64| #[trigger]
                s@.seen.contains(h) <==> exists|i: int|
                    0 <= i < instructions@.len() && hash_of((#[trigger] instructions@[i])@) == h,
    {
        broadcast use group_hash_axioms;

        let mut seen_hashes: HashSet<u64> = HashSet::new();
        let mut i: usize = 0;
        while i < instructions.len()
            invariant
                i <= instructions@.len(),
                forall|h: u64| #[trigger]
                    seen_hashes@.contains(h) <==> exists|j: int|
                        0 <= j < i && hash_of((#[trigger] instructions@[j])@) == h,
            decreases instructions@.len() - i,
        {
            let h = instruction_hash(instructions[i].as_str());
            let ghost before = seen_hashes@;
            seen_hashes.insert(h);
            proof {
                assert forall|x: u64| #[trigger]
                    seen_hashes@.contains(x) <==> exists|j: int|
                        0 <= j < i + 1 && hash_of((#[trigger] instructions@[j])@) == x by {
                    if before.contains(x) {
                        let j = choose|j: int|
                            0 <= j < i && hash_of((#[trigger] instructions@[j])@) == x;
                        assert(hash_of(instructions@[j]@) == x);
                    }
                    if x == h {
                        assert(hash_of(instructions@[i as int]@) == x);
                    }
                }
            }
            i = i + 1;
        }
        DatasetStore { seen_hashes, deduplicated: 0 }
    }

    /// Number of examples that were refused because their instruction was taken before.
    pub fn deduplicated(&self) -> (n: usize)
        ensures
            n == self@.deduplicated,
    {
        self.deduplicated
    }

    /// Offers an example. Returns whether it is taken; the caller then stores it.
    pub fn add_example<F>(&mut self, example: &DatasetExample<F>) -> (accepted: bool)
        requires
            old(self)@.deduplicated < usize::MAX,
        ensures
            accepted == old(self)@.takes(example.instruction@, example.response@),
            final(self)@ == old(self)@.after(example.instruction@, example.response@),
    {
        broadcast use group_hash_axioms;

        if !passes_quality_filter(example) {
            return false;
        }
        let hash = instruction_hash(example.instruction.as_str());
        if self.seen_hashes.contains(&hash) {
            self.deduplicated = self.deduplicated + 1;
            return false;
        }
        self.seen_hashes.insert(hash);
        true
    }

    /// Offers examples in turn. Returns those that are taken and how many are not.
    pub fn add_bulk<F>(&mut self, examples: Vec<DatasetExample<F>>) -> (r: (
        Vec<DatasetExample<F>>,
        usize,
    ))
        requires
            old(self)@.deduplicated + examples@.len() <= usize::MAX,
        ensures
            final(self)@ == old(self)@.after_all(examples@, examples@.len() as int),
            r.0@ == old(self)@.taken(examples@, examples@.len() as int),
            r.1 == examples@.len() - r.0@.len(),
    {
        let ghost all = examples@;
        let ghost pre = self@;
        let mut rest = examples;
        let mut to_insert: Vec<DatasetExample<F>> = Vec::new();
        let mut rejected: usize = 0;
        let n: usize = rest.len();
        let mut i: usize = 0;
        assert(all.subrange(0, n as int) == all);
        while i < n
            invariant
                i <= n,
                n == all.len(),
                rest@ == all.subrange(i as int, n as int),
                self@ == pre.after_all(all, i as int),
                self@.deduplicated <= pre.deduplicated + i,
                pre.deduplicated + n <= usize::MAX,
                to_insert@ == pre.taken(all, i as int),
                to_insert@.len() + rejected == i,
            decreases n - i,
        {
            let ex = rest.remove(0);
            assert(ex == all[i as int]);
            assert(rest@ == all.subrange(i + 1, n as int));
            if self.add_example(&ex) {
                to_insert.push(ex);
            } else {
                rejected = rejected + 1;
            }
            i = i + 1;
        }
        (to_insert, rejected)
    }
}

// ── Laws ─────────────────────────────────────────────────────────────────────

/// An instruction is taken at most once: after an example was taken, none with the same
/// instruction is, whatever was offered in between.
pub proof fn law_instruction_is_taken_once<F>(
    pre: Dedup,
    instruction: Seq<char>,
    response: Seq<char>,
    between: Seq<DatasetExample<F>>,
    again: Seq<char>,
    other: Seq<char>,
)
    requires
        pre.takes(instruction, response),
        hash_of(again) == hash_of(instruction),
    ensures
        !pre.after(instruction, response).after_all(between, between.len() as int).takes(
            again,
            other,
        ),
{
    let mid = pre.after(instruction, response);
    lemma_seen_grows(mid, between, between.len() as int, hash_of(instruction));
}

proof fn lemma_seen_grows<F>(d: Dedup, examples: Seq<DatasetExample<F>>, n: int, h: u64)
    requires
        d.seen.contains(h),
        0 <= n <= examples.len(),
    ensures
        d.after_all(examples, n).seen.contains(h),
    decreases n,
{
    if n > 0 {
        lemma_seen_grows(d, examples, n - 1, h);
    }
}

/// Instructions that are the same once trimmed and made lowercase have one hash.
pub proof fn law_hash_is_of_normal_form(a: Seq<char>, b: Seq<char>)
    requires
        lowercase(trimmed(a)) == lowercase(trimmed(b)),
    ensures
        hash_of(a) == hash_of(b),
{
}

/// The hash after one more byte.
spec fn hash_step(h: u64, b: u8) -> u64 {
    (h ^ (b as u64)).wrapping_mul(1099511628211)
}

/// A factor that undoes the multiplication of a step.
proof fn lemma_step_undone(x: u64)
    ensures
        (x.wrapping_mul(1099511628211) as int * 14886173955864302971) % 0x1_0000_0000_0000_0000
            == x,
{
    let m: int = 0x1_0000_0000_0000_0000;
    let p: int = 1099511628211;
    let q: int = 14886173955864302971;
    let product = x as int * p;
    vstd::arithmetic::div_mod::lemma_mod_bound(product, m);
    assert(x.wrapping_mul(1099511628211) as int == product % m);
    vstd::arithmetic::div_mod::lemma_mul_mod_noop_left(product, q, m);
    assert(p * q == 887285111055 * m + 1);
    assert(product * q == x as int * (p * q)) by (nonlinear_arith)
        requires
            product == x as int * p,
    ;
    assert(x as int * (887285111055 * m + 1) == (x as int * 887285111055) * m + x as int)
        by (nonlinear_arith);
    vstd::arithmetic::div_mod::lemma_mod_multiples_vanish(x as int * 887285111055, x as int, m);
    assert(m * (x as int * 887285111055) == (x as int * 887285111055) * m) by (nonlinear_arith);
    vstd::arithmetic::div_mod::lemma_small_mod(x as nat, m as nat);
}

proof fn lemma_step_is_injective(g: u64, h: u64, a: u8, b: u8)
    requires
        hash_step(g, a) == hash_step(h, b),
    ensures
        a == b ==> g == h,
        g == h ==> a == b,
{
    lemma_step_undone(g ^ (a as u64));
    lemma_step_undone(h ^ (b as u64));
    assert(g ^ (a as u64) == h ^ (b as u64));
    assert(a == b && g ^ (a as u64) == h ^ (b as u64) ==> g == h) by (bit_vector);
    assert(g == h && g ^ (a as u64) == h ^ (b as u64) ==> a == b) by (bit_vector);
}

/// Every byte enters the hash: bytes that differ in exactly one place have different hashes.
pub proof fn law_every_byte_enters_the_hash(a: Seq<u8>, b: Seq<u8>, i: int)
    requires
        a.len() == b.len(),
        0 <= i < a.len(),
        a[i] != b[i],
        forall|j: int| 0 <= j < a.len() && j != i ==> a[j] == #[trigger] b[j],
    ensures
        fnv1a(a) != fnv1a(b),
    decreases a.len(),
{
    let c = a.drop_last();
    let d = b.drop_last();
    assert(fnv1a(a) == hash_step(fnv1a(c), a.last()));
    assert(fnv1a(b) == hash_step(fnv1a(d), b.last()));
    if i == a.len() - 1 {
        assert(c =~= d);
    } else {
        assert(b[a.len() - 1] == a[a.len() - 1]);
        law_every_byte_enters_the_hash(c, d, i);
    }
    if fnv1a(a) == fnv1a(b) {
        lemma_step_is_injective(fnv1a(c), fnv1a(d), a.last(), b.last());
    }
}

/// What comes first decides what the hash of a longer text is: texts with different hashes have
/// different hashes still after the same bytes were added to both.
pub proof fn law_hashes_stay_apart(a: Seq<u8>, b: Seq<u8>, more: Seq<u8>)
    requires
        fnv1a(a) != fnv1a(b),
    ensures
        fnv1a(a + more) != fnv1a(b + more),
    decreases more.len(),
{
    if more.len() == 0 {
        assert(a + more =~= a);
        assert(b + more =~= b);
    } else {
        let init = more.drop_last();
        law_hashes_stay_apart(a, b, init);
        assert((a + more).drop_last() =~= a + init);
        assert((b + more).drop_last() =~= b + init);
        assert(fnv1a(a + more) == hash_step(fnv1a(a + init), more.last()));
        assert(fnv1a(b + more) == hash_step(fnv1a(b + init), more.last()));
        if fnv1a(a + more) == fnv1a(b + more) {
            lemma_step_is_injective(
                fnv1a(a + init),
                fnv1a(b + init),
                more.last(),
                more.last(),
            );
        }
    }
}

proof fn lemma_encoded_concat(a: Seq<char>, b: Seq<char>)
    ensures
        encode_utf8(a + b) == encode_utf8(a) + encode_utf8(b),
    decreases a.len(),
{
    if a.len() == 0 {
        assert(a + b =~= b);
        assert(encode_utf8(a) + encode_utf8(b) =~= encode_utf8(b));
    } else {
        assert((a + b).drop_first() =~= a.drop_first() + b);
        lemma_encoded_concat(a.drop_first(), b);
        assert(encode_utf8(a + b) =~= encode_utf8(a) + encode_utf8(b));
    }
}

proof fn lemma_encoded_ascii(c: char)
    requires
        c <= '\u{7f}',
    ensures
        encode_utf8(seq![c]) == seq![c as u8],
{
    let s = seq![c];
    assert(vstd::utf8::is_ascii_chars(s));
    vstd::utf8::is_ascii_chars_encode_utf8(s);
    assert(s[0] == c);
    assert(encode_utf8(s) =~= seq![c as u8]);
}

/// Lowercase instructions that have one ASCII character in place of another among their first 200
/// characters, and are otherwise the same, have different hashes.
pub proof fn law_one_character_changes_the_hash(a: Seq<char>, b: Seq<char>, i: int)
    requires
        a.len() == b.len(),
        0 <= i < a.len(),
        i < 200,
        a[i] != b[i],
        a[i] <= '\u{7f}',
        b[i] <= '\u{7f}',
        forall|j: int| 0 <= j < a.len() && j != i ==> a[j] == #[trigger] b[j],
    ensures
        normalized_hash(a) != normalized_hash(b),
{
    let s = first_200(a);
    let t = first_200(b);
    let n = s.len() as int;
    let head = s.subrange(0, i);
    let tail = s.subrange(i + 1, n);
    assert(t.subrange(0, i) =~= head);
    assert(t.subrange(i + 1, n) =~= tail);
    assert(s =~= head + seq![a[i]] + tail);
    assert(t =~= head + seq![b[i]] + tail);
    lemma_encoded_concat(head + seq![a[i]], tail);
    lemma_encoded_concat(head, seq![a[i]]);
    lemma_encoded_concat(head + seq![b[i]], tail);
    lemma_encoded_concat(head, seq![b[i]]);
    lemma_encoded_ascii(a[i]);
    lemma_encoded_ascii(b[i]);
    let x = encode_utf8(head);
    let y = encode_utf8(tail);
    let p = x + seq![a[i] as u8] + y;
    let q = x + seq![b[i] as u8] + y;
    let k = x.len() as int;
    assert(p[k] == a[i] as u8 && q[k] == b[i] as u8);
    let u = a[i] as u32;
    let v = b[i] as u32;
    vstd::utf8::char_u32_cast(a[i], u);
    vstd::utf8::char_u32_cast(b[i], v);
    assert(u <= 127 && v <= 127);
    assert(u as u8 != v as u8) by (bit_vector)
        requires
            u != v,
            u <= 127,
            v <= 127,
    ;
    assert forall|j: int| 0 <= j < p.len() && j != k implies p[j] == #[trigger] q[j] by {}
    law_every_byte_enters_the_hash(p, q, k);
}

/// An example with another instruction is no duplicate: after one was taken, the other is taken
/// too if it would have been before, where their instructions, once trimmed and made lowercase,
/// have one ASCII character in place of another.
pub proof fn law_different_instructions_are_both_taken(
    pre: Dedup,
    first: Seq<char>,
    first_response: Seq<char>,
    second: Seq<char>,
    second_response: Seq<char>,
    i: int,
)
    requires
        pre.takes(first, first_response),
        pre.takes(second, second_response),
        ({
            let a = lowercase(trimmed(first));
            let b = lowercase(trimmed(second));
            &&& a.len() == b.len()
            &&& 0 <= i < a.len()
            &&& i < 200
            &&& a[i] != b[i]
            &&& a[i] <= '\u{7f}'
            &&& b[i] <= '\u{7f}'
            &&& forall|j: int| 0 <= j < a.len() && j != i ==> a[j] == #[trigger] b[j]
        }),
    ensures
        pre.after(first, first_response).takes(second, second_response),
        pre.after(first, first_response).deduplicated == pre.deduplicated,
{
    law_one_character_changes_the_hash(lowercase(trimmed(first)), lowercase(trimmed(second)), i);
}

/// What comes after the first 200 characters of an instruction does not matter.
pub proof fn law_only_the_beginning_is_hashed(a: Seq<char>, b: Seq<char>)
    requires
        a.len() >= 200,
        b.len() >= 200,
        forall|j: int| 0 <= j < 200 ==> a[j] == #[trigger] b[j],
    ensures
        normalized_hash(a) == normalized_hash(b),
{
    assert(first_200(a) =~= first_200(b));
}

/// An example that is taken is not taken again, and what was taken before stays so. One that is
/// not good enough leaves no trace.
pub proof fn law_offers_are_remembered(pre: Dedup, instruction: Seq<char>, response: Seq<char>)
    ensures
        !pre.after(instruction, response).takes(instruction, response),
        forall|h: u64|
            pre.seen.contains(h) ==> #[trigger] pre.after(instruction, response).seen.contains(h),
        !passes(instruction, response) ==> pre.after(instruction, response) == pre,
        pre.takes(instruction, response) ==> pre.after(instruction, response).deduplicated
            == pre.deduplicated,
        passes(instruction, response) && !pre.takes(instruction, response) ==> pre.after(
            instruction,
            response,
        ).deduplicated == pre.deduplicated + 1,
{
}

/// An example stays good enough when its response goes on, as far as length and code decide.
pub proof fn law_more_text_stays_substantial(
    instruction: Seq<char>,
    response: Seq<char>,
    more: Seq<char>,
)
    requires
        is_substantial(instruction, response),
    ensures
        is_substantial(instruction, response + more),
{
    lemma_encoded_concat(response, more);
    if contains(response, "```"@) {
        let i = choose|i: int| #[trigger] occurs_at(response, "```"@, i);
        let n = "```"@.len() as int;
        assert((response + more).subrange(i, i + n) =~= response.subrange(i, i + n));
        assert(occurs_at(response + more, "```"@, i));
    }
}


proof fn lemma_seen_after<F>(d: Dedup, examples: Seq<DatasetExample<F>>, n: int, h: u64)
    requires
        0 <= n <= examples.len(),
    ensures
        d.after_all(examples, n).seen.contains(h) == (d.seen.contains(h) || exists|j: int|
            0 <= j < n && passes(
                (#[trigger] examples[j]).instruction@,
                examples[j].response@,
            ) && hash_of(examples[j].instruction@) == h),
    decreases n,
{
    if n > 0 {
        lemma_seen_after(d, examples, n - 1, h);
        let x = examples[n - 1];
        if passes(x.instruction@, x.response@) && hash_of(x.instruction@) == h {
            assert(passes(examples[n - 1].instruction@, examples[n - 1].response@));
        }
        if d.after_all(examples, n - 1).seen.contains(h) && !d.seen.contains(h) {
            let j = choose|j: int|
                0 <= j < n - 1 && passes(
                    (#[trigger] examples[j]).instruction@,
                    examples[j].response@,
                ) && hash_of(examples[j].instruction@) == h;
            assert(passes(examples[j].instruction@, examples[j].response@));
        }
    }
}

/// Of examples that are offered together, one is taken exactly if it is good enough and neither
/// the store nor a good example before it has its instruction; what is taken stays in order.
pub proof fn law_first_good_example_of_each_instruction_is_taken<F>(
    d: Dedup,
    examples: Seq<DatasetExample<F>>,
    n: int,
)
    requires
        0 <= n <= examples.len(),
    ensures
        forall|i: int|
            0 <= i < n && passes((#[trigger] examples[i]).instruction@, examples[i].response@)
                && !d.seen.contains(hash_of(examples[i].instruction@)) && (forall|j: int|
                0 <= j < i && passes((#[trigger] examples[j]).instruction@, examples[j].response@)
                    ==> hash_of(examples[j].instruction@) != hash_of(examples[i].instruction@))
                ==> d.taken(examples, n).contains(examples[i]),
        forall|k: int|
            0 <= k < d.taken(examples, n).len() ==> passes(
                (#[trigger] d.taken(examples, n)[k]).instruction@,
                d.taken(examples, n)[k].response@,
            ) && !d.seen.contains(hash_of(d.taken(examples, n)[k].instruction@))
                && examples.subrange(0, n).contains(d.taken(examples, n)[k]),
        forall|k: int, m: int|
            0 <= k < m < d.taken(examples, n).len() ==> hash_of(
                (#[trigger] d.taken(examples, n)[k]).instruction@,
            ) != hash_of((#[trigger] d.taken(examples, n)[m]).instruction@),
    decreases n,
{
    if n > 0 {
        law_first_good_example_of_each_instruction_is_taken(d, examples, n - 1);
        let before = d.taken(examples, n - 1);
        let all = d.taken(examples, n);
        let x = examples[n - 1];
        let h = hash_of(x.instruction@);
        let a = examples.subrange(0, n - 1);
        let b = examples.subrange(0, n);
        lemma_seen_after(d, examples, n - 1, h);
        assert forall|i: int|
            0 <= i < n && passes((#[trigger] examples[i]).instruction@, examples[i].response@)
                && !d.seen.contains(hash_of(examples[i].instruction@)) && (forall|j: int|
                0 <= j < i && passes((#[trigger] examples[j]).instruction@, examples[j].response@)
                    ==> hash_of(examples[j].instruction@) != hash_of(
                    examples[i].instruction@,
                )) implies all.contains(examples[i]) by {
            if i < n - 1 {
                assert(before.contains(examples[i]));
                let k = choose|k: int| 0 <= k < before.len() && before[k] == examples[i];
                assert(all[k] == examples[i]);
            } else {
                assert(all[all.len() - 1] == x);
            }
        }
        assert forall|k: int| 0 <= k < all.len() implies passes(
            (#[trigger] all[k]).instruction@,
            all[k].response@,
        ) && !d.seen.contains(hash_of(all[k].instruction@)) && b.contains(all[k]) by {
            if k < before.len() {
                assert(before[k] == all[k]);
                assert(a.contains(before[k]));
                let j = choose|j: int| 0 <= j < a.len() && a[j] == before[k];
                assert(b[j] == all[k]);
            } else {
                assert(b[n - 1] == all[k]);
            }
        }
        assert forall|k: int, m: int| 0 <= k < m < all.len() implies hash_of(
            (#[trigger] all[k]).instruction@,
        ) != hash_of((#[trigger] all[m]).instruction@) by {
            assert(before[k] == all[k]);
            if m < before.len() {
                assert(before[m] == all[m]);
            } else {
                assert(passes(before[k].instruction@, before[k].response@));
                assert(a.contains(before[k]));
                let j = choose|j: int| 0 <= j < a.len() && a[j] == before[k];
                assert(examples[j] == before[k]);
                assert(passes(examples[j].instruction@, examples[j].response@));
            }
        }
    }
}

/// An example with a short instruction or response is not taken, nor is one whose response is
/// neither long nor holds code, nor one that begins as a refusal does.
pub proof fn law_poor_examples_are_refused(
    d: Dedup,
    instruction: Seq<char>,
    response: Seq<char>,
    rest: Seq<char>,
)
    ensures
        byte_len(instruction) < 20 ==> !d.takes(instruction, response),
        byte_len(response) < 30 ==> !d.takes(instruction, response),
        byte_len(response) <= 200 && !contains(response, "```"@) ==> !d.takes(
            instruction,
            response,
        ),
        lowercase(response) == "i cannot"@ + rest ==> !d.takes(instruction, response),
        lowercase(response) == "i'm unable"@ + rest ==> !d.takes(instruction, response),
        lowercase(response) == "i am unable"@ + rest ==> !d.takes(instruction, response),
        lowercase(response) == "as an ai"@ + rest ==> !d.takes(instruction, response),
        !d.takes(instruction, response) && !d.seen.contains(hash_of(instruction)) ==> d.after(
            instruction,
            response,
        ) == d,
{
    law_part_is_found(rest, "i cannot"@, rest);
    law_part_is_found(rest, "i'm unable"@, rest);
    law_part_is_found(rest, "i am unable"@, rest);
    law_part_is_found(rest, "as an ai"@, rest);
}

/// An example that is long enough, holds code and begins as no refusal does is taken by a store
/// that has not seen its instruction.
pub proof fn law_good_examples_are_taken(
    d: Dedup,
    instruction: Seq<char>,
    a: Seq<char>,
    b: Seq<char>,
)
    requires
        byte_len(instruction) >= 20,
        byte_len(a + "```"@ + b) >= 30,
        !d.seen.contains(hash_of(instruction)),
        !starts_with(lowercase(a + "```"@ + b), "i cannot"@),
        !starts_with(lowercase(a + "```"@ + b), "i'm unable"@),
        !starts_with(lowercase(a + "```"@ + b), "i am unable"@),
        !starts_with(lowercase(a + "```"@ + b), "as an ai"@),
    ensures
        d.takes(instruction, a + "```"@ + b),
{
    law_part_is_found(a, "```"@, b);
}

} // verus!
