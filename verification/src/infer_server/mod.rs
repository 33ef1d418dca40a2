//! The server that runs layers of the model on a node.
//!
//! The arithmetic is the caller's; how requests are read and which of them are served is
//! decided here.
use crate::json;
use crate::model_paths::extension_of;
use crate::node::engine::insert_name;
use crate::frames::push_le;
use crate::text::{
    concat, format_number, join, parse_usize, split, str_eq, trim, trim_ends,
};
use vstd::prelude::*;

pub mod kv_store;

verus! {

use crate::frames::{law_lowest_byte_comes_first, le_bytes, le_value};
use crate::json::{json_get, json_items, json_valid, number_at, numbers_at, string_or};
use crate::model_paths::extension;
use crate::node::engine::{law_sorted_names, text_order};
use crate::node::ws_worker::sizes;
use crate::seqs::{keep, lemma_keep_members, lemma_keep_step, sorted};
use crate::text::{
    decimal,
    is_digit,
    is_space,
    joined,
    lemma_decimal_is_parsed,
    lemma_split_append,
    lemma_split_one,
    lemma_trimmed_same,
    parsed_up_to,
    split_on,
    text_le,
    texts,
    trimmed,
    trimmed_ends,
};
use vstd::string::StringExecFns;

/// Width of the hidden states where a request states no shape.
pub const DEFAULT_WIDTH: usize = 3584;

/// Seconds between two looks for idle entries.
pub const REAP_INTERVAL_SECS: u64 = 60;

// ── Shapes ───────────────────────────────────────────────────────────────────

/// Being a bracket.
pub open spec fn is_bracket() -> spec_fn(char) -> bool {
    |c: char| c == '[' || c == ']'
}

/// The numbers among the parts of a list.
pub open spec fn parsed_parts(parts: Seq<Seq<char>>) -> Seq<usize>
    decreases parts.len(),
{
    if parts.len() == 0 {
        Seq::empty()
    } else {
        match parsed_up_to(trimmed(parts.last()), usize::MAX as nat) {
            Some(n) => parsed_parts(parts.drop_last()).push(n as usize),
            None => parsed_parts(parts.drop_last()),
        }
    }
}

/// The sizes that a text like `[1,2,3]` states; what is no number is passed over.
pub fn parse_shape(s: &str) -> (r: Vec<usize>)
    ensures
        r@ == parsed_parts(split_on(trimmed_ends(s@, is_bracket()), ',')),
{
    let inner = trim_ends(s, '[', ']');
    let parts = split(inner.as_str(), ',');
    let ghost all = texts(parts@);
    let mut r: Vec<usize> = Vec::new();
    let mut i: usize = 0;
    assert(trimmed_ends(s@, is_bracket()) == inner@);
    assert(parsed_parts(all.subrange(0, 0)) =~= r@);
    while i < parts.len()
        invariant
            i <= parts@.len(),
            all == texts(parts@),
            r@ == parsed_parts(all.subrange(0, i as int)),
        decreases parts@.len() - i,
    {
        proof {
            let next = all.subrange(0, i + 1);
            assert(next.drop_last() =~= all.subrange(0, i as int));
            assert(next.last() == parts@[i as int]@);
        }
        let part = trim(parts[i].as_str());
        if let Some(n) = parse_usize(part.as_str()) {
            r.push(n);
        }
        i = i + 1;
    }
    assert(all.subrange(0, all.len() as int) =~= all);
    r
}

// ── Requests ─────────────────────────────────────────────────────────────────

/// The integers and texts of a request.
#[derive(Debug)]
pub struct RequestMeta {
    pub mode: String,
    pub request_id: String,
    pub shape: Vec<usize>,
    pub top_k: Option<usize>,
}

/// A header, or else a default.
pub open spec fn header_or(value: Option<&str>, default: Seq<char>) -> Seq<char> {
    match value {
        Some(v) => v@,
        None => default,
    }
}

fn given(value: Option<&str>, default: &str) -> (r: String)
    ensures
        r@ == header_or(value, default@),
{
    match value {
        Some(v) => v.to_owned(),
        None => default.to_owned(),
    }
}

/// Reads the headers of an HTTP request.
pub fn meta_from_headers(
    mode: Option<&str>,
    shape: Option<&str>,
    request_id: Option<&str>,
    top_k: Option<&str>,
) -> (r: RequestMeta)
    ensures
        r.mode@ == header_or(mode, "forward"@),
        r.request_id@ == header_or(request_id, "unknown"@),
        r.shape@ == parsed_parts(
            split_on(trimmed_ends(header_or(shape, "[1,1,3584]"@), is_bracket()), ','),
        ),
        match top_k {
            Some(k) => match parsed_up_to(k@, usize::MAX as nat) {
                Some(n) => r.top_k is Some && r.top_k->0 == n,
                None => r.top_k is None,
            },
            None => r.top_k is None,
        },
{
    let shape_text = given(shape, "[1,1,3584]");
    RequestMeta {
        mode: given(mode, "forward"),
        request_id: given(request_id, "unknown"),
        shape: parse_shape(shape_text.as_str()),
        top_k: match top_k {
            Some(k) => parse_usize(k),
            None => None,
        },
    }
}

/// The shape in a JSON header: its numbers, or the default if it is no array.
pub open spec fn json_shape(header: Seq<char>) -> Seq<usize> {
    match json_get(header, "shape"@) {
        Some(v) => if json_items(v) is Some {
            sizes(numbers_at(header, "shape"@))
        } else {
            seq![1usize, 1usize, 3584usize]
        },
        None => seq![1usize, 1usize, 3584usize],
    }
}

/// Reads the JSON header of a TCP request; none if it is no JSON.
pub fn meta_from_json(header: &str) -> (r: Option<RequestMeta>)
    ensures
        r is Some == json_valid(header@),
        r is Some ==> {
            &&& (r->0).mode@ == string_or(header@, "mode"@, "forward"@)
            &&& (r->0).request_id@ == string_or(header@, "request_id"@, "unknown"@)
            &&& (r->0).shape@ == json_shape(header@)
            &&& match number_at(header@, "top_k"@) {
                Some(n) => (r->0).top_k == Some(n as usize),
                None => (r->0).top_k is None,
            }
        },
{
    if !json::valid(header) {
        return None;
    }
    let is_array = match json::get(header, "shape") {
        Some(v) => json::items(v.as_str()).is_some(),
        None => false,
    };
    let shape: Vec<usize> = if is_array {
        let numbers = json::get_number_list(header, "shape");
        let mut r: Vec<usize> = Vec::new();
        let mut i: usize = 0;
        while i < numbers.len()
            invariant
                i <= numbers@.len(),
                r@ == sizes(numbers@.subrange(0, i as int)),
            decreases numbers@.len() - i,
        {
            r.push(numbers[i] as usize);
            i = i + 1;
            assert(sizes(numbers@.subrange(0, i as int)) =~= sizes(
                numbers@.subrange(0, i - 1),
            ).push(numbers@[i - 1] as usize));
        }
        assert(numbers@.subrange(0, numbers@.len() as int) =~= numbers@);
        r
    } else {
        let r: Vec<usize> = vec![1, 1, DEFAULT_WIDTH];
        assert(r@ =~= seq![1usize, 1usize, 3584usize]);
        r
    };
    Some(
        RequestMeta {
            mode: json::get_string_or(header, "mode", "forward"),
            request_id: json::get_string_or(header, "request_id", "unknown"),
            shape,
            top_k: match json::get_number(header, "top_k") {
                Some(n) => Some(n as usize),
                None => None,
            },
        },
    )
}

/// Whether a request to the root asks for the health of the server.
pub fn asks_health(body_len: usize, has_mode: bool) -> (r: bool)
    ensures
        r == (body_len == 0 && !has_mode),
{
    body_len == 0 && !has_mode
}

/// What is to be run for a request.
#[derive(Debug)]
pub enum Job {
    /// Hidden states through the layers.
    Forward { batch: usize, seq: usize, width: usize },
    /// Tokens through the whole model, for the next token.
    Generate { batch: usize, seq: usize, tokens: Vec<u32> },
    /// One more token, for the next one.
    Decode { token: u32 },
}

/// Why a request is not served.
#[derive(Debug)]
pub enum JobError {
    UnknownMode(String),
    /// A forward request states less than three sizes.
    ShapeTooShort(Vec<usize>),
    /// The body does not have the bytes that its shape says.
    WrongLength { expected: usize, shape: Vec<usize>, got: usize },
    TooFewTokens,
    NoToken,
    /// The mode needs the last layers, which are not here.
    NotLast(String),
}

/// Sizes in decimal.
pub open spec fn size_texts(v: Seq<usize>) -> Seq<Seq<char>> {
    Seq::new(v.len(), |i: int| decimal(v[i] as nat))
}

/// A list of sizes in words.
pub open spec fn sizes_text(v: Seq<usize>) -> Seq<char> {
    "["@ + joined(size_texts(v), ", "@) + "]"@
}

fn write_sizes(v: &Vec<usize>) -> (r: String)
    ensures
        r@ == sizes_text(v@),
{
    let mut parts: Vec<String> = Vec::new();
    let mut i: usize = 0;
    while i < v.len()
        invariant
            i <= v@.len(),
            texts(parts@) =~= size_texts(v@).subrange(0, i as int),
        decreases v@.len() - i,
    {
        let ghost before = texts(parts@);
        parts.push(format_number(v[i] as u64));
        i = i + 1;
        assert(texts(parts@) =~= before.push(decimal(v@[i - 1] as nat)));
        assert(size_texts(v@).subrange(0, i as int) =~= size_texts(v@).subrange(0, i - 1).push(
            size_texts(v@)[i - 1],
        ));
    }
    assert(size_texts(v@).subrange(0, i as int) =~= size_texts(v@));
    assert(texts(parts@).subrange(0, parts@.len() as int) =~= texts(parts@));
    let inner = join(&parts, 0, parts.len(), ", ");
    let mut r = "[".to_owned();
    r.append(inner.as_str());
    r.append("]");
    r
}

impl JobError {
    /// The error in words.
    pub fn message(&self) -> (r: String)
        ensures
            r@ == match *self {
                JobError::UnknownMode(m) => "unknown mode: "@ + m@,
                JobError::ShapeTooShort(shape) => "forward: need shape [b, seq, hidden], got "@
                    + sizes_text(shape@),
                JobError::WrongLength { expected, shape, got } => "expected "@ + decimal(
                    expected as nat,
                ) + " bytes for shape "@ + sizes_text(shape@) + " fp16, got "@ + decimal(
                    got as nat,
                ),
                JobError::TooFewTokens => "not enough bytes for u32 tokens"@,
                JobError::NoToken => "decode: need \u{2265}4 bytes for token id"@,
                JobError::NotLast(mode) => mode@ + " requires last shard"@,
            },
    {
        match self {
            JobError::UnknownMode(m) => concat("unknown mode: ", m.as_str()),
            JobError::ShapeTooShort(shape) => {
                let t = write_sizes(shape);
                concat("forward: need shape [b, seq, hidden], got ", t.as_str())
            },
            JobError::WrongLength { expected, shape, got } => {
                let a = format_number(*expected as u64);
                let t = write_sizes(shape);
                let b = format_number(*got as u64);
                let mut r = "expected ".to_owned();
                r.append(a.as_str());
                r.append(" bytes for shape ");
                r.append(t.as_str());
                r.append(" fp16, got ");
                r.append(b.as_str());
                r
            },
            JobError::TooFewTokens => "not enough bytes for u32 tokens".to_owned(),
            JobError::NoToken => "decode: need \u{2265}4 bytes for token id".to_owned(),
            JobError::NotLast(mode) => concat(mode.as_str(), " requires last shard"),
        }
    }
}

/// Whether the number of bytes that the sizes call for can be counted.
pub open spec fn countable(mode: Seq<char>, shape: Seq<usize>) -> bool {
    &&& mode == "forward"@ && shape.len() >= 3 ==> shape[0] * shape[1] <= usize::MAX && shape[0]
        * shape[1] * shape[2] * 2 <= usize::MAX
    &&& mode == "generate"@ ==> shape.len() >= 1 && token_shape(shape).0 * token_shape(shape).1 * 4
        <= usize::MAX
}

fn token_at(body: &Vec<u8>, i: usize) -> (t: u32)
    requires
        i + 4 <= body@.len(),
    ensures
        t == le_value(body@, i as int),
{
    let n: usize = body.len();
    body[i] as u32 + body[i + 1] as u32 * 256 + body[i + 2] as u32 * 65536 + body[i + 3] as u32
        * 16777216
}

/// The sizes of a batch of tokens.
pub open spec fn token_shape(shape: Seq<usize>) -> (usize, usize) {
    if shape.len() >= 2 {
        (shape[0], shape[1])
    } else {
        (1, shape[0])
    }
}

/// Whether these are the first tokens of a body.
pub open spec fn are_tokens(tokens: Seq<u32>, body: Seq<u8>, n: int) -> bool {
    &&& tokens.len() == n
    &&& forall|i: int| 0 <= i < n ==> #[trigger] tokens[i] == le_value(body, i * 4)
}

/// Whether this is what is to be run for a request, or why it is not served.
pub open spec fn is_plan(
    mode: Seq<char>,
    shape: Seq<usize>,
    body: Seq<u8>,
    r: Result<Job, JobError>,
) -> bool {
    if mode == "forward"@ {
        if shape.len() < 3 {
            r matches Err(JobError::ShapeTooShort(s)) && s@ == shape
        } else if body.len() != shape[0] * shape[1] * shape[2] * 2 {
            &&& r matches Err(JobError::WrongLength { expected, shape: s, got })
            &&& expected == shape[0] * shape[1] * shape[2] * 2
            &&& s@ == shape.subrange(0, 3)
            &&& got == body.len()
        } else {
            r == Ok::<Job, JobError>(
                Job::Forward { batch: shape[0], seq: shape[1], width: shape[2] },
            )
        }
    } else if mode == "generate"@ {
        let (b, s) = token_shape(shape);
        if body.len() < b * s * 4 {
            r matches Err(JobError::TooFewTokens)
        } else {
            &&& r matches Ok(Job::Generate { batch, seq, tokens })
            &&& batch == b
            &&& seq == s
            &&& are_tokens(tokens@, body, b * s)
        }
    } else if mode == "decode"@ {
        if body.len() < 4 {
            r matches Err(JobError::NoToken)
        } else {
            r matches Ok(Job::Decode { token }) && token == le_value(body, 0)
        }
    } else {
        r matches Err(JobError::UnknownMode(m)) && m@ == mode
    }
}

/// What is to be run for a request.
pub fn plan_job(mode: &str, shape: &Vec<usize>, body: &Vec<u8>) -> (r: Result<Job, JobError>)
    requires
        countable(mode@, shape@),
    ensures
        is_plan(mode@, shape@, body@, r),
{
    proof {
        reveal_strlit("forward");
        reveal_strlit("generate");
        reveal_strlit("decode");
    }
    if str_eq(mode, "forward") {
        if shape.len() < 3 {
            return Err(JobError::ShapeTooShort(shape.clone()));
        }
        let (b, seq, width) = (shape[0], shape[1], shape[2]);
        proof {
            assert(b * seq * width <= b * seq * width * 2 && b * seq * width >= 0)
                by (nonlinear_arith)
                requires
                    b >= 0,
                    seq >= 0,
                    width >= 0,
            ;
        }
        let expected: usize = b * seq * width * 2;
        if body.len() != expected {
            let s: Vec<usize> = vec![b, seq, width];
            assert(s@ =~= shape@.subrange(0, 3));
            return Err(JobError::WrongLength { expected, shape: s, got: body.len() });
        }
        return Ok(Job::Forward { batch: b, seq, width });
    }
    if str_eq(mode, "generate") {
        let (b, s) = if shape.len() >= 2 {
            (shape[0], shape[1])
        } else {
            (1, shape[0])
        };
        proof {
            assert(b * s >= 0) by (nonlinear_arith)
                requires
                    b >= 0,
                    s >= 0,
            ;
        }
        let n: usize = b * s;
        if body.len() < n * 4 {
            return Err(JobError::TooFewTokens);
        }
        let mut tokens: Vec<u32> = Vec::new();
        let mut i: usize = 0;
        while i < n
            invariant
                i <= n,
                n * 4 <= body@.len() <= usize::MAX,
                are_tokens(tokens@, body@, i as int),
            decreases n - i,
        {
            tokens.push(token_at(body, i * 4));
            i = i + 1;
        }
        return Ok(Job::Generate { batch: b, seq: s, tokens });
    }
    if str_eq(mode, "decode") {
        if body.len() < 4 {
            return Err(JobError::NoToken);
        }
        return Ok(Job::Decode { token: token_at(body, 0) });
    }
    Err(JobError::UnknownMode(mode.to_owned()))
}

/// The body of an answer with a token, and the token in words. The last layers alone choose
/// one.
pub fn token_answer(mode: &str, next: Option<u32>) -> (r: Result<(Vec<u8>, String), JobError>)
    ensures
        match next {
            Some(t) => {
                &&& r is Ok
                &&& (r->Ok_0).0@ == le_bytes(t as int)
                &&& (r->Ok_0).1@ == decimal(t as nat)
            },
            None => r matches Err(JobError::NotLast(m)) && m@ == mode@,
        },
{
    match next {
        Some(t) => {
            let mut body: Vec<u8> = Vec::new();
            push_le(&mut body, t as u64);
            assert(body@ =~= le_bytes(t as int));
            Ok((body, format_number(t as u64)))
        },
        None => Err(JobError::NotLast(mode.to_owned())),
    }
}

/// Three sizes in a row.
pub open spec fn shape_text(batch: nat, seq: nat, width: nat) -> Seq<char> {
    "["@ + decimal(batch) + ","@ + decimal(seq) + ","@ + decimal(width) + "]"@
}

/// The shape of hidden states in an answer.
pub fn answer_shape(batch: usize, seq: usize, width: usize) -> (r: String)
    ensures
        r@ == shape_text(batch as nat, seq as nat, width as nat),
{
    let a = format_number(batch as u64);
    let b = format_number(seq as u64);
    let c = format_number(width as u64);
    let mut r = "[".to_owned();
    r.append(a.as_str());
    r.append(",");
    r.append(b.as_str());
    r.append(",");
    r.append(c.as_str());
    r.append("]");
    r
}

// ── The model ────────────────────────────────────────────────────────────────

/// Which part of the model a server loads.
#[derive(Debug, Clone, Copy, PartialEq, Eq, Structural)]
pub struct ShardPlan {
    pub layer_start: usize,
    pub layer_end: usize,
    /// The first server embeds tokens.
    pub embeds: bool,
    /// The last server computes logits.
    pub has_head: bool,
}

/// Which part of the model a server loads; an end of 0 stands for all layers.
pub fn plan_shard(layer_start: usize, layer_end: usize, num_hidden_layers: usize) -> (p: ShardPlan)
    ensures
        p.layer_start == layer_start,
        p.layer_end == if layer_end == 0 {
            num_hidden_layers
        } else {
            layer_end
        },
        p.embeds == (layer_start == 0),
        p.has_head == (p.layer_end == num_hidden_layers),
{
    let end: usize = if layer_end == 0 {
        num_hidden_layers
    } else {
        layer_end
    };
    ShardPlan {
        layer_start,
        layer_end: end,
        embeds: layer_start == 0,
        has_head: end == num_hidden_layers,
    }
}

impl ShardPlan {
    /// Number of layers.
    pub fn layers_len(&self) -> (n: usize)
        requires
            self.layer_start <= self.layer_end,
        ensures
            n == self.layer_end - self.layer_start,
    {
        self.layer_end - self.layer_start
    }
}

/// Being the name of a file with weights.
pub open spec fn is_weights() -> spec_fn(Seq<char>) -> bool {
    |n: Seq<char>| extension(n) == "safetensors"@
}

/// The files with weights among these, in order.
pub fn weight_files(names: &Vec<String>) -> (r: Vec<String>)
    ensures
        texts(r@) == sorted(keep(texts(names@), is_weights()), text_order()),
{
    let ghost all = texts(names@);
    let mut r: Vec<String> = Vec::new();
    let mut i: usize = 0;
    assert(keep(all.subrange(0, 0), is_weights()) =~= Seq::<Seq<char>>::empty());
    assert(texts(r@) =~= sorted(Seq::<Seq<char>>::empty(), text_order()));
    while i < names.len()
        invariant
            i <= names@.len(),
            all == texts(names@),
            texts(r@) == sorted(keep(all.subrange(0, i as int), is_weights()), text_order()),
        decreases names@.len() - i,
    {
        let name = names[i].as_str();
        proof {
            assert(all[i as int] == name@);
            lemma_keep_step(all, is_weights(), i as int);
        }
        let ghost kept = keep(all.subrange(0, i as int), is_weights());
        let e = extension_of(name);
        if str_eq(e.as_str(), "safetensors") {
            insert_name(&mut r, names[i].clone());
            proof {
                assert(kept.push(name@).drop_last() =~= kept);
            }
        }
        i = i + 1;
    }
    assert(all.subrange(0, all.len() as int) =~= all);
    r
}

// ── Laws ─────────────────────────────────────────────────────────────────────

proof fn lemma_size_part(n: usize)
    ensures
        !decimal(n as nat).contains(','),
        trimmed(decimal(n as nat)) == decimal(n as nat),
        parsed_up_to(decimal(n as nat), usize::MAX as nat) == Some(n as nat),
        decimal(n as nat).len() > 0,
        !is_bracket()(decimal(n as nat)[0]),
        !is_bracket()(decimal(n as nat).last()),
{
    let d = decimal(n as nat);
    lemma_decimal_is_parsed(n as nat);
    assert forall|i: int| 0 <= i < d.len() implies d[i] != ',' && !is_space(#[trigger] d[i]) by {
        assert(is_digit(d[i]));
    }
    assert(is_digit(d[0]) && is_digit(d[d.len() - 1]));
    lemma_trimmed_same(d);
}

/// The sizes that one server states in its answer are the sizes that the next one reads.
pub proof fn law_shape_is_read_back(batch: usize, seq: usize, width: usize)
    ensures
        parsed_parts(
            split_on(
                trimmed_ends(shape_text(batch as nat, seq as nat, width as nat), is_bracket()),
                ',',
            ),
        ) == seq![batch, seq, width],
{
    let a = decimal(batch as nat);
    let b = decimal(seq as nat);
    let c = decimal(width as nat);
    reveal_strlit("[");
    reveal_strlit("]");
    reveal_strlit(",");
    lemma_size_part(batch);
    lemma_size_part(seq);
    lemma_size_part(width);
    let inner = a + seq![','] + b + seq![','] + c;
    let s = shape_text(batch as nat, seq as nat, width as nat);
    assert(","@ =~= seq![',']);
    assert(s =~= seq!['['] + inner + seq![']']);
    let open = s.drop_first();
    assert(open =~= inner + seq![']']);
    assert(open[0] == a[0]);
    assert(open.drop_last() =~= inner);
    assert(inner[0] == a[0]);
    assert(inner.last() == c.last());
    assert(trimmed_ends(inner, is_bracket()) == inner);
    assert(trimmed_ends(open, is_bracket()) == inner);
    assert(trimmed_ends(s, is_bracket()) == inner);
    lemma_split_append(a + seq![','] + b, ',', c);
    lemma_split_append(a, ',', b);
    lemma_split_one(a, ',');
    lemma_split_one(b, ',');
    lemma_split_one(c, ',');
    let parts = split_on(inner, ',');
    assert(parts =~= seq![a, b, c]);
    assert(parts.drop_last() =~= seq![a, b]);
    assert(seq![a, b].drop_last() =~= seq![a]);
    assert(seq![a].drop_last() =~= Seq::<Seq<char>>::empty());
    assert(parsed_parts(Seq::<Seq<char>>::empty()) =~= Seq::<usize>::empty());
    assert(parsed_parts(seq![a]) =~= seq![batch]);
    assert(parsed_parts(seq![a, b]) =~= seq![batch, seq]);
    assert(parsed_parts(parts) =~= seq![batch, seq, width]);
}

/// The tokens that a client wrote, lowest byte first, are the tokens that are run.
pub proof fn law_tokens_are_run_as_they_were_written(
    shape: Seq<usize>,
    body: Seq<u8>,
    tokens: Seq<u32>,
    r: Result<Job, JobError>,
)
    requires
        is_plan("generate"@, shape, body, r),
        shape.len() >= 2,
        tokens.len() == shape[0] * shape[1],
        body.len() == 4 * tokens.len(),
        forall|i: int|
            0 <= i < tokens.len() ==> #[trigger] tokens[i] == body[4 * i] + 256 * body[4 * i + 1]
                + 65536 * body[4 * i + 2] + 16777216 * body[4 * i + 3],
    ensures
        r is Ok,
        r->Ok_0 matches Job::Generate { batch, seq, tokens: run } && batch == shape[0] && seq
            == shape[1] && run@ == tokens,
{
    reveal_strlit("forward");
    reveal_strlit("generate");
    assert("generate"@[0] == 'g' && "forward"@[0] == 'f');
    let run = r->Ok_0->Generate_tokens;
    assert forall|i: int| 0 <= i < tokens.len() implies #[trigger] run@[i] == tokens[i] by {
        assert(run@[i] == le_value(body, i * 4));
        assert(i * 4 == 4 * i);
    }
    assert(run@ =~= tokens);
}

/// Hidden states are run only if there are two bytes for each number of their shape, which is
/// the shape that is run.
pub proof fn law_hidden_states_fit_their_shape(
    shape: Seq<usize>,
    body: Seq<u8>,
    r: Result<Job, JobError>,
)
    requires
        is_plan("forward"@, shape, body, r),
    ensures
        (r is Ok) == (shape.len() >= 3 && body.len() == 2 * (shape[0] * shape[1] * shape[2])),
        r is Ok ==> r->Ok_0 == (Job::Forward { batch: shape[0], seq: shape[1], width: shape[2] }),
{
}

/// A single token is the first four bytes, lowest byte first.
pub proof fn law_one_token_is_decoded(
    shape: Seq<usize>,
    body: Seq<u8>,
    r: Result<Job, JobError>,
)
    requires
        is_plan("decode"@, shape, body, r),
    ensures
        (r is Ok) == (body.len() >= 4),
        body.len() >= 4 ==> (r->Ok_0 is Decode && r->Ok_0->token == body[0] + 256 * body[1] + 65536
            * body[2] + 16777216 * body[3]),
{
    reveal_strlit("forward");
    reveal_strlit("generate");
    reveal_strlit("decode");
    assert("generate"@[0] == 'g' && "forward"@[0] == 'f' && "decode"@[0] == 'd');
}

/// Every file with weights is loaded and no other, and they are loaded in the order of their
/// names.
pub proof fn law_every_weight_file_is_loaded(names: Seq<Seq<char>>, name: Seq<char>)
    ensures
        sorted(keep(names, is_weights()), text_order()).contains(name) == (names.contains(name)
            && extension(name) == "safetensors"@),
        forall|i: int, j: int|
            0 <= i < j < sorted(keep(names, is_weights()), text_order()).len() ==> text_le(
                #[trigger] sorted(keep(names, is_weights()), text_order())[i],
                #[trigger] sorted(keep(names, is_weights()), text_order())[j],
            ),
{
    let kept = keep(names, is_weights());
    law_sorted_names(kept);
    lemma_keep_members(names, is_weights());
    if names.contains(name) && extension(name) == "safetensors"@ {
        let m = choose|m: int| 0 <= m < names.len() && names[m] == name;
        assert(is_weights()(names[m]));
        assert(kept.contains(names[m]));
    }
    if kept.contains(name) {
        let k = choose|k: int| 0 <= k < kept.len() && kept[k] == name;
        assert(is_weights()(kept[k]) && names.contains(kept[k]));
    }
}

/// A request in JSON has the shape that it states, number by number, and otherwise that of one
/// token.
pub proof fn law_stated_shape_is_taken(header: Seq<char>, i: int)
    ensures
        json_get(header, "shape"@) is None ==> json_shape(header) == seq![1usize, 1, 3584],
        json_get(header, "shape"@) is Some && json_items(json_get(header, "shape"@)->0) is Some
            ==> {
            let n = numbers_at(header, "shape"@);
            &&& json_shape(header).len() == n.len()
            &&& 0 <= i < n.len() && n[i] <= usize::MAX ==> json_shape(header)[i] == n[i]
        },
{
}

/// A header that is given is taken as it is.
pub proof fn law_given_header_is_taken(value: &str, default: Seq<char>)
    ensures
        header_or(Some(value), default) == value@,
        header_or(None, default) == default,
{
}

} // verus!
