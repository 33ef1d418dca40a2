//! Generating text with a local model file.
//!
//! The model itself is run by the caller. `F` is the number type of the temperature, `M` a
//! loaded model.
use crate::model_paths::{extension_of, join, stem_of};
use crate::table::Table;
use crate::text::{concat, le, str_eq};
use vstd::prelude::*;

verus! {

use crate::model_paths::{extension, path_join, stem};
use crate::seqs::{
    insert_sorted,
    keep,
    law_sorted_is_ordered_permutation,
    lemma_first_index_is,
    lemma_keep_members,
    lemma_keep_step,
    sorted,
    total_preorder,
};
use crate::text::{joined, lemma_text_le_total, lemma_text_le_transitive, text_le, texts};
use vstd::string::StringExecFns;

#[derive(Debug)]
pub struct GenerateRequest<F> {
    pub model: String,
    pub prompt: String,
    pub temperature: F,
    pub max_tokens: u32,
}

#[derive(Debug)]
pub struct GenerateResponse {
    pub text: String,
    pub tokens_generated: u32,
}

/// The order of texts.
pub open spec fn text_order() -> spec_fn(Seq<char>, Seq<char>) -> bool {
    |a: Seq<char>, b: Seq<char>| text_le(a, b)
}

/// Being the name of a model file.
pub open spec fn is_model() -> spec_fn(Seq<char>) -> bool {
    |n: Seq<char>| extension(n) == "gguf"@
}

/// The models that these files hold: their names without extension, in order.
pub open spec fn models_in(names: Seq<Seq<char>>) -> Seq<Seq<char>> {
    sorted(keep(names, is_model()).map_values(|n: Seq<char>| stem(n)), text_order())
}

/// Puts a name into a sorted list.
pub fn insert_name(r: &mut Vec<String>, name: String)
    ensures
        texts(final(r)@) == insert_sorted(texts(old(r)@), name@, text_order()),
{
    let ghost all = texts(r@);
    let ghost p = |y: Seq<char>| !text_order()(y, name@);
    let mut k: usize = 0;
    while k < r.len() && le(r[k].as_str(), name.as_str())
        invariant
            k <= r@.len(),
            all == texts(r@),
            p == (|y: Seq<char>| !text_order()(y, name@)),
            forall|j: int| 0 <= j < k ==> !p(#[trigger] all[j]),
        decreases r@.len() - k,
    {
        assert(all[k as int] == r@[k as int]@);
        k = k + 1;
    }
    proof {
        if k < r@.len() {
            assert(all[k as int] == r@[k as int]@);
        }
        lemma_first_index_is(all, p, k as int);
    }
    r.insert(k, name);
    assert(texts(r@) =~= all.insert(k as int, name@));
}

/// Lists the models among the files of the models directory.
pub fn list_models(names: &Vec<String>) -> (r: Vec<String>)
    ensures
        texts(r@) == models_in(texts(names@)),
{
    let ghost all = texts(names@);
    let ghost f = |n: Seq<char>| stem(n);
    let mut r: Vec<String> = Vec::new();
    let mut i: usize = 0;
    assert(keep(all.subrange(0, 0), is_model()).map_values(f) =~= Seq::<Seq<char>>::empty());
    assert(texts(r@) =~= sorted(Seq::<Seq<char>>::empty(), text_order()));
    while i < names.len()
        invariant
            i <= names@.len(),
            all == texts(names@),
            f == (|n: Seq<char>| stem(n)),
            texts(r@) == sorted(
                keep(all.subrange(0, i as int), is_model()).map_values(f),
                text_order(),
            ),
        decreases names@.len() - i,
    {
        let name = names[i].as_str();
        proof {
            assert(all[i as int] == name@);
            lemma_keep_step(all, is_model(), i as int);
        }
        let ghost kept = keep(all.subrange(0, i as int), is_model());
        let e = extension_of(name);
        if str_eq(e.as_str(), "gguf") {
            insert_name(&mut r, stem_of(name));
            proof {
                let next = kept.push(name@).map_values(f);
                assert(next.drop_last() =~= kept.map_values(f));
                assert(next.last() == stem(name@));
            }
        }
        i = i + 1;
    }
    assert(all.subrange(0, all.len() as int) =~= all);
    r
}

/// The file of a model.
pub fn model_path(models_dir: &str, model: &str) -> (r: String)
    ensures
        r@ == path_join(models_dir@, model@ + ".gguf"@),
{
    let file = concat(model, ".gguf");
    join(models_dir, file.as_str())
}

/// Models that were loaded; they stay.
#[derive(Debug)]
pub struct ModelCache<M> {
    pub models: Table<M>,
}

impl<M> ModelCache<M> {
    pub open spec fn wf(self) -> bool {
        self.models.wf()
    }

    pub fn new() -> (c: Self)
        ensures
            c.wf(),
            c.models@ == Map::<Seq<char>, M>::empty(),
    {
        ModelCache { models: Table::new() }
    }

    /// A model that was loaded before.
    pub fn get(&self, name: &str) -> (r: Option<&M>)
        ensures
            match r {
                Some(m) => self.models@.dom().contains(name@) && *m == self.models@[name@],
                None => !self.models@.dom().contains(name@),
            },
    {
        self.models.get(name)
    }

    /// Keeps a model.
    pub fn put(&mut self, name: String, model: M)
        requires
            old(self).wf(),
        ensures
            final(self).wf(),
            final(self).models@ == old(self).models@.insert(name@, model),
    {
        self.models.insert(name, model);
    }
}

/// A text that is being generated.
#[derive(Debug)]
pub struct Generation {
    pub text: String,
    pub tokens_generated: u32,
    pub max_tokens: u32,
    /// Position of the next token.
    pub position: usize,
}

/// What comes next in a generation.
#[derive(Debug, Clone, Copy, PartialEq, Eq, Structural)]
pub enum GenerationStep {
    /// Feed the token at this position and sample again.
    Decode { position: usize },
    Stop,
}

/// Whether a sampled token was taken so.
pub open spec fn is_token_taken(
    pre: Generation,
    is_end: bool,
    piece: Seq<char>,
    post: Generation,
    r: GenerationStep,
) -> bool {
    &&& post.max_tokens == if is_end {
        pre.tokens_generated
    } else {
        pre.max_tokens
    }
    &&& if is_end {
        &&& r == GenerationStep::Stop
        &&& post.text == pre.text
        &&& post.tokens_generated == pre.tokens_generated
        &&& post.position == pre.position
    } else {
        &&& r == (GenerationStep::Decode { position: pre.position })
        &&& post.text@ == pre.text@ + piece
        &&& post.tokens_generated == pre.tokens_generated + 1
        &&& post.position == pre.position + 1
    }
}

impl Generation {
    pub open spec fn wf(self) -> bool {
        self.tokens_generated <= self.max_tokens
    }

    /// Whether another token is sampled.
    pub open spec fn goes_on(self) -> bool {
        self.tokens_generated < self.max_tokens
    }

    /// A generation after a prompt of this many tokens.
    pub fn new(prompt_tokens: usize, max_tokens: u32) -> (g: Self)
        ensures
            g.wf(),
            g.text@.len() == 0,
            g.tokens_generated == 0,
            g.max_tokens == if prompt_tokens == 0 {
                0
            } else {
                max_tokens
            },
            g.position == prompt_tokens,
    {
        Generation {
            text: String::new(),
            tokens_generated: 0,
            max_tokens: if prompt_tokens == 0 {
                0
            } else {
                max_tokens
            },
            position: prompt_tokens,
        }
    }

    /// Whether another token is sampled.
    pub fn wants_token(&self) -> (r: bool)
        ensures
            r == self.goes_on(),
    {
        self.tokens_generated < self.max_tokens
    }

    /// A token was sampled: the end of the text stops the generation, another one adds its
    /// piece of text.
    pub fn on_token(&mut self, is_end: bool, piece: &str) -> (r: GenerationStep)
        requires
            old(self).wf(),
            old(self).goes_on(),
            old(self).position < usize::MAX,
        ensures
            final(self).wf(),
            is_token_taken(*old(self), is_end, piece@, *final(self), r),
    {
        if is_end {
            self.max_tokens = self.tokens_generated;
            return GenerationStep::Stop;
        }
        let position: usize = self.position;
        self.text.append(piece);
        self.tokens_generated = self.tokens_generated + 1;
        self.position = position + 1;
        GenerationStep::Decode { position }
    }

    /// What was generated.
    pub fn finish(self) -> (r: GenerateResponse)
        ensures
            r.text == self.text,
            r.tokens_generated == self.tokens_generated,
    {
        GenerateResponse { text: self.text, tokens_generated: self.tokens_generated }
    }
}

// ── Laws ─────────────────────────────────────────────────────────────────────

proof fn lemma_text_order()
    ensures
        total_preorder(text_order()),
{
    assert forall|a: Seq<char>, b: Seq<char>| #[trigger] text_order()(a, b) || text_order()(
        b,
        a,
    ) by {
        lemma_text_le_total(a, b);
    }
    assert forall|a: Seq<char>, b: Seq<char>, c: Seq<char>| #[trigger]
        text_order()(a, b) && #[trigger] text_order()(b, c) implies text_order()(a, c) by {
        lemma_text_le_transitive(a, b, c);
    }
}

/// Sorting names leaves every name and adds none, and puts them in order.
pub proof fn law_sorted_names(names: Seq<Seq<char>>)
    ensures
        sorted(names, text_order()).len() == names.len(),
        forall|name: Seq<char>| #[trigger]
            sorted(names, text_order()).contains(name) == names.contains(name),
        forall|i: int, j: int|
            0 <= i < j < names.len() ==> text_le(
                #[trigger] sorted(names, text_order())[i],
                #[trigger] sorted(names, text_order())[j],
            ),
{
    let s = sorted(names, text_order());
    lemma_text_order();
    law_sorted_is_ordered_permutation(names, text_order());
    s.to_multiset_ensures();
    names.to_multiset_ensures();
    assert forall|name: Seq<char>| #[trigger] s.contains(name) == names.contains(name) by {
        assert(s.contains(name) == (s.to_multiset().count(name) > 0));
        assert(names.contains(name) == (names.to_multiset().count(name) > 0));
    }
    assert forall|i: int, j: int| 0 <= i < j < names.len() implies text_le(
        #[trigger] s[i],
        #[trigger] s[j],
    ) by {
        assert(text_order()(s[i], s[j]));
    }
}

/// A model is listed exactly if there is a file of it.
pub proof fn law_every_model_file_is_listed(names: Seq<Seq<char>>, model: Seq<char>)
    ensures
        models_in(names).contains(model) == (exists|i: int|
            0 <= i < names.len() && extension(#[trigger] names[i]) == "gguf"@ && stem(names[i])
                == model),
{
    let kept = keep(names, is_model());
    let f = |n: Seq<char>| stem(n);
    let stems = kept.map_values(f);
    lemma_keep_members(names, is_model());
    law_sorted_names(stems);
    assert(models_in(names).contains(model) == stems.contains(model));
    if stems.contains(model) {
        let k = choose|k: int| 0 <= k < stems.len() && stems[k] == model;
        assert(is_model()(kept[k]) && names.contains(kept[k]));
        let i = choose|i: int| 0 <= i < names.len() && names[i] == kept[k];
        assert(extension(names[i]) == "gguf"@ && stem(names[i]) == model);
    }
    if exists|i: int|
        0 <= i < names.len() && extension(#[trigger] names[i]) == "gguf"@ && stem(names[i])
            == model {
        let i = choose|i: int|
            0 <= i < names.len() && extension(#[trigger] names[i]) == "gguf"@ && stem(names[i])
                == model;
        assert(is_model()(names[i]));
        assert(kept.contains(names[i]));
        let k = choose|k: int| 0 <= k < kept.len() && kept[k] == names[i];
        assert(stems[k] == model);
    }
}

/// Whether these are the states of one generation, each made by the token before it.
pub open spec fn is_generation(
    states: Seq<Generation>,
    pieces: Seq<Seq<char>>,
    steps: Seq<GenerationStep>,
) -> bool {
    &&& states.len() == pieces.len() + 1
    &&& steps.len() == pieces.len()
    &&& forall|i: int|
        0 <= i < pieces.len() ==> is_token_taken(
            states[i],
            false,
            #[trigger] pieces[i],
            states[i + 1],
            steps[i],
        )
}

/// The generated text is all pieces in the order of their tokens, which are counted one by one
/// and fed at consecutive positions.
pub proof fn law_text_is_every_piece(
    states: Seq<Generation>,
    pieces: Seq<Seq<char>>,
    steps: Seq<GenerationStep>,
)
    requires
        is_generation(states, pieces, steps),
    ensures
        states.last().text@ == states[0].text@ + joined(pieces, Seq::empty()),
        states.last().tokens_generated == states[0].tokens_generated + pieces.len(),
        states.last().position == states[0].position + pieces.len(),
        states.last().max_tokens == states[0].max_tokens,
        forall|i: int|
            0 <= i < steps.len() ==> #[trigger] steps[i] == (GenerationStep::Decode {
                position: (states[0].position + i) as usize,
            }),
    decreases pieces.len(),
{
    let n = pieces.len() as int;
    if n > 0 {
        let p = pieces.drop_last();
        let s = states.drop_last();
        let t = steps.drop_last();
        assert forall|i: int| 0 <= i < p.len() implies is_token_taken(
            s[i],
            false,
            #[trigger] p[i],
            s[i + 1],
            t[i],
        ) by {
            assert(p[i] == pieces[i]);
        }
        law_text_is_every_piece(s, p, t);
        assert(is_token_taken(states[n - 1], false, pieces[n - 1], states[n], steps[n - 1]));
        assert(s.last() == states[n - 1]);
        let none = Seq::<char>::empty();
        if n > 1 {
            assert(joined(pieces, none) == joined(p, none) + none + pieces.last());
        }
        assert(states[0].text@ + joined(p, none) + pieces.last() =~= states[0].text@ + joined(
            pieces,
            none,
        ));
        assert forall|i: int| 0 <= i < steps.len() implies #[trigger] steps[i] == (
        GenerationStep::Decode { position: (states[0].position + i) as usize }) by {
            if i < n - 1 {
                assert(t[i] == steps[i]);
            }
        }
    } else {
        assert(states[0].text@ + joined(pieces, Seq::empty()) =~= states[0].text@);
    }
}

/// The token that ends the text adds nothing, and no further token is sampled.
pub proof fn law_end_token_stops(
    pre: Generation,
    piece: Seq<char>,
    post: Generation,
    r: GenerationStep,
)
    requires
        is_token_taken(pre, true, piece, post, r),
    ensures
        r is Stop,
        !post.goes_on(),
        post.text@ == pre.text@,
        post.tokens_generated == pre.tokens_generated,
{
}

/// The models are listed in order, one for each model file.
pub proof fn law_models_are_listed_in_order(names: Seq<Seq<char>>)
    ensures
        models_in(names).len() == keep(names, |n: Seq<char>| extension(n) == "gguf"@).len(),
        forall|i: int, j: int|
            0 <= i < j < models_in(names).len() ==> text_le(
                #[trigger] models_in(names)[i],
                #[trigger] models_in(names)[j],
            ),
{
    let f = |n: Seq<char>| stem(n);
    law_sorted_names(keep(names, is_model()).map_values(f));
    lemma_same_files(names);
}

proof fn lemma_same_files(names: Seq<Seq<char>>)
    ensures
        keep(names, is_model()).len() == keep(
            names,
            |n: Seq<char>| extension(n) == "gguf"@,
        ).len(),
    decreases names.len(),
{
    if names.len() > 0 {
        lemma_same_files(names.drop_last());
    }
}

} // verus!
