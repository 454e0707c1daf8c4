//! The engine: from a loaded model to streamed text.
//!
//! Reading files is left to the caller, who hands over what they hold. A
//! generation is a state of its own: `pick` chooses the next token, `advance`
//! runs the model on it.
use std::sync::Arc;
use vstd::prelude::*;
use vstd::slice::slice_to_vec;
use vstd::string::*;

use crate::backend::{Arithmetic, Backend};
use crate::config::{read_ids, Gemma4Config};
use crate::float::{F32, F64, ONE_F32};
use crate::json::{Json, Tree};
use crate::kvcache::Memory;
use crate::model::{Gemma4Model, Net};
use crate::sampler::{sample, Rng, SampleOpts, Sampling};
use crate::template::{apply_chat_template, fold_system_prompt, Message};
use crate::tokenizer::stream::Stream;
use crate::tokenizer::{DecoderState, Lexicon, Tokenizer};
use crate::weights::{ModelWeights, WeightSource};

verus! {

// --- loading -----------------------------------------------------------------------------------

/// How far loading has come.
#[derive(Clone, Debug)]
pub enum LoadStage {
    Config,
    Tokenizer,
    /// Weights handed to the backend, of how many.
    Weights { done: usize, total: usize },
    Ready,
}

/// Ids with others added that are not yet among them.
pub open spec fn joined_ids(ids: Seq<u32>, more: Seq<u32>) -> Seq<u32>
    decreases more.len(),
{
    if more.len() == 0 {
        ids
    } else {
        let before = joined_ids(ids, more.drop_last());
        if before.contains(more.last()) {
            before
        } else {
            before.push(more.last())
        }
    }
}

/// The end-of-text ids that a generation configuration adds.
pub open spec fn extra_eos(generation: Option<Tree>) -> Seq<u32> {
    match generation {
        Some(g) => match g.field("eos_token_id"@) {
            Some(v) => match crate::config::id_list(v) {
                Some(ids) => ids,
                None => Seq::empty(),
            },
            None => Seq::empty(),
        },
        None => Seq::empty(),
    }
}

/// Every id of either list is in the joined one, and no other.
pub proof fn joined_ids_are_both(ids: Seq<u32>, more: Seq<u32>, id: u32)
    ensures
        joined_ids(ids, more).contains(id) <==> ids.contains(id) || more.contains(id),
    decreases more.len(),
{
    if more.len() > 0 {
        let m = more.drop_last();
        joined_ids_are_both(ids, m, id);
        let before = joined_ids(ids, m);
        if m.contains(id) {
            let k = choose|k: int| 0 <= k < m.len() && m[k] == id;
            assert(more[k] == id);
        }
        if more.contains(id) {
            let k = choose|k: int| 0 <= k < more.len() && more[k] == id;
            if k < m.len() {
                assert(m[k] == id);
            } else {
                assert(id == more.last());
                if !before.contains(id) {
                    assert(before.push(id)[before.len() as int] == id);
                }
            }
        }
        if before.contains(id) {
            let k = choose|k: int| 0 <= k < before.len() && before[k] == id;
            assert(before.push(more.last())[k] == id);
        }
        if before.push(more.last()).contains(id) && !before.contains(id) {
            let all = before.push(more.last());
            let k = choose|k: int| 0 <= k < all.len() && all[k] == id;
            if k < before.len() {
                assert(before[k] == id);
            }
            assert(id == more.last());
            assert(more[more.len() - 1] == id);
        }
    }
}

fn has_id(ids: &Vec<u32>, id: u32) -> (r: bool)
    ensures
        r == ids@.contains(id),
{
    let len: usize = ids.len();
    let mut i: usize = 0;
    while i < len
        invariant
            len == ids@.len(),
            i <= len,
            forall|k: int| 0 <= k < i ==> #[trigger] ids@[k] != id,
        decreases len - i,
    {
        if ids[i] == id {
            return true;
        }
        i = i + 1;
    }
    false
}

/// The configuration, with the end-of-text ids of the generation configuration
/// added to its own: a checkpoint may stop on ids that only the latter lists.
pub fn read_config(raw: &Json, generation: Option<&Json>) -> (r: Gemma4Config)
    ensures
        r.wf(),
        r.is_from_but_eos(raw@),
        r.eos_token_ids@ == joined_ids(
            crate::config::eos_of(crate::config::text_part(raw@)),
            extra_eos(crate::json::shown(generation)),
        ),
{
    let mut config = Gemma4Config::from_json(raw);
    let ghost ids = config.eos_token_ids@;
    let ghost extra = extra_eos(crate::json::shown(generation));
    if let Some(g) = generation {
        if let Some(v) = g.get("eos_token_id") {
            if let Some(more) = read_ids(v) {
                let len: usize = more.len();
                let mut i: usize = 0;
                proof {
                    assert(more@.take(0) =~= Seq::empty());
                }
                while i < len
                    invariant
                        len == more@.len(),
                        i <= len,
                        config.wf(),
                        config.is_from_but_eos(raw@),
                        config.eos_token_ids@ == joined_ids(ids, more@.take(i as int)),
                    decreases len - i,
                {
                    proof {
                        assert(more@.take(i + 1).drop_last() =~= more@.take(i as int));
                        assert(more@.take(i + 1).last() == more@[i as int]);
                    }
                    let e: u32 = more[i];
                    if !has_id(&config.eos_token_ids, e) {
                        config.eos_token_ids.push(e);
                    }
                    i = i + 1;
                }
                proof {
                    assert(more@.take(len as int) =~= more@);
                    assert(more@ == extra);
                }
            }
        }
    }
    config
}

/// The tokenizer, with the configuration's start and end-of-text ids.
pub fn read_tokenizer(json: &Json, config: &Gemma4Config) -> (r: Result<Tokenizer, String>)
    requires
        crate::tokenizer::load::merges_suffice(json@),
    ensures
        r matches Ok(t) ==> t.wf() && crate::tokenizer::load::lexicon_of(
            json@,
            Some(config.bos_token_id),
            Some(config.eos_token_ids@),
        ) == Ok::<Lexicon, Seq<char>>(t.lexicon()),
        r matches Err(e) ==> crate::tokenizer::load::lexicon_of(
            json@,
            Some(config.bos_token_id),
            Some(config.eos_token_ids@),
        ) == Err::<Lexicon, Seq<char>>(e@),
{
    Tokenizer::from_json(json, Some(config.bos_token_id), Some(config.eos_token_ids.as_slice()))
}

// --- generating --------------------------------------------------------------------------------

#[derive(Clone, Debug)]
pub struct GenerateOpts {
    pub max_new_tokens: usize,
    pub temperature: F32,
    pub top_k: usize,
    pub top_p: F32,
    pub repetition_penalty: F32,
    pub seed: Option<u64>,
}

/// Single-precision 0.95.
pub const DEFAULT_TOP_P: u32 = 0x3f73_3333;

impl Default for GenerateOpts {
    fn default() -> (r: Self)
        ensures
            r.max_new_tokens == 512,
            r.temperature == F32(ONE_F32),
            r.top_k == 64,
            r.top_p == F32(DEFAULT_TOP_P),
            r.repetition_penalty == F32(ONE_F32),
            r.seed is None,
    {
        GenerateOpts {
            max_new_tokens: 512,
            temperature: F32(ONE_F32),
            top_k: 64,
            top_p: F32(DEFAULT_TOP_P),
            repetition_penalty: F32(ONE_F32),
            seed: None,
        }
    }
}

/// One generated token.
#[derive(Clone, Debug)]
pub struct Step {
    pub token_id: u32,
    /// The raw piece text for this token (specials included).
    pub token: String,
    /// Text that the token added, specials left out.
    pub delta: String,
    /// All text so far, specials left out.
    pub text: String,
}

/// The piece of a token; an id without one has no text.
pub open spec fn raw_text(lex: Lexicon, id: u32) -> Seq<char> {
    match lex.piece(id) {
        Some(p) => p,
        None => Seq::empty(),
    }
}

/// How many of the last tokens are penalized.
pub const RECENT: usize = 64;

/// The last tokens after one more.
pub open spec fn remember(recent: Seq<u32>, id: u32) -> Seq<u32> {
    let all = recent.push(id);
    if all.len() > RECENT {
        all.drop_first()
    } else {
        all
    }
}

/// The number that a generator draws next.
pub open spec fn draw_of(state: u64) -> F64 {
    F64::spec_of_scaled((crate::sampler::rng_output(crate::sampler::rng_next_state(state)) >> 11) as int, -53)
}

/// A run of generation: what has been generated, and the logits of what comes
/// next.
pub struct Generation {
    pub eos: Vec<u32>,
    pub opts: GenerateOpts,
    pub rng: Rng,
    pub logits: Option<Vec<F32>>,
    pub pos: u32,
    pub step: usize,
    pub text_dec: DecoderState,
    pub recent: Vec<u32>,
    pub prompt_tokens: usize,
}

impl Generation {
    /// Whether repeated tokens are penalized.
    pub open spec fn penalizes(self) -> bool {
        !self.opts.repetition_penalty.spec_same(F32(ONE_F32))
    }

    /// How the next token is sampled.
    pub open spec fn sampling(self) -> Sampling {
        Sampling {
            temperature: self.opts.temperature,
            top_k: self.opts.top_k,
            top_p: self.opts.top_p,
            repetition_penalty: self.opts.repetition_penalty,
            recent_tokens: if self.penalizes() {
                Some(self.recent@)
            } else {
                None
            },
        }
    }

    /// Whether there is a token to come, unless it is an end of text.
    pub open spec fn goes_on(self) -> bool {
        self.step < self.opts.max_new_tokens && self.logits is Some
    }

    /// Whether the next token can be sampled: there are logits, and where
    /// candidates are ranked each of them is a number.
    pub open spec fn can_sample(self) -> bool {
        let l = self.logits->0@;
        let o = self.sampling();
        &&& o.is_greedy() || l.len() > 0
        &&& crate::sampler::is_filtered(o) ==> crate::sampler::all_numbers(crate::sampler::penalized(l, o), l.len())
    }

    /// The token that comes next.
    pub open spec fn is_next(self, exp: spec_fn(F32) -> F32, id: u32) -> bool {
        let o = self.sampling();
        let l = crate::sampler::penalized(self.logits->0@, o);
        if o.is_greedy() {
            id == crate::sampler::largest(l).0 as u32
        } else {
            crate::sampler::is_drawn(exp, l, o, draw_of(self.rng.0), id)
        }
    }

    /// Whether a token is one of those that have logits.
    pub open spec fn is_in_reach(self, id: u32) -> bool {
        0 < self.logits->0@.len() <= u32::MAX ==> id < self.logits->0@.len()
    }

    /// The generator's state after the next token is sampled.
    pub open spec fn rng_after(self) -> u64 {
        if self.sampling().is_greedy() {
            self.rng.0
        } else {
            crate::sampler::rng_next_state(self.rng.0)
        }
    }

    /// Start from the logits that follow a prompt. `fallback` draws where the
    /// options give no seed.
    pub fn start(prompt_tokens: u32, eos: Vec<u32>, opts: GenerateOpts, fallback: Rng, logits: Vec<F32>) -> (r: Generation)
        ensures
            r.eos == eos,
            r.opts == opts,
            r.rng.0 == match opts.seed {
                Some(s) => s,
                None => fallback.0,
            },
            r.logits == Some(logits),
            r.pos == prompt_tokens,
            r.step == 0,
            r.text_dec@ == Stream::fresh(true),
            r.recent@.len() == 0,
            r.prompt_tokens == prompt_tokens,
    {
        let rng = match opts.seed {
            Some(s) => Rng::new(s),
            None => fallback,
        };
        Generation {
            eos,
            opts,
            rng,
            logits: Some(logits),
            pos: prompt_tokens,
            step: 0,
            text_dec: DecoderState::new(true),
            recent: Vec::new(),
            prompt_tokens: prompt_tokens as usize,
        }
    }

    /// Whether the next token can be sampled.
    pub fn is_ready(&self) -> (r: bool)
        ensures
            r == (self.goes_on() ==> self.can_sample()),
    {
        if self.step >= self.opts.max_new_tokens {
            return true;
        }
        match &self.logits {
            Some(l) => {
                let opts = self.sample_opts();
                crate::sampler::can_sample(l.as_slice(), &opts)
            },
            None => true,
        }
    }

    fn sample_opts(&self) -> (r: SampleOpts<'_>)
        ensures
            r@ == self.sampling(),
    {
        let recent_tokens = if self.opts.repetition_penalty.same(F32(ONE_F32)) {
            None
        } else {
            Some(self.recent.as_slice())
        };
        SampleOpts {
            temperature: self.opts.temperature,
            top_k: self.opts.top_k,
            top_p: self.opts.top_p,
            repetition_penalty: self.opts.repetition_penalty,
            recent_tokens,
        }
    }

    /// Choose the next token. Nothing comes of an end of text, of the last
    /// allowed token, or where the last token was not yet run.
    pub fn pick<E: Fn(F32) -> F32>(&mut self, tokenizer: &Tokenizer, exp: &E) -> (r: Option<Step>)
        requires
            crate::sampler::is_function(*exp),
            old(self).goes_on() ==> old(self).can_sample(),
        ensures
            !old(self).goes_on() ==> r is None && *final(self) == *old(self),
            old(self).goes_on() ==> exists|id: u32| #[trigger]
                old(self).is_next(crate::sampler::values_of(*exp), id) && old(self).picked(*final(self), r, tokenizer.lexicon(), id),
    {
        if self.step >= self.opts.max_new_tokens {
            return None;
        }
        let mut taken: Option<Vec<F32>> = None;
        std::mem::swap(&mut taken, &mut self.logits);
        let logits = match taken {
            Some(l) => l,
            None => {
                return None;
            },
        };
        let penalizes = !self.opts.repetition_penalty.same(F32(ONE_F32));
        let mut rng = Rng::new(self.rng.0);
        let draw = rng.next_f64();
        let next: u32 = {
            let opts = self.sample_opts();
            let give = || -> (d: F64)
                ensures
                    d == draw,
            {
                draw
            };
            sample(logits.as_slice(), &opts, give, exp)
        };
        if !crate::sampler::greedy_opts(self.opts.temperature) {
            self.rng = rng;
        }
        proof {
            assert(old(self).is_next(crate::sampler::values_of(*exp), next));
        }
        if has_id(&self.eos, next) {
            return None;
        }
        if penalizes {
            let ghost before = self.recent@;
            self.recent.push(next);
            let len: usize = self.recent.len();
            if len > RECENT {
                let _gone = self.recent.remove(0);
            }
            proof {
                assert(self.recent@ =~= remember(before, next));
            }
        }
        let token = match tokenizer.piece(next) {
            Some(p) => p.to_owned(),
            None => String::new(),
        };
        let delta = self.text_dec.push(tokenizer, next);
        let text = self.text_dec.text.as_str().to_owned();
        Some(Step { token_id: next, token, delta, text })
    }

    /// How choosing token `id` changes a run, and what comes of it.
    pub open spec fn picked(self, after: Generation, r: Option<Step>, lex: Lexicon, id: u32) -> bool {
        &&& after.eos == self.eos
        &&& after.opts == self.opts
        &&& after.rng.0 == self.rng_after()
        &&& after.logits is None
        &&& after.pos == self.pos
        &&& after.step == self.step
        &&& after.prompt_tokens == self.prompt_tokens
        &&& if self.eos@.contains(id) {
            &&& r is None
            &&& after.recent == self.recent
            &&& after.text_dec == self.text_dec
        } else {
            &&& after.recent@ == if self.penalizes() {
                remember(self.recent@, id)
            } else {
                self.recent@
            }
            &&& after.text_dec@ == self.text_dec@.pushed(lex, id)
            &&& r matches Some(s) && {
                &&& s.token_id == id
                &&& self.is_in_reach(id)
                &&& s.token@ == raw_text(lex, id)
                &&& s.delta@ == self.text_dec@.delta(lex, id)
                &&& s.text@ == after.text_dec@.text
            }
        }
    }

    /// Run the model on the token that was chosen.
    pub fn advance<B: Backend, W: WeightSource<B>>(&mut self, model: &mut Gemma4Model<B, W>, id: u32)
        requires
            old(model).wf(),
            old(model).is_complete(),
            old(model).net().fits(),
            old(model).net().owns(old(model).cache.memory()),
            old(model).net().takes(old(model).cache.memory(), seq![id], seq![old(self).pos]),
            old(self).pos < u32::MAX,
            old(self).step < usize::MAX,
        ensures
            final(self).logits matches Some(l) && l@ == old(model).net().logits(
                old(model).backend.arithmetic(),
                old(model).cache.memory(),
                seq![id],
                seq![old(self).pos],
            ) && l@.len() == old(model).net().top.lm_head.dims[0],
            final(self).pos == old(self).pos + 1,
            final(self).step == old(self).step + 1,
            final(self).eos == old(self).eos,
            final(self).opts == old(self).opts,
            final(self).rng == old(self).rng,
            final(self).text_dec == old(self).text_dec,
            final(self).recent == old(self).recent,
            final(self).prompt_tokens == old(self).prompt_tokens,
            final(model).cache.memory() == old(model).net().remembered(
                old(model).backend.arithmetic(),
                old(model).cache.memory(),
                seq![id],
                seq![old(self).pos],
            ),
            final(model).wf(),
            final(model).is_complete(),
            final(model).net() == old(model).net(),
            final(model).net().owns(final(model).cache.memory()),
            final(model).backend == old(model).backend,
    {
        let ids: [u32; 1] = [id];
        let positions: [u32; 1] = [self.pos];
        proof {
            assert(ids@ =~= seq![id]);
            assert(positions@ =~= seq![self.pos]);
        }
        let logits = model.forward(&ids, &positions);
        self.logits = Some(logits);
        self.pos = self.pos + 1;
        self.step = self.step + 1;
    }
}

impl Generation {
    /// How the next token changes a run, whose model remembers `m` before and
    /// `kept` afterwards, and what comes of it.
    pub open spec fn stepped(
        self,
        after: Generation,
        r: Option<Step>,
        net: Net,
        a: Arithmetic,
        m: Memory,
        kept: Memory,
        lex: Lexicon,
        exp: spec_fn(F32) -> F32,
    ) -> bool {
        &&& after.eos == self.eos
        &&& after.opts == self.opts
        &&& after.prompt_tokens == self.prompt_tokens
        &&& match r {
            None => {
                &&& kept == m
                &&& !after.goes_on()
                &&& !self.goes_on() ==> after == self
                &&& self.goes_on() ==> {
                    &&& exists|id: u32| #[trigger] self.is_next(exp, id) && self.eos@.contains(id)
                    &&& after.logits is None
                    &&& after.rng.0 == self.rng_after()
                    &&& after.step == self.step
                    &&& after.pos == self.pos
                    &&& after.recent == self.recent
                    &&& after.text_dec == self.text_dec
                }
            },
            Some(s) => {
                let (ids, p) = (seq![s.token_id], seq![self.pos]);
                &&& self.goes_on()
                &&& self.is_next(exp, s.token_id)
                &&& self.is_in_reach(s.token_id)
                &&& !self.eos@.contains(s.token_id)
                &&& s.token@ == raw_text(lex, s.token_id)
                &&& s.delta@ == self.text_dec@.delta(lex, s.token_id)
                &&& s.text@ == after.text_dec@.text
                &&& after.text_dec@ == self.text_dec@.pushed(lex, s.token_id)
                &&& after.recent@ == if self.penalizes() {
                    remember(self.recent@, s.token_id)
                } else {
                    self.recent@
                }
                &&& after.rng.0 == self.rng_after()
                &&& after.step == self.step + 1
                &&& after.pos == self.pos + 1
                &&& after.logits matches Some(l) && l@ == net.logits(a, m, ids, p) && l@.len() == net.top.lm_head.dims[0]
                &&& kept == net.remembered(a, m, ids, p)
            },
        }
    }

    /// The next token: choose it, then run the model on it.
    pub fn next<B: Backend, W: WeightSource<B>, E: Fn(F32) -> F32>(
        &mut self,
        model: &mut Gemma4Model<B, W>,
        tokenizer: &Tokenizer,
        exp: &E,
    ) -> (r: Option<Step>)
        requires
            crate::sampler::is_function(*exp),
            old(self).goes_on() ==> old(self).can_sample(),
            old(model).wf(),
            old(model).is_complete(),
            old(model).net().fits(),
            old(model).net().owns(old(model).cache.memory()),
            forall|id: u32| #[trigger]
                old(self).is_next(crate::sampler::values_of(*exp), id) && !old(self).eos@.contains(id)
                    ==> old(model).net().takes(old(model).cache.memory(), seq![id], seq![old(self).pos]),
            old(self).pos < u32::MAX,
        ensures
            old(self).stepped(
                *final(self),
                r,
                old(model).net(),
                old(model).backend.arithmetic(),
                old(model).cache.memory(),
                final(model).cache.memory(),
                tokenizer.lexicon(),
                crate::sampler::values_of(*exp),
            ),
            r is None ==> *final(model) == *old(model),
            final(model).wf(),
            final(model).is_complete(),
            final(model).net() == old(model).net(),
            final(model).net().owns(final(model).cache.memory()),
            final(model).backend == old(model).backend,
    {
        match self.pick(tokenizer, exp) {
            Some(s) => {
                self.advance(model, s.token_id);
                Some(s)
            },
            None => None,
        }
    }
}

/// A run has one next token: seed, options and logits decide it.
pub proof fn one_next_token(g: Generation, exp: spec_fn(F32) -> F32, a: u32, b: u32)
    requires
        g.is_next(exp, a),
        g.is_next(exp, b),
    ensures
        a == b,
{
    let o = g.sampling();
    if !o.is_greedy() {
        crate::sampler::draw_decides(exp, crate::sampler::penalized(g.logits->0@, o), o, draw_of(g.rng.0), a, b);
    }
}

/// Positions `0, 1, ..`.
pub open spec fn from_zero(n: nat) -> Seq<u32> {
    Seq::new(n, |i: int| i as u32)
}

/// The positions of a prompt's tokens.
pub fn prompt_positions(n: u32) -> (r: Vec<u32>)
    ensures
        r@ == from_zero(n as nat),
{
    let mut v: Vec<u32> = Vec::new();
    let mut i: u32 = 0;
    while i < n
        invariant
            i <= n,
            v@ == from_zero(i as nat),
        decreases n - i,
    {
        v.push(i);
        i = i + 1;
        proof {
            assert(v@ =~= from_zero(i as nat));
        }
    }
    v
}

/// Have a weight source load one of the weights that a model asks for, ahead of
/// the first pass.
pub fn preload<B: Backend, W: WeightSource<B>>(weights: &mut W, names: &[String], i: usize) -> (r: LoadStage)
    requires
        i < names@.len(),
        old(weights).answers(names@[i as int]@),
    ensures
        r == (LoadStage::Weights { done: (i + 1) as usize, total: names@.len() as usize }),
        crate::model::same_source(*final(weights), *old(weights)),
        final(weights).is_loaded(names@[i as int]@),
        forall|n: Seq<char>| old(weights).is_loaded(n) ==> #[trigger] final(weights).is_loaded(n),
{
    let total: usize = names.len();
    let _loaded = weights.get(names[i].as_str());
    LoadStage::Weights { done: i + 1, total }
}

/// A loaded model with its tokenizer.
pub struct Gemma4Mobile<'a, B: Backend> {
    pub config: Arc<Gemma4Config>,
    pub tokenizer: Arc<Tokenizer>,
    pub model: Gemma4Model<B, ModelWeights<'a, B>>,
    pub backend: Arc<B>,
}

impl<'a, B: Backend> Gemma4Mobile<'a, B> {
    /// The model is whole, and text can be encoded.
    pub open spec fn wf(self) -> bool {
        &&& self.model.wf()
        &&& self.model.is_complete()
        &&& self.model.net().fits()
        &&& self.model.net().owns(self.model.cache.memory())
        &&& self.tokenizer.wf()
        &&& !self.tokenizer.specials@.contains_key(Seq::empty())
    }

    /// Put an engine together.
    pub fn new(config: Arc<Gemma4Config>, tokenizer: Arc<Tokenizer>, backend: Arc<B>, weights: ModelWeights<'a, B>) -> (r: Self)
        requires
            config.wf(),
        ensures
            r.config == config,
            r.tokenizer == tokenizer,
            r.backend == backend,
            r.model.wf(),
            r.model.config == config,
            r.model.backend == backend,
            r.model.weights == weights,
            r.model.cache.memory() == Memory::blank(config.num_hidden_layers as nat),
            r.model.net().owns(r.model.cache.memory()),
    {
        let model = Gemma4Model::new(config.clone(), backend.clone(), weights);
        Gemma4Mobile { config, tokenizer, model, backend }
    }

    /// Tokens of a chat, up to where the model's answer starts.
    pub fn encode_chat(&self, messages: &[Message]) -> (r: Vec<u32>)
        requires
            self.tokenizer.wf(),
            !self.tokenizer.specials@.contains_key(Seq::empty()),
        ensures
            r@ == self.tokenizer.lexicon().encoded(crate::template::chat_text(messages@, true), true),
    {
        let folded = fold_system_prompt(messages);
        proof {
            crate::template::folding_keeps_the_chat(messages@, folded@, true);
        }
        let text = apply_chat_template(folded.as_slice(), true);
        self.tokenizer.encode(text.as_str(), true)
    }

    /// Answer a chat from the start.
    pub fn generate(&mut self, messages: &[Message], opts: GenerateOpts, fallback: Rng) -> (r: Generation)
        requires
            old(self).wf(),
            ({
                let ids = old(self).tokenizer.lexicon().encoded(crate::template::chat_text(messages@, true), true);
                &&& ids.len() <= u32::MAX
                &&& old(self).model.net().takes(
                    Memory::blank(old(self).model.config.num_hidden_layers as nat),
                    ids,
                    from_zero(ids.len()),
                )
            }),
        ensures
            ({
                let ids = old(self).tokenizer.lexicon().encoded(crate::template::chat_text(messages@, true), true);
                let m = Memory::blank(old(self).model.config.num_hidden_layers as nat);
                old(self).starts(*final(self), m, ids, opts, fallback, r)
            }),
    {
        self.model.reset();
        let ids = self.encode_chat(messages);
        self.generate_ids(ids, opts, fallback)
    }

    /// Go on from tokens that are run as a prompt.
    pub fn generate_ids(&mut self, ids: Vec<u32>, opts: GenerateOpts, fallback: Rng) -> (r: Generation)
        requires
            old(self).wf(),
            ids@.len() <= u32::MAX,
            old(self).model.net().takes(old(self).model.cache.memory(), ids@, from_zero(ids@.len())),
        ensures
            old(self).starts(*final(self), old(self).model.cache.memory(), ids@, opts, fallback, r),
    {
        let n: u32 = ids.len() as u32;
        let positions = prompt_positions(n);
        let logits = self.model.forward(ids.as_slice(), positions.as_slice());
        let eos = slice_to_vec(self.config.eos_token_ids.as_slice());
        Generation::start(n, eos, opts, fallback, logits)
    }

    /// What starting from a prompt after `m` makes of the engine, and the run
    /// that comes of it.
    pub open spec fn starts(
        self,
        after: Self,
        m: Memory,
        ids: Seq<u32>,
        opts: GenerateOpts,
        fallback: Rng,
        r: Generation,
    ) -> bool {
        let (net, a, p) = (self.model.net(), self.model.backend.arithmetic(), from_zero(ids.len()));
        &&& after.wf()
        &&& after.config == self.config
        &&& after.tokenizer == self.tokenizer
        &&& after.backend == self.backend
        &&& after.model.net() == net
        &&& after.model.backend == self.model.backend
        &&& after.model.cache.memory() == net.remembered(a, m, ids, p)
        &&& r.logits matches Some(l) && l@ == net.logits(a, m, ids, p) && l@.len() == net.top.lm_head.dims[0]
        &&& r.eos@ == self.config.eos_token_ids@
        &&& r.opts == opts
        &&& r.rng.0 == match opts.seed {
            Some(s) => s,
            None => fallback.0,
        }
        &&& r.pos == ids.len()
        &&& r.step == 0
        &&& r.text_dec@ == Stream::fresh(true)
        &&& r.recent@.len() == 0
        &&& r.prompt_tokens == ids.len()
    }
}

} // verus!
