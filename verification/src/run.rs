//! What a whole run of generation comes to.
use vstd::arithmetic::power2::pow2;
use vstd::prelude::*;

use crate::backend::{Arithmetic, Backend};
use crate::engine::{Gemma4Mobile, GenerateOpts, Generation, Step};
use crate::float::{F32, F64, ONE_F32};
use crate::kvcache::Memory;
use crate::model::Net;
use crate::sampler::{Rng, Sampling};
use crate::tokenizer::stream::Stream;
use crate::tokenizer::Lexicon;

verus! {

/// What the tokens of a run are asked of: a model, a vocabulary and an
/// exponential.
pub struct Setting {
    pub net: Net,
    pub arithmetic: Arithmetic,
    pub lex: Lexicon,
    pub exp: spec_fn(F32) -> F32,
}

/// A run and what its model remembers.
pub struct Moment {
    pub run: Generation,
    pub memory: Memory,
}

/// Whether asking for token after token leads from moment to moment, and gives
/// `steps`.
pub open spec fn is_run(at: Setting, moments: Seq<Moment>, steps: Seq<Option<Step>>) -> bool {
    &&& moments.len() == steps.len() + 1
    &&& forall|i: int|
        0 <= i < steps.len() ==> moments[i].run.stepped(
            moments[i + 1].run,
            #[trigger] steps[i],
            at.net,
            at.arithmetic,
            moments[i].memory,
            moments[i + 1].memory,
            at.lex,
            at.exp,
        )
}

/// How many tokens were generated.
pub open spec fn generated(steps: Seq<Option<Step>>) -> nat
    decreases steps.len(),
{
    if steps.len() == 0 {
        0
    } else {
        generated(steps.drop_last()) + if steps.last() is Some {
            1nat
        } else {
            0
        }
    }
}

/// What the tokens added, joined.
pub open spec fn deltas(steps: Seq<Option<Step>>) -> Seq<char>
    decreases steps.len(),
{
    if steps.len() == 0 {
        Seq::empty()
    } else {
        match steps.last() {
            Some(s) => deltas(steps.drop_last()) + s.delta@,
            None => deltas(steps.drop_last()),
        }
    }
}

/// Whether a run is at its start, with a logit for each token of the
/// vocabulary.
pub open spec fn is_start(at: Setting, g: Generation) -> bool {
    &&& g.step == 0
    &&& g.text_dec@ == Stream::fresh(true)
    &&& g.logits matches Some(l) && l@.len() == at.net.top.lm_head.dims[0]
    &&& 0 < at.net.top.lm_head.dims[0] <= u32::MAX
}

/// An answer starts a run.
pub proof fn answer_starts_a_run<'a, B: Backend>(
    at: Setting,
    engine: Gemma4Mobile<'a, B>,
    after: Gemma4Mobile<'a, B>,
    m: Memory,
    ids: Seq<u32>,
    opts: GenerateOpts,
    fallback: Rng,
    g: Generation,
)
    requires
        engine.starts(after, m, ids, opts, fallback, g),
        at.net == engine.model.net(),
        0 < at.net.top.lm_head.dims[0] <= u32::MAX,
    ensures
        is_start(at, g),
        g.eos@ == engine.config.eos_token_ids@,
        g.opts == opts,
        opts.seed matches Some(seed) ==> g.rng.0 == seed,
        opts.seed is None ==> g.rng.0 == fallback.0,
        g.pos == ids.len(),
        g.recent@.len() == 0,
        g.logits->0@ == at.net.logits(
            engine.model.backend.arithmetic(),
            m,
            ids,
            Seq::new(ids.len(), |i: int| i as u32),
        ),
{
}

proof fn lemma_prefix(at: Setting, moments: Seq<Moment>, steps: Seq<Option<Step>>)
    requires
        is_run(at, moments, steps),
        steps.len() > 0,
    ensures
        is_run(at, moments.drop_last(), steps.drop_last()),
{
    let (ms, ss) = (moments.drop_last(), steps.drop_last());
    assert forall|i: int| 0 <= i < ss.len() implies ms[i].run.stepped(
        ms[i + 1].run,
        #[trigger] ss[i],
        at.net,
        at.arithmetic,
        ms[i].memory,
        ms[i + 1].memory,
        at.lex,
        at.exp,
    ) by {
        assert(ss[i] == steps[i]);
    }
}

/// What holds of the last moment: as many steps were made as tokens came, and
/// where fewer came than were asked for the run is over.
proof fn lemma_last_moment(at: Setting, moments: Seq<Moment>, steps: Seq<Option<Step>>)
    requires
        is_run(at, moments, steps),
        is_start(at, moments[0].run),
    ensures
        ({
            let g = moments.last().run;
            &&& g.eos == moments[0].run.eos
            &&& g.opts == moments[0].run.opts
            &&& g.step == generated(steps) <= g.opts.max_new_tokens
            &&& generated(steps) <= steps.len()
            &&& generated(steps) < steps.len() ==> !g.goes_on()
            &&& g.logits matches Some(l) ==> l@.len() == at.net.top.lm_head.dims[0]
            &&& g.text_dec@.text == deltas(steps)
        }),
    decreases steps.len(),
{
    if steps.len() > 0 {
        let k = steps.len() - 1;
        lemma_prefix(at, moments, steps);
        assert(moments.drop_last()[0] == moments[0]);
        lemma_last_moment(at, moments.drop_last(), steps.drop_last());
        assert(moments.drop_last().last() == moments[k]);
        assert(moments[k + 1] == moments.last());
        assert(steps[k] == steps.last());
        if let Some(s) = steps[k] {
            let t = moments[k].run.text_dec@;
            assert(t.pushed(at.lex, s.token_id).text =~= t.text + t.delta(at.lex, s.token_id));
        }
    }
}

/// A run generates at most as many tokens as it may, none of them an end of
/// text and each one of the vocabulary; once none comes none ever does; and its
/// text is what the tokens added, joined.
#[verifier::spinoff_prover]
pub proof fn run_is_bounded(at: Setting, moments: Seq<Moment>, steps: Seq<Option<Step>>)
    requires
        is_run(at, moments, steps),
        is_start(at, moments[0].run),
    ensures
        generated(steps) <= moments[0].run.opts.max_new_tokens,
        forall|i: int| 0 <= i < steps.len() ==> ((#[trigger] steps[i]) is Some <==> i < generated(steps)),
        forall|i: int|
            0 <= i < steps.len() ==> ((#[trigger] steps[i]) matches Some(s) ==> {
                &&& !moments[0].run.eos@.contains(s.token_id)
                &&& s.token_id < at.net.top.lm_head.dims[0]
                &&& s.text@ == deltas(steps.take(i + 1))
            }),
        moments.last().run.text_dec@.text == deltas(steps),
    decreases steps.len(),
{
    lemma_last_moment(at, moments, steps);
    if steps.len() > 0 {
        let k = steps.len() - 1;
        let (ms, ss) = (moments.drop_last(), steps.drop_last());
        lemma_prefix(at, moments, steps);
        assert(ms[0] == moments[0]);
        assert(ms.last() == moments[k]);
        lemma_last_moment(at, ms, ss);
        run_is_bounded(at, ms, ss);
        assert(moments[k + 1] == moments.last());
        assert(steps[k] == steps.last());
        assert(steps.take(k + 1) =~= steps);
        assert forall|i: int| 0 <= i < k implies steps[i] == #[trigger] ss[i] && ss.take(i + 1) == steps.take(i + 1) by {
            assert(ss.take(i + 1) =~= steps.take(i + 1));
        }
        assert forall|i: int| 0 <= i < steps.len() implies ((#[trigger] steps[i]) is Some <==> i < generated(steps)) by {
            if i < k {
                assert(steps[i] == ss[i]);
            }
        }
        assert forall|i: int| 0 <= i < steps.len() implies ((#[trigger] steps[i]) matches Some(s) ==> {
            &&& !moments[0].run.eos@.contains(s.token_id)
            &&& s.token_id < at.net.top.lm_head.dims[0]
            &&& s.text@ == deltas(steps.take(i + 1))
        }) by {
            if i < k {
                assert(steps[i] == ss[i]);
            }
        }
    }
}

/// The ids of the tokens of some steps.
pub open spec fn ids_of(steps: Seq<Option<Step>>) -> Seq<u32> {
    steps.map_values(|s: Option<Step>| s->0.token_id)
}

/// A number of the generator: its state mixed, as a fraction of 2^53 of which
/// the upper 53 bits count.
pub open spec fn is_number_of(d: F64, state: u64) -> bool {
    let a = (((state ^ (state >> 30)) * 0xbf58_476d_1ce4_e5b9) % 0x1_0000_0000_0000_0000) as u64;
    let b = (((a ^ (a >> 27)) * 0x94d0_49bb_1331_11eb) % 0x1_0000_0000_0000_0000) as u64;
    &&& !d.spec_is_nan()
    &&& d.steps() == ((b ^ (b >> 31)) >> 11) * pow2(1021)
}

/// The state of a generator after a number of draws: the constant of the
/// generator is added to it at each.
pub open spec fn state_after(seed: u64, draws: int) -> u64 {
    ((seed + draws * 0x9e37_79b9_7f4a_7c15) % 0x1_0000_0000_0000_0000) as u64
}

proof fn lemma_next_state(seed: u64, n: int)
    requires
        n >= 0,
    ensures
        state_after(seed, 0) == seed,
        crate::sampler::rng_next_state(state_after(seed, n)) == state_after(seed, n + 1),
{
    let (g, m) = (0x9e37_79b9_7f4a_7c15int, 0x1_0000_0000_0000_0000int);
    let x = seed + n * g;
    assert(0 * g == 0);
    vstd::arithmetic::div_mod::lemma_small_mod(seed as nat, m as nat);
    assert((n + 1) * g == n * g + g) by (nonlinear_arith);
    vstd::arithmetic::div_mod::lemma_mod_bound(x, m);
    vstd::arithmetic::div_mod::lemma_mod_bound(x + g, m);
    vstd::arithmetic::div_mod::lemma_add_mod_noop(x, g, m);
    vstd::arithmetic::div_mod::lemma_small_mod(g as nat, m as nat);
    assert((x % m + g) % m == (x + g) % m);
}

/// Where a run stands after `n` tokens. Its generator has given out one number
/// for each of them, the first for the first, or none where the likeliest is
/// taken; it has the last 64 tokens in mind, where repetition is penalized; and
/// it has moved on by one position with each.
pub proof fn run_after_tokens(at: Setting, moments: Seq<Moment>, steps: Seq<Option<Step>>, n: nat)
    requires
        is_run(at, moments, steps),
        moments[0].run.recent@.len() == 0,
        n <= steps.len(),
        forall|i: int| 0 <= i < n ==> (#[trigger] steps[i]) is Some,
    ensures
        ({
            let (g, o) = (moments[n as int].run, moments[0].run.opts);
            let ids = ids_of(steps.take(n as int));
            &&& g.opts == o
            &&& g.eos == moments[0].run.eos
            &&& g.step == moments[0].run.step + n
            &&& g.pos == moments[0].run.pos + n
            &&& g.rng.0 == if !o.temperature.spec_is_nan() && o.temperature.steps() <= 0 {
                moments[0].run.rng.0
            } else {
                state_after(moments[0].run.rng.0, n as int)
            }
            &&& g.recent@ == if o.repetition_penalty.spec_same(F32(ONE_F32)) {
                Seq::empty()
            } else if n <= 64 {
                ids
            } else {
                ids.skip(n - 64)
            }
        }),
{
    crate::float::F32::zero_is_zero();
    let runs = moments.map_values(|m: Moment| m.run);
    let ids = ids_of(steps.take(n as int));
    assert forall|i: int| 0 <= i < n implies #[trigger] is_moved(runs, ids, i) by {
        assert(steps[i] is Some);
        lemma_moved(at, moments[i], moments[i + 1], steps[i]);
        assert(ids[i] == steps[i]->0.token_id);
    }
    lemma_moved_on(runs, ids, n);
    assert(ids.take(n as int) =~= ids);
}

/// How a token moves a run on.
spec fn is_moved(runs: Seq<Generation>, ids: Seq<u32>, i: int) -> bool {
    let (g, h) = (runs[i], runs[i + 1]);
    &&& h.opts == g.opts
    &&& h.eos == g.eos
    &&& h.step == g.step + 1
    &&& h.pos == g.pos + 1
    &&& h.rng.0 == if !g.opts.temperature.spec_is_nan() && g.opts.temperature.steps() <= 0 {
        g.rng.0
    } else {
        crate::sampler::rng_next_state(g.rng.0)
    }
    &&& h.recent@ == if g.opts.repetition_penalty.spec_same(F32(ONE_F32)) {
        g.recent@
    } else {
        crate::engine::remember(g.recent@, ids[i])
    }
}

proof fn lemma_moved(at: Setting, now: Moment, next: Moment, r: Option<Step>)
    requires
        now.run.stepped(next.run, r, at.net, at.arithmetic, now.memory, next.memory, at.lex, at.exp),
        r is Some,
    ensures
        is_moved(seq![now.run, next.run], seq![r->0.token_id], 0),
{
    crate::float::F32::zero_is_zero();
}

proof fn lemma_moved_on(runs: Seq<Generation>, ids: Seq<u32>, n: nat)
    requires
        runs[0].recent@.len() == 0,
        n < runs.len(),
        n <= ids.len(),
        forall|i: int| 0 <= i < n ==> #[trigger] is_moved(runs, ids, i),
    ensures
        ({
            let (g, o) = (runs[n as int], runs[0].opts);
            &&& g.opts == o
            &&& g.eos == runs[0].eos
            &&& g.step == runs[0].step + n
            &&& g.pos == runs[0].pos + n
            &&& g.rng.0 == if !o.temperature.spec_is_nan() && o.temperature.steps() <= 0 {
                runs[0].rng.0
            } else {
                state_after(runs[0].rng.0, n as int)
            }
            &&& g.recent@ == if o.repetition_penalty.spec_same(F32(ONE_F32)) {
                Seq::empty()
            } else if n <= 64 {
                ids.take(n as int)
            } else {
                ids.take(n as int).skip(n - 64)
            }
        }),
    decreases n,
{
    lemma_next_state(runs[0].rng.0, 0);
    if n == 0 {
        assert(runs[0].recent@ =~= Seq::empty());
        assert(ids.take(0) =~= Seq::empty());
    } else {
        let k = (n - 1) as nat;
        lemma_moved_on(runs, ids, k);
        assert(is_moved(runs, ids, k as int));
        lemma_next_state(runs[0].rng.0, k as int);
        let (before, now) = (ids.take(k as int), ids.take(n as int));
        assert(now =~= before.push(ids[k as int]));
        let r = runs[n as int].recent@;
        if !runs[0].opts.repetition_penalty.spec_same(F32(ONE_F32)) {
            if n <= 64 {
                assert(r =~= now);
            } else {
                assert(r =~= now.skip(n - 64));
            }
        }
    }
}

/// A token is sampled as the options say: the logits are lowered for the last
/// tokens, where repetition is penalized at all; the likeliest is taken where the
/// temperature is at most zero, and otherwise one is drawn with the number that
/// the generator gives out next. The token is then run at the run's position,
/// after all that the model remembers.
pub proof fn token_is_sampled(at: Setting, now: Moment, next: Moment, s: Step)
    requires
        now.run.stepped(next.run, Some(s), at.net, at.arithmetic, now.memory, next.memory, at.lex, at.exp),
    ensures
        ({
            let (g, o, id) = (now.run, now.run.opts, s.token_id);
            let how = Sampling {
                temperature: o.temperature,
                top_k: o.top_k,
                top_p: o.top_p,
                repetition_penalty: o.repetition_penalty,
                recent_tokens: if o.repetition_penalty.spec_same(F32(ONE_F32)) {
                    None
                } else {
                    Some(g.recent@)
                },
            };
            let l = crate::sampler::penalized(g.logits->0@, how);
            &&& g.logits is Some
            &&& if !o.temperature.spec_is_nan() && o.temperature.steps() <= 0 {
                &&& id == crate::sampler::largest(l).0 as u32
                &&& next.run.rng.0 == g.rng.0
            } else {
                &&& next.run.rng.0 == state_after(g.rng.0, 1)
                &&& exists|d: F64| #[trigger]
                    is_number_of(d, next.run.rng.0) && crate::sampler::is_drawn(at.exp, l, how, d, id)
            }
            &&& next.run.logits->0@ == at.net.logits(at.arithmetic, now.memory, seq![id], seq![g.pos])
            &&& next.memory == at.net.remembered(at.arithmetic, now.memory, seq![id], seq![g.pos])
        }),
{
    let (g, o) = (now.run, now.run.opts);
    let how = now.run.sampling();
    crate::float::F32::zero_is_zero();
    lemma_next_state(g.rng.0, 0);
    if !how.is_greedy() {
        let d = crate::engine::draw_of(g.rng.0);
        crate::sampler::draws_lie_below_one(next.run.rng.0);
        assert(is_number_of(d, next.run.rng.0));
    }
}

proof fn lemma_goes_on(at: Setting, now: Moment, next: Moment, r: Option<Step>)
    requires
        now.run.stepped(next.run, r, at.net, at.arithmetic, now.memory, next.memory, at.lex, at.exp),
    ensures
        r is Some ==> next.run.logits is Some,
        r is None && now.run.logits is Some ==> now.run.step >= now.run.opts.max_new_tokens || exists|id: u32| #[trigger]
            now.run.is_next(at.exp, id) && now.run.eos@.contains(id),
{
}

/// A run stops only when it must: no token comes where as many came as were
/// asked for, or where the next one is an end of text.
pub proof fn run_stops_only_at_an_end(at: Setting, moments: Seq<Moment>, steps: Seq<Option<Step>>, n: int)
    requires
        is_run(at, moments, steps),
        is_start(at, moments[0].run),
        moments[0].run.recent@.len() == 0,
        0 <= n < steps.len(),
        forall|i: int| 0 <= i < n ==> (#[trigger] steps[i]) is Some,
        steps[n] is None,
    ensures
        n >= moments[0].run.opts.max_new_tokens || exists|id: u32| #[trigger]
            moments[n].run.is_next(at.exp, id) && moments[0].run.eos@.contains(id),
{
    run_after_tokens(at, moments, steps, n as nat);
    if n > 0 {
        assert(steps[n - 1] is Some);
        lemma_goes_on(at, moments[n - 1], moments[n], steps[n - 1]);
    }
    lemma_goes_on(at, moments[n], moments[n + 1], steps[n]);
}

/// Whether two runs stand alike. The states of their generators may differ where
/// no token is drawn.
pub open spec fn stand_alike(g: Generation, h: Generation) -> bool {
    &&& g.eos@ == h.eos@
    &&& g.opts.max_new_tokens == h.opts.max_new_tokens
    &&& g.opts.temperature == h.opts.temperature
    &&& g.opts.top_k == h.opts.top_k
    &&& g.opts.top_p == h.opts.top_p
    &&& g.opts.repetition_penalty == h.opts.repetition_penalty
    &&& g.recent@ == h.recent@
    &&& g.text_dec@ == h.text_dec@
    &&& g.pos == h.pos
    &&& g.step == h.step
    &&& match (g.logits, h.logits) {
        (Some(a), Some(b)) => a@ == b@,
        (None, None) => true,
        _ => false,
    }
    &&& crate::sampler::at_most(g.opts.temperature, F32(0)) || g.rng.0 == h.rng.0
}

/// Whether two steps give the same.
pub open spec fn same_step(a: Option<Step>, b: Option<Step>) -> bool {
    match (a, b) {
        (Some(s), Some(t)) => {
            &&& s.token_id == t.token_id
            &&& s.token@ == t.token@
            &&& s.delta@ == t.delta@
            &&& s.text@ == t.text@
        },
        (None, None) => true,
        _ => false,
    }
}

/// A second answer to the same prompt starts as the first did, if it draws no
/// token or has the same seed.
pub proof fn second_answer_starts_alike<'a, B: Backend>(
    engine: Gemma4Mobile<'a, B>,
    after: Gemma4Mobile<'a, B>,
    later: Gemma4Mobile<'a, B>,
    later_after: Gemma4Mobile<'a, B>,
    m: Memory,
    ids: Seq<u32>,
    opts: GenerateOpts,
    fallback: Rng,
    other: Rng,
    g: Generation,
    h: Generation,
)
    requires
        engine.starts(after, m, ids, opts, fallback, g),
        later.starts(later_after, m, ids, opts, other, h),
        later.model.net() == engine.model.net(),
        later.model.backend == engine.model.backend,
        later.config == engine.config,
        crate::sampler::at_most(opts.temperature, F32(0)) || opts.seed is Some || fallback.0 == other.0,
    ensures
        stand_alike(g, h),
        after.model.cache.memory() == later_after.model.cache.memory(),
{
    assert(g.recent@ =~= h.recent@);
}

proof fn lemma_alike_after(at: Setting, a: Moment, b: Moment, c: Moment, d: Moment, r: Option<Step>, t: Option<Step>)
    requires
        stand_alike(a.run, b.run),
        a.memory == b.memory,
        a.run.stepped(c.run, r, at.net, at.arithmetic, a.memory, c.memory, at.lex, at.exp),
        b.run.stepped(d.run, t, at.net, at.arithmetic, b.memory, d.memory, at.lex, at.exp),
    ensures
        same_step(r, t),
        stand_alike(c.run, d.run),
        c.memory == d.memory,
{
    let (g, h) = (a.run, b.run);
    assert(g.sampling() == h.sampling());
    if g.goes_on() {
        assert forall|id: u32| h.is_next(at.exp, id) implies g.is_next(at.exp, id) by {}
        let i: u32 = match r {
            Some(s) => s.token_id,
            None => choose|id: u32| #[trigger] g.is_next(at.exp, id) && g.eos@.contains(id),
        };
        let j: u32 = match t {
            Some(s) => s.token_id,
            None => choose|id: u32| #[trigger] h.is_next(at.exp, id) && h.eos@.contains(id),
        };
        assert(h.is_next(at.exp, j));
        crate::engine::one_next_token(g, at.exp, i, j);
    }
}

/// Runs that start alike are the same: options, logits and seed decide every
/// token. Where the most likely token is taken the seed does not matter.
pub proof fn runs_that_start_alike_agree(
    at: Setting,
    moments: Seq<Moment>,
    steps: Seq<Option<Step>>,
    others: Seq<Moment>,
    other_steps: Seq<Option<Step>>,
)
    requires
        is_run(at, moments, steps),
        is_run(at, others, other_steps),
        steps.len() == other_steps.len(),
        stand_alike(moments[0].run, others[0].run),
        moments[0].memory == others[0].memory,
    ensures
        forall|i: int| 0 <= i < steps.len() ==> same_step(#[trigger] steps[i], other_steps[i]),
        stand_alike(moments.last().run, others.last().run),
        moments.last().memory == others.last().memory,
    decreases steps.len(),
{
    if steps.len() > 0 {
        let k = steps.len() - 1;
        lemma_prefix(at, moments, steps);
        lemma_prefix(at, others, other_steps);
        assert(moments.drop_last()[0] == moments[0] && others.drop_last()[0] == others[0]);
        runs_that_start_alike_agree(
            at,
            moments.drop_last(),
            steps.drop_last(),
            others.drop_last(),
            other_steps.drop_last(),
        );
        assert(moments.drop_last().last() == moments[k] && others.drop_last().last() == others[k]);
        assert(moments[k + 1] == moments.last() && others[k + 1] == others.last());
        assert(steps[k] == steps.last() && other_steps[k] == other_steps.last());
        lemma_alike_after(at, moments[k], others[k], moments[k + 1], others[k + 1], steps[k], other_steps[k]);
        assert forall|i: int| 0 <= i < steps.len() implies same_step(#[trigger] steps[i], other_steps[i]) by {
            if i < k {
                assert(steps.drop_last()[i] == steps[i] && other_steps.drop_last()[i] == other_steps[i]);
            }
        }
    }
}

} // verus!
