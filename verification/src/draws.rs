//! What a sampled token has to do with the logits, by values.
use vstd::arithmetic::power2::pow2;
use vstd::prelude::*;

use crate::float::{F32, F64, NEG_INFINITY_F32, ONE_F32};
use crate::sampler::{sample, SampleOpts, Sampling};

verus! {

// --- repetition ----------------------------------------------------------------------------------

/// How far `a` and `b` are apart.
pub open spec fn apart(a: int, b: int) -> int {
    if a >= b {
        a - b
    } else {
        b - a
    }
}

/// A recent token's logit is penalized: above zero it is divided by the penalty,
/// otherwise multiplied with it. What comes of it is the number nearest to the
/// exact quotient or product: no other number `z` comes nearer. It keeps its
/// sign, and zero stays zero.
pub proof fn penalty_divides_or_multiplies(logits: Seq<F32>, opts: Sampling, k: int, z: F32)
    requires
        opts.recent_tokens is Some,
        0 <= k < opts.recent_tokens->0.len(),
        opts.recent_tokens->0[k] < logits.len(),
        opts.repetition_penalty.spec_is_finite(),
        opts.repetition_penalty.steps() > 0,
        !opts.repetition_penalty.spec_same(F32(ONE_F32)),
        logits[opts.recent_tokens->0[k] as int].spec_is_finite(),
        z.spec_is_finite(),
    ensures
        ({
            let i = opts.recent_tokens->0[k] as int;
            let (x, p) = (logits[i].steps(), opts.repetition_penalty.steps());
            let y = crate::sampler::penalized(logits, opts)[i];
            &&& !y.spec_is_nan()
            &&& x > 0 ==> y.steps() >= 0
            &&& x < 0 ==> y.steps() <= 0
            &&& x == 0 ==> y.steps() == 0
            &&& x > 0 && y.spec_is_finite() ==> apart(y.steps() * p, x * pow2(149)) <= apart(z.steps() * p, x * pow2(149))
            &&& x > 0 && !y.spec_is_finite() ==> apart(z.steps(), 0) * p < x * pow2(149)
            &&& x <= 0 && y.spec_is_finite() ==> apart(y.steps() * pow2(149), x * p) <= apart(z.steps() * pow2(149), x * p)
            &&& x < 0 && !y.spec_is_finite() ==> apart(z.steps(), 0) * pow2(149) < -x * p
        }),
{
    let i = opts.recent_tokens->0[k] as int;
    let x = logits[i];
    assert(crate::sampler::occurs(opts.recent_tokens->0, i));
    F32::zero_is_zero();
    x.quotient_is_nearest(opts.repetition_penalty, z);
    x.product_is_nearest(opts.repetition_penalty, z);
}

/// Logits of other tokens stay as they are; all do without a penalty.
pub proof fn other_logits_are_kept(logits: Seq<F32>, opts: Sampling, i: int)
    requires
        0 <= i < logits.len(),
        opts.recent_tokens is None || opts.repetition_penalty.spec_same(F32(ONE_F32)) || forall|k: int|
            0 <= k < opts.recent_tokens->0.len() ==> #[trigger] opts.recent_tokens->0[k] != i,
    ensures
        crate::sampler::penalized(logits, opts).len() == logits.len(),
        crate::sampler::penalized(logits, opts)[i] == logits[i],
{
}

// --- the likeliest -------------------------------------------------------------------------------

/// The likeliest token is the first of the largest logit: those before it are
/// smaller, and none is larger. Where there is no number above minus infinity it
/// is the first of all.
pub proof fn likeliest_is_the_first_largest(l: Seq<F32>)
    ensures
        ({
            let t = crate::sampler::largest(l).0;
            if exists|i: int| 0 <= i < l.len() && F32(NEG_INFINITY_F32).spec_less(#[trigger] l[i]) {
                &&& 0 <= t < l.len()
                &&& F32(NEG_INFINITY_F32).spec_less(l[t])
                &&& forall|i: int| 0 <= i < l.len() ==> !l[t].spec_less(#[trigger] l[i])
                &&& forall|i: int| 0 <= i < t ==> (#[trigger] l[i]).spec_is_nan() || l[i].spec_less(l[t])
            } else {
                t == 0
            }
        }),
{
    lemma_largest(l);
}

proof fn lemma_largest(l: Seq<F32>)
    ensures
        ({
            let (t, v) = crate::sampler::largest(l);
            if exists|i: int| 0 <= i < l.len() && F32(NEG_INFINITY_F32).spec_less(#[trigger] l[i]) {
                &&& 0 <= t < l.len()
                &&& v == l[t]
                &&& F32(NEG_INFINITY_F32).spec_less(l[t])
                &&& forall|i: int| 0 <= i < l.len() ==> !l[t].spec_less(#[trigger] l[i])
                &&& forall|i: int| 0 <= i < t ==> (#[trigger] l[i]).spec_is_nan() || l[i].spec_less(l[t])
            } else {
                t == 0 && v == F32(NEG_INFINITY_F32)
            }
        }),
    decreases l.len(),
{
    if l.len() > 0 {
        let before = l.drop_last();
        let n = l.len() - 1;
        lemma_largest(before);
        let (t, v) = crate::sampler::largest(before);
        l.last().minus_infinity_is_lowest();
        assert(forall|i: int| 0 <= i < before.len() ==> #[trigger] before[i] == l[i]);
        if exists|i: int| 0 <= i < before.len() && F32(NEG_INFINITY_F32).spec_less(#[trigger] before[i]) {
            let w = choose|i: int| 0 <= i < before.len() && F32(NEG_INFINITY_F32).spec_less(#[trigger] before[i]);
            assert(F32(NEG_INFINITY_F32).spec_less(l[w]));
            assert(before[t] == l[t]);
            if v.spec_less(l[n]) {
                assert forall|i: int| 0 <= i < n implies (#[trigger] l[i]).spec_is_nan() || l[i].spec_less(l[n]) by {
                    assert(!before[t].spec_less(before[i]));
                }
                assert forall|i: int| 0 <= i < l.len() implies !l[n].spec_less(#[trigger] l[i]) by {
                    if i < n {
                        assert(!before[t].spec_less(before[i]));
                    }
                }
            } else {
                assert forall|i: int| 0 <= i < l.len() implies !l[t].spec_less(#[trigger] l[i]) by {
                    if i < n {
                        assert(!before[t].spec_less(before[i]));
                    }
                }
                assert forall|i: int| 0 <= i < t implies (#[trigger] l[i]).spec_is_nan() || l[i].spec_less(l[t]) by {
                    assert(before[i] == l[i]);
                }
            }
        } else {
            assert forall|i: int| 0 <= i < n implies !F32(NEG_INFINITY_F32).spec_less(#[trigger] l[i]) by {
                assert(before[i] == l[i]);
            }
            if v.spec_less(l[n]) {
                assert forall|i: int| 0 <= i < l.len() implies !l[n].spec_less(#[trigger] l[i]) by {
                    l[i].minus_infinity_is_lowest();
                }
                assert forall|i: int| 0 <= i < n implies (#[trigger] l[i]).spec_is_nan() || l[i].spec_less(l[n]) by {
                    l[i].minus_infinity_is_lowest();
                }
            }
        }
    }
}

// --- drawing -------------------------------------------------------------------------------------

/// What is left of `r` when the first `n` of some numbers are taken off it in
/// turn.
pub open spec fn taken_off(r: F32, ws: Seq<F32>, n: nat) -> F32
    decreases n,
{
    if n == 0 {
        r
    } else {
        taken_off(r, ws, (n - 1) as nat).spec_minus(ws[n - 1])
    }
}

/// The first `n` of some numbers, summed up in turn.
pub open spec fn sum_of(ws: Seq<F32>, n: nat) -> F32
    decreases n,
{
    if n == 0 {
        F32(0)
    } else {
        sum_of(ws, (n - 1) as nat).spec_plus(ws[n - 1])
    }
}

/// Whether `r` is used up at `c`: it is not yet by the numbers before, and is by
/// that one, or there is no other.
pub open spec fn falls_on(ws: Seq<F32>, r: F32, c: int) -> bool {
    &&& 0 <= c < ws.len()
    &&& forall|n: nat| 0 < n <= c ==> {
        let left = #[trigger] taken_off(r, ws, n);
        left.spec_is_nan() || left.steps() > 0
    }
    &&& c == ws.len() - 1 || {
        let left = taken_off(r, ws, (c + 1) as nat);
        !left.spec_is_nan() && left.steps() <= 0
    }
}

/// Whether `ws` are the weights of logits at a temperature: the exponential of
/// what each is above the largest, times one over the temperature.
pub open spec fn are_weights(exp: spec_fn(F32) -> F32, xs: Seq<F32>, temperature: F32, ws: Seq<F32>) -> bool {
    &&& ws.len() == xs.len()
    &&& exists|t: int|
        0 <= t < xs.len() && (forall|i: int| 0 <= i < xs.len() ==> !(#[trigger] xs[t]).spec_less(#[trigger] xs[i])) && (forall|
            i: int,
        |
            0 <= i < xs.len() ==> #[trigger] ws[i] == exp(
                xs[i].spec_minus(xs[t]).spec_times(F32(ONE_F32).spec_over(temperature)),
            ))
}

proof fn lemma_crossing(ws: Seq<F32>, r: F32, i: nat)
    requires
        i <= ws.len(),
        ws.len() > 0,
        forall|n: nat| 0 < n <= i ==> {
            let left = #[trigger] taken_off(r, ws, n);
            left.spec_is_nan() || left.steps() > 0
        },
    ensures
        falls_on(ws, r, crate::sampler::crossing(ws, taken_off(r, ws, i), i as int)),
    decreases ws.len() - i,
{
    F32::zero_is_zero();
    let left = taken_off(r, ws, i + 1);
    if i < ws.len() {
        assert(left == taken_off(r, ws, i).spec_minus(ws[i as int]));
        if !crate::sampler::at_most(left, F32(0)) {
            lemma_crossing(ws, r, i + 1);
        }
    }
}

proof fn lemma_highest_of(xs: Seq<F32>) -> (t: int)
    requires
        xs.len() > 0,
        crate::sampler::all_numbers(xs, xs.len()),
    ensures
        0 <= t < xs.len(),
        crate::sampler::highest(xs) == xs[t],
        forall|i: int| 0 <= i < xs.len() ==> !xs[t].spec_less(#[trigger] xs[i]),
    decreases xs.len(),
{
    let before = xs.drop_last();
    let n = xs.len() - 1;
    xs[n].minus_infinity_is_lowest();
    if before.len() == 0 {
        assert(crate::sampler::highest(before) == F32(NEG_INFINITY_F32));
        assert(!xs[n].spec_is_nan());
        0
    } else {
        assert forall|i: int| 0 <= i < before.len() implies !#[trigger] before[i].spec_is_nan() by {
            assert(before[i] == xs[i]);
        }
        let t = lemma_highest_of(before);
        assert(before[t] == xs[t]);
        assert(!xs[t].spec_is_nan() && !xs[n].spec_is_nan());
        let r = if xs[t].spec_less(xs[n]) {
            n
        } else {
            t
        };
        assert forall|i: int| 0 <= i < xs.len() implies !xs[r].spec_less(#[trigger] xs[i]) by {
            if i < n {
                assert(before[i] == xs[i]);
                assert(!before[t].spec_less(before[i]));
            }
        }
        r
    }
}

proof fn lemma_weights(exp: spec_fn(F32) -> F32, xs: Seq<F32>, opts: Sampling)
    requires
        xs.len() > 0,
        crate::sampler::all_numbers(xs, xs.len()),
    ensures
        are_weights(exp, xs, opts.temperature, crate::sampler::weights(exp, xs, opts.sharpness())),
{
    let t = lemma_highest_of(xs);
    let ws = crate::sampler::weights(exp, xs, opts.sharpness());
    assert(forall|i: int| 0 <= i < xs.len() ==> #[trigger] ws[i] == exp(
        xs[i].spec_minus(xs[t]).spec_times(F32(ONE_F32).spec_over(opts.temperature)),
    ));
}

proof fn lemma_total(ws: Seq<F32>, n: nat)
    requires
        n <= ws.len(),
    ensures
        crate::sampler::total(ws.take(n as int)) == sum_of(ws, n),
    decreases n,
{
    if n > 0 {
        lemma_total(ws, (n - 1) as nat);
        assert(ws.take(n as int).drop_last() =~= ws.take(n - 1));
    }
}

/// A token drawn from all: the draw, as a share of all weights, is used up at
/// it when the weights are taken off in turn.
pub proof fn drawn_from_all(exp: spec_fn(F32) -> F32, l: Seq<F32>, opts: Sampling, draw: F64, token: u32)
    requires
        0 < l.len() <= u32::MAX,
        crate::sampler::all_numbers(l, l.len()),
        opts.top_k == 0,
        !opts.top_p.spec_less(F32(ONE_F32)),
        !opts.top_p.spec_is_nan(),
        crate::sampler::is_drawn(exp, l, opts, draw, token),
    ensures
        exists|ws: Seq<F32>| #[trigger]
            are_weights(exp, l, opts.temperature, ws) && falls_on(
                ws,
                draw.spec_to_f32().spec_times(sum_of(ws, ws.len())),
                token as int,
            ),
{
    let ws = crate::sampler::weights(exp, l, opts.sharpness());
    lemma_weights(exp, l, opts);
    lemma_total(ws, ws.len());
    assert(ws.take(ws.len() as int) =~= ws);
    F32::one_is_one();
    assert(opts.draws_from_all());
    let r = draw.spec_to_f32().spec_times(sum_of(ws, ws.len()));
    lemma_crossing(ws, r, 0);
}

/// Whether a list ranks tokens: by falling logit, each once.
pub open spec fn is_ranking(l: Seq<F32>, list: Seq<usize>) -> bool {
    &&& list.no_duplicates()
    &&& forall|i: int| 0 <= i < list.len() ==> #[trigger] list[i] < l.len()
    &&& forall|i: int, j: int| 0 <= i < j < list.len() ==> !l[#[trigger] list[i] as int].spec_less(l[#[trigger] list[j] as int])
}

/// The logits of listed tokens.
pub open spec fn logits_at(l: Seq<F32>, list: Seq<usize>) -> Seq<F32> {
    Seq::new(list.len(), |i: int| l[list[i] as int])
}

/// Whether `ps` are the probabilities of listed tokens: each weight, as a share
/// of their sum.
pub open spec fn are_probabilities(exp: spec_fn(F32) -> F32, xs: Seq<F32>, temperature: F32, ps: Seq<F32>) -> bool {
    exists|ws: Seq<F32>| #[trigger]
        are_weights(exp, xs, temperature, ws) && ps == ws.map_values(|w: F32| w.spec_over(sum_of(ws, ws.len())))
}

/// Whether `n` is where the nucleus ends: the probabilities before do not come
/// to `p`, and with the last one they do, or there are no more.
pub open spec fn is_nucleus(ps: Seq<F32>, p: F32, n: nat) -> bool {
    &&& 0 < n <= ps.len()
    &&& forall|m: nat| 0 < m < n ==> {
        let s = #[trigger] sum_of(ps, m);
        s.spec_is_nan() || p.spec_is_nan() || s.steps() < p.steps()
    }
    &&& n == ps.len() || {
        let s = sum_of(ps, n);
        !s.spec_is_nan() && !p.spec_is_nan() && s.steps() >= p.steps()
    }
}

proof fn lemma_nucleus_ends(ps: Seq<F32>, p: F32, n: nat)
    requires
        n <= ps.len(),
        ps.len() > 0,
        forall|m: nat| 0 < m <= n ==> {
            let s = #[trigger] sum_of(ps, m);
            s.spec_is_nan() || p.spec_is_nan() || s.steps() < p.steps()
        },
    ensures
        is_nucleus(ps, p, crate::sampler::nucleus(ps, p, sum_of(ps, n), n as int) as nat),
        crate::sampler::nucleus(ps, p, sum_of(ps, n), n as int) > 0,
    decreases ps.len() - n,
{
    if n < ps.len() {
        let s = sum_of(ps, n + 1);
        assert(s == sum_of(ps, n).spec_plus(ps[n as int]));
        if !crate::sampler::at_most(p, s) {
            lemma_nucleus_ends(ps, p, n + 1);
        }
    }
}

proof fn lemma_probabilities(exp: spec_fn(F32) -> F32, l: Seq<F32>, list: Seq<usize>, opts: Sampling)
    requires
        list.len() > 0,
        crate::sampler::all_numbers(l, l.len()),
        forall|i: int| 0 <= i < list.len() ==> #[trigger] list[i] < l.len(),
    ensures
        are_probabilities(
            exp,
            logits_at(l, list),
            opts.temperature,
            crate::sampler::softmax(exp, crate::sampler::at(l, list), opts.sharpness()),
        ),
{
    let xs = crate::sampler::at(l, list);
    assert(xs =~= logits_at(l, list));
    assert forall|i: int| 0 <= i < xs.len() implies !#[trigger] xs[i].spec_is_nan() by {
        assert(list[i] < l.len());
        assert(!l[list[i] as int].spec_is_nan());
    }
    let ws = crate::sampler::weights(exp, xs, opts.sharpness());
    lemma_weights(exp, xs, opts);
    lemma_total(ws, ws.len());
    assert(ws.take(ws.len() as int) =~= ws);
    assert(crate::sampler::softmax(exp, xs, opts.sharpness()) =~= ws.map_values(
        |w: F32| w.spec_over(sum_of(ws, ws.len())),
    ));
}

/// Whether a list ranks the best tokens: as many as are allowed, and no other
/// has a larger logit than one of them.
pub open spec fn are_best(l: Seq<F32>, top_k: usize, list: Seq<usize>) -> bool {
    &&& is_ranking(l, list)
    &&& list.len() == if 0 < top_k < l.len() {
        top_k as nat
    } else {
        l.len()
    }
    &&& forall|i: int, j: int|
        0 <= i < list.len() && 0 <= j < l.len() && !list.contains(j as usize) ==> !l[#[trigger] list[i] as int].spec_less(
            #[trigger] l[j],
        )
}

/// Whether the first `n` of a list are kept: the nucleus, where there is one to
/// be cut, and otherwise all.
pub open spec fn are_kept(exp: spec_fn(F32) -> F32, l: Seq<F32>, opts: Sampling, list: Seq<usize>, n: nat) -> bool {
    if opts.top_p.spec_less(F32(ONE_F32)) {
        exists|ps: Seq<F32>| #[trigger]
            are_probabilities(exp, logits_at(l, list), opts.temperature, ps) && is_nucleus(ps, opts.top_p, n)
    } else {
        n == list.len()
    }
}

/// Whether a draw is used up at a token of a list when the probabilities are
/// taken off it in turn.
pub open spec fn is_hit(exp: spec_fn(F32) -> F32, l: Seq<F32>, opts: Sampling, list: Seq<usize>, draw: F64, token: u32) -> bool {
    exists|ps: Seq<F32>, c: int| #[trigger]
        falls_on(ps, draw.spec_to_f32(), c) && are_probabilities(exp, logits_at(l, list), opts.temperature, ps) && list[c]
            == token
}

/// A token drawn from a cut down list: of the best tokens, as many as are
/// allowed, the nucleus is kept, and the draw is used up at the token when their
/// probabilities are taken off it in turn.
pub proof fn drawn_from_the_best(exp: spec_fn(F32) -> F32, l: Seq<F32>, opts: Sampling, draw: F64, token: u32)
    requires
        0 < l.len() <= u32::MAX,
        crate::sampler::all_numbers(l, l.len()),
        opts.top_k > 0 || opts.top_p.spec_is_nan() || opts.top_p.spec_less(F32(ONE_F32)),
        crate::sampler::is_drawn(exp, l, opts, draw, token),
    ensures
        exists|list: Seq<usize>, n: nat| #[trigger]
            are_kept(exp, l, opts, list, n) && are_best(l, opts.top_k, list) && n <= list.len() && is_hit(
                exp,
                l,
                opts,
                list.take(n as int),
                draw,
                token,
            ),
{
    F32::one_is_one();
    assert(!opts.draws_from_all());
    let list = choose|list: Seq<usize>| #[trigger]
        crate::sampler::are_candidates(l, opts, list) && token == crate::sampler::picked(exp, l, opts, list, draw) as u32;
    assert(crate::sampler::are_candidates(l, opts, list));
    lemma_candidates(l, opts, list);
    let n = lemma_kept(exp, l, opts, list);
    lemma_hit(exp, l, opts, list.take(n as int), draw);
    assert(are_kept(exp, l, opts, list, n));
}

proof fn lemma_kept(exp: spec_fn(F32) -> F32, l: Seq<F32>, opts: Sampling, list: Seq<usize>) -> (n: nat)
    requires
        list.len() > 0,
        crate::sampler::all_numbers(l, l.len()),
        is_ranking(l, list),
    ensures
        are_kept(exp, l, opts, list, n),
        0 < n <= list.len(),
        crate::sampler::remaining(exp, l, opts, list) == list.take(n as int),
{
    let first = crate::sampler::softmax(exp, crate::sampler::at(l, list), opts.sharpness());
    lemma_probabilities(exp, l, list, opts);
    if opts.top_p.spec_less(F32(ONE_F32)) {
        lemma_nucleus_ends(first, opts.top_p, 0);
        assert(first.len() == list.len());
        crate::sampler::nucleus(first, opts.top_p, F32(0), 0) as nat
    } else {
        assert(list.take(list.len() as int) =~= list);
        list.len()
    }
}

proof fn lemma_hit(exp: spec_fn(F32) -> F32, l: Seq<F32>, opts: Sampling, left: Seq<usize>, draw: F64)
    requires
        left.len() > 0,
        l.len() <= u32::MAX,
        crate::sampler::all_numbers(l, l.len()),
        forall|i: int| 0 <= i < left.len() ==> #[trigger] left[i] < l.len(),
    ensures
        is_hit(
            exp,
            l,
            opts,
            left,
            draw,
            left[crate::sampler::crossing(
                crate::sampler::softmax(exp, crate::sampler::at(l, left), opts.sharpness()),
                draw.spec_to_f32(),
                0,
            )] as u32,
        ),
{
    lemma_probabilities(exp, l, left, opts);
    let ps = crate::sampler::softmax(exp, crate::sampler::at(l, left), opts.sharpness());
    assert(ps.len() == left.len());
    lemma_crossing(ps, draw.spec_to_f32(), 0);
    let c = crate::sampler::crossing(ps, draw.spec_to_f32(), 0);
    assert(falls_on(ps, draw.spec_to_f32(), c));
    assert(left[c] < l.len());
}

proof fn lemma_candidates(l: Seq<F32>, opts: Sampling, list: Seq<usize>)
    requires
        0 < l.len() <= u32::MAX,
        crate::sampler::all_numbers(l, l.len()),
        crate::sampler::are_candidates(l, opts, list),
    ensures
        are_best(l, opts.top_k, list),
{
    let k: nat = if opts.top_k < l.len() {
        opts.top_k as nat
    } else {
        l.len()
    };
    let from = if opts.top_k > 0 {
        crate::sampler::heap_of(l, k, l.len())
    } else {
        crate::sampler::in_order(l.len())
    };
    if opts.top_k > 0 {
        crate::sampler::heap_keeps_the_largest(l, k, l.len());
    }
    assert forall|i: int| 0 <= i < list.len() implies #[trigger] list[i] < l.len() && from.contains(list[i]) by {
        assert(list.contains(list[i]));
        assert(from.contains(list[i]));
        let q = choose|q: int| 0 <= q < from.len() && from[q] == list[i];
        assert(from[q] < l.len());
    }
    assert forall|i: int, j: int| 0 <= i < j < list.len() implies !l[#[trigger] list[i] as int].spec_less(
        l[#[trigger] list[j] as int],
    ) by {
        assert(crate::sampler::ranks_above(l, from, list[i], list[j]));
    }
    assert forall|i: int, j: int|
        0 <= i < list.len() && 0 <= j < l.len() && !list.contains(j as usize) implies !l[#[trigger] list[i] as int].spec_less(
        #[trigger] l[j],
    ) by {
        assert(from.contains(list[i]));
        let q = choose|q: int| 0 <= q < from.len() && from[q] == list[i];
        assert(!from.contains(j as usize));
        if opts.top_k > 0 {
            assert(!l[from[q] as int].spec_less(l[j]));
        } else {
            assert(from[j] == j as usize);
        }
    }
}

// --- what `sample` gives -------------------------------------------------------------------------

/// What `sample` gives is the likeliest token of the penalized logits where the
/// temperature is at most zero, and otherwise the one that the number it is given
/// picks among them.
pub proof fn sample_draws_from_penalized<R: FnOnce() -> F64, E: Fn(F32) -> F32>(
    logits: &[F32],
    opts: &SampleOpts<'_>,
    rng: R,
    exp: &E,
    r: u32,
)
    requires
        call_ensures(sample::<R, E>, (logits, opts, rng, exp), r),
    ensures
        ({
            let l = crate::sampler::penalized(logits@, opts@);
            if !opts.temperature.spec_is_nan() && opts.temperature.steps() <= 0 {
                r == crate::sampler::largest(l).0 as u32
            } else {
                exists|d: F64| #[trigger]
                    call_ensures(rng, (), d) && crate::sampler::is_drawn(crate::sampler::values_of(*exp), l, opts@, d, r)
            }
        }),
{
    F32::zero_is_zero();
}

} // verus!
