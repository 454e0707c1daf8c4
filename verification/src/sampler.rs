//! Token sampling from a row of logits: greedy, temperature, top-k, top-p and
//! repetition penalty.
use std::cmp::Ordering;
use vstd::prelude::*;

use crate::float::{F32, F64, NEG_INFINITY_F32, ONE_F32, ONE_F64};

verus! {

/// Small deterministic generator (splitmix64), so that runs are reproducible
/// with a seed.
#[derive(Clone, Debug)]
pub struct Rng(pub u64);

/// The state after one step.
pub open spec fn rng_next_state(state: u64) -> u64 {
    ((state + 0x9e37_79b9_7f4a_7c15u64) % 0x1_0000_0000_0000_0000) as u64
}

/// `a * b`, modulo 2^64.
pub open spec fn wrapping_product(a: u64, b: u64) -> u64 {
    ((a * b) % 0x1_0000_0000_0000_0000) as u64
}

/// The number that a state gives out.
pub open spec fn rng_output(state: u64) -> u64 {
    let a = wrapping_product(state ^ (state >> 30), 0xbf58_476d_1ce4_e5b9);
    let b = wrapping_product(a ^ (a >> 27), 0x94d0_49bb_1331_11eb);
    b ^ (b >> 31)
}

impl Rng {
    pub fn new(seed: u64) -> (r: Rng)
        ensures
            r.0 == seed,
    {
        Rng(seed)
    }

    /// Seeded by the time and the process.
    pub fn from_entropy(nanos: u64, process: u32) -> (r: Rng)
        ensures
            r.0 == nanos ^ ((process as u64) << 32),
    {
        Rng(nanos ^ ((process as u64) << 32))
    }

    pub fn next_u64(&mut self) -> (r: u64)
        ensures
            final(self).0 == rng_next_state(old(self).0),
            r == rng_output(final(self).0),
    {
        self.0 = self.0.wrapping_add(0x9e37_79b9_7f4a_7c15);
        let z: u64 = self.0;
        let a: u64 = (z ^ (z >> 30)).wrapping_mul(0xbf58_476d_1ce4_e5b9);
        let b: u64 = (a ^ (a >> 27)).wrapping_mul(0x94d0_49bb_1331_11eb);
        b ^ (b >> 31)
    }

    /// Uniform in [0, 1).
    pub fn next_f64(&mut self) -> (r: F64)
        ensures
            final(self).0 == rng_next_state(old(self).0),
            r == F64::spec_of_scaled((rng_output(final(self).0) >> 11) as int, -53),
    {
        F64::from_fraction53(self.next_u64() >> 11)
    }
}

/// Draws lie in [0, 1): a draw is the upper 53 bits of what the generator gives
/// out, as a fraction of 2^53, and exactly that.
pub proof fn draws_lie_below_one(state: u64)
    ensures
        ({
            let d = F64::spec_of_scaled((rng_output(state) >> 11) as int, -53);
            &&& !d.spec_less(F64(0))
            &&& d.spec_less(F64(ONE_F64))
            &&& d.steps() == (rng_output(state) >> 11) * vstd::arithmetic::power2::pow2(1021)
        }),
{
    let x = rng_output(state);
    vstd::arithmetic::power2::lemma2_to64_rest();
    vstd::arithmetic::power2::lemma2_to64();
    vstd::bits::lemma_u64_shr_is_div(x, 11);
    F64::fraction_is_exact((x >> 11) as nat);
}

// --- options -----------------------------------------------------------------------------------

#[derive(Clone, Debug)]
pub struct SampleOpts<'a> {
    pub temperature: F32,
    /// 0 disables.
    pub top_k: usize,
    /// 1 or more disables.
    pub top_p: F32,
    /// 1 disables.
    pub repetition_penalty: F32,
    pub recent_tokens: Option<&'a [u32]>,
}

impl<'a> Default for SampleOpts<'a> {
    fn default() -> (r: Self)
        ensures
            r.temperature == F32(ONE_F32),
            r.top_k == 0,
            r.top_p == F32(ONE_F32),
            r.repetition_penalty == F32(ONE_F32),
            r.recent_tokens is None,
    {
        SampleOpts {
            temperature: F32(ONE_F32),
            top_k: 0,
            top_p: F32(ONE_F32),
            repetition_penalty: F32(ONE_F32),
            recent_tokens: None,
        }
    }
}

/// The options as mathematics.
#[verifier::ext_equal]
pub struct Sampling {
    pub temperature: F32,
    pub top_k: usize,
    pub top_p: F32,
    pub repetition_penalty: F32,
    pub recent_tokens: Option<Seq<u32>>,
}

impl<'a> View for SampleOpts<'a> {
    type V = Sampling;

    open spec fn view(&self) -> Sampling {
        Sampling {
            temperature: self.temperature,
            top_k: self.top_k,
            top_p: self.top_p,
            repetition_penalty: self.repetition_penalty,
            recent_tokens: match self.recent_tokens {
                Some(t) => Some(t@),
                None => None,
            },
        }
    }
}

/// `a <= b`; false where either is not a number.
pub open spec fn at_most(a: F32, b: F32) -> bool {
    a.spec_less(b) || a.spec_same(b)
}

fn is_at_most(a: F32, b: F32) -> (r: bool)
    ensures
        r == at_most(a, b),
{
    a.less(b) || a.same(b)
}

impl Sampling {
    /// The largest logit wins.
    pub open spec fn is_greedy(self) -> bool {
        at_most(self.temperature, F32(0))
    }

    /// Every token may be drawn.
    pub open spec fn draws_from_all(self) -> bool {
        self.top_k == 0 && at_most(F32(ONE_F32), self.top_p)
    }

    /// What logits are multiplied by.
    pub open spec fn sharpness(self) -> F32 {
        F32(ONE_F32).spec_over(self.temperature)
    }
}

// --- repetition penalty --------------------------------------------------------------------------

/// A logit made less likely.
pub open spec fn lowered(x: F32, penalty: F32) -> F32 {
    if F32(0).spec_less(x) {
        x.spec_over(penalty)
    } else {
        x.spec_times(penalty)
    }
}

/// Logits with those of some tokens lowered, each once however often it
/// occurs.
pub open spec fn lowered_all(logits: Seq<F32>, tokens: Seq<u32>, penalty: F32) -> Seq<F32> {
    Seq::new(
        logits.len(),
        |i: int|
            if occurs(tokens, i) {
                lowered(logits[i], penalty)
            } else {
                logits[i]
            },
    )
}

/// Whether a token is among some.
pub open spec fn occurs(tokens: Seq<u32>, id: int) -> bool {
    exists|k: int| 0 <= k < tokens.len() && #[trigger] tokens[k] == id
}

/// The logits that are sampled.
pub open spec fn penalized(logits: Seq<F32>, opts: Sampling) -> Seq<F32> {
    match opts.recent_tokens {
        Some(recent) => if opts.repetition_penalty.spec_same(F32(ONE_F32)) {
            logits
        } else {
            lowered_all(logits, recent, opts.repetition_penalty)
        },
        None => logits,
    }
}

/// Logits after the repetition penalty; nothing where it changes none.
fn penalize(logits: &[F32], opts: &SampleOpts<'_>) -> (r: Option<Vec<F32>>)
    ensures
        match r {
            Some(v) => v@ == penalized(logits@, opts@),
            None => logits@ == penalized(logits@, opts@),
        },
{
    let recent = match opts.recent_tokens {
        Some(recent) => recent,
        None => {
            return None;
        },
    };
    let penalty = opts.repetition_penalty;
    if penalty.same(F32(ONE_F32)) {
        return None;
    }
    let vocab: usize = logits.len();
    let len: usize = recent.len();
    let mut v = vstd::slice::slice_to_vec(logits);
    let mut seen: Vec<bool> = Vec::new();
    let mut i: usize = 0;
    while i < vocab
        invariant
            i <= vocab,
            seen@.len() == i,
            forall|k: int| 0 <= k < i ==> !#[trigger] seen@[k],
        decreases vocab - i,
    {
        seen.push(false);
        i = i + 1;
    }
    let mut k: usize = 0;
    while k < len
        invariant
            vocab == logits@.len(),
            len == recent@.len(),
            v@.len() == vocab,
            seen@.len() == vocab,
            k <= len,
            forall|i: int| 0 <= i < vocab ==> (#[trigger] seen@[i] <==> occurs(recent@.take(k as int), i)),
            forall|i: int|
                0 <= i < vocab ==> #[trigger] v@[i] == (if seen@[i] {
                    lowered(logits@[i], penalty)
                } else {
                    logits@[i]
                }),
        decreases len - k,
    {
        let tok: usize = recent[k] as usize;
        let ghost before = recent@.take(k as int);
        let ghost after = recent@.take(k + 1);
        proof {
            assert(after =~= before.push(recent@[k as int]));
            assert forall|i: int| 0 <= i < vocab implies (#[trigger] occurs(after, i) <==> occurs(before, i) || i == tok) by {
                if occurs(before, i) {
                    let j = choose|j: int| 0 <= j < before.len() && #[trigger] before[j] == i;
                    assert(after[j] == i);
                }
                if i == tok {
                    assert(after[k as int] == i);
                }
            }
        }
        if tok < vocab && !seen[tok] {
            seen.set(tok, true);
            let x = v[tok];
            let y = if F32(0).less(x) {
                x.over(penalty)
            } else {
                x.times(penalty)
            };
            v.set(tok, y);
        }
        k = k + 1;
    }
    proof {
        assert(recent@.take(len as int) =~= recent@);
        assert(v@ =~= lowered_all(logits@, recent@, penalty));
    }
    Some(v)
}

// --- greedy --------------------------------------------------------------------------------------

/// The first index of the largest value, with that value; index 0 where no
/// value is above minus infinity.
pub open spec fn largest(values: Seq<F32>) -> (int, F32)
    decreases values.len(),
{
    if values.len() == 0 {
        (0, F32(NEG_INFINITY_F32))
    } else {
        let (best, v) = largest(values.drop_last());
        if v.spec_less(values.last()) {
            (values.len() - 1, values.last())
        } else {
            (best, v)
        }
    }
}

/// No value is above the largest.
pub proof fn nothing_above_largest(values: Seq<F32>, i: int)
    requires
        0 <= i < values.len(),
    ensures
        !largest(values).1.spec_less(values[i]),
        0 <= largest(values).0 < values.len(),
        largest(values).1 == F32(NEG_INFINITY_F32) || largest(values).1 == values[largest(values).0],
    decreases values.len(),
{
    if values.len() > 1 {
        if i < values.len() - 1 {
            nothing_above_largest(values.drop_last(), i);
        } else {
            nothing_above_largest(values.drop_last(), 0);
        }
    } else {
        assert(values.drop_last() =~= Seq::empty());
        assert(largest(values.drop_last()).0 == 0);
        assert(largest(values).0 == 0);
    }
}

fn greedy(values: &[F32]) -> (r: usize)
    ensures
        r == largest(values@).0,
        values@.len() > 0 ==> r < values@.len(),
{
    let len: usize = values.len();
    let mut best: usize = 0;
    let mut top = F32(NEG_INFINITY_F32);
    let mut i: usize = 0;
    proof {
        assert(values@.take(0) =~= Seq::empty());
    }
    while i < len
        invariant
            len == values@.len(),
            i <= len,
            (best as int, top) == largest(values@.take(i as int)),
        decreases len - i,
    {
        proof {
            assert(values@.take(i + 1).drop_last() =~= values@.take(i as int));
            assert(values@.take(i + 1).last() == values@[i as int]);
        }
        if top.less(values[i]) {
            top = values[i];
            best = i;
        }
        i = i + 1;
    }
    proof {
        assert(values@.take(len as int) =~= values@);
        if len > 0 {
            nothing_above_largest(values@, 0);
        }
    }
    best
}

// --- the k largest -------------------------------------------------------------------------------

/// Numbers at some indices, none of them not-a-number.
pub open spec fn comparable(values: Seq<F32>, list: Seq<usize>) -> bool {
    forall|i: int| 0 <= i < list.len() ==> #[trigger] list[i] < values.len() && !values[list[i] as int].spec_is_nan()
}

pub open spec fn swapped(h: Seq<usize>, i: int, j: int) -> Seq<usize> {
    h.update(i, h[j]).update(j, h[i])
}

/// An entry moved up a heap while it is below its parent.
pub open spec fn sift_up(values: Seq<F32>, h: Seq<usize>, i: int) -> Seq<usize>
    decreases i,
{
    if i <= 0 {
        h
    } else {
        let parent = (i - 1) / 2;
        if values[h[i] as int].spec_less(values[h[parent] as int]) {
            sift_up(values, swapped(h, i, parent), parent)
        } else {
            h
        }
    }
}

/// The smallest of an entry and its children.
pub open spec fn smallest_of(values: Seq<F32>, h: Seq<usize>, i: int) -> int {
    let (l, r) = (2 * i + 1, 2 * i + 2);
    let m = if l < h.len() && values[h[l] as int].spec_less(values[h[i] as int]) {
        l
    } else {
        i
    };
    if r < h.len() && values[h[r] as int].spec_less(values[h[m] as int]) {
        r
    } else {
        m
    }
}

/// An entry moved down a heap while it is above a child.
pub open spec fn sift_down(values: Seq<F32>, h: Seq<usize>, i: int) -> Seq<usize>
    decreases h.len() - i,
{
    let m = smallest_of(values, h, i);
    if m <= i || i < 0 || m >= h.len() {
        h
    } else {
        sift_down(values, swapped(h, i, m), m)
    }
}

/// The heap of the `k` largest among the first `n` values, smallest first: a
/// value comes in while there is room, and later in place of the smallest where
/// it is larger.
pub open spec fn heap_of(values: Seq<F32>, k: nat, n: nat) -> Seq<usize>
    decreases n,
{
    if n == 0 {
        Seq::empty()
    } else {
        let h = heap_of(values, k, (n - 1) as nat);
        let i = (n - 1) as usize;
        if h.len() < k {
            sift_up(values, h.push(i), h.len() as int)
        } else if values[h[0] as int].spec_less(values[i as int]) {
            sift_down(values, h.update(0, i), 0)
        } else {
            h
        }
    }
}

/// Entry `i` is not below its parent.
spec fn in_place(values: Seq<F32>, h: Seq<usize>, i: int) -> bool {
    values[h[(i - 1) / 2] as int].steps() <= values[h[i] as int].steps()
}

/// Entry `j` is not below the parent of `i`.
spec fn is_clear(values: Seq<F32>, h: Seq<usize>, i: int, j: int) -> bool {
    values[h[(i - 1) / 2] as int].steps() <= values[h[j] as int].steps()
}

/// No entry is below its parent.
#[verifier::opaque]
spec fn is_heap(values: Seq<F32>, h: Seq<usize>) -> bool {
    forall|i: int| 0 < i < h.len() ==> #[trigger] in_place(values, h, i)
}

/// The same entries.
spec fn same_entries(h: Seq<usize>, g: Seq<usize>) -> bool {
    &&& h.len() == g.len()
    &&& h.no_duplicates()
    &&& g.no_duplicates()
    &&& forall|x: usize| #[trigger] h.contains(x) <==> g.contains(x)
}

proof fn lemma_swapped(h: Seq<usize>, i: int, j: int)
    requires
        0 <= i < h.len(),
        0 <= j < h.len(),
        i != j,
        h.no_duplicates(),
    ensures
        same_entries(swapped(h, i, j), h),
{
    let g = swapped(h, i, j);
    assert forall|x: usize| #[trigger] g.contains(x) <==> h.contains(x) by {
        if h.contains(x) {
            let k = choose|k: int| 0 <= k < h.len() && h[k] == x;
            if k == i {
                assert(g[j] == x);
            } else if k == j {
                assert(g[i] == x);
            } else {
                assert(g[k] == x);
            }
        }
        if g.contains(x) {
            let k = choose|k: int| 0 <= k < g.len() && g[k] == x;
            if k == i {
                assert(h[j] == x);
            } else if k == j {
                assert(h[i] == x);
            } else {
                assert(h[k] == x);
            }
        }
    }
}

proof fn lemma_comparable_entries(values: Seq<F32>, h: Seq<usize>, g: Seq<usize>)
    requires
        comparable(values, h),
        same_entries(g, h),
    ensures
        comparable(values, g),
{
    assert forall|i: int| 0 <= i < g.len() implies #[trigger] g[i] < values.len() && !values[g[i] as int].spec_is_nan() by {
        assert(g.contains(g[i]));
        assert(h.contains(g[i]));
        let k = choose|k: int| 0 <= k < h.len() && h[k] == g[i];
        assert(h[k] < values.len());
    }
}

/// Moving up: all is in order but for entry `i` and its parent, and `i`'s
/// children are not below that parent.
#[verifier::opaque]
spec fn heap_but_up(values: Seq<F32>, h: Seq<usize>, i: int) -> bool {
    &&& forall|j: int| 0 < j < h.len() && j != i ==> #[trigger] in_place(values, h, j)
    &&& forall|j: int| 0 < j < h.len() && (j - 1) / 2 == i && i > 0 ==> #[trigger] is_clear(values, h, i, j)
}

proof fn lemma_sift_up(values: Seq<F32>, h: Seq<usize>, i: int)
    requires
        0 <= i < h.len(),
        h.no_duplicates(),
        comparable(values, h),
        heap_but_up(values, h, i),
    ensures
        is_heap(values, sift_up(values, h, i)),
        same_entries(sift_up(values, h, i), h),
    decreases i,
{
    reveal(is_heap);
    reveal(heap_but_up);
    if i > 0 {
        let p = (i - 1) / 2;
        assert(h[i] < values.len() && h[p] < values.len());
        if values[h[i] as int].spec_less(values[h[p] as int]) {
            let g = swapped(h, i, p);
            lemma_swapped(h, i, p);
            lemma_comparable_entries(values, h, g);
            assert forall|j: int| 0 < j < g.len() && j != p implies #[trigger] in_place(values, g, j) by {
                if j != i {
                    let q = (j - 1) / 2;
                    assert(in_place(values, h, j));
                    if q == i {
                        assert(is_clear(values, h, i, j));
                    }
                }
            }
            assert forall|j: int| 0 < j < g.len() && (j - 1) / 2 == p && p > 0 implies #[trigger] is_clear(values, g, p, j) by {
                assert(in_place(values, h, p));
                if j != i {
                    assert(in_place(values, h, j));
                }
            }
            lemma_sift_up(values, g, p);
            assert(same_entries(sift_up(values, h, i), h)) by {
                let r = sift_up(values, g, p);
                assert forall|x: usize| #[trigger] r.contains(x) <==> h.contains(x) by {
                    assert(g.contains(x) <==> h.contains(x));
                }
            }
        } else {
            assert(in_place(values, h, i));
        }
    }
}

/// Moving down: all is in order but for entry `i` and its children, which are
/// not below `i`'s parent.
#[verifier::opaque]
spec fn heap_but_down(values: Seq<F32>, h: Seq<usize>, i: int) -> bool {
    &&& forall|j: int| 0 < j < h.len() && (j - 1) / 2 != i ==> #[trigger] in_place(values, h, j)
    &&& forall|j: int| 0 < j < h.len() && (j - 1) / 2 == i && i > 0 ==> #[trigger] is_clear(values, h, i, j)
}

proof fn lemma_sift_down(values: Seq<F32>, h: Seq<usize>, i: int)
    requires
        0 <= i < h.len(),
        h.no_duplicates(),
        comparable(values, h),
        heap_but_down(values, h, i),
    ensures
        is_heap(values, sift_down(values, h, i)),
        same_entries(sift_down(values, h, i), h),
    decreases h.len() - i,
{
    reveal(is_heap);
    reveal(heap_but_down);
    let m = smallest_of(values, h, i);
    let (l, r) = (2 * i + 1, 2 * i + 2);
    assert(h[i] < values.len());
    if l < h.len() {
        assert(h[l] < values.len());
    }
    if r < h.len() {
        assert(h[r] < values.len());
    }
    if m > i {
        let g = swapped(h, i, m);
        lemma_swapped(h, i, m);
        lemma_comparable_entries(values, h, g);
        assert((m - 1) / 2 == i);
        assert forall|j: int| 0 < j < g.len() && (j - 1) / 2 != m implies #[trigger] in_place(values, g, j) by {
            let q = (j - 1) / 2;
            if j == i {
                assert(is_clear(values, h, i, m));
            } else if q == i {
                assert(j == l || j == r);
            } else {
                assert(in_place(values, h, j));
            }
        }
        assert forall|j: int| 0 < j < g.len() && (j - 1) / 2 == m && m > 0 implies #[trigger] is_clear(values, g, m, j) by {
            assert(in_place(values, h, j));
        }
        lemma_sift_down(values, g, m);
        assert(same_entries(sift_down(values, h, i), h)) by {
            let s = sift_down(values, g, m);
            assert forall|x: usize| #[trigger] s.contains(x) <==> h.contains(x) by {
                assert(g.contains(x) <==> h.contains(x));
            }
        }
    } else {
        assert forall|j: int| 0 < j < h.len() implies #[trigger] in_place(values, h, j) by {
            if (j - 1) / 2 == i {
                assert(j == l || j == r);
            }
        }
    }
}

/// The smallest of a heap comes first.
proof fn lemma_root(values: Seq<F32>, h: Seq<usize>, i: int)
    requires
        is_heap(values, h),
        0 <= i < h.len(),
    ensures
        values[h[0] as int].steps() <= values[h[i] as int].steps(),
    decreases i,
{
    reveal(is_heap);
    if i > 0 {
        lemma_root(values, h, (i - 1) / 2);
        assert(in_place(values, h, i));
    }
}

/// None of the first `n` values is not-a-number.
pub open spec fn all_numbers(values: Seq<F32>, n: nat) -> bool {
    forall|i: int| 0 <= i < n ==> !#[trigger] values[i].spec_is_nan()
}

/// What the heap holds: as many of the first `n` indices as there may be, each
/// once, and no other value above any of theirs.
pub open spec fn are_largest(values: Seq<F32>, n: nat, k: nat, h: Seq<usize>) -> bool {
    &&& h.no_duplicates()
    &&& h.len() == if n < k {
        n
    } else {
        k
    }
    &&& forall|i: int| 0 <= i < h.len() ==> #[trigger] h[i] < n
    &&& forall|i: int, j: int|
        0 <= i < h.len() && 0 <= j < n && !h.contains(j as usize) ==> !(#[trigger] values[h[i] as int].spec_less(
            #[trigger] values[j],
        ))
}

/// The heap keeps the `k` largest values.
pub proof fn heap_keeps_the_largest(values: Seq<F32>, k: nat, n: nat)
    requires
        k > 0,
        n <= values.len(),
        n <= usize::MAX,
        all_numbers(values, n),
    ensures
        are_largest(values, n, k, heap_of(values, k, n)),
        comparable(values, heap_of(values, k, n)),
{
    lemma_heap_of(values, k, n);
}

/// An entry of one heap stands somewhere in the other.
proof fn lemma_entry(r: Seq<usize>, g: Seq<usize>, j: int) -> (q: int)
    requires
        same_entries(r, g),
        0 <= j < r.len(),
    ensures
        0 <= q < g.len(),
        g[q] == r[j],
{
    let x = r[j];
    assert(r.contains(x));
    assert(g.contains(x));
    choose|q: int| 0 <= q < g.len() && g[q] == x
}

spec fn heap_stands(values: Seq<F32>, n: nat, k: nat, h: Seq<usize>) -> bool {
    are_largest(values, n, k, h) && comparable(values, h) && is_heap(values, h)
}

/// With room to spare, one more index goes to the end, and all but it is in
/// order.
proof fn lemma_room_for_one(values: Seq<F32>, n: nat, h: Seq<usize>)
    requires
        n < values.len(),
        n < usize::MAX,
        all_numbers(values, n + 1),
        h.no_duplicates(),
        forall|i: int| 0 <= i < h.len() ==> #[trigger] h[i] < n,
        is_heap(values, h),
    ensures
        h.push(n as usize).no_duplicates(),
        comparable(values, h.push(n as usize)),
        heap_but_up(values, h.push(n as usize), h.len() as int),
{
    reveal(is_heap);
    reveal(heap_but_up);
    let g = h.push(n as usize);
    assert forall|j: int| 0 <= j < g.len() implies #[trigger] g[j] < values.len() && !values[g[j] as int].spec_is_nan() by {
        if j < h.len() {
            assert(h[j] < n);
        }
    }
    assert forall|j: int| 0 < j < g.len() && j != h.len() implies #[trigger] in_place(values, g, j) by {
        assert(in_place(values, h, j));
        assert(g[j] == h[j] && g[(j - 1) / 2] == h[(j - 1) / 2]);
    }
}

/// With room to spare, every index is kept.
proof fn lemma_all_with_one(values: Seq<F32>, k: nat, n: nat, h: Seq<usize>, r: Seq<usize>)
    requires
        n < usize::MAX,
        are_largest(values, n, k, h),
        h.len() < k,
        same_entries(r, h.push(n as usize)),
    ensures
        are_largest(values, n + 1, k, r),
{
    let g = h.push(n as usize);
    assert forall|j: int| 0 <= j < r.len() implies #[trigger] r[j] < n + 1 by {
        let q = lemma_entry(r, g, j);
        if q < h.len() {
            assert(h[q] < n);
        }
    }
    assert forall|b: int| 0 <= b < n + 1 implies #[trigger] r.contains(b as usize) by {
        if b == n {
            assert(g[h.len() as int] == n as usize);
        } else {
            lemma_all_kept(h, n, b);
            let q = choose|q: int| 0 <= q < h.len() && h[q] == b;
            assert(g[q] == b as usize);
        }
        assert(g.contains(b as usize));
    }
}

proof fn lemma_grown(values: Seq<F32>, k: nat, n: nat, h: Seq<usize>)
    requires
        n < values.len(),
        n < usize::MAX,
        all_numbers(values, n + 1),
        heap_stands(values, n, k, h),
        h.len() < k,
    ensures
        heap_stands(values, n + 1, k, sift_up(values, h.push(n as usize), h.len() as int)),
{
    let g = h.push(n as usize);
    let r = sift_up(values, g, h.len() as int);
    lemma_room_for_one(values, n, h);
    lemma_sift_up(values, g, h.len() as int);
    lemma_comparable_entries(values, g, r);
    lemma_all_with_one(values, k, n, h, r);
}

proof fn lemma_replaced(values: Seq<F32>, k: nat, n: nat, h: Seq<usize>)
    requires
        n < values.len(),
        n < usize::MAX,
        k > 0,
        all_numbers(values, n + 1),
        heap_stands(values, n, k, h),
        h.len() == k,
        values[h[0] as int].spec_less(values[n as int]),
    ensures
        heap_stands(values, n + 1, k, sift_down(values, h.update(0, n as usize), 0)),
{
    let i = n as usize;
    let out = h[0];
    let g = h.update(0, i);
    assert(comparable(values, g));
    assert(heap_but_down(values, g, 0)) by {
        reveal(is_heap);
        reveal(heap_but_down);
        assert forall|j: int| 0 < j < g.len() && (j - 1) / 2 != 0 implies #[trigger] in_place(values, g, j) by {
            assert(in_place(values, h, j));
            assert(g[j] == h[j] && g[(j - 1) / 2] == h[(j - 1) / 2]);
        }
    }
    lemma_sift_down(values, g, 0);
    let r = sift_down(values, g, 0);
    lemma_comparable_entries(values, g, r);
    assert forall|j: int| 0 <= j < r.len() implies #[trigger] r[j] < n + 1 by {
        let q = lemma_entry(r, g, j);
    }
    assert forall|x: int, b: int| 0 <= x < r.len() && 0 <= b < n + 1 && !r.contains(b as usize) implies !(
    #[trigger] values[r[x] as int].spec_less(#[trigger] values[b])) by {
        let q = lemma_entry(r, g, x);
        assert(!g.contains(b as usize));
        assert(g[0] == i);
        if q > 0 {
            lemma_root(values, h, q);
        }
        if b != out {
            if h.contains(b as usize) {
                let z = choose|z: int| 0 <= z < h.len() && h[z] == b;
                assert(g[z] == b as usize);
            }
            assert(!values[h[0] as int].spec_less(values[b]));
        }
    }
}

proof fn lemma_passed(values: Seq<F32>, k: nat, n: nat, h: Seq<usize>)
    requires
        n < values.len(),
        n < usize::MAX,
        k > 0,
        all_numbers(values, n + 1),
        heap_stands(values, n, k, h),
        h.len() == k,
        !values[h[0] as int].spec_less(values[n as int]),
    ensures
        heap_stands(values, n + 1, k, h),
{
    assert forall|a: int, b: int| 0 <= a < h.len() && 0 <= b < n + 1 && !h.contains(b as usize) implies !(
    #[trigger] values[h[a] as int].spec_less(#[trigger] values[b])) by {
        if b == n {
            lemma_root(values, h, a);
        }
    }
}

proof fn lemma_heap_of(values: Seq<F32>, k: nat, n: nat)
    requires
        k > 0,
        n <= values.len(),
        n <= usize::MAX,
        all_numbers(values, n),
    ensures
        heap_stands(values, n, k, heap_of(values, k, n)),
    decreases n,
{
    if n > 0 {
        let p = (n - 1) as nat;
        let h = heap_of(values, k, p);
        lemma_heap_of(values, k, p);
        if h.len() < k {
            lemma_grown(values, k, p, h);
        } else if values[h[0] as int].spec_less(values[p as int]) {
            lemma_replaced(values, k, p, h);
        } else {
            lemma_passed(values, k, p, h);
        }
    } else {
        reveal(is_heap);
    }
}

/// A heap with room to spare holds every index.
proof fn lemma_all_kept(h: Seq<usize>, n: nat, b: int)
    requires
        h.no_duplicates(),
        h.len() == n,
        n <= usize::MAX,
        forall|i: int| 0 <= i < h.len() ==> #[trigger] h[i] < n,
        0 <= b < n,
    ensures
        h.contains(b as usize),
{
    let mine = h.to_set();
    let all = vstd::set_lib::set_int_range(0, n as int);
    vstd::set_lib::lemma_int_range(0, n as int);
    h.unique_seq_to_set();
    let ints = mine.map(|x: usize| x as int);
    vstd::set_lib::lemma_map_size(mine, ints, |x: usize| x as int);
    assert(ints.subset_of(all)) by {
        assert forall|x: int| ints.contains(x) implies #[trigger] all.contains(x) by {
            let y = choose|y: usize| mine.contains(y) && y as int == x;
            assert(h.contains(y));
        }
    }
    vstd::set_lib::lemma_subset_equality(ints, all);
    assert(ints.contains(b));
    let y = choose|y: usize| mine.contains(y) && y as int == b;
    assert(h.contains(y));
}

/// Whether the value at `a` is below that at `b`.
pub open spec fn is_below(values: Seq<F32>, a: usize, b: usize) -> bool {
    values[a as int].spec_less(values[b as int])
}

/// Which of two indices comes first by descending value.
fn descending(values: &[F32], a: usize, b: usize) -> (r: Ordering)
    requires
        a < values@.len(),
        b < values@.len(),
    ensures
        r == Ordering::Less <==> is_below(values@, b, a),
        r == Ordering::Greater <==> is_below(values@, a, b) && !is_below(values@, b, a),
{
    if values[b].less(values[a]) {
        Ordering::Less
    } else if values[a].less(values[b]) {
        Ordering::Greater
    } else {
        Ordering::Equal
    }
}

/// Whether index `a` ranks above index `b`: by value, and among equals as in
/// the list.
pub open spec fn ranks_above(values: Seq<F32>, list: Seq<usize>, a: usize, b: usize) -> bool {
    is_below(values, b, a) || (values[a as int].spec_same(values[b as int]) && list.index_of(a) < list.index_of(b))
}

/// The same indices by descending value, equals in the order of the list.
pub open spec fn is_ranked(values: Seq<F32>, list: Seq<usize>, out: Seq<usize>) -> bool {
    &&& out.len() == list.len()
    &&& out.no_duplicates()
    &&& forall|x: usize| #[trigger] out.contains(x) <==> list.contains(x)
    &&& forall|i: int, j: int| 0 <= i < j < out.len() ==> ranks_above(values, list, #[trigger] out[i], #[trigger] out[j])
}

/// `slice::sort_by` by descending value: the same indices in order, and, as
/// the sort is stable, equals in the order they had. It may panic where the
/// order is not total, so no value may be not-a-number.
#[verifier::external_body]
fn sort_by_value(list: &mut Vec<usize>, values: &[F32])
    requires
        old(list)@.no_duplicates(),
        comparable(values@, old(list)@),
    ensures
        is_ranked(values@, old(list)@, final(list)@),
{
    list.sort_by(|a, b| descending(values, *a, *b));
}

/// There is one ranking of a list.
pub proof fn ranking_is_unique(values: Seq<F32>, list: Seq<usize>, x: Seq<usize>, y: Seq<usize>)
    requires
        is_ranked(values, list, x),
        is_ranked(values, list, y),
    ensures
        x == y,
{
    assert forall|n: int| 0 <= n <= x.len() implies #[trigger] x.take(n) == y.take(n) by {
        lemma_same_start(values, list, x, y, n);
    }
    assert(x.take(x.len() as int) =~= x);
    assert(y.take(x.len() as int) =~= y);
}

proof fn lemma_same_start(values: Seq<F32>, list: Seq<usize>, x: Seq<usize>, y: Seq<usize>, n: int)
    requires
        is_ranked(values, list, x),
        is_ranked(values, list, y),
        0 <= n <= x.len(),
    ensures
        x.take(n) == y.take(n),
    decreases n,
{
    if n > 0 {
        lemma_same_start(values, list, x, y, n - 1);
        let (a, b) = (x[n - 1], y[n - 1]);
        assert forall|k: int| 0 <= k < n - 1 implies x[k] == y[k] by {
            assert(x.take(n - 1)[k] == y.take(n - 1)[k]);
        }
        if a != b {
            assert(x.contains(a) && y.contains(b));
            assert(list.contains(a) && list.contains(b));
            assert(y.contains(a) && x.contains(b));
            let i = choose|i: int| 0 <= i < y.len() && y[i] == a;
            let j = choose|j: int| 0 <= j < x.len() && x[j] == b;
            assert(i > n - 1) by {
                if i < n - 1 {
                    assert(x[i] == a);
                }
            }
            assert(j > n - 1) by {
                if j < n - 1 {
                    assert(y[j] == b);
                }
            }
            assert(ranks_above(values, list, x[n - 1], x[j]));
            assert(ranks_above(values, list, y[n - 1], y[i]));
            assert(false);
        }
        assert(x.take(n) =~= y.take(n));
    }
}

proof fn lemma_ranked_comparable(values: Seq<F32>, list: Seq<usize>, out: Seq<usize>)
    requires
        comparable(values, list),
        is_ranked(values, list, out),
    ensures
        comparable(values, out),
{
    assert forall|i: int| 0 <= i < out.len() implies #[trigger] out[i] < values.len() && !values[out[i] as int].spec_is_nan() by {
        assert(out.contains(out[i]));
        assert(list.contains(out[i]));
        let k = choose|k: int| 0 <= k < list.len() && list[k] == out[i];
        assert(list[k] < values.len());
    }
}

fn move_up(values: &[F32], heap: &mut Vec<usize>, at: usize)
    requires
        at < old(heap)@.len(),
        comparable(values@, old(heap)@),
    ensures
        final(heap)@ == sift_up(values@, old(heap)@, at as int),
{
    let len: usize = heap.len();
    let mut i: usize = at;
    while i > 0 && values[heap[i]].less(values[heap[(i - 1) / 2]])
        invariant
            len == heap@.len(),
            i < len,
            comparable(values@, heap@),
            sift_up(values@, heap@, i as int) == sift_up(values@, old(heap)@, at as int),
        decreases i,
    {
        let parent: usize = (i - 1) / 2;
        let (x, y): (usize, usize) = (heap[i], heap[parent]);
        let ghost before = heap@;
        heap.set(i, y);
        heap.set(parent, x);
        proof {
            assert(heap@ =~= swapped(before, i as int, parent as int));
        }
        i = parent;
    }
}

fn move_down(values: &[F32], heap: &mut Vec<usize>)
    requires
        old(heap)@.len() > 0,
        comparable(values@, old(heap)@),
    ensures
        final(heap)@ == sift_down(values@, old(heap)@, 0),
{
    let len: usize = heap.len();
    let mut i: usize = 0;
    let mut done = false;
    while !done
        invariant
            len == heap@.len(),
            len == old(heap)@.len(),
            i < len,
            comparable(values@, heap@),
            done ==> heap@ == sift_down(values@, old(heap)@, 0),
            !done ==> sift_down(values@, heap@, i as int) == sift_down(values@, old(heap)@, 0),
        decreases len - i, (if done { 0int } else { 1int }),
    {
        let mut m: usize = i;
        if i < (len - 1) / 2 + (len - 1) % 2 {
            let l: usize = 2 * i + 1;
            if values[heap[l]].less(values[heap[m]]) {
                m = l;
            }
            if l + 1 < len && values[heap[l + 1]].less(values[heap[m]]) {
                m = l + 1;
            }
        }
        proof {
            assert(m == smallest_of(values@, heap@, i as int));
        }
        if m == i {
            done = true;
        } else {
            let (x, y): (usize, usize) = (heap[i], heap[m]);
            let ghost before = heap@;
            heap.set(i, y);
            heap.set(m, x);
            proof {
                assert(heap@ =~= swapped(before, i as int, m as int));
            }
            i = m;
        }
    }
}

/// Indices of the `k` largest values, by descending value. A bounded heap
/// looks at every value once.
fn top_k_desc(values: &[F32], k: usize) -> (r: Vec<usize>)
    requires
        k > 0,
        all_numbers(values@, values@.len()),
    ensures
        is_ranked(values@, heap_of(values@, k as nat, values@.len()), r@),
        are_largest(values@, values@.len(), k as nat, heap_of(values@, k as nat, values@.len())),
        comparable(values@, r@),
{
    let len: usize = values.len();
    let mut heap: Vec<usize> = Vec::new();
    let mut i: usize = 0;
    while i < len
        invariant
            len == values@.len(),
            k > 0,
            all_numbers(values@, len as nat),
            i <= len,
            heap@ == heap_of(values@, k as nat, i as nat),
        decreases len - i,
    {
        proof {
            heap_keeps_the_largest(values@, k as nat, i as nat);
        }
        let n: usize = heap.len();
        if n < k {
            heap.push(i);
            move_up(values, &mut heap, n);
        } else if values[heap[0]].less(values[i]) {
            heap.set(0, i);
            move_down(values, &mut heap);
        }
        i = i + 1;
    }
    proof {
        heap_keeps_the_largest(values@, k as nat, len as nat);
    }
    sort_by_value(&mut heap, values);
    proof {
        lemma_ranked_comparable(values@, heap_of(values@, k as nat, len as nat), heap@);
    }
    heap
}

// --- drawing -------------------------------------------------------------------------------------

/// A value for every argument, always the same.
pub open spec fn is_function<E: Fn(F32) -> F32>(e: E) -> bool {
    &&& forall|x: F32| #[trigger] call_requires(e, (x,))
    &&& forall|x: F32, a: F32, b: F32|
        #[trigger] call_ensures(e, (x,), a) && #[trigger] call_ensures(e, (x,), b) ==> a == b
}

/// The values of a function.
pub open spec fn values_of<E: Fn(F32) -> F32>(e: E) -> spec_fn(F32) -> F32 {
    |x: F32| choose|z: F32| call_ensures(e, (x,), z)
}

/// The largest number; minus infinity of none.
pub open spec fn highest(xs: Seq<F32>) -> F32
    decreases xs.len(),
{
    if xs.len() == 0 {
        F32(NEG_INFINITY_F32)
    } else {
        highest(xs.drop_last()).spec_larger(xs.last())
    }
}

/// Weight of a logit.
pub open spec fn weight(exp: spec_fn(F32) -> F32, x: F32, top: F32, sharpness: F32) -> F32 {
    exp(x.spec_minus(top).spec_times(sharpness))
}

/// Weights of logits.
pub open spec fn weights(exp: spec_fn(F32) -> F32, xs: Seq<F32>, sharpness: F32) -> Seq<F32> {
    xs.map_values(|x: F32| weight(exp, x, highest(xs), sharpness))
}

/// Sum from the left.
pub open spec fn total(ws: Seq<F32>) -> F32
    decreases ws.len(),
{
    if ws.len() == 0 {
        F32(0)
    } else {
        total(ws.drop_last()).spec_plus(ws.last())
    }
}

/// Probabilities of logits.
pub open spec fn softmax(exp: spec_fn(F32) -> F32, xs: Seq<F32>, sharpness: F32) -> Seq<F32> {
    let ws = weights(exp, xs, sharpness);
    ws.map_values(|w: F32| w.spec_over(total(ws)))
}

/// The logits at some indices.
pub open spec fn at(values: Seq<F32>, list: Seq<usize>) -> Seq<F32> {
    list.map_values(|i: usize| values[i as int])
}

/// Where `r` is used up when weights are taken from it in turn, from the
/// `i`-th on; the last place where it never is.
pub open spec fn crossing(ws: Seq<F32>, r: F32, i: int) -> int
    decreases ws.len() - i,
{
    if i >= ws.len() {
        ws.len() - 1
    } else {
        let left = r.spec_minus(ws[i]);
        if at_most(left, F32(0)) {
            i
        } else {
            crossing(ws, left, i + 1)
        }
    }
}

/// How many probabilities it takes, from the `n`-th on and with `sum` before
/// them, until they come to `p`; all where they never do.
pub open spec fn nucleus(probs: Seq<F32>, p: F32, sum: F32, n: int) -> int
    decreases probs.len() - n,
{
    if n >= probs.len() {
        probs.len() as int
    } else {
        let s = sum.spec_plus(probs[n]);
        if at_most(p, s) {
            n + 1
        } else {
            nucleus(probs, p, s, n + 1)
        }
    }
}

/// Indices `0, 1, ..`.
pub open spec fn in_order(n: nat) -> Seq<usize> {
    Seq::new(n, |i: int| i as usize)
}

/// Indices among which a token is drawn before the nucleus is cut: the `top_k`
/// largest, or all, by descending logit.
pub open spec fn are_candidates(l: Seq<F32>, opts: Sampling, list: Seq<usize>) -> bool {
    if opts.top_k > 0 {
        let k = if opts.top_k < l.len() {
            opts.top_k as nat
        } else {
            l.len()
        };
        is_ranked(l, heap_of(l, k, l.len()), list)
    } else {
        is_ranked(l, in_order(l.len()), list)
    }
}

/// Candidates that are left when the nucleus is cut.
pub open spec fn remaining(exp: spec_fn(F32) -> F32, l: Seq<F32>, opts: Sampling, list: Seq<usize>) -> Seq<usize> {
    if opts.top_p.spec_less(F32(ONE_F32)) {
        list.take(nucleus(softmax(exp, at(l, list), opts.sharpness()), opts.top_p, F32(0), 0))
    } else {
        list
    }
}

/// The token that a draw picks among candidates.
pub open spec fn picked(exp: spec_fn(F32) -> F32, l: Seq<F32>, opts: Sampling, list: Seq<usize>, draw: F64) -> usize {
    let left = remaining(exp, l, opts, list);
    left[crossing(softmax(exp, at(l, left), opts.sharpness()), draw.spec_to_f32(), 0)]
}

/// The token that a draw picks among all.
pub open spec fn picked_of_all(exp: spec_fn(F32) -> F32, l: Seq<F32>, opts: Sampling, draw: F64) -> int {
    let ws = weights(exp, l, opts.sharpness());
    crossing(ws, draw.spec_to_f32().spec_times(total(ws)), 0)
}

/// The token that a draw picks.
pub open spec fn is_drawn(exp: spec_fn(F32) -> F32, l: Seq<F32>, opts: Sampling, draw: F64, token: u32) -> bool {
    if opts.draws_from_all() {
        token == picked_of_all(exp, l, opts, draw) as u32
    } else {
        exists|list: Seq<usize>| #[trigger] are_candidates(l, opts, list) && token == picked(exp, l, opts, list, draw) as u32
    }
}

proof fn lemma_nucleus(probs: Seq<F32>, p: F32, sum: F32, n: int)
    requires
        0 <= n <= probs.len(),
        probs.len() > 0,
    ensures
        1 <= nucleus(probs, p, sum, n) <= probs.len(),
        n <= nucleus(probs, p, sum, n),
    decreases probs.len() - n,
{
    if n < probs.len() {
        lemma_nucleus(probs, p, sum.spec_plus(probs[n]), n + 1);
    }
}

fn weight_of<E: Fn(F32) -> F32>(exp: &E, x: F32, top: F32, sharpness: F32) -> (r: F32)
    requires
        is_function(*exp),
    ensures
        r == weight(values_of(*exp), x, top, sharpness),
{
    let y = (*exp)(x.minus(top).times(sharpness));
    y
}

fn softmax_over<E: Fn(F32) -> F32>(logits: &[F32], indices: &[usize], sharpness: F32, exp: &E) -> (r: Vec<F32>)
    requires
        is_function(*exp),
        forall|i: int| 0 <= i < indices@.len() ==> #[trigger] indices@[i] < logits@.len(),
    ensures
        r@ == softmax(values_of(*exp), at(logits@, indices@), sharpness),
{
    let ghost xs = at(logits@, indices@);
    let ghost ws = weights(values_of(*exp), xs, sharpness);
    let len: usize = indices.len();
    let mut top = F32(NEG_INFINITY_F32);
    let mut i: usize = 0;
    proof {
        assert(xs.take(0) =~= Seq::empty());
    }
    while i < len
        invariant
            len == indices@.len(),
            xs == at(logits@, indices@),
            forall|i: int| 0 <= i < len ==> #[trigger] indices@[i] < logits@.len(),
            i <= len,
            top == highest(xs.take(i as int)),
        decreases len - i,
    {
        proof {
            assert(xs.take(i + 1).drop_last() =~= xs.take(i as int));
            assert(xs.take(i + 1).last() == logits@[indices@[i as int] as int]);
        }
        top = top.larger(logits[indices[i]]);
        i = i + 1;
    }
    proof {
        assert(xs.take(len as int) =~= xs);
        assert(ws.take(0) =~= Seq::empty());
    }
    let mut raw: Vec<F32> = Vec::new();
    let mut sum = F32(0);
    let mut j: usize = 0;
    while j < len
        invariant
            len == indices@.len(),
            xs == at(logits@, indices@),
            ws == weights(values_of(*exp), xs, sharpness),
            top == highest(xs),
            is_function(*exp),
            forall|i: int| 0 <= i < len ==> #[trigger] indices@[i] < logits@.len(),
            j <= len,
            raw@ == ws.take(j as int),
            sum == total(ws.take(j as int)),
        decreases len - j,
    {
        let w = weight_of(exp, logits[indices[j]], top, sharpness);
        raw.push(w);
        sum = sum.plus(w);
        proof {
            assert(xs[j as int] == logits@[indices@[j as int] as int]);
            assert(ws.take(j + 1).drop_last() =~= ws.take(j as int));
            assert(raw@ =~= ws.take(j + 1));
        }
        j = j + 1;
    }
    proof {
        assert(ws.take(len as int) =~= ws);
    }
    let mut out: Vec<F32> = Vec::new();
    let mut k: usize = 0;
    while k < len
        invariant
            raw@.len() == len,
            k <= len,
            out@.len() == k,
            forall|c: int| 0 <= c < k ==> #[trigger] out@[c] == raw@[c].spec_over(sum),
        decreases len - k,
    {
        out.push(raw[k].over(sum));
        k = k + 1;
    }
    proof {
        assert(out@ =~= softmax(values_of(*exp), xs, sharpness));
    }
    out
}

/// Draw among all logits.
fn sample_all<E: Fn(F32) -> F32>(logits: &[F32], sharpness: F32, draw: F64, exp: &E) -> (r: usize)
    requires
        is_function(*exp),
        logits@.len() > 0,
    ensures
        ({
            let ws = weights(values_of(*exp), logits@, sharpness);
            r == crossing(ws, draw.spec_to_f32().spec_times(total(ws)), 0)
        }),
        r < logits@.len(),
{
    let len: usize = logits.len();
    let ghost ws = weights(values_of(*exp), logits@, sharpness);
    let mut top = F32(NEG_INFINITY_F32);
    let mut i: usize = 0;
    proof {
        assert(logits@.take(0) =~= Seq::empty());
        assert(ws.take(0) =~= Seq::empty());
    }
    while i < len
        invariant
            len == logits@.len(),
            i <= len,
            top == highest(logits@.take(i as int)),
        decreases len - i,
    {
        proof {
            assert(logits@.take(i + 1).drop_last() =~= logits@.take(i as int));
        }
        top = top.larger(logits[i]);
        i = i + 1;
    }
    proof {
        assert(logits@.take(len as int) =~= logits@);
    }
    let mut sum = F32(0);
    let mut j: usize = 0;
    while j < len
        invariant
            len == logits@.len(),
            ws == weights(values_of(*exp), logits@, sharpness),
            top == highest(logits@),
            is_function(*exp),
            j <= len,
            sum == total(ws.take(j as int)),
        decreases len - j,
    {
        sum = sum.plus(weight_of(exp, logits[j], top, sharpness));
        proof {
            assert(ws.take(j + 1).drop_last() =~= ws.take(j as int));
        }
        j = j + 1;
    }
    proof {
        assert(ws.take(len as int) =~= ws);
    }
    let mut left = draw.to_f32().times(sum);
    let ghost whole = left;
    let mut k: usize = 0;
    while k < len
        invariant
            len == logits@.len(),
            ws == weights(values_of(*exp), logits@, sharpness),
            ws.len() == len,
            top == highest(logits@),
            is_function(*exp),
            whole == draw.spec_to_f32().spec_times(total(ws)),
            k <= len,
            crossing(ws, left, k as int) == crossing(ws, whole, 0),
        decreases len - k,
    {
        left = left.minus(weight_of(exp, logits[k], top, sharpness));
        if is_at_most(left, F32(0)) {
            return k;
        }
        k = k + 1;
    }
    len - 1
}

/// Where a number is used up when weights are taken from it in turn.
fn cross(ws: &Vec<F32>, whole: F32) -> (r: usize)
    requires
        ws@.len() > 0,
    ensures
        r == crossing(ws@, whole, 0),
        r < ws@.len(),
{
    let len: usize = ws.len();
    let mut left = whole;
    let mut k: usize = 0;
    while k < len
        invariant
            len == ws@.len(),
            k <= len,
            crossing(ws@, left, k as int) == crossing(ws@, whole, 0),
        decreases len - k,
    {
        left = left.minus(ws[k]);
        if is_at_most(left, F32(0)) {
            return k;
        }
        k = k + 1;
    }
    len - 1
}

/// Draw among candidates.
fn draw_from<E: Fn(F32) -> F32>(logits: &[F32], opts: &SampleOpts<'_>, indices: Vec<usize>, draw: F64, exp: &E) -> (r: usize)
    requires
        is_function(*exp),
        indices@.len() > 0,
        forall|i: int| 0 <= i < indices@.len() ==> #[trigger] indices@[i] < logits@.len(),
    ensures
        r == picked(values_of(*exp), logits@, opts@, indices@, draw),
        r < logits@.len(),
{
    let ghost e = values_of(*exp);
    let ghost all = indices@;
    let mut indices = indices;
    let sharpness = F32(ONE_F32).over(opts.temperature);
    if opts.top_p.less(F32(ONE_F32)) {
        let probs = softmax_over(logits, indices.as_slice(), sharpness, exp);
        let len: usize = indices.len();
        let mut sum = F32(0);
        let mut n: usize = 0;
        let mut full = false;
        proof {
            lemma_nucleus(probs@, opts.top_p, F32(0), 0);
        }
        while n < len && !full
            invariant
                len == probs@.len(),
                n <= len,
                full ==> n == nucleus(probs@, opts.top_p, F32(0), 0),
                !full ==> nucleus(probs@, opts.top_p, sum, n as int) == nucleus(probs@, opts.top_p, F32(0), 0),
            decreases len - n,
        {
            sum = sum.plus(probs[n]);
            full = is_at_most(opts.top_p, sum);
            n = n + 1;
        }
        indices.truncate(n);
        proof {
            assert(indices@ =~= remaining(e, logits@, opts@, all));
        }
    }
    let probs = softmax_over(logits, indices.as_slice(), sharpness, exp);
    indices[cross(&probs, draw.to_f32())]
}

/// The same draw picks the same token.
pub proof fn draw_decides(exp: spec_fn(F32) -> F32, l: Seq<F32>, opts: Sampling, draw: F64, a: u32, b: u32)
    requires
        is_drawn(exp, l, opts, draw, a),
        is_drawn(exp, l, opts, draw, b),
    ensures
        a == b,
{
    if !opts.draws_from_all() {
        let x = choose|list: Seq<usize>| #[trigger]
            are_candidates(l, opts, list) && a == picked(exp, l, opts, list, draw) as u32;
        let y = choose|list: Seq<usize>| #[trigger]
            are_candidates(l, opts, list) && b == picked(exp, l, opts, list, draw) as u32;
        if opts.top_k > 0 {
            let k = if opts.top_k < l.len() {
                opts.top_k as nat
            } else {
                l.len()
            };
            ranking_is_unique(l, heap_of(l, k, l.len()), x, y);
        } else {
            ranking_is_unique(l, in_order(l.len()), x, y);
        }
    }
}

/// Of the last tokens only the set counts: their order, how often one occurs
/// and ids beyond the vocabulary change nothing. Without a penalty they do not
/// count at all.
pub proof fn recent_tokens_are_a_set(
    exp: spec_fn(F32) -> F32,
    logits: Seq<F32>,
    opts: Sampling,
    recent: Seq<u32>,
    other: Seq<u32>,
    draw: F64,
    token: u32,
)
    requires
        opts.repetition_penalty.spec_same(F32(ONE_F32)) || forall|i: int|
            0 <= i < logits.len() ==> (#[trigger] occurs(recent, i) <==> occurs(other, i)),
    ensures
        ({
            let a = Sampling { recent_tokens: Some(recent), ..opts };
            let b = Sampling { recent_tokens: Some(other), ..opts };
            &&& penalized(logits, a) == penalized(logits, b)
            &&& is_drawn(exp, penalized(logits, a), a, draw, token) <==> is_drawn(
                exp,
                penalized(logits, b),
                b,
                draw,
                token,
            )
        }),
{
    let a = Sampling { recent_tokens: Some(recent), ..opts };
    let b = Sampling { recent_tokens: Some(other), ..opts };
    assert(penalized(logits, a) =~= penalized(logits, b));
    let l = penalized(logits, a);
    assert forall|list: Seq<usize>| #[trigger] are_candidates(l, a, list) == are_candidates(l, b, list) by {}
    assert forall|list: Seq<usize>| #[trigger] picked(exp, l, a, list, draw) == picked(exp, l, b, list, draw) by {
        assert(remaining(exp, l, a, list) == remaining(exp, l, b, list));
    }
    if !opts.draws_from_all() {
        if is_drawn(exp, l, a, draw, token) {
            let x = choose|list: Seq<usize>| #[trigger]
                are_candidates(l, a, list) && token == picked(exp, l, a, list, draw) as u32;
            assert(are_candidates(l, b, x));
        }
        if is_drawn(exp, l, b, draw, token) {
            let x = choose|list: Seq<usize>| #[trigger]
                are_candidates(l, b, list) && token == picked(exp, l, b, list, draw) as u32;
            assert(are_candidates(l, a, x));
            assert(picked(exp, l, a, x, draw) == picked(exp, l, b, x, draw));
        }
    }
}

/// Among the one largest there is nothing to choose: whatever the draw, the
/// token picked has a logit that no other is above.
#[verifier::spinoff_prover]
pub proof fn one_candidate_is_largest(
    exp: spec_fn(F32) -> F32,
    l: Seq<F32>,
    opts: Sampling,
    draw: F64,
    token: u32,
    i: int,
)
    requires
        opts.top_k == 1,
        0 < l.len() <= u32::MAX,
        all_numbers(l, l.len()),
        is_drawn(exp, l, opts, draw, token),
        0 <= i < l.len(),
    ensures
        token < l.len(),
        !l[token as int].spec_less(l[i]),
{
    let list = choose|list: Seq<usize>| #[trigger]
        are_candidates(l, opts, list) && token == picked(exp, l, opts, list, draw) as u32;
    assert(are_candidates(l, opts, list));
    let h = heap_of(l, 1, l.len());
    heap_keeps_the_largest(l, 1, l.len());
    assert(list.len() == 1 && list[0] == h[0]) by {
        assert(list.contains(list[0]));
        assert(h.contains(list[0]));
    }
    lemma_picked_of_one(exp, l, opts, list, draw);
    if i != h[0] {
        assert(!h.contains(i as usize));
    }
}

proof fn lemma_picked_of_one(exp: spec_fn(F32) -> F32, l: Seq<F32>, opts: Sampling, list: Seq<usize>, draw: F64)
    requires
        list.len() == 1,
    ensures
        picked(exp, l, opts, list, draw) == list[0],
{
    let left = remaining(exp, l, opts, list);
    if opts.top_p.spec_less(F32(ONE_F32)) {
        lemma_nucleus(softmax(exp, at(l, list), opts.sharpness()), opts.top_p, F32(0), 0);
        assert(left =~= list);
    }
    let probs = softmax(exp, at(l, left), opts.sharpness());
    assert(probs.len() == 1);
    reveal_with_fuel(crossing, 2);
    assert(crossing(probs, draw.spec_to_f32(), 0) == 0);
}

/// Whether a draw is made from a cut down list of candidates.
pub open spec fn is_filtered(opts: Sampling) -> bool {
    !opts.is_greedy() && !opts.draws_from_all()
}

/// Pick the next token from a row of logits. A random number in [0, 1) is
/// asked for only where the choice is not greedy; exponentials are `exp`'s.
pub fn sample<R: FnOnce() -> F64, E: Fn(F32) -> F32>(logits: &[F32], opts: &SampleOpts<'_>, rng: R, exp: &E) -> (r: u32)
    requires
        call_requires(rng, ()),
        is_function(*exp),
        opts@.is_greedy() || logits@.len() > 0,
        is_filtered(opts@) ==> all_numbers(penalized(logits@, opts@), logits@.len()),
    ensures
        opts@.is_greedy() ==> r == largest(penalized(logits@, opts@)).0 as u32,
        !opts@.is_greedy() ==> exists|d: F64| #[trigger]
            call_ensures(rng, (), d) && is_drawn(values_of(*exp), penalized(logits@, opts@), opts@, d, r),
        0 < logits@.len() <= u32::MAX ==> r < logits@.len(),
{
    let vocab: usize = logits.len();
    let owned = penalize(logits, opts);
    let l: &[F32] = match &owned {
        Some(v) => v.as_slice(),
        None => logits,
    };
    if is_at_most(opts.temperature, F32(0)) {
        return greedy(l) as u32;
    }
    let draw = rng();
    if opts.top_k == 0 && is_at_most(F32(ONE_F32), opts.top_p) {
        let sharpness = F32(ONE_F32).over(opts.temperature);
        return sample_all(l, sharpness, draw, exp) as u32;
    }
    let indices: Vec<usize> = if opts.top_k > 0 {
        let k: usize = if opts.top_k < vocab {
            opts.top_k
        } else {
            vocab
        };
        top_k_desc(l, k)
    } else {
        let mut v: Vec<usize> = Vec::new();
        let mut i: usize = 0;
        while i < vocab
            invariant
                i <= vocab,
                v@ == in_order(i as nat),
            decreases vocab - i,
        {
            v.push(i);
            i = i + 1;
            proof {
                assert(v@ =~= in_order(i as nat));
            }
        }
        sort_by_value(&mut v, l);
        proof {
            lemma_ranked_comparable(l@, in_order(vocab as nat), v@);
        }
        v
    };
    proof {
        assert(are_candidates(l@, opts@, indices@));
    }
    draw_from(l, opts, indices, draw, exp) as u32
}

/// Whether the largest logit wins.
pub fn greedy_opts(temperature: F32) -> (r: bool)
    ensures
        r == at_most(temperature, F32(0)),
{
    is_at_most(temperature, F32(0))
}

/// Whether [`sample`] can pick from logits: there are some unless the choice is
/// greedy, and where candidates are ranked each of them is a number.
#[verifier::loop_isolation(false)]
pub fn can_sample(logits: &[F32], opts: &SampleOpts<'_>) -> (r: bool)
    ensures
        r == ((opts@.is_greedy() || logits@.len() > 0) && (is_filtered(opts@) ==> all_numbers(
            penalized(logits@, opts@),
            logits@.len(),
        ))),
{
    if is_at_most(opts.temperature, F32(0)) {
        return true;
    }
    let len: usize = logits.len();
    if len == 0 {
        return false;
    }
    if opts.top_k == 0 && is_at_most(F32(ONE_F32), opts.top_p) {
        return true;
    }
    let owned = penalize(logits, opts);
    let l: &[F32] = match &owned {
        Some(v) => v.as_slice(),
        None => logits,
    };
    let mut i: usize = 0;
    while i < len
        invariant
            len == l@.len(),
            i <= len,
            all_numbers(l@, i as nat),
        decreases len - i,
    {
        if l[i].is_nan() {
            return false;
        }
        i = i + 1;
    }
    true
}

} // verus!
