//! The reference arithmetic works row by row, and a query looks neither ahead nor
//! beyond its window.
use vstd::arithmetic::div_mod::*;
use vstd::arithmetic::mul::*;
use vstd::prelude::*;

use crate::backend::{Attention, Backend, Content};
use crate::backend_cpu::{CpuBackend, Elementary};
use crate::float::{F32, INFINITY_F32, NEG_INFINITY_F32, ONE_F32};
use crate::kvcache::{KvSlot, Memory};
use crate::model::{Gemma4Model, Net};
use crate::weights::WeightSource;

verus! {

// --- places --------------------------------------------------------------------------------------

/// Past `n` rows of `d`, rows count on.
proof fn lemma_shift(c: int, n: int, d: int)
    requires
        d > 0,
        0 <= n,
        n * d <= c,
    ensures
        c / d == n + (c - n * d) / d,
        c % d == (c - n * d) % d,
{
    let r = c - n * d;
    lemma_fundamental_div_mod(r, d);
    lemma_mod_bound(r, d);
    assert(c == d * (n + r / d) + r % d) by (nonlinear_arith)
        requires
            r == d * (r / d) + r % d,
            r == c - n * d,
    ;
    lemma_mul_is_commutative(d, n + r / d);
    lemma_fundamental_div_mod_converse(c, d, n + r / d, r % d);
}

proof fn lemma_chunk_left(xs: Seq<F32>, ys: Seq<F32>, i: int, d: int)
    requires
        0 <= i * d,
        0 <= d,
        i * d + d <= xs.len(),
    ensures
        crate::backend_cpu::chunk(xs + ys, i, d) == crate::backend_cpu::chunk(xs, i, d),
{
    assert(crate::backend_cpu::chunk(xs + ys, i, d) =~= crate::backend_cpu::chunk(xs, i, d));
}

proof fn lemma_chunk_right(xs: Seq<F32>, ys: Seq<F32>, n: int, i: int, d: int)
    requires
        xs.len() == n * d,
        0 <= i * d,
        0 <= d,
        i * d + d <= ys.len(),
    ensures
        crate::backend_cpu::chunk(xs + ys, n + i, d) == crate::backend_cpu::chunk(ys, i, d),
{
    lemma_mul_is_distributive_add_other_way(d, n, i);
    assert(crate::backend_cpu::chunk(xs + ys, n + i, d) =~= crate::backend_cpu::chunk(ys, i, d));
}

// --- row by row ----------------------------------------------------------------------------------

proof fn lemma_embed(e: spec_fn(Elementary, F32, F32) -> F32, table: Content, i: Seq<u32>, j: Seq<u32>, s: F32)
    ensures
        crate::stepwise::embed_splits(crate::backend_cpu::cpu_arithmetic(e), table, i, j, s),
{
    let d = table.dims[1] as int;
    let (n, m) = (i.len() as int, j.len() as int);
    let whole = crate::backend_cpu::cpu_embed(table, i + j, s);
    let (a, b) = (crate::backend_cpu::cpu_embed(table, i, s), crate::backend_cpu::cpu_embed(table, j, s));
    lemma_mul_is_distributive_add_other_way(d, n, m);
    lemma_mul_nonnegative(n, d);
    lemma_mul_nonnegative(m, d);
    assert forall|c: int| 0 <= c < whole.len() implies whole[c] == (a + b)[c] by {
        if c < n * d {
            crate::backend_cpu::lemma_place(c, n, d);
        } else {
            crate::backend_cpu::lemma_place(c - n * d, m, d);
            lemma_shift(c, n, d);
        }
    }
    assert(whole =~= a + b);
}

proof fn lemma_norm(e: spec_fn(Elementary, F32, F32) -> F32, x: Content, y: Content, w: Option<Content>, eps: F32)
    ensures
        crate::stepwise::norm_splits(crate::backend_cpu::cpu_arithmetic(e), x, y, w, eps),
{
    if crate::stepwise::joins(x, y) && x.dims.last() > 0 && y.dims.last() == x.dims.last() && y.dims.len() > 1 {
        let d = x.dims.last() as int;
        let (n, m) = (
            crate::backend::product(x.dims.drop_last()) as int,
            crate::backend::product(y.dims.drop_last()) as int,
        );
        let z = x.followed_by(y);
        assert(z.dims.last() == d);
        let whole = crate::backend_cpu::cpu_norm(z, w, eps);
        let (a, b) = (crate::backend_cpu::cpu_norm(x, w, eps), crate::backend_cpu::cpu_norm(y, w, eps));
        assert(x.cells.len() == n * d && y.cells.len() == m * d);
        assert forall|c: int| 0 <= c < whole.len() implies whole[c] == (a + b)[c] by {
            if c < n * d {
                crate::backend_cpu::lemma_place(c, n, d);
                crate::backend_cpu::lemma_cell(c / d, 0, n, d);
                lemma_chunk_left(x.cells, y.cells, c / d, d);
            } else {
                let r = c - n * d;
                crate::backend_cpu::lemma_place(r, m, d);
                crate::backend_cpu::lemma_cell(r / d, 0, m, d);
                lemma_shift(c, n, d);
                lemma_chunk_right(x.cells, y.cells, n, r / d, d);
            }
        }
        assert(whole =~= a + b);
    }
}

proof fn lemma_linear(e: spec_fn(Elementary, F32, F32) -> F32, x: Content, y: Content, w: Content)
    ensures
        crate::stepwise::linear_splits(crate::backend_cpu::cpu_arithmetic(e), x, y, w),
{
    if crate::stepwise::joins(x, y) && x.is_matrix() && w.is_whole() && w.is_matrix() && w.dims[1] == x.dims[1] {
        let (k, n) = (x.dims[1] as int, w.dims[0] as int);
        let (s, t) = (x.dims[0] as int, y.dims[0] as int);
        assert(x.dims =~= seq![x.dims[0], x.dims[1]]);
        assert(y.dims[1] == x.dims.drop_first()[0]);
        assert(y.dims =~= seq![y.dims[0], x.dims[1]]);
        crate::backend::product_of_two(x.dims[0], x.dims[1]);
        crate::backend::product_of_two(y.dims[0], x.dims[1]);
        let z = x.followed_by(y);
        assert(z.dims[0] == s + t && z.dims[1] == k);
        let whole = crate::backend_cpu::cpu_linear(z, w);
        let (a, b) = (crate::backend_cpu::cpu_linear(x, w), crate::backend_cpu::cpu_linear(y, w));
        lemma_mul_is_distributive_add_other_way(n, s, t);
        lemma_mul_nonnegative(s, n);
        lemma_mul_nonnegative(t, n);
        assert forall|c: int| 0 <= c < whole.len() implies whole[c] == (a + b)[c] by {
            if c < s * n {
                crate::backend_cpu::lemma_place(c, s, n);
                lemma_rows_fit(c / n, s, k);
                lemma_chunk_left(x.cells, y.cells, c / n, k);
            } else {
                let r = c - s * n;
                crate::backend_cpu::lemma_place(r, t, n);
                lemma_rows_fit(r / n, t, k);
                lemma_shift(c, s, n);
                lemma_chunk_right(x.cells, y.cells, s, r / n, k);
            }
        }
        assert(whole =~= a + b);
    }
}

proof fn lemma_rows_fit(i: int, rows: int, d: int)
    requires
        0 <= i < rows,
        0 <= d,
    ensures
        0 <= i * d,
        i * d + d <= rows * d,
{
    assert(0 <= i * d && i * d + d <= rows * d) by (nonlinear_arith)
        requires
            0 <= i < rows,
            0 <= d,
    ;
}

proof fn lemma_pairs(e: spec_fn(Elementary, F32, F32) -> F32, x: Content, y: Content, v: Content, w: Content)
    ensures
        crate::stepwise::pair_splits(crate::backend_cpu::cpu_arithmetic(e).add_of, x, y, v, w),
        crate::stepwise::pair_splits(crate::backend_cpu::cpu_arithmetic(e).geglu_of, x, y, v, w),
{
    let a = crate::backend_cpu::cpu_arithmetic(e);
    if crate::stepwise::joins(x, y) && crate::stepwise::joins(v, w) && v.dims == x.dims && w.dims == y.dims {
        assert((a.add_of)(x.followed_by(y), v.followed_by(w)) =~= (a.add_of)(x, v) + (a.add_of)(y, w));
        assert((a.geglu_of)(x.followed_by(y), v.followed_by(w)) =~= (a.geglu_of)(x, v) + (a.geglu_of)(y, w));
    }
}

proof fn lemma_scale(e: spec_fn(Elementary, F32, F32) -> F32, x: Content, y: Content, s: F32)
    ensures
        crate::stepwise::scale_splits(crate::backend_cpu::cpu_arithmetic(e), x, y, s),
{
    let a = crate::backend_cpu::cpu_arithmetic(e);
    assert((a.scale_of)(x.followed_by(y), s) =~= (a.scale_of)(x, s) + (a.scale_of)(y, s));
}

proof fn lemma_rope(
    e: spec_fn(Elementary, F32, F32) -> F32,
    x: Content,
    y: Content,
    i: Seq<u32>,
    j: Seq<u32>,
    theta: F32,
    rotary: usize,
)
    ensures
        crate::stepwise::rope_splits(crate::backend_cpu::cpu_arithmetic(e), x, y, i, j, theta, rotary),
{
    if crate::stepwise::joins(x, y) && x.dims.len() == 3 && x.dims[0] == i.len() && y.dims[0] == j.len() && rotary
        <= x.dims[2] {
        let (s, t, h, d) = (x.dims[0] as int, y.dims[0] as int, x.dims[1] as int, x.dims[2] as int);
        lemma_heads(x, y);
        let z = x.followed_by(y);
        let whole = crate::backend_cpu::cpu_rope(e, z, i + j, theta, rotary);
        let (a, b) = (
            crate::backend_cpu::cpu_rope(e, x, i, theta, rotary),
            crate::backend_cpu::cpu_rope(e, y, j, theta, rotary),
        );
        assert forall|c: int| 0 <= c < whole.len() implies whole[c] == (a + b)[c] by {
            if c < x.cells.len() {
                crate::backend_cpu::lemma_place(c, s * h, d);
                crate::backend_cpu::lemma_place(c / d, s, h);
                crate::backend_cpu::lemma_cell(c / d, 0, s * h, d);
                lemma_chunk_left(x.cells, y.cells, c / d, d);
            } else {
                let r = c - (s * h) * d;
                crate::backend_cpu::lemma_place(r, t * h, d);
                crate::backend_cpu::lemma_place(r / d, t, h);
                crate::backend_cpu::lemma_cell(r / d, 0, t * h, d);
                lemma_shift(c, s * h, d);
                lemma_shift(c / d, s, h);
                lemma_chunk_right(x.cells, y.cells, s * h, r / d, d);
            }
        }
        assert(whole =~= a + b);
    }
}

/// How many cells heads have.
proof fn lemma_heads(x: Content, y: Content)
    requires
        crate::stepwise::joins(x, y),
        x.dims.len() == 3,
    ensures
        y.dims.len() == 3,
        y.dims[1] == x.dims[1],
        y.dims[2] == x.dims[2],
        x.cells.len() == (x.dims[0] * x.dims[1]) * x.dims[2],
        y.cells.len() == (y.dims[0] * x.dims[1]) * x.dims[2],
        0 <= x.dims[0] * x.dims[1],
        0 <= y.dims[0] * x.dims[1],
        x.followed_by(y).dims == seq![(x.dims[0] + y.dims[0]) as usize, x.dims[1], x.dims[2]],
        x.dims[0] + y.dims[0] <= usize::MAX,
{
    assert(x.dims =~= seq![x.dims[0], x.dims[1], x.dims[2]]);
    assert(y.dims[1] == x.dims.drop_first()[0] && y.dims[2] == x.dims.drop_first()[1]);
    assert(y.dims =~= seq![y.dims[0], x.dims[1], x.dims[2]]);
    crate::backend::product_of_three(x.dims[0], x.dims[1], x.dims[2]);
    crate::backend::product_of_three(y.dims[0], x.dims[1], x.dims[2]);
    lemma_mul_nonnegative(x.dims[0] as int, x.dims[1] as int);
    lemma_mul_nonnegative(y.dims[0] as int, x.dims[1] as int);
    assert(x.followed_by(y).dims =~= seq![(x.dims[0] + y.dims[0]) as usize, x.dims[1], x.dims[2]]);
}

// --- attention -----------------------------------------------------------------------------------

/// Queries that look alike get the same.
proof fn lemma_number_alike(
    e: spec_fn(Elementary, F32, F32) -> F32,
    p: Content,
    q: Content,
    k: Content,
    v: Content,
    o: Attention,
    i: Seq<u32>,
    j: Seq<u32>,
    r: int,
    t: int,
    d: int,
)
    requires
        p.dims[1] == q.dims[1],
        p.dims[2] == q.dims[2],
        crate::backend_cpu::chunk(p.cells, r, p.dims[2] as int) == crate::backend_cpu::chunk(q.cells, t, q.dims[2] as int),
        r % (p.dims[1] as int) == t % (q.dims[1] as int),
        i[r / (p.dims[1] as int)] == j[t / (q.dims[1] as int)],
    ensures
        crate::backend_cpu::attended_number(e, p, k, v, crate::stepwise::asking(o, i), r, d)
            == crate::backend_cpu::attended_number(e, q, k, v, crate::stepwise::asking(o, j), t, d),
{
    let (hq, hkv) = (q.dims[1] as int, k.dims[1] as int);
    let head = (t % hq) / (hq / hkv);
    let at = |j: int| crate::backend_cpu::head_at(k, j, head);
    let query = crate::backend_cpu::chunk(q.cells, t, q.dims[2] as int);
    let qpos = j[t / hq];
    let (a, b) = (crate::stepwise::asking(o, i), crate::stepwise::asking(o, j));
    assert(crate::backend_cpu::scores(e, query, qpos, at, a) =~= crate::backend_cpu::scores(e, query, qpos, at, b));
}

proof fn lemma_queries(
    e: spec_fn(Elementary, F32, F32) -> F32,
    x: Content,
    y: Content,
    k: Content,
    v: Content,
    o: Attention,
    i: Seq<u32>,
    j: Seq<u32>,
)
    ensures
        crate::stepwise::queries_split(crate::backend_cpu::cpu_arithmetic(e), x, y, k, v, o, i, j),
{
    if crate::stepwise::joins(x, y) && crate::stepwise::can_attend(x, k, v, crate::stepwise::asking(o, i))
        && crate::stepwise::can_attend(y, k, v, crate::stepwise::asking(o, j)) {
        let (s, t, h, d) = (x.dims[0] as int, y.dims[0] as int, x.dims[1] as int, x.dims[2] as int);
        lemma_heads(x, y);
        let z = x.followed_by(y);
        let whole = crate::backend_cpu::cpu_attention(e, z, k, v, crate::stepwise::asking(o, i + j));
        let (a, b) = (
            crate::backend_cpu::cpu_attention(e, x, k, v, crate::stepwise::asking(o, i)),
            crate::backend_cpu::cpu_attention(e, y, k, v, crate::stepwise::asking(o, j)),
        );
        assert forall|c: int| 0 <= c < whole.len() implies whole[c] == (a + b)[c] by {
            if c < x.cells.len() {
                crate::backend_cpu::lemma_place(c, s * h, d);
                crate::backend_cpu::lemma_place(c / d, s, h);
                crate::backend_cpu::lemma_cell(c / d, 0, s * h, d);
                lemma_chunk_left(x.cells, y.cells, c / d, d);
                lemma_number_alike(e, z, x, k, v, o, i + j, i, c / d, c / d, c % d);
            } else {
                let r = c - (s * h) * d;
                crate::backend_cpu::lemma_place(r, t * h, d);
                crate::backend_cpu::lemma_place(r / d, t, h);
                crate::backend_cpu::lemma_cell(r / d, 0, t * h, d);
                lemma_shift(c, s * h, d);
                lemma_shift(c / d, s, h);
                lemma_chunk_right(x.cells, y.cells, s * h, r / d, d);
                lemma_number_alike(e, z, y, k, v, o, i + j, j, c / d, r / d, c % d);
            }
        }
        assert(whole =~= a + b);
    }
}

/// Scores of keys that are not seen.
spec fn unseen(n: nat) -> Seq<F32> {
    Seq::new(n, |j: int| F32(NEG_INFINITY_F32))
}

proof fn lemma_unseen_last(s: Seq<F32>, n: nat)
    requires
        n > 0,
    ensures
        (s + unseen(n)).drop_last() == s + unseen((n - 1) as nat),
        (s + unseen(n)).last() == F32(NEG_INFINITY_F32),
{
    assert((s + unseen(n)).drop_last() =~= s + unseen((n - 1) as nat));
}

/// Keys that are not seen change neither the largest score nor the sum.
proof fn lemma_unseen(e: spec_fn(Elementary, F32, F32) -> F32, s: Seq<F32>, n: nat, top: F32)
    ensures
        crate::backend_cpu::highest(s + unseen(n)) == crate::backend_cpu::highest(s),
        crate::backend_cpu::weight_sum(e, s + unseen(n), top) == crate::backend_cpu::weight_sum(e, s, top),
    decreases n,
{
    if n == 0 {
        assert(s + unseen(0) =~= s);
    } else {
        lemma_unseen_last(s, n);
        lemma_unseen(e, s, (n - 1) as nat, top);
        crate::backend_cpu::highest(s).minus_infinity_is_lowest();
        F32(NEG_INFINITY_F32).minus_infinity_is_lowest();
    }
}

/// Values that are alike mix alike.
proof fn lemma_mixed_alike(
    e: spec_fn(Elementary, F32, F32) -> F32,
    s: Seq<F32>,
    top: F32,
    inv: F32,
    at: spec_fn(int) -> F32,
    other: spec_fn(int) -> F32,
)
    requires
        forall|j: int| 0 <= j < s.len() ==> #[trigger] at(j) == other(j),
    ensures
        crate::backend_cpu::mixed(e, s, top, inv, at) == crate::backend_cpu::mixed(e, s, top, inv, other),
    decreases s.len(),
{
    if s.len() > 0 {
        lemma_mixed_alike(e, s.drop_last(), top, inv, at, other);
        assert(at(s.len() - 1) == other(s.len() - 1));
    }
}

/// Values of keys that are not seen are passed over.
proof fn lemma_mixed_unseen(
    e: spec_fn(Elementary, F32, F32) -> F32,
    s: Seq<F32>,
    n: nat,
    top: F32,
    inv: F32,
    at: spec_fn(int) -> F32,
)
    requires
        inv.spec_is_finite(),
    ensures
        crate::backend_cpu::mixed(e, s + unseen(n), top, inv, at) == crate::backend_cpu::mixed(e, s, top, inv, at),
    decreases n,
{
    if n == 0 {
        assert(s + unseen(0) =~= s);
    } else {
        lemma_unseen_last(s, n);
        lemma_mixed_unseen(e, s, (n - 1) as nat, top, inv, at);
        F32(NEG_INFINITY_F32).minus_infinity_is_lowest();
        inv.nothing_of_finite();
    }
}

/// What is asked of the exponential function: one at zero, nowhere below zero,
/// and no number of what is none.
pub open spec fn is_exponential(e: spec_fn(Elementary, F32, F32) -> F32) -> bool {
    &&& e(Elementary::Exp, F32(0), F32(0)) == F32(ONE_F32)
    &&& forall|x: F32| x.spec_is_nan() ==> (#[trigger] e(Elementary::Exp, x, x)).spec_is_nan()
    &&& forall|x: F32|
        (#[trigger] e(Elementary::Exp, x, x)).spec_is_nan() || e(Elementary::Exp, x, x).0 <= INFINITY_F32
}

/// The largest score is one of the scores, unless there is none above minus
/// infinity.
proof fn lemma_highest(s: Seq<F32>)
    ensures
        ({
            let top = crate::backend_cpu::highest(s);
            if top == F32(NEG_INFINITY_F32) {
                forall|j: int| 0 <= j < s.len() ==> (#[trigger] s[j]).spec_is_nan() || s[j] == top
            } else {
                !top.spec_is_nan() && exists|j: int| 0 <= j < s.len() && #[trigger] s[j] == top
            }
        }),
    decreases s.len(),
{
    if s.len() > 0 {
        let before = s.drop_last();
        lemma_highest(before);
        let m = crate::backend_cpu::highest(before);
        s.last().minus_infinity_is_lowest();
        m.minus_infinity_is_lowest();
        if m.spec_less(s.last()) {
            assert(s[s.len() - 1] == crate::backend_cpu::highest(s));
        } else if m == F32(NEG_INFINITY_F32) {
            assert forall|j: int| 0 <= j < s.len() implies (#[trigger] s[j]).spec_is_nan() || s[j] == m by {
                if j < s.len() - 1 {
                    assert(before[j] == s[j]);
                }
            }
        } else {
            let j = choose|j: int| 0 <= j < before.len() && #[trigger] before[j] == m;
            assert(s[j] == m);
        }
    }
}

/// The sum is no number where a weight is none; else it is no less than any
/// weight.
proof fn lemma_sum(e: spec_fn(Elementary, F32, F32) -> F32, s: Seq<F32>, top: F32)
    requires
        is_exponential(e),
    ensures
        ({
            let sum = crate::backend_cpu::weight_sum(e, s, top);
            sum.spec_is_nan() || {
                &&& sum.0 <= INFINITY_F32
                &&& forall|j: int|
                    0 <= j < s.len() ==> (crate::backend_cpu::raw_weight(e, #[trigger] s[j], top) matches Some(w) ==> !w.spec_is_nan()
                        && w.0 <= sum.0)
                &&& sum == F32(0) || exists|j: int|
                    0 <= j < s.len() && crate::backend_cpu::raw_weight(e, #[trigger] s[j], top) is Some
            }
        }),
    decreases s.len(),
{
    if s.len() > 0 {
        let before = s.drop_last();
        lemma_sum(e, before, top);
        let b = crate::backend_cpu::weight_sum(e, before, top);
        let sum = crate::backend_cpu::weight_sum(e, s, top);
        let last = s.len() - 1;
        match crate::backend_cpu::raw_weight(e, s.last(), top) {
            Some(w) => {
                b.no_number_stays_none(w);
                w.no_number_stays_none(b);
                if !b.spec_is_nan() && !w.spec_is_nan() {
                    b.sum_is_no_less(w);
                    assert(crate::backend_cpu::raw_weight(e, s[last], top) is Some);
                    assert forall|j: int| 0 <= j < s.len() implies (crate::backend_cpu::raw_weight(e, #[trigger] s[j], top) matches Some(
                        v,
                    ) ==> !v.spec_is_nan() && v.0 <= sum.0) by {
                        if j < last {
                            assert(before[j] == s[j]);
                        }
                    }
                }
            },
            None => {
                assert forall|j: int| 0 <= j < s.len() implies (crate::backend_cpu::raw_weight(e, #[trigger] s[j], top) matches Some(v)
                    ==> b.spec_is_nan() || (!v.spec_is_nan() && v.0 <= sum.0)) by {
                    if j < last {
                        assert(before[j] == s[j]);
                    }
                }
                if !b.spec_is_nan() && b != F32(0) {
                    let j = choose|j: int|
                        0 <= j < before.len() && crate::backend_cpu::raw_weight(e, #[trigger] before[j], top) is Some;
                    assert(s[j] == before[j]);
                }
            },
        }
    }
}

/// What weights are multiplied by is finite: the largest score has weight one.
proof fn lemma_inverse(e: spec_fn(Elementary, F32, F32) -> F32, s: Seq<F32>)
    requires
        is_exponential(e),
    ensures
        crate::backend_cpu::inverse_sum(
            crate::backend_cpu::weight_sum(e, s, crate::backend_cpu::highest(s)),
        ).spec_is_finite(),
{
    let top = crate::backend_cpu::highest(s);
    let sum = crate::backend_cpu::weight_sum(e, s, top);
    F32::zero_is_finite();
    if F32(0).spec_less(sum) {
        lemma_highest(s);
        lemma_sum(e, s, top);
        sum.no_number_stays_none(sum);
        let j = choose|j: int| 0 <= j < s.len() && crate::backend_cpu::raw_weight(e, #[trigger] s[j], top) is Some;
        assert(crate::backend_cpu::raw_weight(e, s[j], top) is Some);
        F32(NEG_INFINITY_F32).minus_infinity_is_lowest();
        s[j].minus_infinity_is_lowest();
        s[j].no_number_stays_none(top);
        assert(!s[j].spec_is_nan());
        assert(top != F32(NEG_INFINITY_F32));
        let i = choose|i: int| 0 <= i < s.len() && #[trigger] s[i] == top;
        top.minus_infinity_is_lowest();
        top.difference_with_itself();
        let w = crate::backend_cpu::raw_weight(e, s[i], top);
        assert(w is Some);
        sum.inverse_is_finite();
    }
}

proof fn lemma_future(
    e: spec_fn(Elementary, F32, F32) -> F32,
    q: Content,
    k: KvSlot<Content>,
    more: KvSlot<Content>,
    o: Attention,
    i: Seq<u32>,
    j: Seq<u32>,
)
    requires
        is_exponential(e),
    ensures
        crate::stepwise::future_is_unseen(crate::backend_cpu::cpu_arithmetic(e), q, k, more, o, i, j),
{
    if crate::stepwise::joins(k.k, more.k) && crate::stepwise::joins(k.v, more.v) && crate::stepwise::can_attend(
        q,
        k.k,
        k.v,
        crate::stepwise::seeing(o, i),
    ) && more.v.dims == more.k.dims && more.k.dims[0] == j.len() && crate::stepwise::earlier(o.q_pos, j) {
        let (t, hq, d) = (q.dims[0] as int, q.dims[1] as int, q.dims[2] as int);
        assert(q.dims =~= seq![q.dims[0], q.dims[1], q.dims[2]]);
        crate::backend::product_of_three(q.dims[0], q.dims[1], q.dims[2]);
        let (kk, vv) = (k.k.followed_by(more.k), k.v.followed_by(more.v));
        let whole = crate::backend_cpu::cpu_attention(e, q, kk, vv, crate::stepwise::seeing(o, i + j));
        let a = crate::backend_cpu::cpu_attention(e, q, k.k, k.v, crate::stepwise::seeing(o, i));
        lemma_mul_nonnegative(t, hq);
        assert forall|c: int| 0 <= c < whole.len() implies whole[c] == a[c] by {
            crate::backend_cpu::lemma_place(c, t * hq, d);
            crate::backend_cpu::lemma_place(c / d, t, hq);
            lemma_future_number(e, q, k, more, o, i, j, c / d, c % d);
        }
        assert(whole =~= a);
    }
}

proof fn lemma_future_number(
    e: spec_fn(Elementary, F32, F32) -> F32,
    q: Content,
    k: KvSlot<Content>,
    more: KvSlot<Content>,
    o: Attention,
    i: Seq<u32>,
    j: Seq<u32>,
    r: int,
    d: int,
)
    requires
        is_exponential(e),
        crate::stepwise::joins(k.k, more.k),
        crate::stepwise::joins(k.v, more.v),
        crate::stepwise::can_attend(q, k.k, k.v, crate::stepwise::seeing(o, i)),
        more.v.dims == more.k.dims,
        more.k.dims[0] == j.len(),
        crate::stepwise::earlier(o.q_pos, j),
        q.dims[1] > 0,
        0 <= r / (q.dims[1] as int) < q.dims[0],
        0 <= d < q.dims[2],
    ensures
        crate::backend_cpu::attended_number(
            e,
            q,
            k.k.followed_by(more.k),
            k.v.followed_by(more.v),
            crate::stepwise::seeing(o, i + j),
            r,
            d,
        ) == crate::backend_cpu::attended_number(e, q, k.k, k.v, crate::stepwise::seeing(o, i), r, d),
{
    let (hq, hkv, dh) = (q.dims[1] as int, k.k.dims[1] as int, q.dims[2] as int);
    let (kk, vv) = (k.k.followed_by(more.k), k.v.followed_by(more.v));
    lemma_heads(k.k, more.k);
    lemma_heads(k.v, more.v);
    let head = (r % hq) / (hq / hkv);
    lemma_head(r, hq, hkv);
    let (oa, ob) = (crate::stepwise::seeing(o, i), crate::stepwise::seeing(o, i + j));
    let query = crate::backend_cpu::chunk(q.cells, r, dh);
    let qpos = o.q_pos[r / hq];
    let (ka, kb) = (|x: int| crate::backend_cpu::head_at(k.k, x, head), |x: int| crate::backend_cpu::head_at(kk, x, head));
    let sa = crate::backend_cpu::scores(e, query, qpos, ka, oa);
    let sb = crate::backend_cpu::scores(e, query, qpos, kb, ob);
    assert forall|x: int| 0 <= x < i.len() implies crate::backend_cpu::head_at(kk, x, head) == crate::backend_cpu::head_at(
        k.k,
        x,
        head,
    ) && crate::backend_cpu::head_at(vv, x, head) == crate::backend_cpu::head_at(k.v, x, head) by {
        lemma_head_stays(k.k, more.k, x, head);
        lemma_head_stays(k.v, more.v, x, head);
    }
    assert(sb =~= sa + unseen(j.len())) by {
        assert forall|x: int| 0 <= x < sb.len() implies sb[x] == (sa + unseen(j.len()))[x] by {
            if x >= i.len() {
                assert(o.q_pos[r / hq] < j[x - i.len()]);
            }
        }
    }
    let top = crate::backend_cpu::highest(sa);
    lemma_unseen(e, sa, j.len(), top);
    lemma_inverse(e, sa);
    let inv = crate::backend_cpu::inverse_sum(crate::backend_cpu::weight_sum(e, sa, top));
    let (va, vb) = (
        |x: int| crate::backend_cpu::head_at(k.v, x, head)[d],
        |x: int| crate::backend_cpu::head_at(vv, x, head)[d],
    );
    lemma_mixed_unseen(e, sa, j.len(), top, inv, vb);
    lemma_mixed_alike(e, sa, top, inv, va, vb);
}

/// Every query head has a key head.
proof fn lemma_head(r: int, hq: int, hkv: int)
    requires
        hq > 0,
        hkv > 0,
        hq % hkv == 0,
    ensures
        0 <= (r % hq) / (hq / hkv) < hkv,
{
    let g = hq / hkv;
    lemma_fundamental_div_mod(hq, hkv);
    assert(g > 0) by (nonlinear_arith)
        requires
            hq == hkv * g,
            hq > 0,
            hkv > 0,
    ;
    lemma_mod_bound(r, hq);
    crate::backend_cpu::lemma_place(r % hq, hkv, g);
}

/// Rows that follow leave a head where it is.
proof fn lemma_head_stays(x: Content, y: Content, j: int, head: int)
    requires
        crate::stepwise::joins(x, y),
        x.dims.len() == 3,
        0 <= j < x.dims[0],
        0 <= head < x.dims[1],
    ensures
        crate::backend_cpu::head_at(x.followed_by(y), j, head) == crate::backend_cpu::head_at(x, j, head),
{
    lemma_heads(x, y);
    let (s, h, d) = (x.dims[0] as int, x.dims[1] as int, x.dims[2] as int);
    crate::backend_cpu::lemma_cell(j, head, s, h);
    lemma_rows_fit(j * h + head, s * h, d);
    lemma_chunk_left(x.cells, y.cells, j * h + head, d);
}

// --- what a query does not see -------------------------------------------------------------------

/// Whether two tensors of heads agree on the `j`-th key or value of each head.
pub open spec fn same_at(x: Content, y: Content, j: int) -> bool {
    forall|head: int|
        0 <= head < x.dims[1] ==> #[trigger] crate::backend_cpu::head_at(x, j, head) == crate::backend_cpu::head_at(y, j, head)
}

/// Values of weight zero do not count.
proof fn lemma_mixed_seen(
    e: spec_fn(Elementary, F32, F32) -> F32,
    s: Seq<F32>,
    top: F32,
    inv: F32,
    a: spec_fn(int) -> F32,
    b: spec_fn(int) -> F32,
)
    requires
        forall|j: int| 0 <= j < s.len() ==> #[trigger] a(j) == b(j) || s[j] == F32(NEG_INFINITY_F32),
    ensures
        crate::backend_cpu::mixed(e, s, top, inv, a) == crate::backend_cpu::mixed(e, s, top, inv, b),
    decreases s.len(),
{
    if s.len() > 0 {
        let n = s.len() - 1;
        let before = s.drop_last();
        assert forall|j: int| 0 <= j < before.len() implies #[trigger] a(j) == b(j) || before[j] == F32(NEG_INFINITY_F32) by {
            assert(before[j] == s[j]);
        }
        lemma_mixed_seen(e, before, top, inv, a, b);
        if a(n) != b(n) {
            assert(s[n] == F32(NEG_INFINITY_F32));
            F32(NEG_INFINITY_F32).minus_infinity_is_lowest();
            assert(crate::backend_cpu::raw_weight(e, s.last(), top) is None);
            inv.nothing_or_none(a(n), b(n));
        }
    }
}

/// Keys and values that a query does not see, later ones or those outside the
/// window, change nothing of what it gets, whatever they hold. `c` counts the
/// numbers of the result.
pub proof fn unseen_keys_change_nothing(
    e: spec_fn(Elementary, F32, F32) -> F32,
    q: Content,
    k: Content,
    v: Content,
    other_k: Content,
    other_v: Content,
    o: Attention,
    c: int,
)
    requires
        crate::stepwise::can_attend(q, k, v, o),
        crate::stepwise::can_attend(q, other_k, other_v, o),
        other_k.dims == k.dims,
        0 <= c < q.cells.len(),
        forall|j: int|
            0 <= j < o.k_pos.len() && crate::backend_cpu::sees(
                o,
                o.q_pos[c / q.dims[2] as int / q.dims[1] as int],
                #[trigger] o.k_pos[j],
            ) ==> same_at(k, other_k, j) && same_at(v, other_v, j),
    ensures
        crate::backend_cpu::cpu_attention(e, q, k, v, o)[c] == crate::backend_cpu::cpu_attention(
            e,
            q,
            other_k,
            other_v,
            o,
        )[c],
{
    let (hq, hkv, dh) = (q.dims[1] as int, k.dims[1] as int, q.dims[2] as int);
    let (r, d) = (c / dh, c % dh);
    lemma_query_head(q, c);
    lemma_head(r, hq, hkv);
    let head = (r % hq) / (hq / hkv);
    let query = crate::backend_cpu::chunk(q.cells, r, dh);
    let qpos = o.q_pos[r / hq];
    let (ka, kb) = (
        |x: int| crate::backend_cpu::head_at(k, x, head),
        |x: int| crate::backend_cpu::head_at(other_k, x, head),
    );
    let s = crate::backend_cpu::scores(e, query, qpos, ka, o);
    assert(s =~= crate::backend_cpu::scores(e, query, qpos, kb, o)) by {
        assert forall|j: int| 0 <= j < s.len() implies s[j] == #[trigger] crate::backend_cpu::scores(e, query, qpos, kb, o)[j] by {
            if crate::backend_cpu::sees(o, qpos, o.k_pos[j]) {
                assert(same_at(k, other_k, j));
                assert(ka(j) == kb(j));
            }
        }
    }
    let top = crate::backend_cpu::highest(s);
    let inv = crate::backend_cpu::inverse_sum(crate::backend_cpu::weight_sum(e, s, top));
    let (va, vb) = (
        |x: int| crate::backend_cpu::head_at(v, x, head)[d],
        |x: int| crate::backend_cpu::head_at(other_v, x, head)[d],
    );
    assert forall|j: int| 0 <= j < s.len() implies #[trigger] va(j) == vb(j) || s[j] == F32(NEG_INFINITY_F32) by {
        if crate::backend_cpu::sees(o, qpos, o.k_pos[j]) {
            assert(same_at(v, other_v, j));
            assert(crate::backend_cpu::head_at(v, j, head) == crate::backend_cpu::head_at(other_v, j, head));
        }
    }
    lemma_mixed_seen(e, s, top, inv, va, vb);
}

/// A number of the result belongs to a query and a head.
proof fn lemma_query_head(q: Content, c: int)
    requires
        q.is_plain(),
        q.dims.len() == 3,
        q.dims[2] > 0,
        0 <= c < q.cells.len(),
    ensures
        q.dims[1] > 0,
        0 <= c / (q.dims[2] as int) / (q.dims[1] as int) < q.dims[0],
        0 <= c % (q.dims[2] as int) < q.dims[2],
{
    assert(q.dims =~= seq![q.dims[0], q.dims[1], q.dims[2]]);
    crate::backend::product_of_three(q.dims[0], q.dims[1], q.dims[2]);
    lemma_mul_nonnegative(q.dims[0] as int, q.dims[1] as int);
    crate::backend_cpu::lemma_place(c, q.dims[0] * q.dims[1], q.dims[2] as int);
    crate::backend_cpu::lemma_place(c / q.dims[2] as int, q.dims[0] as int, q.dims[1] as int);
}

/// Scores of keys none of which is seen weigh nothing.
proof fn lemma_nothing_weighs(e: spec_fn(Elementary, F32, F32) -> F32, n: nat, top: F32, at: spec_fn(int) -> F32)
    ensures
        crate::backend_cpu::weight_sum(e, unseen(n), top) == F32(0),
        crate::backend_cpu::mixed(e, unseen(n), top, F32(0), at) == F32(0),
    decreases n,
{
    if n > 0 {
        assert(unseen(n).drop_last() =~= unseen((n - 1) as nat));
        lemma_nothing_weighs(e, (n - 1) as nat, top, at);
        F32(NEG_INFINITY_F32).minus_infinity_is_lowest();
        F32::zero_is_finite();
        F32(0).nothing_of_finite();
    }
}

/// A query that sees no key gets zeros.
pub proof fn nothing_seen_is_zero(
    e: spec_fn(Elementary, F32, F32) -> F32,
    q: Content,
    k: Content,
    v: Content,
    o: Attention,
    c: int,
)
    requires
        crate::stepwise::can_attend(q, k, v, o),
        0 <= c < q.cells.len(),
        forall|j: int|
            0 <= j < o.k_pos.len() ==> !crate::backend_cpu::sees(
                o,
                o.q_pos[c / q.dims[2] as int / q.dims[1] as int],
                #[trigger] o.k_pos[j],
            ),
    ensures
        crate::backend_cpu::cpu_attention(e, q, k, v, o)[c] == F32(0),
{
    let (hq, hkv, dh) = (q.dims[1] as int, k.dims[1] as int, q.dims[2] as int);
    let (r, d) = (c / dh, c % dh);
    let head = (r % hq) / (hq / hkv);
    let query = crate::backend_cpu::chunk(q.cells, r, dh);
    let s = crate::backend_cpu::scores(e, query, o.q_pos[r / hq], |x: int| crate::backend_cpu::head_at(k, x, head), o);
    assert(s =~= unseen(o.k_pos.len()));
    lemma_nothing_weighs(
        e,
        o.k_pos.len(),
        crate::backend_cpu::highest(s),
        |x: int| crate::backend_cpu::head_at(v, x, head)[d],
    );
}

// --- the law -------------------------------------------------------------------------------------

/// The reference arithmetic works row by row and does not look ahead, whatever
/// the elementary functions are apart from the exponential.
pub proof fn reference_is_row_wise(e: spec_fn(Elementary, F32, F32) -> F32)
    requires
        is_exponential(e),
    ensures
        crate::stepwise::row_wise(crate::backend_cpu::cpu_arithmetic(e)),
{
    let a = crate::backend_cpu::cpu_arithmetic(e);
    assert forall|table: Content, i: Seq<u32>, j: Seq<u32>, s: F32| #[trigger]
        crate::stepwise::embed_splits(a, table, i, j, s) by {
        lemma_embed(e, table, i, j, s);
    }
    assert forall|x: Content, y: Content, w: Option<Content>, eps: F32| #[trigger]
        crate::stepwise::norm_splits(a, x, y, w, eps) by {
        lemma_norm(e, x, y, w, eps);
    }
    assert forall|x: Content, y: Content, w: Content| #[trigger] crate::stepwise::linear_splits(a, x, y, w) by {
        lemma_linear(e, x, y, w);
    }
    assert forall|x: Content, y: Content, v: Content, w: Content| #[trigger]
        crate::stepwise::pair_splits(a.add_of, x, y, v, w) by {
        lemma_pairs(e, x, y, v, w);
    }
    assert forall|x: Content, y: Content, v: Content, w: Content| #[trigger]
        crate::stepwise::pair_splits(a.geglu_of, x, y, v, w) by {
        lemma_pairs(e, x, y, v, w);
    }
    assert forall|x: Content, y: Content, s: F32| #[trigger] crate::stepwise::scale_splits(a, x, y, s) by {
        lemma_scale(e, x, y, s);
    }
    assert forall|x: Content, y: Content, i: Seq<u32>, j: Seq<u32>, theta: F32, n: usize| #[trigger]
        crate::stepwise::rope_splits(a, x, y, i, j, theta, n) by {
        lemma_rope(e, x, y, i, j, theta, n);
    }
    assert forall|x: Content, y: Content, k: Content, v: Content, o: Attention, i: Seq<u32>, j: Seq<u32>| #[trigger]
        crate::stepwise::queries_split(a, x, y, k, v, o, i, j) by {
        lemma_queries(e, x, y, k, v, o, i, j);
    }
    assert forall|
        q: Content,
        k: KvSlot<Content>,
        more: KvSlot<Content>,
        o: Attention,
        i: Seq<u32>,
        j: Seq<u32>,
    | #[trigger] crate::stepwise::future_is_unseen(a, q, k, more, o, i, j) by {
        lemma_future(e, q, k, more, o, i, j);
    }
}

/// On the reference backend, decoding token by token gives exactly what the
/// full sequence gives.
pub proof fn incremental_decode_is_full_sequence(
    e: spec_fn(Elementary, F32, F32) -> F32,
    net: Net,
    m: Memory,
    ids: Seq<u32>,
    positions: Seq<u32>,
)
    requires
        is_exponential(e),
        net.fits(),
        net.owns(m),
        net.takes(m, ids, positions),
        ids.len() > 0,
        forall|x: int, y: int| 0 <= x < y < positions.len() ==> #[trigger] positions[x] < #[trigger] positions[y],
    ensures
        ({
            let a = crate::backend_cpu::cpu_arithmetic(e);
            let before = crate::stepwise::walked(net, a, m, ids, positions, (ids.len() - 1) as nat);
            &&& crate::stepwise::walked(net, a, m, ids, positions, ids.len()) == net.remembered(a, m, ids, positions)
            &&& net.logits(a, before, seq![ids.last()], seq![positions.last()]) == net.logits(a, m, ids, positions)
        }),
{
    reference_is_row_wise(e);
    crate::stepwise::one_by_one_is_at_once(net, crate::backend_cpu::cpu_arithmetic(e), m, ids, positions);
}

/// Where the output head has a row for every token, the logits number the
/// vocabulary.
pub proof fn logits_number_the_vocabulary(
    e: spec_fn(Elementary, F32, F32) -> F32,
    net: Net,
    m: Memory,
    ids: Seq<u32>,
    positions: Seq<u32>,
)
    requires
        net.top.lm_head.dims[0] == net.config.vocab_size,
    ensures
        net.logits(crate::backend_cpu::cpu_arithmetic(e), m, ids, positions).len() == net.config.vocab_size,
{
    let n = net.top.lm_head.dims[0] as int;
    lemma_mul_basics(n);
    assert((1usize * n) as nat == n);
}

/// Whether running the tokens of a prompt one at a time, from position 0 on,
/// leads from model to model and gives `logits`.
pub open spec fn ran_one_by_one<B: Backend, W: WeightSource<B>>(
    models: Seq<Gemma4Model<B, W>>,
    ids: Seq<u32>,
    logits: Seq<Seq<F32>>,
) -> bool {
    &&& models.len() == ids.len() + 1
    &&& logits.len() == ids.len()
    &&& forall|i: int|
        0 <= i < ids.len() ==> (#[trigger] models[i]).ran(models[i + 1], seq![ids[i]], seq![i as u32], logits[i])
}

proof fn lemma_walked<B: Backend, W: WeightSource<B>>(
    models: Seq<Gemma4Model<B, W>>,
    ids: Seq<u32>,
    logits: Seq<Seq<F32>>,
    n: nat,
)
    requires
        ran_one_by_one(models, ids, logits),
        n <= ids.len() <= u32::MAX,
    ensures
        models[n as int].net() == models[0].net(),
        models[n as int].backend == models[0].backend,
        models[n as int].cache.memory() == crate::stepwise::walked(
            models[0].net(),
            models[0].backend.arithmetic(),
            models[0].cache.memory(),
            ids,
            crate::engine::from_zero(ids.len()),
            n,
        ),
    decreases n,
{
    if n > 0 {
        let k = n - 1;
        lemma_walked(models, ids, logits, k as nat);
        assert(models[k].ran(models[k + 1], seq![ids[k]], seq![k as u32], logits[k]));
    }
}

/// A prompt run at once and a prompt run token by token, each by a model that
/// remembers nothing, on the reference backend: the logits are the same, one for
/// each token of the vocabulary, and both models remember the prompt.
pub proof fn fresh_models_agree<E: Fn(Elementary, F32, F32) -> F32, W: WeightSource<CpuBackend<E>>>(
    fresh: Gemma4Model<CpuBackend<E>, W>,
    after: Gemma4Model<CpuBackend<E>, W>,
    models: Seq<Gemma4Model<CpuBackend<E>, W>>,
    ids: Seq<u32>,
    x: Seq<F32>,
    logits: Seq<Seq<F32>>,
)
    requires
        is_exponential(fresh.backend.values()),
        fresh.net().fits(),
        fresh.net().owns(fresh.cache.memory()),
        fresh.net().takes(fresh.cache.memory(), ids, crate::engine::from_zero(ids.len())),
        fresh.net().top.lm_head.dims[0] == fresh.net().config.vocab_size,
        ids.len() <= u32::MAX,
        fresh.cache.memory().positions.len() == 0,
        fresh.ran(after, ids, crate::engine::from_zero(ids.len()), x),
        ran_one_by_one(models, ids, logits),
        models[0].net() == fresh.net(),
        models[0].backend == fresh.backend,
        models[0].cache.memory() == fresh.cache.memory(),
    ensures
        x == logits.last(),
        x.len() == fresh.net().config.vocab_size,
        after.cache.memory() == models.last().cache.memory(),
        after.cache.memory().positions == crate::engine::from_zero(ids.len()),
{
    let n = ids.len();
    let p = crate::engine::from_zero(n);
    let (net, m) = (fresh.net(), fresh.cache.memory());
    assert(n > 0);
    lemma_walked(models, ids, logits, n);
    lemma_walked(models, ids, logits, (n - 1) as nat);
    assert(models[n - 1].ran(models[n as int], seq![ids[n - 1]], seq![(n - 1) as u32], logits[n - 1]));
    incremental_decode_is_full_sequence(fresh.backend.values(), net, m, ids, p);
    assert(m.positions + p =~= p);
}

/// A model that forgot all tokens is empty, and gives for a prompt what it gave
/// when it was new.
pub proof fn reset_model_starts_anew<B: Backend, W: WeightSource<B>>(
    fresh: Gemma4Model<B, W>,
    after: Gemma4Model<B, W>,
    reset: Gemma4Model<B, W>,
    again: Gemma4Model<B, W>,
    ids: Seq<u32>,
    positions: Seq<u32>,
    x: Seq<F32>,
    y: Seq<F32>,
)
    requires
        fresh.cache.memory() == Memory::blank(fresh.config.num_hidden_layers as nat),
        fresh.ran(after, ids, positions, x),
        after.forgot(reset),
        reset.ran(again, ids, positions, y),
    ensures
        reset.cache.memory().positions.len() == 0,
        x == y,
        after.cache.memory() == again.cache.memory(),
{
}

} // verus!
