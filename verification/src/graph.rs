//! What the numbers of a forward pass are, cell by cell, on the reference
//! backend: which weight goes where.
use vstd::arithmetic::div_mod::*;
use vstd::arithmetic::mul::*;
use vstd::prelude::*;

use crate::backend::{Arithmetic, Attention, Backend, Content};
use crate::backend_cpu::Elementary;
use crate::config::{Gemma4Config, LayerType};
use crate::float::{F32, NEG_INFINITY_F32};
use crate::kvcache::{KvSlot, Memory};
use crate::model::{Flow, Gemma4Model, LayerWeights, Net};
use crate::weights::WeightSource;

verus! {

// --- tensors by their numbers --------------------------------------------------------------------

/// `x[i] * y[j] + x[i + 1] * y[j + 1] + ..`, `n` products from the left.
pub open spec fn inner(x: Seq<F32>, i: int, y: Seq<F32>, j: int, n: nat) -> F32
    decreases n,
{
    if n == 0 {
        F32(0)
    } else {
        inner(x, i, y, j, (n - 1) as nat).spec_plus(x[i + n - 1].spec_times(y[j + n - 1]))
    }
}

/// Rows of `d` numbers, each divided by the root of its mean square (to which
/// `eps` is added), and multiplied with a weight of its column, if there is one.
pub open spec fn is_normed(x: Seq<F32>, d: int, w: Option<Content>, eps: F32, y: Seq<F32>) -> bool {
    &&& d > 0
    &&& x.len() % d as nat == 0
    &&& y.len() == x.len()
    &&& forall|r: int, j: int|
        0 <= j < d && 0 <= r && r * d + j < x.len() ==> #[trigger] y[r * d + j] == {
            let square = inner(x, r * d, x, r * d, d as nat).spec_over(F32::spec_of_int(d));
            let z = x[r * d + j].spec_times(F32(0x3f80_0000).spec_over(square.spec_plus(eps).spec_root()));
            match w {
                Some(w) => z.spec_times(w.cells[j]),
                None => z,
            }
        }
}

/// `n` rows of `d` numbers, each multiplied with each row of a weight.
pub open spec fn is_product(x: Seq<F32>, n: int, d: int, w: Content, y: Seq<F32>) -> bool {
    let m = w.dims[0] as int;
    &&& w.dims.len() == 2
    &&& w.dims[1] == d
    &&& w.cells.len() >= m * d
    &&& x.len() == n * d
    &&& y.len() == n * m
    &&& forall|r: int, j: int| 0 <= r < n && 0 <= j < m ==> #[trigger] y[r * m + j] == inner(x, r * d, w.cells, j * d, d as nat)
}

/// Number by number added up.
pub open spec fn is_sum(x: Seq<F32>, y: Seq<F32>, z: Seq<F32>) -> bool {
    x.len() == y.len() == z.len() && forall|i: int| 0 <= i < x.len() ==> #[trigger] z[i] == x[i].spec_plus(y[i])
}

/// Number by number multiplied with one number.
pub open spec fn is_scaled(x: Seq<F32>, s: F32, y: Seq<F32>) -> bool {
    x.len() == y.len() && forall|i: int| 0 <= i < x.len() ==> #[trigger] y[i] == x[i].spec_times(s)
}

/// `gelu(v)` in its tanh form: `0.5 v (1 + tanh(sqrt(2 / pi) (v + 0.044715 v^3)))`.
pub open spec fn gelu_of(e: spec_fn(Elementary, F32, F32) -> F32, v: F32) -> F32 {
    let root = F32(0x4000_0000).spec_over(F32(0x4049_0fdb)).spec_root();
    let t = root.spec_times(v.spec_plus(F32(0x3d37_2713).spec_times(v).spec_times(v).spec_times(v)));
    F32(0x3f00_0000).spec_times(v).spec_times(F32(0x3f80_0000).spec_plus(e(Elementary::Tanh, t, t)))
}

/// Each number of `up` multiplied with the gelu of the one of `gate`.
pub open spec fn is_gated(e: spec_fn(Elementary, F32, F32) -> F32, gate: Seq<F32>, up: Seq<F32>, y: Seq<F32>) -> bool {
    gate.len() == up.len() == y.len() && forall|i: int|
        0 <= i < y.len() ==> #[trigger] y[i] == gelu_of(e, gate[i]).spec_times(up[i])
}

/// The rows of a table that ids pick, scaled.
pub open spec fn is_embedded(table: Content, ids: Seq<u32>, d: int, scale: F32, y: Seq<F32>) -> bool {
    &&& table.dims.len() == 2
    &&& table.dims[1] == d > 0
    &&& y.len() == ids.len() * d
    &&& forall|r: int, j: int|
        0 <= r < ids.len() && 0 <= j < d ==> #[trigger] y[r * d + j] == table.cells[ids[r] * d + j].spec_times(scale)
}

proof fn lemma_inner(x: Seq<F32>, i: int, y: Seq<F32>, j: int, n: nat)
    requires
        0 <= i,
        i + n <= x.len(),
        0 <= j,
        j + n <= y.len(),
    ensures
        crate::backend_cpu::dot(x.subrange(i, i + n), y.subrange(j, j + n)) == inner(x, i, y, j, n),
    decreases n,
{
    let (a, b) = (x.subrange(i, i + n), y.subrange(j, j + n));
    if n > 0 {
        let m = (n - 1) as nat;
        lemma_inner(x, i, y, j, m);
        lemma_dot_start(a.drop_last(), b, y.subrange(j, j + m));
        assert(a.drop_last() =~= x.subrange(i, i + m));
    }
}

proof fn lemma_dot_start(x: Seq<F32>, y: Seq<F32>, z: Seq<F32>)
    requires
        x.len() <= y.len(),
        x.len() <= z.len(),
        forall|i: int| 0 <= i < x.len() ==> y[i] == z[i],
    ensures
        crate::backend_cpu::dot(x, y) == crate::backend_cpu::dot(x, z),
    decreases x.len(),
{
    if x.len() > 0 {
        lemma_dot_start(x.drop_last(), y, z);
    }
}

proof fn lemma_normed(x: Content, w: Option<Content>, eps: F32, y: Seq<F32>)
    requires
        x.dims.len() > 0,
        is_normed(x.cells, x.dims.last() as int, w, eps, y),
    ensures
        crate::backend_cpu::cpu_norm(x, w, eps) == y,
{
    let d = x.dims.last() as int;
    let z = crate::backend_cpu::cpu_norm(x, w, eps);
    let n = x.cells.len() as int / d;
    lemma_fundamental_div_mod(x.cells.len() as int, d);
    lemma_mul_is_commutative(d, n);
    assert forall|c: int| 0 <= c < z.len() implies z[c] == y[c] by {
        let (r, j) = (c / d, c % d);
        crate::backend_cpu::lemma_place(c, n, d);
        crate::backend_cpu::lemma_cell(r, j, n, d);
        assert(y[r * d + j] == y[c]);
        lemma_inner(x.cells, r * d, x.cells, r * d, d as nat);
        assert(crate::backend_cpu::chunk(x.cells, r, d).len() == d);
    }
    assert(z =~= y);
}

proof fn lemma_product(x: Content, w: Content, y: Seq<F32>)
    requires
        x.dims.len() == 2,
        is_product(x.cells, x.dims[0] as int, x.dims[1] as int, w, y),
    ensures
        crate::backend_cpu::cpu_linear(x, w) == y,
{
    let (n, d, m) = (x.dims[0] as int, x.dims[1] as int, w.dims[0] as int);
    let z = crate::backend_cpu::cpu_linear(x, w);
    lemma_mul_nonnegative(n, m);
    assert forall|c: int| 0 <= c < z.len() implies z[c] == y[c] by {
        let (r, j) = (c / m, c % m);
        crate::backend_cpu::lemma_place(c, n, m);
        assert(y[r * m + j] == y[c]);
        lemma_rows(r, n, d);
        lemma_rows(j, m, d);
        lemma_inner(x.cells, r * d, w.cells, j * d, d as nat);
    }
    assert(z =~= y);
}

proof fn lemma_rows(r: int, n: int, d: int)
    requires
        0 <= r < n,
        0 <= d,
    ensures
        0 <= r * d,
        r * d + d <= n * d,
{
    assert(0 <= r * d && r * d + d <= n * d) by (nonlinear_arith)
        requires
            0 <= r < n,
            0 <= d,
    ;
}

proof fn lemma_gated(e: spec_fn(Elementary, F32, F32) -> F32, g: Content, u: Content, y: Seq<F32>)
    requires
        is_gated(e, g.cells, u.cells, y),
    ensures
        crate::backend_cpu::cpu_geglu(e, g, u) == y,
{
    let z = crate::backend_cpu::cpu_geglu(e, g, u);
    assert forall|i: int| 0 <= i < z.len() implies z[i] == y[i] by {
        assert(y[i] == gelu_of(e, g.cells[i]).spec_times(u.cells[i]));
    }
    assert(z =~= y);
}

proof fn lemma_embedded(table: Content, ids: Seq<u32>, scale: F32, y: Seq<F32>)
    requires
        table.dims.len() == 2,
        is_embedded(table, ids, table.dims[1] as int, scale, y),
    ensures
        crate::backend_cpu::cpu_embed(table, ids, scale) == y,
{
    let d = table.dims[1] as int;
    let z = crate::backend_cpu::cpu_embed(table, ids, scale);
    lemma_mul_nonnegative(ids.len() as int, d);
    assert forall|c: int| 0 <= c < z.len() implies z[c] == y[c] by {
        crate::backend_cpu::lemma_place(c, ids.len() as int, d);
        assert(y[(c / d) * d + c % d] == y[c]);
    }
    assert(z =~= y);
}

proof fn lemma_sum(x: Content, y: Content, z: Seq<F32>)
    requires
        is_sum(x.cells, y.cells, z),
    ensures
        crate::backend_cpu::cpu_add(x, y) == z,
{
    assert(crate::backend_cpu::cpu_add(x, y) =~= z);
}

proof fn lemma_scaled(x: Content, s: F32, y: Seq<F32>)
    requires
        is_scaled(x.cells, s, y),
    ensures
        crate::backend_cpu::cpu_scale(x, s) == y,
{
    assert(crate::backend_cpu::cpu_scale(x, s) =~= y);
}

// --- feed-forward --------------------------------------------------------------------------------

/// The feed-forward block, number by number: `x` is the stream normalized by
/// `pre_feedforward_layernorm`; `gate` and `up` are its products with
/// `mlp.gate_proj` and `mlp.up_proj`; in `block` each number of `up` is
/// multiplied with the gelu of that of `gate`; `down` is its product with
/// `mlp.down_proj`; and what that is when normalized by
/// `post_feedforward_layernorm` is added to the stream.
pub proof fn feed_forward_gates_up(
    e: spec_fn(Elementary, F32, F32) -> F32,
    c: Gemma4Config,
    l: LayerWeights<Content>,
    h: Content,
    x: Seq<F32>,
    gate: Seq<F32>,
    up: Seq<F32>,
    block: Seq<F32>,
    down: Seq<F32>,
    more: Seq<F32>,
    out: Seq<F32>,
)
    requires
        h.dims.len() == 2,
        is_normed(h.cells, h.dims[1] as int, Some(l.pre_ffn_ln), c.rms_norm_eps, x),
        is_product(x, h.dims[0] as int, h.dims[1] as int, l.gate_proj, gate),
        is_product(x, h.dims[0] as int, h.dims[1] as int, l.up_proj, up),
        is_gated(e, gate, up, block),
        is_product(block, h.dims[0] as int, l.gate_proj.dims[0] as int, l.down_proj, down),
        l.down_proj.dims[0] == h.dims[1],
        is_normed(down, h.dims[1] as int, Some(l.post_ffn_ln), c.rms_norm_eps, more),
        is_sum(h.cells, more, out),
    ensures
        crate::model::after_feed_forward(crate::backend_cpu::cpu_arithmetic(e), c, l, h) == crate::backend::plain(h.dims, out),
{
    let a = crate::backend_cpu::cpu_arithmetic(e);
    let eps = c.rms_norm_eps;
    lemma_normed(h, Some(l.pre_ffn_ln), eps, x);
    let xt = crate::backend::normed(a, h, Some(l.pre_ffn_ln), eps);
    lemma_product(xt, l.gate_proj, gate);
    lemma_product(xt, l.up_proj, up);
    let (gt, ut) = (crate::backend::projected(a, xt, l.gate_proj), crate::backend::projected(a, xt, l.up_proj));
    lemma_gated(e, gt, ut, block);
    let bt = crate::backend::gated(a, gt, ut);
    lemma_product(bt, l.down_proj, down);
    let dt = crate::backend::projected(a, bt, l.down_proj);
    lemma_normed(dt, Some(l.post_ffn_ln), eps, more);
    let nt = crate::backend::normed(a, dt, Some(l.post_ffn_ln), eps);
    lemma_sum(h, nt, out);
}

// --- attention -----------------------------------------------------------------------------------

/// Heads turned by their positions: of a head's first `rotary` numbers, each of
/// the first half turns with the one half of them on, by the angle
/// `position * theta^(-2j / rotary)`; the rest stays.
pub open spec fn is_turned(
    e: spec_fn(Elementary, F32, F32) -> F32,
    x: Seq<F32>,
    heads: int,
    dh: int,
    positions: Seq<u32>,
    theta: F32,
    rotary: usize,
    y: Seq<F32>,
) -> bool {
    let half = rotary as int / 2;
    &&& heads > 0
    &&& dh > 0
    &&& 2 * half <= dh
    &&& x.len() == positions.len() * heads * dh
    &&& y.len() == x.len()
    &&& forall|r: int, j: int|
        0 <= r < positions.len() * heads && 0 <= j < dh ==> #[trigger] y[r * dh + j] == {
            let k = if j < half {
                j
            } else {
                j - half
            };
            let exponent = F32(0x4000_0000).spec_times(F32::spec_of_int(k)).spec_negated().spec_over(
                F32::spec_of_int(rotary as int),
            );
            let t = F32::spec_of_int(positions[r / heads] as int).spec_times(e(Elementary::Power, theta, exponent));
            let (sin, cos) = (e(Elementary::Sin, t, t), e(Elementary::Cos, t, t));
            let at = r * dh + j;
            if j < half {
                x[at].spec_times(cos).spec_minus(x[at + half].spec_times(sin))
            } else if j < 2 * half {
                x[at].spec_times(cos).spec_plus(x[at - half].spec_times(sin))
            } else {
                x[at]
            }
        }
}

proof fn lemma_turned(
    e: spec_fn(Elementary, F32, F32) -> F32,
    x: Content,
    positions: Seq<u32>,
    theta: F32,
    rotary: usize,
    y: Seq<F32>,
)
    requires
        x.dims.len() == 3,
        x.dims[0] == positions.len(),
        is_turned(e, x.cells, x.dims[1] as int, x.dims[2] as int, positions, theta, rotary, y),
    ensures
        crate::backend_cpu::cpu_rope(e, x, positions, theta, rotary) == y,
{
    let (heads, dh) = (x.dims[1] as int, x.dims[2] as int);
    let n = positions.len() * heads;
    let z = crate::backend_cpu::cpu_rope(e, x, positions, theta, rotary);
    assert forall|c: int| 0 <= c < z.len() implies z[c] == y[c] by {
        let (r, j) = (c / dh, c % dh);
        crate::backend_cpu::lemma_place(c, n, dh);
        lemma_rows(r, n, dh);
        assert(y[r * dh + j] == y[c]);
        assert(crate::backend_cpu::chunk(x.cells, r, dh)[j] == x.cells[c]);
    }
    assert(z =~= y);
}

/// Heads normalized, if there is a weight for it, and then turned as the layer's
/// kind says.
pub open spec fn are_placed(
    e: spec_fn(Elementary, F32, F32) -> F32,
    c: Gemma4Config,
    i: int,
    x: Seq<F32>,
    heads: int,
    norm: Option<Content>,
    positions: Seq<u32>,
    mid: Seq<F32>,
    y: Seq<F32>,
) -> bool {
    let (dh, rope) = if c.layer_types@[i] == LayerType::Full {
        (c.global_head_dim, c.rope_full)
    } else {
        (c.head_dim, c.rope_sliding)
    };
    let rotary = F32::spec_of_int(dh as int).spec_times(rope.partial_rotary_factor).spec_rounded_count() as usize;
    &&& match norm {
        Some(w) => is_normed(x, dh as int, Some(w), c.rms_norm_eps, mid),
        None => mid == x,
    }
    &&& is_turned(e, mid, heads, dh as int, positions, rope.theta, rotary, y)
}

proof fn lemma_placed(
    e: spec_fn(Elementary, F32, F32) -> F32,
    c: Gemma4Config,
    i: int,
    x: Content,
    norm: Option<Content>,
    positions: Seq<u32>,
    mid: Seq<F32>,
    y: Seq<F32>,
)
    requires
        x.dims.len() == 3,
        !x.packed,
        x.dims[0] == positions.len(),
        x.dims[2] == c.spec_head_dim(i),
        are_placed(e, c, i, x.cells, x.dims[1] as int, norm, positions, mid, y),
    ensures
        crate::model::placed(crate::backend_cpu::cpu_arithmetic(e), c, i, x, norm, positions) == crate::backend::plain(x.dims, y),
{
    let a = crate::backend_cpu::cpu_arithmetic(e);
    if let Some(w) = norm {
        let flat = x.reshaped(seq![(x.dims[0] * x.dims[1]) as usize, x.dims[2]]);
        lemma_normed(flat, Some(w), c.rms_norm_eps, mid);
        assert(crate::backend::head_normed(a, x, Some(w), c.rms_norm_eps) == crate::backend::plain(x.dims, mid));
    } else {
        assert(x == crate::backend::plain(x.dims, mid));
    }
    lemma_turned(
        e,
        crate::backend::plain(x.dims, mid),
        positions,
        c.spec_rope_for(i).theta,
        crate::model::rotary_dim(c, i),
        y,
    );
}

/// The numbers of one layer's pass, in the order in which they come about.
pub struct Pass {
    /// The stream, normalized.
    pub x: Seq<F32>,
    pub q: (Seq<F32>, Seq<F32>, Seq<F32>),
    pub k: (Seq<F32>, Seq<F32>, Seq<F32>),
    pub v: (Seq<F32>, Seq<F32>),
    /// All keys and values.
    pub kv: Seq<Option<KvSlot<Content>>>,
    pub attention: (Seq<F32>, Seq<F32>),
    pub after_attention: Seq<F32>,
    /// The feed-forward block.
    pub y: Seq<F32>,
    pub gate: Seq<F32>,
    pub up: Seq<F32>,
    pub block: Seq<F32>,
    pub down: (Seq<F32>, Seq<F32>),
    pub after_block: Seq<F32>,
    /// The per-layer embedding.
    pub ple_gate: Seq<F32>,
    pub ple: Seq<F32>,
    pub ple_block: Seq<F32>,
    pub ple_down: (Seq<F32>, Seq<F32>),
    pub after_ple: Seq<F32>,
    pub out: Seq<F32>,
}

/// Keys or values with those of new tokens behind them.
pub open spec fn with_rows(old: Option<Content>, t: int, heads: usize, dh: usize, more: Seq<F32>) -> Content {
    match old {
        Some(x) => Content { dims: seq![(x.dims[0] + t) as usize, heads, dh], cells: x.cells + more, packed: false },
        None => Content { dims: seq![t as usize, heads, dh], cells: more, packed: false },
    }
}

/// Whether a pass attends as a layer says. Queries, keys and values are products
/// of the stream, normalized by `input_layernorm`, with the layer's `q_proj`,
/// `k_proj` and `v_proj`. Queries and keys are normalized head by head by
/// `q_norm` and `k_norm` and turned, values normalized without a weight; new keys
/// and values go behind the old ones of the layer. A layer that shares keys and
/// values makes none, and reads those of its source. Nothing is scaled or capped,
/// and only a full layer looks beyond the window.
pub open spec fn attends(
    e: spec_fn(Elementary, F32, F32) -> F32,
    c: Gemma4Config,
    i: int,
    l: LayerWeights<Content>,
    f: Flow,
    positions: Seq<u32>,
    k_pos: Seq<u32>,
    p: Pass,
) -> bool {
    let (t, d) = (positions.len() as int, f.h.dims[1] as int);
    let full = c.layer_types@[i] == LayerType::Full;
    let (hq, hkv, dh) = (c.num_attention_heads, c.num_key_value_heads, if full {
        c.global_head_dim
    } else {
        c.head_dim
    });
    let source = c.kv_source(i);
    let o = Attention {
        q_pos: positions,
        k_pos,
        scale: F32(0x3f80_0000),
        sliding_window: if full {
            0
        } else {
            c.sliding_window
        },
        attn_softcap: F32(0),
    };
    &&& f.h.dims == seq![t as usize, d as usize]
    &&& t <= usize::MAX
    &&& is_normed(f.h.cells, d, Some(l.input_ln), c.rms_norm_eps, p.x)
    &&& is_product(p.x, t, d, l.q_proj, p.q.0)
    &&& l.q_proj.dims[0] == hq * dh
    &&& are_placed(e, c, i, p.q.0, hq as int, l.q_norm, positions, p.q.1, p.q.2)
    &&& 0 <= source < f.kv.len()
    &&& if source == i {
        &&& l.k_proj matches Some(w) && is_product(p.x, t, d, w, p.k.0) && w.dims[0] == hkv * dh
        &&& are_placed(e, c, i, p.k.0, hkv as int, l.k_norm, positions, p.k.1, p.k.2)
        &&& l.v_proj matches Some(w) && is_product(p.x, t, d, w, p.v.0) && w.dims[0] == hkv * dh
        &&& is_normed(p.v.0, dh as int, None, c.rms_norm_eps, p.v.1)
        &&& p.kv.len() == f.kv.len()
        &&& forall|j: int| 0 <= j < p.kv.len() && j != i ==> #[trigger] p.kv[j] == f.kv[j]
        &&& p.kv[i] == Some(
            match f.kv[i] {
                Some(s) => KvSlot {
                    k: with_rows(Some(s.k), t, hkv, dh, p.k.2),
                    v: with_rows(Some(s.v), t, hkv, dh, p.v.1),
                },
                None => KvSlot { k: with_rows(None, t, hkv, dh, p.k.2), v: with_rows(None, t, hkv, dh, p.v.1) },
            },
        )
    } else {
        p.kv == f.kv
    }
    &&& p.attention.0 == crate::backend_cpu::cpu_attention(
        e,
        Content { dims: seq![t as usize, hq, dh], cells: p.q.2, packed: false },
        p.kv[source]->0.k,
        p.kv[source]->0.v,
        o,
    )
    &&& is_product(p.attention.0, t, hq * dh, l.o_proj, p.attention.1)
    &&& l.o_proj.dims[0] == d
}

proof fn lemma_rows_behind(old: Option<Content>, x: Content, t: int, heads: usize, dh: usize)
    requires
        x.dims == seq![t as usize, heads, dh],
        !x.packed,
        0 <= t <= usize::MAX,
    ensures
        crate::backend::joined_rows(old, x) == with_rows(old, t, heads, dh, x.cells),
{
    if let Some(s) = old {
        assert(x.dims.update(0, (s.dims[0] + x.dims[0]) as usize) =~= seq![(s.dims[0] + t) as usize, heads, dh]);
    }
}

proof fn lemma_attends(
    e: spec_fn(Elementary, F32, F32) -> F32,
    c: Gemma4Config,
    i: int,
    l: LayerWeights<Content>,
    f: Flow,
    positions: Seq<u32>,
    k_pos: Seq<u32>,
    p: Pass,
)
    requires
        attends(e, c, i, l, f, positions, k_pos, p),
    ensures
        ({
            let a = crate::backend_cpu::cpu_arithmetic(e);
            let x = crate::backend::normed(a, f.h, Some(l.input_ln), c.rms_norm_eps);
            let kv = crate::model::slots_after(a, c, i, l, x, positions, Memory { kv: f.kv, positions: k_pos });
            &&& kv == p.kv
            &&& crate::model::attention_out(a, c, i, l, x, positions, kv[c.kv_source(i)]->0, k_pos) == crate::backend::plain(
                f.h.dims,
                p.attention.1,
            )
        }),
{
    let a = crate::backend_cpu::cpu_arithmetic(e);
    let (t, d) = (positions.len() as int, f.h.dims[1] as int);
    let dh = c.spec_head_dim(i);
    let (hq, hkv) = (c.num_attention_heads, c.num_key_value_heads);
    let source = c.kv_source(i);
    lemma_normed(f.h, Some(l.input_ln), c.rms_norm_eps, p.x);
    let x = crate::backend::normed(a, f.h, Some(l.input_ln), c.rms_norm_eps);
    lemma_product(x, l.q_proj, p.q.0);
    let q0 = crate::model::as_heads(crate::backend::projected(a, x, l.q_proj), hq, dh);
    lemma_placed(e, c, i, q0, l.q_norm, positions, p.q.1, p.q.2);
    let q = crate::model::queries(a, c, i, l, x, positions);
    assert(q == crate::backend::plain(seq![t as usize, hq, dh], p.q.2));
    let kv = crate::model::slots_after(a, c, i, l, x, positions, Memory { kv: f.kv, positions: k_pos });
    if source == i {
        let (wk, wv) = (l.k_proj->0, l.v_proj->0);
        lemma_product(x, wk, p.k.0);
        lemma_product(x, wv, p.v.0);
        let k0 = crate::model::as_heads(crate::backend::projected(a, x, wk), hkv, dh);
        lemma_placed(e, c, i, k0, l.k_norm, positions, p.k.1, p.k.2);
        let v0 = crate::model::as_heads(crate::backend::projected(a, x, wv), hkv, dh);
        let flat = v0.reshaped(seq![(v0.dims[0] * v0.dims[1]) as usize, v0.dims[2]]);
        lemma_normed(flat, None, c.rms_norm_eps, p.v.1);
        let (k, v) = (crate::model::keys(a, c, i, l, x, positions), crate::model::values(a, c, i, l, x));
        assert(k == crate::backend::plain(seq![t as usize, hkv, dh], p.k.2));
        assert(v == crate::backend::plain(seq![t as usize, hkv, dh], p.v.1));
        if let Some(s) = f.kv[i] {
            lemma_rows_behind(Some(s.k), k, t, hkv, dh);
            lemma_rows_behind(Some(s.v), v, t, hkv, dh);
        }
        assert(kv[i] == p.kv[i]);
        assert(kv =~= p.kv);
    }
    let o = crate::model::attention_options(c, i, positions, k_pos);
    let slot = kv[source]->0;
    let att = crate::backend::attended(a, q, slot.k, slot.v, o);
    assert(att.cells == p.attention.0);
    assert(att.dims[1] == hq * dh);
    lemma_product(att, l.o_proj, p.attention.1);
    assert(crate::backend::projected(a, att, l.o_proj).dims =~= f.h.dims);
}

// --- a layer -------------------------------------------------------------------------------------

/// Whether a pass goes on as a layer says. What attention gives is normalized by
/// `post_attention_layernorm` and added to the stream. Then comes the
/// feed-forward block: the stream normalized by `pre_feedforward_layernorm`, its
/// products with `mlp.gate_proj` and `mlp.up_proj`, the second gated by the gelu of
/// the first, the product of that with `mlp.down_proj`, normalized by
/// `post_feedforward_layernorm` and added. Then the layer's own columns of the
/// per-layer embedding, gated by the gelu of the product with
/// `per_layer_input_gate`, multiplied with `per_layer_projection`, normalized and
/// added; and the whole is scaled by `layer_scalar`.
pub open spec fn goes_through(
    e: spec_fn(Elementary, F32, F32) -> F32,
    c: Gemma4Config,
    i: int,
    l: LayerWeights<Content>,
    h: Content,
    ple: Content,
    p: Pass,
) -> bool {
    let (t, d, eps) = (h.dims[0] as int, h.dims[1] as int, c.rms_norm_eps);
    &&& h.dims.len() == 2
    &&& !h.packed
    &&& is_sum_of_normed(h.cells, p.attention.1, d, l.post_attn_ln, eps, p.after_attention)
    &&& is_normed(p.after_attention, d, Some(l.pre_ffn_ln), eps, p.y)
    &&& is_product(p.y, t, d, l.gate_proj, p.gate)
    &&& is_product(p.y, t, d, l.up_proj, p.up)
    &&& is_gated(e, p.gate, p.up, p.block)
    &&& is_product(p.block, t, l.gate_proj.dims[0] as int, l.down_proj, p.down.0)
    &&& l.down_proj.dims[0] == d
    &&& is_normed(p.down.0, d, Some(l.post_ffn_ln), eps, p.down.1)
    &&& is_sum(p.after_attention, p.down.1, p.after_block)
    &&& match (l.ple_gate, l.ple_proj) {
        (Some(gate), Some(proj)) => {
            let w = gate.dims[0] as int;
            &&& is_product(p.after_block, t, d, gate, p.ple_gate)
            &&& p.ple.len() == t * w
            &&& forall|r: int, j: int|
                0 <= r < t && 0 <= j < w ==> #[trigger] p.ple[r * w + j] == ple.cells[r * ple.dims[1] + i
                    * c.hidden_size_per_layer_input + j]
            &&& ple.dims[0] == t
            &&& is_gated(e, p.ple_gate, p.ple, p.ple_block)
            &&& is_product(p.ple_block, t, w, proj, p.ple_down.0)
            &&& proj.dims[0] == d
            &&& match l.ple_norm {
                Some(norm) => is_sum_of_normed(p.after_block, p.ple_down.0, d, norm, eps, p.after_ple),
                None => is_sum(p.after_block, p.ple_down.0, p.after_ple),
            }
        },
        _ => p.after_ple == p.after_block,
    }
    &&& match l.layer_scalar {
        Some(s) => is_scaled(p.after_ple, s.cells[0], p.out),
        None => p.out == p.after_ple,
    }
}

/// Rows, normalized, added to others.
pub open spec fn is_sum_of_normed(x: Seq<F32>, y: Seq<F32>, d: int, w: Content, eps: F32, z: Seq<F32>) -> bool {
    exists|n: Seq<F32>| #[trigger] is_normed(y, d, Some(w), eps, n) && is_sum(x, n, z)
}

proof fn lemma_norm_added(
    e: spec_fn(Elementary, F32, F32) -> F32,
    x: Content,
    y: Content,
    w: Content,
    eps: F32,
    z: Seq<F32>,
)
    requires
        x.dims.len() == 2,
        y.dims == x.dims,
        is_sum_of_normed(x.cells, y.cells, x.dims[1] as int, w, eps, z),
    ensures
        crate::backend::summed(
            crate::backend_cpu::cpu_arithmetic(e),
            x,
            crate::backend::normed(crate::backend_cpu::cpu_arithmetic(e), y, Some(w), eps),
        ) == crate::backend::plain(x.dims, z),
{
    let a = crate::backend_cpu::cpu_arithmetic(e);
    let n = choose|n: Seq<F32>| #[trigger] is_normed(y.cells, x.dims[1] as int, Some(w), eps, n) && is_sum(x.cells, n, z);
    lemma_normed(y, Some(w), eps, n);
    lemma_sum(x, crate::backend::normed(a, y, Some(w), eps), z);
}

proof fn lemma_after_embedding(
    e: spec_fn(Elementary, F32, F32) -> F32,
    c: Gemma4Config,
    i: int,
    l: LayerWeights<Content>,
    h: Content,
    ple: Content,
    p: Pass,
)
    requires
        goes_through(e, c, i, l, h, ple, p),
    ensures
        crate::model::after_embedding(
            crate::backend_cpu::cpu_arithmetic(e),
            c,
            i,
            l,
            crate::backend::plain(h.dims, p.after_block),
            ple,
        ) == crate::backend::plain(h.dims, p.out),
{
    let a = crate::backend_cpu::cpu_arithmetic(e);
    let (t, d, eps) = (h.dims[0] as int, h.dims[1] as int, c.rms_norm_eps);
    let x = crate::backend::plain(h.dims, p.after_block);
    let z = crate::backend::plain(h.dims, p.after_ple);
    if let Some(s) = l.layer_scalar {
        lemma_scaled(z, s.cells[0], p.out);
    }
    if let (Some(gate), Some(proj)) = (l.ple_gate, l.ple_proj) {
        let w = gate.dims[0] as int;
        lemma_product(x, gate, p.ple_gate);
        let g = crate::backend::projected(a, x, gate);
        let part = ple.columns(i * c.hidden_size_per_layer_input, w);
        lemma_mul_nonnegative(t, w);
        assert(part.cells =~= p.ple) by {
            assert forall|k: int| 0 <= k < part.cells.len() implies part.cells[k] == p.ple[k] by {
                crate::backend_cpu::lemma_place(k, t, w);
                assert(p.ple[(k / w) * w + k % w] == p.ple[k]);
            }
        }
        lemma_gated(e, g, part, p.ple_block);
        let block = crate::backend::gated(a, g, part);
        lemma_product(block, proj, p.ple_down.0);
        let inj = crate::backend::projected(a, block, proj);
        assert(inj.dims =~= h.dims);
        match l.ple_norm {
            Some(norm) => {
                lemma_norm_added(e, x, inj, norm, eps, p.after_ple);
            },
            None => {
                lemma_sum(x, inj, p.after_ple);
            },
        }
    }
}

/// One layer, number by number: what a pass that attends and goes on as the
/// layer says comes to.
pub proof fn layer_is_a_pass(
    e: spec_fn(Elementary, F32, F32) -> F32,
    c: Gemma4Config,
    i: int,
    l: LayerWeights<Content>,
    f: Flow,
    ple: Content,
    positions: Seq<u32>,
    k_pos: Seq<u32>,
    p: Pass,
)
    requires
        attends(e, c, i, l, f, positions, k_pos, p),
        goes_through(e, c, i, l, f.h, ple, p),
    ensures
        crate::model::layer_out(crate::backend_cpu::cpu_arithmetic(e), c, i, l, f, ple, positions, k_pos) == (Flow {
            h: crate::backend::plain(f.h.dims, p.out),
            kv: p.kv,
        }),
{
    let a = crate::backend_cpu::cpu_arithmetic(e);
    lemma_attends(e, c, i, l, f, positions, k_pos, p);
    let attn = crate::backend::plain(f.h.dims, p.attention.1);
    lemma_norm_added(e, f.h, attn, l.post_attn_ln, c.rms_norm_eps, p.after_attention);
    let h1 = crate::backend::plain(f.h.dims, p.after_attention);
    assert(crate::model::after_attention(a, c, l, f.h, attn) == h1);
    feed_forward_gates_up(e, c, l, h1, p.y, p.gate, p.up, p.block, p.down.0, p.down.1, p.after_block);
    lemma_after_embedding(e, c, i, l, f.h, ple, p);
}

// --- the network ---------------------------------------------------------------------------------

/// The embeddings for the layers: those of `embed_tokens_per_layer`, scaled by
/// the root of a layer's share; and, where there is a projection, added to what
/// the token embedding is multiplied with it and normalized share by share, the
/// sum over the root of two.
pub open spec fn is_per_layer(
    net: Net,
    ids: Seq<u32>,
    h: Seq<F32>,
    d: int,
    emb: Seq<F32>,
    proj: (Seq<F32>, Seq<F32>, Seq<F32>),
    ple: Seq<F32>,
) -> bool {
    let share = net.config.hidden_size_per_layer_input as int;
    let all = net.config.num_hidden_layers * share;
    &&& is_embedded(net.top.embed_per_layer, ids, all, F32::spec_of_int(share).spec_root(), emb)
    &&& match (net.top.ple_proj, net.top.ple_proj_norm) {
        (Some(w), Some(norm)) => {
            &&& is_product(h, ids.len() as int, d, w, proj.0)
            &&& w.dims[0] == all
            &&& is_normed(proj.0, share, Some(norm), net.config.rms_norm_eps, proj.1)
            &&& is_sum(proj.1, emb, proj.2)
            &&& is_scaled(proj.2, F32(0x3f35_04f3), ple)
        },
        _ => ple == emb,
    }
}

proof fn lemma_per_layer(
    e: spec_fn(Elementary, F32, F32) -> F32,
    net: Net,
    ids: Seq<u32>,
    h: Seq<F32>,
    emb: Seq<F32>,
    proj: (Seq<F32>, Seq<F32>, Seq<F32>),
    ple: Seq<F32>,
)
    requires
        ids.len() <= usize::MAX,
        net.top.embed.dims.len() == 2,
        is_embedded(
            net.top.embed,
            ids,
            net.top.embed.dims[1] as int,
            F32::spec_of_int(net.config.hidden_size as int).spec_root(),
            h,
        ),
        is_per_layer(net, ids, h, net.top.embed.dims[1] as int, emb, proj, ple),
    ensures
        net.per_layer(crate::backend_cpu::cpu_arithmetic(e), ids) == crate::backend::plain(
            seq![ids.len() as usize, net.top.embed_per_layer.dims[1]],
            ple,
        ),
{
    let a = crate::backend_cpu::cpu_arithmetic(e);
    let share = net.config.hidden_size_per_layer_input;
    let n = net.config.num_hidden_layers;
    lemma_embedded(net.top.embed_per_layer, ids, F32::spec_of_int(share as int).spec_root(), emb);
    lemma_embedded(net.top.embed, ids, F32::spec_of_int(net.config.hidden_size as int).spec_root(), h);
    if let (Some(w), Some(norm)) = (net.top.ple_proj, net.top.ple_proj_norm) {
        let x = net.embedding(a, ids);
        lemma_product(x, w, proj.0);
        let p0 = crate::backend::projected(a, x, w).reshaped(seq![(ids.len() * n) as usize, share]);
        lemma_normed(p0, Some(norm), net.config.rms_norm_eps, proj.1);
        let p1 = crate::backend::normed(a, p0, Some(norm), net.config.rms_norm_eps).reshaped(
            seq![ids.len() as usize, (n * share) as usize],
        );
        let et = crate::backend::plain(seq![ids.len() as usize, net.top.embed_per_layer.dims[1]], emb);
        lemma_sum(p1, et, proj.2);
        lemma_scaled(crate::backend::summed(a, p1, et), F32(0x3f35_04f3), ple);
    }
}

/// Whether passes follow each other, layer by layer.
pub open spec fn are_passes(
    e: spec_fn(Elementary, F32, F32) -> F32,
    net: Net,
    ple: Content,
    positions: Seq<u32>,
    k_pos: Seq<u32>,
    flows: Seq<Flow>,
    passes: Seq<Pass>,
) -> bool {
    &&& passes.len() == net.layers.len()
    &&& flows.len() == passes.len() + 1
    &&& forall|i: int|
        0 <= i < passes.len() ==> {
            &&& attends(e, net.config, i, net.layers[i], flows[i], positions, k_pos, #[trigger] passes[i])
            &&& goes_through(e, net.config, i, net.layers[i], flows[i].h, ple, passes[i])
            &&& flows[i + 1] == (Flow { h: crate::backend::plain(flows[i].h.dims, passes[i].out), kv: passes[i].kv })
        }
}

/// Whether a layer leads from one flow to the next.
spec fn is_led(
    a: Arithmetic,
    net: Net,
    ple: Content,
    positions: Seq<u32>,
    k_pos: Seq<u32>,
    flows: Seq<Flow>,
    i: int,
) -> bool {
    &&& flows[i + 1] == crate::model::layer_out(a, net.config, i, net.layers[i], flows[i], ple, positions, k_pos)
    &&& flows[i + 1].h.dims == flows[i].h.dims
}

proof fn lemma_led(
    a: Arithmetic,
    net: Net,
    ple: Content,
    positions: Seq<u32>,
    k_pos: Seq<u32>,
    flows: Seq<Flow>,
    n: int,
)
    requires
        0 <= n < flows.len(),
        forall|i: int| 0 <= i < n ==> #[trigger] is_led(a, net, ple, positions, k_pos, flows, i),
    ensures
        net.through(a, n, flows[0], ple, positions, k_pos) == flows[n],
        flows[n].h.dims == flows[0].h.dims,
    decreases n,
{
    if n > 0 {
        lemma_led(a, net, ple, positions, k_pos, flows, n - 1);
        assert(is_led(a, net, ple, positions, k_pos, flows, n - 1));
    }
}

proof fn lemma_through(
    e: spec_fn(Elementary, F32, F32) -> F32,
    net: Net,
    ple: Content,
    positions: Seq<u32>,
    k_pos: Seq<u32>,
    flows: Seq<Flow>,
    passes: Seq<Pass>,
)
    requires
        are_passes(e, net, ple, positions, k_pos, flows, passes),
    ensures
        net.through(crate::backend_cpu::cpu_arithmetic(e), passes.len() as int, flows[0], ple, positions, k_pos)
            == flows.last(),
        flows.last().h.dims == flows[0].h.dims,
{
    let a = crate::backend_cpu::cpu_arithmetic(e);
    assert forall|i: int| 0 <= i < passes.len() implies #[trigger] is_led(a, net, ple, positions, k_pos, flows, i) by {
        let p = passes[i];
        layer_is_a_pass(e, net.config, i, net.layers[i], flows[i], ple, positions, k_pos, p);
    }
    lemma_led(a, net, ple, positions, k_pos, flows, passes.len() as int);
}

/// A forward pass, number by number: the rows of `embed_tokens` that the ids
/// pick, scaled by the root of the hidden size, go through the layers; the last
/// row of what comes out, normalized by the final norm, is multiplied with the
/// rows of the output head. Nothing is done to the logits. What is remembered is
/// what the layers keep, and the positions.
pub proof fn forward_is_its_passes(
    e: spec_fn(Elementary, F32, F32) -> F32,
    net: Net,
    m: Memory,
    ids: Seq<u32>,
    positions: Seq<u32>,
    h: Seq<F32>,
    emb: Seq<F32>,
    proj: (Seq<F32>, Seq<F32>, Seq<F32>),
    ple: Seq<F32>,
    flows: Seq<Flow>,
    passes: Seq<Pass>,
    x: Seq<F32>,
    logits: Seq<F32>,
)
    requires
        0 < ids.len() <= usize::MAX,
        positions.len() == ids.len(),
        net.top.embed.dims.len() == 2,
        is_embedded(
            net.top.embed,
            ids,
            net.top.embed.dims[1] as int,
            F32::spec_of_int(net.config.hidden_size as int).spec_root(),
            h,
        ),
        is_per_layer(net, ids, h, net.top.embed.dims[1] as int, emb, proj, ple),
        flows.len() > 0,
        flows[0] == (Flow {
            h: crate::backend::plain(seq![ids.len() as usize, net.top.embed.dims[1]], h),
            kv: m.kv,
        }),
        are_passes(
            e,
            net,
            crate::backend::plain(seq![ids.len() as usize, net.top.embed_per_layer.dims[1]], ple),
            positions,
            m.positions + positions,
            flows,
            passes,
        ),
        is_normed(
            flows.last().h.cells,
            net.top.embed.dims[1] as int,
            Some(net.top.final_norm),
            net.config.rms_norm_eps,
            x,
        ),
        x.len() == ids.len() * net.top.embed.dims[1],
        net.top.lm_head.dims.len() == 2,
        net.top.lm_head.dims[1] == net.top.embed.dims[1],
        net.top.lm_head.cells.len() >= net.top.lm_head.dims[0] * net.top.lm_head.dims[1],
        logits.len() == net.top.lm_head.dims[0],
        forall|j: int|
            0 <= j < logits.len() ==> #[trigger] logits[j] == inner(
                x,
                (ids.len() - 1) * net.top.embed.dims[1],
                net.top.lm_head.cells,
                j * net.top.embed.dims[1],
                net.top.embed.dims[1] as nat,
            ),
    ensures
        net.logits(crate::backend_cpu::cpu_arithmetic(e), m, ids, positions) == logits,
        net.remembered(crate::backend_cpu::cpu_arithmetic(e), m, ids, positions) == (Memory {
            kv: flows.last().kv,
            positions: m.positions + positions,
        }),
{
    let a = crate::backend_cpu::cpu_arithmetic(e);
    let (t, d, n) = (ids.len() as int, net.top.embed.dims[1] as int, net.top.lm_head.dims[0] as int);
    let pt = crate::backend::plain(seq![ids.len() as usize, net.top.embed_per_layer.dims[1]], ple);
    lemma_embedded(net.top.embed, ids, F32::spec_of_int(net.config.hidden_size as int).spec_root(), h);
    lemma_per_layer(e, net, ids, h, emb, proj, ple);
    lemma_through(e, net, pt, positions, m.positions + positions, flows, passes);
    let out = flows.last();
    assert(net.run(a, m, ids, positions) == out);
    lemma_normed(out.h, Some(net.top.final_norm), net.config.rms_norm_eps, x);
    let xt = crate::backend::normed(a, out.h, Some(net.top.final_norm), net.config.rms_norm_eps);
    lemma_rows(t - 1, t, d);
    assert((t - 1 + 1) * d == (t - 1) * d + d) by (nonlinear_arith);
    let last = xt.rows(t - 1, 1);
    let from = (t - 1) * d;
    assert(last.cells =~= x.subrange(from, from + d));
    lemma_mul_basics(n);
    lemma_mul_basics(d);
    assert forall|r: int, j: int| 0 <= r < 1 && 0 <= j < n implies #[trigger] logits[r * n + j] == inner(
        last.cells,
        r * d,
        net.top.lm_head.cells,
        j * d,
        d as nat,
    ) by {
        assert(r * n + j == j);
        lemma_inner_part(x, from, net.top.lm_head.cells, j * d, d as nat, d as nat);
    }
    assert(is_product(last.cells, 1, d, net.top.lm_head, logits));
    lemma_product(last, net.top.lm_head, logits);
}

proof fn lemma_inner_part(x: Seq<F32>, from: int, y: Seq<F32>, j: int, n: nat, d: nat)
    requires
        0 <= from,
        from + d <= x.len(),
        n <= d,
    ensures
        inner(x.subrange(from, from + d), 0, y, j, n) == inner(x, from, y, j, n),
    decreases n,
{
    if n > 0 {
        lemma_inner_part(x, from, y, j, (n - 1) as nat, d);
    }
}

// --- which weight --------------------------------------------------------------------------------

/// The weights of a model are those of its source, by name.
pub proof fn weights_go_by_name<B: Backend, W: WeightSource<B>>(model: Gemma4Model<B, W>, i: int)
    requires
        0 <= i < model.config.num_hidden_layers,
    ensures
        ({
            let (w, top, l) = (model.weights, model.net().top, model.net().layers[i]);
            let at = "language_model.layers."@ + crate::text::decimal_text(i as nat) + "."@;
            let own = model.config.kv_source(i) == i;
            &&& model.net().config == *model.config
            &&& model.net().layers.len() == model.config.num_hidden_layers
            &&& w.held("language_model.embed_tokens.weight"@) matches Some(x) ==> top.embed == x
            &&& w.held("language_model.embed_tokens_per_layer.weight"@) matches Some(x) ==> top.embed_per_layer == x
            &&& top.ple_proj == w.held("language_model.per_layer_model_projection.weight"@)
            &&& top.ple_proj_norm == w.held("language_model.per_layer_projection_norm.weight"@)
            &&& w.held("language_model.norm.weight"@) matches Some(x) ==> top.final_norm == x
            &&& w.held("lm_head.weight"@) matches Some(x) ==> top.lm_head == x
            &&& w.held(at + "input_layernorm.weight"@) matches Some(x) ==> l.input_ln == x
            &&& w.held(at + "self_attn.q_proj.weight"@) matches Some(x) ==> l.q_proj == x
            &&& l.q_norm == w.held(at + "self_attn.q_norm.weight"@)
            &&& own ==> l.k_proj == w.held(at + "self_attn.k_proj.weight"@)
            &&& own ==> l.v_proj == w.held(at + "self_attn.v_proj.weight"@)
            &&& own ==> l.k_norm == w.held(at + "self_attn.k_norm.weight"@)
            &&& w.held(at + "self_attn.o_proj.weight"@) matches Some(x) ==> l.o_proj == x
            &&& w.held(at + "post_attention_layernorm.weight"@) matches Some(x) ==> l.post_attn_ln == x
            &&& w.held(at + "pre_feedforward_layernorm.weight"@) matches Some(x) ==> l.pre_ffn_ln == x
            &&& w.held(at + "mlp.gate_proj.weight"@) matches Some(x) ==> l.gate_proj == x
            &&& w.held(at + "mlp.up_proj.weight"@) matches Some(x) ==> l.up_proj == x
            &&& w.held(at + "mlp.down_proj.weight"@) matches Some(x) ==> l.down_proj == x
            &&& w.held(at + "post_feedforward_layernorm.weight"@) matches Some(x) ==> l.post_ffn_ln == x
            &&& l.ple_gate == w.held(at + "per_layer_input_gate.weight"@)
            &&& l.ple_proj == w.held(at + "per_layer_projection.weight"@)
            &&& l.ple_norm == w.held(at + "post_per_layer_input_norm.weight"@)
            &&& l.layer_scalar == w.held(at + "layer_scalar"@)
        }),
{
}

/// The last layers share keys and values: each reads those of the last layer
/// before them that is of its kind. All others read their own.
pub proof fn shared_layers_read_the_last_of_their_kind(c: Gemma4Config, i: int, j: int)
    requires
        c.num_kv_shared_layers <= c.num_hidden_layers,
        0 <= i < c.num_hidden_layers,
        0 <= j < c.num_hidden_layers - c.num_kv_shared_layers,
    ensures
        ({
            let first = c.num_hidden_layers - c.num_kv_shared_layers;
            let s = c.kv_source(i);
            &&& i < first ==> s == i
            &&& i >= first && c.layer_types@[j] == c.layer_types@[i] ==> {
                &&& j <= s < first
                &&& c.layer_types@[s] == c.layer_types@[i]
            }
        }),
{
    if i >= c.first_shared() && c.layer_types@[j] == c.layer_types@[i] {
        lemma_last_of_kind(c, c.layer_types@[i], c.first_shared(), j);
    }
}

proof fn lemma_last_of_kind(c: Gemma4Config, ty: LayerType, n: int, j: int)
    requires
        0 <= j < n,
        c.layer_types@[j] == ty,
    ensures
        c.last_of_type(ty, n) matches Some(s) && j <= s < n && c.layer_types@[s] == ty,
    decreases n,
{
    if c.layer_types@[n - 1] != ty {
        lemma_last_of_kind(c, ty, n - 1, j);
    }
}

/// What running tokens gives are the logits of the network, after what the model
/// remembers; and it then remembers these tokens too.
pub proof fn model_runs_its_network<B: Backend, W: WeightSource<B>>(
    model: Gemma4Model<B, W>,
    after: Gemma4Model<B, W>,
    ids: Seq<u32>,
    positions: Seq<u32>,
    r: Seq<F32>,
)
    requires
        model.ran(after, ids, positions, r),
    ensures
        r == model.net().logits(model.backend.arithmetic(), model.cache.memory(), ids, positions),
        after.cache.memory() == model.net().remembered(
            model.backend.arithmetic(),
            model.cache.memory(),
            ids,
            positions,
        ),
        after.cache.memory().positions == model.cache.memory().positions + positions,
        after.net() == model.net(),
{
}

// --- attention, number by number -----------------------------------------------------------------

/// Whether scores are those of a query: its product with each key that it sees,
/// scaled, and minus infinity for the others. It sees no later key, and where
/// there is a window none further back.
pub open spec fn are_scores(q: Content, r: int, k: Content, head: int, qpos: u32, o: Attention, s: Seq<F32>) -> bool {
    let (heads, dh) = (k.dims[1] as int, k.dims[2] as int);
    &&& s.len() == o.k_pos.len()
    &&& forall|j: int|
        0 <= j < s.len() ==> #[trigger] s[j] == if o.k_pos[j] <= qpos && (o.sliding_window == 0 || qpos - o.k_pos[j]
            < o.sliding_window) {
            inner(q.cells, r * dh, k.cells, (j * heads + head) * dh, dh as nat).spec_times(o.scale)
        } else {
            F32(NEG_INFINITY_F32)
        }
}

/// Whether `sums` are the exponentials of scores above `top`, summed up in turn,
/// those of minus infinity left out.
pub open spec fn are_sums(e: spec_fn(Elementary, F32, F32) -> F32, s: Seq<F32>, top: F32, sums: Seq<F32>) -> bool {
    &&& sums.len() == s.len() + 1
    &&& sums[0] == F32(0)
    &&& forall|j: int|
        0 <= j < s.len() ==> sums[j + 1] == if (#[trigger] s[j]).spec_same(F32(NEG_INFINITY_F32)) {
            sums[j]
        } else {
            sums[j].spec_plus(e(Elementary::Exp, s[j].spec_minus(top), s[j].spec_minus(top)))
        }
}

/// Whether `acc` are numbers mixed in turn, each with its exponential as a share
/// of the whole; nothing is added for a share of zero.
pub open spec fn are_mixed(
    e: spec_fn(Elementary, F32, F32) -> F32,
    s: Seq<F32>,
    top: F32,
    share: F32,
    values: Seq<F32>,
    acc: Seq<F32>,
) -> bool {
    &&& acc.len() == s.len() + 1
    &&& acc[0] == F32(0)
    &&& forall|j: int|
        0 <= j < s.len() ==> acc[j + 1] == {
            let w = (if (#[trigger] s[j]).spec_same(F32(NEG_INFINITY_F32)) {
                F32(0)
            } else {
                e(Elementary::Exp, s[j].spec_minus(top), s[j].spec_minus(top))
            }).spec_times(share);
            if w.spec_same(F32(0)) {
                acc[j]
            } else {
                acc[j].spec_plus(w.spec_times(values[j]))
            }
        }
}

proof fn lemma_top(s: Seq<F32>, m: int)
    requires
        0 <= m < s.len(),
        F32(NEG_INFINITY_F32).spec_less(s[m]),
        forall|j: int| 0 <= j < m ==> (#[trigger] s[j]).spec_is_nan() || s[j].spec_less(s[m]),
        forall|j: int| 0 <= j < s.len() ==> !s[m].spec_less(#[trigger] s[j]),
    ensures
        crate::backend_cpu::highest(s) == s[m],
    decreases s.len(),
{
    let before = s.drop_last();
    let n = s.len() - 1;
    if m < n {
        assert(before[m] == s[m]);
        assert forall|j: int| 0 <= j < m implies (#[trigger] before[j]).spec_is_nan() || before[j].spec_less(before[m]) by {
            assert(before[j] == s[j]);
        }
        assert forall|j: int| 0 <= j < before.len() implies !before[m].spec_less(#[trigger] before[j]) by {
            assert(before[j] == s[j]);
        }
        lemma_top(before, m);
        assert(!s[m].spec_less(s[n]));
    } else {
        assert forall|j: int| 0 <= j < before.len() implies (#[trigger] before[j]).spec_is_nan() || before[j].spec_less(s[m]) by {
            assert(before[j] == s[j]);
        }
        lemma_below(before, s[m]);
    }
}

proof fn lemma_below(s: Seq<F32>, top: F32)
    requires
        F32(NEG_INFINITY_F32).spec_less(top),
        forall|j: int| 0 <= j < s.len() ==> (#[trigger] s[j]).spec_is_nan() || s[j].spec_less(top),
    ensures
        crate::backend_cpu::highest(s).spec_less(top),
    decreases s.len(),
{
    if s.len() > 0 {
        let before = s.drop_last();
        assert forall|j: int| 0 <= j < before.len() implies (#[trigger] before[j]).spec_is_nan() || before[j].spec_less(top) by {
            assert(before[j] == s[j]);
        }
        lemma_below(before, top);
        assert(s[s.len() - 1].spec_is_nan() || s[s.len() - 1].spec_less(top));
    }
}

proof fn lemma_sums(e: spec_fn(Elementary, F32, F32) -> F32, s: Seq<F32>, top: F32, sums: Seq<F32>, n: int)
    requires
        are_sums(e, s, top, sums),
        0 <= n <= s.len(),
    ensures
        crate::backend_cpu::weight_sum(e, s.take(n), top) == sums[n],
    decreases n,
{
    if n > 0 {
        lemma_sums(e, s, top, sums, n - 1);
        assert(s.take(n).drop_last() =~= s.take(n - 1));
        assert(s.take(n).last() == s[n - 1]);
    }
}

proof fn lemma_mixed(
    e: spec_fn(Elementary, F32, F32) -> F32,
    s: Seq<F32>,
    top: F32,
    share: F32,
    values: Seq<F32>,
    at: spec_fn(int) -> F32,
    acc: Seq<F32>,
    n: int,
)
    requires
        are_mixed(e, s, top, share, values, acc),
        0 <= n <= s.len(),
        forall|j: int| 0 <= j < s.len() ==> #[trigger] values[j] == at(j),
    ensures
        crate::backend_cpu::mixed(e, s.take(n), top, share, at) == acc[n],
    decreases n,
{
    if n > 0 {
        lemma_mixed(e, s, top, share, values, at, acc, n - 1);
        assert(s.take(n).drop_last() =~= s.take(n - 1));
        assert(s.take(n).last() == s[n - 1]);
        assert(values[n - 1] == at(n - 1));
    }
}

/// One number of what attention gives, for query `t`, query head `head` and
/// column `d`. Query heads share key heads in groups, in order. The scores of the
/// query against the keys become shares by the softmax, and the numbers of the
/// values in that column are mixed by them. `m` is the first of the largest
/// score.
#[verifier::spinoff_prover]
#[verifier::rlimit(30)]
pub proof fn attention_mixes_values(
    e: spec_fn(Elementary, F32, F32) -> F32,
    q: Content,
    k: Content,
    v: Content,
    o: Attention,
    t: int,
    head: int,
    d: int,
    group: int,
    s: Seq<F32>,
    m: int,
    sums: Seq<F32>,
    values: Seq<F32>,
    acc: Seq<F32>,
)
    requires
        crate::stepwise::can_attend(q, k, v, o),
        0 <= t < q.dims[0],
        0 <= head < q.dims[1],
        0 <= d < q.dims[2],
        group > 0,
        q.dims[1] == group * k.dims[1],
        o.attn_softcap == F32(0),
        are_scores(q, t * q.dims[1] + head, k, head / group, o.q_pos[t], o, s),
        0 <= m < s.len(),
        F32(NEG_INFINITY_F32).spec_less(s[m]),
        forall|j: int| 0 <= j < m ==> (#[trigger] s[j]).spec_is_nan() || s[j].spec_less(s[m]),
        forall|j: int| 0 <= j < s.len() ==> !s[m].spec_less(#[trigger] s[j]),
        are_sums(e, s, s[m], sums),
        values.len() == s.len(),
        forall|j: int|
            0 <= j < s.len() ==> #[trigger] values[j] == v.cells[(j * v.dims[1] + head / group) * v.dims[2] + d],
        are_mixed(
            e,
            s,
            s[m],
            if F32(0).spec_less(sums.last()) {
                F32(0x3f80_0000).spec_over(sums.last())
            } else {
                F32(0)
            },
            values,
            acc,
        ),
    ensures
        crate::backend_cpu::cpu_attention(e, q, k, v, o)[(t * q.dims[1] + head) * q.dims[2] + d] == acc.last(),
{
    let (hq, hkv, dh) = (q.dims[1] as int, k.dims[1] as int, q.dims[2] as int);
    let r = t * hq + head;
    let n = q.dims[0] * hq;
    lemma_attended_place(q, k, v, o, t, head, d, group);
    let g = head / group;
    let at_k = |j: int| crate::backend_cpu::head_at(k, j, g);
    let query = crate::backend_cpu::chunk(q.cells, r, dh);
    let scores = crate::backend_cpu::scores(e, query, o.q_pos[t], at_k, o);
    F32::zero_is_zero();
    assert(scores =~= s) by {
        assert forall|j: int| 0 <= j < s.len() implies scores[j] == s[j] by {
            lemma_key_place(k, o, j, g);
            lemma_inner(q.cells, r * dh, k.cells, (j * hkv + g) * dh, dh as nat);
        }
    }
    lemma_top(s, m);
    lemma_sums(e, s, s[m], sums, s.len() as int);
    assert(s.take(s.len() as int) =~= s);
    let share = crate::backend_cpu::inverse_sum(sums.last());
    let at_v = |j: int| crate::backend_cpu::head_at(v, j, g)[d];
    assert forall|j: int| 0 <= j < s.len() implies #[trigger] values[j] == at_v(j) by {
        lemma_key_place(v, o, j, g);
    }
    lemma_mixed(e, s, s[m], share, values, at_v, acc, s.len() as int);
}

proof fn lemma_key_place(k: Content, o: Attention, j: int, g: int)
    requires
        k.dims.len() == 3,
        k.cells.len() == k.dims[0] * k.dims[1] * k.dims[2],
        k.dims[0] == o.k_pos.len(),
        0 <= j < o.k_pos.len(),
        0 <= g < k.dims[1],
    ensures
        0 <= (j * k.dims[1] + g) * k.dims[2],
        (j * k.dims[1] + g) * k.dims[2] + k.dims[2] <= k.cells.len(),
{
    let (n, h, d) = (k.dims[0] as int, k.dims[1] as int, k.dims[2] as int);
    crate::backend_cpu::lemma_cell(j, g, n, h);
    lemma_rows(j * h + g, n * h, d);
}

proof fn lemma_attended_place(q: Content, k: Content, v: Content, o: Attention, t: int, head: int, d: int, group: int)
    requires
        crate::stepwise::can_attend(q, k, v, o),
        0 <= t < q.dims[0],
        0 <= head < q.dims[1],
        0 <= d < q.dims[2],
        group > 0,
        q.dims[1] == group * k.dims[1],
    ensures
        ({
            let (hq, hkv, dh) = (q.dims[1] as int, k.dims[1] as int, q.dims[2] as int);
            let r = t * hq + head;
            let c = r * dh + d;
            &&& 0 <= c < q.cells.len()
            &&& c / dh == r
            &&& c % dh == d
            &&& r / hq == t
            &&& r % hq == head
            &&& hq / hkv == group
            &&& 0 <= head / group < hkv
            &&& 0 <= r * dh
            &&& r * dh + dh <= q.cells.len()
            &&& k.dims[2] == dh
            &&& v.dims[2] == dh
            &&& v.dims[1] == hkv
            &&& k.cells.len() == k.dims[0] * k.dims[1] * k.dims[2]
            &&& v.cells.len() == v.dims[0] * v.dims[1] * v.dims[2]
            &&& k.dims.len() == 3 && v.dims.len() == 3
            &&& k.dims[0] == o.k_pos.len() && v.dims[0] == o.k_pos.len()
        }),
{
    let (hq, hkv, dh) = (q.dims[1] as int, k.dims[1] as int, q.dims[2] as int);
    let (n, r) = (q.dims[0] as int, t * hq + head);
    crate::backend::product_of_three(q.dims[0], q.dims[1], q.dims[2]);
    crate::backend::product_of_three(k.dims[0], k.dims[1], k.dims[2]);
    crate::backend::product_of_three(v.dims[0], v.dims[1], v.dims[2]);
    assert(q.dims =~= seq![q.dims[0], q.dims[1], q.dims[2]]);
    assert(k.dims =~= seq![k.dims[0], k.dims[1], k.dims[2]]);
    assert(v.dims =~= seq![v.dims[0], v.dims[1], v.dims[2]]);
    crate::backend_cpu::lemma_cell(t, head, n, hq);
    crate::backend_cpu::lemma_cell(r, d, n * hq, dh);
    assert(hkv > 0) by (nonlinear_arith)
        requires
            hq == group * hkv,
            hq > 0,
            hkv >= 0,
    ;
    lemma_div_multiples_vanish(group, hkv);
    lemma_mul_is_commutative(group, hkv);
    crate::backend_cpu::lemma_place(head, hkv, group);
}

} // verus!
