//! The reference backend: every operation in plain, sequential arithmetic.
//!
//! It is the ground truth that other backends are compared with, and lets the
//! whole model run, slowly, on any machine. Additions, products, quotients and
//! roots are those of single precision. Exponentials, hyperbolic tangents,
//! sines, cosines and powers come from whoever makes the backend: machines
//! differ in their last bits.
use std::sync::Arc;
use vstd::arithmetic::div_mod::*;
use vstd::arithmetic::mul::*;
use vstd::prelude::*;
use vstd::slice::{slice_subrange, slice_to_vec};

use crate::backend::{checked_count, count, Arithmetic, AttnOpts, Attention, Backend, Content, KvAppend, Packed, QuantWeight, TensorShape};
use crate::float::{F32, NEG_INFINITY_F32, ONE_F32};

verus! {

// --- tensors -----------------------------------------------------------------------------------

/// A tensor on the host: numbers and a shape, or a packed weight.
#[derive(Debug)]
pub struct CpuTensor {
    data: Arc<Vec<F32>>,
    shape: Vec<usize>,
    quant: Option<Arc<QuantWeight>>,
}

impl CpuTensor {
    #[verifier::type_invariant]
    spec fn inv(self) -> bool {
        match self.quant {
            Some(q) => self.shape@ == seq![q.shape[0], q.shape[1]] && self.data@.len() == 0,
            None => true,
        }
    }

    pub fn new(data: Vec<F32>, shape: &[usize]) -> (r: CpuTensor)
        ensures
            r.content() == crate::backend::plain(shape@, data@),
    {
        let shape = slice_to_vec(shape);
        CpuTensor { data: Arc::new(data), shape, quant: None }
    }

    /// The numbers; none of a packed weight.
    pub fn data(&self) -> (r: &[F32])
        ensures
            !self.content().packed ==> r@ == self.content().cells,
            self.content().packed ==> r@.len() == 0,
    {
        proof {
            use_type_invariant(self);
        }
        self.data.as_slice()
    }
}

impl TensorShape for CpuTensor {
    closed spec fn content(&self) -> Content {
        match self.quant {
            Some(q) => q@.content(),
            None => crate::backend::plain(self.shape@, self.data@),
        }
    }

    fn shape(&self) -> (r: &[usize]) {
        proof {
            use_type_invariant(self);
            assert(self.shape@ =~= self.content().dims);
        }
        self.shape.as_slice()
    }

    fn size(&self) -> (r: usize) {
        proof {
            use_type_invariant(self);
        }
        match &self.quant {
            Some(_) => count(self.shape.as_slice()),
            None => self.data.len(),
        }
    }

    fn is_whole(&self) -> (r: bool) {
        proof {
            use_type_invariant(self);
        }
        let have: usize = self.data.len();
        match &self.quant {
            Some(q) => {
                proof {
                    let (n, k) = (q.shape[0] as int, q.shape[1] as int);
                    crate::backend::product_of_two(q.shape[0], q.shape[1]);
                    lemma_mul_basics(n);
                    lemma_mul_basics(k);
                    if n > 0 && k > 0 {
                        lemma_mul_strictly_positive(n, k);
                    }
                    assert(self.content().dims =~= seq![q.shape[0], q.shape[1]]);
                }
                q.shape[0] == 0 || q.shape[1] == 0 || q.is_whole()
            },
            None => match checked_count(self.shape.as_slice()) {
                Some(n) => have >= n,
                None => false,
            },
        }
    }

    fn is_packed(&self) -> (r: bool) {
        self.quant.is_some()
    }

    fn share(&self) -> (r: CpuTensor) {
        proof {
            use_type_invariant(self);
        }
        let quant = match &self.quant {
            Some(q) => Some(q.clone()),
            None => None,
        };
        CpuTensor { data: self.data.clone(), shape: slice_to_vec(self.shape.as_slice()), quant }
    }
}

// --- elementary functions ------------------------------------------------------------------------

/// Functions that are not exact in any format.
#[derive(Clone, Copy, Debug, PartialEq, Eq, Structural)]
pub enum Elementary {
    Exp,
    Tanh,
    Sin,
    Cos,
    /// The first argument to the power of the second; the others look at the
    /// first argument alone.
    Power,
}

/// A value for every argument, always the same.
pub open spec fn is_function<E: Fn(Elementary, F32, F32) -> F32>(e: E) -> bool {
    &&& forall|f: Elementary, x: F32, y: F32| #[trigger] call_requires(e, (f, x, y))
    &&& forall|f: Elementary, x: F32, y: F32, a: F32, b: F32|
        #[trigger] call_ensures(e, (f, x, y), a) && #[trigger] call_ensures(e, (f, x, y), b) ==> a == b
}

/// The values of elementary functions.
pub type Values = spec_fn(Elementary, F32, F32) -> F32;

pub open spec fn values_of<E: Fn(Elementary, F32, F32) -> F32>(e: E) -> spec_fn(Elementary, F32, F32) -> F32 {
    |f: Elementary, x: F32, y: F32| choose|z: F32| call_ensures(e, (f, x, y), z)
}

// --- the arithmetic ------------------------------------------------------------------------------

/// `xs[0] * ys[0] + xs[1] * ys[1] + ...`, from the left.
pub open spec fn dot(xs: Seq<F32>, ys: Seq<F32>) -> F32
    decreases xs.len(),
{
    if xs.len() == 0 {
        F32(0)
    } else {
        dot(xs.drop_last(), ys).spec_plus(xs.last().spec_times(ys[xs.len() - 1]))
    }
}

/// Cells `[i * n, (i + 1) * n)`.
pub open spec fn chunk(cells: Seq<F32>, i: int, n: int) -> Seq<F32> {
    cells.subrange(i * n, i * n + n)
}

/// One over the root of a row's mean square.
pub open spec fn inverse_rms(row: Seq<F32>, eps: F32) -> F32 {
    F32(ONE_F32).spec_over(
        dot(row, row).spec_over(F32::spec_of_int(row.len() as int)).spec_plus(eps).spec_root(),
    )
}

pub open spec fn cpu_embed(table: Content, ids: Seq<u32>, scale: F32) -> Seq<F32> {
    let d = table.dims[1] as int;
    Seq::new(
        (ids.len() * d) as nat,
        |c: int| table.cells[ids[c / d] * d + c % d].spec_times(scale),
    )
}

pub open spec fn cpu_norm(x: Content, w: Option<Content>, eps: F32) -> Seq<F32> {
    let d = x.dims.last() as int;
    Seq::new(
        x.cells.len(),
        |c: int| {
            let y = x.cells[c].spec_times(inverse_rms(chunk(x.cells, c / d, d), eps));
            match w {
                Some(w) => y.spec_times(w.cells[c % d]),
                None => y,
            }
        },
    )
}

pub open spec fn cpu_linear(x: Content, w: Content) -> Seq<F32> {
    let (k, n) = (x.dims[1] as int, w.dims[0] as int);
    Seq::new((x.dims[0] * n) as nat, |c: int| dot(chunk(x.cells, c / n, k), chunk(w.cells, c % n, k)))
}

pub open spec fn cpu_add(a: Content, b: Content) -> Seq<F32> {
    Seq::new(a.cells.len(), |c: int| a.cells[c].spec_plus(b.cells[c]))
}

pub open spec fn cpu_mul(a: Content, b: Content) -> Seq<F32> {
    Seq::new(a.cells.len(), |c: int| a.cells[c].spec_times(b.cells[c]))
}

pub open spec fn cpu_scale(a: Content, s: F32) -> Seq<F32> {
    Seq::new(a.cells.len(), |c: int| a.cells[c].spec_times(s))
}

/// Single-precision 2.
pub const TWO: u32 = 0x4000_0000;

/// Single-precision 0.5.
pub const HALF: u32 = 0x3f00_0000;

/// Single-precision pi.
pub const PI: u32 = 0x4049_0fdb;

/// Single-precision 0.044715.
pub const GELU_CUBIC: u32 = 0x3d37_2713;

/// `0.5 * v * (1 + tanh(sqrt(2 / pi) * (v + 0.044715 * v * v * v)))`.
pub open spec fn gelu(e: Values, v: F32) -> F32 {
    let c = F32(TWO).spec_over(F32(PI)).spec_root();
    let cubic = F32(GELU_CUBIC).spec_times(v).spec_times(v).spec_times(v);
    let inner = c.spec_times(v.spec_plus(cubic));
    F32(HALF).spec_times(v).spec_times(F32(ONE_F32).spec_plus(e(Elementary::Tanh, inner, inner)))
}

pub open spec fn cpu_gelu(e: Values, a: Content) -> Seq<F32> {
    Seq::new(a.cells.len(), |c: int| gelu(e, a.cells[c]))
}

pub open spec fn cpu_geglu(e: Values, gate: Content, up: Content) -> Seq<F32> {
    Seq::new(gate.cells.len(), |c: int| gelu(e, gate.cells[c]).spec_times(up.cells[c]))
}

/// `cap * tanh(v / cap)`.
pub open spec fn capped(e: Values, v: F32, cap: F32) -> F32 {
    let q = v.spec_over(cap);
    cap.spec_times(e(Elementary::Tanh, q, q))
}

pub open spec fn cpu_softcap(e: Values, a: Content, cap: F32) -> Seq<F32> {
    Seq::new(a.cells.len(), |c: int| capped(e, a.cells[c], cap))
}

/// The angle by which pair `j` turns at a position: `pos * theta^(-2j / n)`.
pub open spec fn angle(e: Values, pos: u32, theta: F32, j: int, rotary_dim: usize) -> F32 {
    let exponent = F32(TWO).spec_times(F32::spec_of_int(j)).spec_negated().spec_over(
        F32::spec_of_int(rotary_dim as int),
    );
    F32::spec_of_int(pos as int).spec_times(e(Elementary::Power, theta, exponent))
}

/// One number of a rotated head: pairs `(j, j + half)` turn, the rest stays.
pub open spec fn turned(e: Values, head: Seq<F32>, d: int, pos: u32, theta: F32, rotary_dim: usize) -> F32 {
    let half = rotary_dim as int / 2;
    if d < half {
        let t = angle(e, pos, theta, d, rotary_dim);
        head[d].spec_times(e(Elementary::Cos, t, t)).spec_minus(head[d + half].spec_times(e(Elementary::Sin, t, t)))
    } else if d < 2 * half {
        let t = angle(e, pos, theta, d - half, rotary_dim);
        head[d].spec_times(e(Elementary::Cos, t, t)).spec_plus(head[d - half].spec_times(e(Elementary::Sin, t, t)))
    } else {
        head[d]
    }
}

pub open spec fn cpu_rope(e: Values, x: Content, positions: Seq<u32>, theta: F32, rotary_dim: usize) -> Seq<F32> {
    let (heads, hd) = (x.dims[1] as int, x.dims[2] as int);
    Seq::new(
        x.cells.len(),
        |c: int|
            turned(e, chunk(x.cells, c / hd, hd), c % hd, positions[c / hd / heads], theta, rotary_dim),
    )
}

// --- attention -------------------------------------------------------------------------------

/// Whether a query sees a key: not later, and within the window if there is
/// one.
pub open spec fn sees(o: Attention, qpos: u32, kpos: u32) -> bool {
    kpos <= qpos && (o.sliding_window > 0 ==> qpos - kpos < o.sliding_window)
}

/// Score of a query against a key.
pub open spec fn score(e: Values, query: Seq<F32>, key: Seq<F32>, o: Attention) -> F32 {
    let s = dot(query, key).spec_times(o.scale);
    if F32(0).spec_less(o.attn_softcap) {
        capped(e, s, o.attn_softcap)
    } else {
        s
    }
}

/// Scores of one query against the keys, minus infinity where it sees none.
/// `at(j)` is the `j`-th key.
pub open spec fn scores(e: Values, query: Seq<F32>, qpos: u32, at: spec_fn(int) -> Seq<F32>, o: Attention) -> Seq<F32> {
    Seq::new(
        o.k_pos.len(),
        |j: int|
            if sees(o, qpos, o.k_pos[j]) {
                score(e, query, at(j), o)
            } else {
                F32(NEG_INFINITY_F32)
            },
    )
}

/// The largest score; minus infinity of none.
pub open spec fn highest(scores: Seq<F32>) -> F32
    decreases scores.len(),
{
    if scores.len() == 0 {
        F32(NEG_INFINITY_F32)
    } else {
        let m = highest(scores.drop_last());
        if m.spec_less(scores.last()) {
            scores.last()
        } else {
            m
        }
    }
}

/// Weight of a score before it is divided by the sum: nothing for minus
/// infinity.
pub open spec fn raw_weight(e: Values, s: F32, top: F32) -> Option<F32> {
    if s.spec_same(F32(NEG_INFINITY_F32)) {
        None
    } else {
        Some(e(Elementary::Exp, s.spec_minus(top), s.spec_minus(top)))
    }
}

/// Sum of the weights.
pub open spec fn weight_sum(e: Values, scores: Seq<F32>, top: F32) -> F32
    decreases scores.len(),
{
    if scores.len() == 0 {
        F32(0)
    } else {
        let before = weight_sum(e, scores.drop_last(), top);
        match raw_weight(e, scores.last(), top) {
            Some(w) => before.spec_plus(w),
            None => before,
        }
    }
}

/// What the weights are multiplied by.
pub open spec fn inverse_sum(sum: F32) -> F32 {
    if F32(0).spec_less(sum) {
        F32(ONE_F32).spec_over(sum)
    } else {
        F32(0)
    }
}

/// One number of the result: the values weighted by the scores, those of
/// weight zero passed over. `at(j)` is the number of the `j`-th value.
pub open spec fn mixed(e: Values, scores: Seq<F32>, top: F32, inv: F32, at: spec_fn(int) -> F32) -> F32
    decreases scores.len(),
{
    if scores.len() == 0 {
        F32(0)
    } else {
        let before = mixed(e, scores.drop_last(), top, inv, at);
        let raw = match raw_weight(e, scores.last(), top) {
            Some(w) => w,
            None => F32(0),
        };
        let w = raw.spec_times(inv);
        if w.spec_same(F32(0)) {
            before
        } else {
            before.spec_plus(w.spec_times(at(scores.len() - 1)))
        }
    }
}

/// The `j`-th key or value of a head.
pub open spec fn head_at(x: Content, j: int, head: int) -> Seq<F32> {
    chunk(x.cells, j * x.dims[1] + head, x.dims[2] as int)
}

/// One number of the result for one query and head: `r` counts them query by
/// query.
pub open spec fn attended_number(e: Values, q: Content, k: Content, v: Content, o: Attention, r: int, d: int) -> F32 {
    let (hq, hkv) = (q.dims[1] as int, k.dims[1] as int);
    let head = (r % hq) / (hq / hkv);
    let s = scores(e, chunk(q.cells, r, q.dims[2] as int), o.q_pos[r / hq], |j: int| head_at(k, j, head), o);
    let top = highest(s);
    mixed(e, s, top, inverse_sum(weight_sum(e, s, top)), |j: int| head_at(v, j, head)[d])
}

pub open spec fn cpu_attention(e: Values, q: Content, k: Content, v: Content, o: Attention) -> Seq<F32> {
    let dh = q.dims[2] as int;
    Seq::new(q.cells.len(), |c: int| attended_number(e, q, k, v, o, c / dh, c % dh))
}

/// The reference arithmetic.
pub open spec fn cpu_arithmetic(e: Values) -> Arithmetic {
    Arithmetic {
        embed_of: |table: Content, ids: Seq<u32>, scale: F32| cpu_embed(table, ids, scale),
        norm_of: |x: Content, w: Option<Content>, eps: F32| cpu_norm(x, w, eps),
        linear_of: |x: Content, w: Content| cpu_linear(x, w),
        add_of: |a: Content, b: Content| cpu_add(a, b),
        mul_of: |a: Content, b: Content| cpu_mul(a, b),
        scale_of: |a: Content, s: F32| cpu_scale(a, s),
        gelu_of: |a: Content| cpu_gelu(e, a),
        geglu_of: |gate: Content, up: Content| cpu_geglu(e, gate, up),
        softcap_of: |a: Content, cap: F32| cpu_softcap(e, a, cap),
        rope_of: |x: Content, positions: Seq<u32>, theta: F32, rotary_dim: usize|
            cpu_rope(e, x, positions, theta, rotary_dim),
        attention_of: |q: Content, k: Content, v: Content, o: Attention| cpu_attention(e, q, k, v, o),
    }
}

// --- proof helpers -------------------------------------------------------------------------------

/// Cell `j` of row `i`.
pub(crate) proof fn lemma_cell(i: int, j: int, rows: int, n: int)
    requires
        0 <= i < rows,
        0 <= j < n,
    ensures
        0 <= i * n,
        i * n + j < rows * n,
        i * n + n <= rows * n,
        (i * n + j) / n == i,
        (i * n + j) % n == j,
        (i + 1) * n == i * n + n,
{
    lemma_fundamental_div_mod_converse(i * n + j, n, i, j);
    assert(i * n + n <= rows * n && 0 <= i * n && (i + 1) * n == i * n + n) by (nonlinear_arith)
        requires
            0 <= i < rows,
            0 < n,
    ;
}

/// The row and column of a cell.
pub(crate) proof fn lemma_place(c: int, rows: int, n: int)
    requires
        0 <= c < rows * n,
        0 <= n,
        0 <= rows,
    ensures
        n > 0,
        0 <= c / n < rows,
        0 <= c % n < n,
        c == (c / n) * n + c % n,
{
    assert(n > 0) by (nonlinear_arith)
        requires
            0 <= c < rows * n,
            0 <= n,
    ;
    lemma_fundamental_div_mod(c, n);
    lemma_mod_bound(c, n);
    lemma_div_pos_is_pos(c, n);
    assert(c / n < rows) by (nonlinear_arith)
        requires
            c == n * (c / n) + c % n,
            0 <= c % n,
            c < rows * n,
            n > 0,
    ;
    lemma_mul_is_commutative(n, c / n);
}

/// A sum of products, from cell `xo` and cell `yo` on.
pub(crate) fn dot_at(xs: &[F32], xo: usize, ys: &[F32], yo: usize, n: usize) -> (r: F32)
    requires
        xo + n <= xs@.len(),
        yo + n <= ys@.len(),
    ensures
        r == dot(xs@.subrange(xo as int, xo + n), ys@.subrange(yo as int, yo + n)),
{
    let ghost a = xs@.subrange(xo as int, xo + n);
    let ghost b = ys@.subrange(yo as int, yo + n);
    let (have_x, have_y): (usize, usize) = (xs.len(), ys.len());
    let mut acc = F32(0);
    let mut i: usize = 0;
    proof {
        assert(a.take(0) =~= Seq::empty());
    }
    while i < n
        invariant
            have_x == xs@.len(),
            have_y == ys@.len(),
            xo + n <= have_x,
            yo + n <= have_y,
            i <= n,
            a == xs@.subrange(xo as int, xo + n),
            b == ys@.subrange(yo as int, yo + n),
            acc == dot(a.take(i as int), b),
        decreases n - i,
    {
        acc = acc.plus(xs[xo + i].times(ys[yo + i]));
        proof {
            assert(a.take(i + 1).drop_last() =~= a.take(i as int));
            assert(a.take(i + 1).last() == xs@[xo + i]);
        }
        i = i + 1;
    }
    proof {
        assert(a.take(n as int) =~= a);
    }
    acc
}

/// One number from each.
fn ew<F: Fn(F32) -> F32>(a: &CpuTensor, f: F) -> (r: CpuTensor)
    requires
        a.content().is_plain(),
        forall|v: F32| #[trigger] call_requires(f, (v,)),
    ensures
        r.content().is_plain(),
        r.content().dims == a.content().dims,
        forall|c: int|
            0 <= c < a.content().cells.len() ==> call_ensures(f, (a.content().cells[c],), #[trigger] r.content().cells[c]),
{
    let data = a.data();
    let len: usize = data.len();
    let mut out: Vec<F32> = Vec::new();
    let mut i: usize = 0;
    while i < len
        invariant
            len == data@.len(),
            i <= len,
            out@.len() == i,
            forall|v: F32| #[trigger] call_requires(f, (v,)),
            forall|c: int| 0 <= c < i ==> call_ensures(f, (data@[c],), #[trigger] out@[c]),
        decreases len - i,
    {
        let y = f(data[i]);
        out.push(y);
        i = i + 1;
    }
    CpuTensor::new(out, a.shape())
}

/// One number from each two.
fn ew_pair<F: Fn(F32, F32) -> F32>(a: &CpuTensor, b: &CpuTensor, f: F) -> (r: CpuTensor)
    requires
        a.content().is_plain(),
        b.content().is_plain(),
        a.content().cells.len() == b.content().cells.len(),
        forall|v: F32, w: F32| #[trigger] call_requires(f, (v, w)),
    ensures
        r.content().is_plain(),
        r.content().dims == a.content().dims,
        forall|c: int|
            0 <= c < a.content().cells.len() ==> call_ensures(
                f,
                (a.content().cells[c], b.content().cells[c]),
                #[trigger] r.content().cells[c],
            ),
{
    let data = a.data();
    let more = b.data();
    let len: usize = data.len();
    let mut out: Vec<F32> = Vec::new();
    let mut i: usize = 0;
    while i < len
        invariant
            len == data@.len(),
            len == more@.len(),
            i <= len,
            out@.len() == i,
            forall|v: F32, w: F32| #[trigger] call_requires(f, (v, w)),
            forall|c: int| 0 <= c < i ==> call_ensures(f, (data@[c], more@[c]), #[trigger] out@[c]),
        decreases len - i,
    {
        let y = f(data[i], more[i]);
        out.push(y);
        i = i + 1;
    }
    CpuTensor::new(out, a.shape())
}

// --- the backend ---------------------------------------------------------------------------------

/// The reference backend, with the elementary functions that it is given.
pub struct CpuBackend<E: Fn(Elementary, F32, F32) -> F32> {
    elementary: E,
}

impl<E: Fn(Elementary, F32, F32) -> F32> CpuBackend<E> {
    #[verifier::type_invariant]
    spec fn inv(self) -> bool {
        is_function(self.elementary)
    }

    /// The values of the elementary functions.
    pub closed spec fn values(&self) -> Values {
        values_of(self.elementary)
    }

    pub fn new(elementary: E) -> (r: Self)
        requires
            is_function(elementary),
        ensures
            r.values() == values_of(elementary),
            r.arithmetic() == cpu_arithmetic(values_of(elementary)),
    {
        CpuBackend { elementary }
    }

    fn value(&self, f: Elementary, x: F32, y: F32) -> (r: F32)
        ensures
            r == (self.values())(f, x, y),
    {
        proof {
            use_type_invariant(self);
        }
        let r = (self.elementary)(f, x, y);
        r
    }

    fn cap(&self, v: F32, cap: F32) -> (r: F32)
        ensures
            r == capped(self.values(), v, cap),
    {
        let q = v.over(cap);
        cap.times(self.value(Elementary::Tanh, q, q))
    }
}

/// `gelu(v)` in its tanh form.
pub fn gelu_tanh_scalar<E: Fn(Elementary, F32, F32) -> F32>(elementary: &E, v: F32) -> (r: F32)
    requires
        is_function(*elementary),
    ensures
        r == gelu(values_of(*elementary), v),
{
    let c = F32(TWO).over(F32(PI)).root();
    let cubic = F32(GELU_CUBIC).times(v).times(v).times(v);
    let inner = c.times(v.plus(cubic));
    let t = (*elementary)(Elementary::Tanh, inner, inner);
    F32(HALF).times(v).times(F32(ONE_F32).plus(t))
}

/// The cells of a packed weight, row by row.
proof fn lemma_packed_cell(q: Packed, n: int, k: int)
    requires
        q.content().is_whole(),
        0 <= n < q.rows,
        0 <= k < q.cols,
    ensures
        q.wf(),
        0 <= n * q.cols,
        n * q.cols + k < q.content().cells.len(),
        n * q.cols + q.cols <= q.content().cells.len(),
        q.content().cells[n * q.cols + k] == q.value_at(n, k),
{
    lemma_cell(n, k, q.rows as int, q.cols as int);
    crate::backend::product_of_two(q.rows, q.cols);
}

impl CpuTensor {
    /// One row of a matrix that may be packed.
    fn row(&self, n: usize) -> (r: Vec<F32>)
        requires
            self.content().is_whole(),
            self.content().is_matrix(),
            n < self.content().dims[0],
        ensures
            r@ == chunk(self.content().cells, n as int, self.content().dims[1] as int),
    {
        proof {
            use_type_invariant(self);
            crate::backend::product_of_two(self.content().dims[0], self.content().dims[1]);
            assert(self.content().dims =~= seq![self.content().dims[0], self.content().dims[1]]);
        }
        let d: usize = self.shape[1];
        let ghost cells = self.content().cells;
        let ghost rows = self.content().dims[0] as int;
        let mut out: Vec<F32> = Vec::new();
        let mut i: usize = 0;
        while i < d
            invariant
                self.inv(),
                n < rows,
                d == self.shape@[1],
                self.shape@.len() == 2,
                rows == self.shape@[0],
                cells == self.content().cells,
                cells.len() >= rows * d,
                i <= d,
                out@.len() == i,
                forall|c: int| 0 <= c < i ==> #[trigger] out@[c] == cells[n * d + c],
            decreases d - i,
        {
            proof {
                lemma_cell(n as int, i as int, rows, d as int);
            }
            match &self.quant {
                Some(q) => {
                    proof {
                        crate::backend::product_of_two(q.shape[0], q.shape[1]);
                        lemma_packed_cell(q@, n as int, i as int);
                        assert(q@.holds(n as int, i as int));
                    }
                    out.push(q.deq(n, i));
                },
                None => {
                    let have: usize = self.data.len();
                    out.push(self.data[n * d + i]);
                },
            }
            i = i + 1;
        }
        proof {
            lemma_chunk_fits(n as int, rows, d as int);
            assert(out@ =~= chunk(cells, n as int, d as int));
        }
        out
    }
}

impl<E: Fn(Elementary, F32, F32) -> F32> CpuBackend<E> {
    /// One number of a rotated head, which starts at cell `base`.
    fn turn(&self, xs: &[F32], base: usize, d: usize, hd: usize, pos: u32, theta: F32, rotary_dim: usize) -> (r: F32)
        requires
            base + hd <= xs@.len(),
            d < hd,
            rotary_dim <= hd,
        ensures
            r == turned(self.values(), xs@.subrange(base as int, base + hd), d as int, pos, theta, rotary_dim),
    {
        let have: usize = xs.len();
        let half: usize = rotary_dim / 2;
        let x = xs[base + d];
        if d >= 2 * half {
            return x;
        }
        let j: usize = if d < half {
            d
        } else {
            d - half
        };
        let exponent = F32(TWO).times(F32::from_u64(j as u64)).negated().over(F32::from_u64(rotary_dim as u64));
        let t = F32::from_u64(pos as u64).times(self.value(Elementary::Power, theta, exponent));
        let cos = self.value(Elementary::Cos, t, t);
        let sin = self.value(Elementary::Sin, t, t);
        if d < half {
            x.times(cos).minus(xs[base + d + half].times(sin))
        } else {
            x.times(cos).plus(xs[base + d - half].times(sin))
        }
    }

    /// Scores of the query at cell `qo` against the keys of a head.
    fn scores_of(&self, q: &[F32], qo: usize, qpos: u32, k: &[F32], heads: usize, head: usize, dh: usize, o: &AttnOpts<'_>) -> (r:
        Vec<F32>)
        requires
            qo + dh <= q@.len(),
            head < heads,
            o@.k_pos.len() * heads <= usize::MAX,
            k@.len() == o@.k_pos.len() * heads * dh,
        ensures
            r@ == scores(
                self.values(),
                q@.subrange(qo as int, qo + dh),
                qpos,
                |j: int| chunk(k@, j * heads + head, dh as int),
                o@,
            ),
    {
        let ghost at = |j: int| chunk(k@, j * heads + head, dh as int);
        let ghost query = q@.subrange(qo as int, qo + dh);
        let ghost want = scores(self.values(), query, qpos, at, o@);
        let len: usize = o.k_pos.len();
        let (have_q, have_k): (usize, usize) = (q.len(), k.len());
        let mut out: Vec<F32> = Vec::new();
        let mut j: usize = 0;
        while j < len
            invariant
                have_q == q@.len(),
                have_k == k@.len(),
                qo + dh <= have_q,
                head < heads,
                len == o@.k_pos.len(),
                len * heads <= usize::MAX,
                o@.k_pos == o.k_pos@,
                k@.len() == len * heads * dh,
                at == (|j: int| chunk(k@, j * heads + head, dh as int)),
                query == q@.subrange(qo as int, qo + dh),
                want == scores(self.values(), query, qpos, at, o@),
                j <= len,
                out@ == want.take(j as int),
            decreases len - j,
        {
            let kpos: u32 = o.k_pos[j];
            if kpos > qpos || (o.sliding_window > 0 && qpos - kpos >= o.sliding_window) {
                out.push(F32(NEG_INFINITY_F32));
            } else {
                proof {
                    lemma_cell(j as int, head as int, len as int, heads as int);
                    lemma_chunk_fits(j * heads + head, len * heads, dh as int);
                }
                let mut s = dot_at(q, qo, k, (j * heads + head) * dh, dh).times(o.scale);
                proof {
                    assert(dot(query, at(j as int)).spec_times(o@.scale) == s);
                }
                if F32(0).less(o.attn_softcap) {
                    s = self.cap(s, o.attn_softcap);
                }
                out.push(s);
            }
            j = j + 1;
            proof {
                assert(out@ =~= want.take(j as int));
            }
        }
        proof {
            assert(want.take(len as int) =~= want);
        }
        out
    }

    /// The weights of scores, and what they are multiplied by; a weight of
    /// zero where there is none.
    fn weights(&self, scores: &Vec<F32>) -> (r: (Vec<F32>, F32))
        ensures
            r.0@.len() == scores@.len(),
            forall|j: int|
                0 <= j < scores@.len() ==> #[trigger] r.0@[j] == match raw_weight(
                    self.values(),
                    scores@[j],
                    highest(scores@),
                ) {
                    Some(w) => w,
                    None => F32(0),
                },
            r.1 == inverse_sum(weight_sum(self.values(), scores@, highest(scores@))),
    {
        let len: usize = scores.len();
        let mut top = F32(NEG_INFINITY_F32);
        let mut j: usize = 0;
        proof {
            assert(scores@.take(0) =~= Seq::empty());
        }
        while j < len
            invariant
                len == scores@.len(),
                j <= len,
                top == highest(scores@.take(j as int)),
            decreases len - j,
        {
            proof {
                assert(scores@.take(j + 1).drop_last() =~= scores@.take(j as int));
                assert(scores@.take(j + 1).last() == scores@[j as int]);
            }
            if top.less(scores[j]) {
                top = scores[j];
            }
            j = j + 1;
        }
        proof {
            assert(scores@.take(len as int) =~= scores@);
        }
        let mut out: Vec<F32> = Vec::new();
        let mut sum = F32(0);
        let mut i: usize = 0;
        while i < len
            invariant
                len == scores@.len(),
                top == highest(scores@),
                i <= len,
                out@.len() == i,
                forall|j: int|
                    0 <= j < i ==> #[trigger] out@[j] == match raw_weight(self.values(), scores@[j], top) {
                        Some(w) => w,
                        None => F32(0),
                    },
                sum == weight_sum(self.values(), scores@.take(i as int), top),
            decreases len - i,
        {
            proof {
                assert(scores@.take(i + 1).drop_last() =~= scores@.take(i as int));
                assert(scores@.take(i + 1).last() == scores@[i as int]);
            }
            let s = scores[i];
            if s.same(F32(NEG_INFINITY_F32)) {
                out.push(F32(0));
            } else {
                let x = s.minus(top);
                let w = self.value(Elementary::Exp, x, x);
                out.push(w);
                sum = sum.plus(w);
            }
            i = i + 1;
        }
        proof {
            assert(scores@.take(len as int) =~= scores@);
        }
        let inv = if F32(0).less(sum) {
            F32(ONE_F32).over(sum)
        } else {
            F32(0)
        };
        (out, inv)
    }

    /// One number of the values weighted by scores.
    fn mix(&self, scores: &Vec<F32>, weights: &Vec<F32>, inv: F32, v: &[F32], heads: usize, head: usize, dh: usize, d: usize) -> (r:
        F32)
        requires
            weights@.len() == scores@.len(),
            forall|j: int|
                0 <= j < scores@.len() ==> #[trigger] weights@[j] == match raw_weight(
                    self.values(),
                    scores@[j],
                    highest(scores@),
                ) {
                    Some(w) => w,
                    None => F32(0),
                },
            head < heads,
            d < dh,
            scores@.len() * heads <= usize::MAX,
            v@.len() == scores@.len() * heads * dh,
        ensures
            r == mixed(
                self.values(),
                scores@,
                highest(scores@),
                inv,
                |j: int| chunk(v@, j * heads + head, dh as int)[d as int],
            ),
    {
        let ghost at = |j: int| chunk(v@, j * heads + head, dh as int)[d as int];
        let ghost top = highest(scores@);
        let len: usize = scores.len();
        let have: usize = v.len();
        let mut acc = F32(0);
        let mut j: usize = 0;
        proof {
            assert(scores@.take(0) =~= Seq::empty());
        }
        while j < len
            invariant
                len == scores@.len(),
                have == v@.len(),
                weights@.len() == len,
                forall|j: int|
                    0 <= j < len ==> #[trigger] weights@[j] == match raw_weight(self.values(), scores@[j], top) {
                        Some(w) => w,
                        None => F32(0),
                    },
                head < heads,
                d < dh,
                len * heads <= usize::MAX,
                v@.len() == len * heads * dh,
                at == (|j: int| chunk(v@, j * heads + head, dh as int)[d as int]),
                j <= len,
                acc == mixed(self.values(), scores@.take(j as int), top, inv, at),
            decreases len - j,
        {
            proof {
                assert(scores@.take(j + 1).drop_last() =~= scores@.take(j as int));
                assert(scores@.take(j + 1).last() == scores@[j as int]);
                lemma_cell(j as int, head as int, len as int, heads as int);
                lemma_chunk_fits(j * heads + head, len * heads, dh as int);
            }
            let w = weights[j].times(inv);
            if !w.same(F32(0)) {
                let y = v[(j * heads + head) * dh + d];
                proof {
                    assert(y == at(j as int));
                }
                acc = acc.plus(w.times(y));
            }
            j = j + 1;
        }
        proof {
            assert(scores@.take(len as int) =~= scores@);
        }
        acc
    }
}

/// A chunk lies within its cells.
proof fn lemma_chunk_fits(i: int, n: int, d: int)
    requires
        0 <= i < n,
        0 <= d,
    ensures
        0 <= i * d,
        i * d + d <= n * d,
{
    assert(0 <= i * d && i * d + d <= n * d) by (nonlinear_arith)
        requires
            0 <= i < n,
            0 <= d,
    ;
}

// --- work in pieces ------------------------------------------------------------------------------

/// Columns `[start, end)` of a product, one column after the other.
pub open spec fn product_columns(x: Content, w: Content, start: int, end: int) -> Seq<F32> {
    let (t, k) = (x.dims[0] as int, x.dims[1] as int);
    Seq::new(((end - start) * t) as nat, |c: int| dot(chunk(x.cells, c % t, k), chunk(w.cells, start + c / t, k)))
}

/// Columns computed in two pieces are the columns computed in one.
pub proof fn columns_in_pieces(x: Content, w: Content, a: int, b: int, c: int)
    requires
        a <= b <= c,
    ensures
        product_columns(x, w, a, b) + product_columns(x, w, b, c) == product_columns(x, w, a, c),
{
    let t = x.dims[0] as int;
    let (p, q, whole) = (product_columns(x, w, a, b), product_columns(x, w, b, c), product_columns(x, w, a, c));
    lemma_mul_is_distributive_add_other_way(t, b - a, c - b);
    lemma_mul_nonnegative(b - a, t);
    lemma_mul_nonnegative(c - b, t);
    assert forall|i: int| 0 <= i < whole.len() implies #[trigger] whole[i] == (p + q)[i] by {
        if i >= (b - a) * t {
            let r = i - (b - a) * t;
            lemma_place(r, c - b, t);
            lemma_cell(b - a + r / t, r % t, c - a, t);
            lemma_mul_is_distributive_add_other_way(t, b - a, r / t);
        }
    }
    assert(whole =~= p + q);
}

/// A matrix whose rows are another's columns.
pub open spec fn turned_over(v: Seq<F32>, rows: int, cols: int) -> Seq<F32> {
    Seq::new((cols * rows) as nat, |c: int| v[(c % rows) * cols + c / rows])
}

pub fn transposed(v: &[F32], rows: usize, cols: usize) -> (r: Vec<F32>)
    requires
        v@.len() == rows * cols,
    ensures
        r@ == turned_over(v@, rows as int, cols as int),
{
    let have: usize = v.len();
    let ghost want = turned_over(v@, rows as int, cols as int);
    let mut out: Vec<F32> = Vec::new();
    let mut i: usize = 0;
    proof {
        lemma_mul_is_commutative(rows as int, cols as int);
        assert(0 * rows == 0);
    }
    while i < cols
        invariant
            have == v@.len(),
            have == rows * cols,
            want == turned_over(v@, rows as int, cols as int),
            want.len() == cols * rows,
            i <= cols,
            out@ == want.take(i * rows),
        decreases cols - i,
    {
        let mut c: usize = 0;
        while c < rows
            invariant
                have == v@.len(),
                have == rows * cols,
                want == turned_over(v@, rows as int, cols as int),
                want.len() == cols * rows,
                i < cols,
                c <= rows,
                out@ == want.take(i * rows + c),
            decreases rows - c,
        {
            proof {
                lemma_cell(c as int, i as int, rows as int, cols as int);
                lemma_cell(i as int, c as int, cols as int, rows as int);
            }
            out.push(v[c * cols + i]);
            proof {
                assert(out@ =~= want.take(i * rows + c + 1));
            }
            c = c + 1;
        }
        proof {
            assert((i + 1) * rows == i * rows + rows) by (nonlinear_arith);
        }
        i = i + 1;
    }
    proof {
        assert(want.take(cols * rows) =~= want);
    }
    out
}

/// Work below this many multiplications is not split.
pub const MIN_SPLIT_WORK: usize = 0x4000;

/// The most pieces for `n` rows.
pub open spec fn pieces_for(n: usize, threads: usize) -> int {
    if threads < 1 || n < 1 {
        1
    } else if threads < n {
        threads as int
    } else {
        n as int
    }
}

/// Ranges of `chunk` rows from `start` on, the last as long as rows are left.
pub open spec fn ranges_from(start: int, n: int, chunk: int) -> Seq<(int, int)>
    decreases n - start,
{
    if start >= n || chunk <= 0 {
        Seq::empty()
    } else if start + chunk >= n {
        seq![(start, n)]
    } else {
        seq![(start, start + chunk)] + ranges_from(start + chunk, n, chunk)
    }
}

/// How `n` rows are split: not at all where there is little work or one thread.
pub open spec fn split(n: usize, work: usize, threads: usize) -> Seq<(int, int)> {
    let t = pieces_for(n, threads);
    if t == 1 || work < MIN_SPLIT_WORK {
        seq![(0int, n as int)]
    } else {
        ranges_from(0, n as int, crate::dispatch::ceil(n as int, t))
    }
}

/// The rows that each of some threads takes.
pub fn row_ranges(n: usize, work: usize, threads: usize) -> (r: Vec<(usize, usize)>)
    ensures
        r@.map_values(|p: (usize, usize)| (p.0 as int, p.1 as int)) == split(n, work, threads),
{
    let f = Ghost(|p: (usize, usize)| (p.0 as int, p.1 as int));
    let mut out: Vec<(usize, usize)> = Vec::new();
    let t: usize = if threads < 1 || n < 1 {
        1
    } else if threads < n {
        threads
    } else {
        n
    };
    if t == 1 || work < MIN_SPLIT_WORK {
        out.push((0, n));
        proof {
            assert(out@.map_values(f@) =~= seq![(0int, n as int)]);
        }
        return out;
    }
    let chunk: usize = crate::dispatch::ceil_size(n, t);
    proof {
        crate::dispatch::lemma_ceil(n as int, t as int);
        assert(chunk > 0) by (nonlinear_arith)
            requires
                chunk * t >= n,
                n >= 1,
                t >= 1,
        ;
        assert(out@.map_values(f@) + ranges_from(0, n as int, chunk as int) =~= split(n, work, threads));
    }
    let mut start: usize = 0;
    while start < n
        invariant
            chunk > 0,
            start <= n,
            f@ == (|p: (usize, usize)| (p.0 as int, p.1 as int)),
            out@.map_values(f@) + ranges_from(start as int, n as int, chunk as int) == split(n, work, threads),
        decreases n - start,
    {
        let end: usize = if n - start <= chunk {
            n
        } else {
            start + chunk
        };
        let ghost before = out@;
        out.push((start, end));
        proof {
            assert(out@.map_values(f@) =~= before.map_values(f@).push((start as int, end as int)));
            assert(out@.map_values(f@) + ranges_from(end as int, n as int, chunk as int) =~= before.map_values(f@)
                + ranges_from(start as int, n as int, chunk as int));
        }
        start = end;
    }
    proof {
        assert(out@.map_values(f@) =~= split(n, work, threads));
    }
    out
}

proof fn lemma_ranges(start: int, n: int, chunk: int)
    requires
        0 <= start < n,
        chunk > 0,
    ensures
        ({
            let r = ranges_from(start, n, chunk);
            &&& r.len() > 0
            &&& r[0].0 == start
            &&& r.last().1 == n
            &&& forall|i: int| 0 <= i < r.len() ==> (#[trigger] r[i]).0 < r[i].1
            &&& forall|i: int| 0 < i < r.len() ==> (#[trigger] r[i]).0 == r[i - 1].1
        }),
    decreases n - start,
{
    if start + chunk < n {
        lemma_ranges(start + chunk, n, chunk);
        let rest = ranges_from(start + chunk, n, chunk);
        let r = ranges_from(start, n, chunk);
        assert(r.last() == rest.last());
        assert forall|i: int| 0 < i < r.len() implies (#[trigger] r[i]).0 == r[i - 1].1 by {
            assert(r[i] == rest[i - 1]);
            if i > 1 {
                assert(r[i - 1] == rest[i - 2]);
            }
        }
        assert forall|i: int| 0 <= i < r.len() implies (#[trigger] r[i]).0 < r[i].1 by {
            if i > 0 {
                assert(r[i] == rest[i - 1]);
            }
        }
    }
}

/// However rows are split, each is in one range, and the ranges follow each
/// other.
pub proof fn ranges_share_all_rows(n: usize, work: usize, threads: usize)
    ensures
        ({
            let r = split(n, work, threads);
            &&& r.len() > 0
            &&& r[0].0 == 0
            &&& r.last().1 == n
            &&& forall|i: int| 0 <= i < r.len() ==> (#[trigger] r[i]).0 <= r[i].1
            &&& forall|i: int| 0 < i < r.len() ==> (#[trigger] r[i]).0 == r[i - 1].1
        }),
{
    let t = pieces_for(n, threads);
    if t != 1 && work >= MIN_SPLIT_WORK {
        let chunk = crate::dispatch::ceil(n as int, t);
        crate::dispatch::lemma_ceil(n as int, t);
        assert(chunk > 0) by (nonlinear_arith)
            requires
                chunk * t >= n,
                n >= 1,
                t >= 1,
        ;
        lemma_ranges(0, n as int, chunk);
    }
}

/// What pieces give, one after the other.
pub open spec fn gathered(piece: spec_fn(int, int) -> Seq<F32>, ranges: Seq<(int, int)>) -> Seq<F32>
    decreases ranges.len(),
{
    if ranges.len() == 0 {
        Seq::empty()
    } else {
        gathered(piece, ranges.drop_last()) + piece(ranges.last().0, ranges.last().1)
    }
}

/// Whether two pieces that meet are one.
spec fn pieces_join(piece: spec_fn(int, int) -> Seq<F32>, a: int, b: int, c: int) -> bool {
    piece(a, b) + piece(b, c) == piece(a, c)
}

proof fn lemma_gathered(piece: spec_fn(int, int) -> Seq<F32>, r: Seq<(int, int)>, i: int)
    requires
        0 < i <= r.len(),
        r[0].0 == 0,
        forall|k: int| 0 <= k < r.len() ==> (#[trigger] r[k]).0 <= r[k].1,
        forall|k: int| 0 < k < r.len() ==> (#[trigger] r[k]).0 == r[k - 1].1,
        forall|a: int, b: int, c: int| 0 <= a <= b <= c ==> #[trigger] pieces_join(piece, a, b, c),
    ensures
        gathered(piece, r.take(i)) == piece(0, r[i - 1].1),
        0 <= r[i - 1].1,
    decreases i,
{
    let t = r.take(i);
    assert(t.drop_last() =~= r.take(i - 1));
    assert(t.last() == r[i - 1]);
    if i == 1 {
        assert(t.drop_last() =~= Seq::empty());
        assert(gathered(piece, t.drop_last()) =~= Seq::empty());
        assert(Seq::<F32>::empty() + piece(r[0].0, r[0].1) =~= piece(0, r[0].1));
    } else {
        lemma_gathered(piece, r, i - 1);
        assert(r[i - 1].0 == r[i - 2].1);
        assert(pieces_join(piece, 0, r[i - 2].1, r[i - 1].1));
    }
}

/// However the columns of a product are split, the pieces give what is computed
/// in one go.
#[verifier::spinoff_prover]
pub proof fn product_in_pieces(x: Content, w: Content, n: usize, work: usize, threads: usize)
    ensures
        gathered(|a: int, b: int| product_columns(x, w, a, b), split(n, work, threads)) == product_columns(x, w, 0, n as int),
{
    let piece = |a: int, b: int| product_columns(x, w, a, b);
    let r = split(n, work, threads);
    ranges_share_all_rows(n, work, threads);
    assert forall|a: int, b: int, c: int| 0 <= a <= b <= c implies #[trigger] pieces_join(piece, a, b, c) by {
        columns_in_pieces(x, w, a, b, c);
    }
    lemma_gathered(piece, r, r.len() as int);
    assert(r.take(r.len() as int) =~= r);
}

/// Rows that are split, and gathered again.
#[verifier::spinoff_prover]
proof fn lemma_rows_gathered(whole: Seq<F32>, d: nat, n: usize, work: usize, threads: usize)
    ensures
        gathered(|a: int, b: int| rows_between(whole, d, a, b), split(n, work, threads)) == rows_between(
            whole,
            d,
            0,
            n as int,
        ),
{
    let piece = |a: int, b: int| rows_between(whole, d, a, b);
    let r = split(n, work, threads);
    ranges_share_all_rows(n, work, threads);
    assert forall|a: int, b: int, c: int| 0 <= a <= b <= c implies #[trigger] pieces_join(piece, a, b, c) by {
        lemma_rows_between(whole, d, a, b, c);
    }
    lemma_gathered(piece, r, r.len() as int);
    assert(r.take(r.len() as int) =~= r);
}

/// However the rows of attention are split, the pieces give what is computed in
/// one go.
#[verifier::spinoff_prover]
pub proof fn attention_in_pieces(whole: Seq<F32>, d: nat, n: usize, work: usize, threads: usize)
    requires
        whole.len() == n * d,
    ensures
        gathered(|a: int, b: int| rows_between(whole, d, a, b), split(n, work, threads)) == whole,
{
    lemma_rows_gathered(whole, d, n, work, threads);
    lemma_mul_basics(d as int);
    assert(row_start(whole, d, 0) == 0);
    assert(row_start(whole, d, n as int) == whole.len());
    assert(whole.subrange(0, whole.len() as int) =~= whole);
}

/// Rows `[a, b)` of numbers in rows of `d`; past the end there are none.
pub open spec fn rows_between(whole: Seq<F32>, d: nat, a: int, b: int) -> Seq<F32> {
    whole.subrange(row_start(whole, d, a), row_start(whole, d, b))
}

/// Where row `i` starts, or where the rows end.
pub open spec fn row_start(whole: Seq<F32>, d: nat, i: int) -> int {
    if i * d < whole.len() {
        i * d
    } else {
        whole.len() as int
    }
}

proof fn lemma_rows_between(whole: Seq<F32>, d: nat, a: int, b: int, c: int)
    requires
        0 <= a <= b <= c,
    ensures
        rows_between(whole, d, a, b) + rows_between(whole, d, b, c) == rows_between(whole, d, a, c),
{
    lemma_mul_inequality(a, b, d as int);
    lemma_mul_inequality(b, c, d as int);
    lemma_mul_nonnegative(a, d as int);
    let (x, y, z) = (row_start(whole, d, a), row_start(whole, d, b), row_start(whole, d, c));
    assert(0 <= x <= y <= z <= whole.len());
    assert(whole.subrange(x, y) + whole.subrange(y, z) =~= whole.subrange(x, z));
}

impl<E: Fn(Elementary, F32, F32) -> F32> CpuBackend<E> {
    /// Columns `[start, end)` of a product, one column after the other: each
    /// row of the weight is unpacked once, for every row of `x`.
    pub fn linear_columns(&self, x: &CpuTensor, w: &CpuTensor, start: usize, end: usize) -> (r: Vec<F32>)
        requires
            x.content().is_plain(),
            w.content().is_whole(),
            x.content().is_matrix(),
            w.content().is_matrix(),
            x.content().dims[1] == w.content().dims[1],
            x.content().dims[0] * w.content().dims[0] <= usize::MAX,
            start <= end <= w.content().dims[0],
        ensures
            r@ == product_columns(x.content(), w.content(), start as int, end as int),
    {
        let (tt, k): (usize, usize) = (x.shape()[0], x.shape()[1]);
        let data = x.data();
        let have: usize = data.len();
        let ghost (cx, cw) = (x.content(), w.content());
        let ghost want = product_columns(cx, cw, start as int, end as int);
        let ghost n = cw.dims[0] as int;
        let ghost cols = end - start;
        proof {
            assert(cx.dims =~= seq![tt, k]);
            crate::backend::product_of_two(tt, k);
            assert(cw.dims =~= seq![cw.dims[0], cw.dims[1]]);
            crate::backend::product_of_two(cw.dims[0], cw.dims[1]);
            assert(0 * tt == 0);
        }
        let mut out: Vec<F32> = Vec::new();
        let mut c: usize = start;
        while c < end
            invariant
                have == data@.len(),
                data@ == cx.cells,
                have == tt * k,
                cx.dims == seq![tt, k],
                cx == x.content(),
                cw == w.content(),
                cw.is_whole(),
                cw.is_matrix(),
                cw.cells.len() >= n * k,
                k == cw.dims[1],
                n == cw.dims[0],
                cols == end - start,
                end <= n,
                want == product_columns(cx, cw, start as int, end as int),
                want.len() == cols * tt,
                start <= c <= end,
                out@ == want.take((c - start) * tt),
            decreases end - c,
        {
            let row = w.row(c);
            proof {
                lemma_chunk_fits(c as int, n, k as int);
            }
            let mut i: usize = 0;
            while i < tt
                invariant
                    have == data@.len(),
                    data@ == cx.cells,
                    have == tt * k,
                    cx.dims == seq![tt, k],
                    row@.len() == k,
                    row@ == chunk(cw.cells, c as int, k as int),
                    cols == end - start,
                    want == product_columns(cx, cw, start as int, end as int),
                    want.len() == cols * tt,
                    start <= c < end,
                    i <= tt,
                    out@ == want.take((c - start) * tt + i),
                decreases tt - i,
            {
                proof {
                    lemma_chunk_fits(i as int, tt as int, k as int);
                    lemma_cell(c - start, i as int, cols, tt as int);
                    assert(row@.subrange(0, 0 + k) =~= row@);
                }
                out.push(dot_at(data, i * k, row.as_slice(), 0, k));
                proof {
                    assert(out@ =~= want.take((c - start) * tt + i + 1));
                }
                i = i + 1;
            }
            proof {
                assert((c + 1 - start) * tt == (c - start) * tt + tt) by (nonlinear_arith);
            }
            c = c + 1;
        }
        proof {
            assert(want.take(cols * tt) =~= want);
        }
        out
    }

    /// Attention for some queries and heads: row `r` is head `r % heads` of
    /// query `r / heads`.
    pub fn attention_rows(&self, q: &CpuTensor, k: &CpuTensor, v: &CpuTensor, opts: &AttnOpts<'_>, start: usize, end: usize) -> (r: Vec<
        F32,
    >)
        requires
            q.content().is_plain(),
            k.content().is_plain(),
            v.content().is_plain(),
            q.content().dims.len() == 3,
            k.content().dims.len() == 3,
            v.content().dims == k.content().dims,
            k.content().dims[2] == q.content().dims[2],
            k.content().dims[1] > 0,
            q.content().dims[1] % k.content().dims[1] == 0,
            opts@.q_pos.len() == q.content().dims[0],
            opts@.k_pos.len() == k.content().dims[0],
            crate::backend::fits(q.content().dims),
            q.content().dims[0] * q.content().dims[1] <= usize::MAX,
            k.content().dims[0] * k.content().dims[1] <= usize::MAX,
            start <= end <= q.content().dims[0] * q.content().dims[1],
        ensures
            r@ == cpu_attention(self.values(), q.content(), k.content(), v.content(), opts@).subrange(
                start * q.content().dims[2],
                end * q.content().dims[2],
            ),
    {
        let (tt, hq, dh): (usize, usize, usize) = (q.shape()[0], q.shape()[1], q.shape()[2]);
        let hkv: usize = k.shape()[1];
        let group: usize = hq / hkv;
        let (qd, kd, vd) = (q.data(), k.data(), v.data());
        let have: usize = qd.len();
        let ghost (cq, ck, cv) = (q.content(), k.content(), v.content());
        let ghost whole = cpu_attention(self.values(), cq, ck, cv, opts@);
        let ghost rows = tt * hq;
        let ghost from = start * dh;
        proof {
            assert(cq.dims =~= seq![tt, hq, dh]);
            crate::backend::product_of_three(tt, hq, dh);
            let s = ck.dims[0];
            assert(ck.dims =~= seq![s, hkv, dh]);
            crate::backend::product_of_three(s, hkv, dh);
            lemma_fundamental_div_mod(hq as int, hkv as int);
            assert(hkv * group == hq);
            lemma_mul_inequality(start as int, end as int, dh as int);
            lemma_mul_inequality(end as int, rows, dh as int);
            lemma_mul_nonnegative(start as int, dh as int);
        }
        let mut out: Vec<F32> = Vec::new();
        let mut r: usize = start;
        while r < end
            invariant
                have == qd@.len(),
                qd@ == cq.cells,
                cq.is_plain(),
                kd@ == ck.cells,
                vd@ == cv.cells,
                cq.dims == seq![tt, hq, dh],
                ck.dims.len() == 3,
                ck.dims[1] == hkv,
                ck.dims[2] == dh,
                cv.dims == ck.dims,
                have == tt * hq * dh,
                rows == tt * hq,
                kd@.len() == opts@.k_pos.len() * hkv * dh,
                opts@.k_pos.len() * hkv <= usize::MAX,
                rows <= usize::MAX,
                vd@.len() == kd@.len(),
                opts@.q_pos.len() == tt,
                hkv > 0,
                hkv * group == hq,
                group == hq as int / hkv as int,
                whole == cpu_attention(self.values(), cq, ck, cv, opts@),
                whole.len() == have,
                from == start * dh,
                0 <= from,
                end <= rows,
                start <= r <= end,
                from <= r * dh <= whole.len(),
                out@ == whole.subrange(from, r * dh),
            decreases end - r,
        {
            proof {
                lemma_place(r as int, tt as int, hq as int);
                lemma_head(r as int % hq as int, hkv as int, group as int);
                lemma_chunk_fits(r as int, rows, dh as int);
                lemma_flat_row(r as int / hq as int, r as int % hq as int, tt as int, hq as int, dh as int);
            }
            let (i, h): (usize, usize) = (r / hq, r % hq);
            let head: usize = h / group;
            let qo: usize = r * dh;
            let ghost query = chunk(cq.cells, r as int, dh as int);
            let found = self.scores_of(qd, qo, opts.q_pos[i], kd, hkv, head, dh, opts);
            let (weights, inv) = self.weights(&found);
            proof {
                assert(query =~= qd@.subrange(qo as int, qo + dh));
                assert((|j: int| chunk(kd@, j * hkv + head, dh as int)) =~= (|j: int| head_at(ck, j, head as int)));
                lemma_attended(self.values(), cq, ck, cv, opts@, r as int, found@);
            }
            let mut d: usize = 0;
            while d < dh
                invariant
                    vd@ == cv.cells,
                    cv.dims[1] == hkv,
                    cv.dims[2] == dh,
                    rows == tt * hq,
                    have == rows * dh,
                    vd@.len() == found@.len() * hkv * dh,
                    found@.len() * hkv <= usize::MAX,
                    head < hkv,
                    whole.len() == have,
                    0 <= r < rows,
                    0 <= from <= r * dh,
                    weights@.len() == found@.len(),
                    forall|j: int|
                        0 <= j < found@.len() ==> #[trigger] weights@[j] == match raw_weight(
                            self.values(),
                            found@[j],
                            highest(found@),
                        ) {
                            Some(w) => w,
                            None => F32(0),
                        },
                    inv == inverse_sum(weight_sum(self.values(), found@, highest(found@))),
                    forall|d: int|
                        0 <= d < dh ==> #[trigger] whole[r * dh + d] == mixed(
                            self.values(),
                            found@,
                            highest(found@),
                            inv,
                            |j: int| head_at(cv, j, head as int)[d],
                        ),
                    d <= dh,
                    out@ == whole.subrange(from, r * dh + d),
                decreases dh - d,
            {
                let y = self.mix(&found, &weights, inv, vd, hkv, head, dh, d);
                proof {
                    lemma_cell(r as int, d as int, rows, dh as int);
                    assert((|j: int| chunk(vd@, j * hkv + head, dh as int)[d as int]) =~= (|j: int|
                        head_at(cv, j, head as int)[d as int]));
                }
                out.push(y);
                proof {
                    assert(out@ =~= whole.subrange(from, r * dh + d + 1));
                }
                d = d + 1;
            }
            proof {
                assert((r + 1) * dh == r * dh + dh) by (nonlinear_arith);
                lemma_rows_within(r as int, rows, dh as int);
            }
            r = r + 1;
        }
        out
    }
}

proof fn lemma_rows_within(r: int, rows: int, d: int)
    requires
        0 <= r < rows,
        0 <= d,
    ensures
        r * d + d <= rows * d,
{
    assert(r * d + d <= rows * d) by (nonlinear_arith)
        requires
            0 <= r < rows,
            0 <= d,
    ;
}

impl<E: Fn(Elementary, F32, F32) -> F32> Backend for CpuBackend<E> {
    type Tensor = CpuTensor;

    open spec fn arithmetic(&self) -> Arithmetic {
        cpu_arithmetic(self.values())
    }

    fn name(&self) -> (r: &str)
        ensures
            r@ == "cpu"@,
    {
        "cpu"
    }

    fn tensor(&self, data: &[F32], shape: &[usize]) -> (r: CpuTensor) {
        CpuTensor::new(slice_to_vec(data), shape)
    }

    fn quant_tensor(&self, q: QuantWeight) -> (r: CpuTensor) {
        let mut shape: Vec<usize> = Vec::new();
        shape.push(q.shape[0]);
        shape.push(q.shape[1]);
        proof {
            assert(shape@ =~= seq![q.shape[0], q.shape[1]]);
            crate::backend::product_of_two(q.shape[0], q.shape[1]);
        }
        CpuTensor { data: Arc::new(Vec::new()), shape, quant: Some(Arc::new(q)) }
    }

    fn reshape(&self, x: &CpuTensor, shape: &[usize]) -> (r: CpuTensor) {
        proof {
            use_type_invariant(x);
        }
        CpuTensor { data: x.data.clone(), shape: slice_to_vec(shape), quant: None }
    }

    fn zeros(&self, shape: &[usize]) -> (r: CpuTensor) {
        let n: usize = count(shape);
        let mut out: Vec<F32> = Vec::new();
        let mut i: usize = 0;
        while i < n
            invariant
                i <= n,
                out@ == Seq::new(i as nat, |c: int| F32(0)),
            decreases n - i,
        {
            out.push(F32(0));
            i = i + 1;
            proof {
                assert(out@ =~= Seq::new(i as nat, |c: int| F32(0)));
            }
        }
        CpuTensor::new(out, shape)
    }

    fn embed_rows(&self, table: &CpuTensor, ids: &[u32], scale: F32) -> (r: CpuTensor) {
        let d: usize = table.shape()[1];
        let len: usize = ids.len();
        let ghost want = cpu_embed(table.content(), ids@, scale);
        let mut out: Vec<F32> = Vec::new();
        let mut i: usize = 0;
        while i < len
            invariant
                len == ids@.len(),
                table.content().is_whole(),
                table.content().is_matrix(),
                d == table.content().dims[1],
                want == cpu_embed(table.content(), ids@, scale),
                want.len() == len * d,
                len * d <= usize::MAX,
                forall|c: int| 0 <= c < len ==> #[trigger] ids@[c] < table.content().dims[0],
                i <= len,
                out@ == want.take(i * d),
            decreases len - i,
        {
            let row = table.row(ids[i] as usize);
            let mut j: usize = 0;
            proof {
                let dims = table.content().dims;
                assert(dims =~= seq![dims[0], d]);
                crate::backend::product_of_two(dims[0], d);
                lemma_chunk_fits(ids@[i as int] as int, dims[0] as int, d as int);
                assert(i * d + 0 == i * d);
            }
            while j < d
                invariant
                    len == ids@.len(),
                    d == table.content().dims[1],
                    want == cpu_embed(table.content(), ids@, scale),
                    want.len() == len * d,
                    i < len,
                    row@ == chunk(table.content().cells, ids@[i as int] as int, d as int),
                    row@.len() == d,
                    0 <= ids@[i as int] * d,
                    ids@[i as int] * d + d <= table.content().cells.len(),
                    j <= d,
                    out@ == want.take(i * d + j),
                decreases d - j,
            {
                out.push(row[j].times(scale));
                proof {
                    lemma_cell(i as int, j as int, len as int, d as int);
                    assert(out@ =~= want.take(i * d + j + 1));
                }
                j = j + 1;
            }
            proof {
                assert((i + 1) * d == i * d + d) by (nonlinear_arith);
            }
            i = i + 1;
        }
        let mut shape: Vec<usize> = Vec::new();
        shape.push(len);
        shape.push(d);
        proof {
            assert(want.take(len * d) =~= want);
            assert(shape@ =~= seq![len, d]);
            crate::backend::product_of_two(len, d);
        }
        CpuTensor::new(out, shape.as_slice())
    }

    fn rms_norm(&self, x: &CpuTensor, w: Option<&CpuTensor>, eps: F32) -> (r: CpuTensor) {
        let shape = x.shape();
        let rank: usize = shape.len();
        let d: usize = shape[rank - 1];
        let data = x.data();
        let n: usize = data.len();
        let rows: usize = n / d;
        let ghost c = x.content();
        let ghost cw = crate::backend::held(w);
        let ghost want = cpu_norm(c, cw, eps);
        proof {
            let p = crate::backend::product(c.dims.drop_last());
            assert(n == p * d as nat);
            lemma_div_multiples_vanish(p as int, d as int);
            lemma_mul_is_commutative(p as int, d as int);
        }
        let mut out: Vec<F32> = Vec::new();
        let mut i: usize = 0;
        while i < rows
            invariant
                n == data@.len(),
                data@ == c.cells,
                d > 0,
                d == c.dims.last(),
                n == rows * d,
                cw == crate::backend::held(w),
                cw matches Some(t) ==> t.has_numbers(d as int),
                want == cpu_norm(c, cw, eps),
                want.len() == n,
                i <= rows,
                out@ == want.take(i * d),
            decreases rows - i,
        {
            proof {
                lemma_cell(i as int, 0, rows as int, d as int);
            }
            let base: usize = i * d;
            let ghost row = chunk(data@, i as int, d as int);
            let ss = dot_at(data, base, data, base, d);
            let inv = F32(ONE_F32).over(ss.over(F32::from_u64(d as u64)).plus(eps).root());
            proof {
                assert(row =~= data@.subrange(base as int, base + d));
                assert(inv == inverse_rms(row, eps));
            }
            let mut j: usize = 0;
            while j < d
                invariant
                    n == data@.len(),
                    data@ == c.cells,
                    d > 0,
                    d == c.dims.last(),
                    n == rows * d,
                    i < rows,
                    base == i * d,
                    base + d <= n,
                    row == chunk(data@, i as int, d as int),
                    inv == inverse_rms(row, eps),
                    cw == crate::backend::held(w),
                    cw matches Some(t) ==> t.has_numbers(d as int),
                    want == cpu_norm(c, cw, eps),
                    want.len() == n,
                    j <= d,
                    out@ == want.take(i * d + j),
                decreases d - j,
            {
                proof {
                    lemma_cell(i as int, j as int, rows as int, d as int);
                }
                let y = data[base + j].times(inv);
                match w {
                    Some(w) => {
                        out.push(y.times(w.data()[j]));
                    },
                    None => {
                        out.push(y);
                    },
                }
                proof {
                    assert(out@ =~= want.take(i * d + j + 1));
                }
                j = j + 1;
            }
            proof {
                lemma_cell(i as int, 0, rows as int, d as int);
            }
            i = i + 1;
        }
        proof {
            assert(want.take(n as int) =~= want);
        }
        CpuTensor::new(out, shape)
    }

    fn linear(&self, x: &CpuTensor, w: &CpuTensor) -> (r: CpuTensor) {
        let (tt, k): (usize, usize) = (x.shape()[0], x.shape()[1]);
        let n: usize = w.shape()[0];
        let ghost (cx, cw) = (x.content(), w.content());
        let ghost want = cpu_linear(cx, cw);
        let by_column = self.linear_columns(x, w, 0, n);
        proof {
            lemma_mul_is_commutative(n as int, tt as int);
        }
        let out = transposed(by_column.as_slice(), n, tt);
        let shape: [usize; 2] = [tt, n];
        proof {
            assert forall|c: int| 0 <= c < want.len() implies #[trigger] out@[c] == want[c] by {
                lemma_place(c, tt as int, n as int);
                lemma_cell(c % (n as int), c / (n as int), n as int, tt as int);
            }
            assert(out@ =~= want);
            assert(shape@ =~= seq![tt, n]);
            crate::backend::product_of_two(tt, n);
        }
        CpuTensor::new(out, &shape)
    }

    fn add(&self, a: &CpuTensor, b: &CpuTensor) -> (r: CpuTensor) {
        let f = |x: F32, y: F32| -> (z: F32)
            ensures
                z == x.spec_plus(y),
        {
            x.plus(y)
        };
        let r = ew_pair(a, b, f);
        proof {
            assert(r.content().cells =~= cpu_add(a.content(), b.content()));
        }
        r
    }

    fn mul(&self, a: &CpuTensor, b: &CpuTensor) -> (r: CpuTensor) {
        let f = |x: F32, y: F32| -> (z: F32)
            ensures
                z == x.spec_times(y),
        {
            x.times(y)
        };
        let r = ew_pair(a, b, f);
        proof {
            assert(r.content().cells =~= cpu_mul(a.content(), b.content()));
        }
        r
    }

    fn scale(&self, a: &CpuTensor, s: F32) -> (r: CpuTensor) {
        let f = |x: F32| -> (z: F32)
            ensures
                z == x.spec_times(s),
        {
            x.times(s)
        };
        let r = ew(a, f);
        proof {
            assert(r.content().cells =~= cpu_scale(a.content(), s));
        }
        r
    }

    fn scale_by_tensor(&self, a: &CpuTensor, s: &CpuTensor) -> (r: CpuTensor) {
        self.scale(a, s.data()[0])
    }

    fn gelu_tanh(&self, a: &CpuTensor) -> (r: CpuTensor) {
        proof {
            use_type_invariant(self);
        }
        let elementary = &self.elementary;
        let f = |x: F32| -> (z: F32)
            ensures
                z == gelu(values_of(*elementary), x),
        {
            gelu_tanh_scalar(elementary, x)
        };
        let r = ew(a, f);
        proof {
            assert(r.content().cells =~= cpu_gelu(self.values(), a.content()));
        }
        r
    }

    fn geglu(&self, gate: &CpuTensor, up: &CpuTensor) -> (r: CpuTensor) {
        let g = self.gelu_tanh(gate);
        let r = self.mul(&g, up);
        proof {
            assert(r.content().cells =~= cpu_geglu(self.values(), gate.content(), up.content()));
        }
        r
    }

    fn softcap(&self, a: &CpuTensor, cap: F32) -> (r: CpuTensor) {
        let f = |x: F32| -> (z: F32)
            ensures
                z == capped(self.values(), x, cap),
        {
            self.cap(x, cap)
        };
        let r = ew(a, f);
        proof {
            assert(r.content().cells =~= cpu_softcap(self.values(), a.content(), cap));
        }
        r
    }

    fn rope(
        &self,
        x: &CpuTensor,
        positions: &[u32],
        theta: F32,
        head_dim: usize,
        heads: usize,
        rotary_dim: usize,
    ) -> (r: CpuTensor) {
        let data = x.data();
        let have: usize = data.len();
        let tt: usize = positions.len();
        let ghost c = x.content();
        let ghost want = cpu_rope(self.values(), c, positions@, theta, rotary_dim);
        proof {
            crate::backend::product_of_three(tt, heads, head_dim);
        }
        let mut out: Vec<F32> = Vec::new();
        let mut i: usize = 0;
        proof {
            assert(0 * heads == 0 && 0 * head_dim == 0);
        }
        while i < tt
            invariant
                have == data@.len(),
                data@ == c.cells,
                c.dims == seq![tt, heads, head_dim],
                have == tt * heads * head_dim,
                tt == positions@.len(),
                rotary_dim <= head_dim,
                want == cpu_rope(self.values(), c, positions@, theta, rotary_dim),
                want.len() == have,
                i <= tt,
                out@ == want.take((i * heads) * head_dim),
            decreases tt - i,
        {
            let mut h: usize = 0;
            while h < heads
                invariant
                    have == data@.len(),
                    data@ == c.cells,
                    c.dims == seq![tt, heads, head_dim],
                    have == tt * heads * head_dim,
                    tt == positions@.len(),
                    rotary_dim <= head_dim,
                    want == cpu_rope(self.values(), c, positions@, theta, rotary_dim),
                    want.len() == have,
                    i < tt,
                    h <= heads,
                    out@ == want.take((i * heads + h) * head_dim),
                decreases heads - h,
            {
                let mut d: usize = 0;
                while d < head_dim
                    invariant
                        have == data@.len(),
                        data@ == c.cells,
                        c.dims == seq![tt, heads, head_dim],
                        have == tt * heads * head_dim,
                        tt == positions@.len(),
                        rotary_dim <= head_dim,
                        want == cpu_rope(self.values(), c, positions@, theta, rotary_dim),
                        want.len() == have,
                        i < tt,
                        h < heads,
                        d <= head_dim,
                        out@ == want.take((i * heads + h) * head_dim + d),
                    decreases head_dim - d,
                {
                    proof {
                        lemma_cell(i as int, h as int, tt as int, heads as int);
                        lemma_cell(i * heads + h, d as int, tt * heads, head_dim as int);
                        lemma_flat_row(i as int, h as int, tt as int, heads as int, head_dim as int);
                    }
                    let base: usize = (i * heads + h) * head_dim;
                    let y = self.turn(data, base, d, head_dim, positions[i], theta, rotary_dim);
                    out.push(y);
                    proof {
                        assert(out@ =~= want.take((i * heads + h) * head_dim + d + 1));
                    }
                    d = d + 1;
                }
                proof {
                    assert((i * heads + h + 1) * head_dim == (i * heads + h) * head_dim + head_dim) by (nonlinear_arith);
                }
                h = h + 1;
            }
            proof {
                assert((i + 1) * heads == i * heads + heads) by (nonlinear_arith);
            }
            i = i + 1;
        }
        proof {
            assert(want.take(have as int) =~= want);
        }
        CpuTensor::new(out, x.shape())
    }

    fn attention(&self, q: &CpuTensor, k: &CpuTensor, v: &CpuTensor, opts: &AttnOpts<'_>) -> (r: CpuTensor) {
        let (tt, hq, dh): (usize, usize, usize) = (q.shape()[0], q.shape()[1], q.shape()[2]);
        let ghost want = cpu_attention(self.values(), q.content(), k.content(), v.content(), opts@);
        proof {
            assert(q.content().dims =~= seq![tt, hq, dh]);
            crate::backend::product_of_three(tt, hq, dh);
            lemma_mul_is_associative(tt as int, hq as int, dh as int);
            assert(0 * dh == 0);
        }
        let out = self.attention_rows(q, k, v, opts, 0, tt * hq);
        let shape: [usize; 2] = [tt, hq * dh];
        proof {
            assert(want.subrange(0, want.len() as int) =~= want);
            assert(shape@ =~= seq![tt, (hq * dh) as usize]);
            crate::backend::product_of_two(tt, (hq * dh) as usize);
        }
        CpuTensor::new(out, &shape)
    }

    fn slice_rows(&self, x: &CpuTensor, start: usize, count: usize) -> (r: CpuTensor) {
        let (rows, d): (usize, usize) = (x.shape()[0], x.shape()[1]);
        let data = x.data();
        let have: usize = data.len();
        proof {
            assert(x.content().dims =~= seq![rows, d]);
            crate::backend::product_of_two(rows, d);
            crate::backend::product_of_two(count, d);
            assert((start + count) * d == start * d + count * d && (start + count) * d <= rows * d && start * d >= 0
                && count * d >= 0) by (nonlinear_arith)
                requires
                    start + count <= rows,
                    start >= 0,
                    count >= 0,
                    d >= 0,
            ;
        }
        let out = slice_to_vec(slice_subrange(data, start * d, (start + count) * d));
        let mut shape: Vec<usize> = Vec::new();
        shape.push(count);
        shape.push(d);
        proof {
            assert(shape@ =~= seq![count, d]);
        }
        CpuTensor::new(out, shape.as_slice())
    }

    fn slice_cols(&self, x: &CpuTensor, offset: usize, width: usize) -> (r: CpuTensor) {
        let (rows, stride): (usize, usize) = (x.shape()[0], x.shape()[1]);
        let data = x.data();
        let have: usize = data.len();
        let ghost c = x.content();
        let ghost want = c.columns(offset as int, width as int).cells;
        proof {
            assert(c.dims =~= seq![rows, stride]);
            crate::backend::product_of_two(rows, stride);
            crate::backend::product_of_two(rows, width);
            assert(rows * width >= 0) by (nonlinear_arith)
                requires
                    rows >= 0,
                    width >= 0,
            ;
        }
        let mut out: Vec<F32> = Vec::new();
        let mut i: usize = 0;
        while i < rows
            invariant
                have == data@.len(),
                data@ == c.cells,
                have == rows * stride,
                c.dims == seq![rows, stride],
                offset + width <= stride,
                want == c.columns(offset as int, width as int).cells,
                want.len() == rows * width,
                i <= rows,
                out@ == want.take(i * width),
            decreases rows - i,
        {
            let mut j: usize = 0;
            while j < width
                invariant
                    have == data@.len(),
                    data@ == c.cells,
                    have == rows * stride,
                    c.dims == seq![rows, stride],
                    offset + width <= stride,
                    want == c.columns(offset as int, width as int).cells,
                    want.len() == rows * width,
                    i < rows,
                    j <= width,
                    out@ == want.take(i * width + j),
                decreases width - j,
            {
                proof {
                    lemma_cell(i as int, j as int, rows as int, width as int);
                    lemma_cell(i as int, offset + j, rows as int, stride as int);
                }
                out.push(data[i * stride + offset + j]);
                proof {
                    assert(out@ =~= want.take(i * width + j + 1));
                }
                j = j + 1;
            }
            proof {
                assert((i + 1) * width == i * width + width) by (nonlinear_arith);
            }
            i = i + 1;
        }
        let mut shape: Vec<usize> = Vec::new();
        shape.push(rows);
        shape.push(width);
        proof {
            assert(want.take(rows * width) =~= want);
            assert(shape@ =~= seq![rows, width]);
        }
        CpuTensor::new(out, shape.as_slice())
    }

    fn concat_rows(&self, a: Option<&CpuTensor>, b: &CpuTensor) -> (r: CpuTensor) {
        match a {
            Some(a) => {
                let mut out = slice_to_vec(a.data());
                let more = b.data();
                let len: usize = more.len();
                let mut i: usize = 0;
                while i < len
                    invariant
                        len == more@.len(),
                        i <= len,
                        out@ == a.content().cells + more@.take(i as int),
                    decreases len - i,
                {
                    out.push(more[i]);
                    i = i + 1;
                    proof {
                        assert(out@ =~= a.content().cells + more@.take(i as int));
                    }
                }
                let mut shape = slice_to_vec(b.shape());
                let n: usize = a.shape()[0] + b.shape()[0];
                shape.set(0, n);
                proof {
                    assert(more@.take(len as int) =~= more@);
                    crate::backend::product_of_rows(a.content(), b.content());
                    assert(shape@ =~= b.content().dims.update(0, n));
                }
                CpuTensor::new(out, shape.as_slice())
            },
            None => CpuTensor::new(slice_to_vec(b.data()), b.shape()),
        }
    }

    fn kv_append(&self, existing: Option<&CpuTensor>, add: &CpuTensor) -> (r: KvAppend<CpuTensor>) {
        let tensor = self.concat_rows(existing, add);
        let dead = match existing {
            Some(t) => Some(t.share()),
            None => None,
        };
        KvAppend { tensor, dead }
    }

    fn readback(&self, t: &CpuTensor) -> (r: Vec<F32>) {
        slice_to_vec(t.data())
    }
}

/// The numbers of one query and head, by its scores.
proof fn lemma_attended(e: Values, q: Content, k: Content, v: Content, o: Attention, r: int, found: Seq<F32>)
    requires
        q.dims.len() == 3,
        k.dims.len() == 3,
        q.is_plain(),
        0 <= r < q.dims[0] * q.dims[1],
        found == scores(
            e,
            chunk(q.cells, r, q.dims[2] as int),
            o.q_pos[r / q.dims[1] as int],
            |j: int| head_at(k, j, (r % q.dims[1] as int) / (q.dims[1] as int / k.dims[1] as int)),
            o,
        ),
    ensures
        forall|d: int|
            0 <= d < q.dims[2] ==> #[trigger] cpu_attention(e, q, k, v, o)[r * q.dims[2] + d] == mixed(
                e,
                found,
                highest(found),
                inverse_sum(weight_sum(e, found, highest(found))),
                |j: int| head_at(v, j, (r % q.dims[1] as int) / (q.dims[1] as int / k.dims[1] as int))[d],
            ),
{
    let (t, h, n) = (q.dims[0], q.dims[1], q.dims[2]);
    assert(q.dims =~= seq![t, h, n]);
    crate::backend::product_of_three(t, h, n);
    assert forall|d: int| 0 <= d < n implies #[trigger] cpu_attention(e, q, k, v, o)[r * n + d] == mixed(
        e,
        found,
        highest(found),
        inverse_sum(weight_sum(e, found, highest(found))),
        |j: int| head_at(v, j, (r % h as int) / (h as int / k.dims[1] as int))[d],
    ) by {
        lemma_cell(r, d, t * h, n as int);
        assert(cpu_attention(e, q, k, v, o)[r * n + d] == attended_number(e, q, k, v, o, r, d));
    }
}

/// A row of a tensor of heads.
proof fn lemma_flat_row(i: int, h: int, rows: int, heads: int, d: int)
    requires
        0 <= i < rows,
        0 <= h < heads,
        0 <= d,
    ensures
        0 <= (i * heads + h) * d,
        (i * heads + h) * d + d <= rows * heads * d,
{
    lemma_cell(i, h, rows, heads);
    lemma_chunk_fits(i * heads + h, rows * heads, d);
}

/// The key head of a query head.
proof fn lemma_head(h: int, hkv: int, group: int)
    requires
        0 <= h < hkv * group,
        0 < hkv,
        0 <= group,
    ensures
        group > 0,
        0 <= h / group < hkv,
{
    lemma_place(h, hkv, group);
}

} // verus!
