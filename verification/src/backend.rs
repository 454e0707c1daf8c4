//! The operations that the model is written against.
//!
//! The model never touches a device. It calls [`Backend`], which a plain
//! reference on the host and a GPU both provide, with the same meaning of
//! shapes. An operation's result is a function of its operands' contents. How
//! the numbers are rounded is each backend's own affair, so the functions that
//! stand for the arithmetic (`linear_of`, `norm_of`, ...) belong to the backend,
//! while everything about shapes, rows and order is fixed here.
use vstd::arithmetic::div_mod::*;
use vstd::arithmetic::mul::*;
use vstd::arithmetic::power2::*;
use vstd::pervasive::unreached;
use vstd::prelude::*;

use crate::dequant::{div_ceil, field_at, weight_of};
use crate::float::F32;

verus! {

// --- contents ----------------------------------------------------------------------------------

/// What a tensor holds: its shape, and its numbers row by row. A weight in its
/// packed form holds the numbers it stands for.
#[verifier::ext_equal]
pub struct Content {
    pub dims: Seq<usize>,
    pub cells: Seq<F32>,
    pub packed: bool,
}

/// Plain numbers in a shape.
pub open spec fn plain(dims: Seq<usize>, cells: Seq<F32>) -> Content {
    Content { dims, cells, packed: false }
}

/// Number of cells of a shape.
pub open spec fn product(dims: Seq<usize>) -> nat
    decreases dims.len(),
{
    if dims.len() == 0 {
        1
    } else {
        product(dims.drop_last()) * dims.last() as nat
    }
}

pub proof fn product_of_one(a: usize)
    ensures
        product(seq![a]) == a,
{
    assert(seq![a].drop_last() =~= Seq::empty());
    assert(product(Seq::<usize>::empty()) == 1);
    assert(product(seq![a]) == 1 * (a as nat));
}

pub proof fn product_of_two(a: usize, b: usize)
    ensures
        product(seq![a, b]) == a * b,
{
    product_of_one(a);
    assert(seq![a, b].drop_last() =~= seq![a]);
}

pub proof fn product_of_three(a: usize, b: usize, c: usize)
    ensures
        product(seq![a, b, c]) == a * b * c,
{
    product_of_two(a, b);
    assert(seq![a, b, c].drop_last() =~= seq![a, b]);
}

impl Content {
    pub open spec fn wf(self) -> bool {
        self.cells.len() == product(self.dims)
    }

    /// At least as many numbers as the shape says: what is taken of tables and
    /// weights, where more do not count.
    pub open spec fn is_whole(self) -> bool {
        self.cells.len() >= product(self.dims)
    }

    /// At least `n` plain numbers, in whatever shape.
    pub open spec fn has_numbers(self, n: int) -> bool {
        !self.packed && self.cells.len() >= n
    }

    /// Well-formed, and not packed: what operations take, but for the tables
    /// and weights that may be packed.
    pub open spec fn is_plain(self) -> bool {
        self.wf() && !self.packed
    }

    pub open spec fn is_matrix(self) -> bool {
        self.dims.len() == 2
    }

    /// Rows `[start, start + count)` of a matrix.
    pub open spec fn rows(self, start: int, count: int) -> Content {
        let d = self.dims[1] as int;
        plain(
            seq![count as usize, self.dims[1]],
            self.cells.subrange(start * d, (start + count) * d),
        )
    }

    /// Columns `[offset, offset + width)` of a matrix.
    pub open spec fn columns(self, offset: int, width: int) -> Content {
        let d = self.dims[1] as int;
        plain(
            seq![self.dims[0], width as usize],
            Seq::new(
                (self.dims[0] * width) as nat,
                |i: int| self.cells[(i / width) * d + offset + i % width],
            ),
        )
    }

    pub open spec fn reshaped(self, dims: Seq<usize>) -> Content {
        plain(dims, self.cells)
    }

    /// The rows of `self`, then those of `more`.
    pub open spec fn followed_by(self, more: Content) -> Content {
        plain(
            more.dims.update(0, (self.dims[0] + more.dims[0]) as usize),
            self.cells + more.cells,
        )
    }
}

// --- quantized weights --------------------------------------------------------------------------

/// A weight in its packed form. `qbytes` holds sub-byte values packed least
/// significant bits first, or signed bytes; `scales` one number per row and
/// group; `shape` is `[rows, columns]`.
#[derive(Debug)]
pub struct QuantWeight {
    pub qbytes: Vec<u8>,
    pub scales: Vec<F32>,
    pub shape: [usize; 2],
    pub bits: u32,
    pub signed_i8: bool,
    pub group_size: usize,
}

/// A packed weight as mathematics.
#[verifier::ext_equal]
pub struct Packed {
    pub qbytes: Seq<u8>,
    pub scales: Seq<F32>,
    pub rows: usize,
    pub cols: usize,
    pub bits: u32,
    pub signed_i8: bool,
    pub group_size: usize,
}

impl Packed {
    /// Values per byte.
    pub open spec fn per_byte(self) -> int {
        if self.signed_i8 {
            1
        } else {
            (8u32 / self.bits) as int
        }
    }

    /// Bytes per row.
    pub open spec fn row_bytes(self) -> int {
        if self.signed_i8 {
            self.cols as int
        } else {
            self.cols as int / self.per_byte()
        }
    }

    /// Scales per row.
    pub open spec fn scale_stride(self) -> int {
        (self.cols + self.group_size - 1) / self.group_size as int
    }

    /// The widths that can be unpacked.
    pub open spec fn width_is_known(self) -> bool {
        self.signed_i8 || 1 <= self.bits <= 8
    }

    /// Byte that holds a value.
    pub open spec fn byte_of(self, n: int, k: int) -> int {
        n * self.row_bytes() + k / self.per_byte()
    }

    /// Scale of a value.
    pub open spec fn scale_of(self, n: int, k: int) -> int {
        n * self.scale_stride() + k / self.group_size as int
    }

    /// The value's byte and scale are there.
    pub open spec fn holds(self, n: int, k: int) -> bool {
        &&& 0 <= self.byte_of(n, k) < self.qbytes.len()
        &&& 0 <= self.scale_of(n, k) < self.scales.len()
    }

    /// Every value's byte and scale are there.
    pub open spec fn wf(self) -> bool {
        &&& self.width_is_known()
        &&& self.group_size > 0
        &&& forall|n: int, k: int| 0 <= n < self.rows && 0 <= k < self.cols ==> #[trigger] self.holds(n, k)
    }

    /// The stored integer of a value: a signed byte, or offset binary.
    pub open spec fn stored(self, n: int, k: int) -> int {
        let b = self.qbytes[self.byte_of(n, k)];
        if self.signed_i8 {
            crate::dequant::signed_byte(b)
        } else {
            crate::dequant::raw_field(b, self.bits, (k % self.per_byte()) as nat) - pow2((self.bits - 1) as nat)
        }
    }

    /// The number that a value stands for.
    pub open spec fn value_at(self, n: int, k: int) -> F32 {
        F32::spec_of_int(self.stored(n, k)).spec_times(self.scales[self.scale_of(n, k)])
    }

    /// What the weight holds; no numbers where a byte or a scale is missing.
    pub open spec fn content(self) -> Content {
        let cols = self.cols as int;
        Content {
            dims: seq![self.rows, self.cols],
            cells: if self.wf() {
                Seq::new((self.rows * cols) as nat, |i: int| self.value_at(i / cols, i % cols))
            } else {
                Seq::empty()
            },
            packed: true,
        }
    }
}

/// A row of a packed weight unpacks to the integers that the whole buffer
/// unpacks to, where rows fill whole bytes, and a value stands for the number
/// that `dequantize_weight` gives it.
pub proof fn rows_unpack_as_the_whole(q: Packed, n: int, k: int)
    requires
        q.signed_i8 || 1 <= q.bits < 8,
        q.cols as int % q.per_byte() == 0,
        q.group_size > 0,
        0 <= n,
        0 <= k < q.cols,
    ensures
        ({
            let bits = if q.signed_i8 {
                8
            } else {
                q.bits
            };
            let (cols, group) = (q.cols as nat, q.group_size as nat);
            let stored = crate::dequant::unpacked(q.qbytes, bits, n * cols + k);
            &&& q.stored(n, k) == stored
            &&& q.value_at(n, k) == F32::spec_of_int(stored).spec_times(
                q.scales[n * crate::dequant::groups_per_row(cols, group) + k / group as int],
            )
        }),
{
    lemma_div_pos_is_pos(q.cols + q.group_size - 1, q.group_size as int);
    let (per, cols) = (q.per_byte(), q.cols as int);
    if q.signed_i8 {
        lemma_div_basics(k);
    } else {
        crate::dequant::lemma_slots(q.bits);
        let row = cols / per;
        lemma_fundamental_div_mod(cols, per);
        lemma_fundamental_div_mod(k, per);
        assert(n * cols + k == (n * row + k / per) * per + k % per) by (nonlinear_arith)
            requires
                cols == per * row,
                k == per * (k / per) + k % per,
        ;
        lemma_mod_bound(k, per);
        lemma_fundamental_div_mod_converse(n * cols + k, per, n * row + k / per, k % per);
    }
}

impl View for QuantWeight {
    type V = Packed;

    open spec fn view(&self) -> Packed {
        Packed {
            qbytes: self.qbytes@,
            scales: self.scales@,
            rows: self.shape[0],
            cols: self.shape[1],
            bits: self.bits,
            signed_i8: self.signed_i8,
            group_size: self.group_size,
        }
    }
}

impl QuantWeight {
    /// Values per byte.
    pub fn per_byte(&self) -> (r: usize)
        requires
            !self.signed_i8 ==> self.bits > 0,
        ensures
            r == self@.per_byte(),
    {
        if self.signed_i8 {
            1
        } else {
            (8 / self.bits) as usize
        }
    }

    /// Bytes per packed row.
    pub fn row_bytes(&self) -> (r: usize)
        requires
            self@.width_is_known(),
        ensures
            r == self@.row_bytes(),
    {
        let k: usize = self.shape[1];
        if self.signed_i8 {
            k
        } else {
            proof {
                assert(8u32 / self.bits >= 1) by (nonlinear_arith)
                    requires
                        1 <= self.bits <= 8,
                ;
            }
            k / self.per_byte()
        }
    }

    /// Scales per row.
    pub fn scale_stride(&self) -> (r: usize)
        requires
            self.group_size > 0,
        ensures
            r == self@.scale_stride(),
    {
        div_ceil(self.shape[1], self.group_size)
    }

    /// The number at row `n`, column `k`.
    pub fn deq(&self, n: usize, k: usize) -> (r: F32)
        requires
            self@.width_is_known(),
            self.group_size > 0,
            self@.holds(n as int, k as int),
        ensures
            r == self@.value_at(n as int, k as int),
    {
        let rb = self.row_bytes();
        let stride = self.scale_stride();
        let per = self.per_byte();
        let have: usize = self.qbytes.len();
        let have_scales: usize = self.scales.len();
        proof {
            if !self.signed_i8 {
                assert(8u32 / self.bits >= 1 && 8u32 / self.bits <= 8) by (nonlinear_arith)
                    requires
                        1 <= self.bits <= 8,
                ;
            }
            lemma_div_pos_is_pos(k as int, per as int);
            lemma_div_pos_is_pos(k as int, self.group_size as int);
            assert(n * rb >= 0 && n * stride >= 0) by (nonlinear_arith)
                requires
                    n >= 0,
                    rb >= 0,
                    stride >= 0,
            ;
        }
        let at: usize = n * rb + k / per;
        let scale = self.scales[n * stride + k / self.group_size];
        let b: u8 = self.qbytes[at];
        if self.signed_i8 {
            let q: i32 = if b < 128 {
                b as i32
            } else {
                b as i32 - 256
            };
            F32::from_i32(q).times(scale)
        } else {
            let raw = field_at(b, self.bits, k % per);
            let zero_point = weight_of(self.bits - 1);
            let q: i32 = raw as i32 - zero_point as i32;
            F32::from_i32(q).times(scale)
        }
    }

    /// Whether every value's byte and scale are there.
    pub fn is_whole(&self) -> (r: bool)
        ensures
            r == self@.wf(),
    {
        let (n, k): (usize, usize) = (self.shape[0], self.shape[1]);
        if (!self.signed_i8 && (self.bits < 1 || self.bits > 8)) || self.group_size == 0 {
            return false;
        }
        if n == 0 || k == 0 {
            return true;
        }
        let per = self.per_byte();
        let row = self.row_bytes();
        let stride = self.scale_stride();
        proof {
            if !self.signed_i8 {
                assert(8u32 / self.bits >= 1) by (nonlinear_arith)
                    requires
                        1 <= self.bits <= 8,
                ;
            }
            lemma_last_value(self@);
            assert((n - 1) * row <= usize::MAX * usize::MAX && (n - 1) * stride <= usize::MAX * usize::MAX && (n - 1) * row
                >= 0 && (n - 1) * stride >= 0) by (nonlinear_arith)
                requires
                    0 < n <= usize::MAX,
                    0 <= row <= usize::MAX,
                    0 <= stride <= usize::MAX,
            ;
            assert(usize::MAX * usize::MAX + usize::MAX <= u128::MAX) by (nonlinear_arith)
                requires
                    usize::MAX <= 0xffff_ffff_ffff_ffff,
            ;
            lemma_div_pos_is_pos(k - 1, per as int);
            lemma_div_pos_is_pos(k - 1, self.group_size as int);
        }
        let last_byte: u128 = (n - 1) as u128 * row as u128 + ((k - 1) / per) as u128;
        let last_scale: u128 = (n - 1) as u128 * stride as u128 + ((k - 1) / self.group_size) as u128;
        last_byte < self.qbytes.len() as u128 && last_scale < self.scales.len() as u128
    }
}

/// A packed weight is whole where its last value is there.
proof fn lemma_last_value(q: Packed)
    requires
        q.width_is_known(),
        q.group_size > 0,
        q.rows > 0,
        q.cols > 0,
    ensures
        q.wf() <==> q.holds(q.rows - 1, q.cols - 1),
        q.per_byte() > 0,
        q.row_bytes() >= 0,
        q.scale_stride() >= 0,
{
    let (n, k) = (q.rows - 1, q.cols - 1);
    if !q.signed_i8 {
        let bits = q.bits;
        assert(8u32 / bits >= 1) by (nonlinear_arith)
            requires
                1 <= bits <= 8,
        ;
    }
    lemma_div_pos_is_pos(q.cols as int, q.per_byte());
    lemma_div_pos_is_pos(q.cols + q.group_size - 1, q.group_size as int);
    if q.holds(n, k) {
        assert forall|i: int, j: int| 0 <= i < q.rows && 0 <= j < q.cols implies #[trigger] q.holds(i, j) by {
            let (rb, st) = (q.row_bytes(), q.scale_stride());
            assert(0 <= i * rb <= n * rb && 0 <= i * st <= n * st) by (nonlinear_arith)
                requires
                    0 <= i <= n,
                    0 <= rb,
                    0 <= st,
            ;
            lemma_div_is_ordered(j, k, q.per_byte());
            lemma_div_is_ordered(j, k, q.group_size as int);
            lemma_div_pos_is_pos(j, q.per_byte());
            lemma_div_pos_is_pos(j, q.group_size as int);
        }
    }
}

// --- the operations -----------------------------------------------------------------------------

/// Options of [`Backend::attention`].
#[derive(Clone, Debug)]
pub struct AttnOpts<'a> {
    pub q_pos: &'a [u32],
    pub k_pos: &'a [u32],
    pub scale: F32,
    /// 0 for no sliding window.
    pub sliding_window: u32,
    /// 0 for no soft cap.
    pub attn_softcap: F32,
}

/// The options as mathematics.
pub struct Attention {
    pub q_pos: Seq<u32>,
    pub k_pos: Seq<u32>,
    pub scale: F32,
    pub sliding_window: u32,
    pub attn_softcap: F32,
}

impl<'a> View for AttnOpts<'a> {
    type V = Attention;

    open spec fn view(&self) -> Attention {
        Attention {
            q_pos: self.q_pos@,
            k_pos: self.k_pos@,
            scale: self.scale,
            sliding_window: self.sliding_window,
            attn_softcap: self.attn_softcap,
        }
    }
}

/// Result of [`Backend::kv_append`].
pub struct KvAppend<T> {
    /// The grown tensor.
    pub tensor: T,
    /// The tensor it replaces, where growing took a new buffer.
    pub dead: Option<T>,
}

/// Number of cells of a shape, where it can be counted.
pub fn checked_count(shape: &[usize]) -> (r: Option<usize>)
    ensures
        r is Some <==> fits(shape@),
        r matches Some(n) ==> n == product(shape@),
{
    let ghost dims = shape@;
    let rank: usize = shape.len();
    let mut i: usize = 0;
    while i < rank
        invariant
            shape@ == dims,
            rank == dims.len(),
            i <= rank,
            forall|k: int| 0 <= k < i ==> dims[k] > 0,
        decreases rank - i,
    {
        if shape[i] == 0 {
            proof {
                lemma_zero_product(dims, i as int);
            }
            return Some(0);
        }
        i = i + 1;
    }
    let mut n: usize = 1;
    let mut j: usize = 0;
    proof {
        assert(dims.take(0) =~= Seq::empty());
    }
    while j < rank
        invariant
            shape@ == dims,
            rank == dims.len(),
            j <= rank,
            forall|k: int| 0 <= k < rank ==> dims[k] > 0,
            n == product(dims.take(j as int)),
        decreases rank - j,
    {
        proof {
            assert(dims.take(j + 1).drop_last() =~= dims.take(j as int));
            lemma_prefix_product(dims, j + 1);
        }
        match n.checked_mul(shape[j]) {
            Some(m) => {
                n = m;
            },
            None => {
                return None;
            },
        }
        j = j + 1;
    }
    proof {
        assert(dims.take(j as int) =~= dims);
    }
    Some(n)
}

/// Number of cells of a shape.
pub fn count(shape: &[usize]) -> (r: usize)
    requires
        fits(shape@),
    ensures
        r == product(shape@),
{
    match checked_count(shape) {
        Some(n) => n,
        None => unreached(),
    }
}

/// What every backend's tensors provide.
pub trait TensorShape: Sized {
    /// What the tensor holds. Only a type that is verified says it.
    closed spec fn content(&self) -> Content {
        arbitrary()
    }

    fn shape(&self) -> (r: &[usize])
        ensures
            r@ == self.content().dims,
    ;

    /// Number of cells; of a packed weight, as many as its shape says.
    fn size(&self) -> (r: usize)
        requires
            self.content().packed ==> fits(self.content().dims),
        ensures
            r == if self.content().packed {
                product(self.content().dims)
            } else {
                self.content().cells.len()
            },
    ;

    /// Whether it has at least as many numbers as its shape says.
    fn is_whole(&self) -> (r: bool)
        ensures
            r == self.content().is_whole(),
    ;

    /// Whether it is a packed weight.
    fn is_packed(&self) -> (r: bool)
        ensures
            r == self.content().packed,
    ;

    /// Another handle of the same tensor.
    fn share(&self) -> (r: Self)
        ensures
            r.content() == self.content(),
    ;
}

proof fn lemma_zero_product(dims: Seq<usize>, i: int)
    requires
        0 <= i < dims.len(),
        dims[i] == 0,
    ensures
        product(dims) == 0,
    decreases dims.len(),
{
    if i == dims.len() - 1 {
        assert(product(dims.drop_last()) * 0 == 0) by (nonlinear_arith);
    } else {
        lemma_zero_product(dims.drop_last(), i);
        assert(0 * dims.last() as nat == 0) by (nonlinear_arith);
    }
}

proof fn lemma_prefix_product(dims: Seq<usize>, n: int)
    requires
        0 <= n <= dims.len(),
        forall|k: int| 0 <= k < dims.len() ==> dims[k] > 0,
    ensures
        1 <= product(dims.take(n)) <= product(dims),
    decreases dims.len(),
{
    if n == dims.len() {
        assert(dims.take(n) =~= dims);
        if n > 0 {
            lemma_prefix_product(dims.drop_last(), n - 1);
            assert(dims.drop_last().take(n - 1) =~= dims.drop_last());
            let (a, b) = (product(dims.drop_last()), dims.last() as nat);
            assert(a * b >= 1) by (nonlinear_arith)
                requires
                    a >= 1,
                    b >= 1,
            ;
        }
    } else {
        lemma_prefix_product(dims.drop_last(), n);
        assert(dims.drop_last().take(n) =~= dims.take(n));
        let (a, b) = (product(dims.drop_last()), dims.last() as nat);
        assert(a * b >= a) by (nonlinear_arith)
            requires
                b >= 1,
                a >= 0,
        ;
    }
}

/// What optional tensors hold.
pub open spec fn held<T: TensorShape>(t: Option<&T>) -> Option<Content> {
    match t {
        Some(t) => Some(t.content()),
        None => None,
    }
}

/// A shape whose cells can be counted.
pub open spec fn fits(dims: Seq<usize>) -> bool {
    product(dims) <= usize::MAX
}

/// What a backend's arithmetic makes of numbers: for each operation the cells
/// of its result.
pub struct Arithmetic {
    /// `table` rows picked by id, scaled.
    pub embed_of: spec_fn(Content, Seq<u32>, F32) -> Seq<F32>,
    /// `x / sqrt(mean(x^2) + eps) * w`, row by row; without `w` unweighted.
    pub norm_of: spec_fn(Content, Option<Content>, F32) -> Seq<F32>,
    /// `x` times `w` transposed.
    pub linear_of: spec_fn(Content, Content) -> Seq<F32>,
    /// `a + b`.
    pub add_of: spec_fn(Content, Content) -> Seq<F32>,
    /// `a * b`.
    pub mul_of: spec_fn(Content, Content) -> Seq<F32>,
    /// `a * s`.
    pub scale_of: spec_fn(Content, F32) -> Seq<F32>,
    /// `gelu(a)`, in its tanh form.
    pub gelu_of: spec_fn(Content) -> Seq<F32>,
    /// `gelu(gate) * up`.
    pub geglu_of: spec_fn(Content, Content) -> Seq<F32>,
    /// `cap * tanh(a / cap)`.
    pub softcap_of: spec_fn(Content, F32) -> Seq<F32>,
    /// `x` rotated by position, the first `rotary_dim` of each head.
    pub rope_of: spec_fn(Content, Seq<u32>, F32, usize) -> Seq<F32>,
    /// Causal attention of `q` over `k` and `v`.
    pub attention_of: spec_fn(Content, Content, Content, Attention) -> Seq<F32>,
}

/// The operation surface.
///
/// A fused operation (`linear_geglu`, `add_rms_norm`, `linear_gelu_mul_cols`,
/// `head_norm_rope`) means what the operations that it is made of mean one
/// after the other, and is just that unless a backend has a faster way.
pub trait Backend: Sized {
    type Tensor: TensorShape;

    /// What the backend computes. Only a backend that is verified says it.
    closed spec fn arithmetic(&self) -> Arithmetic {
        arbitrary()
    }

    fn name(&self) -> &str;

    // --- construction ---------------------------------------------------------------------------
    /// Numbers in a shape. Operations take the tensor where there are as many
    /// numbers as the shape says.
    fn tensor(&self, data: &[F32], shape: &[usize]) -> (r: Self::Tensor)
        ensures
            r.content() == plain(shape@, data@),
    ;

    /// A packed weight. Operations take it where no byte or scale is missing.
    fn quant_tensor(&self, q: QuantWeight) -> (r: Self::Tensor)
        ensures
            r.content() == q@.content(),
    ;

    fn zeros(&self, shape: &[usize]) -> (r: Self::Tensor)
        requires
            fits(shape@),
        ensures
            r.content() == plain(shape@, Seq::new(product(shape@), |i: int| F32(0))),
    ;

    /// The same cells in another shape.
    fn reshape(&self, x: &Self::Tensor, shape: &[usize]) -> (r: Self::Tensor)
        requires
            x.content().is_plain(),
            product(shape@) == product(x.content().dims),
        ensures
            r.content() == x.content().reshaped(shape@),
    ;

    // --- arithmetic -------------------------------------------------------------------------------
    fn embed_rows(&self, table: &Self::Tensor, ids: &[u32], scale: F32) -> (r: Self::Tensor)
        requires
            table.content().is_whole(),
            table.content().is_matrix(),
            forall|i: int| 0 <= i < ids@.len() ==> #[trigger] ids@[i] < table.content().dims[0],
            ids@.len() * table.content().dims[1] <= usize::MAX,
        ensures
            r.content().is_plain(),
            r.content() == embedded(self.arithmetic(), table.content(), ids@, scale),
    ;

    fn rms_norm(&self, x: &Self::Tensor, w: Option<&Self::Tensor>, eps: F32) -> (r: Self::Tensor)
        requires
            x.content().is_plain(),
            x.content().dims.len() > 0,
            x.content().dims.last() > 0,
            fits(x.content().dims),
            held(w) matches Some(c) ==> c.has_numbers(x.content().dims.last() as int),
        ensures
            r.content().is_plain(),
            r.content() == normed(self.arithmetic(), x.content(), held(w), eps),
    ;

    fn linear(&self, x: &Self::Tensor, w: &Self::Tensor) -> (r: Self::Tensor)
        requires
            x.content().is_plain(),
            w.content().is_whole(),
            x.content().is_matrix(),
            w.content().is_matrix(),
            x.content().dims[1] == w.content().dims[1],
            x.content().dims[0] * w.content().dims[0] <= usize::MAX,
        ensures
            r.content().is_plain(),
            r.content() == projected(self.arithmetic(), x.content(), w.content()),
    ;

    /// Cell by cell, in the shape of `a`.
    fn add(&self, a: &Self::Tensor, b: &Self::Tensor) -> (r: Self::Tensor)
        requires
            a.content().is_plain(),
            b.content().is_plain(),
            a.content().cells.len() == b.content().cells.len(),
        ensures
            r.content().is_plain(),
            r.content() == summed(self.arithmetic(), a.content(), b.content()),
    ;

    /// Cell by cell, in the shape of `a`.
    fn mul(&self, a: &Self::Tensor, b: &Self::Tensor) -> (r: Self::Tensor)
        requires
            a.content().is_plain(),
            b.content().is_plain(),
            a.content().cells.len() == b.content().cells.len(),
        ensures
            r.content().is_plain(),
            r.content() == plain(a.content().dims, (self.arithmetic().mul_of)(a.content(), b.content())),
    ;

    fn scale(&self, a: &Self::Tensor, s: F32) -> (r: Self::Tensor)
        requires
            a.content().is_plain(),
        ensures
            r.content().is_plain(),
            r.content() == scaled(self.arithmetic(), a.content(), s),
    ;

    /// Scaled by the first number of another tensor.
    fn scale_by_tensor(&self, a: &Self::Tensor, s: &Self::Tensor) -> (r: Self::Tensor)
        requires
            a.content().is_plain(),
            s.content().has_numbers(1),
        ensures
            r.content().is_plain(),
            r.content() == scaled(self.arithmetic(), a.content(), s.content().cells[0]),
    ;

    fn gelu_tanh(&self, a: &Self::Tensor) -> (r: Self::Tensor)
        requires
            a.content().is_plain(),
        ensures
            r.content().is_plain(),
            r.content() == plain(a.content().dims, (self.arithmetic().gelu_of)(a.content())),
    ;

    fn geglu(&self, gate: &Self::Tensor, up: &Self::Tensor) -> (r: Self::Tensor)
        requires
            gate.content().is_plain(),
            up.content().is_plain(),
            gate.content().cells.len() == up.content().cells.len(),
        ensures
            r.content().is_plain(),
            r.content() == gated(self.arithmetic(), gate.content(), up.content()),
    ;

    fn softcap(&self, a: &Self::Tensor, cap: F32) -> (r: Self::Tensor)
        requires
            a.content().is_plain(),
        ensures
            r.content().is_plain(),
            r.content() == plain(a.content().dims, (self.arithmetic().softcap_of)(a.content(), cap)),
    ;

    fn rope(
        &self,
        x: &Self::Tensor,
        positions: &[u32],
        theta: F32,
        head_dim: usize,
        heads: usize,
        rotary_dim: usize,
    ) -> (r: Self::Tensor)
        requires
            x.content().is_plain(),
            x.content().dims == seq![positions@.len() as usize, heads, head_dim],
            positions@.len() <= usize::MAX,
            rotary_dim <= head_dim,
        ensures
            r.content().is_plain(),
            r.content() == rotated(self.arithmetic(), x.content(), positions@, theta, rotary_dim),
    ;

    /// `q` is `[T, heads, head_dim]`, `k` and `v` are `[S, kv_heads, head_dim]`;
    /// the result is `[T, heads * head_dim]`.
    fn attention(&self, q: &Self::Tensor, k: &Self::Tensor, v: &Self::Tensor, opts: &AttnOpts<'_>) -> (r: Self::Tensor)
        requires
            q.content().is_plain(),
            k.content().is_plain(),
            v.content().is_plain(),
            q.content().dims.len() == 3,
            k.content().dims.len() == 3,
            v.content().dims == k.content().dims,
            k.content().dims[2] == q.content().dims[2],
            k.content().dims[1] > 0,
            q.content().dims[1] % k.content().dims[1] == 0,
            opts@.q_pos.len() == q.content().dims[0],
            opts@.k_pos.len() == k.content().dims[0],
            fits(q.content().dims),
            q.content().dims[0] * q.content().dims[1] <= usize::MAX,
            q.content().dims[1] * q.content().dims[2] <= usize::MAX,
            k.content().dims[0] * k.content().dims[1] <= usize::MAX,
        ensures
            r.content().is_plain(),
            r.content() == attended(self.arithmetic(), q.content(), k.content(), v.content(), opts@),
    ;

    // --- rows and columns --------------------------------------------------------------------------
    fn slice_rows(&self, x: &Self::Tensor, start: usize, count: usize) -> (r: Self::Tensor)
        requires
            x.content().is_plain(),
            x.content().is_matrix(),
            start + count <= x.content().dims[0],
        ensures
            r.content().is_plain(),
            r.content() == x.content().rows(start as int, count as int),
    ;

    fn slice_cols(&self, x: &Self::Tensor, offset: usize, width: usize) -> (r: Self::Tensor)
        requires
            x.content().is_plain(),
            x.content().is_matrix(),
            offset + width <= x.content().dims[1],
        ensures
            r.content().is_plain(),
            r.content() == x.content().columns(offset as int, width as int),
    ;

    /// The rows of `a`, if any, then those of `b`.
    fn concat_rows(&self, a: Option<&Self::Tensor>, b: &Self::Tensor) -> (r: Self::Tensor)
        requires
            b.content().is_plain(),
            b.content().dims.len() > 0,
            can_follow(held(a), b.content()),
        ensures
            r.content().is_plain(),
            r.content() == joined_rows(held(a), b.content()),
    ;

    /// The rows of `existing`, if any, then those of `add`, in place where the
    /// buffer has room.
    fn kv_append(&self, existing: Option<&Self::Tensor>, add: &Self::Tensor) -> (r: KvAppend<Self::Tensor>)
        requires
            add.content().is_plain(),
            add.content().dims.len() > 0,
            add.content().dims[0] > 0,
            can_follow(held(existing), add.content()),
        ensures
            r.tensor.content().is_plain(),
            r.tensor.content() == joined_rows(held(existing), add.content()),
            r.dead matches Some(d) ==> held(existing) == Some(d.content()),
    ;

    // --- lifecycle ------------------------------------------------------------------------------------
    /// The numbers of a tensor.
    fn readback(&self, t: &Self::Tensor) -> (r: Vec<F32>)
        requires
            t.content().is_plain(),
        ensures
            r@ == t.content().cells,
    ;

    /// Submit everything recorded so far.
    fn flush(&self) {
    }

    /// Start of a forward pass: what is allocated from here on is recycled at
    /// `end_frame`.
    fn begin_frame(&self) {
    }

    /// End of a forward pass: recycle its tensors but for `keep`, and free
    /// `also_free`.
    fn end_frame(&self, _keep: &[Self::Tensor], _also_free: Vec<Self::Tensor>) {
    }

    /// Free a tensor that nothing uses any more.
    fn free_tensor(&self, _t: Self::Tensor) {
    }

    // --- fused operations --------------------------------------------------------------------------
    /// `gelu(x · gateᵀ) * (x · upᵀ)`.
    fn linear_geglu(&self, x: &Self::Tensor, w_gate: &Self::Tensor, w_up: &Self::Tensor) -> (r: Self::Tensor)
        requires
            x.content().is_plain(),
            w_gate.content().is_whole(),
            w_up.content().is_whole(),
            x.content().is_matrix(),
            w_gate.content().is_matrix(),
            w_up.content().dims == w_gate.content().dims,
            x.content().dims[1] == w_gate.content().dims[1],
            x.content().dims[0] * w_gate.content().dims[0] <= usize::MAX,
        ensures
            r.content().is_plain(),
            r.content() == gated(
                self.arithmetic(),
                projected(self.arithmetic(), x.content(), w_gate.content()),
                projected(self.arithmetic(), x.content(), w_up.content()),
            ),
    {
        let g = self.linear(x, w_gate);
        let u = self.linear(x, w_up);
        self.geglu(&g, &u)
    }

    /// `residual + norm(x) * w`, then scaled by a learned number if there is
    /// one.
    fn add_rms_norm(
        &self,
        residual: &Self::Tensor,
        x: &Self::Tensor,
        w: &Self::Tensor,
        eps: F32,
        scale_by: Option<&Self::Tensor>,
    ) -> (r: Self::Tensor)
        requires
            residual.content().is_plain(),
            x.content().is_plain(),
            residual.content().dims == x.content().dims,
            x.content().dims.len() > 0,
            x.content().dims.last() > 0,
            fits(x.content().dims),
            w.content().has_numbers(x.content().dims.last() as int),
            held(scale_by) matches Some(s) ==> s.has_numbers(1),
        ensures
            r.content().is_plain(),
            r.content() == norm_added(self.arithmetic(), residual.content(), x.content(), w.content(), eps, held(scale_by)),
    {
        let n = self.rms_norm(x, Some(w), eps);
        let h = self.add(residual, &n);
        match scale_by {
            Some(s) => self.scale_by_tensor(&h, s),
            None => h,
        }
    }

    /// `gelu(x · wᵀ) * b[:, offset..]`.
    fn linear_gelu_mul_cols(&self, x: &Self::Tensor, w: &Self::Tensor, b: &Self::Tensor, offset: usize) -> (r: Self::Tensor)
        requires
            x.content().is_plain(),
            w.content().is_whole(),
            b.content().is_plain(),
            x.content().is_matrix(),
            w.content().is_matrix(),
            b.content().is_matrix(),
            x.content().dims[1] == w.content().dims[1],
            b.content().dims[0] == x.content().dims[0],
            offset + w.content().dims[0] <= b.content().dims[1],
            x.content().dims[0] * w.content().dims[0] <= usize::MAX,
        ensures
            r.content().is_plain(),
            r.content() == gated(
                self.arithmetic(),
                projected(self.arithmetic(), x.content(), w.content()),
                b.content().columns(offset as int, w.content().dims[0] as int),
            ),
    {
        let g = self.linear(x, w);
        let width: usize = w.shape()[0];
        let s = self.slice_cols(b, offset, width);
        self.geglu(&g, &s)
    }

    /// Each head normalized by itself, then rotated.
    fn head_norm_rope(
        &self,
        x: &Self::Tensor,
        w: &Self::Tensor,
        eps: F32,
        positions: &[u32],
        theta: F32,
        head_dim: usize,
        heads: usize,
        rotary_dim: usize,
    ) -> (r: Self::Tensor)
        requires
            x.content().is_plain(),
            x.content().dims == seq![positions@.len() as usize, heads, head_dim],
            positions@.len() <= usize::MAX,
            head_dim > 0,
            rotary_dim <= head_dim,
            fits(x.content().dims),
            w.content().has_numbers(head_dim as int),
        ensures
            r.content().is_plain(),
            r.content() == rotated(
                self.arithmetic(),
                head_normed(self.arithmetic(), x.content(), Some(w.content()), eps),
                positions@,
                theta,
                rotary_dim,
            ),
    {
        let t: usize = positions.len();
        proof {
            product_of_three(t, heads, head_dim);
            lemma_flat_heads(t, heads, head_dim);
            product_of_two((t * heads) as usize, head_dim);
        }
        let flat = self.reshape(x, &[t * heads, head_dim]);
        let normed = self.rms_norm(&flat, Some(w), eps);
        let back = self.reshape(&normed, &[t, heads, head_dim]);
        self.rope(&back, positions, theta, head_dim, heads, rotary_dim)
    }
}

/// The heads of a tensor can be counted where its cells can.
pub proof fn lemma_flat_heads(t: usize, heads: usize, head_dim: usize)
    requires
        fits(seq![t, heads, head_dim]),
        head_dim > 0,
    ensures
        t * heads <= usize::MAX,
{
    product_of_three(t, heads, head_dim);
    assert(t * heads <= t * heads * head_dim) by (nonlinear_arith)
        requires
            head_dim >= 1,
            t >= 0,
            heads >= 0,
    ;
}

// --- results as contents ------------------------------------------------------------------------

pub open spec fn embedded(b: Arithmetic, table: Content, ids: Seq<u32>, scale: F32) -> Content {
    plain(seq![ids.len() as usize, table.dims[1]], (b.embed_of)(table, ids, scale))
}

pub open spec fn normed(b: Arithmetic, x: Content, w: Option<Content>, eps: F32) -> Content {
    plain(x.dims, (b.norm_of)(x, w, eps))
}

pub open spec fn projected(b: Arithmetic, x: Content, w: Content) -> Content {
    plain(seq![x.dims[0], w.dims[0]], (b.linear_of)(x, w))
}

pub open spec fn summed(b: Arithmetic, x: Content, y: Content) -> Content {
    plain(x.dims, (b.add_of)(x, y))
}

pub open spec fn scaled(b: Arithmetic, x: Content, s: F32) -> Content {
    plain(x.dims, (b.scale_of)(x, s))
}

pub open spec fn gated(b: Arithmetic, gate: Content, up: Content) -> Content {
    plain(gate.dims, (b.geglu_of)(gate, up))
}

pub open spec fn rotated(
    b: Arithmetic,
    x: Content,
    positions: Seq<u32>,
    theta: F32,
    rotary_dim: usize,
) -> Content {
    plain(x.dims, (b.rope_of)(x, positions, theta, rotary_dim))
}

pub open spec fn attended(b: Arithmetic, q: Content, k: Content, v: Content, o: Attention) -> Content {
    plain(
        seq![q.dims[0], (q.dims[1] * q.dims[2]) as usize],
        (b.attention_of)(q, k, v, o),
    )
}

/// Normalized head by head.
pub open spec fn head_normed(b: Arithmetic, x: Content, w: Option<Content>, eps: F32) -> Content {
    normed(b, x.reshaped(seq![(x.dims[0] * x.dims[1]) as usize, x.dims[2]]), w, eps).reshaped(x.dims)
}

/// A residual with a normalized addition.
pub open spec fn norm_added(
    b: Arithmetic,
    residual: Content,
    x: Content,
    w: Content,
    eps: F32,
    scale_by: Option<Content>,
) -> Content {
    let h = summed(b, residual, normed(b, x, Some(w), eps));
    match scale_by {
        Some(s) => scaled(b, h, s.cells[0]),
        None => h,
    }
}

/// Whether rows can be appended: all but the first dimension agree, and the
/// result can be counted.
pub open spec fn can_follow(a: Option<Content>, b: Content) -> bool {
    match a {
        Some(a) => {
            &&& a.is_plain()
            &&& a.dims.len() == b.dims.len()
            &&& a.dims.drop_first() == b.dims.drop_first()
            &&& a.dims[0] + b.dims[0] <= usize::MAX
            &&& a.cells.len() + b.cells.len() <= usize::MAX
        },
        None => true,
    }
}

pub open spec fn joined_rows(a: Option<Content>, b: Content) -> Content {
    match a {
        Some(a) => a.followed_by(b),
        None => b,
    }
}

/// Rows put together have as many cells as their shape says.
pub proof fn product_of_rows(a: Content, b: Content)
    requires
        a.wf(),
        b.wf(),
        b.dims.len() > 0,
        can_follow(Some(a), b),
    ensures
        a.followed_by(b).wf(),
{
    lemma_rows(a.dims, b.dims);
}

proof fn lemma_rows(a: Seq<usize>, b: Seq<usize>)
    requires
        a.len() == b.len(),
        b.len() > 0,
        a.drop_first() == b.drop_first(),
        a[0] + b[0] <= usize::MAX,
    ensures
        product(b.update(0, (a[0] + b[0]) as usize)) == product(a) + product(b),
    decreases b.len(),
{
    let c = b.update(0, (a[0] + b[0]) as usize);
    if b.len() == 1 {
        assert(a =~= seq![a[0]] && b =~= seq![b[0]] && c =~= seq![c[0]]);
        product_of_one(a[0]);
        product_of_one(b[0]);
        product_of_one(c[0]);
    } else {
        assert(a.last() == a.drop_first().last() && b.last() == b.drop_first().last());
        assert(a.drop_last().drop_first() =~= a.drop_first().drop_last());
        assert(b.drop_last().drop_first() =~= b.drop_first().drop_last());
        lemma_rows(a.drop_last(), b.drop_last());
        assert(c.drop_last() =~= b.drop_last().update(0, (a[0] + b[0]) as usize));
        let (p, q, l) = (product(a.drop_last()), product(b.drop_last()), b.last() as nat);
        assert((p + q) * l == p * l + q * l) by (nonlinear_arith);
    }
}

} // verus!
