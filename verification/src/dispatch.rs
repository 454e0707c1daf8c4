//! What a GPU backend launches for each operation.
//!
//! A launch names a kernel, its variant, the constants it is specialized by,
//! the words of its uniform parameters and the grid of workgroups. Which kernel
//! covers which shape, how keys are split for attention and how buffers are
//! sized is decided here; recording and submitting is the backend's part.
use vstd::arithmetic::div_mod::*;
use vstd::arithmetic::mul::*;
use vstd::prelude::*;

use crate::backend::{Attention, AttnOpts};
use crate::float::F32;

verus! {

#[derive(Clone, Copy, Debug, PartialEq, Eq, Hash, Structural)]
pub enum Kernel {
    Elementwise,
    Embed,
    EmbedQ,
    RmsNorm,
    Matmul,
    Gemv,
    MatmulQ,
    MatmulQTiled,
    MatmulQScalar,
    Rope,
    RmsNormRope,
    Attention,
    AttnSplit,
    AttnCombine,
    SliceCols,
    Copy,
}

impl Kernel {
    /// Read-only and read-write storage buffers, in binding order; the uniform
    /// parameters come last.
    pub open spec fn spec_bindings(self) -> (u32, u32) {
        match self {
            Kernel::Elementwise => (2, 1),
            Kernel::Embed => (2, 1),
            Kernel::EmbedQ => (3, 1),
            Kernel::RmsNorm => (4, 1),
            Kernel::Matmul => (2, 1),
            Kernel::Gemv => (2, 1),
            Kernel::MatmulQ => (6, 1),
            Kernel::MatmulQTiled => (6, 1),
            Kernel::MatmulQScalar => (3, 1),
            Kernel::Rope => (2, 1),
            Kernel::RmsNormRope => (3, 1),
            Kernel::Attention => (5, 1),
            Kernel::AttnSplit => (5, 2),
            Kernel::AttnCombine => (1, 1),
            Kernel::SliceCols => (1, 1),
            Kernel::Copy => (1, 1),
        }
    }

    pub fn bindings(self) -> (r: (u32, u32))
        ensures
            r == self.spec_bindings(),
    {
        match self {
            Kernel::Elementwise => (2, 1),
            Kernel::Embed => (2, 1),
            Kernel::EmbedQ => (3, 1),
            Kernel::RmsNorm => (4, 1),
            Kernel::Matmul => (2, 1),
            Kernel::Gemv => (2, 1),
            Kernel::MatmulQ => (6, 1),
            Kernel::MatmulQTiled => (6, 1),
            Kernel::MatmulQScalar => (3, 1),
            Kernel::Rope => (2, 1),
            Kernel::RmsNormRope => (3, 1),
            Kernel::Attention => (5, 1),
            Kernel::AttnSplit => (5, 2),
            Kernel::AttnCombine => (1, 1),
            Kernel::SliceCols => (1, 1),
            Kernel::Copy => (1, 1),
        }
    }

    pub open spec fn spec_name(self) -> Seq<char> {
        match self {
            Kernel::Elementwise => "elementwise"@,
            Kernel::Embed => "embed"@,
            Kernel::EmbedQ => "embed_q"@,
            Kernel::RmsNorm => "rmsnorm"@,
            Kernel::Matmul => "matmul"@,
            Kernel::Gemv => "gemv"@,
            Kernel::MatmulQ => "matmul_q"@,
            Kernel::MatmulQTiled => "matmul_q_tiled"@,
            Kernel::MatmulQScalar => "matmul_q_scalar"@,
            Kernel::Rope => "rope"@,
            Kernel::RmsNormRope => "rmsnorm_rope"@,
            Kernel::Attention => "attention"@,
            Kernel::AttnSplit => "attn_split"@,
            Kernel::AttnCombine => "attn_combine"@,
            Kernel::SliceCols => "slice_cols"@,
            Kernel::Copy => "copy"@,
        }
    }

    pub fn name(self) -> (r: &'static str)
        ensures
            r@ == self.spec_name(),
    {
        match self {
            Kernel::Elementwise => "elementwise",
            Kernel::Embed => "embed",
            Kernel::EmbedQ => "embed_q",
            Kernel::RmsNorm => "rmsnorm",
            Kernel::Matmul => "matmul",
            Kernel::Gemv => "gemv",
            Kernel::MatmulQ => "matmul_q",
            Kernel::MatmulQTiled => "matmul_q_tiled",
            Kernel::MatmulQScalar => "matmul_q_scalar",
            Kernel::Rope => "rope",
            Kernel::RmsNormRope => "rmsnorm_rope",
            Kernel::Attention => "attention",
            Kernel::AttnSplit => "attn_split",
            Kernel::AttnCombine => "attn_combine",
            Kernel::SliceCols => "slice_cols",
            Kernel::Copy => "copy",
        }
    }
}

/// A constant that a kernel is specialized by.
#[derive(Clone, Copy, Debug, PartialEq, Eq, Hash, Structural)]
pub enum Constant {
    Bits,
    Mrows,
    Mode,
    Lanes,
    Dpt,
}

/// One launch.
#[derive(Debug)]
pub struct Launch {
    pub kernel: Kernel,
    pub variant: u32,
    pub constants: Vec<(Constant, u32)>,
    /// The words of the uniform parameters; numbers by their bit pattern.
    pub uniform: Vec<u32>,
    pub grid: [u32; 3],
}

/// A launch as mathematics.
#[verifier::ext_equal]
pub struct LaunchView {
    pub kernel: Kernel,
    pub variant: u32,
    pub constants: Seq<(Constant, u32)>,
    pub uniform: Seq<u32>,
    pub grid: (u32, u32, u32),
}

impl View for Launch {
    type V = LaunchView;

    open spec fn view(&self) -> LaunchView {
        LaunchView {
            kernel: self.kernel,
            variant: self.variant,
            constants: self.constants@,
            uniform: self.uniform@,
            grid: (self.grid[0], self.grid[1], self.grid[2]),
        }
    }
}

/// A launch of a kernel that has one form.
pub open spec fn simple(kernel: Kernel, uniform: Seq<u32>, grid: (u32, u32, u32)) -> LaunchView {
    LaunchView { kernel, variant: 0, constants: Seq::empty(), uniform, grid }
}

fn launch(kernel: Kernel, words: &[u32], grid: [u32; 3]) -> (r: Launch)
    ensures
        r@ == simple(kernel, words@, (grid[0], grid[1], grid[2])),
{
    let r = Launch { kernel, variant: 0, constants: Vec::new(), uniform: vstd::slice::slice_to_vec(words), grid };
    proof {
        assert(r.constants@ =~= Seq::empty());
    }
    r
}

/// `a / b`, rounded up.
pub open spec fn ceil(a: int, b: int) -> int {
    if a % b == 0 {
        a / b
    } else {
        a / b + 1
    }
}

fn ceil32(a: u32, b: u32) -> (r: u32)
    requires
        b > 0,
    ensures
        r == ceil(a as int, b as int),
{
    if a % b == 0 {
        a / b
    } else {
        proof {
            assert(a / b < u32::MAX) by (nonlinear_arith)
                requires
                    b > 0,
                    a % b != 0,
                    a <= u32::MAX,
            ;
        }
        a / b + 1
    }
}

pub(crate) fn ceil_size(a: usize, b: usize) -> (r: usize)
    requires
        b > 0,
    ensures
        r == ceil(a as int, b as int),
{
    if a % b == 0 {
        a / b
    } else {
        proof {
            assert(a / b < usize::MAX) by (nonlinear_arith)
                requires
                    b > 0,
                    a % b != 0,
                    a <= usize::MAX,
            ;
        }
        a / b + 1
    }
}

// --- elementwise and rows ------------------------------------------------------------------------

/// Operations of the elementwise kernel.
#[derive(Clone, Copy, Debug, PartialEq, Eq, Structural)]
pub enum Elementwise {
    Add,
    Mul,
    Scale,
    Gelu,
    Geglu,
    Softcap,
    ScaleByTensor,
}

impl Elementwise {
    pub open spec fn spec_code(self) -> u32 {
        match self {
            Elementwise::Add => 0,
            Elementwise::Mul => 1,
            Elementwise::Scale => 2,
            Elementwise::Gelu => 3,
            Elementwise::Geglu => 4,
            Elementwise::Softcap => 5,
            Elementwise::ScaleByTensor => 6,
        }
    }

    fn code(self) -> (r: u32)
        ensures
            r == self.spec_code(),
    {
        match self {
            Elementwise::Add => 0,
            Elementwise::Mul => 1,
            Elementwise::Scale => 2,
            Elementwise::Gelu => 3,
            Elementwise::Geglu => 4,
            Elementwise::Softcap => 5,
            Elementwise::ScaleByTensor => 6,
        }
    }
}

/// `n` numbers, one per lane of 256.
pub fn elementwise(n: usize, op: Elementwise, k: F32) -> (r: Launch)
    ensures
        r@ == simple(
            Kernel::Elementwise,
            seq![n as u32, op.spec_code(), k.0, 0],
            (ceil(n as u32 as int, 256) as u32, 1, 1),
        ),
{
    let words: [u32; 4] = [n as u32, op.code(), k.0, 0];
    proof {
        assert(words@ =~= seq![n as u32, op.spec_code(), k.0, 0]);
    }
    launch(Kernel::Elementwise, &words, [ceil32(n as u32, 256), 1, 1])
}

/// Which of the norm's extras are there: a weight, a residual, a scale.
pub open spec fn norm_flags(w: bool, residual: bool, scale: bool) -> u32 {
    (if w {
        1u32
    } else {
        0
    } + if residual {
        2u32
    } else {
        0
    } + if scale {
        4u32
    } else {
        0
    }) as u32
}

/// One workgroup per row.
pub fn rms_norm(rows: usize, d: usize, eps: F32, w: bool, residual: bool, scale: bool) -> (r: Launch)
    ensures
        r@ == simple(
            Kernel::RmsNorm,
            seq![rows as u32, d as u32, eps.0, norm_flags(w, residual, scale)],
            (rows as u32, 1, 1),
        ),
{
    let mut flags: u32 = 0;
    if w {
        flags = flags + 1;
    }
    if residual {
        flags = flags + 2;
    }
    if scale {
        flags = flags + 4;
    }
    let words: [u32; 4] = [rows as u32, d as u32, eps.0, flags];
    proof {
        assert(words@ =~= seq![rows as u32, d as u32, eps.0, norm_flags(w, residual, scale)]);
    }
    launch(Kernel::RmsNorm, &words, [rows as u32, 1, 1])
}

/// How a weight is packed on the device.
#[derive(Clone, Copy, Debug)]
pub struct PackedShape {
    pub bits: u32,
    pub signed_i8: bool,
    pub group_size: usize,
    pub per_byte: usize,
}

impl PackedShape {
    /// Bits per value.
    pub open spec fn spec_width(self) -> u32 {
        if self.signed_i8 {
            8
        } else {
            self.bits
        }
    }

    pub open spec fn wf(self) -> bool {
        self.group_size > 0 && 1 <= self.spec_width() <= 8
    }

    fn width(self) -> (r: u32)
        ensures
            r == self.spec_width(),
    {
        if self.signed_i8 {
            8
        } else {
            self.bits
        }
    }
}

/// What looking up `t` rows of `d` numbers launches.
pub open spec fn embed_view(t: usize, d: usize, quant: Option<PackedShape>, scale: F32) -> LaunchView {
    let grid = (ceil((t * d) as u32 as int, 256) as u32, 1u32, 1u32);
    match quant {
        Some(q) => simple(
            Kernel::EmbedQ,
            seq![
                t as u32,
                d as u32,
                q.bits,
                q.per_byte as u32,
                q.group_size as u32,
                ceil(d as int, q.group_size as int) as u32,
                scale.0,
                0,
            ],
            grid,
        ),
        None => simple(Kernel::Embed, seq![t as u32, d as u32, scale.0, 0], grid),
    }
}

pub fn embed(t: usize, d: usize, quant: Option<PackedShape>, scale: F32) -> (r: Launch)
    requires
        t * d <= usize::MAX,
        quant matches Some(q) ==> q.wf(),
    ensures
        r@ == embed_view(t, d, quant, scale),
{
    let groups = ceil32((t * d) as u32, 256);
    match quant {
        Some(q) => {
            let stride: usize = ceil_size(d, q.group_size);
            let words: [u32; 8] = [
                t as u32,
                d as u32,
                q.bits,
                q.per_byte as u32,
                q.group_size as u32,
                stride as u32,
                scale.0,
                0,
            ];
            proof {
                assert(words@ =~= embed_view(t, d, quant, scale).uniform);
            }
            launch(Kernel::EmbedQ, &words, [groups, 1, 1])
        },
        None => {
            let words: [u32; 4] = [t as u32, d as u32, scale.0, 0];
            proof {
                assert(words@ =~= embed_view(t, d, quant, scale).uniform);
            }
            launch(Kernel::Embed, &words, [groups, 1, 1])
        },
    }
}

/// Rotation of heads, one number per lane of 256.
pub fn rope(t: usize, heads: usize, head_dim: usize, rotary_dim: usize, theta: F32) -> (r: Launch)
    requires
        t * heads * head_dim <= usize::MAX,
        t * heads <= usize::MAX,
    ensures
        r@ == simple(
            Kernel::Rope,
            seq![t as u32, heads as u32, head_dim as u32, rotary_dim as u32, theta.0, 0, 0, 0],
            (ceil((t * heads * head_dim) as u32 as int, 256) as u32, 1, 1),
        ),
{
    let words: [u32; 8] = [t as u32, heads as u32, head_dim as u32, rotary_dim as u32, theta.0, 0, 0, 0];
    proof {
        assert(words@ =~= seq![t as u32, heads as u32, head_dim as u32, rotary_dim as u32, theta.0, 0, 0, 0]);
    }
    launch(Kernel::Rope, &words, [ceil32((t * heads * head_dim) as u32, 256), 1, 1])
}

/// Heads normalized and rotated, one workgroup per head.
pub fn head_norm_rope(t: usize, heads: usize, head_dim: usize, rotary_dim: usize, theta: F32, eps: F32) -> (r: Launch)
    requires
        t * heads <= usize::MAX,
    ensures
        r@ == simple(
            Kernel::RmsNormRope,
            seq![t as u32, heads as u32, head_dim as u32, rotary_dim as u32, theta.0, eps.0, 0, 0],
            ((t * heads) as u32, 1, 1),
        ),
{
    let words: [u32; 8] = [t as u32, heads as u32, head_dim as u32, rotary_dim as u32, theta.0, eps.0, 0, 0];
    proof {
        assert(words@ =~= seq![t as u32, heads as u32, head_dim as u32, rotary_dim as u32, theta.0, eps.0, 0, 0]);
    }
    launch(Kernel::RmsNormRope, &words, [(t * heads) as u32, 1, 1])
}

pub fn slice_cols(rows: usize, stride: usize, offset: usize, width: usize) -> (r: Launch)
    requires
        rows * width <= usize::MAX,
    ensures
        r@ == simple(
            Kernel::SliceCols,
            seq![rows as u32, stride as u32, offset as u32, width as u32],
            (ceil((rows * width) as u32 as int, 256) as u32, 1, 1),
        ),
{
    let words: [u32; 4] = [rows as u32, stride as u32, offset as u32, width as u32];
    proof {
        assert(words@ =~= seq![rows as u32, stride as u32, offset as u32, width as u32]);
    }
    launch(Kernel::SliceCols, &words, [ceil32((rows * width) as u32, 256), 1, 1])
}

/// The most workgroups along one side of a grid.
pub const MAX_GRID: usize = 65535;

/// How numbers are copied.
#[derive(Debug)]
pub enum Copying {
    Nothing,
    /// By a launch, which keeps the compute pass open.
    Launch(Launch),
    /// By a plain buffer copy, offsets and length in bytes.
    Plain { src: u64, dst: u64, len: u64 },
}

/// Copy `n` numbers.
pub fn copy(src: usize, dst: usize, n: usize) -> (r: Copying)
    requires
        src <= usize::MAX / 4,
        dst <= usize::MAX / 4,
        n <= usize::MAX / 4,
    ensures
        match r {
            Copying::Nothing => n == 0,
            Copying::Plain { src: s, dst: d, len } => n > 0 && ceil(n as int, 256) > MAX_GRID && s == 4 * src && d == 4 * dst
                && len == 4 * n,
            Copying::Launch(l) => n > 0 && ceil(n as int, 256) <= MAX_GRID && l@ == simple(
                Kernel::Copy,
                seq![n as u32, src as u32, dst as u32, 0],
                (ceil(n as int, 256) as u32, 1, 1),
            ),
        },
{
    if n == 0 {
        return Copying::Nothing;
    }
    let groups: usize = ceil_size(n, 256);
    if groups > MAX_GRID {
        return Copying::Plain { src: (src * 4) as u64, dst: (dst * 4) as u64, len: (n * 4) as u64 };
    }
    let words: [u32; 4] = [n as u32, src as u32, dst as u32, 0];
    proof {
        assert(words@ =~= seq![n as u32, src as u32, dst as u32, 0]);
    }
    Copying::Launch(launch(Kernel::Copy, &words, [groups as u32, 1, 1]))
}

// --- products ------------------------------------------------------------------------------------

/// Rows that one workgroup of the packed kernel takes.
pub open spec fn rows_together(m: usize) -> usize {
    if m == 1 {
        1
    } else if m <= 4 {
        4
    } else {
        8
    }
}

pub fn mrows_for(m: usize) -> (r: usize)
    ensures
        r == rows_together(m),
{
    if m == 1 {
        1
    } else if m <= 4 {
        4
    } else {
        8
    }
}

/// Whether a packed weight can be read by whole words: words do not straddle
/// rows, there is one scale per row, and the grid is within limits.
pub open spec fn reads_words(q: PackedShape, k: usize, m: usize) -> bool {
    &&& k as int % (32u32 / q.spec_width()) as int == 0
    &&& q.group_size == k
    &&& ceil(m as int, rows_together(m) as int) <= MAX_GRID
}

pub fn quant_fast_path(q: PackedShape, k: usize, m: usize) -> (r: bool)
    requires
        q.wf(),
    ensures
        r == reads_words(q, k, m),
{
    let w = q.width();
    proof {
        assert(32u32 / w >= 1) by (nonlinear_arith)
            requires
                1 <= w <= 8,
        ;
    }
    let vals: usize = (32 / w) as usize;
    k % vals == 0 && q.group_size == k && ceil_size(m, mrows_for(m)) <= MAX_GRID
}

/// What is done with a packed product: nothing, gate it with a second product,
/// or gate it with columns of another tensor.
#[derive(Clone, Copy, Debug, PartialEq, Eq, Structural)]
pub enum Epilogue {
    Plain,
    Gate,
    GateColumns { offset: usize, stride: usize },
}

impl Epilogue {
    pub open spec fn spec_mode(self) -> u32 {
        match self {
            Epilogue::Plain => 0,
            Epilogue::Gate => 1,
            Epilogue::GateColumns { .. } => 2,
        }
    }

    pub open spec fn spec_columns(self) -> (usize, usize) {
        match self {
            Epilogue::GateColumns { offset, stride } => (offset, stride),
            _ => (0, 0),
        }
    }
}

/// Lanes per output row: narrow products get more, so that all of the device
/// has work.
pub open spec fn lanes_for(n: usize, fixed: Option<usize>) -> usize {
    match fixed {
        Some(l) => l,
        None => if n >= 2048 {
            16
        } else if n >= 512 {
            32
        } else {
            64
        },
    }
}

/// Lane counts that can be asked for.
pub open spec fn is_lane_count(l: usize) -> bool {
    l == 4 || l == 8 || l == 16 || l == 32 || l == 64
}

/// A lane count that was asked for, where it can be used.
pub fn usable_lanes(asked: Option<usize>) -> (r: Option<usize>)
    ensures
        r == match asked {
            Some(l) => if is_lane_count(l) {
                Some(l)
            } else {
                None
            },
            None => None,
        },
{
    match asked {
        Some(l) => if l == 4 || l == 8 || l == 16 || l == 32 || l == 64 {
            Some(l)
        } else {
            None
        },
        None => None,
    }
}

/// What a product of `[m, k]` with a packed `[n, k]` launches: tiles from 16
/// rows on, else rows together.
pub open spec fn packed_product(q: PackedShape, m: usize, k: usize, n: usize, e: Epilogue, fixed: Option<usize>) -> LaunchView {
    let bits = q.spec_width();
    let mode = e.spec_mode();
    let (offset, stride) = e.spec_columns();
    let uniform = seq![
        m as u32,
        k as u32,
        n as u32,
        (k / (32u32 / bits) as usize) as u32,
        offset as u32,
        stride as u32,
        0,
        0,
    ];
    if m >= 16 && k % 32 == 0 && ceil(n as int, 64) <= MAX_GRID && ceil(m as int, 64) <= MAX_GRID {
        LaunchView {
            kernel: Kernel::MatmulQTiled,
            variant: (bits + mode * 0x1_0000) as u32,
            constants: seq![(Constant::Bits, bits), (Constant::Mode, mode)],
            uniform,
            grid: (ceil(n as u32 as int, 64) as u32, ceil(m as u32 as int, 64) as u32, 1),
        }
    } else {
        let mrows = rows_together(m) as u32;
        let lanes = lanes_for(n, fixed) as u32;
        LaunchView {
            kernel: Kernel::MatmulQ,
            variant: (bits + mrows * 0x100 + mode * 0x1_0000 + lanes * 0x100_0000) as u32,
            constants: seq![
                (Constant::Bits, bits),
                (Constant::Mrows, mrows),
                (Constant::Mode, mode),
                (Constant::Lanes, lanes),
            ],
            uniform,
            grid: (ceil(n as u32 as int, (256u32 / lanes) as int) as u32, ceil(m as u32 as int, mrows as int) as u32, 1),
        }
    }
}

pub fn matmul_q(q: PackedShape, m: usize, k: usize, n: usize, e: Epilogue, fixed: Option<usize>) -> (r: Launch)
    requires
        q.wf(),
        fixed matches Some(l) ==> is_lane_count(l),
    ensures
        r@ == packed_product(q, m, k, n, e, fixed),
{
    let bits = q.width();
    proof {
        assert(32u32 / bits >= 1) by (nonlinear_arith)
            requires
                1 <= bits <= 8,
        ;
    }
    let vals: usize = (32 / bits) as usize;
    let (mode, offset, stride): (u32, usize, usize) = match e {
        Epilogue::Plain => (0, 0, 0),
        Epilogue::Gate => (1, 0, 0),
        Epilogue::GateColumns { offset, stride } => (2, offset, stride),
    };
    let mut uniform: Vec<u32> = Vec::new();
    uniform.push(m as u32);
    uniform.push(k as u32);
    uniform.push(n as u32);
    uniform.push((k / vals) as u32);
    uniform.push(offset as u32);
    uniform.push(stride as u32);
    uniform.push(0);
    uniform.push(0);
    let mut constants: Vec<(Constant, u32)> = Vec::new();
    constants.push((Constant::Bits, bits));
    if m >= 16 && k % 32 == 0 && ceil_size(n, 64) <= MAX_GRID && ceil_size(m, 64) <= MAX_GRID {
        constants.push((Constant::Mode, mode));
        let r = Launch {
            kernel: Kernel::MatmulQTiled,
            variant: bits + mode * 0x1_0000,
            constants,
            uniform,
            grid: [ceil32(n as u32, 64), ceil32(m as u32, 64), 1],
        };
        proof {
            assert(r@ =~= packed_product(q, m, k, n, e, fixed));
        }
        return r;
    }
    let mrows: u32 = mrows_for(m) as u32;
    let lanes: u32 = match fixed {
        Some(l) => l as u32,
        None => if n >= 2048 {
            16
        } else if n >= 512 {
            32
        } else {
            64
        },
    };
    proof {
        assert(lanes == 4 || lanes == 8 || lanes == 16 || lanes == 32 || lanes == 64);
        assert(256u32 / lanes >= 1) by (nonlinear_arith)
            requires
                4 <= lanes <= 64,
        ;
    }
    constants.push((Constant::Mrows, mrows));
    constants.push((Constant::Mode, mode));
    constants.push((Constant::Lanes, lanes));
    let r = Launch {
        kernel: Kernel::MatmulQ,
        variant: bits + mrows * 0x100 + mode * 0x1_0000 + lanes * 0x100_0000,
        constants,
        uniform,
        grid: [ceil32(n as u32, 256 / lanes), ceil32(m as u32, mrows), 1],
    };
    proof {
        assert(r@ =~= packed_product(q, m, k, n, e, fixed));
    }
    r
}

/// What a product of `[m, k]` with `[n, k]` launches: by whole words, byte by
/// byte, one workgroup per output of a single row, or by tiles.
pub open spec fn product_view(m: usize, k: usize, n: usize, quant: Option<PackedShape>, fixed: Option<usize>) -> LaunchView {
    match quant {
        Some(q) => if reads_words(q, k, m) {
            packed_product(q, m, k, n, Epilogue::Plain, fixed)
        } else {
            simple(
                Kernel::MatmulQScalar,
                seq![
                    m as u32,
                    k as u32,
                    n as u32,
                    q.bits,
                    q.per_byte as u32,
                    if q.signed_i8 {
                        1
                    } else {
                        0
                    },
                    0,
                    0,
                ],
                (ceil(n as u32 as int, 64) as u32, m as u32, 1),
            )
        },
        None => if m == 1 && n <= MAX_GRID {
            simple(Kernel::Gemv, seq![k as u32, n as u32, 0, 0], (n as u32, 1, 1))
        } else {
            simple(
                Kernel::Matmul,
                seq![m as u32, k as u32, n as u32, 0],
                (ceil(n as u32 as int, 16) as u32, ceil(m as u32 as int, 16) as u32, 1),
            )
        },
    }
}

pub fn linear(m: usize, k: usize, n: usize, quant: Option<PackedShape>, fixed: Option<usize>) -> (r: Launch)
    requires
        quant matches Some(q) ==> q.wf(),
        fixed matches Some(l) ==> is_lane_count(l),
    ensures
        r@ == product_view(m, k, n, quant, fixed),
{
    match quant {
        Some(q) => {
            if quant_fast_path(q, k, m) {
                return matmul_q(q, m, k, n, Epilogue::Plain, fixed);
            }
            let signed: u32 = if q.signed_i8 {
                1
            } else {
                0
            };
            let words: [u32; 8] = [m as u32, k as u32, n as u32, q.bits, q.per_byte as u32, signed, 0, 0];
            proof {
                assert(words@ =~= product_view(m, k, n, quant, fixed).uniform);
            }
            launch(Kernel::MatmulQScalar, &words, [ceil32(n as u32, 64), m as u32, 1])
        },
        None => {
            if m == 1 && n <= MAX_GRID {
                let words: [u32; 4] = [k as u32, n as u32, 0, 0];
                proof {
                    assert(words@ =~= product_view(m, k, n, quant, fixed).uniform);
                }
                return launch(Kernel::Gemv, &words, [n as u32, 1, 1]);
            }
            let words: [u32; 4] = [m as u32, k as u32, n as u32, 0];
            proof {
                assert(words@ =~= product_view(m, k, n, quant, fixed).uniform);
            }
            launch(Kernel::Matmul, &words, [ceil32(n as u32, 16), ceil32(m as u32, 16), 1])
        },
    }
}

/// Whether two packed weights can be multiplied and gated in one launch.
pub fn can_gate(gate: PackedShape, up: PackedShape, k: usize, m: usize) -> (r: bool)
    requires
        gate.wf(),
    ensures
        r == (gate.bits == up.bits && gate.signed_i8 == up.signed_i8 && gate.group_size == up.group_size && reads_words(
            gate,
            k,
            m,
        )),
{
    gate.bits == up.bits && gate.signed_i8 == up.signed_i8 && gate.group_size == up.group_size && quant_fast_path(gate, k, m)
}

// --- attention -----------------------------------------------------------------------------------

/// Keys that a split is a multiple of.
pub const ATTN_TILE: usize = 64;

/// The most splits.
pub const ATTN_MAX_SPLITS: usize = 16;

/// Whether one workgroup can serve all query heads of a key head.
pub open spec fn is_grouped(hq: usize, hkv: usize, dh: usize) -> bool {
    let group = hq as int / hkv as int;
    &&& hkv > 0
    &&& hq as int % hkv as int == 0
    &&& group <= 8
    &&& dh % 4 == 0
    &&& (group * dh) % 256 == 0
    &&& (group * dh) / 256 <= 16
}

/// How many keys from the `i`-th on stand at `x` or before, up to the first
/// that does not.
pub open spec fn leading(k_pos: Seq<u32>, x: u32, i: int) -> int
    decreases k_pos.len() - i,
{
    if i < 0 || i >= k_pos.len() || k_pos[i] > x {
        0
    } else {
        1 + leading(k_pos, x, i + 1)
    }
}

/// The smallest of some positions; 0 of none.
pub open spec fn oldest(p: Seq<u32>) -> u32
    decreases p.len(),
{
    if p.len() == 0 {
        0
    } else if p.len() == 1 {
        p[0]
    } else {
        let m = oldest(p.drop_last());
        if p.last() < m {
            p.last()
        } else {
            m
        }
    }
}

/// The largest of some positions; 0 of none.
pub open spec fn newest(p: Seq<u32>) -> u32
    decreases p.len(),
{
    if p.len() == 0 {
        0
    } else {
        let m = newest(p.drop_last());
        if p.last() > m {
            p.last()
        } else {
            m
        }
    }
}

pub open spec fn smaller(a: int, b: int) -> int {
    if a < b {
        a
    } else {
        b
    }
}

/// Where the keys end that any query can see.
pub open spec fn keys_end(o: Attention, s: int) -> int {
    smaller(leading(o.k_pos, newest(o.q_pos), 0), s)
}

/// Where the keys start that any query can see: with a window, after those
/// that have left it for the oldest query.
pub open spec fn keys_start(o: Attention, s: int) -> int {
    let q = oldest(o.q_pos);
    if o.sliding_window > 0 && q >= o.sliding_window {
        smaller(leading(o.k_pos, (q - o.sliding_window) as u32, 0), keys_end(o, s))
    } else {
        0
    }
}

/// Keys per split: whole tiles, for no more than the most splits.
pub open spec fn keys_per_split(n: int) -> int {
    let tiles = ceil(n, ATTN_TILE as int);
    let splits = if tiles < 1 {
        1
    } else {
        smaller(tiles, ATTN_MAX_SPLITS as int)
    };
    let t = ceil(ceil(n, splits), ATTN_TILE as int);
    (if t < 1 {
        1
    } else {
        t
    }) * ATTN_TILE
}

/// How many splits that makes.
pub open spec fn split_count(n: int) -> int {
    if n == 0 {
        1
    } else {
        ceil(n, keys_per_split(n))
    }
}

/// What attention launches.
#[derive(Debug)]
pub enum AttentionPlan {
    /// One workgroup per query and head.
    Whole(Launch),
    /// One workgroup per query, key head and split. With more than one split
    /// there are partial results to combine, this many numbers.
    Split { split: Launch, partials: usize, combine: Option<Launch> },
}

pub open spec fn whole_view(t: usize, s: usize, hq: usize, hkv: usize, dh: usize, o: Attention) -> LaunchView {
    simple(
        Kernel::Attention,
        seq![
            t as u32,
            s as u32,
            hq as u32,
            hkv as u32,
            dh as u32,
            o.sliding_window,
            0,
            0,
            o.scale.0,
            o.attn_softcap.0,
            0,
            0,
        ],
        (t as u32, hq as u32, 1),
    )
}

pub open spec fn split_view(t: usize, s: usize, hq: usize, hkv: usize, dh: usize, o: Attention) -> LaunchView {
    let (start, end) = (keys_start(o, s as int), keys_end(o, s as int));
    let dpt = ((hq as int / hkv as int * dh) / 256) as u32;
    let splits = split_count(end - start) as u32;
    LaunchView {
        kernel: Kernel::AttnSplit,
        variant: dpt,
        constants: seq![(Constant::Dpt, dpt)],
        uniform: seq![
            t as u32,
            s as u32,
            hq as u32,
            hkv as u32,
            dh as u32,
            o.sliding_window,
            start as u32,
            end as u32,
            splits,
            keys_per_split(end - start) as u32,
            0,
            0,
            o.scale.0,
            o.attn_softcap.0,
            0,
            0,
        ],
        grid: (t as u32, hkv as u32, splits),
    }
}

pub open spec fn combine_view(t: usize, hq: usize, dh: usize, splits: int) -> LaunchView {
    simple(
        Kernel::AttnCombine,
        seq![t as u32, hq as u32, splits as u32, dh as u32],
        (ceil((t * hq * dh) as u32 as int, 256) as u32, 1, 1),
    )
}

fn oldest_of(p: &[u32]) -> (r: u32)
    ensures
        r == oldest(p@),
{
    let len: usize = p.len();
    if len == 0 {
        return 0;
    }
    let mut m: u32 = p[0];
    let mut i: usize = 1;
    proof {
        assert(p@.take(1)[0] == p@[0]);
    }
    while i < len
        invariant
            len == p@.len(),
            1 <= i <= len,
            m == oldest(p@.take(i as int)),
        decreases len - i,
    {
        proof {
            assert(p@.take(i + 1).drop_last() =~= p@.take(i as int));
            assert(p@.take(i + 1).last() == p@[i as int]);
        }
        if p[i] < m {
            m = p[i];
        }
        i = i + 1;
    }
    proof {
        assert(p@.take(len as int) =~= p@);
    }
    m
}

fn newest_of(p: &[u32]) -> (r: u32)
    ensures
        r == newest(p@),
{
    let len: usize = p.len();
    let mut m: u32 = 0;
    let mut i: usize = 0;
    proof {
        assert(p@.take(0) =~= Seq::empty());
    }
    while i < len
        invariant
            len == p@.len(),
            i <= len,
            m == newest(p@.take(i as int)),
        decreases len - i,
    {
        proof {
            assert(p@.take(i + 1).drop_last() =~= p@.take(i as int));
            assert(p@.take(i + 1).last() == p@[i as int]);
        }
        if p[i] > m {
            m = p[i];
        }
        i = i + 1;
    }
    proof {
        assert(p@.take(len as int) =~= p@);
    }
    m
}

fn leading_of(k_pos: &[u32], x: u32) -> (r: usize)
    ensures
        r == leading(k_pos@, x, 0),
        r <= k_pos@.len(),
{
    let len: usize = k_pos.len();
    let mut i: usize = 0;
    while i < len && k_pos[i] <= x
        invariant
            len == k_pos@.len(),
            i <= len,
            leading(k_pos@, x, 0) == i + leading(k_pos@, x, i as int),
        decreases len - i,
    {
        i = i + 1;
    }
    i
}

/// Rounding up is between a quotient and the next.
pub(crate) proof fn lemma_ceil(a: int, b: int)
    requires
        0 <= a,
        0 < b,
    ensures
        a <= ceil(a, b) * b < a + b,
        0 <= ceil(a, b) <= a,
        a > 0 ==> ceil(a, b) >= 1,
{
    lemma_fundamental_div_mod(a, b);
    lemma_mod_bound(a, b);
    lemma_div_pos_is_pos(a, b);
    let (q, r) = (a / b, a % b);
    assert(q * b + b == (q + 1) * b && q <= a && (r > 0 ==> q + 1 <= a)) by (nonlinear_arith)
        requires
            a == b * q + r,
            0 <= r < b,
            0 <= q,
            b >= 1,
    ;
    lemma_mul_is_commutative(b, q);
    if a > 0 && r == 0 {
        assert(q >= 1) by (nonlinear_arith)
            requires
                a == b * q,
                a > 0,
                b > 0,
        ;
    }
}

/// Splits are whole tiles, no more than the most, and cover the keys without a
/// split to spare.
pub proof fn splits_cover_the_keys(n: int)
    requires
        0 <= n,
    ensures
        keys_per_split(n) % ATTN_TILE as int == 0,
        keys_per_split(n) >= ATTN_TILE,
        keys_per_split(n) <= n + 2 * ATTN_TILE,
        1 <= split_count(n) <= ATTN_MAX_SPLITS,
        n <= split_count(n) * keys_per_split(n),
        (split_count(n) - 1) * keys_per_split(n) < n || n == 0,
{
    let tile = ATTN_TILE as int;
    let tiles = ceil(n, tile);
    lemma_ceil(n, tile);
    let s = if tiles < 1 {
        1
    } else {
        smaller(tiles, ATTN_MAX_SPLITS as int)
    };
    let each = ceil(n, s);
    lemma_ceil(n, s);
    let t = ceil(each, tile);
    lemma_ceil(each, tile);
    let k = keys_per_split(n);
    let u = if t < 1 {
        1
    } else {
        t
    };
    assert(k == u * tile);
    lemma_mod_multiples_basic(u, tile);
    lemma_ceil(n, k);
    if n > 0 {
        let c = split_count(n);
        assert(c <= s) by (nonlinear_arith)
            requires
                c * k < n + k,
                n <= each * s,
                each <= k,
                s >= 1,
                k >= 1,
        ;
        assert((c - 1) * k == c * k - k) by (nonlinear_arith);
    }
}

/// Where the keys start and end that any query can see.
fn seen_range(s: usize, o: &AttnOpts<'_>) -> (r: (usize, usize))
    ensures
        r.0 == keys_start(o@, s as int),
        r.1 == keys_end(o@, s as int),
        r.0 <= r.1 <= s,
{
    let q_min = oldest_of(o.q_pos);
    let q_max = newest_of(o.q_pos);
    let seen: usize = leading_of(o.k_pos, q_max);
    let end: usize = if seen < s {
        seen
    } else {
        s
    };
    let start: usize = if o.sliding_window > 0 && q_min >= o.sliding_window {
        let gone: usize = leading_of(o.k_pos, q_min - o.sliding_window);
        if gone < end {
            gone
        } else {
            end
        }
    } else {
        0
    };
    (start, end)
}

/// Keys per split, and how many splits that makes.
fn splits_of(n: usize) -> (r: (usize, usize))
    requires
        n + 2 * ATTN_TILE <= usize::MAX,
    ensures
        r.0 == keys_per_split(n as int),
        r.1 == split_count(n as int),
{
    proof {
        splits_cover_the_keys(n as int);
        lemma_ceil(n as int, ATTN_TILE as int);
    }
    let tiles: usize = ceil_size(n, ATTN_TILE);
    let wanted: usize = if tiles < 1 {
        1
    } else if tiles < ATTN_MAX_SPLITS {
        tiles
    } else {
        ATTN_MAX_SPLITS
    };
    let each: usize = ceil_size(n, wanted);
    proof {
        lemma_ceil(n as int, wanted as int);
        lemma_ceil(each as int, ATTN_TILE as int);
    }
    let tiles_each: usize = ceil_size(each, ATTN_TILE);
    let per: usize = (if tiles_each < 1 {
        1
    } else {
        tiles_each
    }) * ATTN_TILE;
    proof {
        assert(per == keys_per_split(n as int));
    }
    let splits: usize = if n == 0 {
        1
    } else {
        ceil_size(n, per)
    };
    (per, splits)
}

/// The launch over splits of a range of keys.
fn split_launch(
    t: usize,
    s: usize,
    hq: usize,
    hkv: usize,
    dh: usize,
    o: &AttnOpts<'_>,
    range: (usize, usize),
    cut: (usize, usize),
    dpt: u32,
) -> (r: Launch)
    ensures
        r@ == (LaunchView {
            kernel: Kernel::AttnSplit,
            variant: dpt,
            constants: seq![(Constant::Dpt, dpt)],
            uniform: seq![
                t as u32,
                s as u32,
                hq as u32,
                hkv as u32,
                dh as u32,
                o@.sliding_window,
                range.0 as u32,
                range.1 as u32,
                cut.1 as u32,
                cut.0 as u32,
                0,
                0,
                o@.scale.0,
                o@.attn_softcap.0,
                0,
                0,
            ],
            grid: (t as u32, hkv as u32, cut.1 as u32),
        }),
{
    let (start, end) = range;
    let (per, splits) = cut;
    let mut uniform: Vec<u32> = Vec::new();
    uniform.push(t as u32);
    uniform.push(s as u32);
    uniform.push(hq as u32);
    uniform.push(hkv as u32);
    uniform.push(dh as u32);
    uniform.push(o.sliding_window);
    uniform.push(start as u32);
    uniform.push(end as u32);
    uniform.push(splits as u32);
    uniform.push(per as u32);
    uniform.push(0);
    uniform.push(0);
    uniform.push(o.scale.0);
    uniform.push(o.attn_softcap.0);
    uniform.push(0);
    uniform.push(0);
    let mut constants: Vec<(Constant, u32)> = Vec::new();
    constants.push((Constant::Dpt, dpt));
    let r = Launch {
        kernel: Kernel::AttnSplit,
        variant: dpt,
        constants,
        uniform,
        grid: [t as u32, hkv as u32, splits as u32],
    };
    proof {
        assert(r@.constants =~= seq![(Constant::Dpt, dpt)]);
    }
    r
}

/// Grouped heads are served together, over splits of the keys that are seen;
/// other shapes by one workgroup per query and head.
#[verifier::rlimit(40)]
pub fn attention(t: usize, s: usize, hq: usize, hkv: usize, dh: usize, o: &AttnOpts<'_>) -> (r: AttentionPlan)
    requires
        hkv > 0,
        hq * dh <= usize::MAX,
        t * hq * dh <= usize::MAX,
        t * hq <= usize::MAX,
        t * hq * ATTN_MAX_SPLITS * (dh + 2) <= usize::MAX,
        s + 2 * ATTN_TILE <= usize::MAX,
    ensures
        match r {
            AttentionPlan::Whole(l) => (t == 0 || !is_grouped(hq, hkv, dh)) && l@ == whole_view(t, s, hq, hkv, dh, o@),
            AttentionPlan::Split { split, partials, combine } => {
                let splits = split_count(keys_end(o@, s as int) - keys_start(o@, s as int));
                &&& t > 0 && is_grouped(hq, hkv, dh)
                &&& split@ == split_view(t, s, hq, hkv, dh, o@)
                &&& match combine {
                    Some(l) => splits > 1 && l@ == combine_view(t, hq, dh, splits) && partials == t * hq * splits * (dh
                        + 2),
                    None => splits == 1 && partials == 0,
                }
            },
        },
{
    let group: usize = hq / hkv;
    proof {
        lemma_fundamental_div_mod(hq as int, hkv as int);
        let g = hq as int / hkv as int;
        assert(g * dh <= hq * dh && g * dh >= 0) by (nonlinear_arith)
            requires
                hq == hkv * g + hq as int % hkv as int,
                hq as int % hkv as int >= 0,
                hkv >= 1,
                g >= 0,
                dh >= 0,
        ;
    }
    let grouped = hq % hkv == 0 && group <= 8 && dh % 4 == 0 && (group * dh) % 256 == 0 && (group * dh) / 256 <= 16;
    if !grouped || t == 0 {
        let words: [u32; 12] = [
            t as u32,
            s as u32,
            hq as u32,
            hkv as u32,
            dh as u32,
            o.sliding_window,
            0,
            0,
            o.scale.0,
            o.attn_softcap.0,
            0,
            0,
        ];
        proof {
            assert(words@ =~= whole_view(t, s, hq, hkv, dh, o@).uniform);
        }
        return AttentionPlan::Whole(launch(Kernel::Attention, &words, [t as u32, hq as u32, 1]));
    }
    let (start, end) = seen_range(s, o);
    let n: usize = end - start;
    let (per, splits) = splits_of(n);
    let dpt: u32 = ((group * dh) / 256) as u32;
    let split = split_launch(t, s, hq, hkv, dh, o, (start, end), (per, splits), dpt);
    proof {
        splits_cover_the_keys(n as int);
        assert(split@ =~= split_view(t, s, hq, hkv, dh, o@));
    }
    if splits > 1 {
        proof {
            lemma_partials(t as int, hq as int, splits as int, dh as int);
        }
        let partials: usize = t * hq * splits * (dh + 2);
        let words: [u32; 4] = [t as u32, hq as u32, splits as u32, dh as u32];
        proof {
            assert(words@ =~= combine_view(t, hq, dh, splits as int).uniform);
        }
        let combine = launch(Kernel::AttnCombine, &words, [ceil32((t * hq * dh) as u32, 256), 1, 1]);
        AttentionPlan::Split { split, partials, combine: Some(combine) }
    } else {
        AttentionPlan::Split { split, partials: 0, combine: None }
    }
}

proof fn lemma_partials(t: int, hq: int, splits: int, dh: int)
    requires
        0 <= t,
        0 <= hq,
        0 <= dh,
        1 <= splits <= ATTN_MAX_SPLITS,
    ensures
        t * hq * splits <= t * hq * ATTN_MAX_SPLITS * (dh + 2),
        t * hq * splits * (dh + 2) <= t * hq * ATTN_MAX_SPLITS * (dh + 2),
        dh + 2 <= usize::MAX || t * hq == 0 || t * hq * ATTN_MAX_SPLITS * (dh + 2) > usize::MAX,
{
    let (a, m) = (t * hq, ATTN_MAX_SPLITS as int);
    assert(a >= 0) by (nonlinear_arith)
        requires
            a == t * hq,
            t >= 0,
            hq >= 0,
    ;
    assert(0 <= a * splits <= a * m) by (nonlinear_arith)
        requires
            a >= 0,
            1 <= splits <= m,
    ;
    let (x, y) = (a * splits, a * m);
    assert(x <= y * (dh + 2) && x * (dh + 2) <= y * (dh + 2) && (a > 0 ==> dh + 2 <= y * (dh + 2))) by (nonlinear_arith)
        requires
            0 <= x <= y,
            dh >= 0,
            y == a * m,
            m == 16,
            a >= 0,
    ;
}

/// Positions in order.
pub open spec fn is_ascending(p: Seq<u32>) -> bool {
    forall|i: int, j: int| 0 <= i < j < p.len() ==> #[trigger] p[i] <= #[trigger] p[j]
}

/// Keys in order: those outside the range are seen by no query.
pub proof fn seen_keys_are_in_range(o: Attention, i: int, j: int)
    requires
        is_ascending(o.k_pos),
        0 <= i < o.q_pos.len(),
        0 <= j < o.k_pos.len(),
        crate::backend_cpu::sees(o, o.q_pos[i], o.k_pos[j]),
    ensures
        keys_start(o, o.k_pos.len() as int) <= j < keys_end(o, o.k_pos.len() as int),
{
    let s = o.k_pos.len() as int;
    lemma_between(o.q_pos, i);
    lemma_leading(o.k_pos, newest(o.q_pos), 0, j);
    let q = oldest(o.q_pos);
    if o.sliding_window > 0 && q >= o.sliding_window {
        lemma_leading(o.k_pos, (q - o.sliding_window) as u32, 0, j);
    }
}

proof fn lemma_between(p: Seq<u32>, i: int)
    requires
        0 <= i < p.len(),
    ensures
        oldest(p) <= p[i] <= newest(p),
    decreases p.len(),
{
    if p.len() > 1 {
        if i < p.len() - 1 {
            lemma_between(p.drop_last(), i);
        } else {
            lemma_between(p.drop_last(), 0);
        }
    }
}

/// Leading keys are those at `x` or before.
proof fn lemma_leading(k: Seq<u32>, x: u32, from: int, j: int)
    requires
        is_ascending(k),
        0 <= from <= j < k.len(),
    ensures
        0 <= leading(k, x, from) <= k.len() - from,
        j < from + leading(k, x, from) <==> k[j] <= x,
    decreases k.len() - from,
{
    if k[from] <= x {
        if from < j {
            lemma_leading(k, x, from + 1, j);
        } else if from + 1 < k.len() {
            lemma_leading(k, x, from + 1, from + 1);
        } else {
            assert(leading(k, x, from + 1) == 0);
        }
    } else {
        assert(k[from] <= k[j]);
    }
}

// --- buffers -------------------------------------------------------------------------------------

/// Bytes of a buffer for `n` bytes: at least 16, in whole words.
pub fn buffer_bytes(n: u64) -> (r: u64)
    requires
        n <= u64::MAX - 3,
    ensures
        r % 4 == 0,
        r >= n,
        r >= 16,
        r < n + 4 || r == 16,
{
    let m: u64 = if n < 16 {
        16
    } else {
        n
    };
    if m % 4 == 0 {
        m
    } else {
        m + (4 - m % 4)
    }
}

/// Sizes that activations come in: 256 bytes and its doubles.
pub open spec fn is_bucket(size: int) -> bool
    decreases size,
{
    size == 256 || (size > 256 && size % 2 == 0 && is_bucket(size / 2))
}

/// Bytes of an activation of `n` numbers: the smallest bucket that holds them.
pub fn activation_bytes(n: u64) -> (r: u64)
    requires
        n <= 0x1000_0000_0000_0000,
    ensures
        is_bucket(r as int),
        r >= 4 * n,
        r == 256 || r < 8 * n,
{
    let want: u64 = if n * 4 < 16 {
        16
    } else {
        n * 4
    };
    let mut size: u64 = 256;
    while size < want
        invariant
            want <= 0x4000_0000_0000_0000,
            256 <= size,
            size == 256 || size < 2 * want,
            is_bucket(size as int),
        decreases 2 * want - size,
    {
        proof {
            assert((size * 2) / 2 == size);
        }
        size = size * 2;
    }
    size
}

/// How keys or values are appended to a growing buffer of rows.
#[derive(Clone, Copy, Debug, PartialEq, Eq, Structural)]
pub enum Growth {
    /// A new buffer of this many rows.
    Fresh { cap: usize },
    /// There is room.
    InPlace,
    /// A larger buffer of this many rows takes over.
    Grown { cap: usize },
}

/// Rows that a buffer starts with.
pub const KV_MIN_ROWS: usize = 256;

/// Append `rows` rows; `existing` is how many there are, in a buffer of how
/// many.
pub fn kv_growth(existing: Option<(usize, usize)>, rows: usize) -> (r: Growth)
    requires
        existing matches Some((len, cap)) ==> len + rows <= usize::MAX && cap <= usize::MAX / 2,
    ensures
        match existing {
            None => r == (Growth::Fresh {
                cap: if rows > KV_MIN_ROWS {
                    rows
                } else {
                    KV_MIN_ROWS
                },
            }),
            Some((len, cap)) => if len + rows <= cap {
                r == Growth::InPlace
            } else {
                r == (Growth::Grown {
                    cap: if 2 * cap > len + rows {
                        (2 * cap) as usize
                    } else {
                        (len + rows) as usize
                    },
                })
            },
        },
{
    match existing {
        None => {
            let cap: usize = if rows > KV_MIN_ROWS {
                rows
            } else {
                KV_MIN_ROWS
            };
            Growth::Fresh { cap }
        },
        Some((len, cap)) => {
            if len + rows <= cap {
                Growth::InPlace
            } else {
                let double: usize = cap * 2;
                let need: usize = len + rows;
                Growth::Grown {
                    cap: if double > need {
                        double
                    } else {
                        need
                    },
                }
            }
        },
    }
}

} // verus!
