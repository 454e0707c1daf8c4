//! Synthetic weights and inputs at a model's real shapes, for benchmarks.
use vstd::prelude::*;
use vstd::string::*;

use crate::backend::QuantWeight;
use crate::config::Gemma4Config;
use crate::dequant::div_ceil;
use crate::float::{F32, ONE_F32};
use crate::frame::byte_of_word;
use crate::safetensors::FloatTensor;
use crate::weights::{layer_name_prefix, layer_weight_name, LoadedWeight};

verus! {

// --- random numbers ------------------------------------------------------------------------------

/// A small generator for numbers whose quality does not matter.
#[derive(Clone, Debug)]
pub struct Xorshift(pub u32);

/// One step.
pub open spec fn stepped(s: u32) -> u32 {
    let a = s ^ (s << 13);
    let b = a ^ (a >> 17);
    b ^ (b << 5)
}

/// `n` steps.
pub open spec fn stepped_by(s: u32, n: nat) -> u32
    decreases n,
{
    if n == 0 {
        s
    } else {
        stepped(stepped_by(s, (n - 1) as nat))
    }
}

/// A state as a fraction of the largest.
pub open spec fn fraction(s: u32) -> F32 {
    F32::spec_of_int(s as int).spec_over(F32::spec_of_int(u32::MAX as int))
}

/// A number around `base`, no further from it than `sc`.
pub open spec fn around(s: u32, sc: F32, base: F32) -> F32 {
    base.spec_plus(
        fraction(s).spec_times(F32(crate::backend_cpu::TWO)).spec_minus(F32(ONE_F32)).spec_times(sc),
    )
}

/// Single-precision 0.004.
pub const SCALE_BASE: u32 = 0x3b83_126f;

/// Single-precision 0.008.
pub const SCALE_SPAN: u32 = 0x3c03_126f;

/// A scale between 0.004 and 0.012.
pub open spec fn scale_at(s: u32) -> F32 {
    F32(SCALE_BASE).spec_plus(fraction(s).spec_times(F32(SCALE_SPAN)))
}

/// `n` random bytes, four of each step.
pub open spec fn random_bytes(s: u32, n: nat) -> Seq<u8> {
    Seq::new(n, |k: int| crate::safetensors::le_bytes(stepped_by(s, (k / 4 + 1) as nat) as nat, 4)[k % 4])
}

/// `n` numbers around `base`.
pub open spec fn random_numbers(s: u32, n: nat, sc: F32, base: F32) -> Seq<F32> {
    Seq::new(n, |k: int| around(stepped_by(s, (k + 1) as nat), sc, base))
}

/// `n` scales.
pub open spec fn random_scales(s: u32, n: nat) -> Seq<F32> {
    Seq::new(n, |k: int| scale_at(stepped_by(s, (k + 1) as nat)))
}

impl Xorshift {
    pub fn next(&mut self) -> (r: u32)
        ensures
            r == stepped(old(self).0),
            final(self).0 == r,
    {
        let a: u32 = self.0 ^ (self.0 << 13);
        let b: u32 = a ^ (a >> 17);
        self.0 = b ^ (b << 5);
        self.0
    }

    /// Uniform in [0, 1].
    pub fn f(&mut self) -> (r: F32)
        ensures
            final(self).0 == stepped(old(self).0),
            r == fraction(stepped(old(self).0)),
    {
        F32::from_u64(self.next() as u64).over(F32::from_u64(u32::MAX as u64))
    }

    pub fn bytes(&mut self, n: usize) -> (r: Vec<u8>)
        ensures
            r@ == random_bytes(old(self).0, n as nat),
            final(self).0 == stepped_by(old(self).0, crate::dispatch::ceil(n as int, 4) as nat),
    {
        let ghost s = self.0;
        let ghost want = random_bytes(s, n as nat);
        let mut out: Vec<u8> = Vec::new();
        let mut k: usize = 0;
        while k < n
            invariant
                k <= n,
                want == random_bytes(s, n as nat),
                out@ == want.take(k as int),
                self.0 == stepped_by(s, crate::dispatch::ceil(k as int, 4) as nat),
            decreases n - k,
        {
            let i: usize = k % 4;
            if i == 0 {
                let _w = self.next();
            }
            proof {
                assert(crate::dispatch::ceil(k + 1, 4) == k / 4 + 1);
                assert(i == 0 ==> crate::dispatch::ceil(k as int, 4) == k / 4);
                assert(i > 0 ==> crate::dispatch::ceil(k as int, 4) == k / 4 + 1);
            }
            out.push(byte_of_word(self.0, i));
            k = k + 1;
            proof {
                assert(out@ =~= want.take(k as int));
            }
        }
        proof {
            assert(want.take(n as int) =~= want);
        }
        out
    }

    pub fn f32s(&mut self, n: usize, sc: F32, base: F32) -> (r: Vec<F32>)
        ensures
            r@ == random_numbers(old(self).0, n as nat, sc, base),
            final(self).0 == stepped_by(old(self).0, n as nat),
    {
        let ghost s = self.0;
        let ghost want = random_numbers(s, n as nat, sc, base);
        let mut out: Vec<F32> = Vec::new();
        let mut k: usize = 0;
        while k < n
            invariant
                k <= n,
                want == random_numbers(s, n as nat, sc, base),
                out@ == want.take(k as int),
                self.0 == stepped_by(s, k as nat),
            decreases n - k,
        {
            let f = self.f();
            out.push(base.plus(f.times(F32(crate::backend_cpu::TWO)).minus(F32(ONE_F32)).times(sc)));
            k = k + 1;
            proof {
                assert(out@ =~= want.take(k as int));
            }
        }
        proof {
            assert(want.take(n as int) =~= want);
        }
        out
    }

    pub fn scales(&mut self, n: usize) -> (r: Vec<F32>)
        ensures
            r@ == random_scales(old(self).0, n as nat),
            final(self).0 == stepped_by(old(self).0, n as nat),
    {
        let ghost s = self.0;
        let ghost want = random_scales(s, n as nat);
        let mut out: Vec<F32> = Vec::new();
        let mut k: usize = 0;
        while k < n
            invariant
                k <= n,
                want == random_scales(s, n as nat),
                out@ == want.take(k as int),
                self.0 == stepped_by(s, k as nat),
            decreases n - k,
        {
            let f = self.f();
            out.push(F32(SCALE_BASE).plus(f.times(F32(SCALE_SPAN))));
            k = k + 1;
            proof {
                assert(out@ =~= want.take(k as int));
            }
        }
        proof {
            assert(want.take(n as int) =~= want);
        }
        out
    }
}

// --- weights -------------------------------------------------------------------------------------

/// How a synthetic weight is made.
#[derive(Debug)]
pub enum Made {
    Packed { rows: usize, cols: usize, bits: u32, signed: bool, group: Option<usize> },
    Plain { shape: Vec<usize>, sc: F32, base: F32 },
}

/// The same as mathematics.
pub enum MadeView {
    Packed { rows: usize, cols: usize, bits: u32, signed: bool, group: Option<usize> },
    Plain { shape: Seq<usize>, sc: F32, base: F32 },
}

impl View for Made {
    type V = MadeView;

    open spec fn view(&self) -> MadeView {
        match *self {
            Made::Packed { rows, cols, bits, signed, group } => MadeView::Packed { rows, cols, bits, signed, group },
            Made::Plain { shape, sc, base } => MadeView::Plain { shape: shape@, sc, base },
        }
    }
}

/// Single-precision 0.05.
pub const NORM_SPREAD: u32 = 0x3d4c_cccd;

/// Single-precision 0.02.
pub const PROJECTION_SPREAD: u32 = 0x3ca3_d70a;

/// A norm: numbers around one.
pub open spec fn norm(n: usize) -> MadeView {
    MadeView::Plain { shape: seq![n], sc: F32(NORM_SPREAD), base: F32(ONE_F32) }
}

/// A packed weight with one scale per row.
pub open spec fn packed(rows: int, cols: int, bits: u32, signed: bool) -> MadeView {
    MadeView::Packed { rows: rows as usize, cols: cols as usize, bits, signed, group: None }
}

/// Columns of a layer's feed-forward block: twice as many where it is packed
/// in two bits.
pub open spec fn inner_width(c: Gemma4Config, i: int) -> int {
    if mlp_bits(c, i) == 2 {
        2 * c.intermediate_size
    } else {
        c.intermediate_size as int
    }
}

/// Bit width of a layer's feed-forward block.
pub open spec fn mlp_bits(c: Gemma4Config, i: int) -> u32 {
    crate::config::bits_by(
        crate::config::rule_texts(c.quant_rules@),
        crate::weights::layer_prefix(i as nat) + ".mlp.gate_proj"@,
    )
}

/// The weights of one layer.
pub open spec fn layer_table(c: Gemma4Config, i: int) -> Seq<(Seq<char>, MadeView)> {
    let (h, dple) = (c.hidden_size as int, c.hidden_size_per_layer_input as int);
    let dh = c.spec_head_dim(i);
    let q = c.num_attention_heads * dh;
    let kv = c.num_key_value_heads * dh;
    let bits = mlp_bits(c, i);
    let inner = inner_width(c, i);
    let name = |p: Seq<char>| crate::weights::layer_weight(i as nat, p);
    seq![
        (name("self_attn.q_norm.weight"@), norm(dh)),
        (name("self_attn.k_norm.weight"@), norm(dh)),
        (name("post_per_layer_input_norm.weight"@), norm(c.hidden_size)),
        (name("input_layernorm.weight"@), norm(c.hidden_size)),
        (name("post_attention_layernorm.weight"@), norm(c.hidden_size)),
        (name("pre_feedforward_layernorm.weight"@), norm(c.hidden_size)),
        (name("post_feedforward_layernorm.weight"@), norm(c.hidden_size)),
        (name("self_attn.q_proj.weight"@), packed(q, h, 4, false)),
        (name("self_attn.k_proj.weight"@), packed(kv, h, 4, false)),
        (name("self_attn.v_proj.weight"@), packed(kv, h, 4, false)),
        (name("self_attn.o_proj.weight"@), packed(h, q, 4, false)),
        (name("mlp.gate_proj.weight"@), packed(inner, h, bits, false)),
        (name("mlp.up_proj.weight"@), packed(inner, h, bits, false)),
        (name("mlp.down_proj.weight"@), packed(h, inner, bits, false)),
        (name("per_layer_input_gate.weight"@), packed(dple, h, 8, true)),
        (name("per_layer_projection.weight"@), packed(h, dple, 8, true)),
        (name("layer_scalar"@), norm(1)),
    ]
}

/// The weights of the first `n` layers.
pub open spec fn layer_tables(c: Gemma4Config, n: nat) -> Seq<(Seq<char>, MadeView)>
    decreases n,
{
    if n == 0 {
        Seq::empty()
    } else {
        layer_tables(c, (n - 1) as nat) + layer_table(c, n - 1)
    }
}

/// All weights of a model.
pub open spec fn table(c: Gemma4Config) -> Seq<(Seq<char>, MadeView)> {
    let (v, h, dple) = (c.vocab_size, c.hidden_size, c.hidden_size_per_layer_input);
    let all = (c.num_hidden_layers * dple) as usize;
    seq![
        ("language_model.per_layer_projection_norm.weight"@, norm(dple)),
        ("language_model.norm.weight"@, norm(h)),
        ("language_model.embed_tokens.weight"@, packed(v as int, h as int, 2, false)),
        (
            "language_model.embed_tokens_per_layer.weight"@,
            MadeView::Packed { rows: v, cols: all, bits: 4, signed: false, group: Some(dple) },
        ),
        (
            "language_model.per_layer_model_projection.weight"@,
            MadeView::Plain { shape: seq![all, h], sc: F32(PROJECTION_SPREAD), base: F32(0) },
        ),
        ("lm_head.weight"@, packed(v as int, h as int, 2, false)),
    ] + layer_tables(c, c.num_hidden_layers as nat)
}

/// Sizes of a configuration can be multiplied.
pub open spec fn sizes_fit(c: Gemma4Config) -> bool {
    &&& c.num_hidden_layers * c.hidden_size_per_layer_input <= usize::MAX
    &&& c.num_attention_heads * c.head_dim <= usize::MAX
    &&& c.num_attention_heads * c.global_head_dim <= usize::MAX
    &&& c.num_key_value_heads * c.head_dim <= usize::MAX
    &&& c.num_key_value_heads * c.global_head_dim <= usize::MAX
    &&& 2 * c.intermediate_size <= usize::MAX
}

/// Names and how their weights are made.
pub open spec fn table_view(t: Seq<(String, Made)>) -> Seq<(Seq<char>, MadeView)> {
    t.map_values(|e: (String, Made)| (e.0@, e.1@))
}

fn put(t: &mut Vec<(String, Made)>, name: String, made: Made)
    ensures
        table_view(final(t)@) == table_view(old(t)@).push((name@, made@)),
{
    let ghost before = table_view(t@);
    t.push((name, made));
    proof {
        assert(table_view(t@) =~= before.push((name@, made@)));
    }
}

fn make_norm(n: usize) -> (r: Made)
    ensures
        r@ == norm(n),
{
    let mut shape: Vec<usize> = Vec::new();
    shape.push(n);
    proof {
        assert(shape@ =~= seq![n]);
    }
    Made::Plain { shape, sc: F32(NORM_SPREAD), base: F32(ONE_F32) }
}

fn make_packed(rows: usize, cols: usize, bits: u32, signed: bool) -> (r: Made)
    ensures
        r@ == packed(rows as int, cols as int, bits, signed),
{
    Made::Packed { rows, cols, bits, signed, group: None }
}

/// How all weights of a model are made.
pub fn bench_table(c: &Gemma4Config) -> (r: Vec<(String, Made)>)
    requires
        c.wf(),
        sizes_fit(*c),
    ensures
        table_view(r@) == table(*c),
{
    let (v, h, dple): (usize, usize, usize) = (c.vocab_size, c.hidden_size, c.hidden_size_per_layer_input);
    let n: usize = c.num_hidden_layers;
    let all: usize = n * dple;
    let mut t: Vec<(String, Made)> = Vec::new();
    proof {
        assert(table_view(t@) =~= Seq::empty());
    }
    put(&mut t, "language_model.per_layer_projection_norm.weight".to_owned(), make_norm(dple));
    put(&mut t, "language_model.norm.weight".to_owned(), make_norm(h));
    put(&mut t, "language_model.embed_tokens.weight".to_owned(), make_packed(v, h, 2, false));
    put(
        &mut t,
        "language_model.embed_tokens_per_layer.weight".to_owned(),
        Made::Packed { rows: v, cols: all, bits: 4, signed: false, group: Some(dple) },
    );
    let mut shape: Vec<usize> = Vec::new();
    shape.push(all);
    shape.push(h);
    proof {
        assert(shape@ =~= seq![all, h]);
    }
    put(
        &mut t,
        "language_model.per_layer_model_projection.weight".to_owned(),
        Made::Plain { shape, sc: F32(PROJECTION_SPREAD), base: F32(0) },
    );
    put(&mut t, "lm_head.weight".to_owned(), make_packed(v, h, 2, false));
    let ghost head = table_view(t@);
    proof {
        assert(head + layer_tables(*c, n as nat) =~= table(*c));
        assert(table_view(t@) =~= head + layer_tables(*c, 0));
    }
    let mut i: usize = 0;
    while i < n
        invariant
            c.wf(),
            sizes_fit(*c),
            n == c.num_hidden_layers,
            i <= n,
            table_view(t@) == head + layer_tables(*c, i as nat),
        decreases n - i,
    {
        let ghost before = table_view(t@);
        put_layer(&mut t, c, i);
        proof {
            assert(table_view(t@) =~= head + layer_tables(*c, (i + 1) as nat));
        }
        i = i + 1;
    }
    t
}

fn put_layer(t: &mut Vec<(String, Made)>, c: &Gemma4Config, i: usize)
    requires
        c.wf(),
        sizes_fit(*c),
        i < c.num_hidden_layers,
    ensures
        table_view(final(t)@) == table_view(old(t)@) + layer_table(*c, i as int),
{
    let ghost before = table_view(t@);
    let (h, dple): (usize, usize) = (c.hidden_size, c.hidden_size_per_layer_input);
    let dh = c.head_dim(i);
    let q: usize = c.num_attention_heads * dh;
    let kv: usize = c.num_key_value_heads * dh;
    let mut gate = layer_name_prefix(i);
    gate.append(".mlp.gate_proj");
    let bits = c.bits_for(gate.as_str());
    let inner: usize = if bits == 2 {
        c.intermediate_size * 2
    } else {
        c.intermediate_size
    };
    put(t, layer_weight_name(i, "self_attn.q_norm.weight"), make_norm(dh));
    put(t, layer_weight_name(i, "self_attn.k_norm.weight"), make_norm(dh));
    put(t, layer_weight_name(i, "post_per_layer_input_norm.weight"), make_norm(h));
    put(t, layer_weight_name(i, "input_layernorm.weight"), make_norm(h));
    put(t, layer_weight_name(i, "post_attention_layernorm.weight"), make_norm(h));
    put(t, layer_weight_name(i, "pre_feedforward_layernorm.weight"), make_norm(h));
    put(t, layer_weight_name(i, "post_feedforward_layernorm.weight"), make_norm(h));
    put(t, layer_weight_name(i, "self_attn.q_proj.weight"), make_packed(q, h, 4, false));
    put(t, layer_weight_name(i, "self_attn.k_proj.weight"), make_packed(kv, h, 4, false));
    put(t, layer_weight_name(i, "self_attn.v_proj.weight"), make_packed(kv, h, 4, false));
    put(t, layer_weight_name(i, "self_attn.o_proj.weight"), make_packed(h, q, 4, false));
    put(t, layer_weight_name(i, "mlp.gate_proj.weight"), make_packed(inner, h, bits, false));
    put(t, layer_weight_name(i, "mlp.up_proj.weight"), make_packed(inner, h, bits, false));
    put(t, layer_weight_name(i, "mlp.down_proj.weight"), make_packed(h, inner, bits, false));
    put(t, layer_weight_name(i, "per_layer_input_gate.weight"), make_packed(dple, h, 8, true));
    put(t, layer_weight_name(i, "per_layer_projection.weight"), make_packed(h, dple, 8, true));
    put(t, layer_weight_name(i, "layer_scalar"), make_norm(1));
    proof {
        assert(table_view(t@) =~= before + layer_table(*c, i as int));
    }
}

/// Values of a packed weight in a byte.
pub open spec fn per_byte(bits: u32, signed: bool) -> int {
    if signed {
        1
    } else {
        (8u32 / bits) as int
    }
}

/// Whether a weight can be made.
pub open spec fn can_make(m: MadeView) -> bool {
    match m {
        MadeView::Plain { shape, .. } => crate::backend::fits(shape),
        MadeView::Packed { rows, cols, bits, signed, group } => {
            let g = match group {
                Some(g) => g,
                None => cols,
            };
            &&& rows * cols <= usize::MAX
            &&& signed || 1 <= bits <= 8
            &&& g > 0
        },
    }
}

/// Make a weight.
pub fn make(m: &Made, rng: &mut Xorshift) -> (r: LoadedWeight)
    requires
        can_make(m@),
    ensures
        ({
            let s = old(rng).0;
            match m@ {
                MadeView::Plain { shape, sc, base } => {
                    let n = crate::backend::product(shape);
                    &&& r matches LoadedWeight::Plain(t) && t.shape@ == shape && t.data@ == random_numbers(s, n, sc, base)
                    &&& final(rng).0 == stepped_by(s, n)
                },
                MadeView::Packed { rows, cols, bits, signed, group } => {
                    let g = match group {
                        Some(g) => g,
                        None => cols,
                    };
                    let n = crate::dispatch::ceil(rows * cols, per_byte(bits, signed)) as nat;
                    let t = stepped_by(s, crate::dispatch::ceil(n as int, 4) as nat);
                    let k = (rows * ((cols + g - 1) / g as int)) as nat;
                    &&& r matches LoadedWeight::Packed(q) && {
                        &&& q.qbytes@ == random_bytes(s, n)
                        &&& q.scales@ == random_scales(t, k)
                        &&& q.shape[0] == rows && q.shape[1] == cols
                        &&& q.bits == bits && q.signed_i8 == signed && q.group_size == g
                    }
                    &&& final(rng).0 == stepped_by(t, k)
                },
            }
        }),
{
    match m {
        Made::Plain { shape, sc, base } => {
            let n: usize = crate::backend::count(shape.as_slice());
            let data = rng.f32s(n, *sc, *base);
            let shape = vstd::slice::slice_to_vec(shape.as_slice());
            LoadedWeight::Plain(FloatTensor { data, shape, dtype: "F32".to_owned() })
        },
        Made::Packed { rows, cols, bits, signed, group } => {
            let per: usize = if *signed {
                1
            } else {
                (8 / *bits) as usize
            };
            proof {
                let b = *bits;
                if !*signed {
                    assert(8u32 / b >= 1) by (nonlinear_arith)
                        requires
                            1 <= b <= 8,
                    ;
                }
            }
            let g: usize = match group {
                Some(g) => *g,
                None => *cols,
            };
            let n: usize = crate::dispatch::ceil_size(*rows * *cols, per);
            let qbytes = rng.bytes(n);
            let stride: usize = div_ceil(*cols, g);
            proof {
                assert(*rows * stride <= *rows * *cols && 0 <= *rows * stride) by (nonlinear_arith)
                    requires
                        stride <= *cols,
                        0 <= *rows,
                        0 <= stride,
                ;
            }
            let scales = rng.scales(*rows * stride);
            LoadedWeight::Packed(
                QuantWeight {
                    qbytes,
                    scales,
                    shape: [*rows, *cols],
                    bits: *bits,
                    signed_i8: *signed,
                    group_size: g,
                },
            )
        },
    }
}

// --- kernels by themselves -----------------------------------------------------------------------

/// What a timing runs, on one row.
#[derive(Clone, Copy, Debug, PartialEq, Eq, Structural)]
pub enum Probe {
    /// A product with a packed weight.
    Packed { n: usize, k: usize, bits: u32 },
    /// A product with a plain weight.
    Plain { n: usize, k: usize },
    /// The newest query over a full window of keys, with one key head.
    Attention { heads: usize, dh: usize, keys: usize },
    /// Norms, each of the one before.
    Norm { d: usize },
    /// Sums, each of the one before.
    Sum { d: usize },
}

/// One timing: its name, and how often it is run.
#[derive(Debug)]
pub struct KernelCase {
    pub name: &'static str,
    pub reps: usize,
    pub probe: Probe,
}

impl View for KernelCase {
    type V = (Seq<char>, usize, Probe);

    open spec fn view(&self) -> (Seq<char>, usize, Probe) {
        (self.name@, self.reps, self.probe)
    }
}

/// The shapes that make up most of the time of a token.
pub open spec fn kernel_table() -> Seq<(Seq<char>, usize, Probe)> {
    seq![
        ("lm_head 2b [262144,1536]"@, 20, Probe::Packed { n: 262144, k: 1536, bits: 2 }),
        ("mlp gate 4b [6144,1536]"@, 60, Probe::Packed { n: 6144, k: 1536, bits: 4 }),
        ("mlp down 2b [1536,6144]"@, 60, Probe::Packed { n: 1536, k: 6144, bits: 2 }),
        ("q_proj 4b [2048,1536]"@, 60, Probe::Packed { n: 2048, k: 1536, bits: 4 }),
        ("gemv f32 [8960,1536]"@, 60, Probe::Plain { n: 8960, k: 1536 }),
        ("attention Dh256 S512"@, 60, Probe::Attention { heads: 8, dh: 256, keys: 512 }),
        ("rmsNorm [1,1536] chained"@, 400, Probe::Norm { d: 1536 }),
        ("add [1,1536] chained"@, 400, Probe::Sum { d: 1536 }),
    ]
}

pub fn kernel_cases() -> (r: Vec<KernelCase>)
    ensures
        r@.map_values(|c: KernelCase| c@) == kernel_table(),
{
    let mut v: Vec<KernelCase> = Vec::new();
    v.push(KernelCase { name: "lm_head 2b [262144,1536]", reps: 20, probe: Probe::Packed { n: 262144, k: 1536, bits: 2 } });
    v.push(KernelCase { name: "mlp gate 4b [6144,1536]", reps: 60, probe: Probe::Packed { n: 6144, k: 1536, bits: 4 } });
    v.push(KernelCase { name: "mlp down 2b [1536,6144]", reps: 60, probe: Probe::Packed { n: 1536, k: 6144, bits: 2 } });
    v.push(KernelCase { name: "q_proj 4b [2048,1536]", reps: 60, probe: Probe::Packed { n: 2048, k: 1536, bits: 4 } });
    v.push(KernelCase { name: "gemv f32 [8960,1536]", reps: 60, probe: Probe::Plain { n: 8960, k: 1536 } });
    v.push(KernelCase { name: "attention Dh256 S512", reps: 60, probe: Probe::Attention { heads: 8, dh: 256, keys: 512 } });
    v.push(KernelCase { name: "rmsNorm [1,1536] chained", reps: 400, probe: Probe::Norm { d: 1536 } });
    v.push(KernelCase { name: "add [1,1536] chained", reps: 400, probe: Probe::Sum { d: 1536 } });
    proof {
        assert(v@.map_values(|c: KernelCase| c@) =~= kernel_table());
    }
    v
}

/// Single-precision 0.1.
pub const INPUT_SPREAD: u32 = 0x3dcc_cccd;

/// Single-precision 1/16.
pub const PROBE_SCALE: u32 = 0x3d80_0000;

/// Single-precision 0.000001.
pub const PROBE_EPS: u32 = 0x3586_37bd;

/// Keys that a probed query sees.
pub const PROBE_WINDOW: u32 = 512;

/// Numbers and their shape.
#[derive(Debug)]
pub struct Operand {
    pub data: Vec<F32>,
    pub shape: Vec<usize>,
}

impl Operand {
    /// Random numbers around zero, drawn from state `s` on.
    pub open spec fn is_drawn(self, s: u32, shape: Seq<usize>, spread: u32) -> bool {
        &&& self.shape@ == shape
        &&& self.data@ == random_numbers(s, crate::backend::product(shape), F32(spread), F32(0))
    }
}

/// What a timing runs on.
#[derive(Debug)]
pub enum Inputs {
    Packed { x: Operand, w: QuantWeight },
    Plain { x: Operand, w: Operand },
    Attention {
        q: Operand,
        k: Operand,
        v: Operand,
        q_pos: Vec<u32>,
        k_pos: Vec<u32>,
        scale: F32,
        sliding_window: u32,
        attn_softcap: F32,
    },
    Norm { x: Operand, w: Operand, eps: F32 },
    Sum { x: Operand, y: Operand },
}

/// Whether a timing's inputs can be counted.
pub open spec fn can_probe(p: Probe) -> bool {
    match p {
        Probe::Packed { n, k, bits } => n * k <= usize::MAX && 1 <= bits <= 8,
        Probe::Plain { n, k } => n * k <= usize::MAX,
        Probe::Attention { heads, dh, keys } => heads * dh <= usize::MAX && keys * dh <= usize::MAX && 1 <= keys
            <= u32::MAX,
        Probe::Norm { .. } => true,
        Probe::Sum { .. } => true,
    }
}

/// How a timing's inputs are drawn from state `s` on, and the state afterwards.
pub open spec fn are_probed(p: Probe, s: u32, r: Inputs, after: u32) -> bool {
    match p {
        Probe::Packed { n, k, bits } => {
            let bytes = crate::dispatch::ceil(n * k, per_byte(bits, false)) as nat;
            let t = stepped_by(s, crate::dispatch::ceil(bytes as int, 4) as nat);
            let u = stepped_by(t, n as nat);
            &&& r matches Inputs::Packed { x, w } && {
                &&& w.qbytes@ == random_bytes(s, bytes)
                &&& w.scales@ == random_scales(t, n as nat)
                &&& w.shape[0] == n && w.shape[1] == k
                &&& w.bits == bits && !w.signed_i8 && w.group_size == k
                &&& x.is_drawn(u, seq![1, k], INPUT_SPREAD)
            }
            &&& after == stepped_by(u, k as nat)
        },
        Probe::Plain { n, k } => {
            let t = stepped_by(s, (n * k) as nat);
            &&& r matches Inputs::Plain { x, w } && {
                &&& w.is_drawn(s, seq![n, k], PROJECTION_SPREAD)
                &&& x.is_drawn(t, seq![1, k], INPUT_SPREAD)
            }
            &&& after == stepped_by(t, k as nat)
        },
        Probe::Attention { heads, dh, keys } => {
            let t = stepped_by(s, (heads * dh) as nat);
            let u = stepped_by(t, (keys * dh) as nat);
            &&& r matches Inputs::Attention { q, k, v, q_pos, k_pos, scale, sliding_window, attn_softcap } && {
                &&& q.is_drawn(s, seq![1, heads, dh], INPUT_SPREAD)
                &&& k.is_drawn(t, seq![keys, 1, dh], INPUT_SPREAD)
                &&& v.is_drawn(u, seq![keys, 1, dh], INPUT_SPREAD)
                &&& q_pos@ == seq![(keys - 1) as u32]
                &&& k_pos@ == crate::engine::from_zero(keys as nat)
                &&& scale == F32(PROBE_SCALE)
                &&& sliding_window == PROBE_WINDOW
                &&& attn_softcap == F32(0)
            }
            &&& after == stepped_by(u, (keys * dh) as nat)
        },
        Probe::Norm { d } => {
            let t = stepped_by(s, d as nat);
            &&& r matches Inputs::Norm { x, w, eps } && {
                &&& x.is_drawn(s, seq![1, d], INPUT_SPREAD)
                &&& w.is_drawn(t, seq![d], NORM_SPREAD)
                &&& eps == F32(PROBE_EPS)
            }
            &&& after == stepped_by(t, d as nat)
        },
        Probe::Sum { d } => {
            let t = stepped_by(s, d as nat);
            &&& r matches Inputs::Sum { x, y } && {
                &&& x.is_drawn(s, seq![1, d], INPUT_SPREAD)
                &&& y.is_drawn(t, seq![1, d], INPUT_SPREAD)
            }
            &&& after == stepped_by(t, d as nat)
        },
    }
}

fn draw_operand(rng: &mut Xorshift, shape: Vec<usize>, spread: u32) -> (r: Operand)
    requires
        crate::backend::fits(shape@),
    ensures
        r.is_drawn(old(rng).0, shape@, spread),
        final(rng).0 == stepped_by(old(rng).0, crate::backend::product(shape@)),
{
    let n: usize = crate::backend::count(shape.as_slice());
    let data = rng.f32s(n, F32(spread), F32(0));
    Operand { data, shape }
}

/// Draw what a timing runs on.
pub fn probe_inputs(p: Probe, rng: &mut Xorshift) -> (r: Inputs)
    requires
        can_probe(p),
    ensures
        are_probed(p, old(rng).0, r, final(rng).0),
{
    match p {
        Probe::Packed { n, k, bits } => {
            proof {
                assert(8u32 / bits >= 1) by (nonlinear_arith)
                    requires
                        1 <= bits <= 8,
                ;
            }
            let bytes: usize = crate::dispatch::ceil_size(n * k, (8 / bits) as usize);
            let qbytes = rng.bytes(bytes);
            let scales = rng.scales(n);
            let w = QuantWeight { qbytes, scales, shape: [n, k], bits, signed_i8: false, group_size: k };
            let x = draw_operand(rng, row_shape(k), INPUT_SPREAD);
            Inputs::Packed { x, w }
        },
        Probe::Plain { n, k } => {
            let w = draw_operand(rng, matrix_shape(n, k), PROJECTION_SPREAD);
            let x = draw_operand(rng, row_shape(k), INPUT_SPREAD);
            Inputs::Plain { x, w }
        },
        Probe::Attention { heads, dh, keys } => {
            let q = draw_operand(rng, heads_shape(1, heads, dh), INPUT_SPREAD);
            let k = draw_operand(rng, heads_shape(keys, 1, dh), INPUT_SPREAD);
            let v = draw_operand(rng, heads_shape(keys, 1, dh), INPUT_SPREAD);
            let n: u32 = keys as u32;
            let mut q_pos: Vec<u32> = Vec::new();
            q_pos.push(n - 1);
            proof {
                assert(q_pos@ =~= seq![(keys - 1) as u32]);
            }
            Inputs::Attention {
                q,
                k,
                v,
                q_pos,
                k_pos: crate::engine::prompt_positions(n),
                scale: F32(PROBE_SCALE),
                sliding_window: PROBE_WINDOW,
                attn_softcap: F32(0),
            }
        },
        Probe::Norm { d } => {
            let x = draw_operand(rng, row_shape(d), INPUT_SPREAD);
            let mut shape: Vec<usize> = Vec::new();
            shape.push(d);
            proof {
                assert(shape@ =~= seq![d]);
                crate::backend::product_of_one(d);
            }
            let w = draw_operand(rng, shape, NORM_SPREAD);
            Inputs::Norm { x, w, eps: F32(PROBE_EPS) }
        },
        Probe::Sum { d } => {
            let x = draw_operand(rng, row_shape(d), INPUT_SPREAD);
            let y = draw_operand(rng, row_shape(d), INPUT_SPREAD);
            Inputs::Sum { x, y }
        },
    }
}

fn matrix_shape(n: usize, k: usize) -> (r: Vec<usize>)
    ensures
        r@ == seq![n, k],
        crate::backend::product(r@) == n * k,
        n * k <= usize::MAX ==> crate::backend::fits(r@),
{
    let mut v: Vec<usize> = Vec::new();
    v.push(n);
    v.push(k);
    proof {
        assert(v@ =~= seq![n, k]);
        crate::backend::product_of_two(n, k);
    }
    v
}

fn row_shape(k: usize) -> (r: Vec<usize>)
    ensures
        r@ == seq![1, k],
        crate::backend::product(r@) == k,
        crate::backend::fits(r@),
{
    matrix_shape(1, k)
}

/// The shape of heads, either one of each token or all of one token.
fn heads_shape(t: usize, heads: usize, dh: usize) -> (r: Vec<usize>)
    requires
        t == 1 || heads == 1,
        t * dh <= usize::MAX,
        heads * dh <= usize::MAX,
    ensures
        r@ == seq![t, heads, dh],
        crate::backend::product(r@) == t * heads * dh,
        crate::backend::fits(r@),
{
    let mut v: Vec<usize> = Vec::new();
    v.push(t);
    v.push(heads);
    v.push(dh);
    proof {
        assert(v@ =~= seq![t, heads, dh]);
        crate::backend::product_of_three(t, heads, dh);
    }
    v
}

// --- inputs and results --------------------------------------------------------------------------

/// A vocabulary shrunk by a divisor.
pub fn shrunk_vocab(vocab: usize, divisor: usize) -> (r: usize)
    ensures
        r == vocab as int / (if divisor > 1 {
            divisor as int
        } else {
            1
        }),
{
    if divisor > 1 {
        vocab / divisor
    } else {
        vocab
    }
}

/// A random token above the first few.
pub open spec fn token_at(s: u32, vocab: usize) -> nat {
    7 + fraction(s).spec_times(F32::spec_of_int(vocab - 8)).spec_whole_part()
}

/// `n` random tokens.
pub fn random_tokens(rng: &mut Xorshift, n: usize, vocab: usize) -> (r: Vec<u64>)
    requires
        vocab >= 8,
    ensures
        r@ == Seq::new(n as nat, |k: int| token_at(stepped_by(old(rng).0, (k + 1) as nat), vocab) as u64),
        final(rng).0 == stepped_by(old(rng).0, n as nat),
{
    let ghost s = rng.0;
    let ghost want = Seq::new(n as nat, |k: int| token_at(stepped_by(s, (k + 1) as nat), vocab) as u64);
    let span = F32::from_u64((vocab - 8) as u64);
    let mut out: Vec<u64> = Vec::new();
    let mut k: usize = 0;
    while k < n
        invariant
            k <= n,
            vocab >= 8,
            span == F32::spec_of_int(vocab - 8),
            want == Seq::new(n as nat, |k: int| token_at(stepped_by(s, (k + 1) as nat), vocab) as u64),
            out@ == want.take(k as int),
            rng.0 == stepped_by(s, k as nat),
        decreases n - k,
    {
        let w: u32 = rng.f().times(span).whole_part();
        out.push(7 + w as u64);
        k = k + 1;
        proof {
            assert(out@ =~= want.take(k as int));
        }
    }
    proof {
        assert(want.take(n as int) =~= want);
    }
    out
}

/// Whether all numbers are finite.
pub fn all_finite(xs: &[F32]) -> (r: bool)
    ensures
        r == (forall|i: int| 0 <= i < xs@.len() ==> (#[trigger] xs@[i]).spec_is_finite()),
{
    let len: usize = xs.len();
    let mut i: usize = 0;
    while i < len
        invariant
            len == xs@.len(),
            i <= len,
            forall|k: int| 0 <= k < i ==> (#[trigger] xs@[k]).spec_is_finite(),
        decreases len - i,
    {
        if !xs[i].is_finite() {
            return false;
        }
        i = i + 1;
    }
    true
}

/// The first numbers of a row, as many as are looked at.
pub open spec fn head_of(xs: Seq<F32>) -> Seq<F32> {
    xs.take(
        if xs.len() < 512 {
            xs.len() as int
        } else {
            512
        },
    )
}

/// Length of the first 512 numbers as a vector.
pub fn l2(xs: &[F32]) -> (r: F32)
    ensures
        r == crate::backend_cpu::dot(head_of(xs@), head_of(xs@)).spec_root(),
{
    let len: usize = xs.len();
    let n: usize = if len < 512 {
        len
    } else {
        512
    };
    proof {
        assert(head_of(xs@) =~= xs@.subrange(0, 0 + n));
    }
    crate::backend_cpu::dot_at(xs, 0, xs, 0, n).root()
}

} // verus!
