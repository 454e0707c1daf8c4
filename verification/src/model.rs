//! The forward graph of Gemma-4, text only.
//!
//! Everything goes through a [`Backend`], so the same code runs on any of them.
//! Weights are asked for by name before the first pass and kept.
//!
//! Global layers (every fifth, unless told otherwise) have their own head size
//! and rotate only the front of a head; local layers see a sliding window.
//! Queries and keys are normalized per head, values without a weight, and
//! attention scores are not scaled. Every layer mixes in its own slice of a
//! per-layer embedding. The last layers keep no keys and values but read those
//! of an earlier layer of their kind. The soft cap on logits that a
//! configuration may give is not applied.
use std::sync::Arc;
use vstd::arithmetic::mul::*;
use vstd::pervasive::unreached;
use vstd::prelude::*;
use vstd::string::*;

use crate::backend::{Arithmetic, AttnOpts, Attention, Backend, Content, TensorShape};
use crate::config::{Gemma4Config, LayerType};
use crate::float::{F32, ONE_F32};
use crate::kvcache::{KVCache, KvSlot, Memory};
use crate::weights::{layer_weight_name, WeightSource};

verus! {

// --- weights -----------------------------------------------------------------------------------

/// The weights of one layer.
#[verifier::ext_equal]
pub struct LayerWeights<T> {
    pub input_ln: T,
    pub q_proj: T,
    pub q_norm: Option<T>,
    pub k_proj: Option<T>,
    pub v_proj: Option<T>,
    pub k_norm: Option<T>,
    pub o_proj: T,
    pub post_attn_ln: T,
    pub pre_ffn_ln: T,
    pub gate_proj: T,
    pub up_proj: T,
    pub down_proj: T,
    pub post_ffn_ln: T,
    pub ple_gate: Option<T>,
    pub ple_proj: Option<T>,
    pub ple_norm: Option<T>,
    pub layer_scalar: Option<T>,
}

/// The weights before and after the layers.
#[verifier::ext_equal]
pub struct TopWeights<T> {
    pub embed: T,
    pub embed_per_layer: T,
    pub ple_proj: Option<T>,
    pub ple_proj_norm: Option<T>,
    pub final_norm: T,
    pub lm_head: T,
}

impl<T: TensorShape> LayerWeights<T> {
    pub open spec fn contents(self) -> LayerWeights<Content> {
        LayerWeights {
            input_ln: self.input_ln.content(),
            q_proj: self.q_proj.content(),
            q_norm: crate::weights::content_of(self.q_norm),
            k_proj: crate::weights::content_of(self.k_proj),
            v_proj: crate::weights::content_of(self.v_proj),
            k_norm: crate::weights::content_of(self.k_norm),
            o_proj: self.o_proj.content(),
            post_attn_ln: self.post_attn_ln.content(),
            pre_ffn_ln: self.pre_ffn_ln.content(),
            gate_proj: self.gate_proj.content(),
            up_proj: self.up_proj.content(),
            down_proj: self.down_proj.content(),
            post_ffn_ln: self.post_ffn_ln.content(),
            ple_gate: crate::weights::content_of(self.ple_gate),
            ple_proj: crate::weights::content_of(self.ple_proj),
            ple_norm: crate::weights::content_of(self.ple_norm),
            layer_scalar: crate::weights::content_of(self.layer_scalar),
        }
    }
}

impl<T: TensorShape> TopWeights<T> {
    pub open spec fn contents(self) -> TopWeights<Content> {
        TopWeights {
            embed: self.embed.content(),
            embed_per_layer: self.embed_per_layer.content(),
            ple_proj: crate::weights::content_of(self.ple_proj),
            ple_proj_norm: crate::weights::content_of(self.ple_proj_norm),
            final_norm: self.final_norm.content(),
            lm_head: self.lm_head.content(),
        }
    }
}

// --- the graph ---------------------------------------------------------------------------------

/// How many of a head's numbers turn.
pub open spec fn rotary_dim(c: Gemma4Config, i: int) -> usize {
    F32::spec_of_int(c.spec_head_dim(i) as int).spec_times(c.spec_rope_for(i).partial_rotary_factor).spec_rounded_count() as usize
}

/// Rows as heads.
pub open spec fn as_heads(x: Content, heads: usize, dh: usize) -> Content {
    x.reshaped(seq![x.dims[0], heads, dh])
}

/// Heads normalized, if there is a weight, and turned.
pub open spec fn placed(a: Arithmetic, c: Gemma4Config, i: int, x: Content, norm: Option<Content>, positions: Seq<u32>) -> Content {
    let y = match norm {
        Some(w) => crate::backend::head_normed(a, x, Some(w), c.rms_norm_eps),
        None => x,
    };
    crate::backend::rotated(a, y, positions, c.spec_rope_for(i).theta, rotary_dim(c, i))
}

/// Queries of a layer.
pub open spec fn queries(a: Arithmetic, c: Gemma4Config, i: int, l: LayerWeights<Content>, x: Content, positions: Seq<u32>) -> Content {
    let q = as_heads(crate::backend::projected(a, x, l.q_proj), c.num_attention_heads, c.spec_head_dim(i));
    placed(a, c, i, q, l.q_norm, positions)
}

/// Keys of a layer.
pub open spec fn keys(a: Arithmetic, c: Gemma4Config, i: int, l: LayerWeights<Content>, x: Content, positions: Seq<u32>) -> Content {
    let k = as_heads(crate::backend::projected(a, x, l.k_proj->0), c.num_key_value_heads, c.spec_head_dim(i));
    placed(a, c, i, k, l.k_norm, positions)
}

/// Values of a layer.
pub open spec fn values(a: Arithmetic, c: Gemma4Config, i: int, l: LayerWeights<Content>, x: Content) -> Content {
    let v = as_heads(crate::backend::projected(a, x, l.v_proj->0), c.num_key_value_heads, c.spec_head_dim(i));
    crate::backend::head_normed(a, v, None, c.rms_norm_eps)
}

/// Slots after a layer: a source layer appends to its own.
pub open spec fn slots_after(
    a: Arithmetic,
    c: Gemma4Config,
    i: int,
    l: LayerWeights<Content>,
    x: Content,
    positions: Seq<u32>,
    m: Memory,
) -> Seq<Option<KvSlot<Content>>> {
    if c.kv_source(i) == i {
        m.kv.update(i, Some(m.grown(i, keys(a, c, i, l, x, positions), values(a, c, i, l, x))))
    } else {
        m.kv
    }
}

/// How a layer attends.
pub open spec fn attention_options(c: Gemma4Config, i: int, positions: Seq<u32>, k_pos: Seq<u32>) -> Attention {
    Attention {
        q_pos: positions,
        k_pos,
        scale: F32(ONE_F32),
        sliding_window: if c.layer_types@[i] == LayerType::Full {
            0
        } else {
            c.sliding_window
        },
        attn_softcap: F32(0),
    }
}

/// Attention of a layer over a slot.
pub open spec fn attention_out(
    a: Arithmetic,
    c: Gemma4Config,
    i: int,
    l: LayerWeights<Content>,
    x: Content,
    positions: Seq<u32>,
    slot: KvSlot<Content>,
    k_pos: Seq<u32>,
) -> Content {
    let o = attention_options(c, i, positions, k_pos);
    crate::backend::projected(
        a,
        crate::backend::attended(a, queries(a, c, i, l, x, positions), slot.k, slot.v, o),
        l.o_proj,
    )
}

/// A tensor scaled by a learned number, if there is one.
pub open spec fn rescaled(a: Arithmetic, h: Content, s: Option<Content>) -> Content {
    match s {
        Some(s) => crate::backend::scaled(a, h, s.cells[0]),
        None => h,
    }
}

/// The residual after attention.
pub open spec fn after_attention(a: Arithmetic, c: Gemma4Config, l: LayerWeights<Content>, h: Content, attn: Content) -> Content {
    crate::backend::norm_added(a, h, attn, l.post_attn_ln, c.rms_norm_eps, None)
}

/// The residual after the feed-forward block.
pub open spec fn after_feed_forward(a: Arithmetic, c: Gemma4Config, l: LayerWeights<Content>, h: Content) -> Content {
    let x = crate::backend::normed(a, h, Some(l.pre_ffn_ln), c.rms_norm_eps);
    let g = crate::backend::gated(
        a,
        crate::backend::projected(a, x, l.gate_proj),
        crate::backend::projected(a, x, l.up_proj),
    );
    crate::backend::norm_added(
        a,
        h,
        crate::backend::projected(a, g, l.down_proj),
        l.post_ffn_ln,
        c.rms_norm_eps,
        None,
    )
}

/// The residual after the per-layer embedding, scaled.
pub open spec fn after_embedding(a: Arithmetic, c: Gemma4Config, i: int, l: LayerWeights<Content>, h: Content, ple: Content) -> Content {
    match (l.ple_gate, l.ple_proj) {
        (Some(gate), Some(proj)) => {
            let g = crate::backend::gated(
                a,
                crate::backend::projected(a, h, gate),
                ple.columns(i * c.hidden_size_per_layer_input, gate.dims[0] as int),
            );
            let inj = crate::backend::projected(a, g, proj);
            match l.ple_norm {
                Some(w) => crate::backend::norm_added(a, h, inj, w, c.rms_norm_eps, l.layer_scalar),
                None => rescaled(a, crate::backend::summed(a, h, inj), l.layer_scalar),
            }
        },
        _ => rescaled(a, h, l.layer_scalar),
    }
}

/// The residual stream and the slots.
#[verifier::ext_equal]
pub struct Flow {
    pub h: Content,
    pub kv: Seq<Option<KvSlot<Content>>>,
}

/// One layer. `k_pos` are the positions of all tokens, old and new.
pub open spec fn layer_out(
    a: Arithmetic,
    c: Gemma4Config,
    i: int,
    l: LayerWeights<Content>,
    f: Flow,
    ple: Content,
    positions: Seq<u32>,
    k_pos: Seq<u32>,
) -> Flow {
    let x = crate::backend::normed(a, f.h, Some(l.input_ln), c.rms_norm_eps);
    let kv = slots_after(a, c, i, l, x, positions, Memory { kv: f.kv, positions: k_pos });
    let attn = attention_out(a, c, i, l, x, positions, kv[c.kv_source(i)]->0, k_pos);
    let h = after_feed_forward(a, c, l, after_attention(a, c, l, f.h, attn));
    Flow { h: after_embedding(a, c, i, l, h, ple), kv }
}

/// A configuration with what its weights hold.
pub struct Net {
    pub config: Gemma4Config,
    pub top: TopWeights<Content>,
    pub layers: Seq<LayerWeights<Content>>,
}

/// Single-precision square root of one half.
pub const HALF_ROOT: u32 = 0x3f35_04f3;

impl Net {
    /// Token embeddings, scaled by the root of the hidden size.
    pub open spec fn embedding(self, a: Arithmetic, ids: Seq<u32>) -> Content {
        crate::backend::embedded(a, self.top.embed, ids, F32::spec_of_int(self.config.hidden_size as int).spec_root())
    }

    /// Embeddings for the layers: a table's, and where there is one also a
    /// projection of the token embedding.
    pub open spec fn per_layer(self, a: Arithmetic, ids: Seq<u32>) -> Content {
        let dple = self.config.hidden_size_per_layer_input;
        let l = self.config.num_hidden_layers;
        let emb = crate::backend::embedded(a, self.top.embed_per_layer, ids, F32::spec_of_int(dple as int).spec_root());
        match (self.top.ple_proj, self.top.ple_proj_norm) {
            (Some(w), Some(norm)) => {
                let p = crate::backend::projected(a, self.embedding(a, ids), w);
                let p = p.reshaped(seq![(ids.len() * l) as usize, dple]);
                let p = crate::backend::normed(a, p, Some(norm), self.config.rms_norm_eps);
                let p = p.reshaped(seq![ids.len() as usize, (l * dple) as usize]);
                crate::backend::scaled(a, crate::backend::summed(a, p, emb), F32(HALF_ROOT))
            },
            _ => emb,
        }
    }

    /// The first `n` layers.
    pub open spec fn through(
        self,
        a: Arithmetic,
        n: int,
        start: Flow,
        ple: Content,
        positions: Seq<u32>,
        k_pos: Seq<u32>,
    ) -> Flow
        decreases n,
    {
        if n <= 0 {
            start
        } else {
            layer_out(
                a,
                self.config,
                n - 1,
                self.layers[n - 1],
                self.through(a, n - 1, start, ple, positions, k_pos),
                ple,
                positions,
                k_pos,
            )
        }
    }

    /// All layers.
    pub open spec fn run(self, a: Arithmetic, m: Memory, ids: Seq<u32>, positions: Seq<u32>) -> Flow {
        self.through(
            a,
            self.layers.len() as int,
            Flow { h: self.embedding(a, ids), kv: m.kv },
            self.per_layer(a, ids),
            positions,
            m.positions + positions,
        )
    }

    /// Logits for the token after the last row.
    pub open spec fn logits_of(self, a: Arithmetic, h: Content) -> Seq<F32> {
        let x = crate::backend::normed(a, h, Some(self.top.final_norm), self.config.rms_norm_eps);
        crate::backend::projected(a, x.rows(x.dims[0] - 1, 1), self.top.lm_head).cells
    }

    /// Logits for the token after the last of `ids`.
    pub open spec fn logits(self, a: Arithmetic, m: Memory, ids: Seq<u32>, positions: Seq<u32>) -> Seq<F32> {
        self.logits_of(a, self.run(a, m, ids, positions).h)
    }

    /// What is remembered afterwards.
    pub open spec fn remembered(self, a: Arithmetic, m: Memory, ids: Seq<u32>, positions: Seq<u32>) -> Memory {
        Memory { kv: self.run(a, m, ids, positions).kv, positions: m.positions + positions }
    }
}

// --- shapes ------------------------------------------------------------------------------------

/// At least `n` plain numbers.
pub open spec fn is_vector(x: Content, n: usize) -> bool {
    x.has_numbers(n as int)
}

/// A matrix of `n` rows and `k` columns, packed or not.
pub open spec fn is_weight(x: Content, n: int, k: int) -> bool {
    x.is_whole() && x.is_matrix() && x.dims[0] == n && x.dims[1] == k
}

/// Whether a layer's weights fit each other, for a residual stream of `h`
/// columns and per-layer embeddings of `p` columns.
pub open spec fn layer_fits(c: Gemma4Config, i: int, l: LayerWeights<Content>, h: usize, p: usize) -> bool {
    let (hq, hkv, dh) = (c.num_attention_heads, c.num_key_value_heads, c.spec_head_dim(i));
    &&& dh > 0
    &&& hkv > 0
    &&& hq % hkv == 0
    &&& rotary_dim(c, i) <= dh
    &&& is_vector(l.input_ln, h)
    &&& is_vector(l.post_attn_ln, h)
    &&& is_vector(l.pre_ffn_ln, h)
    &&& is_vector(l.post_ffn_ln, h)
    &&& is_weight(l.q_proj, hq * dh, h as int)
    &&& l.q_norm matches Some(w) ==> is_vector(w, dh)
    &&& is_weight(l.o_proj, h as int, hq * dh)
    &&& c.kv_source(i) == i ==> own_slot_fits(c, i, l, h)
    &&& is_weight(l.gate_proj, l.gate_proj.dims[0] as int, h as int)
    &&& is_weight(l.up_proj, l.gate_proj.dims[0] as int, h as int)
    &&& is_weight(l.down_proj, h as int, l.gate_proj.dims[0] as int)
    &&& embedding_fits(c, i, l, h, p)
    &&& l.layer_scalar matches Some(s) ==> is_vector(s, 1)
}

/// The weights by which a layer makes its keys and values.
pub open spec fn own_slot_fits(c: Gemma4Config, i: int, l: LayerWeights<Content>, h: usize) -> bool {
    let (hkv, dh) = (c.num_key_value_heads, c.spec_head_dim(i));
    &&& l.k_proj matches Some(w) && is_weight(w, hkv * dh, h as int)
    &&& l.v_proj matches Some(w) && is_weight(w, hkv * dh, h as int)
    &&& l.k_norm matches Some(w) ==> is_vector(w, dh)
}

/// The weights by which a layer mixes in its embedding.
pub open spec fn embedding_fits(c: Gemma4Config, i: int, l: LayerWeights<Content>, h: usize, p: usize) -> bool {
    match (l.ple_gate, l.ple_proj) {
        (Some(gate), Some(proj)) => {
            &&& is_weight(gate, gate.dims[0] as int, h as int)
            &&& i * c.hidden_size_per_layer_input + gate.dims[0] <= p
            &&& is_weight(proj, h as int, gate.dims[0] as int)
            &&& l.ple_norm matches Some(w) ==> is_vector(w, h)
        },
        _ => true,
    }
}

/// Whether `t` rows, and `n` of keys and values, can be counted in a layer.
pub open spec fn layer_has_room(c: Gemma4Config, i: int, l: LayerWeights<Content>, t: nat, n: nat) -> bool {
    let (hq, hkv, dh) = (c.num_attention_heads, c.num_key_value_heads, c.spec_head_dim(i));
    &&& t * (hq * dh) <= usize::MAX
    &&& n * (hkv * dh) <= usize::MAX
    &&& t * l.gate_proj.dims[0] <= usize::MAX
    &&& match (l.ple_gate, l.ple_proj) {
        (Some(g), Some(_)) => t * g.dims[0] <= usize::MAX,
        _ => true,
    }
}

/// A slot of `n` keys and values.
pub open spec fn slot_fits(c: Gemma4Config, i: int, s: KvSlot<Content>, n: nat) -> bool {
    let dims = seq![n as usize, c.num_key_value_heads, c.spec_head_dim(i)];
    s.k.is_plain() && s.v.is_plain() && s.k.dims == dims && s.v.dims == dims
}

/// Slots while a pass is under way: source layers below `done` have `after`
/// keys and values, the others still `before`.
pub open spec fn slots_fit(c: Gemma4Config, kv: Seq<Option<KvSlot<Content>>>, done: int, before: nat, after: nat) -> bool {
    &&& kv.len() == c.num_hidden_layers
    &&& forall|i: int|
        0 <= i < kv.len() && c.kv_source(i) == i ==> match #[trigger] kv[i] {
            Some(s) => slot_fits(
                c,
                i,
                s,
                if i < done {
                    after
                } else {
                    before
                },
            ),
            None => i >= done && before == 0,
        }
}

impl Net {
    /// Columns of the residual stream.
    pub open spec fn width(self) -> usize {
        self.top.embed.dims[1]
    }

    /// Columns of the per-layer embeddings.
    pub open spec fn per_layer_width(self) -> usize {
        self.top.embed_per_layer.dims[1]
    }

    /// Whether the weights fit each other.
    pub open spec fn fits(self) -> bool {
        let c = self.config;
        &&& c.wf()
        &&& self.layers.len() == c.num_hidden_layers
        &&& self.top.embed.is_whole()
        &&& self.top.embed.is_matrix()
        &&& self.width() > 0
        &&& self.top.embed_per_layer.is_whole()
        &&& self.top.embed_per_layer.is_matrix()
        &&& self.projection_fits()
        &&& is_vector(self.top.final_norm, self.width())
        &&& is_weight(self.top.lm_head, self.top.lm_head.dims[0] as int, self.width() as int)
        &&& forall|i: int|
            0 <= i < self.layers.len() ==> layer_fits(
                c,
                i,
                #[trigger] self.layers[i],
                self.width(),
                self.per_layer_width(),
            )
    }

    /// The weights by which the token embedding is projected for the layers.
    pub open spec fn projection_fits(self) -> bool {
        let (l, dple) = (self.config.num_hidden_layers, self.config.hidden_size_per_layer_input);
        match (self.top.ple_proj, self.top.ple_proj_norm) {
            (Some(w), Some(norm)) => {
                &&& dple > 0
                &&& is_weight(w, l * dple, self.width() as int)
                &&& is_vector(norm, dple)
                &&& self.per_layer_width() == l * dple
            },
            _ => true,
        }
    }

    /// Whether `t` new rows after `n` old ones can be counted.
    pub open spec fn has_room(self, n: nat, t: nat) -> bool {
        &&& n + t <= usize::MAX
        &&& t * self.width() <= usize::MAX
        &&& t * self.per_layer_width() <= usize::MAX
        &&& forall|i: int|
            0 <= i < self.layers.len() ==> layer_has_room(self.config, i, #[trigger] self.layers[i], t, n + t)
    }

    /// Whether tokens can be run: some, each known to both tables and with a
    /// position.
    pub open spec fn takes(self, m: Memory, ids: Seq<u32>, positions: Seq<u32>) -> bool {
        &&& ids.len() > 0
        &&& positions.len() == ids.len()
        &&& forall|k: int|
            0 <= k < ids.len() ==> #[trigger] ids[k] < self.top.embed.dims[0] && ids[k]
                < self.top.embed_per_layer.dims[0]
        &&& self.has_room(m.positions.len(), ids.len())
    }

    /// Whether what is remembered is this network's.
    pub open spec fn owns(self, m: Memory) -> bool {
        slots_fit(self.config, m.kv, 0, m.positions.len(), m.positions.len())
    }
}

proof fn lemma_heads(t: usize, heads: usize, dh: usize)
    ensures
        crate::backend::product(seq![t, heads, dh]) == t * (heads * dh),
        crate::backend::product(seq![t, (heads * dh) as usize]) == t * ((heads * dh) as usize),
{
    crate::backend::product_of_three(t, heads, dh);
    crate::backend::product_of_two(t, (heads * dh) as usize);
    lemma_mul_is_associative(t as int, heads as int, dh as int);
}

/// Rows that fit a slot can be appended to it.
proof fn lemma_slot_grows(c: Gemma4Config, i: int, before: nat, t: nat)
    requires
        (before + t) * (c.num_key_value_heads * c.spec_head_dim(i)) <= usize::MAX,
        before + t <= usize::MAX,
    ensures
        forall|s: KvSlot<Content>, new: KvSlot<Content>| #[trigger]
            slot_fits(c, i, s, before) && #[trigger] slot_fits(c, i, new, t) ==> {
                &&& crate::backend::can_follow(Some(s.k), new.k)
                &&& crate::backend::can_follow(Some(s.v), new.v)
                &&& slot_fits(
                    c,
                    i,
                    KvSlot {
                        k: crate::backend::joined_rows(Some(s.k), new.k),
                        v: crate::backend::joined_rows(Some(s.v), new.v),
                    },
                    before + t,
                )
            },
{
    let (hkv, dh) = (c.num_key_value_heads, c.spec_head_dim(i));
    assert forall|s: KvSlot<Content>, new: KvSlot<Content>| #[trigger]
        slot_fits(c, i, s, before) && #[trigger] slot_fits(c, i, new, t) implies {
        &&& crate::backend::can_follow(Some(s.k), new.k)
        &&& crate::backend::can_follow(Some(s.v), new.v)
        &&& slot_fits(
            c,
            i,
            KvSlot {
                k: crate::backend::joined_rows(Some(s.k), new.k),
                v: crate::backend::joined_rows(Some(s.v), new.v),
            },
            before + t,
        )
    } by {
        lemma_heads(before as usize, hkv, dh);
        lemma_heads(t as usize, hkv, dh);
        lemma_heads((before + t) as usize, hkv, dh);
        lemma_mul_is_distributive_add_other_way(hkv * dh, before as int, t as int);
        assert(s.k.dims.drop_first() =~= new.k.dims.drop_first());
        assert(s.v.dims.drop_first() =~= new.v.dims.drop_first());
        assert(s.k.followed_by(new.k).dims =~= seq![(before + t) as usize, hkv, dh]);
        assert(s.v.followed_by(new.v).dims =~= seq![(before + t) as usize, hkv, dh]);
    }
}

// --- running it --------------------------------------------------------------------------------

/// Heads normalized, if there is a weight, and turned.
fn place<B: Backend>(
    c: &Gemma4Config,
    b: &B,
    i: usize,
    x: &B::Tensor,
    norm: &Option<B::Tensor>,
    positions: &[u32],
    heads: usize,
) -> (r: B::Tensor)
    requires
        c.wf(),
        i < c.num_hidden_layers,
        x.content().is_plain(),
        x.content().dims == seq![positions@.len() as usize, heads, c.spec_head_dim(i as int)],
        c.spec_head_dim(i as int) > 0,
        rotary_dim(*c, i as int) <= c.spec_head_dim(i as int),
        crate::backend::fits(x.content().dims),
        crate::weights::content_of(*norm) matches Some(w) ==> is_vector(w, c.spec_head_dim(i as int)),
    ensures
        r.content().is_plain(),
        r.content() == placed(
            b.arithmetic(),
            *c,
            i as int,
            x.content(),
            crate::weights::content_of(*norm),
            positions@,
        ),
{
    let dh = c.head_dim(i);
    let rope = c.rope_for(i);
    let rotary = F32::from_u64(dh as u64).times(rope.partial_rotary_factor).rounded_count();
    let len: usize = positions.len();
    match norm {
        Some(w) => b.head_norm_rope(x, w, c.rms_norm_eps, positions, rope.theta, dh, heads, rotary),
        None => b.rope(x, positions, rope.theta, dh, heads, rotary),
    }
}

/// Each head normalized by itself.
fn head_norm<B: Backend>(b: &B, eps: F32, x: &B::Tensor, weight: Option<&B::Tensor>, heads: usize, dh: usize) -> (r: B::Tensor)
    requires
        x.content().is_plain(),
        x.content().dims.len() == 3,
        x.content().dims[1] == heads,
        x.content().dims[2] == dh,
        dh > 0,
        crate::backend::fits(x.content().dims),
        crate::backend::held(weight) matches Some(w) ==> is_vector(w, dh),
    ensures
        r.content().is_plain(),
        r.content() == crate::backend::head_normed(b.arithmetic(), x.content(), crate::backend::held(weight), eps),
{
    let t: usize = x.shape()[0];
    proof {
        assert(x.content().dims =~= seq![t, heads, dh]);
        crate::backend::product_of_three(t, heads, dh);
        crate::backend::lemma_flat_heads(t, heads, dh);
        crate::backend::product_of_two((t * heads) as usize, dh);
    }
    let flat = b.reshape(x, &[t * heads, dh]);
    let normed = b.rms_norm(&flat, weight, eps);
    b.reshape(&normed, &[t, heads, dh])
}

/// Attention of one layer, which appends to the layer's slot if it is a
/// source.
fn attention<B: Backend>(
    c: &Gemma4Config,
    b: &B,
    lw: &LayerWeights<B::Tensor>,
    cache: &mut KVCache<B>,
    i: usize,
    x: &B::Tensor,
    positions: &[u32],
    Ghost(before): Ghost<nat>,
    Ghost(h): Ghost<usize>,
    Ghost(p): Ghost<usize>,
) -> (r: B::Tensor)
    requires
        c.wf(),
        i < c.num_hidden_layers,
        layer_fits(*c, i as int, lw.contents(), h, p),
        positions@.len() > 0,
        x.content().is_plain(),
        x.content().dims == seq![positions@.len() as usize, h],
        positions@.len() * h <= usize::MAX,
        old(cache).memory().positions.len() == before + positions@.len(),
        layer_has_room(*c, i as int, lw.contents(), positions@.len(), before + positions@.len()),
        slots_fit(*c, old(cache).memory().kv, i as int, before, before + positions@.len()),
    ensures
        ({
            let kv = slots_after(
                b.arithmetic(),
                *c,
                i as int,
                lw.contents(),
                x.content(),
                positions@,
                old(cache).memory(),
            );
            &&& final(cache).memory() == Memory { kv, ..old(cache).memory() }
            &&& slots_fit(*c, kv, i + 1, before, before + positions@.len())
            &&& r.content() == attention_out(
                b.arithmetic(),
                *c,
                i as int,
                lw.contents(),
                x.content(),
                positions@,
                kv[c.kv_source(i as int)]->0,
                old(cache).memory().positions,
            )
        }),
        r.content().is_plain(),
        r.content().dims == x.content().dims,
{
    let hq: usize = c.num_attention_heads;
    let hkv: usize = c.num_key_value_heads;
    let dh = c.head_dim(i);
    let t: usize = positions.len();
    let n: usize = cache.positions.len();
    let ghost a = b.arithmetic();
    let ghost l = lw.contents();
    proof {
        lemma_heads(t, hq, dh);
        lemma_heads(t, hkv, dh);
        lemma_heads(n, hkv, dh);
        lemma_mul_inequality(t as int, n as int, hkv * dh);
        crate::backend::lemma_flat_heads(t, hq, dh);
        crate::backend::lemma_flat_heads(n, hkv, dh);
        c.source_fits_layer(i as int);
        lemma_slot_grows(*c, i as int, before, t as nat);
    }
    let ghost slot = cache.memory().kv[c.kv_source(i as int)];
    let q = b.linear(x, &lw.q_proj);
    let q = b.reshape(&q, &[t, hq, dh]);
    let q = place(c, b, i, &q, &lw.q_norm, positions, hq);
    let src = c.kv_source_layer(i);
    let (k_full, v_full) = if src == i {
        match (&lw.k_proj, &lw.v_proj) {
            (Some(k_proj), Some(v_proj)) => {
                let k = b.linear(x, k_proj);
                let v = b.linear(x, v_proj);
                let k = b.reshape(&k, &[t, hkv, dh]);
                let v = b.reshape(&v, &[t, hkv, dh]);
                let k = place(c, b, i, &k, &lw.k_norm, positions, hkv);
                let v = head_norm(b, c.rms_norm_eps, &v, None, hkv, dh);
                proof {
                    assert(slot_fits(*c, i as int, KvSlot { k: k.content(), v: v.content() }, t as nat));
                    assert(slot matches Some(s) ==> slot_fits(*c, i as int, s, before));
                }
                cache.append_and_read(b, src, &k, &v)
            },
            _ => {
                unreached()
            },
        }
    } else {
        match cache.read(src) {
            Some(slot) => (slot.k.share(), slot.v.share()),
            None => {
                unreached()
            },
        }
    };
    let sliding_window: u32 = if c.is_global(i) {
        0
    } else {
        c.sliding_window
    };
    let opts = AttnOpts {
        q_pos: positions,
        k_pos: cache.positions.as_slice(),
        scale: F32(ONE_F32),
        sliding_window,
        attn_softcap: F32(0),
    };
    let out = b.attention(&q, &k_full, &v_full, &opts);
    b.linear(&out, &lw.o_proj)
}

/// One layer.
fn decoder_layer<B: Backend>(
    c: &Gemma4Config,
    b: &B,
    lw: &LayerWeights<B::Tensor>,
    cache: &mut KVCache<B>,
    i: usize,
    h: B::Tensor,
    positions: &[u32],
    ple: &B::Tensor,
    Ghost(before): Ghost<nat>,
) -> (r: B::Tensor)
    requires
        c.wf(),
        i < c.num_hidden_layers,
        ple.content().is_plain(),
        ple.content().is_matrix(),
        ple.content().dims[0] == positions@.len(),
        h.content().is_plain(),
        h.content().is_matrix(),
        h.content().dims[0] == positions@.len(),
        h.content().dims[1] > 0,
        positions@.len() > 0,
        positions@.len() * h.content().dims[1] <= usize::MAX,
        layer_fits(*c, i as int, lw.contents(), h.content().dims[1], ple.content().dims[1]),
        old(cache).memory().positions.len() == before + positions@.len(),
        layer_has_room(*c, i as int, lw.contents(), positions@.len(), before + positions@.len()),
        slots_fit(*c, old(cache).memory().kv, i as int, before, before + positions@.len()),
    ensures
        ({
            let f = layer_out(
                b.arithmetic(),
                *c,
                i as int,
                lw.contents(),
                Flow { h: h.content(), kv: old(cache).memory().kv },
                ple.content(),
                positions@,
                old(cache).memory().positions,
            );
            &&& r.content() == f.h
            &&& final(cache).memory() == Memory { kv: f.kv, ..old(cache).memory() }
            &&& slots_fit(*c, f.kv, i + 1, before, before + positions@.len())
        }),
        r.content().is_plain(),
        r.content().dims == h.content().dims,
{
    let eps = c.rms_norm_eps;
    let ghost a = b.arithmetic();
    let ghost l = lw.contents();
    let ghost width = h.content().dims[1];
    let t: usize = positions.len();
    proof {
        assert(h.content().dims =~= seq![t, width]);
        crate::backend::product_of_two(t, width);
    }
    let x = b.rms_norm(&h, Some(&lw.input_ln), eps);
    let attn = attention(c, b, lw, cache, i, &x, positions, Ghost(before), Ghost(width), Ghost(ple.content().dims[1]));
    let h = b.add_rms_norm(&h, &attn, &lw.post_attn_ln, eps, None);
    let x = b.rms_norm(&h, Some(&lw.pre_ffn_ln), eps);
    proof {
        assert(l.up_proj.dims =~= l.gate_proj.dims);
    }
    let g = b.linear_geglu(&x, &lw.gate_proj, &lw.up_proj);
    let ff = b.linear(&g, &lw.down_proj);
    let h = b.add_rms_norm(&h, &ff, &lw.post_ffn_ln, eps, None);
    let ls = match &lw.layer_scalar {
        Some(s) => Some(s),
        None => None,
    };
    let h = match (&lw.ple_gate, &lw.ple_proj) {
        (Some(gate), Some(proj)) => {
            let inj = b.linear_gelu_mul_cols(&h, gate, ple, i * c.hidden_size_per_layer_input);
            let inj = b.linear(&inj, proj);
            match &lw.ple_norm {
                Some(w) => {
                    return b.add_rms_norm(&h, &inj, w, eps, ls);
                },
                None => b.add(&h, &inj),
            }
        },
        _ => h,
    };
    match ls {
        Some(s) => b.scale_by_tensor(&h, s),
        None => h,
    }
}

// --- the model ---------------------------------------------------------------------------------

/// The weights before and after the layers, as a source has them.
pub open spec fn top_of<B: Backend, W: WeightSource<B>>(w: W) -> TopWeights<Content> {
    TopWeights {
        embed: w.held("language_model.embed_tokens.weight"@)->0,
        embed_per_layer: w.held("language_model.embed_tokens_per_layer.weight"@)->0,
        ple_proj: w.held("language_model.per_layer_model_projection.weight"@),
        ple_proj_norm: w.held("language_model.per_layer_projection_norm.weight"@),
        final_norm: w.held("language_model.norm.weight"@)->0,
        lm_head: w.held("lm_head.weight"@)->0,
    }
}

/// A layer's weight, as a source has it.
pub open spec fn part_of<B: Backend, W: WeightSource<B>>(w: W, i: int, part: Seq<char>) -> Option<Content> {
    w.held(crate::weights::layer_weight(i as nat, part))
}

/// A layer's weights, as a source has them; a layer that shares keys and
/// values needs none for them.
pub open spec fn layer_of<B: Backend, W: WeightSource<B>>(w: W, c: Gemma4Config, i: int) -> LayerWeights<Content> {
    let own = c.kv_source(i) == i;
    LayerWeights {
        input_ln: part_of(w, i, "input_layernorm.weight"@)->0,
        q_proj: part_of(w, i, "self_attn.q_proj.weight"@)->0,
        q_norm: part_of(w, i, "self_attn.q_norm.weight"@),
        k_proj: if own {
            part_of(w, i, "self_attn.k_proj.weight"@)
        } else {
            None
        },
        v_proj: if own {
            part_of(w, i, "self_attn.v_proj.weight"@)
        } else {
            None
        },
        k_norm: if own {
            part_of(w, i, "self_attn.k_norm.weight"@)
        } else {
            None
        },
        o_proj: part_of(w, i, "self_attn.o_proj.weight"@)->0,
        post_attn_ln: part_of(w, i, "post_attention_layernorm.weight"@)->0,
        pre_ffn_ln: part_of(w, i, "pre_feedforward_layernorm.weight"@)->0,
        gate_proj: part_of(w, i, "mlp.gate_proj.weight"@)->0,
        up_proj: part_of(w, i, "mlp.up_proj.weight"@)->0,
        down_proj: part_of(w, i, "mlp.down_proj.weight"@)->0,
        post_ffn_ln: part_of(w, i, "post_feedforward_layernorm.weight"@)->0,
        ple_gate: part_of(w, i, "per_layer_input_gate.weight"@),
        ple_proj: part_of(w, i, "per_layer_projection.weight"@),
        ple_norm: part_of(w, i, "post_per_layer_input_norm.weight"@),
        layer_scalar: part_of(w, i, "layer_scalar"@),
    }
}

/// Whether a source has the weights that no model can do without.
pub open spec fn has_top<B: Backend, W: WeightSource<B>>(w: W) -> bool {
    &&& w.held("language_model.embed_tokens.weight"@) is Some
    &&& w.held("language_model.embed_tokens_per_layer.weight"@) is Some
    &&& w.held("language_model.norm.weight"@) is Some
    &&& w.held("lm_head.weight"@) is Some
}

/// Whether a source has the weights that no layer can do without.
pub open spec fn has_layer<B: Backend, W: WeightSource<B>>(w: W, c: Gemma4Config, i: int) -> bool {
    &&& part_of(w, i, "input_layernorm.weight"@) is Some
    &&& part_of(w, i, "self_attn.q_proj.weight"@) is Some
    &&& part_of(w, i, "self_attn.o_proj.weight"@) is Some
    &&& part_of(w, i, "post_attention_layernorm.weight"@) is Some
    &&& part_of(w, i, "pre_feedforward_layernorm.weight"@) is Some
    &&& part_of(w, i, "mlp.gate_proj.weight"@) is Some
    &&& part_of(w, i, "mlp.up_proj.weight"@) is Some
    &&& part_of(w, i, "mlp.down_proj.weight"@) is Some
    &&& part_of(w, i, "post_feedforward_layernorm.weight"@) is Some
    &&& c.kv_source(i) == i ==> {
        &&& part_of(w, i, "self_attn.k_proj.weight"@) is Some
        &&& part_of(w, i, "self_attn.v_proj.weight"@) is Some
    }
}

/// Whether every weight a model may ask for can be loaded.
pub open spec fn answers_all<B: Backend, W: WeightSource<B>>(w: W, layers: nat) -> bool {
    forall|k: int|
        0 <= k < crate::weights::all_names(layers).len() ==> w.answers(#[trigger] crate::weights::all_names(layers)[k])
}

/// Whether two sources have the same weights.
pub open spec fn same_source<B: Backend, W: WeightSource<B>>(v: W, w: W) -> bool {
    &&& forall|n: Seq<char>| #[trigger] v.held(n) == w.held(n)
    &&& forall|n: Seq<char>| #[trigger] v.answers(n) == w.answers(n)
}

/// The weight of a name, if the source has it.
fn w_opt<B: Backend, W: WeightSource<B>>(source: &mut W, name: &str, Ghost(was): Ghost<W>) -> (r: Option<B::Tensor>)
    requires
        same_source(*old(source), was),
        was.answers(name@),
    ensures
        same_source(*final(source), was),
        crate::weights::content_of(r) == was.held(name@),
{
    source.get(name)
}

/// The weight of a name that the source has.
fn w<B: Backend, W: WeightSource<B>>(source: &mut W, name: &str, Ghost(was): Ghost<W>) -> (r: B::Tensor)
    requires
        same_source(*old(source), was),
        was.answers(name@),
        was.held(name@) is Some,
    ensures
        same_source(*final(source), was),
        Some(r.content()) == was.held(name@),
{
    match source.get(name) {
        Some(t) => t,
        None => unreached(),
    }
}

/// A weight of a layer, if the source has it.
fn part_opt<B: Backend, W: WeightSource<B>>(source: &mut W, i: usize, name: &str, Ghost(was): Ghost<W>) -> (r: Option<B::Tensor>)
    requires
        same_source(*old(source), was),
        was.answers(crate::weights::layer_weight(i as nat, name@)),
    ensures
        same_source(*final(source), was),
        crate::weights::content_of(r) == part_of(was, i as int, name@),
{
    let full = layer_weight_name(i, name);
    w_opt(source, full.as_str(), Ghost(was))
}

/// A weight of a layer that the source has.
fn part<B: Backend, W: WeightSource<B>>(source: &mut W, i: usize, name: &str, Ghost(was): Ghost<W>) -> (r: B::Tensor)
    requires
        same_source(*old(source), was),
        was.answers(crate::weights::layer_weight(i as nat, name@)),
        part_of(was, i as int, name@) is Some,
    ensures
        same_source(*final(source), was),
        Some(r.content()) == part_of(was, i as int, name@),
{
    let full = layer_weight_name(i, name);
    w(source, full.as_str(), Ghost(was))
}

/// A layer's names are among those a model may ask for.
proof fn lemma_named<B: Backend, W: WeightSource<B>>(w: W, layers: nat, i: int)
    requires
        0 <= i < layers,
        answers_all(w, layers),
    ensures
        forall|p: int|
            0 <= p < crate::weights::layer_parts().len() ==> w.answers(
                crate::weights::layer_weight(i as nat, #[trigger] crate::weights::layer_parts()[p]),
            ),
{
    let m = crate::weights::layer_parts().len() as int;
    crate::weights::names::lemma_layer_names(layers);
    assert forall|p: int| 0 <= p < m implies w.answers(
        crate::weights::layer_weight(i as nat, #[trigger] crate::weights::layer_parts()[p]),
    ) by {
        assert(m * i + p < m * layers && m * i >= 0) by (nonlinear_arith)
            requires
                0 <= i < layers,
                0 <= p < m,
        ;
        let names = crate::weights::layer_names(layers);
        assert(names[m * i + p] == crate::weights::layer_weight(i as nat, crate::weights::layer_parts()[p]));
        assert(crate::weights::all_names(layers)[4 + m * i + p] == names[m * i + p]);
    }
}

/// The model asks for listed names only: sources that agree on them give the
/// same weights.
pub proof fn listed_names_suffice<B: Backend, W: WeightSource<B>>(v: W, w: W, c: Gemma4Config, layers: nat, i: int)
    requires
        0 <= i < layers,
        forall|k: int|
            0 <= k < crate::weights::all_names(layers).len() ==> v.held(#[trigger] crate::weights::all_names(layers)[k])
                == w.held(crate::weights::all_names(layers)[k]),
    ensures
        top_of(v) == top_of(w),
        has_top(v) == has_top(w),
        layer_of(v, c, i) == layer_of(w, c, i),
        has_layer(v, c, i) == has_layer(w, c, i),
{
    let names = crate::weights::all_names(layers);
    let own = crate::weights::layer_names(layers);
    let m = crate::weights::layer_parts().len() as int;
    crate::weights::names::lemma_layer_names(layers);
    assert(v.held(names[0]) == w.held(names[0]));
    assert(v.held(names[1]) == w.held(names[1]));
    assert(v.held(names[2]) == w.held(names[2]));
    assert(v.held(names[3]) == w.held(names[3]));
    assert(v.held(names[4 + own.len() as int]) == w.held(names[4 + own.len() as int]));
    assert(v.held(names[5 + own.len() as int]) == w.held(names[5 + own.len() as int]));
    assert forall|p: int| 0 <= p < m implies part_of(v, i, #[trigger] crate::weights::layer_parts()[p]) == part_of(
        w,
        i,
        crate::weights::layer_parts()[p],
    ) by {
        assert(m * i + p < m * layers && m * i >= 0) by (nonlinear_arith)
            requires
                0 <= i < layers,
                0 <= p < m,
        ;
        assert(own[m * i + p] == crate::weights::layer_weight(i as nat, crate::weights::layer_parts()[p]));
        assert(names[4 + m * i + p] == own[m * i + p]);
    }
    let parts = crate::weights::layer_parts();
    assert(part_of(v, i, parts[0]) == part_of(w, i, parts[0]));
    assert(part_of(v, i, parts[1]) == part_of(w, i, parts[1]));
    assert(part_of(v, i, parts[2]) == part_of(w, i, parts[2]));
    assert(part_of(v, i, parts[3]) == part_of(w, i, parts[3]));
    assert(part_of(v, i, parts[4]) == part_of(w, i, parts[4]));
    assert(part_of(v, i, parts[5]) == part_of(w, i, parts[5]));
    assert(part_of(v, i, parts[6]) == part_of(w, i, parts[6]));
    assert(part_of(v, i, parts[7]) == part_of(w, i, parts[7]));
    assert(part_of(v, i, parts[8]) == part_of(w, i, parts[8]));
    assert(part_of(v, i, parts[9]) == part_of(w, i, parts[9]));
    assert(part_of(v, i, parts[10]) == part_of(w, i, parts[10]));
    assert(part_of(v, i, parts[11]) == part_of(w, i, parts[11]));
    assert(part_of(v, i, parts[12]) == part_of(w, i, parts[12]));
    assert(part_of(v, i, parts[13]) == part_of(w, i, parts[13]));
    assert(part_of(v, i, parts[14]) == part_of(w, i, parts[14]));
    assert(part_of(v, i, parts[15]) == part_of(w, i, parts[15]));
    assert(part_of(v, i, parts[16]) == part_of(w, i, parts[16]));
}

pub struct Gemma4Model<B: Backend, W: WeightSource<B>> {
    pub config: Arc<Gemma4Config>,
    pub backend: Arc<B>,
    pub weights: W,
    pub cache: KVCache<B>,
    pub layers: Vec<Option<LayerWeights<B::Tensor>>>,
    pub top: Option<TopWeights<B::Tensor>>,
}

impl<B: Backend, W: WeightSource<B>> Gemma4Model<B, W> {
    /// The configuration with what the weight source has.
    pub open spec fn net(self) -> Net {
        Net {
            config: *self.config,
            top: top_of(self.weights),
            layers: Seq::new(
                self.config.num_hidden_layers as nat,
                |i: int| layer_of(self.weights, *self.config, i),
            ),
        }
    }

    /// The weights kept so far are the source's, and there is a slot and a
    /// place for weights for every layer.
    pub open spec fn wf(self) -> bool {
        &&& self.config.wf()
        &&& self.cache.slots@.len() == self.config.num_hidden_layers
        &&& self.layers@.len() == self.config.num_hidden_layers
        &&& forall|i: int|
            0 <= i < self.layers@.len() ==> self.kept(i)
        &&& self.top matches Some(t) ==> t.contents() == self.net().top
    }

    /// A layer's weights, if kept, are the source's.
    pub open spec fn kept(self, i: int) -> bool {
        self.layers@[i] matches Some(l) ==> l.contents() == layer_of(self.weights, *self.config, i)
    }

    /// Whether the source has what the model needs and can load it.
    pub open spec fn is_complete(self) -> bool {
        &&& answers_all(self.weights, self.config.num_hidden_layers as nat)
        &&& has_top(self.weights)
        &&& forall|i: int| 0 <= i < self.config.num_hidden_layers ==> #[trigger] has_layer(self.weights, *self.config, i)
    }

    /// Nothing but the weights kept, and what the source has loaded, has
    /// changed.
    pub open spec fn same_but_kept(self, other: Self) -> bool {
        &&& self.config == other.config
        &&& self.backend == other.backend
        &&& self.cache == other.cache
        &&& same_source(self.weights, other.weights)
    }

    pub fn new(config: Arc<Gemma4Config>, backend: Arc<B>, weights: W) -> (r: Self)
        requires
            config.wf(),
        ensures
            r.wf(),
            r.config == config,
            r.backend == backend,
            r.weights == weights,
            r.cache.memory() == Memory::blank(config.num_hidden_layers as nat),
            r.net().owns(r.cache.memory()),
    {
        let n: usize = config.num_hidden_layers;
        let cache = KVCache::new(n);
        let mut layers: Vec<Option<LayerWeights<B::Tensor>>> = Vec::new();
        let mut i: usize = 0;
        while i < n
            invariant
                i <= n,
                layers@.len() == i,
                forall|k: int| 0 <= k < i ==> #[trigger] layers@[k] is None,
            decreases n - i,
        {
            layers.push(None);
            i = i + 1;
        }
        let r = Gemma4Model { config, backend, weights, cache, layers, top: None };
        proof {
            assert(r.cache.memory().kv.len() == r.cache.slots@.len());
        }
        r
    }

    /// What running tokens makes of a model, and the logits that come of it.
    pub open spec fn ran(self, after: Self, ids: Seq<u32>, positions: Seq<u32>, r: Seq<F32>) -> bool {
        let (net, a, m) = (self.net(), self.backend.arithmetic(), self.cache.memory());
        &&& r == net.logits(a, m, ids, positions)
        &&& r.len() == net.top.lm_head.dims[0]
        &&& after.cache.memory() == net.remembered(a, m, ids, positions)
        &&& after.net() == net
        &&& after.config == self.config
        &&& after.backend == self.backend
    }

    /// What forgetting all tokens makes of a model.
    pub open spec fn forgot(self, after: Self) -> bool {
        &&& after.cache.memory() == Memory::blank(self.config.num_hidden_layers as nat)
        &&& after.net() == self.net()
        &&& after.config == self.config
        &&& after.backend == self.backend
    }

    /// Forget all tokens.
    pub fn reset(&mut self)
        requires
            old(self).wf(),
        ensures
            final(self).wf(),
            old(self).forgot(*final(self)),
            final(self).net().owns(final(self).cache.memory()),
            final(self).weights == old(self).weights,
            final(self).layers == old(self).layers,
            final(self).top == old(self).top,
    {
        proof {
            assert(self.cache.memory().kv.len() == self.cache.slots@.len());
        }
        self.cache.reset(&self.backend);
        proof {
            assert(self.cache.memory().kv.len() == self.cache.slots@.len());
            assert forall|i: int| 0 <= i < self.layers@.len() implies self.kept(i) by {
                assert(old(self).kept(i));
            }
        }
    }

    /// Fetch the weights before and after the layers.
    fn resolve_top(&mut self)
        requires
            old(self).wf(),
            old(self).is_complete(),
        ensures
            final(self).wf(),
            final(self).same_but_kept(*old(self)),
            final(self).layers == old(self).layers,
            final(self).top is Some,
    {
        if self.top.is_some() {
            return;
        }
        let ghost was = self.weights;
        proof {
            let names = crate::weights::all_names(self.config.num_hidden_layers as nat);
            let n = names.len() as int;
            assert(names[0] == "language_model.embed_tokens.weight"@);
            assert(names[1] == "language_model.embed_tokens_per_layer.weight"@);
            assert(names[2] == "language_model.per_layer_model_projection.weight"@);
            assert(names[3] == "language_model.per_layer_projection_norm.weight"@);
            assert(names[n - 2] == "language_model.norm.weight"@);
            assert(names[n - 1] == "lm_head.weight"@);
        }
        let embed = w(&mut self.weights, "language_model.embed_tokens.weight", Ghost(was));
        let embed_per_layer = w(&mut self.weights, "language_model.embed_tokens_per_layer.weight", Ghost(was));
        let ple_proj = w_opt(&mut self.weights, "language_model.per_layer_model_projection.weight", Ghost(was));
        let ple_proj_norm = w_opt(&mut self.weights, "language_model.per_layer_projection_norm.weight", Ghost(was));
        let final_norm = w(&mut self.weights, "language_model.norm.weight", Ghost(was));
        let lm_head = w(&mut self.weights, "lm_head.weight", Ghost(was));
        self.top = Some(TopWeights { embed, embed_per_layer, ple_proj, ple_proj_norm, final_norm, lm_head });
        proof {
            assert(self.top->0.contents() =~= top_of(was));
            assert forall|i: int| 0 <= i < self.layers@.len() implies self.kept(i) by {
                assert(old(self).kept(i));
                assert(layer_of(self.weights, *self.config, i) =~= layer_of(was, *self.config, i));
            }
        }
    }

    /// Fetch the weights of a layer.
    fn resolve_layer(&mut self, i: usize)
        requires
            old(self).wf(),
            old(self).is_complete(),
            i < old(self).config.num_hidden_layers,
        ensures
            final(self).wf(),
            final(self).same_but_kept(*old(self)),
            final(self).top == old(self).top,
            final(self).layers@ == old(self).layers@.update(i as int, final(self).layers@[i as int]),
            final(self).layers@[i as int] is Some,
    {
        if self.layers[i].is_some() {
            return;
        }
        let ghost was = self.weights;
        let ghost c = self.net().config;
        proof {
            let parts = crate::weights::layer_parts();
            lemma_named(was, self.config.num_hidden_layers as nat, i as int);
            assert(has_layer(was, c, i as int));
            assert(parts[0] == "input_layernorm.weight"@);
            assert(parts[1] == "self_attn.q_proj.weight"@);
            assert(parts[2] == "self_attn.q_norm.weight"@);
            assert(parts[3] == "self_attn.k_proj.weight"@);
            assert(parts[4] == "self_attn.k_norm.weight"@);
            assert(parts[5] == "self_attn.v_proj.weight"@);
            assert(parts[6] == "self_attn.o_proj.weight"@);
            assert(parts[7] == "post_attention_layernorm.weight"@);
            assert(parts[8] == "pre_feedforward_layernorm.weight"@);
            assert(parts[9] == "mlp.gate_proj.weight"@);
            assert(parts[10] == "mlp.up_proj.weight"@);
            assert(parts[11] == "mlp.down_proj.weight"@);
            assert(parts[12] == "post_feedforward_layernorm.weight"@);
            assert(parts[13] == "per_layer_input_gate.weight"@);
            assert(parts[14] == "per_layer_projection.weight"@);
            assert(parts[15] == "post_per_layer_input_norm.weight"@);
            assert(parts[16] == "layer_scalar"@);
        }
        let own = self.config.kv_source_layer(i) == i;
        let input_ln = part(&mut self.weights, i, "input_layernorm.weight", Ghost(was));
        let q_proj = part(&mut self.weights, i, "self_attn.q_proj.weight", Ghost(was));
        let q_norm = part_opt(&mut self.weights, i, "self_attn.q_norm.weight", Ghost(was));
        let (k_proj, v_proj, k_norm) = if own {
            let k = part(&mut self.weights, i, "self_attn.k_proj.weight", Ghost(was));
            let v = part(&mut self.weights, i, "self_attn.v_proj.weight", Ghost(was));
            let n = part_opt(&mut self.weights, i, "self_attn.k_norm.weight", Ghost(was));
            (Some(k), Some(v), n)
        } else {
            (None, None, None)
        };
        let o_proj = part(&mut self.weights, i, "self_attn.o_proj.weight", Ghost(was));
        let post_attn_ln = part(&mut self.weights, i, "post_attention_layernorm.weight", Ghost(was));
        let pre_ffn_ln = part(&mut self.weights, i, "pre_feedforward_layernorm.weight", Ghost(was));
        let gate_proj = part(&mut self.weights, i, "mlp.gate_proj.weight", Ghost(was));
        let up_proj = part(&mut self.weights, i, "mlp.up_proj.weight", Ghost(was));
        let down_proj = part(&mut self.weights, i, "mlp.down_proj.weight", Ghost(was));
        let post_ffn_ln = part(&mut self.weights, i, "post_feedforward_layernorm.weight", Ghost(was));
        let ple_gate = part_opt(&mut self.weights, i, "per_layer_input_gate.weight", Ghost(was));
        let ple_proj = part_opt(&mut self.weights, i, "per_layer_projection.weight", Ghost(was));
        let ple_norm = part_opt(&mut self.weights, i, "post_per_layer_input_norm.weight", Ghost(was));
        let layer_scalar = part_opt(&mut self.weights, i, "layer_scalar", Ghost(was));
        let lw = LayerWeights {
            input_ln,
            q_proj,
            q_norm,
            k_proj,
            v_proj,
            k_norm,
            o_proj,
            post_attn_ln,
            pre_ffn_ln,
            gate_proj,
            up_proj,
            down_proj,
            post_ffn_ln,
            ple_gate,
            ple_proj,
            ple_norm,
            layer_scalar,
        };
        self.layers.set(i, Some(lw));
        proof {
            assert(lw.contents() =~= layer_of(was, c, i as int));
            assert(top_of(self.weights) =~= top_of(was));
            assert forall|k: int| 0 <= k < self.layers@.len() implies self.kept(k) by {
                assert(old(self).kept(k));
                assert(layer_of(self.weights, c, k) =~= layer_of(was, c, k));
            }
        }
    }

    proof fn lemma_same_net(self, other: Self)
        requires
            self.same_but_kept(other),
        ensures
            self.net() == other.net(),
            other.is_complete() ==> self.is_complete(),
    {
        assert(self.net().top =~= other.net().top);
        assert forall|i: int| 0 <= i < self.config.num_hidden_layers implies #[trigger] self.net().layers[i]
            == other.net().layers[i] by {
            assert(layer_of(self.weights, self.net().config, i) =~= layer_of(other.weights, self.net().config, i));
        }
        assert(self.net().layers =~= other.net().layers);
        if other.is_complete() {
            assert forall|i: int| 0 <= i < self.config.num_hidden_layers implies #[trigger] has_layer(
                self.weights,
                self.net().config,
                i,
            ) by {
                assert(has_layer(other.weights, self.net().config, i));
            }
        }
    }

    /// Fetch all weights.
    fn resolve(&mut self)
        requires
            old(self).wf(),
            old(self).is_complete(),
        ensures
            final(self).wf(),
            final(self).is_complete(),
            final(self).net() == old(self).net(),
            final(self).same_but_kept(*old(self)),
            final(self).top is Some,
            forall|i: int| 0 <= i < final(self).layers@.len() ==> #[trigger] final(self).layers@[i] is Some,
    {
        self.resolve_top();
        proof {
            self.lemma_same_net(*old(self));
        }
        let n: usize = self.config.num_hidden_layers;
        let mut i: usize = 0;
        while i < n
            invariant
                self.wf(),
                self.is_complete(),
                self.same_but_kept(*old(self)),
                self.net() == old(self).net(),
                old(self).is_complete(),
                self.top is Some,
                n == self.config.num_hidden_layers,
                i <= n,
                forall|k: int| 0 <= k < i ==> #[trigger] self.layers@[k] is Some,
            decreases n - i,
        {
            let ghost before = *self;
            self.resolve_layer(i);
            proof {
                self.lemma_same_net(before);
            }
            i = i + 1;
        }
    }

    /// The per-layer embeddings of tokens, beside their embeddings `h`.
    fn embed_per_layer(&self, ids: &[u32], h: &B::Tensor) -> (r: B::Tensor)
        requires
            self.wf(),
            self.top is Some,
            self.net().fits(),
            self.net().takes(self.cache.memory(), ids@, ids@),
            h.content() == self.net().embedding(self.backend.arithmetic(), ids@),
            h.content().is_plain(),
        ensures
            r.content() == self.net().per_layer(self.backend.arithmetic(), ids@),
            r.content().is_plain(),
            r.content().dims == seq![ids@.len() as usize, self.net().per_layer_width()],
    {
        let b: &B = &self.backend;
        let t: usize = ids.len();
        let dple: usize = self.config.hidden_size_per_layer_input;
        let l: usize = self.config.num_hidden_layers;
        match &self.top {
            Some(top) => {
                let emb = b.embed_rows(&top.embed_per_layer, ids, F32::from_u64(dple as u64).root());
                match (&top.ple_proj, &top.ple_proj_norm) {
                    (Some(proj_w), Some(proj_norm)) => {
                        proof {
                            lemma_heads(t, l, dple);
                            crate::backend::lemma_flat_heads(t, l, dple);
                            crate::backend::product_of_three(t, l, dple);
                            crate::backend::product_of_two((t * l) as usize, dple);
                        }
                        let p = b.linear(h, proj_w);
                        let p = b.reshape(&p, &[t * l, dple]);
                        let p = b.rms_norm(&p, Some(proj_norm), self.config.rms_norm_eps);
                        let p = b.reshape(&p, &[t, l * dple]);
                        b.scale(&b.add(&p, &emb), F32(HALF_ROOT))
                    },
                    _ => emb,
                }
            },
            None => unreached(),
        }
    }

    /// Run tokens at their positions, after those that went before, and return
    /// the logits for the token that follows the last.
    pub fn forward(&mut self, ids: &[u32], positions: &[u32]) -> (r: Vec<F32>)
        requires
            old(self).wf(),
            old(self).is_complete(),
            old(self).net().fits(),
            old(self).net().owns(old(self).cache.memory()),
            old(self).net().takes(old(self).cache.memory(), ids@, positions@),
        ensures
            old(self).ran(*final(self), ids@, positions@, r@),
            final(self).net().owns(final(self).cache.memory()),
            final(self).wf(),
            final(self).is_complete(),
            same_source(final(self).weights, old(self).weights),
            final(self).cache.dead@.len() == 0,
            exists|keep: &[B::Tensor], gone: Vec<B::Tensor>| #[trigger]
                call_ensures(B::end_frame, (&*old(self).backend, keep, gone), ()) && crate::kvcache::contents(keep@)
                    == crate::kvcache::live(final(self).cache.memory().kv),
    {
        self.resolve();
        let ghost resolved = *self;
        let c = self.config.clone();
        let b = self.backend.clone();
        let t: usize = ids.len();
        let ghost net = self.net();
        let ghost a = b.arithmetic();
        let ghost m = self.cache.memory();
        let ghost before = m.positions.len();
        let ghost k_pos = m.positions + positions@;
        proof {
            crate::backend::product_of_two(t, net.width());
        }
        b.begin_frame();
        let h0 = match &self.top {
            Some(top) => b.embed_rows(&top.embed, ids, F32::from_u64(c.hidden_size as u64).root()),
            None => unreached(),
        };
        let ple = self.embed_per_layer(ids, &h0);
        let ghost start = Flow { h: h0.content(), kv: m.kv };
        self.cache.push_positions(positions);
        let n: usize = c.num_hidden_layers;
        proof {
            assert forall|k: int| 0 <= k < self.layers@.len() implies self.kept(k) by {
                assert(resolved.kept(k));
            }
        }
        let mut h = h0;
        let mut i: usize = 0;
        while i < n
            invariant
                net.fits(),
                net == self.net(),
                *c == net.config,
                c == self.config,
                b == self.backend,
                a == b.arithmetic(),
                n == net.layers.len(),
                n == c.num_hidden_layers,
                t == positions@.len(),
                t > 0,
                net.has_room(before, t as nat),
                self.wf(),
                self.is_complete(),
                resolved.wf(),
                self.config == resolved.config,
                self.backend == resolved.backend,
                self.weights == resolved.weights,
                self.layers == resolved.layers,
                self.top == resolved.top,
                self.top is Some,
                forall|k: int| 0 <= k < self.layers@.len() ==> #[trigger] self.layers@[k] is Some,
                k_pos.len() == before + t as nat,
                self.cache.memory().positions == k_pos,
                slots_fit(*c, self.cache.memory().kv, i as int, before, before + t as nat),
                ple.content().is_plain(),
                ple.content().dims == seq![t, net.per_layer_width()],
                h.content().is_plain(),
                h.content().dims == seq![t, net.width()],
                (Flow { h: h.content(), kv: self.cache.memory().kv }) == net.through(
                    a,
                    i as int,
                    start,
                    ple.content(),
                    positions@,
                    k_pos,
                ),
                i <= n,
            decreases n - i,
        {
            proof {
                assert(self.kept(i as int));
                assert(net.layers[i as int] == layer_of(self.weights, net.config, i as int));
                assert(layer_fits(net.config, i as int, net.layers[i as int], net.width(), net.per_layer_width()));
                assert(layer_has_room(net.config, i as int, net.layers[i as int], t as nat, before + t as nat));
            }
            match &self.layers[i] {
                Some(lw) => {
                    h = decoder_layer(&c, &*b, lw, &mut self.cache, i, h, positions, &ple, Ghost(before));
                },
                None => unreached(),
            }
            proof {
                assert(self.cache.memory().kv.len() == self.cache.slots@.len());
                assert forall|k: int| 0 <= k < self.layers@.len() implies self.kept(k) by {
                    assert(resolved.kept(k));
                }
            }
            i = i + 1;
        }
        proof {
            crate::backend::product_of_two(t, net.width());
        }
        let logits = match &self.top {
            Some(top) => {
                let h = b.rms_norm(&h, Some(&top.final_norm), c.rms_norm_eps);
                let last = b.slice_rows(&h, t - 1, 1);
                b.linear(&last, &top.lm_head)
            },
            None => unreached(),
        };
        proof {
            crate::backend::product_of_two(1, net.top.lm_head.dims[0]);
        }
        let out = b.readback(&logits);
        let keep = self.cache.live_tensors();
        let dead = self.cache.take_dead();
        let ghost gone = dead;
        let kept = keep.as_slice();
        b.end_frame(kept, dead);
        proof {
            assert(call_ensures(B::end_frame, (&*old(self).backend, kept, gone), ()));
            assert(self.cache.memory().kv.len() == self.cache.slots@.len());
            assert forall|k: int| 0 <= k < self.layers@.len() implies self.kept(k) by {
                assert(resolved.kept(k));
            }
        }
        out
    }

    /// The first required weight that the source lacks.
    pub fn missing_weight(&mut self) -> (r: Option<String>)
        requires
            old(self).wf(),
            answers_all(old(self).weights, old(self).config.num_hidden_layers as nat),
        ensures
            r is None <==> old(self).is_complete(),
            r matches Some(name) ==> is_first_missing(
                old(self).weights,
                required_names(*old(self).config, old(self).config.num_hidden_layers as nat),
                name@,
            ),
            final(self).wf(),
            final(self).same_but_kept(*old(self)),
            final(self).net() == old(self).net(),
    {
        let ghost was = self.weights;
        let ghost c = self.net().config;
        let n: usize = self.config.num_hidden_layers;
        proof {
            let names = crate::weights::all_names(n as nat);
            let k = names.len() as int;
            assert(names[0] == "language_model.embed_tokens.weight"@);
            assert(names[1] == "language_model.embed_tokens_per_layer.weight"@);
            assert(names[k - 2] == "language_model.norm.weight"@);
            assert(names[k - 1] == "lm_head.weight"@);
        }
        let mut top: Vec<String> = Vec::new();
        top.push("language_model.embed_tokens.weight".to_owned());
        top.push("language_model.embed_tokens_per_layer.weight".to_owned());
        top.push("language_model.norm.weight".to_owned());
        top.push("lm_head.weight".to_owned());
        let found = first_missing(&mut self.weights, &top, Ghost(was));
        proof {
            self.lemma_same_net(*old(self));
            self.lemma_still_kept(*old(self));
        }
        proof {
            assert(crate::weights::strings(top@) =~= required_names(c, 0));
        }
        if found.is_some() {
            proof {
                let first = required_names(c, 0);
                let after = lemma_required_prefix(c, 0, n as nat);
                lemma_first_missing(was, Seq::empty(), first, after, found->0@);
                assert(Seq::<Seq<char>>::empty() + first =~= first);
                let k = choose|k: int|
                    0 <= k < first.len() && #[trigger] first[k] == found->0@ && was.held(found->0@) is None;
                assert(!has_top(was));
            }
            return found;
        }
        proof {
            assert forall|j: int| 0 <= j < 4 implies was.held(#[trigger] required_names(c, 0)[j]) is Some by {
                assert(required_names(c, 0)[j] == top@[j]@);
            }
            assert(top@[0]@ == "language_model.embed_tokens.weight"@);
            assert(top@[1]@ == "language_model.embed_tokens_per_layer.weight"@);
            assert(top@[2]@ == "language_model.norm.weight"@);
            assert(top@[3]@ == "lm_head.weight"@);
        }
        let mut i: usize = 0;
        while i < n
            invariant
                self.wf(),
                self.same_but_kept(*old(self)),
                self.net() == old(self).net(),
                self.layers == old(self).layers,
                self.top == old(self).top,
                old(self).wf(),
                was == old(self).weights,
                c == old(self).net().config,
                n == c.num_hidden_layers,
                answers_all(was, n as nat),
                has_top(was),
                i <= n,
                forall|k: int| 0 <= k < i ==> #[trigger] has_layer(was, c, k),
                forall|k: int|
                    0 <= k < required_names(c, i as nat).len() ==> was.held(#[trigger] required_names(c, i as nat)[k]) is Some,
            decreases n - i,
        {
            let own = self.config.kv_source_layer(i) == i;
            proof {
                lemma_named(was, n as nat, i as int);
            }
            let names = required_parts(i, own);
            proof {
                assert forall|k: int| 0 <= k < names@.len() implies was.answers(#[trigger] names@[k]@) by {
                    assert(crate::weights::strings(names@).len() == names@.len());
                    lemma_required_is_part(own, k);
                    assert(crate::weights::strings(names@)[k] == names@[k]@);
                    assert(names@[k]@ == crate::weights::layer_weight(i as nat, required(own)[k]));
                }
            }
            let found = first_missing(&mut self.weights, &names, Ghost(was));
            proof {
                self.lemma_same_net(*old(self));
                self.lemma_still_kept(*old(self));
                lemma_required(was, c, i as int, own, crate::weights::strings(names@));
            }
            let ghost mine = crate::weights::strings(names@);
            proof {
                assert(mine == required_of(c, i as nat));
            }
            if found.is_some() {
                proof {
                    let k = choose|k: int| 0 <= k < mine.len() && #[trigger] mine[k] == found->0@ && was.held(found->0@) is None;
                    assert(was.held(mine[k]) is None);
                    let after = lemma_required_prefix(c, (i + 1) as nat, n as nat);
                    lemma_first_missing(was, required_names(c, i as nat), mine, after, found->0@);
                }
                return found;
            }
            proof {
                assert forall|k: int| 0 <= k < names@.len() implies was.held(
                    #[trigger] crate::weights::strings(names@)[k],
                ) is Some by {
                    assert(was.held(names@[k]@) is Some);
                }
                let next = required_names(c, (i + 1) as nat);
                assert forall|k: int| 0 <= k < next.len() implies was.held(#[trigger] next[k]) is Some by {
                    let m = required_names(c, i as nat).len() as int;
                    if k < m {
                        assert(next[k] == required_names(c, i as nat)[k]);
                    } else {
                        assert(next[k] == mine[k - m]);
                    }
                }
            }
            i = i + 1;
        }
        None
    }

    proof fn lemma_still_kept(self, other: Self)
        requires
            self.same_but_kept(other),
            self.layers == other.layers,
            self.top == other.top,
            other.wf(),
        ensures
            self.wf(),
    {
        self.lemma_same_net(other);
        assert forall|k: int| 0 <= k < self.layers@.len() implies self.kept(k) by {
            assert(other.kept(k));
            assert(self.net().layers[k] == other.net().layers[k]);
        }
    }
}

/// The parts that a layer cannot do without.
pub open spec fn required(own: bool) -> Seq<Seq<char>> {
    seq!["input_layernorm.weight"@, "self_attn.q_proj.weight"@] + (if own {
        seq!["self_attn.k_proj.weight"@, "self_attn.v_proj.weight"@]
    } else {
        Seq::empty()
    }) + seq![
        "self_attn.o_proj.weight"@,
        "post_attention_layernorm.weight"@,
        "pre_feedforward_layernorm.weight"@,
        "mlp.gate_proj.weight"@,
        "mlp.up_proj.weight"@,
        "mlp.down_proj.weight"@,
        "post_feedforward_layernorm.weight"@,
    ]
}

/// Names of the weights that a layer cannot do without.
pub open spec fn required_of(c: Gemma4Config, i: nat) -> Seq<Seq<char>> {
    required(c.kv_source(i as int) == i).map_values(|p: Seq<char>| crate::weights::layer_weight(i, p))
}

/// Names of the weights that a model of `n` layers cannot do without, in the
/// order in which it asks for them.
pub open spec fn required_names(c: Gemma4Config, n: nat) -> Seq<Seq<char>>
    decreases n,
{
    if n == 0 {
        seq![
            "language_model.embed_tokens.weight"@,
            "language_model.embed_tokens_per_layer.weight"@,
            "language_model.norm.weight"@,
            "lm_head.weight"@,
        ]
    } else {
        required_names(c, (n - 1) as nat) + required_of(c, (n - 1) as nat)
    }
}

/// Whether a name is the first of some that a source lacks.
pub open spec fn is_first_missing<B: Backend, W: WeightSource<B>>(w: W, names: Seq<Seq<char>>, name: Seq<char>) -> bool {
    exists|k: int|
        0 <= k < names.len() && #[trigger] names[k] == name && w.held(name) is None && forall|j: int|
            0 <= j < k ==> w.held(#[trigger] names[j]) is Some
}

/// What is first missing of some names is so of those and more after them, and
/// of names that are all there and those after them.
proof fn lemma_first_missing<B: Backend, W: WeightSource<B>>(
    w: W,
    before: Seq<Seq<char>>,
    names: Seq<Seq<char>>,
    after: Seq<Seq<char>>,
    name: Seq<char>,
)
    requires
        forall|j: int| 0 <= j < before.len() ==> w.held(#[trigger] before[j]) is Some,
        is_first_missing(w, names, name),
    ensures
        is_first_missing(w, before + names + after, name),
{
    let k = choose|k: int|
        0 <= k < names.len() && #[trigger] names[k] == name && w.held(name) is None && forall|j: int|
            0 <= j < k ==> w.held(#[trigger] names[j]) is Some;
    let all = before + names + after;
    let at = before.len() + k;
    assert(all[at] == name);
    assert forall|j: int| 0 <= j < at implies w.held(#[trigger] all[j]) is Some by {
        if j < before.len() {
            assert(all[j] == before[j]);
        } else {
            assert(all[j] == names[j - before.len()]);
        }
    }
}

/// The names for fewer layers come first.
proof fn lemma_required_prefix(c: Gemma4Config, m: nat, n: nat) -> (after: Seq<Seq<char>>)
    requires
        m <= n,
    ensures
        required_names(c, n) == required_names(c, m) + after,
    decreases n,
{
    if m == n {
        assert(required_names(c, n) =~= required_names(c, m) + Seq::empty());
        Seq::empty()
    } else {
        let a = lemma_required_prefix(c, m, (n - 1) as nat);
        let after = a + required_of(c, (n - 1) as nat);
        assert(required_names(c, n) =~= required_names(c, m) + after);
        after
    }
}

proof fn lemma_required_is_part(own: bool, k: int)
    requires
        0 <= k < required(own).len(),
    ensures
        exists|p: int|
            0 <= p < crate::weights::layer_parts().len() && required(own)[k] == #[trigger] crate::weights::layer_parts()[p],
{
    let parts = crate::weights::layer_parts();
    let p: int = if k < 2 {
        k
    } else if own && k == 2 {
        3
    } else if own && k == 3 {
        5
    } else if own {
        k + 2
    } else {
        k + 4
    };
    assert(required(own)[k] == parts[p]);
}

proof fn lemma_required<B: Backend, W: WeightSource<B>>(w: W, c: Gemma4Config, i: int, own: bool, names: Seq<Seq<char>>)
    requires
        0 <= i,
        own == (c.kv_source(i) == i),
        names == required(own).map_values(|p: Seq<char>| crate::weights::layer_weight(i as nat, p)),
    ensures
        has_layer(w, c, i) <==> forall|k: int| 0 <= k < names.len() ==> w.held(#[trigger] names[k]) is Some,
{
    let r = required(own);
    let d: int = if own {
        2
    } else {
        0
    };
    assert forall|k: int| 0 <= k < names.len() implies #[trigger] names[k] == crate::weights::layer_weight(i as nat, r[k]) by {}
    assert(r[0] == "input_layernorm.weight"@);
    assert(r[1] == "self_attn.q_proj.weight"@);
    assert(r[d + 2] == "self_attn.o_proj.weight"@);
    assert(r[d + 3] == "post_attention_layernorm.weight"@);
    assert(r[d + 4] == "pre_feedforward_layernorm.weight"@);
    assert(r[d + 5] == "mlp.gate_proj.weight"@);
    assert(r[d + 6] == "mlp.up_proj.weight"@);
    assert(r[d + 7] == "mlp.down_proj.weight"@);
    assert(r[d + 8] == "post_feedforward_layernorm.weight"@);
    assert(names[0] == crate::weights::layer_weight(i as nat, r[0]));
    assert(names[1] == crate::weights::layer_weight(i as nat, r[1]));
    if own {
        assert(r[2] == "self_attn.k_proj.weight"@);
        assert(r[3] == "self_attn.v_proj.weight"@);
        assert(names[2] == crate::weights::layer_weight(i as nat, r[2]));
        assert(names[3] == crate::weights::layer_weight(i as nat, r[3]));
    }
    assert(names[d + 2] == crate::weights::layer_weight(i as nat, r[d + 2]));
    assert(names[d + 3] == crate::weights::layer_weight(i as nat, r[d + 3]));
    assert(names[d + 4] == crate::weights::layer_weight(i as nat, r[d + 4]));
    assert(names[d + 5] == crate::weights::layer_weight(i as nat, r[d + 5]));
    assert(names[d + 6] == crate::weights::layer_weight(i as nat, r[d + 6]));
    assert(names[d + 7] == crate::weights::layer_weight(i as nat, r[d + 7]));
    assert(names[d + 8] == crate::weights::layer_weight(i as nat, r[d + 8]));
}

/// Names of the weights that a layer cannot do without.
fn required_parts(i: usize, own: bool) -> (r: Vec<String>)
    ensures
        crate::weights::strings(r@) == required(own).map_values(
            |p: Seq<char>| crate::weights::layer_weight(i as nat, p),
        ),
{
    let mut v: Vec<String> = Vec::new();
    v.push(layer_weight_name(i, "input_layernorm.weight"));
    v.push(layer_weight_name(i, "self_attn.q_proj.weight"));
    if own {
        v.push(layer_weight_name(i, "self_attn.k_proj.weight"));
        v.push(layer_weight_name(i, "self_attn.v_proj.weight"));
    }
    v.push(layer_weight_name(i, "self_attn.o_proj.weight"));
    v.push(layer_weight_name(i, "post_attention_layernorm.weight"));
    v.push(layer_weight_name(i, "pre_feedforward_layernorm.weight"));
    v.push(layer_weight_name(i, "mlp.gate_proj.weight"));
    v.push(layer_weight_name(i, "mlp.up_proj.weight"));
    v.push(layer_weight_name(i, "mlp.down_proj.weight"));
    v.push(layer_weight_name(i, "post_feedforward_layernorm.weight"));
    proof {
        assert(crate::weights::strings(v@) =~= required(own).map_values(
            |p: Seq<char>| crate::weights::layer_weight(i as nat, p),
        ));
    }
    v
}

/// The first of some names that a source lacks.
fn first_missing<B: Backend, W: WeightSource<B>>(source: &mut W, names: &Vec<String>, Ghost(was): Ghost<W>) -> (r: Option<String>)
    requires
        same_source(*old(source), was),
        forall|k: int| 0 <= k < names@.len() ==> was.answers(#[trigger] names@[k]@),
    ensures
        same_source(*final(source), was),
        match r {
            Some(name) => is_first_missing(was, crate::weights::strings(names@), name@),
            None => forall|k: int| 0 <= k < names@.len() ==> was.held(#[trigger] names@[k]@) is Some,
        },
{
    let len: usize = names.len();
    let mut i: usize = 0;
    while i < len
        invariant
            len == names@.len(),
            same_source(*source, was),
            forall|k: int| 0 <= k < names@.len() ==> was.answers(#[trigger] names@[k]@),
            forall|k: int| 0 <= k < i ==> was.held(#[trigger] names@[k]@) is Some,
            i <= len,
        decreases len - i,
    {
        let t = w_opt(source, names[i].as_str(), Ghost(was));
        if t.is_none() {
            proof {
                let all = crate::weights::strings(names@);
                assert(all[i as int] == names@[i as int]@);
                assert forall|j: int| 0 <= j < i implies was.held(#[trigger] all[j]) is Some by {
                    assert(all[j] == names@[j]@);
                }
            }
            return Some(names[i].as_str().to_owned());
        }
        i = i + 1;
    }
    None
}

// --- whether weights fit -----------------------------------------------------------------------

/// Whether a tensor holds at least `n` plain numbers.
fn holds_vector<T: TensorShape>(x: &T, n: usize) -> (r: bool)
    ensures
        r == is_vector(x.content(), n),
{
    !x.is_packed() && x.size() >= n
}

/// The same of a tensor that need not be there.
fn vector_or_none<T: TensorShape>(x: &Option<T>, n: usize) -> (r: bool)
    ensures
        r == (crate::weights::content_of(*x) matches Some(c) ==> is_vector(c, n)),
{
    match x {
        Some(x) => holds_vector(x, n),
        None => true,
    }
}

/// Whether a tensor is a matrix of `n` rows and `k` columns.
fn holds_weight<T: TensorShape>(x: &T, n: usize, k: usize) -> (r: bool)
    ensures
        r == is_weight(x.content(), n as int, k as int),
{
    let shape = x.shape();
    let rank: usize = shape.len();
    rank == 2 && shape[0] == n && shape[1] == k && x.is_whole()
}

/// Whether a tensor is a matrix of `k` columns.
fn holds_columns<T: TensorShape>(x: &T, k: usize) -> (r: bool)
    ensures
        r == (x.content().is_whole() && x.content().is_matrix() && x.content().dims[1] == k),
{
    let shape = x.shape();
    let rank: usize = shape.len();
    rank == 2 && shape[1] == k && x.is_whole()
}

/// Whether the weights by which a layer makes its keys and values fit.
fn check_own_slot<T: TensorShape>(c: &Gemma4Config, i: usize, l: &LayerWeights<T>, h: usize) -> (r: bool)
    requires
        c.wf(),
        i < c.num_hidden_layers,
    ensures
        r == own_slot_fits(*c, i as int, l.contents(), h),
{
    let dh = c.head_dim(i);
    let n = match c.num_key_value_heads.checked_mul(dh) {
        Some(n) => n,
        None => {
            return false;
        },
    };
    let k = match &l.k_proj {
        Some(w) => holds_weight(w, n, h),
        None => false,
    };
    let v = match &l.v_proj {
        Some(w) => holds_weight(w, n, h),
        None => false,
    };
    k && v && vector_or_none(&l.k_norm, dh)
}

/// Whether the weights by which a layer mixes in its embedding fit.
fn check_embedding<T: TensorShape>(c: &Gemma4Config, i: usize, l: &LayerWeights<T>, h: usize, p: usize) -> (r: bool)
    ensures
        r == embedding_fits(*c, i as int, l.contents(), h, p),
{
    match (&l.ple_gate, &l.ple_proj) {
        (Some(gate), Some(proj)) => {
            if !holds_columns(gate, h) {
                return false;
            }
            let n: usize = gate.shape()[0];
            let end = match i.checked_mul(c.hidden_size_per_layer_input) {
                Some(start) => start.checked_add(n),
                None => {
                    proof {
                        assert(i * c.hidden_size_per_layer_input + n > p);
                    }
                    None
                },
            };
            let inside = match end {
                Some(end) => end <= p,
                None => false,
            };
            inside && holds_weight(proj, h, n) && vector_or_none(&l.ple_norm, h)
        },
        _ => true,
    }
}

/// Whether a layer's weights fit each other.
fn check_layer<T: TensorShape>(c: &Gemma4Config, i: usize, l: &LayerWeights<T>, h: usize, p: usize) -> (r: bool)
    requires
        c.wf(),
        i < c.num_hidden_layers,
    ensures
        r == layer_fits(*c, i as int, l.contents(), h, p),
{
    let (hq, hkv): (usize, usize) = (c.num_attention_heads, c.num_key_value_heads);
    let dh = c.head_dim(i);
    let rotary = F32::from_u64(dh as u64).times(c.rope_for(i).partial_rotary_factor).rounded_count();
    if dh == 0 || hkv == 0 {
        return false;
    }
    if hq % hkv != 0 || rotary > dh {
        return false;
    }
    let n = match hq.checked_mul(dh) {
        Some(n) => n,
        None => {
            return false;
        },
    };
    if !holds_vector(&l.input_ln, h) || !holds_vector(&l.post_attn_ln, h) || !holds_vector(&l.pre_ffn_ln, h)
        || !holds_vector(&l.post_ffn_ln, h) {
        return false;
    }
    if !holds_weight(&l.q_proj, n, h) || !vector_or_none(&l.q_norm, dh) || !holds_weight(&l.o_proj, h, n) {
        return false;
    }
    if c.kv_source_layer(i) == i && !check_own_slot(c, i, l, h) {
        return false;
    }
    if !holds_columns(&l.gate_proj, h) {
        return false;
    }
    let m: usize = l.gate_proj.shape()[0];
    holds_weight(&l.up_proj, m, h) && holds_weight(&l.down_proj, h, m) && check_embedding(c, i, l, h, p)
        && vector_or_none(&l.layer_scalar, 1)
}

/// `a * b`, where it can be counted.
fn has_product(a: usize, b: usize) -> (r: bool)
    ensures
        r == (a * b <= usize::MAX),
{
    a.checked_mul(b).is_some()
}

/// Whether `t` rows, and `n` of keys and values, can be counted in a layer.
fn check_room<T: TensorShape>(c: &Gemma4Config, i: usize, l: &LayerWeights<T>, t: usize, n: usize) -> (r: bool)
    requires
        c.wf(),
        i < c.num_hidden_layers,
        t > 0,
        n > 0,
        l.contents().gate_proj.is_matrix(),
        l.contents().ple_gate is Some && l.contents().ple_proj is Some ==> l.contents().ple_gate->0.is_matrix(),
    ensures
        r == layer_has_room(*c, i as int, l.contents(), t as nat, n as nat),
{
    let dh = c.head_dim(i);
    proof {
        let (q, k) = (c.num_attention_heads * dh, c.num_key_value_heads * dh);
        assert(q <= t * q && k <= n * k) by (nonlinear_arith)
            requires
                q >= 0,
                k >= 0,
                t >= 1,
                n >= 1,
        ;
    }
    let q = match c.num_attention_heads.checked_mul(dh) {
        Some(q) => q,
        None => {
            return false;
        },
    };
    let k = match c.num_key_value_heads.checked_mul(dh) {
        Some(k) => k,
        None => {
            return false;
        },
    };
    let g = match (&l.ple_gate, &l.ple_proj) {
        (Some(g), Some(_)) => has_product(t, g.shape()[0]),
        _ => true,
    };
    has_product(t, q) && has_product(n, k) && has_product(t, l.gate_proj.shape()[0]) && g
}

impl<B: Backend, W: WeightSource<B>> Gemma4Model<B, W> {
    /// Whether the weights fit each other.
    #[verifier::loop_isolation(false)]
    pub fn weights_fit(&mut self) -> (r: bool)
        requires
            old(self).wf(),
            old(self).is_complete(),
        ensures
            r == old(self).net().fits(),
            final(self).wf(),
            final(self).is_complete(),
            final(self).same_but_kept(*old(self)),
            final(self).net() == old(self).net(),
    {
        self.resolve();
        let ghost net = self.net();
        let n: usize = self.config.num_hidden_layers;
        let dple: usize = self.config.hidden_size_per_layer_input;
        let (h, p): (usize, usize) = match &self.top {
            Some(top) => {
                let rank: usize = top.embed.shape().len();
                let rank_per_layer: usize = top.embed_per_layer.shape().len();
                if rank != 2 || rank_per_layer != 2 || !top.embed.is_whole() || !top.embed_per_layer.is_whole() {
                    return false;
                }
                let h: usize = top.embed.shape()[1];
                let p: usize = top.embed_per_layer.shape()[1];
                if h == 0 || !holds_vector(&top.final_norm, h) || !holds_columns(&top.lm_head, h) {
                    return false;
                }
                if let (Some(w), Some(norm)) = (&top.ple_proj, &top.ple_proj_norm) {
                    let rows = match n.checked_mul(dple) {
                        Some(rows) => rows,
                        None => {
                            return false;
                        },
                    };
                    if dple == 0 || !holds_weight(w, rows, h) || !holds_vector(norm, dple) || p != rows {
                        return false;
                    }
                }
                (h, p)
            },
            None => unreached(),
        };
        let mut i: usize = 0;
        while i < n
            invariant
                self.wf(),
                net == self.net(),
                n == self.config.num_hidden_layers,
                h == net.width(),
                p == net.per_layer_width(),
                forall|k: int| 0 <= k < self.layers@.len() ==> #[trigger] self.layers@[k] is Some,
                i <= n,
                forall|k: int|
                    0 <= k < i ==> layer_fits(net.config, k, #[trigger] net.layers[k], net.width(), net.per_layer_width()),
            decreases n - i,
        {
            proof {
                assert(self.kept(i as int));
            }
            match &self.layers[i] {
                Some(l) => {
                    let ok = check_layer(&self.config, i, l, h, p);
                    proof {
                        assert(net.layers[i as int] == l.contents());
                    }
                    if !ok {
                        return false;
                    }
                },
                None => unreached(),
            }
            i = i + 1;
        }
        true
    }

    /// Whether tokens can be run next.
    #[verifier::loop_isolation(false)]
    pub fn can_run(&mut self, ids: &[u32], positions: &[u32]) -> (r: bool)
        requires
            old(self).wf(),
            old(self).is_complete(),
            old(self).net().fits(),
        ensures
            r == old(self).net().takes(old(self).cache.memory(), ids@, positions@),
            final(self).wf(),
            final(self).is_complete(),
            final(self).same_but_kept(*old(self)),
            final(self).net() == old(self).net(),
    {
        self.resolve();
        let ghost net = self.net();
        let t: usize = ids.len();
        let old_len: usize = self.cache.len();
        if t == 0 || positions.len() != t {
            return false;
        }
        let after = match old_len.checked_add(t) {
            Some(after) => after,
            None => {
                return false;
            },
        };
        let (vocab, known, h, p): (usize, usize, usize, usize) = match &self.top {
            Some(top) => (
                top.embed.shape()[0],
                top.embed_per_layer.shape()[0],
                top.embed.shape()[1],
                top.embed_per_layer.shape()[1],
            ),
            None => unreached(),
        };
        if !has_product(t, h) || !has_product(t, p) {
            return false;
        }
        let mut k: usize = 0;
        while k < t
            invariant
                t == ids@.len(),
                vocab == net.top.embed.dims[0],
                known == net.top.embed_per_layer.dims[0],
                k <= t,
                forall|j: int|
                    0 <= j < k ==> #[trigger] ids@[j] < net.top.embed.dims[0] && ids@[j]
                        < net.top.embed_per_layer.dims[0],
            decreases t - k,
        {
            let id: usize = ids[k] as usize;
            if id >= vocab || id >= known {
                return false;
            }
            k = k + 1;
        }
        let n: usize = self.config.num_hidden_layers;
        let mut i: usize = 0;
        while i < n
            invariant
                self.wf(),
                net == self.net(),
                net.fits(),
                n == self.config.num_hidden_layers,
                t > 0,
                after > 0,
                forall|k: int| 0 <= k < self.layers@.len() ==> #[trigger] self.layers@[k] is Some,
                i <= n,
                forall|k: int|
                    0 <= k < i ==> layer_has_room(net.config, k, #[trigger] net.layers[k], t as nat, after as nat),
            decreases n - i,
        {
            proof {
                assert(self.kept(i as int));
                assert(layer_fits(net.config, i as int, net.layers[i as int], net.width(), net.per_layer_width()));
            }
            match &self.layers[i] {
                Some(l) => {
                    let ok = check_room(&self.config, i, l, t, after);
                    proof {
                        assert(net.layers[i as int] == l.contents());
                    }
                    if !ok {
                        return false;
                    }
                },
                None => unreached(),
            }
            i = i + 1;
        }
        true
    }
}

} // verus!
