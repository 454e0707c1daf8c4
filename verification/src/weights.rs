//! Where the model's weights are found in a checkpoint.
//!
//! The model asks for logical names such as
//! `language_model.layers.0.self_attn.q_proj.weight`. On disk a quantized
//! weight is a U8 or I8 tensor with a scale beside it, embeddings are stored as
//! `.embedding_quantized`, and norms and a few projections are plain numbers:
//!
//! ```text
//! model.language_model.<...>.weight            U8/I8, with .weight_scale
//! model.language_model.embed_tokens.embedding_quantized, with .embedding_scale
//! lm_head.weight (U8), with lm_head.weight_scale
//! norms, per_layer_model_projection            BF16
//! ```
use std::sync::Arc;
use vstd::hash_map::StringHashMap;
use vstd::pervasive::unreached;
use vstd::prelude::*;
use vstd::slice::slice_to_vec;
use vstd::string::*;

use crate::backend::{Backend, Content, Packed, QuantWeight, TensorShape};
use crate::config::Gemma4Config;
use crate::float::F32;
use crate::safetensors::{FloatTensor, Meta, SafetensorsFile};
use crate::text::{decimal, ends_with, is_before, joined, same_text, starts_with, strip_suffix};

pub mod names;
pub mod scales;

verus! {

/// What an optional tensor holds.
pub open spec fn content_of<T: TensorShape>(t: Option<T>) -> Option<Content> {
    match t {
        Some(t) => Some(t.content()),
        None => None,
    }
}

/// A source of model weights by logical name.
pub trait WeightSource<B: Backend>: Sized {
    /// What the source has under a name. Only a source that is verified says
    /// this and what it answers.
    closed spec fn held(&self, name: Seq<char>) -> Option<Content> {
        arbitrary()
    }

    /// Whether what it has under a name, if anything, can be loaded.
    closed spec fn answers(&self, name: Seq<char>) -> bool {
        arbitrary()
    }

    /// Whether the weight of a name, or that there is none, was loaded.
    closed spec fn is_loaded(&self, name: Seq<char>) -> bool {
        arbitrary()
    }

    /// The weight of a name, loaded on first use. What the source has stays the
    /// same, and what was loaded stays loaded.
    fn get(&mut self, name: &str) -> (r: Option<B::Tensor>)
        requires
            old(self).answers(name@),
        ensures
            content_of(r) == old(self).held(name@),
            forall|n: Seq<char>| #[trigger] final(self).held(n) == old(self).held(n),
            forall|n: Seq<char>| #[trigger] final(self).answers(n) == old(self).answers(n),
            final(self).is_loaded(name@),
            forall|n: Seq<char>| old(self).is_loaded(n) ==> #[trigger] final(self).is_loaded(n),
    ;
}

/// On-disk names for a logical weight name.
pub struct ResolvedNames {
    pub weight: String,
    pub scale: String,
    /// Tensors stored without a `.weight` suffix, such as `layer_scalar`.
    pub bare: Option<String>,
}

/// The three names as mathematics.
pub struct DiskNames {
    pub weight: Seq<char>,
    pub scale: Seq<char>,
    pub bare: Option<Seq<char>>,
}

impl View for ResolvedNames {
    type V = DiskNames;

    open spec fn view(&self) -> DiskNames {
        DiskNames {
            weight: self.weight@,
            scale: self.scale@,
            bare: match self.bare {
                Some(b) => Some(b@),
                None => None,
            },
        }
    }
}

/// A logical name without its `.weight`.
pub open spec fn base_name(logical: Seq<char>) -> Seq<char> {
    crate::text::without_suffix(logical, ".weight"@)
}

/// Where a logical weight is stored: the output head under its own name, all
/// others below `model.`, embedding tables as `embedding_quantized`.
pub open spec fn disk_names(logical: Seq<char>) -> DiskNames {
    let base = base_name(logical);
    let stored = "model."@ + base;
    if base == "lm_head"@ {
        DiskNames { weight: "lm_head.weight"@, scale: "lm_head.weight_scale"@, bare: None }
    } else if crate::text::has_suffix(base, "embed_tokens"@) || crate::text::has_suffix(
        base,
        "embed_tokens_per_layer"@,
    ) {
        DiskNames { weight: stored + ".embedding_quantized"@, scale: stored + ".embedding_scale"@, bare: None }
    } else {
        DiskNames { weight: stored + ".weight"@, scale: stored + ".weight_scale"@, bare: Some(stored) }
    }
}

pub fn resolve_tensor_names(logical: &str) -> (r: ResolvedNames)
    ensures
        r@ == disk_names(logical@),
{
    let base = strip_suffix(logical, ".weight");
    if same_text(base.as_str(), "lm_head") {
        return ResolvedNames {
            weight: "lm_head.weight".to_owned(),
            scale: "lm_head.weight_scale".to_owned(),
            bare: None,
        };
    }
    let stored = joined("model.", base.as_str());
    if ends_with(base.as_str(), "embed_tokens") || ends_with(base.as_str(), "embed_tokens_per_layer") {
        return ResolvedNames {
            weight: joined(stored.as_str(), ".embedding_quantized"),
            scale: joined(stored.as_str(), ".embedding_scale"),
            bare: None,
        };
    }
    ResolvedNames {
        weight: joined(stored.as_str(), ".weight"),
        scale: joined(stored.as_str(), ".weight_scale"),
        bare: Some(stored),
    }
}

/// Tensors that belong to the text model.
pub open spec fn is_text_name(name: Seq<char>) -> bool {
    crate::text::has_prefix(name, "model.language_model."@) || crate::text::has_prefix(name, "lm_head"@)
}

pub fn is_text_tensor(name: &str) -> (r: bool)
    ensures
        r == is_text_name(name@),
{
    starts_with(name, "model.language_model.") || starts_with(name, "lm_head")
}

// --- the names a model asks for ----------------------------------------------------------------

/// What layers' names start with, up to the layer's own.
pub open spec fn layer_prefix(i: nat) -> Seq<char> {
    "language_model.layers."@ + crate::text::decimal_text(i)
}

pub fn layer_name_prefix(i: usize) -> (r: String)
    ensures
        r@ == layer_prefix(i as nat),
{
    joined("language_model.layers.", decimal(i as u64).as_str())
}

/// The weights of one layer.
pub open spec fn layer_parts() -> Seq<Seq<char>> {
    seq![
        "input_layernorm.weight"@,
        "self_attn.q_proj.weight"@,
        "self_attn.q_norm.weight"@,
        "self_attn.k_proj.weight"@,
        "self_attn.k_norm.weight"@,
        "self_attn.v_proj.weight"@,
        "self_attn.o_proj.weight"@,
        "post_attention_layernorm.weight"@,
        "pre_feedforward_layernorm.weight"@,
        "mlp.gate_proj.weight"@,
        "mlp.up_proj.weight"@,
        "mlp.down_proj.weight"@,
        "post_feedforward_layernorm.weight"@,
        "per_layer_input_gate.weight"@,
        "per_layer_projection.weight"@,
        "post_per_layer_input_norm.weight"@,
        "layer_scalar"@,
    ]
}

/// Name of a layer's weight.
pub open spec fn layer_weight(i: nat, part: Seq<char>) -> Seq<char> {
    layer_prefix(i) + "."@ + part
}

pub fn layer_weight_name(i: usize, part: &str) -> (r: String)
    ensures
        r@ == layer_weight(i as nat, part@),
{
    let mut s = layer_name_prefix(i);
    s.append(".");
    s.append(part);
    s
}

/// Names of the weights of the first `n` layers.
pub open spec fn layer_names(n: nat) -> Seq<Seq<char>>
    decreases n,
{
    if n == 0 {
        Seq::empty()
    } else {
        layer_names((n - 1) as nat) + layer_parts().map_values(|p: Seq<char>| layer_weight((n - 1) as nat, p))
    }
}

/// Every name the text model may ask for, in load order.
pub open spec fn all_names(layers: nat) -> Seq<Seq<char>> {
    seq![
        "language_model.embed_tokens.weight"@,
        "language_model.embed_tokens_per_layer.weight"@,
        "language_model.per_layer_model_projection.weight"@,
        "language_model.per_layer_projection_norm.weight"@,
    ] + layer_names(layers) + seq!["language_model.norm.weight"@, "lm_head.weight"@]
}

/// The texts of strings.
pub open spec fn strings(v: Seq<String>) -> Seq<Seq<char>> {
    v.map_values(|s: String| s@)
}

fn push_name(v: &mut Vec<String>, s: String)
    ensures
        strings(final(v)@) == strings(old(v)@).push(s@),
{
    let ghost before = strings(v@);
    v.push(s);
    proof {
        assert(strings(v@) =~= before.push(s@));
    }
}

/// The weights of one layer.
pub fn layer_part_names() -> (r: Vec<String>)
    ensures
        strings(r@) == layer_parts(),
{
    let mut v: Vec<String> = Vec::new();
    v.push("input_layernorm.weight".to_owned());
    v.push("self_attn.q_proj.weight".to_owned());
    v.push("self_attn.q_norm.weight".to_owned());
    v.push("self_attn.k_proj.weight".to_owned());
    v.push("self_attn.k_norm.weight".to_owned());
    v.push("self_attn.v_proj.weight".to_owned());
    v.push("self_attn.o_proj.weight".to_owned());
    v.push("post_attention_layernorm.weight".to_owned());
    v.push("pre_feedforward_layernorm.weight".to_owned());
    v.push("mlp.gate_proj.weight".to_owned());
    v.push("mlp.up_proj.weight".to_owned());
    v.push("mlp.down_proj.weight".to_owned());
    v.push("post_feedforward_layernorm.weight".to_owned());
    v.push("per_layer_input_gate.weight".to_owned());
    v.push("per_layer_projection.weight".to_owned());
    v.push("post_per_layer_input_norm.weight".to_owned());
    v.push("layer_scalar".to_owned());
    proof {
        assert(strings(v@) =~= layer_parts());
    }
    v
}

/// Every name that a model of this configuration may ask for, in load order.
pub fn logical_weight_names(config: &crate::config::Gemma4Config) -> (r: Vec<String>)
    ensures
        strings(r@) == all_names(config.num_hidden_layers as nat),
{
    let mut v: Vec<String> = Vec::new();
    push_name(&mut v, "language_model.embed_tokens.weight".to_owned());
    push_name(&mut v, "language_model.embed_tokens_per_layer.weight".to_owned());
    push_name(&mut v, "language_model.per_layer_model_projection.weight".to_owned());
    push_name(&mut v, "language_model.per_layer_projection_norm.weight".to_owned());
    let ghost head = strings(v@);
    let parts = layer_part_names();
    let n: usize = config.num_hidden_layers;
    let mut i: usize = 0;
    proof {
        assert(head =~= seq![
            "language_model.embed_tokens.weight"@,
            "language_model.embed_tokens_per_layer.weight"@,
            "language_model.per_layer_model_projection.weight"@,
            "language_model.per_layer_projection_norm.weight"@,
        ]);
        assert(strings(v@) =~= head + layer_names(0));
    }
    while i < n
        invariant
            i <= n,
            strings(parts@) == layer_parts(),
            strings(v@) == head + layer_names(i as nat),
        decreases n - i,
    {
        let ghost before = strings(v@);
        let ghost mine = layer_parts().map_values(|p: Seq<char>| layer_weight(i as nat, p));
        let mut k: usize = 0;
        proof {
            assert(strings(v@) =~= before + mine.take(0));
        }
        while k < parts.len()
            invariant
                k <= parts@.len(),
                strings(parts@) == layer_parts(),
                mine == layer_parts().map_values(|p: Seq<char>| layer_weight(i as nat, p)),
                strings(v@) == before + mine.take(k as int),
            decreases parts@.len() - k,
        {
            let name = layer_weight_name(i, parts[k].as_str());
            proof {
                assert(strings(parts@)[k as int] == parts@[k as int]@);
                assert(mine[k as int] == name@);
                assert(before + mine.take(k + 1) =~= (before + mine.take(k as int)).push(name@));
            }
            push_name(&mut v, name);
            k = k + 1;
        }
        proof {
            assert(strings(parts@).len() == parts@.len());
            assert(mine.take(k as int) =~= mine);
            assert(before + mine =~= head + layer_names((i + 1) as nat));
        }
        i = i + 1;
    }
    push_name(&mut v, "language_model.norm.weight".to_owned());
    push_name(&mut v, "lm_head.weight".to_owned());
    proof {
        assert(strings(v@) =~= all_names(n as nat));
    }
    v
}

// --- weights in files --------------------------------------------------------------------------

/// The last of some files that has a tensor.
pub open spec fn file_with(files: Seq<SafetensorsFile<'_>>, name: Seq<char>) -> Option<int>
    decreases files.len(),
{
    if files.len() == 0 {
        None
    } else if files.last().spec_meta(name) is Some {
        Some(files.len() - 1)
    } else {
        file_with(files.drop_last(), name)
    }
}

/// Where a logical weight is: a file, and the tensor's name in it.
pub open spec fn place_of(files: Seq<SafetensorsFile<'_>>, logical: Seq<char>) -> Option<(int, Seq<char>)> {
    let names = disk_names(logical);
    match file_with(files, names.weight) {
        Some(i) => Some((i, names.weight)),
        None => match names.bare {
            Some(bare) => match file_with(files, bare) {
                Some(i) => Some((i, bare)),
                None => None,
            },
            None => None,
        },
    }
}

/// What files have of a weight.
pub enum Stored {
    Missing,
    /// It cannot be loaded.
    Broken,
    Plain(Content),
    Packed(Packed),
}

impl Stored {
    pub open spec fn content(self) -> Option<Content> {
        match self {
            Stored::Plain(c) => Some(c),
            Stored::Packed(q) => Some(q.content()),
            _ => None,
        }
    }
}

/// Whether a tensor's bytes can be read as numbers.
pub open spec fn decodes(f: SafetensorsFile<'_>, m: Meta) -> bool {
    crate::safetensors::offsets_fit(f.bytes@, f.data_start as nat, m) && crate::safetensors::float_width(m.dtype) is Some
}

/// A tensor's numbers.
pub open spec fn numbers(f: SafetensorsFile<'_>, m: Meta) -> Seq<F32> {
    crate::safetensors::decoded(m.dtype, crate::safetensors::payload(f.bytes@, f.data_start as nat, m))
}

/// A tensor stored as numbers, in the shape that its header says.
pub open spec fn plain_stored(f: SafetensorsFile<'_>, m: Meta) -> Stored {
    if decodes(f, m) {
        Stored::Plain(crate::backend::plain(m.shape, numbers(f, m)))
    } else {
        Stored::Broken
    }
}

/// A tensor stored as integers, with its scales beside it: `bits` wide and
/// packed, or signed bytes. One group of columns goes with each column of
/// scales.
pub open spec fn packed_stored(f: SafetensorsFile<'_>, m: Meta, scale: Option<Meta>, bits: u32) -> Stored {
    let signed = m.dtype == "I8"@;
    let per = if signed {
        1
    } else {
        (8u32 / bits) as int
    };
    if m.shape.len() < 2 || (!signed && bits == 0) || m.shape[1] * per > usize::MAX {
        Stored::Broken
    } else {
        match scale {
            None => Stored::Broken,
            Some(sm) => {
                let k = (m.shape[1] * per) as usize;
                let scale_cols = if sm.shape.len() > 1 {
                    sm.shape[1]
                } else {
                    1
                };
                let q = Packed {
                    qbytes: crate::safetensors::payload(f.bytes@, f.data_start as nat, m),
                    scales: numbers(f, sm),
                    rows: m.shape[0],
                    cols: k,
                    bits: if signed {
                        8
                    } else {
                        bits
                    },
                    signed_i8: signed,
                    group_size: (k / scale_cols) as usize,
                };
                if scale_cols == 0 || !decodes(f, sm) || !crate::safetensors::offsets_fit(
                    f.bytes@,
                    f.data_start as nat,
                    m,
                ) {
                    Stored::Broken
                } else {
                    Stored::Packed(q)
                }
            },
        }
    }
}

/// What files have of a logical weight. Bit widths are the configuration's.
pub open spec fn stored(files: Seq<SafetensorsFile<'_>>, c: Gemma4Config, logical: Seq<char>) -> Stored {
    match place_of(files, logical) {
        None => Stored::Missing,
        Some((i, name)) => {
            let f = files[i];
            let m = f.spec_meta(name)->0;
            if m.dtype == "U8"@ || m.dtype == "I8"@ {
                let rules = crate::config::rule_texts(c.quant_rules@);
                packed_stored(
                    f,
                    m,
                    f.spec_meta(disk_names(logical).scale),
                    crate::config::bits_by(rules, base_name(logical)),
                )
            } else {
                plain_stored(f, m)
            }
        },
    }
}

/// A weight read from files, before a backend takes it.
pub enum LoadedWeight {
    Plain(FloatTensor),
    Packed(QuantWeight),
}

impl LoadedWeight {
    pub open spec fn is(self, s: Stored) -> bool {
        match self {
            LoadedWeight::Plain(t) => s == Stored::Plain(crate::backend::plain(t.shape@, t.data@)),
            LoadedWeight::Packed(q) => s == Stored::Packed(q@),
        }
    }
}

/// Weights in files, handed to the backend when first asked for.
pub struct ModelWeights<'a, B: Backend> {
    pub files: Vec<SafetensorsFile<'a>>,
    pub config: Arc<Gemma4Config>,
    pub backend: Arc<B>,
    pub cache: StringHashMap<Option<B::Tensor>>,
}

/// Files whose headers describe them.
pub open spec fn are_whole(files: Seq<SafetensorsFile<'_>>) -> bool {
    forall|i: int| 0 <= i < files.len() ==> (#[trigger] files[i]).wf()
}

impl<'a, B: Backend> ModelWeights<'a, B> {
    pub open spec fn wf(self) -> bool {
        &&& are_whole(self.files@)
        &&& forall|n: Seq<char>| #[trigger] self.cache@.contains_key(n) ==> self.is_cached(n)
    }

    /// What is cached under a name is what the files have.
    pub open spec fn is_cached(self, n: Seq<char>) -> bool {
        content_of(self.cache@[n]) == stored(self.files@, *self.config, n).content()
    }

    pub fn new(files: Vec<SafetensorsFile<'a>>, config: Arc<Gemma4Config>, backend: Arc<B>) -> (r: Self)
        requires
            are_whole(files@),
        ensures
            r.wf(),
            r.files == files,
            r.config == config,
            r.backend == backend,
    {
        ModelWeights { files, config, backend, cache: StringHashMap::new() }
    }

    /// The last file that has a tensor.
    fn file(&self, name: &str) -> (r: Option<usize>)
        requires
            self.wf(),
        ensures
            match r {
                Some(i) => file_with(self.files@, name@) == Some(i as int) && i < self.files@.len() && self.files@[i as int].spec_meta(
                    name@,
                ) is Some,
                None => file_with(self.files@, name@) is None,
            },
    {
        let len: usize = self.files.len();
        let mut n: usize = len;
        proof {
            assert(self.files@.take(len as int) =~= self.files@);
        }
        while n > 0
            invariant
                self.wf(),
                n <= self.files@.len(),
                file_with(self.files@, name@) == file_with(self.files@.take(n as int), name@),
            decreases n,
        {
            proof {
                assert(self.files@.take(n as int).drop_last() =~= self.files@.take(n - 1));
                assert(self.files@.take(n as int).last() == self.files@[n - 1]);
            }
            if self.files[n - 1].contains(name) {
                return Some(n - 1);
            }
            n = n - 1;
        }
        None
    }

    /// Read a weight stored as integers.
    fn read_packed(&self, f: &SafetensorsFile<'a>, weight: &str, scale: &str, bits: u32) -> (r: Result<QuantWeight, String>)
        requires
            f.wf(),
            f.spec_meta(weight@) is Some,
            f.spec_meta(weight@)->0.dtype == "U8"@ || f.spec_meta(weight@)->0.dtype == "I8"@,
        ensures
            ({
                let s = packed_stored(*f, f.spec_meta(weight@)->0, f.spec_meta(scale@), bits);
                match r {
                    Ok(q) => s == Stored::Packed(q@),
                    Err(_) => s is Broken,
                }
            }),
    {
        let ghost wm = f.spec_meta(weight@)->0;
        let m = match f.meta(weight) {
            Ok(m) => m,
            Err(_) => unreached(),
        };
        let signed_i8 = same_text(m.dtype.as_str(), "I8");
        let rank: usize = m.shape.len();
        if rank < 2 {
            return Err(joined(weight, ": a packed tensor has rows and columns"));
        }
        if !signed_i8 && bits == 0 {
            return Err(joined(weight, ": no bit width"));
        }
        let per_byte: usize = if signed_i8 {
            1
        } else {
            (8 / bits) as usize
        };
        let n: usize = m.shape[0];
        let k = match m.shape[1].checked_mul(per_byte) {
            Some(k) => k,
            None => {
                return Err(joined(weight, ": too many columns"));
            },
        };
        let sm = match f.meta(scale) {
            Ok(sm) => sm,
            Err(_) => {
                let mut e = joined("quantized tensor ", weight);
                e.append(" is missing its scale tensor ");
                e.append(scale);
                return Err(e);
            },
        };
        let scale_rank: usize = sm.shape.len();
        let scale_cols: usize = if scale_rank > 1 {
            sm.shape[1]
        } else {
            1
        };
        if scale_cols == 0 {
            return Err(joined(scale, ": no columns"));
        }
        let scales = match f.tensor(scale) {
            Ok(t) => t.data,
            Err(e) => {
                return Err(joined("decode scale: ", e.message().as_str()));
            },
        };
        let qbytes = match f.raw_bytes(weight) {
            Ok(b) => slice_to_vec(b),
            Err(e) => {
                return Err(joined("raw bytes: ", e.message().as_str()));
            },
        };
        let q = QuantWeight {
            qbytes,
            scales,
            shape: [n, k],
            bits: if signed_i8 {
                8
            } else {
                bits
            },
            signed_i8,
            group_size: k / scale_cols,
        };
        proof {
            assert(q@ =~= Packed {
                qbytes: crate::safetensors::payload(f.bytes@, f.data_start as nat, wm),
                scales: numbers(*f, f.spec_meta(scale@)->0),
                rows: wm.shape[0],
                cols: k,
                bits: if signed_i8 {
                    8
                } else {
                    bits
                },
                signed_i8,
                group_size: (k / scale_cols) as usize,
            });
        }
        Ok(q)
    }

    /// Read a weight stored as numbers.
    fn read_plain(&self, f: &SafetensorsFile<'a>, weight: &str) -> (r: Result<FloatTensor, String>)
        requires
            f.wf(),
            f.spec_meta(weight@) is Some,
        ensures
            ({
                let s = plain_stored(*f, f.spec_meta(weight@)->0);
                match r {
                    Ok(t) => s == Stored::Plain(crate::backend::plain(t.shape@, t.data@)),
                    Err(_) => s is Broken,
                }
            }),
    {
        match f.tensor(weight) {
            Ok(t) => Ok(t),
            Err(e) => Err(joined("decode float tensor: ", e.message().as_str())),
        }
    }

    /// Read a logical weight; an error says why it cannot be loaded.
    pub fn read(&self, logical: &str) -> (r: Result<Option<LoadedWeight>, String>)
        requires
            self.wf(),
        ensures
            ({
                let s = stored(self.files@, *self.config, logical@);
                match r {
                    Ok(Some(w)) => w.is(s),
                    Ok(None) => s is Missing,
                    Err(_) => s is Broken,
                }
            }),
    {
        let names = resolve_tensor_names(logical);
        let mut at = self.file(names.weight.as_str());
        let mut weight = names.weight;
        if at.is_none() {
            if let Some(bare) = names.bare {
                at = self.file(bare.as_str());
                weight = bare;
            }
        }
        let i = match at {
            Some(i) => i,
            None => {
                return Ok(None);
            },
        };
        proof {
            assert(place_of(self.files@, logical@) == Some((i as int, weight@)));
        }
        let f = &self.files[i];
        let packed = match f.meta(weight.as_str()) {
            Ok(m) => same_text(m.dtype.as_str(), "U8") || same_text(m.dtype.as_str(), "I8"),
            Err(_) => unreached(),
        };
        if packed {
            let base = strip_suffix(logical, ".weight");
            let bits = self.config.bits_for(base.as_str());
            match self.read_packed(f, weight.as_str(), names.scale.as_str(), bits) {
                Ok(q) => Ok(Some(LoadedWeight::Packed(q))),
                Err(e) => Err(e),
            }
        } else {
            match self.read_plain(f, weight.as_str()) {
                Ok(t) => Ok(Some(LoadedWeight::Plain(t))),
                Err(e) => Err(e),
            }
        }
    }

    /// Hand a logical weight to the backend.
    fn load(&self, logical: &str) -> (r: Option<B::Tensor>)
        requires
            self.wf(),
            !(stored(self.files@, *self.config, logical@) is Broken),
        ensures
            content_of(r) == stored(self.files@, *self.config, logical@).content(),
    {
        match self.read(logical) {
            Ok(Some(LoadedWeight::Packed(q))) => Some(self.backend.quant_tensor(q)),
            Ok(Some(LoadedWeight::Plain(t))) => Some(self.backend.tensor(t.data.as_slice(), t.shape.as_slice())),
            Ok(None) => None,
            Err(_) => unreached(),
        }
    }
}

/// Texts in order, each once.
pub open spec fn is_sorted(v: Seq<Seq<char>>) -> bool {
    forall|i: int, j: int| 0 <= i < j < v.len() ==> crate::text::comes_before(#[trigger] v[i], #[trigger] v[j])
}

/// Put a name in its place, unless it is there.
fn insert_name(v: &mut Vec<String>, name: &str)
    requires
        is_sorted(strings(old(v)@)),
    ensures
        is_sorted(strings(final(v)@)),
        forall|n: Seq<char>| #[trigger]
            strings(final(v)@).contains(n) <==> strings(old(v)@).contains(n) || n == name@,
{
    let ghost before = strings(v@);
    let len: usize = v.len();
    let mut p: usize = 0;
    while p < len && is_before(v[p].as_str(), name)
        invariant
            len == v@.len(),
            before == strings(v@),
            p <= len,
            forall|k: int| 0 <= k < p ==> crate::text::comes_before(#[trigger] before[k], name@),
        decreases len - p,
    {
        p = p + 1;
        proof {
            assert(before[p - 1] == v@[p - 1]@);
        }
    }
    if p < len && same_text(v[p].as_str(), name) {
        proof {
            assert(before[p as int] == name@);
        }
        return;
    }
    v.insert(p, name.to_owned());
    proof {
        let after = strings(v@);
        assert(after =~= before.insert(p as int, name@));
        assert forall|i: int, j: int| 0 <= i < j < after.len() implies crate::text::comes_before(
            #[trigger] after[i],
            #[trigger] after[j],
        ) by {
            if p < len {
                assert(before[p as int] == old(v)@[p as int]@);
                crate::text::order_decides(before[p as int], name@);
                if j > p + 1 {
                    crate::text::order_carries_over(name@, before[p as int], before[j - 1]);
                }
            }
            if i < p && j < p {
                assert(crate::text::comes_before(before[i], before[j]));
            } else if i < p && j > p {
                assert(crate::text::comes_before(before[i], before[j - 1]));
            } else if i > p {
                assert(crate::text::comes_before(before[i - 1], before[j - 1]));
            }
        }
        assert forall|n: Seq<char>| #[trigger] after.contains(n) <==> before.contains(n) || n == name@ by {
            if before.contains(n) {
                let k = choose|k: int| 0 <= k < before.len() && before[k] == n;
                if k < p {
                    assert(after[k] == n);
                } else {
                    assert(after[k + 1] == n);
                }
            }
            if n == name@ {
                assert(after[p as int] == n);
            }
            if after.contains(n) {
                let k = choose|k: int| 0 <= k < after.len() && after[k] == n;
                if k < p {
                    assert(before[k] == n);
                } else if k > p {
                    assert(before[k - 1] == n);
                }
            }
        }
    }
}

/// Whether one of the first `n` files has a tensor.
pub open spec fn is_in_files(files: Seq<SafetensorsFile<'_>>, n: int, name: Seq<char>) -> bool {
    exists|i: int, k: int|
        0 <= i < n && 0 <= k < files[i].header@.len() && (#[trigger] files[i].header@[k]).0 == name
}

impl<'a, B: Backend> ModelWeights<'a, B> {
    /// Names of the text model's tensors, in order.
    pub fn text_tensor_names(&self) -> (r: Vec<String>)
        ensures
            is_sorted(strings(r@)),
            forall|n: Seq<char>| #[trigger]
                strings(r@).contains(n) <==> is_text_name(n) && is_in_files(self.files@, self.files@.len() as int, n),
    {
        let ghost files = self.files@;
        let len: usize = self.files.len();
        let mut out: Vec<String> = Vec::new();
        let mut i: usize = 0;
        while i < len
            invariant
                files == self.files@,
                len == files.len(),
                i <= len,
                is_sorted(strings(out@)),
                forall|n: Seq<char>| #[trigger]
                    strings(out@).contains(n) <==> is_text_name(n) && is_in_files(files, i as int, n),
            decreases len - i,
        {
            let names = self.files[i].names();
            let ghost header = files[i as int].header@;
            let ghost was = strings(out@);
            let count: usize = names.len();
            let mut k: usize = 0;
            proof {
                assert(names@.map_values(|s: String| s@).len() == header.len());
            }
            while k < count
                invariant
                    count == names@.len(),
                    count == header.len(),
                    names@.map_values(|s: String| s@) == header.map_values(|e: (Seq<char>, Meta)| e.0),
                    k <= count,
                    is_sorted(strings(out@)),
                    forall|n: Seq<char>| #[trigger]
                        strings(out@).contains(n) <==> was.contains(n) || (is_text_name(n) && exists|j: int|
                            0 <= j < k && (#[trigger] header[j]).0 == n),
                decreases count - k,
            {
                let name = names[k].as_str();
                let ghost before = strings(out@);
                proof {
                    assert(names@.map_values(|s: String| s@)[k as int] == name@);
                    assert(header.map_values(|e: (Seq<char>, Meta)| e.0)[k as int] == header[k as int].0);
                }
                if is_text_tensor(name) {
                    insert_name(&mut out, name);
                }
                k = k + 1;
                proof {
                    assert forall|n: Seq<char>| #[trigger] strings(out@).contains(n) <==> was.contains(n) || (is_text_name(
                        n,
                    ) && exists|j: int| 0 <= j < k && (#[trigger] header[j]).0 == n) by {
                        assert(before.contains(n) <==> was.contains(n) || (is_text_name(n) && exists|j: int|
                            0 <= j < k - 1 && (#[trigger] header[j]).0 == n));
                        if is_text_name(n) && n == header[k - 1].0 {
                            assert(exists|j: int| 0 <= j < k && (#[trigger] header[j]).0 == n);
                        }
                        if exists|j: int| 0 <= j < k && (#[trigger] header[j]).0 == n {
                            let j = choose|j: int| 0 <= j < k && (#[trigger] header[j]).0 == n;
                            if j < k - 1 {
                                assert(exists|j: int| 0 <= j < k - 1 && (#[trigger] header[j]).0 == n);
                            }
                        }
                    }
                }
            }
            i = i + 1;
            proof {
                assert forall|n: Seq<char>| #[trigger] strings(out@).contains(n) <==> is_text_name(n) && is_in_files(
                    files,
                    i as int,
                    n,
                ) by {
                    assert(was.contains(n) <==> is_text_name(n) && is_in_files(files, i - 1, n));
                    if is_in_files(files, i as int, n) {
                        let (f, j) = choose|f: int, j: int|
                            0 <= f < i && 0 <= j < files[f].header@.len() && (#[trigger] files[f].header@[j]).0 == n;
                        if f < i - 1 {
                            assert(files[f].header@[j].0 == n);
                            assert(is_in_files(files, i - 1, n));
                        } else {
                            assert(header[j].0 == n);
                        }
                    }
                    if exists|j: int| 0 <= j < count && (#[trigger] header[j]).0 == n {
                        let j = choose|j: int| 0 <= j < count && (#[trigger] header[j]).0 == n;
                        assert(files[i - 1].header@[j].0 == n);
                        assert(is_in_files(files, i as int, n));
                    }
                    if is_in_files(files, i - 1, n) {
                        let (f, j) = choose|f: int, j: int|
                            0 <= f < i - 1 && 0 <= j < files[f].header@.len() && (#[trigger] files[f].header@[j]).0 == n;
                        assert(files[f].header@[j].0 == n);
                        assert(is_in_files(files, i as int, n));
                    }
                }
            }
        }
        out
    }
}

impl<'a, B: Backend> WeightSource<B> for ModelWeights<'a, B> {
    open spec fn held(&self, name: Seq<char>) -> Option<Content> {
        stored(self.files@, *self.config, name).content()
    }

    open spec fn answers(&self, name: Seq<char>) -> bool {
        self.wf() && !(stored(self.files@, *self.config, name) is Broken)
    }

    open spec fn is_loaded(&self, name: Seq<char>) -> bool {
        self.cache@.contains_key(name)
    }

    fn get(&mut self, name: &str) -> (r: Option<B::Tensor>)
        ensures
            final(self).cache@.contains_key(name@),
            old(self).cache@.contains_key(name@) ==> *final(self) == *old(self),
            forall|n: Seq<char>| n != name@ ==> (#[trigger] final(self).cache@.contains_key(n) <==> old(self).cache@.contains_key(n)),
            final(self).files == old(self).files,
            final(self).config == old(self).config,
            final(self).backend == old(self).backend,
    {
        if let Some(t) = self.cache.get(name) {
            return match t {
                Some(t) => Some(t.share()),
                None => None,
            };
        }
        let t = self.load(name);
        let kept = match &t {
            Some(t) => Some(t.share()),
            None => None,
        };
        self.cache.insert(name.to_owned(), kept);
        t
    }
}

} // verus!
