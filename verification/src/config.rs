//! Gemma-4 configuration.
//!
//! The `config.json` of a Gemma-4 checkpoint covers text, vision and audio. The
//! engine runs the text path only, so its `text_config` is read into the flat
//! shape that the rest of the engine uses.
use vstd::prelude::*;

use crate::float::F32;
use crate::json::{parse, Json, Tree};
use crate::text::same_text;

verus! {

/// The compiled pattern type of `fancy_regex`.
#[verifier::external_type_specification]
#[verifier::external_body]
pub struct ExRegex(fancy_regex::Regex);

/// The pattern that a `fancy_regex::Regex` was compiled from.
pub uninterp spec fn pattern_of(re: fancy_regex::Regex) -> Seq<char>;

/// Whether `fancy_regex::Regex::new` accepts a pattern.
pub uninterp spec fn compiles(pattern: Seq<char>) -> bool;

/// What `fancy_regex::Regex::is_match` says of a text; nothing where matching
/// fails.
pub uninterp spec fn regex_match(pattern: Seq<char>, text: Seq<char>) -> Option<bool>;

/// `fancy_regex::Regex::new`: a pattern compiles or not, as named by
/// `compiles`, and the result is that pattern's.
#[verifier::external_body]
fn compile(pattern: &str) -> (r: Option<fancy_regex::Regex>)
    ensures
        r is Some <==> compiles(pattern@),
        r matches Some(re) ==> pattern_of(re) == pattern@,
{
    fancy_regex::Regex::new(pattern).ok()
}

/// `fancy_regex::Regex::is_match`, as named by `regex_match`.
#[verifier::external_body]
fn is_match(re: &fancy_regex::Regex, text: &str) -> (r: Option<bool>)
    ensures
        r == regex_match(pattern_of(*re), text@),
{
    re.is_match(text).ok()
}

#[derive(Clone, Copy, Debug, PartialEq, Eq, Structural)]
pub enum LayerType {
    Sliding,
    Full,
}

#[derive(Clone, Copy, Debug)]
pub struct RopeParams {
    pub theta: F32,
    /// Below 1, only the front of a head is rotated.
    pub partial_rotary_factor: F32,
}

/// Weights whose name matches have this bit width.
#[derive(Debug)]
pub struct QuantRule {
    pub re: fancy_regex::Regex,
    pub bits: u32,
}

#[derive(Debug)]
pub struct Gemma4Config {
    pub vocab_size: usize,
    pub hidden_size: usize,
    pub intermediate_size: usize,
    pub num_hidden_layers: usize,
    pub num_attention_heads: usize,
    pub num_key_value_heads: usize,
    pub head_dim: usize,
    pub global_head_dim: usize,
    pub rms_norm_eps: F32,
    pub sliding_window: u32,
    pub final_logit_softcapping: F32,
    pub hidden_size_per_layer_input: usize,
    pub vocab_size_per_layer_input: usize,
    pub num_kv_shared_layers: usize,
    pub bos_token_id: u32,
    pub eos_token_ids: Vec<u32>,
    pub pad_token_id: u32,
    pub layer_types: Vec<LayerType>,
    pub rope_full: RopeParams,
    pub rope_sliding: RopeParams,
    pub quant_rules: Vec<QuantRule>,
}

/// Single-precision 1e-6.
pub const DEFAULT_EPS: u32 = 0x3586_37bd;

/// Single-precision 30.
pub const DEFAULT_SOFTCAP: u32 = 0x41f0_0000;

/// Single-precision 1e6.
pub const DEFAULT_THETA_FULL: u32 = 0x4974_2400;

/// Single-precision 1e4.
pub const DEFAULT_THETA_SLIDING: u32 = 0x461c_4000;

/// Single-precision one.
pub const WHOLE_HEAD: u32 = 0x3f80_0000;

// --- looking things up -----------------------------------------------------------------------

/// A size by name, or its default.
pub open spec fn size_field(t: Tree, key: Seq<char>, default: usize) -> usize {
    match t.field(key) {
        Some(v) => match v.count() {
            Some(n) => n as usize,
            None => default,
        },
        None => default,
    }
}

/// A number by name, or its default.
pub open spec fn number_field(t: Tree, key: Seq<char>, default: F32) -> F32 {
    match t.field(key) {
        Some(v) => match v.number() {
            Some(x) => x.spec_to_f32(),
            None => default,
        },
        None => default,
    }
}

fn get_usize(t: &Json, key: &str, default: usize) -> (r: usize)
    ensures
        r == size_field(t@, key@, default),
{
    match t.get(key) {
        Some(v) => match v.as_u64() {
            Some(n) => n as usize,
            None => default,
        },
        None => default,
    }
}

fn get_f32(t: &Json, key: &str, default: F32) -> (r: F32)
    ensures
        r == number_field(t@, key@, default),
{
    match t.get(key) {
        Some(v) => match v.as_f64() {
            Some(x) => x.to_f32(),
            None => default,
        },
        None => default,
    }
}

/// The text part of a configuration: `text_config`, or the whole.
pub open spec fn text_part(raw: Tree) -> Tree {
    match raw.field("text_config"@) {
        Some(t) => t,
        None => raw,
    }
}

/// The token ids among items.
pub open spec fn ids_among(items: Seq<Tree>) -> Seq<u32>
    decreases items.len(),
{
    if items.len() == 0 {
        Seq::empty()
    } else {
        let before = ids_among(items.drop_last());
        match items.last().count() {
            Some(n) => before.push(n as u32),
            None => before,
        }
    }
}

/// Token ids given as a list or as one number; nothing else gives any.
pub open spec fn id_list(t: Tree) -> Option<Seq<u32>> {
    match t {
        Tree::Array(items) => Some(ids_among(items)),
        _ => match t.count() {
            Some(n) => Some(seq![n as u32]),
            None => None,
        },
    }
}

/// End-of-text ids; 1 and 106 where the configuration gives none.
pub open spec fn eos_of(t: Tree) -> Seq<u32> {
    match t.field("eos_token_id"@) {
        Some(v) => match id_list(v) {
            Some(ids) => ids,
            None => seq![1, 106],
        },
        None => seq![1, 106],
    }
}

/// Token ids of a list or a number.
pub fn read_ids(j: &Json) -> (r: Option<Vec<u32>>)
    ensures
        r is Some <==> id_list(j@) is Some,
        r matches Some(v) ==> v@ == id_list(j@)->0,
{
    match j.as_array() {
        Some(a) => {
            let ghost items = a@.map_values(|x: Json| x@);
            let mut out: Vec<u32> = Vec::new();
            let mut i: usize = 0;
            proof {
                assert(items.take(0) =~= Seq::empty());
            }
            while i < a.len()
                invariant
                    items == a@.map_values(|x: Json| x@),
                    i <= a@.len(),
                    out@ == ids_among(items.take(i as int)),
                decreases a@.len() - i,
            {
                proof {
                    assert(items.take(i + 1).drop_last() =~= items.take(i as int));
                    assert(items.take(i + 1).last() == a@[i as int]@);
                }
                if let Some(n) = a[i].as_u64() {
                    out.push(n as u32);
                }
                i = i + 1;
            }
            proof {
                assert(items.take(i as int) =~= items);
            }
            Some(out)
        },
        None => match j.as_u64() {
            Some(n) => {
                let mut v: Vec<u32> = Vec::new();
                v.push(n as u32);
                proof {
                    assert(v@ =~= seq![n as u32]);
                }
                Some(v)
            },
            None => None,
        },
    }
}

fn read_eos(t: &Json) -> (r: Vec<u32>)
    ensures
        r@ == eos_of(t@),
{
    if let Some(v) = t.get("eos_token_id") {
        if let Some(ids) = read_ids(v) {
            return ids;
        }
    }
    let mut v: Vec<u32> = Vec::new();
    v.push(1);
    v.push(106);
    proof {
        assert(v@ =~= seq![1, 106]);
    }
    v
}

/// Attention type of a layer by its declared name.
pub open spec fn type_named(t: Tree) -> LayerType {
    if t.text() == Some("full_attention"@) {
        LayerType::Full
    } else {
        LayerType::Sliding
    }
}

/// Attention types: as declared for every layer, else every fifth layer full.
pub open spec fn types_of(t: Tree, layers: usize) -> Seq<LayerType> {
    match t.field("layer_types"@) {
        Some(v) => match v.items() {
            Some(items) => if items.len() == layers {
                items.map_values(|x: Tree| type_named(x))
            } else {
                default_types(layers)
            },
            None => default_types(layers),
        },
        None => default_types(layers),
    }
}

pub open spec fn default_types(layers: usize) -> Seq<LayerType> {
    Seq::new(
        layers as nat,
        |i: int| if (i + 1) % 5 == 0 {
            LayerType::Full
        } else {
            LayerType::Sliding
        },
    )
}

fn read_types(t: &Json, layers: usize) -> (r: Vec<LayerType>)
    ensures
        r@ == types_of(t@, layers),
        r@.len() == layers,
{
    let mut out: Vec<LayerType> = Vec::new();
    if let Some(v) = t.get("layer_types") {
        if let Some(a) = v.as_array() {
            if a.len() == layers {
                let ghost items = a@.map_values(|x: Json| x@);
                let mut i: usize = 0;
                while i < a.len()
                    invariant
                        items == a@.map_values(|x: Json| x@),
                        i <= a@.len(),
                        out@.len() == i,
                        forall|k: int| 0 <= k < i ==> #[trigger] out@[k] == type_named(items[k]),
                    decreases a@.len() - i,
                {
                    let full = match a[i].as_str() {
                        Some(s) => same_text(s, "full_attention"),
                        None => false,
                    };
                    out.push(
                        if full {
                            LayerType::Full
                        } else {
                            LayerType::Sliding
                        },
                    );
                    i = i + 1;
                }
                proof {
                    assert(out@ =~= items.map_values(|x: Tree| type_named(x)));
                }
                return out;
            }
        }
    }
    let mut i: usize = 0;
    while i < layers
        invariant
            i <= layers,
            out@.len() == i,
            forall|k: int| 0 <= k < i ==> #[trigger] out@[k] == default_types(layers)[k],
        decreases layers - i,
    {
        out.push(
            if i % 5 == 4 {
                LayerType::Full
            } else {
                LayerType::Sliding
            },
        );
        i = i + 1;
    }
    proof {
        assert(out@ =~= default_types(layers));
    }
    out
}

/// Rotation parameters of one attention type.
pub open spec fn rope_of(t: Tree, key: Seq<char>, theta: u32) -> RopeParams {
    let part = match t.field("rope_parameters"@) {
        Some(rp) => rp.field(key),
        None => None,
    };
    match part {
        Some(v) => RopeParams {
            theta: number_field(v, "rope_theta"@, F32(theta)),
            partial_rotary_factor: number_field(v, "partial_rotary_factor"@, F32(WHOLE_HEAD)),
        },
        None => RopeParams { theta: F32(theta), partial_rotary_factor: F32(WHOLE_HEAD) },
    }
}

fn read_rope(t: &Json, key: &str, theta: u32) -> (r: RopeParams)
    ensures
        r == rope_of(t@, key@, theta),
{
    if let Some(rp) = t.get("rope_parameters") {
        if let Some(v) = rp.get(key) {
            return RopeParams {
                theta: get_f32(v, "rope_theta", F32(theta)),
                partial_rotary_factor: get_f32(v, "partial_rotary_factor", F32(WHOLE_HEAD)),
            };
        }
    }
    RopeParams { theta: F32(theta), partial_rotary_factor: F32(WHOLE_HEAD) }
}

// --- quantization rules ---------------------------------------------------------------------

/// The table of bit widths by pattern.
pub open spec fn rule_fields(raw: Tree) -> Seq<(Seq<char>, Tree)> {
    match raw.field("quantization_config"@) {
        Some(q) => match q.field("module_quant_configs"@) {
            Some(m) => match m.fields() {
                Some(f) => f,
                None => Seq::empty(),
            },
            None => Seq::empty(),
        },
        None => Seq::empty(),
    }
}

/// Rules, as pattern and bits, of the first `n` fields: those whose pattern
/// compiles and whose width is given.
pub open spec fn rules_of(fields: Seq<(Seq<char>, Tree)>, n: nat) -> Seq<(Seq<char>, u32)>
    decreases n,
{
    if n == 0 {
        Seq::empty()
    } else {
        let before = rules_of(fields, (n - 1) as nat);
        let (pattern, t) = fields[n - 1];
        match t.field("num_bits"@) {
            Some(b) => match b.count() {
                Some(bits) => if compiles(pattern) {
                    before.push((pattern, bits as u32))
                } else {
                    before
                },
                None => before,
            },
            None => before,
        }
    }
}

/// Rules as pattern and bits.
pub open spec fn rule_texts(rules: Seq<QuantRule>) -> Seq<(Seq<char>, u32)> {
    rules.map_values(|r: QuantRule| (pattern_of(r.re), r.bits))
}

/// Width by the first rule that matches; 16 without one.
pub open spec fn bits_by(rules: Seq<(Seq<char>, u32)>, name: Seq<char>) -> u32
    decreases rules.len(),
{
    if rules.len() == 0 {
        16
    } else if regex_match(rules[0].0, name) == Some(true) {
        rules[0].1
    } else {
        bits_by(rules.drop_first(), name)
    }
}

fn read_rules(raw: &Json) -> (r: Vec<QuantRule>)
    ensures
        rule_texts(r@) == rules_of(rule_fields(raw@), rule_fields(raw@).len()),
{
    let mut out: Vec<QuantRule> = Vec::new();
    let ghost fields = rule_fields(raw@);
    proof {
        assert(rule_texts(out@) =~= Seq::empty());
    }
    let q = match raw.get("quantization_config") {
        Some(q) => q,
        None => {
            return out;
        },
    };
    let m = match q.get("module_quant_configs") {
        Some(m) => m,
        None => {
            return out;
        },
    };
    let f = match m.as_object() {
        Some(f) => f,
        None => {
            return out;
        },
    };
    let mut i: usize = 0;
    while i < f.len()
        invariant
            fields == f@.map_values(|e: (String, Json)| (e.0@, e.1@)),
            i <= f@.len(),
            rule_texts(out@) == rules_of(fields, i as nat),
        decreases f@.len() - i,
    {
        let pattern = f[i].0.as_str();
        proof {
            assert(fields[i as int] == (f@[i as int].0@, f@[i as int].1@));
        }
        let bits = match f[i].1.get("num_bits") {
            Some(b) => b.as_u64(),
            None => None,
        };
        if let Some(b) = bits {
            if let Some(re) = compile(pattern) {
                let ghost before = rule_texts(out@);
                out.push(QuantRule { re, bits: b as u32 });
                proof {
                    assert(rule_texts(out@) =~= before.push((pattern@, b as u32)));
                }
            }
        }
        i = i + 1;
    }
    out
}

impl Gemma4Config {
    /// There is a type for every layer.
    pub open spec fn wf(self) -> bool {
        self.layer_types@.len() == self.num_hidden_layers
    }

    /// What a configuration document says.
    pub open spec fn is_from(self, raw: Tree) -> bool {
        self.is_from_but_eos(raw) && self.eos_token_ids@ == eos_of(text_part(raw))
    }

    /// What a configuration document says of all but the end-of-text ids.
    pub open spec fn is_from_but_eos(self, raw: Tree) -> bool {
        let t = text_part(raw);
        &&& self.vocab_size == size_field(t, "vocab_size"@, 262144)
        &&& self.hidden_size == size_field(t, "hidden_size"@, 1536)
        &&& self.intermediate_size == size_field(t, "intermediate_size"@, 6144)
        &&& self.num_hidden_layers == size_field(t, "num_hidden_layers"@, 35)
        &&& self.num_attention_heads == size_field(t, "num_attention_heads"@, 8)
        &&& self.num_key_value_heads == size_field(t, "num_key_value_heads"@, 1)
        &&& self.head_dim == size_field(t, "head_dim"@, 256)
        &&& self.global_head_dim == size_field(t, "global_head_dim"@, 512)
        &&& self.rms_norm_eps == number_field(t, "rms_norm_eps"@, F32(DEFAULT_EPS))
        &&& self.sliding_window == size_field(t, "sliding_window"@, 512) as u32
        &&& self.final_logit_softcapping == number_field(t, "final_logit_softcapping"@, F32(DEFAULT_SOFTCAP))
        &&& self.hidden_size_per_layer_input == size_field(t, "hidden_size_per_layer_input"@, 256)
        &&& self.vocab_size_per_layer_input == size_field(t, "vocab_size_per_layer_input"@, 262144)
        &&& self.num_kv_shared_layers == size_field(t, "num_kv_shared_layers"@, 20)
        &&& self.bos_token_id == size_field(t, "bos_token_id"@, 2) as u32
        &&& self.pad_token_id == size_field(t, "pad_token_id"@, 0) as u32
        &&& self.layer_types@ == types_of(t, self.num_hidden_layers)
        &&& self.rope_full == rope_of(t, "full_attention"@, DEFAULT_THETA_FULL)
        &&& self.rope_sliding == rope_of(t, "sliding_attention"@, DEFAULT_THETA_SLIDING)
        &&& rule_texts(self.quant_rules@) == rules_of(rule_fields(raw), rule_fields(raw).len())
    }

    /// Read a full configuration, or a bare text configuration.
    pub fn from_json(raw: &Json) -> (r: Gemma4Config)
        ensures
            r.is_from(raw@),
            r.wf(),
    {
        let t: &Json = match raw.get("text_config") {
            Some(t) => t,
            None => raw,
        };
        proof {
            assert(t@ == text_part(raw@));
        }
        let num_hidden_layers = get_usize(t, "num_hidden_layers", 35);
        Gemma4Config {
            vocab_size: get_usize(t, "vocab_size", 262144),
            hidden_size: get_usize(t, "hidden_size", 1536),
            intermediate_size: get_usize(t, "intermediate_size", 6144),
            num_hidden_layers,
            num_attention_heads: get_usize(t, "num_attention_heads", 8),
            num_key_value_heads: get_usize(t, "num_key_value_heads", 1),
            head_dim: get_usize(t, "head_dim", 256),
            global_head_dim: get_usize(t, "global_head_dim", 512),
            rms_norm_eps: get_f32(t, "rms_norm_eps", F32(DEFAULT_EPS)),
            sliding_window: get_usize(t, "sliding_window", 512) as u32,
            final_logit_softcapping: get_f32(t, "final_logit_softcapping", F32(DEFAULT_SOFTCAP)),
            hidden_size_per_layer_input: get_usize(t, "hidden_size_per_layer_input", 256),
            vocab_size_per_layer_input: get_usize(t, "vocab_size_per_layer_input", 262144),
            num_kv_shared_layers: get_usize(t, "num_kv_shared_layers", 20),
            bos_token_id: get_usize(t, "bos_token_id", 2) as u32,
            eos_token_ids: read_eos(t),
            pad_token_id: get_usize(t, "pad_token_id", 0) as u32,
            layer_types: read_types(t, num_hidden_layers),
            rope_full: read_rope(t, "full_attention", DEFAULT_THETA_FULL),
            rope_sliding: read_rope(t, "sliding_attention", DEFAULT_THETA_SLIDING),
            quant_rules: read_rules(raw),
        }
    }

    /// Read a configuration from JSON text; an error is the reader's message.
    pub fn from_json_str(s: &str) -> (r: Result<Gemma4Config, String>)
        ensures
            r is Ok <==> crate::json::parsed(s@) is Ok,
            r matches Ok(c) ==> c.is_from(crate::json::parsed(s@)->Ok_0) && c.wf(),
            r matches Err(e) ==> e@ == crate::json::parsed(s@)->Err_0,
    {
        match parse(s) {
            Ok(j) => Ok(Gemma4Config::from_json(&j)),
            Err(e) => Err(e),
        }
    }

    // --- layers ---------------------------------------------------------------------------

    pub fn layer_type(&self, i: usize) -> (r: LayerType)
        requires
            i < self.layer_types@.len(),
        ensures
            r == self.layer_types@[i as int],
    {
        self.layer_types[i]
    }

    pub fn is_global(&self, i: usize) -> (r: bool)
        requires
            i < self.layer_types@.len(),
        ensures
            r == (self.layer_types@[i as int] == LayerType::Full),
    {
        self.layer_types[i] == LayerType::Full
    }

    pub open spec fn spec_head_dim(self, i: int) -> usize {
        if self.layer_types@[i] == LayerType::Full {
            self.global_head_dim
        } else {
            self.head_dim
        }
    }

    /// Global and local layers have different head sizes.
    pub fn head_dim(&self, i: usize) -> (r: usize)
        requires
            i < self.layer_types@.len(),
        ensures
            r == self.spec_head_dim(i as int),
    {
        if self.is_global(i) {
            self.global_head_dim
        } else {
            self.head_dim
        }
    }

    pub open spec fn spec_rope_for(self, i: int) -> RopeParams {
        if self.layer_types@[i] == LayerType::Full {
            self.rope_full
        } else {
            self.rope_sliding
        }
    }

    pub fn rope_for(&self, i: usize) -> (r: RopeParams)
        requires
            i < self.layer_types@.len(),
        ensures
            r == self.spec_rope_for(i as int),
    {
        if self.is_global(i) {
            self.rope_full
        } else {
            self.rope_sliding
        }
    }

    /// The first layer without keys and values of its own.
    pub open spec fn first_shared(self) -> int {
        if self.num_kv_shared_layers < self.num_hidden_layers {
            self.num_hidden_layers - self.num_kv_shared_layers
        } else {
            0
        }
    }

    /// The last layer below `n` of a type.
    pub open spec fn last_of_type(self, ty: LayerType, n: int) -> Option<int>
        decreases n,
    {
        if n <= 0 {
            None
        } else if self.layer_types@[n - 1] == ty {
            Some(n - 1)
        } else {
            self.last_of_type(ty, n - 1)
        }
    }

    /// The layer whose keys and values layer `i` reads: its own, or for a
    /// shared layer those of the last unshared layer of its type.
    pub open spec fn kv_source(self, i: int) -> int {
        if i < self.first_shared() {
            i
        } else {
            match self.last_of_type(self.layer_types@[i], self.first_shared()) {
                Some(j) => j,
                None => i,
            }
        }
    }

    /// Which layer owns the cache that layer `i` reads.
    pub fn kv_source_layer(&self, i: usize) -> (r: usize)
        requires
            self.wf(),
            i < self.num_hidden_layers,
        ensures
            r == self.kv_source(i as int),
    {
        let first_shared: usize = if self.num_kv_shared_layers < self.num_hidden_layers {
            self.num_hidden_layers - self.num_kv_shared_layers
        } else {
            0
        };
        if i < first_shared {
            return i;
        }
        let ty = self.layer_types[i];
        let mut j: usize = first_shared;
        while j > 0
            invariant
                self.wf(),
                first_shared == self.first_shared(),
                first_shared <= i < self.num_hidden_layers,
                ty == self.layer_types@[i as int],
                j <= first_shared,
                self.last_of_type(ty, first_shared as int) == self.last_of_type(ty, j as int),
            decreases j,
        {
            if self.layer_types[j - 1] == ty {
                return j - 1;
            }
            j = j - 1;
        }
        i
    }

    proof fn lemma_last_of_type(self, ty: LayerType, n: int)
        requires
            n <= self.layer_types@.len(),
        ensures
            self.last_of_type(ty, n) matches Some(j) ==> 0 <= j < n && self.layer_types@[j] == ty,
        decreases n,
    {
        if n > 0 && self.layer_types@[n - 1] != ty {
            self.lemma_last_of_type(ty, n - 1);
        }
    }

    /// A layer's source comes no later than the layer, has its attention type,
    /// head size and rotation, and owns the cache it lends.
    pub proof fn source_fits_layer(self, i: int)
        requires
            self.wf(),
            0 <= i < self.num_hidden_layers,
        ensures
            0 <= self.kv_source(i) <= i,
            self.layer_types@[self.kv_source(i)] == self.layer_types@[i],
            self.spec_head_dim(self.kv_source(i)) == self.spec_head_dim(i),
            self.spec_rope_for(self.kv_source(i)) == self.spec_rope_for(i),
            self.kv_source(self.kv_source(i)) == self.kv_source(i),
    {
        if i >= self.first_shared() {
            self.lemma_last_of_type(self.layer_types@[i], self.first_shared());
        }
    }

    /// Bit width of a quantized weight, or 16 for one that is not quantized.
    pub fn bits_for(&self, name: &str) -> (r: u32)
        ensures
            r == bits_by(rule_texts(self.quant_rules@), name@),
    {
        let ghost all = rule_texts(self.quant_rules@);
        let mut i: usize = 0;
        proof {
            assert(all.skip(0) =~= all);
        }
        while i < self.quant_rules.len()
            invariant
                all == rule_texts(self.quant_rules@),
                i <= self.quant_rules@.len(),
                bits_by(all, name@) == bits_by(all.skip(i as int), name@),
            decreases self.quant_rules@.len() - i,
        {
            let rule = &self.quant_rules[i];
            proof {
                assert(all.skip(i as int)[0] == (pattern_of(rule.re), rule.bits));
                assert(all.skip(i as int).drop_first() =~= all.skip(i + 1));
            }
            if let Some(hit) = is_match(&rule.re, name) {
                if hit {
                    return rule.bits;
                }
            }
            i = i + 1;
        }
        16
    }
}

} // verus!
