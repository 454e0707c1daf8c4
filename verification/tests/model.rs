//! The forward graph on the CPU backend, and the sampler.
use std::collections::HashMap;
use std::sync::Arc;

use gemma_wgpu::backend::Backend;
use gemma_wgpu::backend_cpu::{CpuBackend, CpuTensor, Elementary};
use gemma_wgpu::backend::TensorShape;
use gemma_wgpu::config::Gemma4Config;
use gemma_wgpu::float::{F32, F64};
use gemma_wgpu::json::parse;
use gemma_wgpu::kvcache::KVCache;
use gemma_wgpu::model::Gemma4Model;
use gemma_wgpu::sampler::{can_sample, greedy_opts, sample, Rng, SampleOpts};
use gemma_wgpu::weights::WeightSource;

type Cpu = CpuBackend<fn(Elementary, F32, F32) -> F32>;

fn f(x: f32) -> F32 {
    F32(x.to_bits())
}

fn fs(xs: &[f32]) -> Vec<F32> {
    xs.iter().map(|x| f(*x)).collect()
}

fn floats(xs: &[F32]) -> Vec<f32> {
    xs.iter().map(|x| f32::from_bits(x.0)).collect()
}

fn elementary(e: Elementary, x: F32, y: F32) -> F32 {
    let (x, y) = (f32::from_bits(x.0), f32::from_bits(y.0));
    f(match e {
        Elementary::Exp => x.exp(),
        Elementary::Tanh => x.tanh(),
        Elementary::Sin => x.sin(),
        Elementary::Cos => x.cos(),
        Elementary::Power => x.powf(y),
    })
}

fn cpu() -> Cpu {
    CpuBackend::new(elementary)
}

fn exp(x: F32) -> F32 {
    f(f32::from_bits(x.0).exp())
}

/// mulberry32.
struct Mulberry(u32);

impl Mulberry {
    fn next(&mut self) -> f64 {
        self.0 = self.0.wrapping_add(0x6d2b79f5);
        let mut t = self.0;
        t = (t ^ (t >> 15)).wrapping_mul(1 | t);
        t = (t.wrapping_add((t ^ (t >> 7)).wrapping_mul(61 | t))) ^ t;
        ((t ^ (t >> 14)) as f64) / 4294967296.0
    }
}

fn tiny_config(vocab: usize) -> Arc<Gemma4Config> {
    let text = r#"{ "text_config": {
        "vocab_size": VOCAB, "hidden_size": 32, "intermediate_size": 64, "num_hidden_layers": 6,
        "num_attention_heads": 4, "num_key_value_heads": 1, "head_dim": 8, "global_head_dim": 16,
        "hidden_size_per_layer_input": 12, "vocab_size_per_layer_input": VOCAB, "num_kv_shared_layers": 2,
        "sliding_window": 3, "rms_norm_eps": 1e-6, "final_logit_softcapping": 30.0,
        "rope_parameters": { "full_attention": { "rope_theta": 1e6, "partial_rotary_factor": 0.25 }, "sliding_attention": { "rope_theta": 1e4 } },
        "layer_types": ["sliding_attention","full_attention","sliding_attention","sliding_attention","sliding_attention","sliding_attention"]
    }}"#;
    let raw = parse(&text.replace("VOCAB", &vocab.to_string())).unwrap();
    Arc::new(Gemma4Config::from_json(&raw))
}

/// The shape of a weight by its logical name.
fn shape_of(name: &str, c: &Gemma4Config) -> Vec<usize> {
    let h = c.hidden_size;
    let i_ = c.intermediate_size;
    let v = c.vocab_size;
    let p = c.hidden_size_per_layer_input;
    let l = c.num_hidden_layers;
    let hq = c.num_attention_heads;
    let hkv = c.num_key_value_heads;
    match name {
        "language_model.embed_tokens.weight" => return vec![v, h],
        "language_model.embed_tokens_per_layer.weight" => return vec![v, l * p],
        "language_model.per_layer_model_projection.weight" => return vec![l * p, h],
        "language_model.per_layer_projection_norm.weight" => return vec![p],
        "language_model.norm.weight" => return vec![h],
        "lm_head.weight" => return vec![v, h],
        _ => {}
    }
    let rest = name.strip_prefix("language_model.layers.").expect("unknown weight");
    let (idx, sub) = rest.split_once('.').unwrap();
    let dh = c.head_dim(idx.parse().unwrap());
    match sub {
        "input_layernorm.weight" | "post_attention_layernorm.weight" | "pre_feedforward_layernorm.weight"
        | "post_feedforward_layernorm.weight" | "post_per_layer_input_norm.weight" => vec![h],
        "self_attn.q_proj.weight" => vec![hq * dh, h],
        "self_attn.k_proj.weight" | "self_attn.v_proj.weight" => vec![hkv * dh, h],
        "self_attn.o_proj.weight" => vec![h, hq * dh],
        "self_attn.q_norm.weight" | "self_attn.k_norm.weight" => vec![dh],
        "mlp.gate_proj.weight" | "mlp.up_proj.weight" => vec![i_, h],
        "mlp.down_proj.weight" => vec![h, i_],
        "per_layer_input_gate.weight" => vec![p, h],
        "per_layer_projection.weight" => vec![h, p],
        "layer_scalar" => vec![1],
        _ => panic!("unknown weight {name}"),
    }
}

/// Weights made up on demand, the same for the same seed.
struct SyntheticWeights {
    config: Arc<Gemma4Config>,
    rng: Mulberry,
    cache: HashMap<String, CpuTensor>,
    without: &'static [&'static str],
}

impl SyntheticWeights {
    fn new(config: Arc<Gemma4Config>, seed: u32) -> Self {
        Self { config, rng: Mulberry(seed), cache: HashMap::new(), without: &[] }
    }
}

impl WeightSource<Cpu> for SyntheticWeights {
    fn get(&mut self, name: &str) -> Option<CpuTensor> {
        if self.without.contains(&name) {
            return None;
        }
        if let Some(t) = self.cache.get(name) {
            return Some(t.share());
        }
        let shape = shape_of(name, &self.config);
        let n: usize = shape.iter().product();
        let is_norm = name.ends_with("norm.weight") || name.ends_with("layernorm.weight");
        let is_scalar = name.ends_with("layer_scalar");
        let (base, scale) = if is_norm || is_scalar { (1.0, 0.05) } else { (0.0, 0.04) };
        let data: Vec<F32> = (0..n).map(|_| f((base + (self.rng.next() * 2.0 - 1.0) * scale) as f32)).collect();
        let t = cpu().tensor(&data, &shape);
        self.cache.insert(name.to_string(), t.share());
        Some(t)
    }
}

fn model(c: &Arc<Gemma4Config>, seed: u32) -> Gemma4Model<Cpu, SyntheticWeights> {
    Gemma4Model::new(c.clone(), Arc::new(cpu()), SyntheticWeights::new(c.clone(), seed))
}

fn max_abs_diff(a: &[f32], b: &[f32]) -> f32 {
    assert_eq!(a.len(), b.len(), "length mismatch");
    a.iter().zip(b).map(|(x, y)| (x - y).abs()).fold(0.0, f32::max)
}

const IDS: [u32; 5] = [2, 10, 20, 30, 40];

#[test]
fn config_sanity() {
    let c = tiny_config(64);
    assert_eq!(c.num_hidden_layers, 6);
    assert!(c.is_global(1) && !c.is_global(0), "layer 1 is global, layer 0 local");
    assert_eq!((c.head_dim(1), c.head_dim(0)), (16, 8), "per-layer head_dim");
    for i in 0..c.num_hidden_layers {
        let s = c.kv_source_layer(i);
        assert!(s <= i, "layer {i} kv source {s} is valid (<= i)");
    }
    // shared layers (4, 5) reuse the most recent same-type non-shared layer
    assert_eq!(c.kv_source_layer(4), 3);
    assert_eq!(c.kv_source_layer(5), 3);
}

#[test]
fn forward_pass_is_finite() {
    let c = tiny_config(64);
    let mut m = model(&c, 42);
    let logits = m.forward(&IDS, &[0, 1, 2, 3, 4]);
    assert_eq!(logits.len(), c.vocab_size, "logits length == vocab_size");
    assert!(logits.iter().all(|x| x.is_finite()), "no NaNs/Infs in logits");
}

#[test]
fn incremental_decode_matches_full_sequence() {
    let c = tiny_config(64);
    let mut full = model(&c, 42);
    let full_logits = floats(&full.forward(&IDS, &[0, 1, 2, 3, 4]));
    let mut inc = model(&c, 42);
    let mut inc_logits = Vec::new();
    for (i, &id) in IDS.iter().enumerate() {
        inc_logits = floats(&inc.forward(&[id], &[i as u32]));
    }
    let d = max_abs_diff(&full_logits, &inc_logits);
    assert!(d < 1e-3, "last-token logits match (max abs diff {d:e})");
}

#[test]
fn one_go_and_two_goes_agree_bit_for_bit() {
    let c = tiny_config(64);
    let mut one = model(&c, 9);
    let whole = one.forward(&IDS, &[0, 1, 2, 3, 4]);
    let mut two = model(&c, 9);
    two.forward(&IDS[..3], &[0, 1, 2]);
    let last = two.forward(&IDS[3..], &[3, 4]);
    assert_eq!(whole, last);
    assert_eq!(one.cache.positions, two.cache.positions);
    for i in 0..c.num_hidden_layers {
        match (one.cache.read(i), two.cache.read(i)) {
            (Some(a), Some(b)) => {
                assert_eq!(a.k.data(), b.k.data());
                assert_eq!(a.v.data(), b.v.data());
            }
            (a, b) => assert!(a.is_none() && b.is_none()),
        }
    }
}

#[test]
fn long_sliding_window_sequence_stays_finite() {
    let c = tiny_config(64);
    let mut m = model(&c, 42);
    let ids: Vec<u32> = (0..20).map(|i| (i * 7) % 64).collect();
    let pos: Vec<u32> = (0..20).collect();
    let logits = m.forward(&ids, &pos);
    assert!(logits.iter().all(|x| x.is_finite()), "20-token forward stays finite");
}

#[test]
fn reset_clears_cache_and_reproduces() {
    let c = tiny_config(64);
    let mut m = model(&c, 7);
    let a = m.forward(&IDS, &[0, 1, 2, 3, 4]);
    m.reset();
    assert!(m.cache.is_empty());
    let b2 = m.forward(&IDS, &[0, 1, 2, 3, 4]);
    assert_eq!(a, b2);
}

#[test]
fn the_configured_soft_cap_is_not_applied() {
    let c = tiny_config(64);
    let plain = model(&c, 3).forward(&IDS, &[0, 1, 2, 3, 4]);
    let mut capped = Arc::into_inner(tiny_config(64)).unwrap();
    capped.final_logit_softcapping = f(1e-6);
    let capped = Arc::new(capped);
    assert_eq!(model(&capped, 3).forward(&IDS, &[0, 1, 2, 3, 4]), plain);
    assert!(plain.iter().any(|x| *x != plain[0]));
}

#[test]
fn shared_layers_keep_no_keys_of_their_own() {
    let c = tiny_config(64);
    let mut m = model(&c, 3);
    m.forward(&IDS, &[0, 1, 2, 3, 4]);
    assert_eq!(m.cache.len(), 5);
    for i in 0..4 {
        let slot = m.cache.read(i).unwrap();
        assert_eq!(slot.k.shape(), &[5, 1, c.head_dim(i)]);
        assert_eq!(slot.v.shape(), &[5, 1, c.head_dim(i)]);
    }
    assert!(m.cache.read(4).is_none() && m.cache.read(5).is_none());
    assert_eq!(m.cache.live_tensors().len(), 8);
    assert!(m.cache.take_dead().is_empty());
}

#[test]
fn a_missing_weight_is_named() {
    let c = tiny_config(64);
    let mut m = model(&c, 3);
    assert!(m.missing_weight().is_none());
    assert!(m.weights_fit());
    let lacking: [&[&str]; 4] = [
        &["language_model.embed_tokens.weight"],
        &["language_model.layers.3.self_attn.k_proj.weight"],
        &["language_model.norm.weight"],
        &["lm_head.weight"],
    ];
    for names in lacking {
        let mut m = model(&c, 3);
        m.weights.without = names;
        assert_eq!(m.missing_weight().as_deref(), Some(names[0]));
    }
    // layer 4 reads the keys of layer 3
    let mut m = model(&c, 3);
    m.weights.without = &["language_model.layers.4.self_attn.k_proj.weight"];
    assert!(m.missing_weight().is_none());
    assert!(m.weights_fit());
    assert_eq!(m.forward(&[1], &[0]).len(), 64);
}

#[test]
fn the_first_missing_weight_is_named() {
    let c = tiny_config(64);
    // each list in the order in which the weights are asked for
    let lacking: [&[&str]; 3] = [
        &["language_model.embed_tokens_per_layer.weight", "language_model.norm.weight", "lm_head.weight"],
        &["lm_head.weight", "language_model.layers.0.input_layernorm.weight"],
        &["language_model.layers.1.self_attn.k_proj.weight", "language_model.layers.1.self_attn.o_proj.weight"],
    ];
    for names in lacking {
        let mut m = model(&c, 3);
        m.weights.without = names;
        assert_eq!(m.missing_weight().as_deref(), Some(names[0]));
    }
}

#[test]
fn what_cannot_run_is_told() {
    let c = tiny_config(64);
    let mut m = model(&c, 3);
    assert!(m.weights_fit());
    assert!(m.can_run(&IDS, &[0, 1, 2, 3, 4]));
    assert!(!m.can_run(&[], &[]), "no token");
    assert!(!m.can_run(&[1, 2], &[0]), "a position is missing");
    assert!(!m.can_run(&[64], &[0]), "outside the vocabulary");
}

#[test]
fn weights_of_the_wrong_shape_do_not_fit() {
    let c = tiny_config(64);
    let mut m = model(&c, 3);
    m.weights.cache.insert("language_model.norm.weight".to_string(), cpu().zeros(&[31]));
    assert!(m.missing_weight().is_none());
    assert!(!m.weights_fit());
    // as many numbers as are read are enough, whatever the shape says
    let mut m = model(&c, 3);
    m.weights.cache.insert("language_model.norm.weight".to_string(), cpu().tensor(&fs(&[1.0; 40]), &[5]));
    assert!(m.weights_fit());
    let mut m = model(&c, 3);
    m.weights.cache.insert("lm_head.weight".to_string(), cpu().tensor(&fs(&[1.0; 40]), &[64, 32]));
    assert!(!m.weights_fit());
}

#[test]
fn a_cache_appends_and_forgets() {
    let b = cpu();
    let mut cache: KVCache<Cpu> = KVCache::new(2);
    assert!(cache.is_empty());
    cache.push_positions(&[0, 1]);
    let k = b.tensor(&fs(&[1.0, 2.0]), &[2, 1, 1]);
    let v = b.tensor(&fs(&[3.0, 4.0]), &[2, 1, 1]);
    cache.append_and_read(&b, 0, &k, &v);
    cache.push_positions(&[2]);
    let k2 = b.tensor(&fs(&[5.0]), &[1, 1, 1]);
    let v2 = b.tensor(&fs(&[6.0]), &[1, 1, 1]);
    cache.append_and_read(&b, 0, &k2, &v2);
    let slot = cache.read(0).unwrap();
    assert_eq!(floats(slot.k.data()), [1.0, 2.0, 5.0]);
    assert_eq!(floats(slot.v.data()), [3.0, 4.0, 6.0]);
    assert_eq!(slot.k.shape(), &[3, 1, 1]);
    assert!(cache.read(1).is_none());
    assert_eq!(cache.len(), 3);
    assert_eq!(cache.positions, [0, 1, 2]);
    cache.reset(&b);
    assert!(cache.is_empty() && cache.read(0).is_none());
}

// --- sampling ------------------------------------------------------------------------------

fn draw(x: f64) -> impl FnOnce() -> F64 {
    move || F64(x.to_bits())
}

#[test]
fn sampler() {
    let greedy = sample(&fs(&[0.1, 5.0, 0.2, -1.0]), &SampleOpts { temperature: f(0.0), ..Default::default() }, draw(0.99), &exp);
    assert_eq!(greedy, 1, "greedy picks argmax");
    let topk = sample(&fs(&[0.0, 10.0, 9.0, -5.0]), &SampleOpts { temperature: f(1.0), top_k: 1, ..Default::default() }, draw(0.99), &exp);
    assert_eq!(topk, 1, "top-k=1 is deterministic argmax");
    let penalized = sample(
        &fs(&[10.0, 4.0]),
        &SampleOpts { temperature: f(0.0), repetition_penalty: f(2.0), recent_tokens: Some(&[0, 0]), ..Default::default() },
        draw(0.99),
        &exp,
    );
    assert_eq!(penalized, 0, "repetition penalty applies once per unique token");
    // top-p keeps only the head of the distribution
    let topp = sample(&fs(&[0.0, 10.0, 9.9, -5.0]), &SampleOpts { temperature: f(1.0), top_p: f(0.5), ..Default::default() }, draw(0.0), &exp);
    assert_eq!(topp, 1);
    // full-vocab temperature sampling stays in range and is seed-deterministic
    let mut r1 = Rng::new(1);
    let mut r2 = Rng::new(1);
    let l: Vec<F32> = (0..100).map(|i| f((i as f32 * 0.37).sin())).collect();
    let a = sample(&l, &SampleOpts::default(), || r1.next_f64(), &exp);
    let b = sample(&l, &SampleOpts::default(), || r2.next_f64(), &exp);
    assert_eq!(a, b);
    assert!((a as usize) < l.len());
}

#[test]
fn a_draw_falls_where_the_weights_say() {
    // e^0 : e^0 : e^0, largest first with ties by index
    let l = fs(&[0.0, 0.0, 0.0]);
    for (u, id) in [(0.0, 0), (0.3, 0), (0.4, 1), (0.6, 1), (0.7, 2), (0.99, 2)] {
        assert_eq!(sample(&l, &SampleOpts::default(), draw(u), &exp), id, "draw {u}");
    }
    // ties keep their order under top-k too
    let o = SampleOpts { top_k: 2, ..Default::default() };
    assert_eq!(sample(&l, &o, draw(0.99), &exp), 1);
}

#[test]
fn top_k_sorts_the_largest_first() {
    let l = fs(&[1.0, 7.0, 3.0, 9.0, 5.0]);
    let o = SampleOpts { top_k: 3, temperature: f(1000.0), ..Default::default() };
    // nearly equal weights: 3, 1, 4 in this order
    for (u, id) in [(0.1, 3), (0.5, 1), (0.9, 4)] {
        assert_eq!(sample(&l, &o, draw(u), &exp), id);
    }
}

#[test]
fn a_negative_logit_is_penalized_downwards() {
    let o = SampleOpts { temperature: f(0.0), repetition_penalty: f(2.0), recent_tokens: Some(&[1]), ..Default::default() };
    assert_eq!(sample(&fs(&[-1.5, -1.0]), &o, draw(0.0), &exp), 0);
    // ids past the end are passed over
    let o = SampleOpts { temperature: f(0.0), repetition_penalty: f(2.0), recent_tokens: Some(&[7]), ..Default::default() };
    assert_eq!(sample(&fs(&[-1.5, -1.0]), &o, draw(0.0), &exp), 1);
}

#[test]
fn what_can_be_sampled() {
    let o = SampleOpts::default();
    assert!(can_sample(&fs(&[1.0, 2.0]), &o));
    assert!(!can_sample(&[], &o));
    assert!(greedy_opts(f(0.0)) && !greedy_opts(f(0.5)));
}

#[test]
fn the_generator_gives_known_numbers() {
    let mut r = Rng::new(0);
    assert_eq!(r.next_u64(), 0xe220_a839_7b1d_cdaf);
    assert_eq!(r.next_u64(), 0x6e78_9e6a_a1b9_65f4);
    let mut r = Rng::new(0);
    let x = f64::from_bits(r.next_f64().0);
    assert_eq!(x, (0xe220_a839_7b1d_cdafu64 >> 11) as f64 / (1u64 << 53) as f64);
    assert!((0.0..1.0).contains(&x));
    let mut a = Rng::from_entropy(12345, 7);
    let mut b = Rng::from_entropy(12345, 8);
    assert_ne!(a.next_u64(), b.next_u64());
}

#[test]
fn recent_tokens_count_as_a_set() {
    let l = fs(&[3.0, 1.0, 2.5, -1.0]);
    let go = |recent: &[u32], penalty: f32, u: f64| {
        let o = SampleOpts { repetition_penalty: f(penalty), recent_tokens: Some(recent), top_k: 3, ..Default::default() };
        sample(&l, &o, draw(u), &exp)
    };
    for u in [0.0, 0.3, 0.6, 0.9] {
        assert_eq!(go(&[0, 3], 1.5, u), go(&[3, 0, 0, 3, 77], 1.5, u));
        assert_eq!(go(&[0], 1.0, u), go(&[1, 2], 1.0, u));
    }
}

#[test]
fn draws_lie_below_one() {
    let mut r = Rng::new(99);
    for _ in 0..1000 {
        assert!((0.0..1.0).contains(&f64::from_bits(r.next_f64().0)));
    }
}
