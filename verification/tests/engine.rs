//! A tiny checkpoint in the published format: loaded, and made to answer.
use std::sync::Arc;

use gemma_wgpu::backend_cpu::{CpuBackend, Elementary};
use gemma_wgpu::config::Gemma4Config;
use gemma_wgpu::dequant::pack_unsigned;
use gemma_wgpu::engine::{
    preload, prompt_positions, read_config, read_tokenizer, Gemma4Mobile, GenerateOpts, LoadStage, Step,
};
use gemma_wgpu::float::F32;
use gemma_wgpu::json::{parse, parse_bytes, Json};
use gemma_wgpu::safetensors::{build_safetensors, f32_to_bf16, RawTensor, SafetensorsFile};
use gemma_wgpu::sampler::Rng;
use gemma_wgpu::template::Message;
use gemma_wgpu::weights::ModelWeights;

type Cpu = CpuBackend<fn(Elementary, F32, F32) -> F32>;

fn f(x: f32) -> F32 {
    F32(x.to_bits())
}

fn elementary(e: Elementary, x: F32, y: F32) -> F32 {
    let (x, y) = (f32::from_bits(x.0), f32::from_bits(y.0));
    f(match e {
        Elementary::Exp => x.exp(),
        Elementary::Tanh => x.tanh(),
        Elementary::Sin => x.sin(),
        Elementary::Cos => x.cos(),
        Elementary::Power => x.powf(y),
    })
}

fn exp(x: F32) -> F32 {
    f(f32::from_bits(x.0).exp())
}

struct Lcg(u32);

impl Lcg {
    fn next(&mut self) -> f32 {
        self.0 = (self.0.wrapping_mul(1103515245).wrapping_add(12345)) & 0x7fffffff;
        self.0 as f32 / 0x7fffffff as f32
    }
}

const CONFIG: &str = r#"{ "text_config": {
    "vocab_size": 40, "hidden_size": 32, "intermediate_size": 64, "num_hidden_layers": 6,
    "num_attention_heads": 4, "num_key_value_heads": 1, "head_dim": 8, "global_head_dim": 16,
    "hidden_size_per_layer_input": 12, "vocab_size_per_layer_input": 40, "num_kv_shared_layers": 2,
    "sliding_window": 3, "rms_norm_eps": 1e-6, "final_logit_softcapping": 30.0,
    "rope_parameters": { "full_attention": { "rope_theta": 1e6, "partial_rotary_factor": 0.25 }, "sliding_attention": { "rope_theta": 1e4 } },
    "layer_types": ["sliding_attention","full_attention","sliding_attention","sliding_attention","sliding_attention","sliding_attention"]
  }, "quantization_config": { "module_quant_configs": {
    "^lm_head$": { "num_bits": 2 },
    "language_model\\.embed_tokens$": { "num_bits": 2 },
    "language_model\\.embed_tokens_per_layer$": { "num_bits": 4 },
    "language_model\\.layers\\.(\\d|1[0-4])\\.mlp\\.": { "num_bits": 4 },
    "language_model\\.layers\\.\\d+\\.mlp\\.": { "num_bits": 2 },
    "language_model\\.layers\\.\\d+\\.per_layer_input_gate$": { "num_bits": 8 },
    "language_model\\.layers\\.\\d+\\.per_layer_projection$": { "num_bits": 8 },
    "language_model\\.layers\\.\\d+\\.self_attn\\.": { "num_bits": 4 }
  }}}"#;

const GENERATION: &str = r#"{"eos_token_id":[1,3,39]}"#;

type Tensors = Vec<(String, RawTensor)>;

fn packed(r: &mut Lcg, n: usize, bits: u32) -> Vec<u8> {
    let vals: Vec<u32> = (0..n).map(|_| (r.next() * (1u32 << bits) as f32).floor() as u32 % (1 << bits)).collect();
    pack_unsigned(&vals, bits)
}

fn scale_bytes(r: &mut Lcg, n: usize) -> Vec<u8> {
    (0..n).flat_map(|_| (0.02 + r.next() * 0.05).to_le_bytes()).collect()
}

fn add_q(t: &mut Tensors, r: &mut Lcg, real: &str, n: usize, k: usize, bits: u32, signed: bool, scale_cols: usize) {
    let bytes = if signed {
        (0..n * k).map(|_| ((r.next() * 256.0).floor() as i32 - 128) as i8 as u8).collect()
    } else {
        packed(r, n * k, bits)
    };
    let cols = if signed { k } else { k / (8 / bits as usize) };
    t.push((real.to_string(), RawTensor { dtype: (if signed { "I8" } else { "U8" }).into(), shape: vec![n, cols], bytes }));
    let sc = scale_bytes(r, n * scale_cols);
    t.push((format!("{real}_scale"), RawTensor { dtype: "F32".into(), shape: vec![n, scale_cols], bytes: sc }));
}

fn add_bf(t: &mut Tensors, r: &mut Lcg, real: &str, shape: &[usize]) {
    let n: usize = shape.iter().product();
    let bytes: Vec<u8> = (0..n).flat_map(|_| f32_to_bf16(f((r.next() * 2.0 - 1.0) * 0.05)).to_le_bytes()).collect();
    t.push((real.to_string(), RawTensor { dtype: "BF16".into(), shape: shape.to_vec(), bytes }));
}

fn add_embed(t: &mut Tensors, r: &mut Lcg, base: &str, n: usize, k: usize, bits: u32, scale_cols: usize) {
    let cols = k / (8 / bits as usize);
    let bytes = packed(r, n * k, bits);
    t.push((format!("{base}.embedding_quantized"), RawTensor { dtype: "U8".into(), shape: vec![n, cols], bytes }));
    let sc = scale_bytes(r, n * scale_cols);
    t.push((format!("{base}.embedding_scale"), RawTensor { dtype: "F32".into(), shape: vec![n, scale_cols], bytes: sc }));
}

/// Packed weights with their scales, norms in half precision, names as
/// published.
fn real_format_tensors(cfg: &Gemma4Config, seed: u32) -> Tensors {
    let mut r = Lcg(seed);
    let (h, i_, v, dple, l, hq, hkv) = (
        cfg.hidden_size,
        cfg.intermediate_size,
        cfg.vocab_size,
        cfg.hidden_size_per_layer_input,
        cfg.num_hidden_layers,
        cfg.num_attention_heads,
        cfg.num_key_value_heads,
    );
    let mut t: Tensors = Vec::new();
    add_embed(&mut t, &mut r, "model.language_model.embed_tokens", v, h, 2, 1);
    add_embed(&mut t, &mut r, "model.language_model.embed_tokens_per_layer", v, l * dple, 4, l);
    add_bf(&mut t, &mut r, "model.language_model.per_layer_model_projection.weight", &[l * dple, h]);
    add_bf(&mut t, &mut r, "model.language_model.per_layer_projection_norm.weight", &[dple]);
    add_bf(&mut t, &mut r, "model.language_model.norm.weight", &[h]);
    add_q(&mut t, &mut r, "lm_head.weight", v, h, 2, false, 1);
    for i in 0..l {
        let p = format!("model.language_model.layers.{i}");
        let dh = cfg.head_dim(i);
        for nm in ["input_layernorm", "post_attention_layernorm", "pre_feedforward_layernorm", "post_feedforward_layernorm", "post_per_layer_input_norm"] {
            add_bf(&mut t, &mut r, &format!("{p}.{nm}.weight"), &[h]);
        }
        add_bf(&mut t, &mut r, &format!("{p}.layer_scalar"), &[1]);
        add_bf(&mut t, &mut r, &format!("{p}.self_attn.q_norm.weight"), &[dh]);
        add_bf(&mut t, &mut r, &format!("{p}.self_attn.k_norm.weight"), &[dh]);
        add_q(&mut t, &mut r, &format!("{p}.self_attn.q_proj.weight"), hq * dh, h, 4, false, 1);
        add_q(&mut t, &mut r, &format!("{p}.self_attn.k_proj.weight"), hkv * dh, h, 4, false, 1);
        add_q(&mut t, &mut r, &format!("{p}.self_attn.v_proj.weight"), hkv * dh, h, 4, false, 1);
        add_q(&mut t, &mut r, &format!("{p}.self_attn.o_proj.weight"), h, hq * dh, 4, false, 1);
        add_q(&mut t, &mut r, &format!("{p}.mlp.gate_proj.weight"), i_, h, 4, false, 1);
        add_q(&mut t, &mut r, &format!("{p}.mlp.up_proj.weight"), i_, h, 4, false, 1);
        add_q(&mut t, &mut r, &format!("{p}.mlp.down_proj.weight"), h, i_, 4, false, 1);
        add_q(&mut t, &mut r, &format!("{p}.per_layer_input_gate.weight"), dple, h, 8, true, 1);
        add_q(&mut t, &mut r, &format!("{p}.per_layer_projection.weight"), h, dple, 8, true, 1);
    }
    // a vision tensor that the text model must ignore
    t.push(("model.vision_tower.patch.weight".into(), RawTensor { dtype: "F32".into(), shape: vec![4], bytes: vec![0u8; 16] }));
    t
}

/// 40 pieces: specials, a few words, and byte tokens from 'a' on.
fn tokenizer_text() -> String {
    let mut vocab: Vec<String> = Vec::new();
    for (p, s) in [("<pad>", 0.0), ("<eos>", 0.0), ("<bos>", 0.0), ("<turn|>", 0.0), ("<|turn>", 0.0), ("<unk>", 0.0), ("▁", -3.0), ("▁hi", -1.0), ("user", -2.0), ("model", -2.0), ("\\n", -2.0)] {
        vocab.push(format!("[\"{p}\",{s:.1}]"));
    }
    let mut i = 0;
    while vocab.len() < 40 {
        vocab.push(format!("[\"<0x{:02X}>\",-6.0]", 0x61 + i));
        i += 1;
    }
    format!(
        r#"{{ "added_tokens": [ {{"id":0,"content":"<pad>"}}, {{"id":1,"content":"<eos>"}}, {{"id":2,"content":"<bos>"}}, {{"id":3,"content":"<turn|>"}}, {{"id":4,"content":"<|turn>"}} ],
        "model": {{ "type": "Unigram", "unk_id": 5, "byte_fallback": true, "vocab": [{}] }} }}"#,
        vocab.join(",")
    )
}

/// Load as the application does, from texts and bytes in place of files.
fn load(stages: &mut Vec<String>) -> Gemma4Mobile<'static, Cpu> {
    stages.push(format!("{:?}", LoadStage::Config));
    let raw: Json = parse(CONFIG).unwrap();
    let generation: Json = parse_bytes(GENERATION.as_bytes()).unwrap();
    let config = Arc::new(read_config(&raw, Some(&generation)));
    stages.push(format!("{:?}", LoadStage::Tokenizer));
    let tokenizer = Arc::new(read_tokenizer(&parse(&tokenizer_text()).unwrap(), &config).unwrap());
    let backend: Arc<Cpu> = Arc::new(CpuBackend::new(elementary));
    let blob = build_safetensors(&real_format_tensors(&config, 11));
    let file = SafetensorsFile::from_vec(blob).unwrap();
    let mut weights = ModelWeights::new(vec![file], config.clone(), backend.clone());
    let names = gemma_wgpu::weights::logical_weight_names(&config);
    for i in 0..names.len() {
        assert!(weights.read(&names[i]).is_ok());
        stages.push(format!("{:?}", preload::<Cpu, ModelWeights<'static, Cpu>>(&mut weights, &names, i)));
    }
    stages.push(format!("{:?}", LoadStage::Ready));
    let mut engine = Gemma4Mobile::new(config, tokenizer, backend, weights);
    assert!(engine.model.missing_weight().is_none());
    assert!(engine.model.weights_fit());
    engine
}

/// Every step of an answer.
fn answer(engine: &mut Gemma4Mobile<'static, Cpu>, messages: &[Message], opts: GenerateOpts) -> Vec<Step> {
    let ids = engine.encode_chat(messages);
    engine.model.reset();
    assert!(engine.model.can_run(&ids, &prompt_positions(ids.len() as u32)));
    let mut g = engine.generate(messages, opts, Rng::new(0));
    let mut steps = Vec::new();
    loop {
        assert!(g.is_ready());
        match g.next(&mut engine.model, &engine.tokenizer, &exp) {
            Some(s) => steps.push(s),
            None => return steps,
        }
    }
}

#[test]
fn load_and_generate_cpu() {
    let mut stages = Vec::new();
    let mut engine = load(&mut stages);
    assert!(stages.last().unwrap().contains("Ready"));
    assert!(stages.iter().any(|s| s.contains("Weights")));
    // eos union of config.json ([1,106] default) and generation_config.json ([1,3,39])
    assert!(engine.config.eos_token_ids.contains(&3) && engine.config.eos_token_ids.contains(&39));

    let ids = engine.encode_chat(&[Message::user("hi")]);
    assert_eq!(ids[0], 2, "bos first");
    assert!(ids.contains(&4) && ids.contains(&3), "turn delimiters are single tokens");

    let opts = GenerateOpts { max_new_tokens: 6, temperature: f(0.0), seed: Some(1), ..Default::default() };
    let steps: Vec<Step> = answer(&mut engine, &[Message::user("hi")], opts.clone());
    assert!(!steps.is_empty() && steps.len() <= 6);
    for s in &steps {
        assert!(!engine.config.eos_token_ids.contains(&s.token_id), "eos never yielded");
        assert!((s.token_id as usize) < engine.config.vocab_size);
    }
    let last = steps.last().unwrap();
    assert_eq!(last.text, steps.iter().map(|s| s.delta.as_str()).collect::<String>(), "text accumulates deltas");

    // greedy decoding is deterministic across calls (cache reset between runs)
    let again: Vec<u32> = answer(&mut engine, &[Message::user("hi")], opts).iter().map(|s| s.token_id).collect();
    assert_eq!(again, steps.iter().map(|s| s.token_id).collect::<Vec<_>>());
}

#[test]
fn stop_ids_are_joined_once() {
    let raw = parse(r#"{ "eos_token_id": [1, 106] }"#).unwrap();
    let generation = parse(GENERATION).unwrap();
    assert_eq!(read_config(&raw, Some(&generation)).eos_token_ids, [1, 106, 3, 39]);
    assert_eq!(read_config(&raw, None).eos_token_ids, [1, 106]);
    let one = parse(r#"{ "eos_token_id": 7 }"#).unwrap();
    assert_eq!(read_config(&raw, Some(&one)).eos_token_ids, [1, 106, 7]);
}

#[test]
fn a_seed_repeats_the_answer() {
    let mut engine = load(&mut Vec::new());
    let opts = GenerateOpts { max_new_tokens: 5, seed: Some(42), repetition_penalty: f(1.3), ..Default::default() };
    let a: Vec<u32> = answer(&mut engine, &[Message::user("hi")], opts.clone()).iter().map(|s| s.token_id).collect();
    let b: Vec<u32> = answer(&mut engine, &[Message::user("hi")], opts).iter().map(|s| s.token_id).collect();
    assert_eq!(a, b);
}

#[test]
fn nothing_comes_of_no_allowance() {
    let mut engine = load(&mut Vec::new());
    let opts = GenerateOpts { max_new_tokens: 0, ..Default::default() };
    assert!(answer(&mut engine, &[Message::user("hi")], opts).is_empty());
}

#[test]
fn an_end_of_text_ends_the_run() {
    let mut engine = load(&mut Vec::new());
    let opts = GenerateOpts { max_new_tokens: 3, temperature: f(0.0), ..Default::default() };
    let steps = answer(&mut engine, &[Message::user("hi")], opts.clone());
    let first = steps[0].token_id;
    let ids = engine.encode_chat(&[Message::user("hi")]);
    engine.model.reset();
    let mut g = engine.generate_ids(ids, opts, Rng::new(0));
    g.eos.push(first);
    assert!(g.next(&mut engine.model, &engine.tokenizer, &exp).is_none());
    assert!(g.next(&mut engine.model, &engine.tokenizer, &exp).is_none());
}

#[test]
fn defaults_of_generation() {
    let o = GenerateOpts::default();
    assert_eq!((o.max_new_tokens, o.top_k, o.seed), (512, 64, None));
    assert_eq!((o.temperature, o.top_p, o.repetition_penalty), (f(1.0), f(0.95), f(1.0)));
    assert_eq!(prompt_positions(3), [0, 1, 2]);
}

#[test]
fn a_token_is_its_raw_piece() {
    let mut engine = load(&mut Vec::new());
    let opts = GenerateOpts { max_new_tokens: 6, temperature: f(0.0), ..Default::default() };
    let steps = answer(&mut engine, &[Message::user("hi")], opts.clone());
    for s in &steps {
        assert_eq!(Some(s.token.as_str()), engine.tokenizer.piece(s.token_id));
    }
    // make the first token a word: its ▁ stays, and the text has none
    let ids = engine.encode_chat(&[Message::user("hi")]);
    engine.model.reset();
    let mut g = engine.generate_ids(ids, opts, Rng::new(0));
    let mut logits = vec![f(0.0); 40];
    logits[7] = f(1.0);
    g.logits = Some(logits);
    let s = g.next(&mut engine.model, &engine.tokenizer, &exp).unwrap();
    assert_eq!((s.token_id, s.token.as_str(), s.delta.as_str()), (7, "▁hi", "hi"));
}

#[test]
fn a_stopped_run_stays_as_it_is() {
    let mut engine = load(&mut Vec::new());
    let opts = GenerateOpts { max_new_tokens: 2, temperature: f(0.0), ..Default::default() };
    let ids = engine.encode_chat(&[Message::user("hi")]);
    engine.model.reset();
    let mut g = engine.generate_ids(ids, opts, Rng::new(0));
    while g.next(&mut engine.model, &engine.tokenizer, &exp).is_some() {}
    let (step, pos, text) = (g.step, g.pos, g.text_dec.text.clone());
    assert!(g.next(&mut engine.model, &engine.tokenizer, &exp).is_none());
    assert_eq!((g.step, g.pos, &g.text_dec.text), (step, pos, &text));
}

#[test]
fn a_run_keeps_to_its_bounds() {
    let mut engine = load(&mut Vec::new());
    let msgs = [Message::user("hi")];
    for temperature in [0.0, 1.0] {
        let opts = |seed: u64| GenerateOpts { max_new_tokens: 6, temperature: f(temperature), seed: Some(seed), ..Default::default() };
        let steps = answer(&mut engine, &msgs, opts(7));
        assert!(steps.len() <= 6);
        let mut text = String::new();
        for s in &steps {
            assert!(!engine.config.eos_token_ids.contains(&s.token_id));
            assert!((s.token_id as usize) < engine.config.vocab_size);
            text.push_str(&s.delta);
            assert_eq!(s.text, text);
        }
        // the same seed gives the same run; where the likeliest is taken, any does
        let ids = |steps: &[Step]| steps.iter().map(|s| s.token_id).collect::<Vec<u32>>();
        assert_eq!(ids(&answer(&mut engine, &msgs, opts(7))), ids(&steps));
        if temperature == 0.0 {
            assert_eq!(ids(&answer(&mut engine, &msgs, opts(8))), ids(&steps));
        }
    }
}

#[test]
fn what_is_loaded_is_kept() {
    let engine = load(&mut Vec::new());
    for name in gemma_wgpu::weights::logical_weight_names(&engine.config) {
        assert!(engine.model.weights.cache.contains_key(&name), "{name}");
    }
}
