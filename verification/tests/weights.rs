//! Safetensors, packed weights, weight names and the configuration.
use std::sync::Arc;

use gemma_wgpu::backend::{Backend, QuantWeight, TensorShape};
use gemma_wgpu::backend_cpu::{CpuBackend, Elementary};
use gemma_wgpu::config::Gemma4Config;
use gemma_wgpu::dequant::{dequantize, dequantize_weight, field_at, pack_int, pack_unsigned, unpack_int};
use gemma_wgpu::float::F32;
use gemma_wgpu::safetensors::{
    bf16_to_f32, build_safetensors, decode_to_f32, f16_to_f32, f32_to_bf16, parse_header, RawTensor, SafetensorsError,
    SafetensorsFile,
};
use gemma_wgpu::weights::{
    is_text_tensor, layer_weight_name, logical_weight_names, resolve_tensor_names, LoadedWeight, ModelWeights, WeightSource,
};

type Cpu = CpuBackend<fn(Elementary, F32, F32) -> F32>;

fn f(x: f32) -> F32 {
    F32(x.to_bits())
}

fn floats(xs: &[F32]) -> Vec<f32> {
    xs.iter().map(|x| f32::from_bits(x.0)).collect()
}

fn elementary(_e: Elementary, x: F32, _y: F32) -> F32 {
    x
}

fn raw(dtype: &str, shape: &[usize], bytes: Vec<u8>) -> RawTensor {
    RawTensor { dtype: dtype.into(), shape: shape.to_vec(), bytes }
}

fn f32_bytes(xs: &[f32]) -> Vec<u8> {
    xs.iter().flat_map(|x| x.to_le_bytes()).collect()
}

/// The configuration of the published model, as far as names and layers go.
fn e2b_config() -> Gemma4Config {
    let layers: Vec<&str> = (0..35).map(|i| if i % 5 == 4 { "\"full_attention\"" } else { "\"sliding_attention\"" }).collect();
    let text = r#"{ "text_config": { "num_hidden_layers": 35, "num_kv_shared_layers": 20, "layer_types": [LAYERS] },
        "quantization_config": { "module_quant_configs": {
            "^lm_head$": { "num_bits": 2 },
            "language_model\\.embed_tokens$": { "num_bits": 2 },
            "language_model\\.embed_tokens_per_layer$": { "num_bits": 4 },
            "language_model\\.layers\\.(\\d|1[0-4])\\.mlp\\.": { "num_bits": 4 },
            "language_model\\.layers\\.\\d+\\.mlp\\.": { "num_bits": 2 },
            "language_model\\.layers\\.\\d+\\.per_layer_input_gate$": { "num_bits": 8 },
            "language_model\\.layers\\.\\d+\\.per_layer_projection$": { "num_bits": 8 },
            "language_model\\.layers\\.\\d+\\.self_attn\\.": { "num_bits": 4 }
        }}}"#;
    Gemma4Config::from_json_str(&text.replace("LAYERS", &layers.join(","))).unwrap()
}

#[test]
fn safetensors_dtype_decode() {
    let f32b: Vec<u8> = [1.5f32, -2.25, 3.0, 0.0].iter().flat_map(|f| f.to_le_bytes()).collect();
    let f16b: Vec<u8> = [0x3c00u16, 0x4000].iter().flat_map(|h| h.to_le_bytes()).collect();
    let bf16b: Vec<u8> = [0x3f80u16, 0xc000].iter().flat_map(|h| h.to_le_bytes()).collect();
    let blob = build_safetensors(&[
        ("a".into(), raw("F32", &[2, 2], f32b)),
        ("b".into(), raw("F16", &[2], f16b)),
        ("c".into(), raw("BF16", &[2], bf16b)),
    ]);
    let st = SafetensorsFile::from_vec(blob).unwrap();
    let mut names: Vec<String> = st.names();
    names.sort();
    assert_eq!(names, ["a", "b", "c"]);
    assert_eq!(floats(&st.tensor("a").unwrap().data), [1.5, -2.25, 3.0, 0.0]);
    assert_eq!(floats(&st.tensor("b").unwrap().data), [1.0, 2.0]);
    assert_eq!(floats(&st.tensor("c").unwrap().data), [1.0, -2.0]);
    assert_eq!(st.meta("a").unwrap().shape, [2, 2]);
    assert!(st.tensor("zzz").is_err());
}

#[test]
fn int_pack_unpack_roundtrip() {
    for bits in [2u32, 4, 8] {
        let lo = -(1i32 << (bits - 1));
        let hi = (1i32 << (bits - 1)) - 1;
        let vals: Vec<i32> = (0..33).map(|i| lo + (i % (hi - lo + 1))).collect();
        let packed = pack_int(&vals, bits);
        let back = unpack_int(&packed, bits, vals.len());
        assert_eq!(back, vals, "{bits}-bit pack/unpack exact");
    }
}

#[test]
fn dequantize_per_row() {
    let q = [1, -2, 3, 0, 2, 2, -1, 4];
    let scales = [f(0.5), f(2.0)];
    let out = dequantize(&q, &scales, 2, 4, 4);
    assert_eq!(floats(&out), [0.5, -1.0, 1.5, 0.0, 4.0, 4.0, -2.0, 8.0]);
    let bytes = pack_int(&q, 4);
    assert_eq!(dequantize_weight(&bytes, &scales, [2, 4], 4, Some(4)), out);
}

#[test]
fn name_resolution_and_bits() {
    let r = resolve_tensor_names("language_model.layers.3.self_attn.q_proj.weight");
    assert_eq!(r.weight, "model.language_model.layers.3.self_attn.q_proj.weight");
    assert_eq!(r.scale, "model.language_model.layers.3.self_attn.q_proj.weight_scale");
    assert_eq!(resolve_tensor_names("language_model.layers.3.layer_scalar").bare.as_deref(), Some("model.language_model.layers.3.layer_scalar"));
    assert_eq!(resolve_tensor_names("lm_head.weight").weight, "lm_head.weight");
    assert_eq!(resolve_tensor_names("language_model.embed_tokens.weight").weight, "model.language_model.embed_tokens.embedding_quantized");
    assert!(is_text_tensor("model.language_model.norm.weight") && !is_text_tensor("model.vision_tower.x"));

    let cfg = e2b_config();
    assert_eq!(cfg.num_hidden_layers, 35);
    assert_eq!(cfg.bits_for("lm_head"), 2);
    assert_eq!(cfg.bits_for("language_model.layers.3.mlp.gate_proj"), 4);
    assert_eq!(cfg.bits_for("language_model.layers.15.mlp.gate_proj"), 2);
    assert_eq!(cfg.bits_for("language_model.layers.15.per_layer_input_gate"), 8);
    assert_eq!(cfg.bits_for("language_model.layers.0.self_attn.q_proj"), 4);
    assert_eq!(cfg.bits_for("language_model.norm"), 16);
    assert!(cfg.is_global(4) && !cfg.is_global(3));
    assert_eq!(cfg.kv_source_layer(34), 14);
    assert_eq!(cfg.kv_source_layer(20), 13);
}

#[test]
fn a_file_gives_back_what_was_written() {
    let tensors = [
        ("x".to_string(), raw("I8", &[3], vec![1, 2, 255])),
        ("empty".to_string(), raw("F32", &[0], vec![])),
        ("y\"\\\n".to_string(), raw("U8", &[2, 1], vec![7, 9])),
    ];
    let blob = build_safetensors(&tensors);
    let st = SafetensorsFile::from_vec(blob).unwrap();
    for (name, t) in &tensors {
        assert!(st.contains(name));
        assert_eq!(st.raw_bytes(name).unwrap(), t.bytes);
        let m = st.meta(name).unwrap();
        assert_eq!((m.dtype.as_str(), &m.shape), (t.dtype.as_str(), &t.shape));
    }
    assert_eq!(st.names().len(), 3);
    assert_eq!(st.total_bytes(), st.bytes.as_slice().len());
}

#[test]
fn each_error_has_its_words() {
    let short = SafetensorsFile::from_vec(vec![1, 2, 3]);
    assert!(matches!(short, Err(SafetensorsError::Header(_))));
    let mut bad = 2u64.to_le_bytes().to_vec();
    bad.extend_from_slice(b"[]");
    assert!(matches!(parse_header(&bad), Err(SafetensorsError::Header(_))));
    let blob = build_safetensors(&[("q".to_string(), raw("I64", &[1], vec![0; 8]))]);
    let st = SafetensorsFile::from_vec(blob).unwrap();
    match st.tensor("q") {
        Err(e) => assert_eq!(e.message(), "unsupported dtype I64"),
        Ok(_) => panic!("an I64 tensor was decoded"),
    }
    match st.tensor("zzz") {
        Err(e) => assert_eq!(e.message(), "tensor not found: zzz"),
        Ok(_) => panic!("an absent tensor was found"),
    }
    assert_eq!(SafetensorsError::Io("gone".to_string()).message(), "io: gone");
    assert!(SafetensorsError::Header("h".to_string()).message().starts_with("invalid safetensors header: "));
}

#[test]
fn offsets_outside_the_file_are_refused() {
    let header = br#"{"t":{"dtype":"U8","shape":[4],"data_offsets":[0,4]}}"#;
    let mut blob = (header.len() as u64).to_le_bytes().to_vec();
    blob.extend_from_slice(header);
    blob.extend_from_slice(&[1, 2]);
    let st = SafetensorsFile::from_vec(blob).unwrap();
    match st.raw_bytes("t") {
        Err(SafetensorsError::Header(s)) => assert_eq!(s, "t: offsets 0..4 out of range"),
        _ => panic!("bytes past the end"),
    }
}

#[test]
fn every_half_converts_exactly() {
    assert_eq!(f16_to_f32(0x3c00), f(1.0));
    assert_eq!(f16_to_f32(0xc000), f(-2.0));
    assert_eq!(f16_to_f32(0x0001), f(5.960_464_5e-8));
    assert_eq!(f16_to_f32(0x7bff), f(65504.0));
    assert_eq!(f16_to_f32(0x7c00), f(f32::INFINITY));
    assert!(f16_to_f32(0x7e00).is_nan());
    assert_eq!(bf16_to_f32(0x3f80), f(1.0));
    // the low half is cut off
    assert_eq!(f32_to_bf16(f(1.0)), 0x3f80);
    assert_eq!(f32_to_bf16(F32(0x3f81_ffff)), 0x3f81);
    for h in [0u16, 1, 0x3f80, 0x8000, 0xc2c8, 0x7f80] {
        assert_eq!(f32_to_bf16(bf16_to_f32(h)), h);
    }
}

#[test]
fn other_types_do_not_decode() {
    assert_eq!(floats(&decode_to_f32("F32", &[0, 0, 128, 63, 9]).unwrap()), [1.0]);
    match decode_to_f32("I8", &[1]) {
        Err(SafetensorsError::Dtype(d)) => assert_eq!(d, "I8"),
        _ => panic!("a packed type was decoded"),
    }
}

#[test]
fn fields_lie_low_to_high() {
    assert_eq!((field_at(0x21, 4, 0), field_at(0x21, 4, 1)), (1, 2));
    assert_eq!(pack_unsigned(&[1, 2, 3, 0, 1], 2), [0b00_11_10_01, 1]);
    // below a byte, 0 is the most negative value
    assert_eq!(unpack_int(&[0xf8], 4, 2), [0, 7]);
    assert_eq!(unpack_int(&[0x00], 4, 2), [-8, -8]);
    assert_eq!(unpack_int(&[0x80], 8, 1), [-128]);
}

#[test]
fn scales_belong_to_groups() {
    // one row of four, two groups of two
    let out = dequantize(&[1, 1, 1, 1], &[f(0.5), f(2.0)], 1, 4, 2);
    assert_eq!(floats(&out), [0.5, 0.5, 2.0, 2.0]);
    let q = QuantWeight {
        qbytes: pack_unsigned(&[9, 8, 7, 6], 4),
        scales: vec![f(0.5), f(2.0)],
        shape: [1, 4],
        bits: 4,
        signed_i8: false,
        group_size: 2,
    };
    assert!(q.is_whole());
    assert_eq!((q.per_byte(), q.row_bytes(), q.scale_stride()), (2, 2, 2));
    assert_eq!((0..4).map(|k| f32::from_bits(q.deq(0, k).0)).collect::<Vec<f32>>(), [0.5, 0.0, -2.0, -4.0]);
}

#[test]
fn a_packed_weight_short_of_bytes_is_not_whole() {
    let q = QuantWeight { qbytes: vec![0; 3], scales: vec![f(1.0); 2], shape: [2, 4], bits: 4, signed_i8: false, group_size: 4 };
    assert!(!q.is_whole());
}

#[test]
fn weights_are_read_by_logical_name() {
    let cfg = Arc::new(e2b_config());
    let backend: Arc<Cpu> = Arc::new(CpuBackend::new(elementary));
    let norm: Vec<u8> = [0x3f80u16, 0x4000].iter().flat_map(|h| h.to_le_bytes()).collect();
    let blob = build_safetensors(&[
        ("model.language_model.norm.weight".to_string(), raw("BF16", &[2], norm)),
        ("lm_head.weight".to_string(), raw("U8", &[2, 1], pack_unsigned(&[3, 2, 1, 0, 2, 2, 2, 2], 2))),
        ("lm_head.weight_scale".to_string(), raw("F32", &[2, 1], f32_bytes(&[0.5, 2.0]))),
        ("model.vision_tower.patch.weight".to_string(), raw("F32", &[1], f32_bytes(&[1.0]))),
    ]);
    let mut w = ModelWeights::new(vec![SafetensorsFile::from_vec(blob).unwrap()], cfg, backend);
    match w.read("language_model.norm.weight") {
        Ok(Some(LoadedWeight::Plain(t))) => assert_eq!(floats(&t.data), [1.0, 2.0]),
        _ => panic!("a plain weight was expected"),
    }
    match w.read("lm_head.weight") {
        Ok(Some(LoadedWeight::Packed(q))) => {
            assert_eq!((q.shape, q.bits, q.group_size, q.signed_i8), ([2, 4], 2, 4, false));
            assert_eq!((0..4).map(|k| f32::from_bits(q.deq(0, k).0)).collect::<Vec<f32>>(), [0.5, 0.0, -0.5, -1.0]);
        }
        _ => panic!("a packed weight was expected"),
    }
    assert!(matches!(w.read("language_model.embed_tokens.weight"), Ok(None)));
    let t = w.get("lm_head.weight").unwrap();
    assert_eq!(t.shape(), &[2, 4]);
    assert!(t.is_packed());
    assert_eq!(floats(w.get("language_model.norm.weight").unwrap().data()), [1.0, 2.0]);
    assert!(w.get("language_model.embed_tokens.weight").is_none());
    let mut names = w.text_tensor_names();
    names.sort();
    assert_eq!(names, ["lm_head.weight", "lm_head.weight_scale", "model.language_model.norm.weight"]);
}

#[test]
fn a_packed_weight_that_cannot_be_read_is_told() {
    let cfg = Arc::new(e2b_config());
    let backend: Arc<Cpu> = Arc::new(CpuBackend::new(elementary));
    // the scale is an integer tensor of a type with no decoding
    let blob = build_safetensors(&[
        ("lm_head.weight".to_string(), raw("U8", &[1, 1], vec![0])),
        ("lm_head.weight_scale".to_string(), raw("I64", &[1, 1], vec![0; 8])),
    ]);
    let w = ModelWeights::new(vec![SafetensorsFile::from_vec(blob).unwrap()], cfg, backend);
    assert!(w.read("lm_head.weight").is_err());
}

/// What is told of a header's one entry `t`.
fn told_of(entry: &str) -> String {
    let header = format!(r#"{{"t":{entry}}}"#);
    let mut blob = (header.len() as u64).to_le_bytes().to_vec();
    blob.extend_from_slice(header.as_bytes());
    match SafetensorsFile::from_vec(blob) {
        Err(SafetensorsError::Header(e)) => e,
        Err(_) => panic!("told as something else"),
        Ok(_) => "read".to_string(),
    }
}

#[test]
fn a_bad_entry_is_told_in_words() {
    let cases = [
        (r#"{"dtype":"U8","shape":[1],"data_offsets":[0,1]}"#, "read"),
        (r#"["U8",[1],[0,1]]"#, "read"),
        (r#"{"dtype":"U8","shape":[1],"data_offsets":[0,1],"more":null}"#, "read"),
        (r#"{"shape":[1],"data_offsets":[0,1]}"#, "t: missing field `dtype`"),
        (r#"{"dtype":"U8","data_offsets":[0,1]}"#, "t: missing field `shape`"),
        (r#"{"dtype":"U8","shape":[1]}"#, "t: missing field `data_offsets`"),
        (r#"{"dtype":5,"shape":[1],"data_offsets":[0,1]}"#, "t: invalid type: integer `5`, expected a string"),
        (r#"{"dtype":"U8","shape":7,"data_offsets":[0,1]}"#, "t: invalid type: integer `7`, expected a sequence"),
        (r#"{"dtype":"U8","shape":[-1],"data_offsets":[0,1]}"#, "t: invalid value: integer `-1`, expected usize"),
        (r#"{"dtype":"U8","shape":[1],"data_offsets":[0]}"#, "t: invalid length 1, expected an array of length 2"),
        // the fields come in the order of their names
        (r#"{"shape":null,"dtype":null,"data_offsets":[0,1]}"#, "t: invalid type: null, expected a string"),
        ("null", "t: invalid type: null, expected struct TensorMeta"),
        ("2.5", "t: invalid type: floating point `2.5`, expected struct TensorMeta"),
        ("-3", "t: invalid type: integer `-3`, expected struct TensorMeta"),
        (r#""x""#, r#"t: invalid type: string "x", expected struct TensorMeta"#),
        ("true", "t: invalid type: boolean `true`, expected struct TensorMeta"),
        ("[]", "t: invalid length 0, expected struct TensorMeta with 3 elements"),
        (r#"["U8"]"#, "t: invalid length 1, expected struct TensorMeta with 3 elements"),
        (r#"["U8",[1],[0,1],4]"#, "t: invalid length 4, expected fewer elements in array"),
        (r#"["U8",{}]"#, "t: invalid type: map, expected a sequence"),
    ];
    for (entry, want) in cases {
        assert_eq!(told_of(entry), want, "{entry}");
    }
}

#[test]
fn a_tensor_is_loaded_whatever_its_shape_says() {
    let cfg = Arc::new(e2b_config());
    let backend: Arc<Cpu> = Arc::new(CpuBackend::new(elementary));
    let blob = build_safetensors(&[
        ("model.language_model.norm.weight".to_string(), raw("F32", &[3], f32_bytes(&[1.0, 2.0]))),
        ("lm_head.weight".to_string(), raw("U8", &[2, 2], vec![1, 2, 3])),
        ("lm_head.weight_scale".to_string(), raw("F32", &[2, 1], f32_bytes(&[0.5, 2.0]))),
        ("model.language_model.embed_tokens.embedding_quantized".to_string(), raw("U8", &[1, 1], vec![0])),
        ("model.language_model.embed_tokens.embedding_scale".to_string(), raw("F32", &[1, 1], f32_bytes(&[0.5, 9.0]))),
    ]);
    let mut w = ModelWeights::new(vec![SafetensorsFile::from_vec(blob).unwrap()], cfg, backend);
    let norm = w.get("language_model.norm.weight").unwrap();
    assert_eq!((norm.shape(), norm.size(), norm.is_whole()), (&[3usize][..], 2, false));
    assert_eq!(floats(norm.data()), [1.0, 2.0]);
    match w.read("lm_head.weight") {
        Ok(Some(LoadedWeight::Packed(q))) => assert_eq!((q.shape, q.qbytes.len(), q.is_whole()), ([2, 8], 3, false)),
        _ => panic!("a packed weight was expected"),
    }
    let head = w.get("lm_head.weight").unwrap();
    assert_eq!((head.shape(), head.size(), head.is_packed(), head.is_whole()), (&[2usize, 8][..], 16, true, false));
    let embed = w.get("language_model.embed_tokens.weight").unwrap();
    assert!(embed.is_whole());
}

#[test]
fn the_later_file_wins() {
    let cfg = Arc::new(e2b_config());
    let backend: Arc<Cpu> = Arc::new(CpuBackend::new(elementary));
    let file = |x: f32| {
        SafetensorsFile::from_vec(build_safetensors(&[(
            "model.language_model.norm.weight".to_string(),
            raw("F32", &[1], f32_bytes(&[x])),
        )]))
        .unwrap()
    };
    let mut w = ModelWeights::new(vec![file(1.0), file(2.0)], cfg, backend);
    assert_eq!(floats(w.get("language_model.norm.weight").unwrap().data()), [2.0]);
}

#[test]
fn every_weight_of_the_model_has_a_name() {
    let cfg = e2b_config();
    let names = logical_weight_names(&cfg);
    assert_eq!(names[0], "language_model.embed_tokens.weight");
    assert_eq!(names.last().unwrap(), "lm_head.weight");
    assert!(names.contains(&layer_weight_name(34, "layer_scalar")));
    assert!(names.contains(&"language_model.layers.10.mlp.down_proj.weight".to_string()));
}

#[test]
fn a_configuration_has_defaults() {
    let c = Gemma4Config::from_json_str("{}").unwrap();
    assert_eq!(c.num_hidden_layers, c.layer_types.len());
    assert_eq!(c.eos_token_ids, [1, 106]);
    assert_eq!(c.rope_full.theta, f(1e6));
    assert_eq!(c.rope_sliding.theta, f(1e4));
    assert!(c.is_global(c.num_hidden_layers - 1), "the last layer is global");
    assert!(Gemma4Config::from_json_str("{").is_err());
}

#[test]
fn a_rule_that_is_no_pattern_is_passed_over() {
    let c = Gemma4Config::from_json_str(
        r#"{ "quantization_config": { "module_quant_configs": { "(": { "num_bits": 2 }, "^x(?!y)": { "num_bits": 4 } } } }"#,
    )
    .unwrap();
    assert_eq!(c.quant_rules.len(), 1);
    // a pattern may look ahead
    assert_eq!((c.bits_for("xz"), c.bits_for("xy")), (4, 16));
}

#[test]
fn a_zero_tensor_is_zero() {
    let b: Cpu = CpuBackend::new(elementary);
    assert_eq!(floats(b.zeros(&[37]).data()), vec![0.0; 37]);
}

#[test]
fn packed_rows_are_the_unpacked_integers() {
    for bits in [2u32, 4] {
        let half = 1i32 << (bits - 1);
        let ints: Vec<i32> = (0..24).map(|i| (i * 5) % (2 * half) - half).collect();
        let scales = [f(0.5), f(2.0), f(0.25), f(4.0), f(1.0), f(8.0)];
        let bytes = pack_int(&ints, bits);
        let q = QuantWeight { qbytes: bytes.clone(), scales: scales.to_vec(), shape: [3, 8], bits, signed_i8: false, group_size: 4 };
        let whole = dequantize_weight(&bytes, &scales, [3, 8], bits, Some(4));
        assert_eq!(whole, dequantize(&ints, &scales, 3, 8, 4));
        for n in 0..3 {
            for k in 0..8 {
                assert_eq!(q.deq(n, k), whole[n * 8 + k]);
            }
        }
    }
}

#[test]
fn names_are_many_and_different() {
    let c = e2b_config();
    let names = logical_weight_names(&c);
    assert_eq!(names.len(), 6 + 17 * c.num_hidden_layers);
    assert_eq!(names[0], "language_model.embed_tokens.weight");
    assert_eq!(names.last().unwrap(), "lm_head.weight");
    let mut sorted = names.clone();
    sorted.sort();
    sorted.dedup();
    assert_eq!(sorted.len(), names.len());
    assert!(names.iter().all(|n| is_text_tensor(&resolve_tensor_names(n).weight)));
}

#[test]
fn a_file_has_no_other_names() {
    let ts = vec![("b".to_string(), raw("U8", &[2], vec![1, 2])), ("a".to_string(), raw("U8", &[1], vec![3]))];
    let file = SafetensorsFile::from_vec(build_safetensors(&ts)).unwrap();
    let mut names = file.names();
    names.sort();
    assert_eq!(names, ["a", "b"]);
    assert!(matches!(file.raw_bytes("c"), Err(SafetensorsError::NotFound(n)) if n == "c"));
}
