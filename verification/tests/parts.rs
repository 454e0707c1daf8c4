//! Text, JSON, downloads, chat lines and the benchmark's inputs.
use gemma_wgpu::bench::{all_finite, bench_table, kernel_cases, l2, make, probe_inputs, random_tokens, shrunk_vocab, Inputs, Made, Probe, Xorshift};
use gemma_wgpu::chat::{clear, opening, read_line, Line};
use gemma_wgpu::config::Gemma4Config;
use gemma_wgpu::float::F32;
use gemma_wgpu::hub::{
    authorization_header, fetched_json, file_url, is_optional, model_files, on_bytes, on_end, on_reply, part_name, shows_progress,
    Transfer, DEFAULT_REPO,
};
use gemma_wgpu::json::{parse, parse_bytes, Json, Number};
use gemma_wgpu::template::Message;
use gemma_wgpu::text::{decimal, ends_with, is_before, starts_with, strip_suffix, trim};
use gemma_wgpu::weights::LoadedWeight;

fn f(x: f32) -> F32 {
    F32(x.to_bits())
}

#[test]
fn json_is_read() {
    let j = parse(r#"{ "b": [1, -2, 2.5, 1e400, true, null], "a": { "x": "y\n€" }, "b2": 18446744073709551615 }"#);
    assert!(j.is_err(), "a number out of range");
    let j = parse(r#"{ "b": [1, -2, 2.5, true, null], "a": { "x": "y\n€" }, "c": 18446744073709551615, "a": 1, "a": {"x":"y\n€"} }"#).unwrap();
    assert_eq!(j.get("a").unwrap().get("x").unwrap().as_str(), Some("y\n€"));
    let b = j.get("b").unwrap();
    assert_eq!(b.as_array().unwrap().len(), 5);
    assert_eq!(b.at(0).unwrap().as_u64(), Some(1));
    assert_eq!(b.at(1).unwrap().as_u64(), None);
    assert_eq!(f64::from_bits(b.at(1).unwrap().as_f64().unwrap().0), -2.0);
    assert_eq!(f64::from_bits(b.at(2).unwrap().as_f64().unwrap().0), 2.5);
    assert_eq!(b.at(3).unwrap().as_bool(), Some(true));
    assert!(matches!(b.at(4), Some(Json::Null)));
    assert!(b.at(5).is_none());
    assert!(matches!(j.get("c"), Some(Json::Number(Number::PosInt(u64::MAX)))));
    // sorted by key, the last of a name counts
    let keys: Vec<&str> = j.as_object().unwrap().iter().map(|(k, _)| k.as_str()).collect();
    assert_eq!(keys, ["a", "b", "c"]);
}

#[test]
fn json_errors_are_told() {
    assert!(parse("{").is_err());
    assert!(parse_bytes(&[0xff]).is_err());
}

#[test]
fn text_in_pieces() {
    assert!(starts_with("model.x", "model.") && !starts_with("mod", "model."));
    assert!(ends_with("a.weight", ".weight") && !ends_with("weight", ".weight"));
    assert_eq!(strip_suffix("a.weight", ".weight"), "a");
    assert_eq!(strip_suffix("a.bias", ".weight"), "a.bias");
    assert_eq!(trim(" \t\u{3000}a b\n"), "a b");
    assert_eq!([0, 7, 10, u64::MAX].map(decimal), ["0", "7", "10", "18446744073709551615"]);
    assert!(is_before("a", "b") && is_before("a", "ab") && !is_before("b", "ab") && !is_before("a", "a"));
}

#[test]
fn a_download_is_followed() {
    assert_eq!(file_url("o/r", "config.json", "main"), "https://huggingface.co/o/r/resolve/main/config.json");
    assert!(model_files().contains(&"model.safetensors".to_string()));
    assert!(is_optional("generation_config.json") && !is_optional("config.json"));
    assert_eq!(authorization_header(Some("t")), Some("Bearer t".to_string()));
    assert_eq!(authorization_header(None), None);
    match on_reply(DEFAULT_REPO, "f", 403, None, None) {
        Transfer::Fail(e) => assert!(e.starts_with("f: HTTP 403. This repo is gated")),
        _ => panic!("a failure was expected"),
    }
    match on_reply("r", "f", 404, None, None) {
        Transfer::Fail(e) => assert_eq!(e, "f: HTTP 404"),
        _ => panic!("a failure was expected"),
    }
    assert!(matches!(on_reply("r", "f", 200, Some(5), Some(5)), Transfer::Present(5)));
    assert!(matches!(on_reply("r", "f", 200, Some(5), Some(4)), Transfer::Receive));
    assert!(matches!(on_reply("r", "f", 200, None, None), Transfer::Receive));
    assert_eq!(part_name("f"), "f.part");
    assert_eq!(on_bytes(3, 4), 7);
    assert!(on_end("f", 5, Some(5)).is_ok() && on_end("f", 5, None).is_ok());
    assert_eq!(on_end("f", 4, Some(5)), Err("f: truncated download (4 of 5 bytes)".to_string()));
    assert!(!shows_progress(100, 4, Some(5)) && shows_progress(100, 5, Some(5)) && shows_progress(200, 4, Some(5)));
    assert!(fetched_json("f", 500, b"").is_err());
    assert!(fetched_json("f", 200, b"{").is_err());
    assert!(fetched_json("f", 200, b"{}").is_ok());
}

#[test]
fn lines_of_a_chat() {
    assert!(matches!(read_line("  \n"), Line::Blank));
    assert!(matches!(read_line("/quit\n"), Line::Quit));
    assert!(matches!(read_line("/exit"), Line::Quit));
    assert!(matches!(read_line(" /reset "), Line::Reset));
    match read_line(" hello \n") {
        Line::Say(s) => assert_eq!(s, "hello"),
        _ => panic!("something to say was expected"),
    }
    let mut h = opening(Some("Be nice."));
    assert_eq!((h.len(), h[0].role.as_str(), h[0].content.as_str()), (1, "system", "Be nice."));
    h.push(Message::user("x"));
    let h = clear(h);
    assert_eq!((h.len(), h[0].role.as_str()), (1, "system"));
    assert!(opening(None).is_empty());
}

#[test]
fn the_benchmark_repeats_itself() {
    let mut r = Xorshift(1);
    assert_eq!(r.next(), 270369);
    assert_eq!(r.next(), 67634689);
    let x = f32::from_bits(Xorshift(5).f().0);
    assert!((0.0..=1.0).contains(&x));
    assert_eq!(Xorshift(3).bytes(5), Xorshift(3).bytes(5));
    let s = Xorshift(9).f32s(3, f(0.0), f(1.0));
    assert_eq!(s, [f(1.0), f(1.0), f(1.0)]);
    assert_eq!(shrunk_vocab(1000, 1), 1000);
    let ids = random_tokens(&mut Xorshift(7), 50, 48);
    assert_eq!(ids.len(), 50);
    assert!(ids.iter().all(|&i| i < 48));
    assert!(all_finite(&[f(1.0), f(-2.0)]) && !all_finite(&[f(1.0), f(f32::INFINITY)]));
    assert_eq!(l2(&[f(3.0), f(4.0)]), f(5.0));
}

#[test]
fn the_benchmark_makes_every_weight() {
    let c = Gemma4Config::from_json_str(
        r#"{ "text_config": { "vocab_size": 8, "vocab_size_per_layer_input": 8, "hidden_size": 32, "intermediate_size": 32, "num_hidden_layers": 2,
        "num_attention_heads": 2, "num_key_value_heads": 1, "head_dim": 8, "global_head_dim": 8, "hidden_size_per_layer_input": 8, "num_kv_shared_layers": 0,
        "layer_types": ["sliding_attention", "full_attention"] },
        "quantization_config": { "module_quant_configs": { "embed|lm_head|_proj$": { "num_bits": 4 }, "per_layer": { "num_bits": 8 } } } }"#,
    )
    .unwrap();
    let mut table = bench_table(&c);
    let mut names: Vec<String> = table.iter().map(|e| e.0.clone()).collect();
    let mut wanted = gemma_wgpu::weights::logical_weight_names(&c);
    names.sort();
    wanted.sort();
    assert_eq!(names, wanted);
    let mut rng = Xorshift(1);
    for (name, m) in table.drain(..) {
        match (&m, make(&m, &mut rng)) {
            (Made::Packed { .. }, LoadedWeight::Packed(q)) => assert!(q.is_whole(), "{name}"),
            (Made::Plain { .. }, LoadedWeight::Plain(t)) => assert_eq!(t.data.len(), t.shape.iter().product::<usize>(), "{name}"),
            _ => panic!("{name} was made as something else"),
        }
    }
    assert!(!kernel_cases().is_empty());
}

#[test]
fn a_timing_draws_its_inputs_in_turn() {
    let mut rng = Xorshift(3);
    match probe_inputs(Probe::Packed { n: 2, k: 5, bits: 4 }, &mut rng) {
        Inputs::Packed { x, w } => {
            let mut r = Xorshift(3);
            assert_eq!(w.qbytes, r.bytes(5));
            assert_eq!(w.scales, r.scales(2));
            assert_eq!((w.shape, w.bits, w.signed_i8, w.group_size), ([2, 5], 4, false, 5));
            assert_eq!((x.data, x.shape), (r.f32s(5, f(0.1), f(0.0)), vec![1, 5]));
            assert_eq!(rng.0, r.0);
        }
        _ => panic!("a packed weight was expected"),
    }
    match probe_inputs(Probe::Plain { n: 2, k: 3 }, &mut Xorshift(4)) {
        Inputs::Plain { x, w } => {
            let mut r = Xorshift(4);
            assert_eq!((w.data, w.shape), (r.f32s(6, f(0.02), f(0.0)), vec![2, 3]));
            assert_eq!((x.data, x.shape), (r.f32s(3, f(0.1), f(0.0)), vec![1, 3]));
        }
        _ => panic!("a plain weight was expected"),
    }
    match probe_inputs(Probe::Attention { heads: 2, dh: 3, keys: 4 }, &mut Xorshift(5)) {
        Inputs::Attention { q, k, v, q_pos, k_pos, scale, sliding_window, attn_softcap } => {
            let mut r = Xorshift(5);
            assert_eq!((q.data, q.shape), (r.f32s(6, f(0.1), f(0.0)), vec![1, 2, 3]));
            assert_eq!((k.data, k.shape), (r.f32s(12, f(0.1), f(0.0)), vec![4, 1, 3]));
            assert_eq!((v.data, v.shape), (r.f32s(12, f(0.1), f(0.0)), vec![4, 1, 3]));
            assert_eq!((q_pos, k_pos), (vec![3], vec![0, 1, 2, 3]));
            assert_eq!((scale, sliding_window, attn_softcap), (f(0.0625), 512, f(0.0)));
        }
        _ => panic!("queries and keys were expected"),
    }
    match probe_inputs(Probe::Norm { d: 3 }, &mut Xorshift(6)) {
        Inputs::Norm { x, w, eps } => {
            let mut r = Xorshift(6);
            assert_eq!((x.data, x.shape), (r.f32s(3, f(0.1), f(0.0)), vec![1, 3]));
            assert_eq!((w.data, w.shape, eps), (r.f32s(3, f(0.05), f(0.0)), vec![3], f(1e-6)));
        }
        _ => panic!("a norm was expected"),
    }
    match probe_inputs(Probe::Sum { d: 3 }, &mut Xorshift(8)) {
        Inputs::Sum { x, y } => {
            let mut r = Xorshift(8);
            assert_eq!((x.data, x.shape), (r.f32s(3, f(0.1), f(0.0)), vec![1, 3]));
            assert_eq!((y.data, y.shape), (r.f32s(3, f(0.1), f(0.0)), vec![1, 3]));
        }
        _ => panic!("two rows were expected"),
    }
}
