//! The backend and the sampler against plain loops over the machine's numbers,
//! bit for bit.
use gemma_wgpu::backend::{AttnOpts, Backend, QuantWeight, TensorShape};
use gemma_wgpu::backend_cpu::{CpuBackend, CpuTensor, Elementary};
use gemma_wgpu::float::{F32, F64};
use gemma_wgpu::sampler::{sample, Rng, SampleOpts};

type Cpu = CpuBackend<fn(Elementary, F32, F32) -> F32>;

fn f(x: f32) -> F32 {
    F32(x.to_bits())
}

fn fs(xs: &[f32]) -> Vec<F32> {
    xs.iter().map(|x| f(*x)).collect()
}

fn elementary(e: Elementary, x: F32, y: F32) -> F32 {
    let (x, y) = (f32::from_bits(x.0), f32::from_bits(y.0));
    f(match e {
        Elementary::Exp => x.exp(),
        Elementary::Tanh => x.tanh(),
        Elementary::Sin => x.sin(),
        Elementary::Cos => x.cos(),
        Elementary::Power => x.powf(y),
    })
}

fn exp(x: F32) -> F32 {
    f(f32::from_bits(x.0).exp())
}

fn cpu() -> Cpu {
    CpuBackend::new(elementary)
}

fn t(xs: &[f32], shape: &[usize]) -> CpuTensor {
    cpu().tensor(&fs(xs), shape)
}

fn same(what: &str, got: &CpuTensor, want: &[f32]) {
    assert_eq!(got.data().len(), want.len(), "{what}: length");
    for (i, (a, b)) in got.data().iter().zip(want).enumerate() {
        assert_eq!(a.0, b.to_bits(), "{what}: cell {i}, {} against {b}", f32::from_bits(a.0));
    }
}

struct Lcg(u32);

impl Lcg {
    fn next(&mut self) -> f32 {
        self.0 = (self.0.wrapping_mul(1103515245).wrapping_add(12345)) & 0x7fffffff;
        self.0 as f32 / 0x7fffffff as f32
    }
    fn rand(&mut self, n: usize, s: f32) -> Vec<f32> {
        (0..n).map(|_| (self.next() * 2.0 - 1.0) * s).collect()
    }
}

#[test]
fn products_add_up_from_the_left() {
    let mut r = Lcg(1);
    let (m, k, n) = (3, 77, 11);
    let (x, w) = (r.rand(m * k, 2.0), r.rand(n * k, 0.3));
    let mut want = vec![0.0f32; m * n];
    for i in 0..m {
        for j in 0..n {
            let mut acc = 0.0f32;
            for c in 0..k {
                acc += x[i * k + c] * w[j * k + c];
            }
            want[i * n + j] = acc;
        }
    }
    same("linear", &cpu().linear(&t(&x, &[m, k]), &t(&w, &[n, k])), &want);
}

#[test]
fn packed_values_are_unpacked_first() {
    let mut r = Lcg(2);
    for (bits, signed, group) in [(2u32, false, 8usize), (4, false, 16), (8, true, 16), (4, false, 4)] {
        let (m, k, n) = (2, 16, 5);
        let per = if signed { 1 } else { (8 / bits) as usize };
        let qbytes: Vec<u8> = (0..n * k / per).map(|_| (r.next() * 255.9) as u8).collect();
        let scales: Vec<f32> = (0..n * (k / group)).map(|_| 0.01 + r.next() * 0.1).collect();
        let deq = |row: usize, c: usize| -> f32 {
            let v = if signed {
                qbytes[row * k + c] as i8 as i32
            } else {
                let b = qbytes[row * (k / per) + c / per] as u32;
                (((b >> ((c % per) as u32 * bits)) & ((1 << bits) - 1)) as i32) - (1 << (bits - 1))
            };
            v as f32 * scales[row * (k / group) + c / group]
        };
        let x = r.rand(m * k, 1.0);
        let mut want = vec![0.0f32; m * n];
        for i in 0..m {
            for j in 0..n {
                let mut acc = 0.0f32;
                for c in 0..k {
                    acc += x[i * k + c] * deq(j, c);
                }
                want[i * n + j] = acc;
            }
        }
        let q = cpu().quant_tensor(QuantWeight { qbytes: qbytes.clone(), scales: fs(&scales), shape: [n, k], bits, signed_i8: signed, group_size: group });
        same("packed linear", &cpu().linear(&t(&x, &[m, k]), &q), &want);
        let rows: Vec<f32> = [4usize, 0, 4].iter().flat_map(|&id| (0..k).map(move |c| (id, c))).map(|(id, c)| deq(id, c) * 5.5).collect();
        same("packed rows", &cpu().embed_rows(&q, &[4, 0, 4], f(5.5)), &rows);
    }
}

#[test]
fn norms_and_gates() {
    let mut r = Lcg(3);
    let (rows, d) = (4, 37);
    let (x, w) = (r.rand(rows * d, 3.0), r.rand(d, 1.0));
    let mut want = vec![0.0f32; rows * d];
    for i in 0..rows {
        let xr = &x[i * d..(i + 1) * d];
        let ss: f32 = xr.iter().map(|v| v * v).sum();
        let inv = 1.0 / (ss / d as f32 + 1e-6).sqrt();
        for c in 0..d {
            want[i * d + c] = xr[c] * inv * w[c];
        }
    }
    let xt = t(&x, &[rows, d]);
    same("norm", &cpu().rms_norm(&xt, Some(&t(&w, &[d])), f(1e-6)), &want);
    let gelu = |v: f32| {
        let c = (2.0f32 / std::f32::consts::PI).sqrt();
        0.5 * v * (1.0 + (c * (v + 0.044715 * v * v * v)).tanh())
    };
    let up = r.rand(rows * d, 1.0);
    let want: Vec<f32> = x.iter().zip(&up).map(|(a, b)| gelu(*a) * b).collect();
    same("geglu", &cpu().geglu(&xt, &t(&up, &[rows, d])), &want);
    let want: Vec<f32> = x.iter().map(|v| 30.0 * (v / 30.0).tanh()).collect();
    same("softcap", &cpu().softcap(&xt, f(30.0)), &want);
}

#[test]
fn turning_heads() {
    let mut r = Lcg(4);
    let (n, heads, hd) = (3, 2, 16);
    let x = r.rand(n * heads * hd, 1.0);
    for rotary in [16usize, 8, 6, 0] {
        let positions = [0u32, 7, 1000];
        let half = rotary / 2;
        let mut want = x.clone();
        for i in 0..n {
            for h in 0..heads {
                let base = (i * heads + h) * hd;
                for j in 0..half {
                    let freq = 1e4f32.powf(-(2.0 * j as f32) / rotary as f32);
                    let a = positions[i] as f32 * freq;
                    let (p, q) = (x[base + j], x[base + j + half]);
                    want[base + j] = p * a.cos() - q * a.sin();
                    want[base + j + half] = q * a.cos() + p * a.sin();
                }
            }
        }
        same("rope", &cpu().rope(&t(&x, &[n, heads, hd]), &positions, f(1e4), hd, heads, rotary), &want);
    }
}

#[test]
fn attention_key_by_key() {
    let mut r = Lcg(5);
    for (tt, s, hq, hkv, dh, window, cap) in [(3usize, 5usize, 4usize, 2usize, 8usize, 0u32, 0.0f32), (2, 9, 2, 1, 4, 3, 0.0), (1, 4, 1, 1, 6, 0, 2.0)] {
        let (q, k, v) = (r.rand(tt * hq * dh, 2.0), r.rand(s * hkv * dh, 2.0), r.rand(s * hkv * dh, 2.0));
        let k_pos: Vec<u32> = (0..s as u32).collect();
        // the first query sees some keys only, or none
        let q_pos: Vec<u32> = (0..tt as u32).map(|i| i * 2).collect();
        let mut want = vec![0.0f32; tt * hq * dh];
        for row in 0..tt * hq {
            let (i, h) = (row / hq, row % hq);
            let kvh = h / (hq / hkv);
            let mut scores = vec![0.0f32; s];
            let mut top = f32::NEG_INFINITY;
            for j in 0..s {
                if k_pos[j] > q_pos[i] || (window > 0 && q_pos[i] - k_pos[j] >= window) {
                    scores[j] = f32::NEG_INFINITY;
                    continue;
                }
                let mut dot = 0.0f32;
                for d in 0..dh {
                    dot += q[row * dh + d] * k[(j * hkv + kvh) * dh + d];
                }
                dot *= 0.3;
                if cap > 0.0 {
                    dot = cap * (dot / cap).tanh();
                }
                scores[j] = dot;
                if dot > top {
                    top = dot;
                }
            }
            let mut sum = 0.0f32;
            for sc in scores.iter_mut() {
                if *sc == f32::NEG_INFINITY {
                    *sc = 0.0;
                } else {
                    *sc = (*sc - top).exp();
                    sum += *sc;
                }
            }
            let inv = if sum > 0.0 { 1.0 / sum } else { 0.0 };
            for j in 0..s {
                let w = scores[j] * inv;
                if w == 0.0 {
                    continue;
                }
                for d in 0..dh {
                    want[row * dh + d] += w * v[(j * hkv + kvh) * dh + d];
                }
            }
        }
        let o = AttnOpts { q_pos: &q_pos, k_pos: &k_pos, scale: f(0.3), sliding_window: window, attn_softcap: f(cap) };
        let got = cpu().attention(&t(&q, &[tt, hq, dh]), &t(&k, &[s, hkv, dh]), &t(&v, &[s, hkv, dh]), &o);
        assert_eq!(got.shape(), &[tt, hq * dh]);
        same("attention", &got, &want);
    }
}

/// Sampling over the machine's numbers.
fn drawn(l: &[f32], temperature: f32, top_k: usize, top_p: f32, draw: f64) -> u32 {
    let inv = 1.0 / temperature;
    let softmax = |ix: &[usize]| -> Vec<f32> {
        let max = ix.iter().map(|&i| l[i]).fold(f32::NEG_INFINITY, f32::max);
        let p: Vec<f32> = ix.iter().map(|&i| ((l[i] - max) * inv).exp()).collect();
        let sum: f32 = p.iter().sum();
        p.iter().map(|x| x / sum).collect()
    };
    if top_k == 0 && top_p >= 1.0 {
        let max = l.iter().copied().fold(f32::NEG_INFINITY, f32::max);
        let sum: f32 = l.iter().map(|&x| ((x - max) * inv).exp()).sum();
        let mut r = draw as f32 * sum;
        for (i, &x) in l.iter().enumerate() {
            r -= ((x - max) * inv).exp();
            if r <= 0.0 {
                return i as u32;
            }
        }
        return (l.len() - 1) as u32;
    }
    // all values differ, so that there is one order
    let mut ix: Vec<usize> = (0..l.len()).collect();
    ix.sort_by(|&a, &b| l[b].partial_cmp(&l[a]).unwrap());
    if top_k > 0 {
        ix.truncate(top_k.min(l.len()));
    }
    if top_p < 1.0 {
        let p = softmax(&ix);
        let mut cum = 0.0f32;
        let mut n = 0;
        for x in p {
            n += 1;
            cum += x;
            if cum >= top_p {
                break;
            }
        }
        ix.truncate(n);
    }
    let p = softmax(&ix);
    let mut r = draw as f32;
    for (n, &i) in ix.iter().enumerate() {
        r -= p[n];
        if r <= 0.0 {
            return i as u32;
        }
    }
    *ix.last().unwrap() as u32
}

#[test]
fn sampling_draw_by_draw() {
    let mut r = Lcg(6);
    let mut rng = Rng::new(99);
    for round in 0..300 {
        let l = r.rand(40, 6.0);
        let (temperature, top_k, top_p) = [(1.0, 0, 1.0), (0.7, 5, 1.0), (1.3, 0, 0.9), (1.0, 64, 0.95), (0.5, 3, 0.3)][round % 5];
        let draw = rng.next_f64();
        let o = SampleOpts { temperature: f(temperature), top_k, top_p: f(top_p), ..Default::default() };
        let got = sample(&fs(&l), &o, move || draw, &exp);
        assert_eq!(got, drawn(&l, temperature, top_k, top_p, f64::from_bits(draw.0)), "round {round}");
    }
}

#[test]
fn the_wide_draw_is_narrowed() {
    // a draw that is one to single precision takes the last candidate
    let almost: F64 = F64((1.0f64 - 1e-12).to_bits());
    let o = SampleOpts { top_k: 2, ..Default::default() };
    assert_eq!(sample(&fs(&[1.0, 1.5, 0.5]), &o, move || almost, &exp), 0);
}
