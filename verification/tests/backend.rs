//! The CPU backend, operation by operation.
use gemma_wgpu::backend::{checked_count, count, AttnOpts, Backend, QuantWeight, TensorShape};
use gemma_wgpu::backend_cpu::{gelu_tanh_scalar, row_ranges, transposed, CpuBackend, CpuTensor, Elementary};
use gemma_wgpu::dequant::pack_unsigned;
use gemma_wgpu::float::F32;

type Cpu = CpuBackend<fn(Elementary, F32, F32) -> F32>;

fn f(x: f32) -> F32 {
    F32(x.to_bits())
}

fn fs(xs: &[f32]) -> Vec<F32> {
    xs.iter().map(|x| f(*x)).collect()
}

fn floats(t: &CpuTensor) -> Vec<f32> {
    t.data().iter().map(|x| f32::from_bits(x.0)).collect()
}

fn elementary(e: Elementary, x: F32, y: F32) -> F32 {
    let (x, y) = (f32::from_bits(x.0), f32::from_bits(y.0));
    f(match e {
        Elementary::Exp => x.exp(),
        Elementary::Tanh => x.tanh(),
        Elementary::Sin => x.sin(),
        Elementary::Cos => x.cos(),
        Elementary::Power => x.powf(y),
    })
}

fn cpu() -> Cpu {
    CpuBackend::new(elementary)
}

fn t(xs: &[f32], shape: &[usize]) -> CpuTensor {
    cpu().tensor(&fs(xs), shape)
}

struct Lcg(u32);

impl Lcg {
    fn next(&mut self) -> f32 {
        self.0 = (self.0.wrapping_mul(1103515245).wrapping_add(12345)) & 0x7fffffff;
        self.0 as f32 / 0x7fffffff as f32
    }
    fn rand(&mut self, n: usize, s: f32) -> Vec<f32> {
        (0..n).map(|_| (self.next() * 2.0 - 1.0) * s).collect()
    }
}

fn close(what: &str, a: &[f32], b: &[f32], tol: f32) {
    assert_eq!(a.len(), b.len(), "{what}: length");
    for (x, y) in a.iter().zip(b) {
        assert!((x - y).abs() <= tol * (1.0 + y.abs()), "{what}: {x} against {y}");
    }
}

#[test]
fn shapes_are_counted() {
    assert_eq!(count(&[2, 3, 4]), 24);
    assert_eq!(count(&[]), 1);
    assert_eq!(checked_count(&[usize::MAX, 2]), None);
    assert_eq!(checked_count(&[usize::MAX, 2, 0]), Some(0));
    let x = t(&[0.0; 6], &[2, 3]);
    assert_eq!((x.size(), x.shape(), x.is_packed()), (6, &[2usize, 3][..], false));
    assert_eq!(cpu().name(), "cpu");
}

#[test]
fn linear_is_rows_times_rows() {
    let b = cpu();
    let x = t(&[1.0, 2.0, 3.0, 4.0], &[2, 2]);
    let w = t(&[1.0, 0.0, 0.0, 1.0, 1.0, 1.0], &[3, 2]);
    let y = b.linear(&x, &w);
    assert_eq!(y.shape(), &[2, 3]);
    assert_eq!(floats(&y), [1.0, 2.0, 3.0, 3.0, 4.0, 7.0]);
    let mut r = Lcg(7);
    let (m, k, n) = (17, 40, 23);
    let (xs, ws) = (r.rand(m * k, 1.0), r.rand(n * k, 1.0));
    let mut want = Vec::new();
    for i in 0..m {
        for j in 0..n {
            want.push((0..k).map(|c| xs[i * k + c] as f64 * ws[j * k + c] as f64).sum::<f64>() as f32);
        }
    }
    close("linear", &floats(&b.linear(&t(&xs, &[m, k]), &t(&ws, &[n, k]))), &want, 1e-4);
}

#[test]
fn packed_linear_is_linear_of_what_is_packed() {
    let b = cpu();
    let mut r = Lcg(9);
    let (m, k, n) = (3, 52, 21);
    let vals: Vec<u32> = (0..n * k).map(|_| (r.next() * 16.0).floor() as u32 % 16).collect();
    let scales: Vec<f32> = (0..n).map(|_| 0.01 + r.next() * 0.05).collect();
    let q = QuantWeight { qbytes: pack_unsigned(&vals, 4), scales: fs(&scales), shape: [n, k], bits: 4, signed_i8: false, group_size: k };
    let ws: Vec<f32> = (0..n * k).map(|i| (vals[i] as f32 - 8.0) * scales[i / k]).collect();
    let xs = r.rand(m * k, 1.0);
    let x = t(&xs, &[m, k]);
    assert_eq!(floats(&b.linear(&x, &b.quant_tensor(q))), floats(&b.linear(&x, &t(&ws, &[n, k]))));
}

#[test]
fn a_norm_divides_by_the_mean_square() {
    let b = cpu();
    let y = b.rms_norm(&t(&[3.0, 4.0, 0.0, 5.0], &[2, 2]), Some(&t(&[1.0, 2.0], &[2])), f(0.0));
    close("norm", &floats(&y), &[3.0 / 12.5f32.sqrt(), 8.0 / 12.5f32.sqrt(), 0.0, 10.0 / 12.5f32.sqrt()], 1e-6);
    let y = b.rms_norm(&t(&[3.0, 4.0], &[1, 2]), None, f(0.0));
    close("plain norm", &floats(&y), &[3.0 / 12.5f32.sqrt(), 4.0 / 12.5f32.sqrt()], 1e-6);
}

#[test]
fn cells_one_by_one() {
    let b = cpu();
    let (x, y) = (t(&[1.0, -2.0], &[2]), t(&[0.5, 4.0], &[2]));
    assert_eq!(floats(&b.add(&x, &y)), [1.5, 2.0]);
    assert_eq!(floats(&b.mul(&x, &y)), [0.5, -8.0]);
    // the shapes may differ, and the first is kept
    let wide = b.tensor(&[f(1.0), f(2.0)], &[1, 2, 1]);
    let tall = b.tensor(&[f(10.0), f(20.0)], &[2]);
    let sum = b.add(&wide, &tall);
    assert_eq!((floats(&sum), sum.shape()), (vec![11.0, 22.0], &[1usize, 2, 1][..]));
    let times = b.mul(&tall, &wide);
    assert_eq!((floats(&times), times.shape()), (vec![10.0, 40.0], &[2usize][..]));
    assert_eq!(floats(&b.scale(&x, f(3.5))), [3.5, -7.0]);
    assert_eq!(floats(&b.scale_by_tensor(&x, &t(&[0.25], &[1]))), [0.25, -0.5]);
    close("softcap", &floats(&b.softcap(&t(&[50.0, -1.0], &[2]), f(30.0))), &[30.0 * (50.0f32 / 30.0).tanh(), 30.0 * (-1.0f32 / 30.0).tanh()], 1e-6);
    let gelu = |v: f32| 0.5 * v * (1.0 + ((2.0 / std::f32::consts::PI).sqrt() * (v + 0.044715 * v * v * v)).tanh());
    close("gelu", &floats(&b.gelu_tanh(&x)), &[gelu(1.0), gelu(-2.0)], 1e-6);
    close("geglu", &floats(&b.geglu(&x, &y)), &[gelu(1.0) * 0.5, gelu(-2.0) * 4.0], 1e-6);
    assert_eq!(gelu_tanh_scalar(&elementary, f(0.0)), f(0.0));
    // finite for huge inputs
    assert!(floats(&b.gelu_tanh(&t(&[1000.0, -1000.0, 50.0], &[3]))).iter().all(|v| v.is_finite()));
}

#[test]
fn rows_are_looked_up_and_scaled() {
    let b = cpu();
    let y = b.embed_rows(&t(&[1.0, 2.0, 3.0, 4.0], &[2, 2]), &[1, 0, 1], f(2.0));
    assert_eq!(y.shape(), &[3, 2]);
    assert_eq!(floats(&y), [6.0, 8.0, 2.0, 4.0, 6.0, 8.0]);
    // two groups to a row
    let q = QuantWeight {
        qbytes: pack_unsigned(&[9, 9, 9, 9, 7, 7, 7, 7], 4),
        scales: fs(&[1.0, 2.0, 3.0, 4.0]),
        shape: [2, 4],
        bits: 4,
        signed_i8: false,
        group_size: 2,
    };
    let y = b.embed_rows(&b.quant_tensor(q), &[1, 0], f(10.0));
    assert_eq!(floats(&y), [-30.0, -30.0, -40.0, -40.0, 10.0, 10.0, 20.0, 20.0]);
}

#[test]
fn heads_turn_by_position() {
    let b = cpu();
    // one token, one head of four, the first two rotate
    let x = t(&[1.0, 0.0, 5.0, 6.0], &[1, 1, 4]);
    let y = b.rope(&x, &[3], f(1e4), 4, 1, 2);
    let (c, s) = (3.0f32.cos(), 3.0f32.sin());
    close("rope", &floats(&y), &[c, 0.0, s, 6.0], 20.0);
    // position zero changes nothing
    assert_eq!(floats(&b.rope(&x, &[0], f(1e4), 4, 1, 4)), floats(&x));
    // lengths stay
    let mut r = Lcg(5);
    let xs = r.rand(4 * 2 * 16, 1.0);
    let y = floats(&b.rope(&t(&xs, &[4, 2, 16]), &[0, 1, 5, 9], f(1e4), 16, 2, 8));
    for h in 0..8 {
        let len = |v: &[f32]| v[h * 16..(h + 1) * 16].iter().map(|a| a * a).sum::<f32>();
        assert!((len(&xs) - len(&y)).abs() < 1e-4);
    }
}

/// Attention in wide numbers.
fn attended(q: &[f32], k: &[f32], v: &[f32], (t, s, hq, hkv, dh): (usize, usize, usize, usize, usize), o: &AttnOpts<'_>) -> Vec<f32> {
    let scale = f32::from_bits(o.scale.0) as f64;
    let mut out = vec![0.0f32; t * hq * dh];
    for i in 0..t {
        for h in 0..hq {
            let kh = h / (hq / hkv);
            let sees = |j: usize| {
                o.k_pos[j] <= o.q_pos[i] && (o.sliding_window == 0 || o.q_pos[i] - o.k_pos[j] < o.sliding_window)
            };
            let w: Vec<f64> = (0..s)
                .map(|j| {
                    if sees(j) {
                        let d: f64 = (0..dh).map(|c| q[(i * hq + h) * dh + c] as f64 * k[(j * hkv + kh) * dh + c] as f64).sum();
                        (d * scale).exp()
                    } else {
                        0.0
                    }
                })
                .collect();
            let total: f64 = w.iter().sum();
            for c in 0..dh {
                out[(i * hq + h) * dh + c] = ((0..s).map(|j| w[j] * v[(j * hkv + kh) * dh + c] as f64).sum::<f64>() / total) as f32;
            }
        }
    }
    out
}

#[test]
fn attention_looks_back_within_its_window() {
    let b = cpu();
    let mut r = Lcg(21);
    for (t_, s, hq, hkv, dh, window) in [(6, 6, 4, 1, 16, 3u32), (3, 40, 2, 1, 32, 0), (2, 20, 4, 2, 8, 0), (1, 30, 8, 1, 16, 7)] {
        let (q, k, v) = (r.rand(t_ * hq * dh, 0.5), r.rand(s * hkv * dh, 0.5), r.rand(s * hkv * dh, 0.5));
        let k_pos: Vec<u32> = (0..s as u32).collect();
        let q_pos: Vec<u32> = ((s - t_) as u32..s as u32).collect();
        let o = AttnOpts { q_pos: &q_pos, k_pos: &k_pos, scale: f(0.25), sliding_window: window, attn_softcap: f(0.0) };
        let y = b.attention(&t(&q, &[t_, hq, dh]), &t(&k, &[s, hkv, dh]), &t(&v, &[s, hkv, dh]), &o);
        close("attention", &floats(&y), &attended(&q, &k, &v, (t_, s, hq, hkv, dh), &o), 1e-4);
    }
}

#[test]
fn later_keys_are_not_seen() {
    let b = cpu();
    let mut r = Lcg(3);
    let (q, k, v) = (r.rand(8, 1.0), r.rand(12, 1.0), r.rand(12, 1.0));
    let whole = AttnOpts { q_pos: &[0, 1], k_pos: &[0, 1, 2], scale: f(0.5), sliding_window: 0, attn_softcap: f(0.0) };
    let seen = AttnOpts { q_pos: &[0, 1], k_pos: &[0, 1], scale: f(0.5), sliding_window: 0, attn_softcap: f(0.0) };
    let a = b.attention(&t(&q, &[2, 1, 4]), &t(&k, &[3, 1, 4]), &t(&v, &[3, 1, 4]), &whole);
    let c = b.attention(&t(&q, &[2, 1, 4]), &t(&k[..8], &[2, 1, 4]), &t(&v[..8], &[2, 1, 4]), &seen);
    assert_eq!(a.data(), c.data());
}

#[test]
fn parts_and_wholes() {
    let b = cpu();
    let x = t(&[1.0, 2.0, 3.0, 4.0, 5.0, 6.0], &[2, 3]);
    assert_eq!(floats(&b.slice_cols(&x, 1, 2)), [2.0, 3.0, 5.0, 6.0]);
    let last = b.slice_rows(&x, 1, 1);
    assert_eq!((floats(&last), last.shape()), (vec![4.0, 5.0, 6.0], &[1usize, 3][..]));
    let both = b.concat_rows(Some(&x), &last);
    assert_eq!(both.shape(), &[3, 3]);
    assert_eq!(floats(&both), [1.0, 2.0, 3.0, 4.0, 5.0, 6.0, 4.0, 5.0, 6.0]);
    assert_eq!(floats(&b.concat_rows(None, &last)), [4.0, 5.0, 6.0]);
    let grown = b.kv_append(Some(&x), &last);
    assert_eq!(floats(&grown.tensor), floats(&both));
    assert_eq!(b.readback(&x), fs(&[1.0, 2.0, 3.0, 4.0, 5.0, 6.0]));
    assert_eq!(b.reshape(&x, &[3, 2]).shape(), &[3, 2]);
}

#[test]
fn fused_operations_are_what_they_are_made_of() {
    let b = cpu();
    let mut r = Lcg(33);
    let (m, k, n) = (3, 8, 4);
    let x = t(&r.rand(m * k, 1.0), &[m, k]);
    let (g, u) = (t(&r.rand(n * k, 1.0), &[n, k]), t(&r.rand(n * k, 1.0), &[n, k]));
    assert_eq!(b.linear_geglu(&x, &g, &u).data(), b.geglu(&b.linear(&x, &g), &b.linear(&x, &u)).data());
    let cols = t(&r.rand(m * 10, 1.0), &[m, 10]);
    assert_eq!(b.linear_gelu_mul_cols(&x, &g, &cols, 5).data(), b.geglu(&b.linear(&x, &g), &b.slice_cols(&cols, 5, 4)).data());
    let (res, w, s) = (t(&r.rand(m * k, 1.0), &[m, k]), t(&r.rand(k, 0.1), &[k]), t(&[1.37], &[1]));
    let plain = b.add(&res, &b.rms_norm(&x, Some(&w), f(1e-6)));
    assert_eq!(b.add_rms_norm(&res, &x, &w, f(1e-6), None).data(), plain.data());
    assert_eq!(b.add_rms_norm(&res, &x, &w, f(1e-6), Some(&s)).data(), b.scale_by_tensor(&plain, &s).data());
    let heads = t(&r.rand(3 * 4 * 16, 1.0), &[3, 4, 16]);
    let hw = t(&r.rand(16, 0.1), &[16]);
    let normed = b.reshape(&b.rms_norm(&b.reshape(&heads, &[12, 16]), Some(&hw), f(1e-6)), &[3, 4, 16]);
    assert_eq!(
        b.head_norm_rope(&heads, &hw, f(1e-6), &[3, 10, 17], f(1e4), 16, 4, 8).data(),
        b.rope(&normed, &[3, 10, 17], f(1e4), 16, 4, 8).data()
    );
}

#[test]
fn rows_are_shared_out() {
    assert_eq!(row_ranges(10, 1 << 20, 4), [(0, 3), (3, 6), (6, 9), (9, 10)]);
    assert_eq!(row_ranges(10, 1 << 20, 1), [(0, 10)]);
    assert_eq!(row_ranges(10, 0, 4), [(0, 10)], "too little work");
    assert_eq!(row_ranges(10, 1 << 14, 2), [(0, 5), (5, 10)]);
    assert_eq!(row_ranges(3, 1 << 20, 8), [(0, 1), (1, 2), (2, 3)]);
    assert_eq!(row_ranges(0, 1 << 20, 8), [(0, 0)]);
    // fewer pieces than threads where they would be too short
    assert_eq!(row_ranges(9, 1 << 20, 6), [(0, 2), (2, 4), (4, 6), (6, 8), (8, 9)]);
}

#[test]
fn pieces_give_the_whole() {
    let b = cpu();
    let mut r = Lcg(11);
    let (m, k, n) = (3, 8, 10);
    let x = t(&r.rand(m * k, 1.0), &[m, k]);
    let w = t(&r.rand(n * k, 1.0), &[n, k]);
    let whole = b.linear(&x, &w);
    for threads in 1..7 {
        let by_column: Vec<F32> =
            row_ranges(n, 1 << 20, threads).into_iter().flat_map(|(s, e)| b.linear_columns(&x, &w, s, e)).collect();
        assert_eq!(transposed(&by_column, n, m), whole.data());
    }
    let (tt, s, hq, hkv, dh) = (2, 5, 4, 2, 8);
    let (q, kk, v) = (t(&r.rand(tt * hq * dh, 1.0), &[tt, hq, dh]), t(&r.rand(s * hkv * dh, 1.0), &[s, hkv, dh]), t(&r.rand(s * hkv * dh, 1.0), &[s, hkv, dh]));
    let o = AttnOpts { q_pos: &[3, 4], k_pos: &[0, 1, 2, 3, 4], scale: f(0.5), sliding_window: 0, attn_softcap: f(0.0) };
    let whole = b.attention(&q, &kk, &v, &o);
    for threads in 1..9 {
        let rows: Vec<F32> = row_ranges(tt * hq, 1 << 20, threads)
            .into_iter()
            .flat_map(|(start, end)| b.attention_rows(&q, &kk, &v, &o, start, end))
            .collect();
        assert_eq!(rows, whole.data());
    }
    assert_eq!(transposed(&fs(&[1.0, 2.0, 3.0, 4.0, 5.0, 6.0]), 2, 3), fs(&[1.0, 4.0, 2.0, 5.0, 3.0, 6.0]));
}

#[test]
fn keys_outside_the_window_change_nothing() {
    let b = cpu();
    let mut r = Lcg(5);
    let (q, k, v) = (r.rand(4, 1.0), r.rand(20, 1.0), r.rand(20, 1.0));
    let o = AttnOpts { q_pos: &[3], k_pos: &[0, 1, 2, 3, 4], scale: f(0.5), sliding_window: 2, attn_softcap: f(0.0) };
    let go = |k: &[f32], v: &[f32]| b.attention(&t(&q, &[1, 1, 4]), &t(k, &[5, 1, 4]), &t(v, &[5, 1, 4]), &o);
    let (mut k2, mut v2) = (k.clone(), v.clone());
    // positions 0 and 1 have left the window, 4 is yet to come
    for j in (0..8).chain(16..20) {
        k2[j] = 100.0;
        v2[j] = f32::NAN;
    }
    assert_eq!(go(&k, &v).data(), go(&k2, &v2).data());
}

#[test]
fn a_query_that_sees_nothing_gets_zeros() {
    let b = cpu();
    let mut r = Lcg(6);
    let (q, k, v) = (r.rand(4, 1.0), r.rand(8, 1.0), r.rand(8, 1.0));
    let o = AttnOpts { q_pos: &[0], k_pos: &[1, 2], scale: f(0.5), sliding_window: 0, attn_softcap: f(0.0) };
    let y = b.attention(&t(&q, &[1, 1, 4]), &t(&k, &[2, 1, 4]), &t(&v, &[2, 1, 4]), &o);
    assert_eq!(floats(&y), [0.0; 4]);
}
