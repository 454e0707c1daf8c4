//! What is launched on a device, and where its buffers go.
use gemma_wgpu::backend::AttnOpts;
use gemma_wgpu::device::{ComputeLimits, GpuInfo};
use gemma_wgpu::dispatch::{
    activation_bytes, attention, buffer_bytes, can_gate, copy, elementwise, embed, head_norm_rope, kv_growth, linear, matmul_q,
    mrows_for, quant_fast_path, rms_norm, rope, slice_cols, usable_lanes, AttentionPlan, Constant, Copying, Elementwise,
    Epilogue, Growth, Kernel, PackedShape,
};
use gemma_wgpu::float::F32;
use gemma_wgpu::frame::{uniform_bytes, Frames, Ring, Taken};

fn f(x: f32) -> F32 {
    F32(x.to_bits())
}

fn q4(k: usize) -> PackedShape {
    PackedShape { bits: 4, signed_i8: false, group_size: k, per_byte: 2 }
}

#[test]
fn elementwise_takes_256_a_group() {
    let l = elementwise(257, Elementwise::Softcap, f(30.0));
    assert_eq!(l.kernel, Kernel::Elementwise);
    assert_eq!(l.uniform, [257, 5, 30.0f32.to_bits(), 0]);
    assert_eq!(l.grid, [2, 1, 1]);
    assert!(l.constants.is_empty());
}

#[test]
fn a_norm_tells_its_extras() {
    let l = rms_norm(5, 48, f(1e-6), true, false, true);
    assert_eq!((l.kernel, l.grid), (Kernel::RmsNorm, [5, 1, 1]));
    assert_eq!(l.uniform, [5, 48, 1e-6f32.to_bits(), 5]);
}

#[test]
fn rows_are_embedded_plain_or_packed() {
    let l = embed(5, 16, None, f(4.0));
    assert_eq!((l.kernel, l.grid), (Kernel::Embed, [1, 1, 1]));
    assert_eq!(l.uniform, [5, 16, 4.0f32.to_bits(), 0]);
    let q = PackedShape { bits: 4, signed_i8: false, group_size: 16, per_byte: 2 };
    let l = embed(20, 33, Some(q), f(1.0));
    assert_eq!((l.kernel, l.grid), (Kernel::EmbedQ, [3, 1, 1]));
    assert_eq!(l.uniform, [20, 33, 4, 2, 16, 3, 1.0f32.to_bits(), 0]);
}

#[test]
fn small_launches() {
    let l = rope(4, 2, 16, 8, f(1e4));
    assert_eq!(l.kernel, Kernel::Rope);
    assert_eq!(l.uniform[..4], [4, 2, 16, 8]);
    let l = head_norm_rope(3, 4, 16, 8, f(1e4), f(1e-6));
    assert_eq!(l.kernel, Kernel::RmsNormRope);
    let l = slice_cols(4, 20, 5, 7);
    assert_eq!(l.kernel, Kernel::SliceCols);
    assert_eq!(l.uniform[..4], [4, 20, 5, 7]);
}

#[test]
fn copies_stay_in_the_pass_where_they_can() {
    assert!(matches!(copy(0, 0, 0), Copying::Nothing));
    match copy(8, 16, 300) {
        Copying::Launch(l) => {
            assert_eq!((l.kernel, l.grid), (Kernel::Copy, [2, 1, 1]));
            assert_eq!(l.uniform, [300, 8, 16, 0]);
        }
        _ => panic!("a launch was expected"),
    }
    match copy(1, 2, 65535 * 256 + 1) {
        Copying::Plain { src, dst, len } => assert_eq!((src, dst, len), (4, 8, 4 * (65535 * 256 + 1))),
        _ => panic!("a plain copy was expected"),
    }
}

#[test]
fn a_packed_product_by_words() {
    let l = matmul_q(q4(64), 5, 64, 40, Epilogue::Plain, None);
    assert_eq!(l.kernel, Kernel::MatmulQ);
    assert_eq!(l.constants, [(Constant::Bits, 4), (Constant::Mrows, 8), (Constant::Mode, 0), (Constant::Lanes, 64)]);
    assert_eq!(l.uniform, [5, 64, 40, 8, 0, 0, 0, 0]);
    assert_eq!(l.grid, [10, 1, 1]);
    assert_eq!(l.variant, 4 | (8 << 8) | (64 << 24));
    let l = matmul_q(q4(64), 1, 64, 4096, Epilogue::GateColumns { offset: 12, stride: 72 }, None);
    assert_eq!(l.constants, [(Constant::Bits, 4), (Constant::Mrows, 1), (Constant::Mode, 2), (Constant::Lanes, 16)]);
    assert_eq!(l.uniform, [1, 64, 4096, 8, 12, 72, 0, 0]);
    assert_eq!(l.grid, [256, 1, 1]);
    // from 16 rows on in tiles
    let l = matmul_q(q4(64), 16, 64, 65, Epilogue::Gate, None);
    assert_eq!(l.kernel, Kernel::MatmulQTiled);
    assert_eq!(l.constants, [(Constant::Bits, 4), (Constant::Mode, 1)]);
    assert_eq!((l.grid, l.variant), ([2, 1, 1], 4 | (1 << 16)));
}

#[test]
fn a_product_picks_its_kernel() {
    assert_eq!(linear(1, 40, 23, None, None).kernel, Kernel::Gemv);
    assert_eq!(linear(17, 40, 23, None, None).kernel, Kernel::Matmul);
    assert_eq!(linear(1, 64, 40, Some(q4(64)), None).kernel, Kernel::MatmulQ);
    // 52 columns do not fill words of eight
    assert_eq!(linear(3, 52, 21, Some(q4(52)), None).kernel, Kernel::MatmulQScalar);
    assert!(!quant_fast_path(q4(52), 52, 3));
    assert!(quant_fast_path(q4(64), 64, 3));
    // one scale per row
    assert!(!quant_fast_path(q4(32), 64, 3));
}

#[test]
fn gates_go_together_where_packed_alike() {
    assert!(can_gate(q4(64), q4(64), 64, 9));
    let q2 = PackedShape { bits: 2, signed_i8: false, group_size: 64, per_byte: 4 };
    assert!(!can_gate(q4(64), q2, 64, 9));
}

#[test]
fn rows_and_lanes() {
    assert_eq!([1, 2, 4, 5, 9].map(mrows_for), [1, 4, 4, 8, 8]);
    assert_eq!(usable_lanes(Some(32)), Some(32));
    assert_eq!(usable_lanes(Some(33)), None);
    assert_eq!(usable_lanes(None), None);
}

#[test]
fn attention_splits_the_keys_in_sight() {
    let k_pos: Vec<u32> = (0..700).collect();
    let o = AttnOpts { q_pos: &[699], k_pos: &k_pos, scale: f(1.0), sliding_window: 0, attn_softcap: f(0.0) };
    match attention(1, 700, 8, 1, 512, &o) {
        AttentionPlan::Split { split, combine, .. } => {
            // eleven tiles, one a split
            assert_eq!(split.kernel, Kernel::AttnSplit);
            assert_eq!(split.grid[2], 11);
            assert!(combine.is_some());
        }
        AttentionPlan::Whole(_) => panic!("a split was expected"),
    }
    // a window of 60 leaves one tile
    let o = AttnOpts { q_pos: &[699], k_pos: &k_pos, scale: f(1.0), sliding_window: 60, attn_softcap: f(0.0) };
    match attention(1, 700, 8, 1, 512, &o) {
        AttentionPlan::Split { split, combine, .. } => {
            assert_eq!(split.grid[2], 1);
            assert!(combine.is_none());
        }
        AttentionPlan::Whole(_) => panic!("a split was expected"),
    }
    // a cap goes along with the scale
    let o = AttnOpts { q_pos: &[699], k_pos: &k_pos, scale: f(0.5), sliding_window: 0, attn_softcap: f(30.0) };
    match attention(1, 700, 8, 1, 512, &o) {
        AttentionPlan::Split { split, .. } => assert_eq!(split.uniform[12..], [f(0.5).0, f(30.0).0, 0, 0]),
        AttentionPlan::Whole(_) => panic!("a split was expected"),
    }
    // heads of 16 are not served together
    let o = AttnOpts { q_pos: &[0, 1], k_pos: &[0, 1], scale: f(0.25), sliding_window: 3, attn_softcap: f(2.0) };
    match attention(2, 2, 4, 1, 16, &o) {
        AttentionPlan::Whole(l) => {
            assert_eq!((l.kernel, l.grid), (Kernel::Attention, [2, 4, 1]));
            assert_eq!(l.uniform[..6], [2, 2, 4, 1, 16, 3]);
            assert_eq!(l.uniform[8..], [f(0.25).0, f(2.0).0, 0, 0]);
        }
        AttentionPlan::Split { .. } => panic!("no split was expected"),
    }
}

#[test]
fn buffers_come_in_sizes() {
    assert_eq!([0, 16, 17, 20].map(buffer_bytes), [16, 16, 20, 20]);
    assert_eq!([0, 64, 65, 128, 1000].map(activation_bytes), [256, 256, 512, 512, 4096]);
}

#[test]
fn key_buffers_double() {
    assert_eq!(kv_growth(None, 5), Growth::Fresh { cap: 256 });
    assert_eq!(kv_growth(None, 300), Growth::Fresh { cap: 300 });
    assert_eq!(kv_growth(Some((200, 256)), 56), Growth::InPlace);
    assert_eq!(kv_growth(Some((200, 256)), 57), Growth::Grown { cap: 512 });
    assert_eq!(kv_growth(Some((200, 256)), 400), Growth::Grown { cap: 600 });
}

#[test]
fn a_pass_gives_its_buffers_back() {
    let mut p = Frames::new();
    p.begin();
    assert_eq!(p.take(256), None);
    for (id, bytes, pooled) in [(1, 256, true), (2, 256, true), (3, 512, true), (4, 256, false)] {
        p.track(Taken { id, bytes, pooled });
    }
    // 2 is kept, 4 belongs in no pool, 9 is freed besides, 2 not although asked
    assert_eq!(p.end(&[2], &[9, 2]), [4, 9]);
    assert_eq!(p.take(512), Some(3));
    assert_eq!(p.take(512), None);
    assert_eq!(p.take(256), Some(1));
    assert_eq!(p.take(256), None);
}

#[test]
fn parameters_share_segments() {
    let mut r = Ring::new();
    let a = r.place(4);
    assert_eq!((a.segment, a.offset, a.bytes, a.fresh), (0, 0, 16, true));
    let b = r.place(5);
    assert_eq!((b.segment, b.offset, b.bytes, b.fresh), (0, 256, 32, false));
    r.restart();
    let c = r.place(100);
    assert_eq!((c.segment, c.offset, c.bytes, c.fresh), (0, 0, 400, false));
    let d = r.place(1);
    assert_eq!(d.offset, 512);
    assert_eq!(uniform_bytes(&[0x0403_0201, 5]), [1, 2, 3, 4, 5, 0, 0, 0, 0, 0, 0, 0, 0, 0, 0, 0]);
}

#[test]
fn limits_are_asked_for_as_they_are() {
    let l = ComputeLimits {
        max_storage_buffer_binding_size: 100,
        max_buffer_size: 80,
        max_compute_workgroup_storage_size: 1,
        max_compute_invocations_per_workgroup: 2,
        max_compute_workgroups_per_dimension: 3,
        max_uniform_buffer_binding_size: 4,
    };
    assert_eq!(l.wanted(), ComputeLimits { max_storage_buffer_binding_size: 80, ..l });
    let g = GpuInfo::report("n".to_string(), "b".to_string(), "d".to_string(), &l);
    assert_eq!((g.max_buffer_size, g.max_storage_buffer_binding_size), (80, 80));
}
