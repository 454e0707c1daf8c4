//! Packing of quantized weights, and their way back to numbers.
//!
//! Weights come at 2, 4 or 8 bits. Sub-byte values are packed least
//! significant bits first, in offset binary: a raw field `x` of `b` bits stands
//! for `x - 2^(b-1)`, so that raw 0 is the most negative value. 8-bit values
//! are plain signed bytes. A stored integer times the scale of its group is
//! the weight.
use vstd::arithmetic::div_mod::*;
use vstd::arithmetic::mul::*;
use vstd::arithmetic::power2::*;
use vstd::prelude::*;

use crate::float::F32;

verus! {

/// Values that share one byte.
pub open spec fn fields_per_byte(bits: u32) -> nat {
    (8u32 / bits) as nat
}

/// The raw field in slot `slot` of a byte.
pub open spec fn raw_field(byte: u8, bits: u32, slot: nat) -> nat {
    ((byte as nat) / pow2(slot * bits as nat)) % pow2(bits as nat)
}

/// A byte read as a signed integer.
pub open spec fn signed_byte(byte: u8) -> int {
    if byte < 128 {
        byte as int
    } else {
        byte - 256
    }
}

/// The integer that value `i` of a packed buffer stands for.
pub open spec fn unpacked(bytes: Seq<u8>, bits: u32, i: int) -> int {
    if bits == 8 {
        signed_byte(bytes[i])
    } else {
        let per = fields_per_byte(bits) as int;
        raw_field(bytes[i / per], bits, (i % per) as nat) - pow2((bits - 1) as nat)
    }
}

/// `bytes` holds exactly `raws`, packed least significant bits first, with
/// zeros behind the last one.
pub open spec fn is_packed(raws: Seq<nat>, bits: u32, bytes: Seq<u8>) -> bool {
    let per = fields_per_byte(bits) as int;
    &&& bytes.len() == (raws.len() + per - 1) / per
    &&& forall|j: int| #![trigger bytes[j]]
        0 <= j < bytes.len() ==> bytes[j] < pow2((per * bits) as nat) && forall|s: int|
            #![trigger raw_field(bytes[j], bits, s as nat)]
            0 <= s < per ==> raw_field(bytes[j], bits, s as nat) == (if j * per + s < raws.len() {
                raws[j * per + s]
            } else {
                0
            })
}

/// The raw field that stands for `v`: offset binary below 8 bits, two's
/// complement at 8.
pub open spec fn raw_of_int(v: int, bits: u32) -> nat {
    if bits == 8 {
        (v % 256) as nat
    } else {
        ((v + pow2((bits - 1) as nat)) % pow2(bits as nat) as int) as nat
    }
}

/// The integers that `bits` bits can hold.
pub open spec fn in_range(v: int, bits: u32) -> bool {
    -pow2((bits - 1) as nat) <= v < pow2((bits - 1) as nat)
}

proof fn lemma_pow2_small()
    ensures
        pow2(0) == 1,
        pow2(1) == 2,
        pow2(2) == 4,
        pow2(3) == 8,
        pow2(4) == 16,
        pow2(5) == 32,
        pow2(6) == 64,
        pow2(7) == 128,
        pow2(8) == 256,
{
    lemma2_to64();
}

/// 2^n for a shift inside a byte.
pub(crate) fn weight_of(n: u32) -> (r: u32)
    requires
        n <= 8,
    ensures
        r == pow2(n as nat),
        1 <= r <= 256,
{
    proof {
        lemma_pow2_small();
    }
    if n == 0 {
        1
    } else if n == 1 {
        2
    } else if n == 2 {
        4
    } else if n == 3 {
        8
    } else if n == 4 {
        16
    } else if n == 5 {
        32
    } else if n == 6 {
        64
    } else if n == 7 {
        128
    } else {
        256
    }
}

pub(crate) proof fn lemma_slots(bits: u32)
    requires
        1 <= bits <= 8,
    ensures
        1 <= fields_per_byte(bits) <= 8,
        fields_per_byte(bits) * bits <= 8,
{
    assert((8u32 / bits) * bits <= 8) by (nonlinear_arith)
        requires
            1 <= bits <= 8,
    ;
    assert(1 <= 8u32 / bits <= 8) by (nonlinear_arith)
        requires
            1 <= bits <= 8,
    ;
}

/// The raw field in one slot of a byte.
pub fn field_at(byte: u8, bits: u32, slot: usize) -> (r: u32)
    requires
        1 <= bits <= 8,
        slot < fields_per_byte(bits),
    ensures
        r == raw_field(byte, bits, slot as nat),
        r < 256,
{
    proof {
        lemma_slots(bits);
        let per = fields_per_byte(bits);
        assert(slot * bits <= 8) by (nonlinear_arith)
            requires
                slot < per,
                per * bits <= 8,
                slot >= 0,
                bits >= 1,
        ;
    }
    let shift = weight_of(slot as u32 * bits);
    let field = weight_of(bits);
    (byte as u32 / shift) % field
}

/// Unpack `count` integers of `bits` width from a byte buffer.
pub fn unpack_int(bytes: &[u8], bits: u32, count: usize) -> (out: Vec<i32>)
    requires
        0 < bits < 32,
        count > 0 ==> bits <= 8 && count <= bytes@.len() * fields_per_byte(bits),
    ensures
        out@.len() == count,
        forall|i: int| 0 <= i < count ==> out@[i] == unpacked(bytes@, bits, i),
{
    let mut out: Vec<i32> = Vec::new();
    if count == 0 {
        return out;
    }
    proof {
        lemma_slots(bits);
        lemma_pow2_small();
    }
    let per_byte: usize = (8 / bits) as usize;
    let zero_point = weight_of(bits - 1);
    let mut i: usize = 0;
    while i < count
        invariant
            1 <= bits <= 8,
            count <= bytes@.len() * fields_per_byte(bits),
            per_byte == fields_per_byte(bits),
            1 <= per_byte <= 8,
            per_byte * bits <= 8,
            zero_point == pow2((bits - 1) as nat),
            1 <= zero_point <= 256,
            i <= count,
            out@.len() == i,
            forall|k: int| 0 <= k < i ==> out@[k] == unpacked(bytes@, bits, k),
        decreases count - i,
    {
        if bits == 8 {
            proof {
                assert(bytes@.len() * 1 == bytes@.len());
            }
            let b = bytes[i];
            if b < 128 {
                out.push(b as i32);
            } else {
                out.push(b as i32 - 256);
            }
        } else {
            proof {
                assert(i / per_byte < bytes@.len()) by (nonlinear_arith)
                    requires
                        i < bytes@.len() * per_byte,
                        per_byte > 0,
                ;
            }
            let raw: u32 = field_at(bytes[i / per_byte], bits, i % per_byte);
            out.push(raw as i32 - zero_point as i32);
        }
        i = i + 1;
    }
    out
}

/// Adding a field above `p * m` leaves the field at `p` alone.
proof fn lemma_low_field(acc: nat, x: nat, p: nat, m: nat, k: nat)
    requires
        p > 0,
        m > 0,
    ensures
        ((acc + x * (p * m * k)) / p) % m == (acc / p) % m,
{
    let y = x * m * k;
    assert(x * (p * m * k) == p * y) by (nonlinear_arith)
        requires
            y == x * m * k,
    ;
    lemma_div_multiples_vanish_fancy_sum(acc as int, y as int, p as int);
    assert(y == m * (x * k)) by (nonlinear_arith)
        requires
            y == x * m * k,
    ;
    lemma_mod_multiples_vanish((x * k) as int, (acc / p) as int, m as int);
}

/// `(p * y + a) / p == y + a / p`.
proof fn lemma_div_multiples_vanish_fancy_sum(a: int, y: int, p: int)
    requires
        p > 0,
        a >= 0,
        y >= 0,
    ensures
        (a + p * y) / p == a / p + y,
{
    lemma_fundamental_div_mod(a, p);
    let q = a / p;
    let r = a % p;
    assert(a + p * y == (q + y) * p + r) by (nonlinear_arith)
        requires
            a == p * q + r,
    ;
    lemma_fundamental_div_mod_converse(a + p * y, p, q + y, r);
}

/// Pack raw fields, each below `2^bits`.
fn pack_fields(raws: &Vec<u8>, bits: u32) -> (out: Vec<u8>)
    requires
        1 <= bits <= 8,
        forall|i: int| 0 <= i < raws@.len() ==> raws@[i] < pow2(bits as nat),
    ensures
        is_packed(raws@.map_values(|x: u8| x as nat), bits, out@),
{
    proof {
        lemma_slots(bits);
        lemma_pow2_small();
    }
    let ghost rs = raws@.map_values(|x: u8| x as nat);
    let per_byte: usize = (8 / bits) as usize;
    let count: usize = raws.len();
    let full: usize = count / per_byte;
    proof {
        lemma_fundamental_div_mod(count as int, per_byte as int);
        assert(count % per_byte != 0 ==> full < count) by (nonlinear_arith)
            requires
                count == per_byte * full + count % per_byte,
                count % per_byte >= 0,
                per_byte >= 1,
        ;
    }
    let total: usize = if count % per_byte == 0 {
        full
    } else {
        full + 1
    };
    proof {
        let (n, p) = (raws@.len() as int, per_byte as int);
        lemma_fundamental_div_mod(n, p);
        lemma_mul_is_commutative(p, n / p);
        if n % p == 0 {
            lemma_fundamental_div_mod_converse(n + p - 1, p, n / p, p - 1);
        } else {
            assert(n + p - 1 == (n / p + 1) * p + (n % p - 1)) by (nonlinear_arith)
                requires
                    n == p * (n / p) + n % p,
            ;
            lemma_fundamental_div_mod_converse(n + p - 1, p, n / p + 1, n % p - 1);
        }
        assert(total == (n + p - 1) / p);
        assert(total * p <= n + p - 1) by {
            lemma_fundamental_div_mod(n + p - 1, p);
            lemma_mul_is_commutative(total as int, p);
        }
    }
    let mut out: Vec<u8> = Vec::new();
    let mut j: usize = 0;
    while j < total
        invariant
            1 <= bits <= 8,
            per_byte == fields_per_byte(bits),
            1 <= per_byte <= 8,
            per_byte * bits <= 8,
            total * per_byte <= raws@.len() + per_byte - 1,
            rs == raws@.map_values(|x: u8| x as nat),
            count == raws@.len(),
            forall|i: int| 0 <= i < raws@.len() ==> raws@[i] < pow2(bits as nat),
            j <= total,
            out@.len() == j,
            forall|b: int| #![trigger out@[b]]
                0 <= b < j ==> out@[b] < pow2((per_byte * bits) as nat) && forall|s: int|
                    #![trigger raw_field(out@[b], bits, s as nat)]
                    0 <= s < per_byte ==> raw_field(out@[b], bits, s as nat) == (if b * per_byte + s < rs.len() {
                        rs[b * per_byte + s]
                    } else {
                        0
                    }),
        decreases total - j,
    {
        let mut acc: u32 = 0;
        let mut r: usize = 0;
        proof {
            lemma_pow2_small();
            assert(j * per_byte <= count) by (nonlinear_arith)
                requires
                    total * per_byte <= count + per_byte - 1,
                    j + 1 <= total,
                    per_byte >= 1,
            ;
        }
        let start: usize = j * per_byte;
        while r < per_byte
            invariant
                1 <= bits <= 8,
                per_byte == fields_per_byte(bits),
                1 <= per_byte <= 8,
                per_byte * bits <= 8,
                rs == raws@.map_values(|x: u8| x as nat),
                forall|i: int| 0 <= i < raws@.len() ==> raws@[i] < pow2(bits as nat),
                start == j * per_byte,
                start <= raws@.len(),
                r <= per_byte,
                acc < pow2((r * bits) as nat),
                forall|s: int| #![trigger pow2((s * bits) as nat)]
                    0 <= s < r ==> (acc as nat / pow2((s * bits) as nat)) % pow2(bits as nat) == (if start + s
                        < rs.len() {
                        rs[start + s]
                    } else {
                        0
                    }),
            decreases per_byte - r,
        {
            let raw: u32 = if r < raws.len() - start {
                raws[start + r] as u32
            } else {
                0
            };
            proof {
                lemma_pow2_small();
                lemma_pow2_pos(bits as nat);
                assert(r * bits + bits <= 8) by (nonlinear_arith)
                    requires
                        r + 1 <= per_byte,
                        per_byte * bits <= 8,
                        bits >= 1,
                ;
            }
            let w = weight_of(r as u32 * bits);
            proof {
                let (a, x, m) = (acc as nat, raw as nat, pow2(bits as nat));
                let wn = w as nat;
                lemma_pow2_adds((r * bits) as nat, bits as nat);
                assert((r + 1) * bits == r * bits + bits) by (nonlinear_arith);
                assert(x * wn + wn <= m * wn) by (nonlinear_arith)
                    requires
                        x + 1 <= m,
                        wn >= 1,
                ;
                lemma_mul_is_commutative(m as int, wn as int);
                lemma_pow2_strictly_increases_or_equal(((r + 1) * bits) as nat, 8);
                // the slots below
                assert forall|s: int| #![trigger pow2((s * bits) as nat)] 0 <= s < r implies ((acc + raw * w) as nat
                    / pow2((s * bits) as nat)) % pow2(bits as nat) == (if start + s < rs.len() {
                    rs[start + s]
                } else {
                    0
                }) by {
                    let p = pow2((s * bits) as nat);
                    let k = pow2(((r - s - 1) * bits) as nat);
                    lemma_pow2_pos((s * bits) as nat);
                    assert(s * bits >= 0 && (r - s - 1) * bits >= 0 && s * bits + bits + (r - s - 1) * bits == r * bits)
                        by (nonlinear_arith)
                        requires
                            0 <= s < r,
                            bits >= 1,
                    ;
                    lemma_pow2_adds((s * bits) as nat, bits as nat);
                    lemma_pow2_adds((s * bits + bits) as nat, ((r - s - 1) * bits) as nat);
                    assert(wn == p * m * k);
                    lemma_low_field(a, x, p, m, k);
                }
                // the new slot
                lemma_mul_is_commutative(x as int, wn as int);
                lemma_fundamental_div_mod_converse((a + x * wn) as int, wn as int, x as int, a as int);
                lemma_small_mod(x, m);
            }
            acc = acc + raw * w;
            r = r + 1;
        }
        proof {
            lemma_pow2_strictly_increases_or_equal((per_byte * bits) as nat, 8);
            lemma_pow2_small();
        }
        let b: u8 = acc as u8;
        proof {
            assert forall|s: int| #![trigger raw_field(b, bits, s as nat)] 0 <= s < per_byte implies raw_field(
                b,
                bits,
                s as nat,
            ) == (if j * per_byte + s < rs.len() {
                rs[j * per_byte + s]
            } else {
                0
            }) by {
                assert(pow2((s * bits) as nat) == pow2(s as nat * bits as nat));
            }
        }
        out.push(b);
        j = j + 1;
    }
    out
}

proof fn lemma_pow2_strictly_increases_or_equal(a: nat, b: nat)
    requires
        a <= b,
    ensures
        pow2(a) <= pow2(b),
{
    if a < b {
        lemma_pow2_strictly_increases(a, b);
    }
}

/// Pack signed integers: offset binary below 8 bits, two's complement at 8.
pub fn pack_int(values: &[i32], bits: u32) -> (out: Vec<u8>)
    requires
        1 <= bits <= 8,
        bits < 8 ==> forall|i: int| 0 <= i < values@.len() ==> values@[i] + pow2((bits - 1) as nat) <= i32::MAX,
    ensures
        is_packed(values@.map_values(|v: i32| raw_of_int(v as int, bits)), bits, out@),
{
    proof {
        lemma_pow2_small();
    }
    let field = weight_of(bits);
    let zero_point = if bits == 8 {
        0
    } else {
        weight_of(bits - 1)
    };
    let mut raws: Vec<u8> = Vec::new();
    let mut i: usize = 0;
    while i < values.len()
        invariant
            1 <= bits <= 8,
            bits < 8 ==> forall|k: int| 0 <= k < values@.len() ==> values@[k] + pow2((bits - 1) as nat) <= i32::MAX,
            field == pow2(bits as nat),
            1 <= field <= 256,
            bits == 8 ==> field == 256 && zero_point == 0,
            bits < 8 ==> zero_point == pow2((bits - 1) as nat),
            zero_point <= 256,
            i <= values@.len(),
            raws@.len() == i,
            forall|k: int| 0 <= k < i ==> #[trigger] raws@[k] < field && raws@[k] == raw_of_int(values@[k] as int, bits),
        decreases values@.len() - i,
    {
        // lifted by a multiple of every field size, so that it is not negative
        let x: i64 = values[i] as i64 + zero_point as i64 + 0x1_0000_0000;
        let raw: i64 = x % (field as i64);
        proof {
            lemma_pow2_small();
            let (v, f) = (values@[i as int] + zero_point as int, field as int);
            let lift: int = 0x1_0000_0000;
            assert(f == 2 || f == 4 || f == 8 || f == 16 || f == 32 || f == 64 || f == 128 || f == 256);
            assert(f * (lift / f) == lift);
            lemma_mod_multiples_vanish(lift / f, v, f);
        }
        raws.push(raw as u8);
        i = i + 1;
    }
    let out = pack_fields(&raws, bits);
    proof {
        assert(raws@.map_values(|x: u8| x as nat) =~= values@.map_values(|v: i32| raw_of_int(v as int, bits)));
    }
    out
}

/// Pack raw unsigned values, low `bits` bits of each, with no zero-point shift.
pub fn pack_unsigned(values: &[u32], bits: u32) -> (out: Vec<u8>)
    requires
        1 <= bits <= 8,
    ensures
        is_packed(values@.map_values(|v: u32| v as nat % pow2(bits as nat)), bits, out@),
{
    proof {
        lemma_pow2_small();
    }
    let field = weight_of(bits);
    let mut raws: Vec<u8> = Vec::new();
    let mut i: usize = 0;
    while i < values.len()
        invariant
            1 <= bits <= 8,
            field == pow2(bits as nat),
            1 <= field <= 256,
            i <= values@.len(),
            raws@.len() == i,
            forall|k: int| 0 <= k < i ==> raws@[k] < field && #[trigger] raws@[k] == values@[k] as nat % pow2(bits as nat),
        decreases values@.len() - i,
    {
        raws.push((values[i] % field) as u8);
        i = i + 1;
    }
    let out = pack_fields(&raws, bits);
    proof {
        assert(raws@.map_values(|x: u8| x as nat) =~= values@.map_values(|v: u32| v as nat % pow2(bits as nat)));
    }
    out
}

/// Unpacking gives back what was packed, for integers that fit the width.
pub proof fn unpack_inverts_pack(values: Seq<i32>, bits: u32, bytes: Seq<u8>, i: int)
    requires
        1 <= bits <= 8,
        forall|k: int| 0 <= k < values.len() ==> in_range(#[trigger] values[k] as int, bits),
        is_packed(values.map_values(|v: i32| raw_of_int(v as int, bits)), bits, bytes),
        0 <= i < values.len(),
    ensures
        i < bytes.len() * fields_per_byte(bits),
        unpacked(bytes, bits, i) == values[i],
{
    lemma_slots(bits);
    lemma_pow2_small();
    let raws = values.map_values(|v: i32| raw_of_int(v as int, bits));
    let per = fields_per_byte(bits) as int;
    let (n, j, s) = (values.len() as int, i / per, i % per);
    lemma_fundamental_div_mod(i, per);
    lemma_fundamental_div_mod(n + per - 1, per);
    lemma_mul_is_commutative(per, j);
    assert(j < bytes.len() && i < bytes.len() * per) by (nonlinear_arith)
        requires
            n + per - 1 == per * bytes.len() + (n + per - 1) % per,
            (n + per - 1) % per < per,
            i < n,
            i == per * j + s,
            s >= 0,
            per >= 1,
    ;
    let b = bytes[j];
    assert(raw_field(b, bits, s as nat) == raws[i]);
    assert(in_range(values[i] as int, bits));
    if bits == 8 {
        assert(per == 1);
        assert(raw_field(b, 8, 0) == b) by {
            assert(0nat * 8 == 0);
            assert(b as nat / 1 == b);
            lemma_small_mod(b as nat, 256);
        }
        assert(j == i);
    } else {
        let z = pow2((bits - 1) as nat);
        lemma_pow2_unfold(bits as nat);
        lemma_small_mod((values[i] + z) as nat, pow2(bits as nat));
    }
}

/// Scale groups in a row.
pub open spec fn groups_per_row(cols: nat, group_size: nat) -> nat {
    ((cols + group_size - 1) / group_size as int) as nat
}

/// Weight `[r, c]` of a matrix of stored integers.
pub open spec fn dequantized(q: Seq<i32>, scales: Seq<F32>, cols: nat, group_size: nat, r: int, c: int) -> F32 {
    F32::spec_of_int(q[r * cols + c] as int).spec_times(
        scales[r * groups_per_row(cols, group_size) + c / group_size as int],
    )
}

/// A weight that was packed has the numbers of the integers that were packed.
pub proof fn packed_weight_reads_back(
    values: Seq<i32>,
    scales: Seq<F32>,
    cols: nat,
    group_size: nat,
    bits: u32,
    bytes: Seq<u8>,
    r: int,
    c: int,
)
    requires
        1 <= bits <= 8,
        forall|k: int| 0 <= k < values.len() ==> in_range(#[trigger] values[k] as int, bits),
        is_packed(values.map_values(|v: i32| raw_of_int(v as int, bits)), bits, bytes),
        0 <= r * cols + c < values.len(),
    ensures
        F32::spec_of_int(unpacked(bytes, bits, r * cols + c)).spec_times(
            scales[r * groups_per_row(cols, group_size) + c / group_size as int],
        ) == dequantized(values, scales, cols, group_size, r, c),
{
    unpack_inverts_pack(values, bits, bytes, r * cols + c);
}

/// The last group of a row is inside the row's groups.
pub(crate) proof fn lemma_group_in_row(cols: nat, group_size: nat, c: int)
    requires
        group_size > 0,
        0 <= c < cols,
    ensures
        0 <= c / group_size as int,
        c / (group_size as int) < groups_per_row(cols, group_size),
{
    let g = group_size as int;
    lemma_fundamental_div_mod(c, g);
    lemma_fundamental_div_mod(cols + g - 1, g);
    lemma_div_pos_is_pos(c, g);
    assert(c / g < (cols + g - 1) / g) by (nonlinear_arith)
        requires
            c == g * (c / g) + c % g,
            cols + g - 1 == g * ((cols + g - 1) / g) + (cols + g - 1) % g,
            (cols + g - 1) % g < g,
            c % g >= 0,
            c < cols,
            g > 0,
    ;
}

/// `ceil(a / b)`.
pub(crate) fn div_ceil(a: usize, b: usize) -> (r: usize)
    requires
        b > 0,
    ensures
        r == (a + b - 1) / (b as int),
        r <= a,
{
    let q: usize = a / b;
    proof {
        let (n, p) = (a as int, b as int);
        lemma_fundamental_div_mod(n, p);
        lemma_mul_is_commutative(p, n / p);
        if n % p == 0 {
            lemma_fundamental_div_mod_converse(n + p - 1, p, n / p, p - 1);
        } else {
            assert(n + p - 1 == (n / p + 1) * p + (n % p - 1)) by (nonlinear_arith)
                requires
                    n == p * (n / p) + n % p,
            ;
            lemma_fundamental_div_mod_converse(n + p - 1, p, n / p + 1, n % p - 1);
        }
        assert(q + (if n % p == 0 { 0int } else { 1int }) <= n) by (nonlinear_arith)
            requires
                n == p * q + n % p,
                n % p >= 0,
                p >= 1,
                q >= 0,
        ;
    }
    if a % b == 0 {
        q
    } else {
        q + 1
    }
}

/// Dequantize a `[rows, cols]` weight from unpacked integers and per-group
/// scales.
pub fn dequantize(q: &[i32], scales: &[F32], rows: usize, cols: usize, group_size: usize) -> (out: Vec<F32>)
    requires
        group_size > 0,
        rows * cols <= q@.len(),
        rows * groups_per_row(cols as nat, group_size as nat) <= scales@.len(),
    ensures
        out@.len() == rows * cols,
        forall|r: int, c: int|
            #![trigger dequantized(q@, scales@, cols as nat, group_size as nat, r, c)]
            0 <= r < rows && 0 <= c < cols ==> out@[r * cols + c] == dequantized(
                q@,
                scales@,
                cols as nat,
                group_size as nat,
                r,
                c,
            ),
{
    let groups = div_ceil(cols, group_size);
    let have: usize = q.len();
    let have_scales: usize = scales.len();
    let mut out: Vec<F32> = Vec::new();
    let mut r: usize = 0;
    proof {
        assert(0 * cols == 0) by (nonlinear_arith);
    }
    while r < rows
        invariant
            group_size > 0,
            groups == groups_per_row(cols as nat, group_size as nat),
            have == q@.len(),
            have_scales == scales@.len(),
            rows * cols <= have,
            rows * groups <= have_scales,
            r <= rows,
            out@.len() == r * cols,
            forall|a: int, c: int|
                #![trigger dequantized(q@, scales@, cols as nat, group_size as nat, a, c)]
                0 <= a < r && 0 <= c < cols ==> out@[a * cols + c] == dequantized(
                    q@,
                    scales@,
                    cols as nat,
                    group_size as nat,
                    a,
                    c,
                ),
        decreases rows - r,
    {
        let mut c: usize = 0;
        proof {
            assert(r * cols + cols <= have) by (nonlinear_arith)
                requires
                    rows * cols <= have,
                    r + 1 <= rows,
                    cols >= 0,
            ;
            assert(r * groups + groups <= have_scales) by (nonlinear_arith)
                requires
                    rows * groups <= have_scales,
                    r + 1 <= rows,
                    groups >= 0,
            ;
        }
        let base: usize = r * cols;
        let gbase: usize = r * groups;
        while c < cols
            invariant
                group_size > 0,
                groups == groups_per_row(cols as nat, group_size as nat),
                have == q@.len(),
                have_scales == scales@.len(),
                base == r * cols,
                gbase == r * groups,
                base + cols <= have,
                gbase + groups <= have_scales,
                c <= cols,
                out@.len() == base + c,
                forall|a: int, k: int|
                    #![trigger dequantized(q@, scales@, cols as nat, group_size as nat, a, k)]
                    0 <= a < r && 0 <= k < cols ==> out@[a * cols + k] == dequantized(
                        q@,
                        scales@,
                        cols as nat,
                        group_size as nat,
                        a,
                        k,
                    ),
                forall|k: int|
                    #![trigger dequantized(q@, scales@, cols as nat, group_size as nat, r as int, k)]
                    0 <= k < c ==> out@[base + k] == dequantized(
                        q@,
                        scales@,
                        cols as nat,
                        group_size as nat,
                        r as int,
                        k,
                    ),
            decreases cols - c,
        {
            proof {
                lemma_group_in_row(cols as nat, group_size as nat, c as int);
            }
            let x = F32::from_i32(q[base + c]).times(scales[gbase + c / group_size]);
            let ghost before = out@;
            out.push(x);
            proof {
                assert forall|a: int, k: int|
                    #![trigger dequantized(q@, scales@, cols as nat, group_size as nat, a, k)]
                    0 <= a < r && 0 <= k < cols implies out@[a * cols + k] == dequantized(
                    q@,
                    scales@,
                    cols as nat,
                    group_size as nat,
                    a,
                    k,
                ) by {
                    lemma_row_index(a, k, r as int, cols as int);
                    assert(before[a * cols + k] == dequantized(q@, scales@, cols as nat, group_size as nat, a, k));
                }
            }
            c = c + 1;
        }
        proof {
            assert((r + 1) * cols == r * cols + cols) by (nonlinear_arith);
        }
        r = r + 1;
    }
    out
}

/// Cells of earlier rows lie before row `r`.
pub(crate) proof fn lemma_row_index(a: int, k: int, r: int, cols: int)
    requires
        0 <= a < r,
        0 <= k < cols,
    ensures
        0 <= a * cols + k < r * cols,
{
    assert(a * cols + k < r * cols && a * cols >= 0) by (nonlinear_arith)
        requires
            0 <= a,
            a + 1 <= r,
            0 <= k < cols,
    ;
}

/// Packed bytes to weights, for a `[rows, cols]` matrix; without a group size
/// there is one scale per row.
pub fn dequantize_weight(
    bytes: &[u8],
    scales: &[F32],
    shape: [usize; 2],
    bits: u32,
    group_size: Option<usize>,
) -> (out: Vec<F32>)
    requires
        0 < bits < 32,
        shape[0] * shape[1] <= usize::MAX,
        shape[0] * shape[1] > 0 ==> bits <= 8 && shape[0] * shape[1] <= bytes@.len() * fields_per_byte(bits),
        (if group_size is Some { group_size->0 } else { shape[1] }) > 0,
        shape[0] * groups_per_row(
            shape[1] as nat,
            (if group_size is Some { group_size->0 } else { shape[1] }) as nat,
        ) <= scales@.len(),
    ensures
        out@.len() == shape[0] * shape[1],
        forall|r: int, c: int|
            #![trigger out@[r * shape[1] + c]]
            0 <= r < shape[0] && 0 <= c < shape[1] ==> out@[r * shape[1] + c] == F32::spec_of_int(
                unpacked(bytes@, bits, r * shape[1] + c),
            ).spec_times(
                scales@[r * groups_per_row(
                    shape[1] as nat,
                    (if group_size is Some { group_size->0 } else { shape[1] }) as nat,
                ) + c / (if group_size is Some { group_size->0 } else { shape[1] }) as int],
            ),
{
    let rows: usize = shape[0];
    let cols: usize = shape[1];
    let group: usize = match group_size {
        Some(g) => g,
        None => cols,
    };
    let q = unpack_int(bytes, bits, rows * cols);
    let out = dequantize(q.as_slice(), scales, rows, cols, group);
    proof {
        assert forall|r: int, c: int| #![trigger out@[r * cols + c]] 0 <= r < rows && 0 <= c < cols implies out@[r * cols
            + c] == F32::spec_of_int(unpacked(bytes@, bits, r * cols + c)).spec_times(
            scales@[r * groups_per_row(cols as nat, group as nat) + c / group as int],
        ) by {
            lemma_row_index(r, c, rows as int, cols as int);
            assert(out@[r * cols + c] == dequantized(q@, scales@, cols as nat, group as nat, r, c));
        }
    }
    out
}

} // verus!
