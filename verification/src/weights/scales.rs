//! What the numbers of a weight have to do with the bytes of its files.
use vstd::arithmetic::div_mod::*;
use vstd::arithmetic::mul::*;
use vstd::arithmetic::power2::pow2;
use vstd::prelude::*;

use super::{LoadedWeight, ModelWeights, Stored};
use crate::backend::Backend;
use crate::config::Gemma4Config;
use crate::float::F32;
use crate::safetensors::SafetensorsFile;

verus! {

proof fn lemma_last_file(files: Seq<SafetensorsFile<'_>>, name: Seq<char>, i: int)
    requires
        0 <= i < files.len(),
        files[i].spec_meta(name) is Some,
        forall|j: int| i < j < files.len() ==> (#[trigger] files[j]).spec_meta(name) is None,
    ensures
        super::file_with(files, name) == Some(i),
    decreases files.len(),
{
    if i < files.len() - 1 {
        let before = files.drop_last();
        assert(files[files.len() - 1].spec_meta(name) is None);
        assert forall|j: int| i < j < before.len() implies (#[trigger] before[j]).spec_meta(name) is None by {
            assert(before[j] == files[j]);
        }
        lemma_last_file(before, name, i);
    }
}

proof fn lemma_no_file(files: Seq<SafetensorsFile<'_>>, name: Seq<char>)
    requires
        forall|j: int| 0 <= j < files.len() ==> (#[trigger] files[j]).spec_meta(name) is None,
    ensures
        super::file_with(files, name) is None,
    decreases files.len(),
{
    if files.len() > 0 {
        let before = files.drop_last();
        assert(files[files.len() - 1].spec_meta(name) is None);
        assert forall|j: int| 0 <= j < before.len() implies (#[trigger] before[j]).spec_meta(name) is None by {
            assert(before[j] == files[j]);
        }
        lemma_no_file(before, name);
    }
}

/// The name under which a weight is read: its own, or where no file has that,
/// its bare one. Where no file has either, the weight is missing.
pub open spec fn is_name_of(files: Seq<SafetensorsFile<'_>>, logical: Seq<char>, name: Seq<char>) -> bool {
    let names = super::disk_names(logical);
    name == names.weight || (names.bare == Some(name) && forall|j: int|
        0 <= j < files.len() ==> (#[trigger] files[j]).spec_meta(names.weight) is None)
}

/// A weight that no file has, under either name, is missing.
pub proof fn weight_of_no_file_is_missing(files: Seq<SafetensorsFile<'_>>, c: Gemma4Config, logical: Seq<char>)
    requires
        forall|j: int| 0 <= j < files.len() ==> (#[trigger] files[j]).spec_meta(super::disk_names(logical).weight) is None,
        super::disk_names(logical).bare matches Some(bare) ==> forall|j: int|
            0 <= j < files.len() ==> (#[trigger] files[j]).spec_meta(bare) is None,
    ensures
        super::stored(files, c, logical) is Missing,
{
    lemma_no_file(files, super::disk_names(logical).weight);
    if let Some(bare) = super::disk_names(logical).bare {
        lemma_no_file(files, bare);
    }
}

proof fn lemma_place(files: Seq<SafetensorsFile<'_>>, logical: Seq<char>, name: Seq<char>, i: int)
    requires
        is_name_of(files, logical, name),
        0 <= i < files.len(),
        files[i].spec_meta(name) is Some,
        forall|j: int| i < j < files.len() ==> (#[trigger] files[j]).spec_meta(name) is None,
    ensures
        super::place_of(files, logical) == Some((i, name)),
{
    lemma_last_file(files, name, i);
    if name != super::disk_names(logical).weight {
        lemma_no_file(files, super::disk_names(logical).weight);
    }
}

/// A weight stored as numbers is loaded with the shape that its file says, and
/// with those numbers, from the last file that has it.
pub proof fn plain_weight_is_its_numbers(
    files: Seq<SafetensorsFile<'_>>,
    c: Gemma4Config,
    logical: Seq<char>,
    name: Seq<char>,
    i: int,
)
    requires
        is_name_of(files, logical, name),
        0 <= i < files.len(),
        files[i].spec_meta(name) is Some,
        forall|j: int| i < j < files.len() ==> (#[trigger] files[j]).spec_meta(name) is None,
    ensures
        ({
            let (f, m) = (files[i], files[i].spec_meta(name)->0);
            let from = (f.data_start + m.start) as int;
            m.start <= m.end && f.data_start + m.end <= f.bytes@.len() && (m.dtype == "F32"@ || m.dtype == "F16"@ || m.dtype
                == "BF16"@) ==> {
                &&& super::stored(files, c, logical) matches Stored::Plain(x) && {
                    &&& x.dims == m.shape
                    &&& !x.packed
                    &&& x.cells == crate::safetensors::decoded(m.dtype, f.bytes@.subrange(from, f.data_start + m.end))
                }
            }
        }),
{
    lemma_place(files, logical, name, i);
    reveal_strlit("F32");
    reveal_strlit("F16");
    reveal_strlit("BF16");
    reveal_strlit("U8");
    reveal_strlit("I8");
    assert("U8"@.len() == 2 && "I8"@.len() == 2 && "F32"@.len() == 3 && "F16"@.len() == 3 && "BF16"@.len() == 4);
}

/// A weight stored as integers has at row `r` and column `k` the integer that
/// stands there, times the number of its scale tensor at row `r` and the column
/// of the block of columns that `k` is in: with `g` columns of scales there are
/// `g` blocks, as wide as each other. Below a byte integers lie low to high and
/// are offset by half their range.
pub proof fn packed_number_is_integer_times_scale(
    files: Seq<SafetensorsFile<'_>>,
    c: Gemma4Config,
    logical: Seq<char>,
    name: Seq<char>,
    i: int,
    bits: u32,
    g: int,
    r: int,
    k: int,
)
    requires
        is_name_of(files, logical, name),
        0 <= i < files.len(),
        files[i].spec_meta(name) is Some,
        forall|j: int| i < j < files.len() ==> (#[trigger] files[j]).spec_meta(name) is None,
        files[i].spec_meta(super::disk_names(logical).scale) is Some,
        ({
            let (f, m) = (files[i], files[i].spec_meta(name)->0);
            let sm = f.spec_meta(super::disk_names(logical).scale)->0;
            let per = (8u32 / bits) as int;
            &&& 1 <= bits <= 8
            &&& if m.dtype == "I8"@ {
                bits == 8
            } else {
                m.dtype == "U8"@ && bits == crate::config::bits_by(
                    crate::config::rule_texts(c.quant_rules@),
                    crate::text::without_suffix(logical, ".weight"@),
                )
            }
            &&& m.shape.len() >= 2
            &&& m.shape[1] * per <= usize::MAX
            &&& m.start <= m.end && f.data_start + m.end <= f.bytes@.len()
            &&& sm.start <= sm.end && f.data_start + sm.end <= f.bytes@.len()
            &&& sm.dtype == "F32"@ || sm.dtype == "F16"@ || sm.dtype == "BF16"@
            &&& g == if sm.shape.len() > 1 {
                sm.shape[1] as int
            } else {
                1
            }
            &&& g > 0
            &&& (m.shape[1] * per) % g == 0
            &&& 0 <= r < m.shape[0]
            &&& 0 <= k < m.shape[1] * per
        }),
    ensures
        ({
            let (f, m) = (files[i], files[i].spec_meta(name)->0);
            let sm = f.spec_meta(super::disk_names(logical).scale)->0;
            let per = (8u32 / bits) as int;
            let (rows, cols) = (m.shape[0], m.shape[1] * per);
            let byte = f.bytes@.subrange((f.data_start + m.start) as int, f.data_start + m.end)[r * m.shape[1] + k / per];
            let integer = if m.dtype == "I8"@ {
                if byte < 128 {
                    byte as int
                } else {
                    byte - 256
                }
            } else {
                (byte as int / pow2((k % per * bits) as nat) as int) % (pow2(bits as nat) as int) - pow2((bits - 1) as nat)
            };
            let scales = crate::safetensors::decoded(
                sm.dtype,
                f.bytes@.subrange((f.data_start + sm.start) as int, f.data_start + sm.end),
            );
            let number = F32::spec_of_int(integer).spec_times(scales[r * g + k / (cols / g)]);
            &&& super::stored(files, c, logical) matches Stored::Packed(q) && {
                &&& q.value_at(r, k) == number
                &&& q.content().dims == seq![rows, cols as usize]
                &&& q.wf() ==> q.content().cells[r * cols + k] == number
                &&& q.wf() ==> q.content().cells.len() == rows * cols
            }
        }),
{
    let (f, m) = (files[i], files[i].spec_meta(name)->0);
    let sm = f.spec_meta(super::disk_names(logical).scale)->0;
    let per = (8u32 / bits) as int;
    let (rows, cols) = (m.shape[0] as int, m.shape[1] * per);
    lemma_place(files, logical, name, i);
    reveal_strlit("F32");
    reveal_strlit("F16");
    reveal_strlit("BF16");
    reveal_strlit("U8");
    reveal_strlit("I8");
    assert("U8"@[0] == 'U' && "I8"@[0] == 'I');
    crate::dequant::lemma_slots(bits);
    assert(bits == 8 ==> per == 1);
    let q = super::stored(files, c, logical)->Packed_0;
    assert(super::stored(files, c, logical) is Packed);
    assert(q.cols == cols && q.rows == rows);
    let group = cols / g;
    lemma_fundamental_div_mod(cols, g);
    assert(group > 0) by (nonlinear_arith)
        requires
            cols == g * group,
            cols > 0,
            g > 0,
    ;
    assert(q.group_size == group);
    // rows of scales are as long as there are blocks
    lemma_mul_is_commutative(g, group);
    lemma_fundamental_div_mod_converse(cols + group - 1, group, g, group - 1);
    assert(q.scale_stride() == g);
    // rows of bytes are as long as they are stored
    lemma_div_multiples_vanish(m.shape[1] as int, per);
    lemma_mul_is_commutative(m.shape[1] as int, per);
    lemma_div_basics(k);
    assert(q.row_bytes() == m.shape[1]);
    lemma_mod_bound(k, per);
    assert((k % per) as nat * bits as nat == (k % per * bits) as nat) by (nonlinear_arith)
        requires
            k % per >= 0,
    ;
    if q.wf() {
        lemma_fundamental_div_mod_converse(r * cols + k, cols, r, k);
        assert(r * cols + k < rows * cols) by (nonlinear_arith)
            requires
                r < rows,
                0 <= k < cols,
        ;
        lemma_mul_nonnegative(r, cols);
    }
}

/// What `read` gives is what the files have of a weight.
pub proof fn read_gives_what_is_stored<'a, B: Backend>(
    w: &ModelWeights<'a, B>,
    logical: &str,
    r: Result<Option<LoadedWeight>, String>,
)
    requires
        call_ensures(ModelWeights::<'a, B>::read, (w, logical), r),
    ensures
        match super::stored(w.files@, *w.config, logical@) {
            Stored::Missing => r matches Ok(None),
            Stored::Broken => r is Err,
            Stored::Plain(x) => r matches Ok(Some(LoadedWeight::Plain(t))) && t.shape@ == x.dims && t.data@ == x.cells,
            Stored::Packed(q) => r matches Ok(Some(LoadedWeight::Packed(p))) && p@ == q,
        },
{
}

} // verus!
