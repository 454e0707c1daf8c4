//! Safetensors files and their number formats.
//!
//! Layout: `[u64 header length][JSON header][tensor bytes]`, little-endian. The
//! header maps a name to `{ dtype, shape, data_offsets: [start, end] }`, with
//! offsets counted from the first tensor byte. F32, F16 and BF16 payloads
//! decode to numbers; integer payloads (U8, I8) are handed on packed.
use vstd::hash_map::StringHashMap;
use vstd::prelude::*;
use vstd::string::*;

use crate::float::F32;
use crate::json::{read_fields, write_table, Number, Record, Tree};
use crate::text::{decimal, joined, same_text};

pub mod meta;

use self::meta::read_meta;

verus! {

/// Bytes of the length field in front of the header.
pub const HEADER_LEN_BYTES: usize = 8;

/// What the header says of one tensor.
#[derive(Debug)]
pub struct TensorMeta {
    pub dtype: String,
    pub shape: Vec<usize>,
    pub data_offsets: [usize; 2],
}

#[derive(Debug)]
pub enum SafetensorsError {
    Io(String),
    Header(String),
    NotFound(String),
    Dtype(String),
}

impl SafetensorsError {
    pub open spec fn text(self) -> Seq<char> {
        match self {
            SafetensorsError::Io(s) => "io: "@ + s@,
            SafetensorsError::Header(s) => "invalid safetensors header: "@ + s@,
            SafetensorsError::NotFound(s) => "tensor not found: "@ + s@,
            SafetensorsError::Dtype(s) => "unsupported dtype "@ + s@,
        }
    }

    /// The error in words.
    pub fn message(&self) -> (r: String)
        ensures
            r@ == self.text(),
    {
        match self {
            SafetensorsError::Io(s) => joined("io: ", s.as_str()),
            SafetensorsError::Header(s) => joined("invalid safetensors header: ", s.as_str()),
            SafetensorsError::NotFound(s) => joined("tensor not found: ", s.as_str()),
            SafetensorsError::Dtype(s) => joined("unsupported dtype ", s.as_str()),
        }
    }
}

// --- little-endian numbers ------------------------------------------------------------------

/// The number that `n` bytes from `at` on spell, least significant first.
pub open spec fn le_value(b: Seq<u8>, at: int, n: nat) -> nat
    decreases n,
{
    if n == 0 {
        0
    } else {
        b[at] as nat + 256 * le_value(b, at + 1, (n - 1) as nat)
    }
}

/// `n` bytes that spell `x`, least significant first.
pub open spec fn le_bytes(x: nat, n: nat) -> Seq<u8>
    decreases n,
{
    if n == 0 {
        Seq::empty()
    } else {
        seq![(x % 256) as u8] + le_bytes(x / 256, (n - 1) as nat)
    }
}

proof fn lemma_le_len(x: nat, n: nat)
    ensures
        le_bytes(x, n).len() == n,
    decreases n,
{
    if n > 0 {
        lemma_le_len(x / 256, (n - 1) as nat);
    }
}

/// `256^n`.
pub open spec fn byte_power(n: nat) -> nat
    decreases n,
{
    if n == 0 {
        1
    } else {
        256 * byte_power((n - 1) as nat)
    }
}

/// Reading the bytes of a number gives the number.
pub proof fn le_reads_back(x: nat, n: nat, b: Seq<u8>, at: int)
    requires
        x < byte_power(n),
        0 <= at,
        at + n <= b.len(),
        b.subrange(at, at + n) == le_bytes(x, n),
    ensures
        le_value(b, at, n) == x,
    decreases n,
{
    if n > 0 {
        let m = (n - 1) as nat;
        lemma_le_len(x, n);
        lemma_le_len(x / 256, m);
        assert(b[at] == b.subrange(at, at + n)[0]);
        assert(b.subrange(at + 1, at + 1 + m) =~= le_bytes(x, n).skip(1));
        assert(le_bytes(x, n).skip(1) =~= le_bytes(x / 256, m));
        le_reads_back(x / 256, m, b, at + 1);
    }
}

fn read_le(b: &[u8], at: usize, n: usize) -> (r: u64)
    requires
        n <= 8,
        at + n <= b@.len(),
    ensures
        r == le_value(b@, at as int, n as nat),
        r < byte_power(n as nat),
{
    proof {
        reveal_with_fuel(byte_power, 9);
        reveal_with_fuel(le_value, 9);
    }
    if n == 0 {
        return 0;
    }
    let size: usize = b.len();
    let mut r: u64 = 0;
    let mut i: usize = n;
    while i > 0
        invariant
            n <= 8,
            size == b@.len(),
            at + n <= size,
            i <= n,
            r == le_value(b@, at + i, (n - i) as nat),
            r < byte_power((n - i) as nat),
        decreases i,
    {
        proof {
            reveal_with_fuel(byte_power, 9);
        }
        r = 256 * r + b[at + (i - 1)] as u64;
        i = i - 1;
    }
    r
}

fn push_le8(out: &mut Vec<u8>, x: u64)
    ensures
        final(out)@ == old(out)@ + le_bytes(x as nat, 8),
{
    let ghost start = out@;
    let mut rest: u64 = x;
    let mut i: usize = 0;
    proof {
        assert(start + le_bytes(x as nat, 8) =~= out@ + le_bytes(x as nat, 8));
    }
    while i < 8
        invariant
            i <= 8,
            start + le_bytes(x as nat, 8) == out@ + le_bytes(rest as nat, (8 - i) as nat),
        decreases 8 - i,
    {
        let ghost was = out@;
        out.push((rest % 256) as u8);
        proof {
            let tail = le_bytes(rest as nat / 256, (8 - i - 1) as nat);
            assert(was + (seq![(rest as nat % 256) as u8] + tail) =~= out@ + tail);
        }
        rest = rest / 256;
        i = i + 1;
    }
    proof {
        assert(out@ + Seq::<u8>::empty() =~= out@);
    }
}

// --- number formats ---------------------------------------------------------------------------

/// Half precision to single precision.
pub fn f16_to_f32(h: u16) -> (r: F32)
    ensures
        r == F32::spec_of_half(h),
{
    F32::from_half(h)
}

/// A bf16 number is the high half of a single.
pub fn bf16_to_f32(b: u16) -> (r: F32)
    ensures
        r.0 == b * 0x1_0000,
{
    F32(b as u32 * 0x1_0000)
}

/// The high half of a single: the number, cut off.
pub fn f32_to_bf16(f: F32) -> (r: u16)
    ensures
        r == f.0 / 0x1_0000,
{
    (f.0 / 0x1_0000) as u16
}

/// A bf16 number widened and cut off again is itself.
pub proof fn bf16_reads_back(b: u16)
    ensures
        (b * 0x1_0000) / 0x1_0000 == b,
{
}

/// The decodable formats: bytes per number.
pub open spec fn float_width(dtype: Seq<char>) -> Option<nat> {
    if dtype == "F32"@ {
        Some(4)
    } else if dtype == "F16"@ {
        Some(2)
    } else if dtype == "BF16"@ {
        Some(2)
    } else {
        None
    }
}

/// Number `i` of a payload.
pub open spec fn decoded_at(dtype: Seq<char>, bytes: Seq<u8>, i: int) -> F32 {
    if dtype == "F32"@ {
        F32(le_value(bytes, 4 * i, 4) as u32)
    } else if dtype == "F16"@ {
        F32::spec_of_half(le_value(bytes, 2 * i, 2) as u16)
    } else {
        F32((le_value(bytes, 2 * i, 2) * 0x1_0000) as u32)
    }
}

/// All numbers of a payload; bytes left over at the end are ignored.
pub open spec fn decoded(dtype: Seq<char>, bytes: Seq<u8>) -> Seq<F32> {
    Seq::new(bytes.len() / float_width(dtype)->0, |i: int| decoded_at(dtype, bytes, i))
}

/// Decode a payload of numbers.
pub fn decode_to_f32(dtype: &str, bytes: &[u8]) -> (r: Result<Vec<F32>, SafetensorsError>)
    ensures
        r is Ok <==> float_width(dtype@) is Some,
        r matches Ok(v) ==> v@ == decoded(dtype@, bytes@),
        r matches Err(e) ==> e is Dtype && e->Dtype_0@ == dtype@,
{
    let mut out: Vec<F32> = Vec::new();
    let size: usize = bytes.len();
    proof {
        reveal_strlit("F32");
        reveal_strlit("F16");
        reveal_strlit("BF16");
        reveal_with_fuel(byte_power, 9);
        assert("F32"@[1] == '3' && "F16"@[1] == '1' && "BF16"@.len() == 4);
    }
    if same_text(dtype, "F32") {
        let n: usize = size / 4;
        let mut i: usize = 0;
        while i < n
            invariant
                size == bytes@.len(),
                n == size / 4,
                i <= n,
                dtype@ == "F32"@,
                out@.len() == i,
                forall|k: int| 0 <= k < i ==> #[trigger] out@[k] == decoded_at(dtype@, bytes@, k),
            decreases n - i,
        {
            proof {
                reveal_with_fuel(byte_power, 9);
            }
            let x = read_le(bytes, 4 * i, 4);
            out.push(F32(x as u32));
            i = i + 1;
        }
        proof {
            assert(out@ =~= decoded(dtype@, bytes@));
        }
        Ok(out)
    } else if same_text(dtype, "F16") {
        let n: usize = size / 2;
        let mut i: usize = 0;
        while i < n
            invariant
                size == bytes@.len(),
                n == size / 2,
                i <= n,
                dtype@ == "F16"@,
                "F16"@ != "F32"@,
                out@.len() == i,
                forall|k: int| 0 <= k < i ==> #[trigger] out@[k] == decoded_at(dtype@, bytes@, k),
            decreases n - i,
        {
            proof {
                reveal_with_fuel(byte_power, 9);
            }
            let x = read_le(bytes, 2 * i, 2);
            out.push(f16_to_f32(x as u16));
            i = i + 1;
        }
        proof {
            assert(out@ =~= decoded(dtype@, bytes@));
        }
        Ok(out)
    } else if same_text(dtype, "BF16") {
        let n: usize = size / 2;
        let mut i: usize = 0;
        while i < n
            invariant
                size == bytes@.len(),
                n == size / 2,
                i <= n,
                dtype@ == "BF16"@,
                "BF16"@ != "F32"@,
                "BF16"@ != "F16"@,
                out@.len() == i,
                forall|k: int| 0 <= k < i ==> #[trigger] out@[k] == decoded_at(dtype@, bytes@, k),
            decreases n - i,
        {
            proof {
                reveal_with_fuel(byte_power, 9);
            }
            let x = read_le(bytes, 2 * i, 2);
            out.push(bf16_to_f32(x as u16));
            i = i + 1;
        }
        proof {
            assert(out@ =~= decoded(dtype@, bytes@));
        }
        Ok(out)
    } else {
        Err(SafetensorsError::Dtype(dtype.to_owned()))
    }
}

// --- the header -----------------------------------------------------------------------------

/// A tensor's description as mathematics.
pub struct Meta {
    pub dtype: Seq<char>,
    pub shape: Seq<usize>,
    pub start: usize,
    pub end: usize,
}

impl View for TensorMeta {
    type V = Meta;

    open spec fn view(&self) -> Meta {
        Meta {
            dtype: self.dtype@,
            shape: self.shape@,
            start: self.data_offsets[0],
            end: self.data_offsets[1],
        }
    }
}

/// A list of sizes.
pub open spec fn sizes_of(t: Tree) -> Option<Seq<usize>> {
    match t {
        Tree::Array(v) => if forall|i: int|
            0 <= i < v.len() ==> (#[trigger] v[i]).count() is Some && v[i].count()->0 <= usize::MAX {
            Some(v.map_values(|x: Tree| x.count()->0 as usize))
        } else {
            None
        },
        _ => None,
    }
}

pub open spec fn meta_from(dtype: Option<Tree>, shape: Option<Tree>, offsets: Option<Tree>) -> Option<Meta> {
    match (dtype, shape, offsets) {
        (Some(d), Some(s), Some(o)) => match (d.text(), sizes_of(s), sizes_of(o)) {
            (Some(dtype), Some(shape), Some(ends)) => if ends.len() == 2 {
                Some(Meta { dtype, shape, start: ends[0], end: ends[1] })
            } else {
                None
            },
            _ => None,
        },
        _ => None,
    }
}

/// A tensor's description: an object with the three fields (others are
/// ignored), or just their three values.
pub open spec fn meta_of(t: Tree) -> Option<Meta> {
    match t {
        Tree::Object(_) => meta_from(t.field("dtype"@), t.field("shape"@), t.field("data_offsets"@)),
        Tree::Array(v) => if v.len() == 3 {
            meta_from(Some(v[0]), Some(v[1]), Some(v[2]))
        } else {
            None
        },
        _ => None,
    }
}

/// The tensors among the first `n` fields of a header; `__metadata__` is none.
/// Or what is wrong with the first bad one.
pub open spec fn entries_of(fields: Seq<(Seq<char>, Tree)>, n: nat) -> Result<Seq<(Seq<char>, Meta)>, Seq<char>>
    decreases n,
{
    if n == 0 {
        Ok(Seq::empty())
    } else {
        let (name, t) = fields[n - 1];
        match entries_of(fields, (n - 1) as nat) {
            Err(e) => Err(e),
            Ok(before) => if name == "__metadata__"@ {
                Ok(before)
            } else {
                match meta_of(t) {
                    Some(m) => Ok(before.push((name, m))),
                    None => Err(name + ": "@ + crate::safetensors::meta::meta_error(t)),
                }
            },
        }
    }
}

/// A file's tensors and where their bytes start, or what is wrong with its
/// header.
pub open spec fn header_of(buf: Seq<u8>) -> Result<(Seq<(Seq<char>, Meta)>, nat), Seq<char>> {
    if buf.len() < 8 {
        Err("file shorter than 8 bytes"@)
    } else {
        let len = le_value(buf, 0, 8);
        if len == 0 || 8 + len > buf.len() {
            Err("header length "@ + crate::text::decimal_text(len) + " out of range"@)
        } else {
            match crate::json::parsed_fields(buf.subrange(8, 8 + len as int)) {
                Err(e) => Err(e),
                Ok(fields) => match entries_of(fields, fields.len()) {
                    Err(e) => Err(e),
                    Ok(entries) => Ok((entries, 8 + len)),
                },
            }
        }
    }
}

/// A parsed header: the tensors, and each one's place by name.
pub struct Header {
    pub entries: Vec<(String, TensorMeta)>,
    pub index: StringHashMap<usize>,
}

impl View for Header {
    type V = Seq<(Seq<char>, Meta)>;

    open spec fn view(&self) -> Seq<(Seq<char>, Meta)> {
        self.entries@.map_values(|e: (String, TensorMeta)| (e.0@, e.1@))
    }
}

impl Header {
    pub open spec fn wf(self) -> bool {
        &&& forall|k: Seq<char>| #[trigger]
            self.index@.contains_key(k) ==> self.index@[k] < self.entries@.len() && self.entries@[self.index@[k] as int].0@
                == k
        &&& forall|i: int|
            0 <= i < self.entries@.len() ==> self.index@.contains_key((#[trigger] self.entries@[i]).0@)
                && self.index@[self.entries@[i].0@] == i
    }
}

/// The description of a named tensor.
pub open spec fn meta_named(entries: Seq<(Seq<char>, Meta)>, name: Seq<char>) -> Option<Meta>
    decreases entries.len(),
{
    if entries.len() == 0 {
        None
    } else if entries.last().0 == name {
        Some(entries.last().1)
    } else {
        meta_named(entries.drop_last(), name)
    }
}

/// Looking up by name finds the only entry of that name.
proof fn lemma_meta_named(entries: Seq<(Seq<char>, Meta)>, name: Seq<char>, i: int)
    requires
        forall|a: int, b: int|
            0 <= a < b < entries.len() ==> (#[trigger] entries[a]).0 != (#[trigger] entries[b]).0,
        0 <= i < entries.len(),
        entries[i].0 == name,
    ensures
        meta_named(entries, name) == Some(entries[i].1),
    decreases entries.len(),
{
    if i < entries.len() - 1 {
        assert(entries[i].0 != entries[entries.len() - 1].0);
        let init = entries.drop_last();
        assert forall|a: int, b: int| 0 <= a < b < init.len() implies (#[trigger] init[a]).0 != (#[trigger] init[b]).0 by {
            assert(entries[a].0 != entries[b].0);
        }
        lemma_meta_named(init, name, i);
    }
}

proof fn lemma_meta_absent(entries: Seq<(Seq<char>, Meta)>, name: Seq<char>)
    requires
        forall|i: int| 0 <= i < entries.len() ==> (#[trigger] entries[i]).0 != name,
    ensures
        meta_named(entries, name) is None,
    decreases entries.len(),
{
    if entries.len() > 0 {
        assert(entries[entries.len() - 1].0 != name);
        let init = entries.drop_last();
        assert forall|i: int| 0 <= i < init.len() implies (#[trigger] init[i]).0 != name by {
            assert(entries[i].0 != name);
        }
        lemma_meta_absent(init, name);
    }
}

impl Header {
    fn find(&self, name: &str) -> (r: Option<&TensorMeta>)
        requires
            self.wf(),
        ensures
            r is Some <==> meta_named(self@, name@) is Some,
            r matches Some(m) ==> m@ == meta_named(self@, name@)->0,
    {
        proof {
            assert forall|a: int, b: int| 0 <= a < b < self@.len() implies (#[trigger] self@[a]).0
                != (#[trigger] self@[b]).0 by {
                assert(self.entries@[a].0@ == self@[a].0 && self.entries@[b].0@ == self@[b].0);
            }
        }
        match self.index.get(name) {
            Some(i) => {
                proof {
                    assert(self@[*i as int].0 == name@);
                    lemma_meta_named(self@, name@, *i as int);
                }
                Some(&self.entries[*i].1)
            },
            None => {
                proof {
                    assert forall|i: int| 0 <= i < self@.len() implies (#[trigger] self@[i]).0 != name@ by {
                        assert(self.index@.contains_key(self.entries@[i].0@));
                    }
                    lemma_meta_absent(self@, name@);
                }
                None
            },
        }
    }
}

/// Names of entries come from distinct fields.
proof fn lemma_entry_names(fields: Seq<(Seq<char>, Tree)>, n: nat, name: Seq<char>)
    requires
        n <= fields.len(),
        entries_of(fields, n) is Ok,
        forall|i: int| 0 <= i < n ==> (#[trigger] fields[i]).0 != name,
    ensures
        forall|i: int| 0 <= i < entries_of(fields, n)->Ok_0.len() ==> (#[trigger] entries_of(fields, n)->Ok_0[i]).0 != name,
    decreases n,
{
    if n > 0 {
        assert(fields[n - 1].0 != name);
        lemma_entry_names(fields, (n - 1) as nat, name);
    }
}

/// A bad field makes the whole header bad, with the words for the first one.
proof fn lemma_first_error(fields: Seq<(Seq<char>, Tree)>, n: nat, m: nat)
    requires
        n <= m,
        entries_of(fields, n) is Err,
    ensures
        entries_of(fields, m) == entries_of(fields, n),
    decreases m,
{
    if n < m {
        lemma_first_error(fields, n, (m - 1) as nat);
    }
}

/// Parse the header of a file: its tensors, and where their bytes start.
pub fn parse_header(buf: &[u8]) -> (r: Result<(Header, usize), SafetensorsError>)
    ensures
        r is Ok <==> header_of(buf@) is Ok,
        r matches Ok((h, start)) ==> h.wf() && (h@, start as nat) == header_of(buf@)->Ok_0 && 8 <= start <= buf@.len(),
        r matches Err(e) ==> e is Header && e->Header_0@ == header_of(buf@)->Err_0,
{
    let size: usize = buf.len();
    if size < HEADER_LEN_BYTES {
        return Err(SafetensorsError::Header("file shorter than 8 bytes".to_owned()));
    }
    let len = read_le(buf, 0, 8);
    if len == 0 || len > (size - 8) as u64 {
        let mut e = joined("header length ", decimal(len).as_str());
        e.append(" out of range");
        return Err(SafetensorsError::Header(e));
    }
    let end: usize = 8 + len as usize;
    let json = vstd::slice::slice_subrange(buf, 8, end);
    let fields = match read_fields(json) {
        Ok(f) => f,
        Err(e) => {
            return Err(SafetensorsError::Header(e));
        },
    };
    let ghost all = fields@;
    let ghost trees = all.map_values(|e: (String, serde_json::Value)| crate::json::entry_tree(e));
    let mut header = Header { entries: Vec::new(), index: StringHashMap::new() };
    proof {
        assert(header@ =~= Seq::empty());
    }
    for x in it: fields
        invariant
            it.seq() == all,
            trees == all.map_values(|e: (String, serde_json::Value)| crate::json::entry_tree(e)),
            crate::json::distinct_names(trees),
            8 < end <= size,
            size == buf@.len(),
            end == 8 + le_value(buf@, 0, 8),
            crate::json::parsed_fields(buf@.subrange(8, end as int)) is Ok,
            crate::json::parsed_fields(buf@.subrange(8, end as int))->Ok_0 == trees,
            header.wf(),
            entries_of(trees, it.index() as nat) is Ok,
            header@ == entries_of(trees, it.index() as nat)->Ok_0,
    {
        let ghost i = it.index();
        let (k, v) = x;
        proof {
            assert((k, v) == all[i]);
            assert(trees[i] == (k@, crate::json::value_tree(v)));
            assert forall|j: int| 0 <= j < i implies (#[trigger] trees[j]).0 != k@ by {
                assert(trees[j].0 != trees[i].0);
            }
            lemma_entry_names(trees, i as nat, k@);
        }
        if !same_text(k.as_str(), "__metadata__") {
            match read_meta(v) {
                Ok(m) => {
                    let place: usize = header.entries.len();
                    let ghost before = header;
                    header.entries.push((k.clone(), m));
                    header.index.insert(k.clone(), place);
                    proof {
                        assert(header@ =~= before@.push((k@, m@)));
                        assert forall|j: int| 0 <= j < before.entries@.len() implies header.index@.contains_key(
                            (#[trigger] header.entries@[j]).0@,
                        ) && header.index@[header.entries@[j].0@] == j by {
                            assert(before@[j].0 != k@);
                            assert(before.entries@[j].0@ == header.entries@[j].0@);
                        }
                    }
                },
                Err(e) => {
                    proof {
                        lemma_first_error(trees, (i + 1) as nat, trees.len());
                    }
                    let mut told = joined(k.as_str(), ": ");
                    told.append(e.as_str());
                    return Err(SafetensorsError::Header(told));
                },
            }
        }
    }
    Ok((header, end))
}

// --- files ------------------------------------------------------------------------------------

/// A file's bytes: lent by a memory map, or owned.
pub enum Bytes<'a> {
    Lent(&'a [u8]),
    Owned(Vec<u8>),
}

impl<'a> View for Bytes<'a> {
    type V = Seq<u8>;

    open spec fn view(&self) -> Seq<u8> {
        match self {
            Bytes::Lent(b) => b@,
            Bytes::Owned(v) => v@,
        }
    }
}

impl<'a> Bytes<'a> {
    pub fn as_slice(&self) -> (r: &[u8])
        ensures
            r@ == self@,
    {
        match self {
            Bytes::Lent(b) => b,
            Bytes::Owned(v) => v.as_slice(),
        }
    }
}

/// A decoded float tensor.
pub struct FloatTensor {
    pub data: Vec<F32>,
    pub shape: Vec<usize>,
    pub dtype: String,
}

pub struct SafetensorsFile<'a> {
    pub bytes: Bytes<'a>,
    pub header: Header,
    pub data_start: usize,
}

/// Whether the offsets of a tensor lie inside a file.
pub open spec fn offsets_fit(buf: Seq<u8>, data_start: nat, m: Meta) -> bool {
    m.start <= m.end && data_start + m.end <= buf.len()
}

/// A tensor's bytes.
pub open spec fn payload(buf: Seq<u8>, data_start: nat, m: Meta) -> Seq<u8> {
    buf.subrange((data_start + m.start) as int, (data_start + m.end) as int)
}

/// Why a tensor's bytes cannot be had.
pub open spec fn range_error(name: Seq<char>, m: Meta) -> Seq<char> {
    name + ": offsets "@ + crate::text::decimal_text(m.start as nat) + ".."@ + crate::text::decimal_text(m.end as nat)
        + " out of range"@
}

impl<'a> SafetensorsFile<'a> {
    /// The header describes the bytes.
    pub open spec fn wf(self) -> bool {
        &&& self.header.wf()
        &&& header_of(self.bytes@) is Ok
        &&& header_of(self.bytes@)->Ok_0 == (self.header@, self.data_start as nat)
        &&& self.data_start <= self.bytes@.len()
    }

    pub open spec fn spec_meta(self, name: Seq<char>) -> Option<Meta> {
        meta_named(self.header@, name)
    }

    pub fn from_bytes(bytes: Bytes<'a>) -> (r: Result<SafetensorsFile<'a>, SafetensorsError>)
        ensures
            r is Ok <==> header_of(bytes@) is Ok,
            r matches Ok(f) ==> f.wf() && f.bytes@ == bytes@,
            r matches Err(e) ==> e is Header && e->Header_0@ == header_of(bytes@)->Err_0,
    {
        match parse_header(bytes.as_slice()) {
            Ok((header, data_start)) => Ok(SafetensorsFile { bytes, header, data_start }),
            Err(e) => Err(e),
        }
    }

    /// Wrap bytes in memory.
    pub fn from_vec(v: Vec<u8>) -> (r: Result<SafetensorsFile<'a>, SafetensorsError>)
        ensures
            r is Ok <==> header_of(v@) is Ok,
            r matches Ok(f) ==> f.wf() && f.bytes@ == v@,
            r matches Err(e) ==> e is Header && e->Header_0@ == header_of(v@)->Err_0,
    {
        Self::from_bytes(Bytes::Owned(v))
    }

    /// Names of all tensors.
    pub fn names(&self) -> (r: Vec<String>)
        ensures
            r@.map_values(|s: String| s@) == self.header@.map_values(|e: (Seq<char>, Meta)| e.0),
    {
        let mut out: Vec<String> = Vec::new();
        let mut i: usize = 0;
        while i < self.header.entries.len()
            invariant
                i <= self.header.entries@.len(),
                out@.len() == i,
                forall|k: int| 0 <= k < i ==> (#[trigger] out@[k])@ == self.header@[k].0,
            decreases self.header.entries@.len() - i,
        {
            out.push(self.header.entries[i].0.clone());
            i = i + 1;
        }
        proof {
            assert(out@.map_values(|s: String| s@) =~= self.header@.map_values(|e: (Seq<char>, Meta)| e.0));
        }
        out
    }

    pub fn contains(&self, name: &str) -> (r: bool)
        requires
            self.wf(),
        ensures
            r == self.spec_meta(name@) is Some,
    {
        self.header.find(name).is_some()
    }

    pub fn meta(&self, name: &str) -> (r: Result<&TensorMeta, SafetensorsError>)
        requires
            self.wf(),
        ensures
            r is Ok <==> self.spec_meta(name@) is Some,
            r matches Ok(m) ==> m@ == self.spec_meta(name@)->0,
            r matches Err(e) ==> e is NotFound && e->NotFound_0@ == name@,
    {
        match self.header.find(name) {
            Some(m) => Ok(m),
            None => Err(SafetensorsError::NotFound(name.to_owned())),
        }
    }

    /// Raw bytes of a tensor.
    pub fn raw_bytes(&self, name: &str) -> (r: Result<&[u8], SafetensorsError>)
        requires
            self.wf(),
        ensures
            match self.spec_meta(name@) {
                None => r is Err && r->Err_0 is NotFound && r->Err_0->NotFound_0@ == name@,
                Some(m) => if offsets_fit(self.bytes@, self.data_start as nat, m) {
                    r is Ok && r->Ok_0@ == payload(self.bytes@, self.data_start as nat, m)
                } else {
                    r is Err && r->Err_0 is Header && r->Err_0->Header_0@ == range_error(name@, m)
                },
            },
    {
        let m = match self.meta(name) {
            Ok(m) => m,
            Err(e) => {
                return Err(e);
            },
        };
        let start: usize = m.data_offsets[0];
        let end: usize = m.data_offsets[1];
        let buf = self.bytes.as_slice();
        let room: usize = buf.len() - self.data_start;
        if end > room || start > end {
            let mut e = joined(name, ": offsets ");
            e.append(decimal(start as u64).as_str());
            e.append("..");
            e.append(decimal(end as u64).as_str());
            e.append(" out of range");
            return Err(SafetensorsError::Header(e));
        }
        Ok(vstd::slice::slice_subrange(buf, self.data_start + start, self.data_start + end))
    }

    /// Decoded numbers and shape of a float tensor.
    pub fn tensor(&self, name: &str) -> (r: Result<FloatTensor, SafetensorsError>)
        requires
            self.wf(),
        ensures
            match self.spec_meta(name@) {
                None => r is Err && r->Err_0 is NotFound && r->Err_0->NotFound_0@ == name@,
                Some(m) => if !offsets_fit(self.bytes@, self.data_start as nat, m) {
                    r is Err && r->Err_0 is Header && r->Err_0->Header_0@ == range_error(name@, m)
                } else if float_width(m.dtype) is Some {
                    r is Ok && r->Ok_0.data@ == decoded(m.dtype, payload(self.bytes@, self.data_start as nat, m))
                        && r->Ok_0.shape@ == m.shape && r->Ok_0.dtype@ == m.dtype
                } else {
                    r is Err && r->Err_0 is Dtype && r->Err_0->Dtype_0@ == m.dtype
                },
            },
    {
        let m = match self.meta(name) {
            Ok(m) => m,
            Err(e) => {
                return Err(e);
            },
        };
        let raw = match self.raw_bytes(name) {
            Ok(b) => b,
            Err(e) => {
                return Err(e);
            },
        };
        match decode_to_f32(m.dtype.as_str(), raw) {
            Ok(data) => {
                let shape = copied(&m.shape);
                Ok(FloatTensor { data, shape, dtype: m.dtype.clone() })
            },
            Err(e) => Err(e),
        }
    }

    pub fn total_bytes(&self) -> (r: usize)
        ensures
            r == self.bytes@.len(),
    {
        self.bytes.as_slice().len()
    }
}

/// A copy of a list of sizes.
pub fn copied(v: &Vec<usize>) -> (r: Vec<usize>)
    ensures
        r@ == v@,
{
    let mut out: Vec<usize> = Vec::new();
    let mut i: usize = 0;
    while i < v.len()
        invariant
            i <= v@.len(),
            out@ == v@.take(i as int),
        decreases v@.len() - i,
    {
        out.push(v[i]);
        proof {
            assert(out@ =~= v@.take(i + 1));
        }
        i = i + 1;
    }
    proof {
        assert(v@.take(i as int) =~= v@);
    }
    out
}

// --- building -----------------------------------------------------------------------------------

/// A tensor to write with [`build_safetensors`].
pub struct RawTensor {
    pub dtype: String,
    pub shape: Vec<usize>,
    pub bytes: Vec<u8>,
}

/// Bytes of the first `n` tensors, one after the other.
pub open spec fn payloads(tensors: Seq<(String, RawTensor)>, n: nat) -> Seq<u8>
    decreases n,
{
    if n == 0 {
        Seq::empty()
    } else {
        payloads(tensors, (n - 1) as nat) + tensors[n - 1].1.bytes@
    }
}

/// What the header of a built file says of tensor `i`.
pub open spec fn placed(tensors: Seq<(String, RawTensor)>, i: int) -> Meta {
    Meta {
        dtype: tensors[i].1.dtype@,
        shape: tensors[i].1.shape@,
        start: payloads(tensors, i as nat).len() as usize,
        end: payloads(tensors, (i + 1) as nat).len() as usize,
    }
}

/// No two tensors share a name, and none has the name of the metadata.
pub open spec fn plain_names(tensors: Seq<(String, RawTensor)>) -> bool {
    &&& forall|i: int, j: int|
        0 <= i < j < tensors.len() ==> (#[trigger] tensors[i]).0@ != (#[trigger] tensors[j]).0@
    &&& forall|i: int| 0 <= i < tensors.len() ==> (#[trigger] tensors[i]).0@ != "__metadata__"@
}

proof fn lemma_payload_place(tensors: Seq<(String, RawTensor)>, i: nat, n: nat)
    requires
        i < n <= tensors.len(),
    ensures
        payloads(tensors, i).len() + tensors[i as int].1.bytes@.len() <= payloads(tensors, n).len(),
        payloads(tensors, i + 1).len() == payloads(tensors, i).len() + tensors[i as int].1.bytes@.len(),
        payloads(tensors, n).subrange(
            payloads(tensors, i).len() as int,
            (payloads(tensors, i).len() + tensors[i as int].1.bytes@.len()) as int,
        ) == tensors[i as int].1.bytes@,
    decreases n,
{
    let b = tensors[i as int].1.bytes@;
    let from = payloads(tensors, i).len() as int;
    if n == i + 1 {
        assert(payloads(tensors, n).subrange(from, from + b.len()) =~= b);
    } else {
        lemma_payload_place(tensors, i, (n - 1) as nat);
        assert(payloads(tensors, n).subrange(from, from + b.len()) =~= payloads(tensors, (n - 1) as nat).subrange(
            from,
            from + b.len(),
        ));
    }
}

/// The record that the header of a built file holds for a tensor.
spec fn is_record_of(r: Record, tensors: Seq<(String, RawTensor)>, i: int) -> bool {
    &&& r.name@ == tensors[i].0@
    &&& r.dtype@ == tensors[i].1.dtype@
    &&& r.shape@ == tensors[i].1.shape@.map_values(|x: usize| x as u64)
    &&& r.offsets@ == seq![
        payloads(tensors, i as nat).len() as u64,
        payloads(tensors, (i + 1) as nat).len() as u64,
    ]
}

/// A list of sizes written as JSON reads as that list.
proof fn lemma_sizes_read_back(v: Seq<u64>, w: Seq<usize>)
    requires
        v == w.map_values(|x: usize| x as u64),
    ensures
        sizes_of(crate::json::counts_tree(v)) == Some(w),
{
    let t = crate::json::counts_tree(v);
    let items = t->Array_0;
    assert forall|i: int| 0 <= i < items.len() implies (#[trigger] items[i]).count() is Some && items[i].count()->0
        <= usize::MAX by {
        assert(items[i] == Tree::Number(Number::PosInt(v[i])));
    }
    assert(items.map_values(|x: Tree| x.count()->0 as usize) =~= w);
}

/// A record reads as the description it was written from.
proof fn lemma_record_reads_back(t: Tree, r: Record, tensors: Seq<(String, RawTensor)>, i: int)
    requires
        crate::json::is_record(t, r),
        is_record_of(r, tensors, i),
        0 <= i < tensors.len(),
        payloads(tensors, (i + 1) as nat).len() <= usize::MAX,
    ensures
        meta_of(t) == Some(placed(tensors, i)),
{
    crate::json::record_says(t, r);
    lemma_payload_place(tensors, i as nat, (i + 1) as nat);
    lemma_sizes_read_back(r.shape@, tensors[i].1.shape@);
    let ends = seq![
        payloads(tensors, i as nat).len() as usize,
        payloads(tensors, (i + 1) as nat).len() as usize,
    ];
    assert(r.offsets@ =~= ends.map_values(|x: usize| x as u64));
    lemma_sizes_read_back(r.offsets@, ends);
}

/// Every good field becomes an entry, found by its name.
proof fn lemma_fields_become_entries(fields: Seq<(Seq<char>, Tree)>, n: nat)
    requires
        n <= fields.len(),
        crate::json::distinct_names(fields),
        forall|k: int| 0 <= k < n ==> (#[trigger] fields[k]).0 != "__metadata__"@ && meta_of(fields[k].1) is Some,
    ensures
        entries_of(fields, n) is Ok,
        entries_of(fields, n)->Ok_0.len() == n,
        forall|k: int|
            0 <= k < n ==> (#[trigger] entries_of(fields, n)->Ok_0[k]) == (fields[k].0, meta_of(fields[k].1)->0),
    decreases n,
{
    if n > 0 {
        lemma_fields_become_entries(fields, (n - 1) as nat);
        assert(fields[n - 1].0 != "__metadata__"@);
    }
}

/// Whether a name is a tensor's.
pub open spec fn is_tensor_name(tensors: Seq<(String, RawTensor)>, name: Seq<char>) -> bool {
    exists|i: int| 0 <= i < tensors.len() && (#[trigger] tensors[i]).0@ == name
}

/// Whether bytes are a file that holds exactly these tensors: the header finds
/// each under its name and has no other name, and a tensor's bytes lie where
/// the header says.
pub open spec fn holds_tensors(buf: Seq<u8>, tensors: Seq<(String, RawTensor)>) -> bool {
    &&& header_of(buf) is Ok
    &&& header_of(buf)->Ok_0.0.len() == tensors.len()
    &&& forall|k: int|
        0 <= k < header_of(buf)->Ok_0.0.len() ==> is_tensor_name(tensors, (#[trigger] header_of(buf)->Ok_0.0[k]).0)
    &&& forall|i: int|
        #![trigger tensors[i]]
        0 <= i < tensors.len() ==> meta_named(header_of(buf)->Ok_0.0, tensors[i].0@) == Some(placed(tensors, i))
            && offsets_fit(buf, header_of(buf)->Ok_0.1, placed(tensors, i)) && payload(
            buf,
            header_of(buf)->Ok_0.1,
            placed(tensors, i),
        ) == tensors[i].1.bytes@
}

/// A file that holds exactly some tensors has nothing under another name.
pub proof fn other_names_have_nothing(buf: Seq<u8>, tensors: Seq<(String, RawTensor)>, name: Seq<char>)
    requires
        holds_tensors(buf, tensors),
    ensures
        meta_named(header_of(buf)->Ok_0.0, name) is Some <==> is_tensor_name(tensors, name),
{
    let entries = header_of(buf)->Ok_0.0;
    if !is_tensor_name(tensors, name) {
        assert forall|k: int| 0 <= k < entries.len() implies (#[trigger] entries[k]).0 != name by {
            assert(is_tensor_name(tensors, entries[k].0));
        }
        lemma_meta_absent(entries, name);
    } else {
        let i = choose|i: int| 0 <= i < tensors.len() && (#[trigger] tensors[i]).0@ == name;
        assert(meta_named(entries, tensors[i].0@) is Some);
    }
}

/// Build a file in memory, tensors in the given order: the header's length, the
/// header, then all bytes. Where names are distinct, the file reads back.
pub fn build_safetensors(tensors: &[(String, RawTensor)]) -> (out: Vec<u8>)
    requires
        payloads(tensors@, tensors@.len()).len() <= usize::MAX,
    ensures
        exists|json: Seq<u8>|
            out@ == le_bytes(#[trigger] json.len(), 8) + json + payloads(tensors@, tensors@.len()) && json.len()
                <= usize::MAX && json == crate::json::written(Tree::Object(crate::json::parsed_fields(json)->Ok_0)),
        plain_names(tensors@) ==> holds_tensors(out@, tensors@),
{
    let mut records: Vec<Record> = Vec::new();
    let mut offset: usize = 0;
    let mut i: usize = 0;
    while i < tensors.len()
        invariant
            payloads(tensors@, tensors@.len()).len() <= usize::MAX,
            i <= tensors@.len(),
            offset == payloads(tensors@, i as nat).len(),
            records@.len() == i,
            forall|k: int| 0 <= k < i ==> is_record_of(#[trigger] records@[k], tensors@, k),
        decreases tensors@.len() - i,
    {
        let t = &tensors[i].1;
        proof {
            lemma_payload_place(tensors@, i as nat, tensors@.len());
        }
        let end: usize = offset + t.bytes.len();
        let mut shape: Vec<u64> = Vec::new();
        let mut k: usize = 0;
        while k < t.shape.len()
            invariant
                k <= t.shape@.len(),
                shape@.len() == k,
                forall|j: int| 0 <= j < k ==> #[trigger] shape@[j] == t.shape@[j],
            decreases t.shape@.len() - k,
        {
            shape.push(t.shape[k] as u64);
            k = k + 1;
        }
        let mut offsets: Vec<u64> = Vec::new();
        offsets.push(offset as u64);
        offsets.push(end as u64);
        let r = Record { name: tensors[i].0.clone(), dtype: t.dtype.clone(), shape, offsets };
        proof {
            assert(r.shape@ =~= tensors@[i as int].1.shape@.map_values(|x: usize| x as u64));
            assert(r.offsets@ =~= seq![
                payloads(tensors@, i as nat).len() as u64,
                payloads(tensors@, (i + 1) as nat).len() as u64,
            ]);
        }
        records.push(r);
        offset = end;
        i = i + 1;
    }
    let ghost recs = records@;
    let json = write_table(records);
    let json_len: usize = json.len();
    let mut out: Vec<u8> = Vec::new();
    push_le8(&mut out, json_len as u64);
    push_bytes(&mut out, &json);
    let mut j: usize = 0;
    let ghost front = le_bytes(json@.len(), 8) + json@;
    proof {
        assert(out@ =~= front + payloads(tensors@, 0));
    }
    while j < tensors.len()
        invariant
            j <= tensors@.len(),
            out@ == front + payloads(tensors@, j as nat),
        decreases tensors@.len() - j,
    {
        push_bytes(&mut out, &tensors[j].1.bytes);
        proof {
            assert(out@ =~= front + payloads(tensors@, (j + 1) as nat));
        }
        j = j + 1;
    }
    proof {
        assert(plain_names(tensors@) ==> holds_tensors(out@, tensors@)) by {
            if plain_names(tensors@) {
                lemma_make_table(crate::json::parsed_fields(json@)->Ok_0, recs, tensors@);
                lemma_built_file_reads_back(out@, json@, recs, tensors@);
            }
        }
    }
    out
}

fn push_bytes(out: &mut Vec<u8>, bytes: &Vec<u8>)
    ensures
        final(out)@ == old(out)@ + bytes@,
{
    let ghost start = out@;
    let mut i: usize = 0;
    proof {
        assert(start + bytes@.take(0) =~= out@);
    }
    while i < bytes.len()
        invariant
            i <= bytes@.len(),
            out@ == start + bytes@.take(i as int),
        decreases bytes@.len() - i,
    {
        out.push(bytes[i]);
        proof {
            assert(out@ =~= start + bytes@.take(i + 1));
        }
        i = i + 1;
    }
    proof {
        assert(bytes@.take(i as int) =~= bytes@);
    }
}

/// Field `k` has the name of a tensor.
spec fn has_tensor(fields: Seq<(Seq<char>, Tree)>, tensors: Seq<(String, RawTensor)>, k: int) -> bool {
    exists|i: int| 0 <= i < tensors.len() && fields[k].0 == (#[trigger] tensors[i]).0@
}

/// Tensor `i` has the name of a field.
spec fn has_field(fields: Seq<(Seq<char>, Tree)>, tensors: Seq<(String, RawTensor)>, i: int) -> bool {
    exists|k: int| 0 <= k < fields.len() && (#[trigger] fields[k]).0 == tensors[i].0@
}

/// Two lists of distinct names with the same names are equally long.
proof fn lemma_same_count(fields: Seq<(Seq<char>, Tree)>, tensors: Seq<(String, RawTensor)>)
    requires
        crate::json::distinct_names(fields),
        plain_names(tensors),
        forall|k: int| 0 <= k < fields.len() ==> #[trigger] has_tensor(fields, tensors, k),
        forall|i: int| 0 <= i < tensors.len() ==> #[trigger] has_field(fields, tensors, i),
    ensures
        fields.len() == tensors.len(),
{
    let a = fields.map_values(|f: (Seq<char>, Tree)| f.0);
    let b = tensors.map_values(|t: (String, RawTensor)| t.0@);
    assert forall|i: int, j: int| 0 <= i < a.len() && 0 <= j < a.len() && i != j implies a[i] != a[j] by {
        if i < j {
            assert(fields[i].0 != fields[j].0);
        } else {
            assert(fields[j].0 != fields[i].0);
        }
    }
    assert forall|i: int, j: int| 0 <= i < b.len() && 0 <= j < b.len() && i != j implies b[i] != b[j] by {
        if i < j {
            assert(tensors[i].0@ != tensors[j].0@);
        } else {
            assert(tensors[j].0@ != tensors[i].0@);
        }
    }
    a.unique_seq_to_set();
    b.unique_seq_to_set();
    assert(a.to_set() =~= b.to_set()) by {
        assert forall|x: Seq<char>| a.to_set().contains(x) implies b.to_set().contains(x) by {
            let k = choose|k: int| 0 <= k < a.len() && a[k] == x;
            assert(has_tensor(fields, tensors, k));
            let i = choose|i: int| 0 <= i < tensors.len() && fields[k].0 == (#[trigger] tensors[i]).0@;
            assert(b[i] == x);
        }
        assert forall|x: Seq<char>| b.to_set().contains(x) implies a.to_set().contains(x) by {
            let i = choose|i: int| 0 <= i < b.len() && b[i] == x;
            assert(has_field(fields, tensors, i));
            let k = choose|k: int| 0 <= k < fields.len() && (#[trigger] fields[k]).0 == tensors[i].0@;
            assert(a[k] == x);
        }
    }
}

/// Records of distinct names stand in a table one by one.
#[verifier::opaque]
spec fn is_table_of(
    fields: Seq<(Seq<char>, Tree)>,
    records: Seq<Record>,
    tensors: Seq<(String, RawTensor)>,
) -> bool {
    &&& plain_names(tensors)
    &&& payloads(tensors, tensors.len()).len() <= usize::MAX
    &&& records.len() == tensors.len()
    &&& forall|k: int| 0 <= k < tensors.len() ==> is_record_of(#[trigger] records[k], tensors, k)
    &&& crate::json::is_table(fields, records)
}

proof fn lemma_record_names(records: Seq<Record>, tensors: Seq<(String, RawTensor)>, i: int)
    requires
        plain_names(tensors),
        records.len() == tensors.len(),
        forall|k: int| 0 <= k < tensors.len() ==> is_record_of(#[trigger] records[k], tensors, k),
        0 <= i < records.len(),
    ensures
        forall|j: int| i < j < records.len() ==> (#[trigger] records[j]).name@ != records[i].name@,
{
    assert forall|j: int| i < j < records.len() implies (#[trigger] records[j]).name@ != records[i].name@ by {
        assert(is_record_of(records[i], tensors, i) && is_record_of(records[j], tensors, j));
        assert(tensors[i].0@ != tensors[j].0@);
    }
}

proof fn lemma_make_table(fields: Seq<(Seq<char>, Tree)>, records: Seq<Record>, tensors: Seq<(String, RawTensor)>)
    requires
        plain_names(tensors),
        payloads(tensors, tensors.len()).len() <= usize::MAX,
        records.len() == tensors.len(),
        forall|k: int| 0 <= k < tensors.len() ==> is_record_of(#[trigger] records[k], tensors, k),
        crate::json::is_table(fields, records),
    ensures
        is_table_of(fields, records, tensors),
{
    reveal(is_table_of);
}

/// Every tensor has its field.
proof fn lemma_tensor_has_field(
    fields: Seq<(Seq<char>, Tree)>,
    records: Seq<Record>,
    tensors: Seq<(String, RawTensor)>,
    i: int,
) -> (k: int)
    requires
        is_table_of(fields, records, tensors),
        0 <= i < tensors.len(),
    ensures
        0 <= k < fields.len(),
        fields[k].0 == tensors[i].0@,
        meta_of(fields[k].1) == Some(placed(tensors, i)),
{
    reveal(is_table_of);
    lemma_record_names(records, tensors, i);
    assert(is_record_of(records[i], tensors, i));
    let name = records[i].name@;
    crate::json::found_by_name(fields, name);
    assert(find_is_record(fields, records, i));
    let k = choose|k: int| 0 <= k < fields.len() && (#[trigger] fields[k]).0 == name;
    lemma_payload_place(tensors, i as nat, tensors.len());
    lemma_record_reads_back(fields[k].1, records[i], tensors, i);
    k
}

spec fn find_is_record(fields: Seq<(Seq<char>, Tree)>, records: Seq<Record>, i: int) -> bool {
    crate::json::find_field(fields, records[i].name@) is Some && crate::json::is_record(
        crate::json::find_field(fields, records[i].name@)->0,
        records[i],
    )
}

/// Every field is one of the tensors.
proof fn lemma_field_has_tensor(
    fields: Seq<(Seq<char>, Tree)>,
    records: Seq<Record>,
    tensors: Seq<(String, RawTensor)>,
    k: int,
) -> (i: int)
    requires
        is_table_of(fields, records, tensors),
        0 <= k < fields.len(),
    ensures
        0 <= i < tensors.len(),
        fields[k].0 == tensors[i].0@,
        fields[k].0 != "__metadata__"@,
        meta_of(fields[k].1) == Some(placed(tensors, i)),
{
    reveal(is_table_of);
    let i = choose|i: int| 0 <= i < records.len() && (#[trigger] fields[k]).0 == (#[trigger] records[i]).name@;
    assert(is_record_of(records[i], tensors, i));
    let k2 = lemma_tensor_has_field(fields, records, tensors, i);
    if k < k2 {
        assert(fields[k].0 != fields[k2].0);
    } else if k2 < k {
        assert(fields[k2].0 != fields[k].0);
    }
    assert(tensors[i].0@ != "__metadata__"@);
    i
}

/// The front of a built file: its length field and its header.
proof fn lemma_front_reads_back(out: Seq<u8>, json: Seq<u8>, rest: Seq<u8>)
    requires
        0 < json.len() <= usize::MAX,
        out == le_bytes(json.len(), 8) + json + rest,
    ensures
        out.len() == 8 + json.len() + rest.len(),
        le_value(out, 0, 8) == json.len(),
        out.subrange(8, 8 + json.len() as int) == json,
        out.skip(8 + json.len() as int) == rest,
{
    lemma_le_len(json.len(), 8);
    assert(out.subrange(0, 8) =~= le_bytes(json.len(), 8));
    assert(json.len() < byte_power(8)) by {
        reveal_with_fuel(byte_power, 9);
    }
    le_reads_back(json.len(), 8, out, 0);
    assert(out.subrange(8, 8 + json.len() as int) =~= json);
    assert(out.skip(8 + json.len() as int) =~= rest);
}

/// A table has as many fields as there are tensors.
proof fn lemma_table_size(fields: Seq<(Seq<char>, Tree)>, records: Seq<Record>, tensors: Seq<(String, RawTensor)>)
    requires
        is_table_of(fields, records, tensors),
    ensures
        fields.len() == tensors.len(),
{
    let n = tensors.len();
    assert(crate::json::distinct_names(fields) && plain_names(tensors)) by {
        reveal(is_table_of);
    }
    assert forall|k: int| 0 <= k < fields.len() implies #[trigger] has_tensor(fields, tensors, k) by {
        let i = lemma_field_has_tensor(fields, records, tensors, k);
        assert(fields[k].0 == tensors[i].0@);
    }
    assert forall|i: int| 0 <= i < n implies #[trigger] has_field(fields, tensors, i) by {
        let k = lemma_tensor_has_field(fields, records, tensors, i);
        assert(fields[k].0 == tensors[i].0@);
    }
    lemma_same_count(fields, tensors);
}

proof fn lemma_built_file_reads_back(
    out: Seq<u8>,
    json: Seq<u8>,
    records: Seq<Record>,
    tensors: Seq<(String, RawTensor)>,
)
    requires
        0 < json.len() <= usize::MAX,
        out == le_bytes(json.len(), 8) + json + payloads(tensors, tensors.len()),
        crate::json::parsed_fields(json) is Ok,
        is_table_of(crate::json::parsed_fields(json)->Ok_0, records, tensors),
    ensures
        holds_tensors(out, tensors),
{
    let fields = crate::json::parsed_fields(json)->Ok_0;
    let n = tensors.len();
    let all = payloads(tensors, n);
    assert(crate::json::distinct_names(fields) && all.len() <= usize::MAX) by {
        reveal(is_table_of);
    }
    lemma_front_reads_back(out, json, all);
    assert forall|k: int| 0 <= k < fields.len() implies (#[trigger] fields[k]).0 != "__metadata__"@ && meta_of(fields[k].1)
        is Some by {
        let i = lemma_field_has_tensor(fields, records, tensors, k);
    }
    lemma_fields_become_entries(fields, fields.len());
    let entries = entries_of(fields, fields.len())->Ok_0;
    lemma_table_size(fields, records, tensors);
    assert forall|a: int, b: int| 0 <= a < b < entries.len() implies (#[trigger] entries[a]).0
        != (#[trigger] entries[b]).0 by {
        assert(fields[a].0 != fields[b].0);
    }
    assert forall|k: int| 0 <= k < entries.len() implies is_tensor_name(tensors, (#[trigger] entries[k]).0) by {
        let i = lemma_field_has_tensor(fields, records, tensors, k);
        assert(tensors[i].0@ == entries[k].0);
    }
    assert forall|i: int| #![trigger tensors[i]] 0 <= i < n implies meta_named(entries, tensors[i].0@) == Some(
        placed(tensors, i),
    ) && offsets_fit(out, 8 + json.len(), placed(tensors, i)) && payload(out, 8 + json.len(), placed(tensors, i))
        == tensors[i].1.bytes@ by {
        let k = lemma_tensor_has_field(fields, records, tensors, i);
        assert(entries[k].0 == fields[k].0);
        lemma_meta_named(entries, tensors[i].0@, k);
        lemma_payload_place(tensors, i as nat, n);
        let m = placed(tensors, i);
        assert(payload(out, 8 + json.len(), m) =~= all.subrange(m.start as int, m.end as int));
    }
}

} // verus!
