//! Memory of a GPU backend from pass to pass.
//!
//! Buffers are known by ids that are never used twice. Those taken during a
//! forward pass are given back at its end but for the ones to keep: activations
//! go to a pool from which later passes take them again, up to a limit; others
//! are destroyed. Uniform parameters are staged into segments that start anew
//! after each submission.
use vstd::prelude::*;

verus! {

// --- buffers -------------------------------------------------------------------------------------

/// A buffer of the pass under way.
#[derive(Clone, Copy, Debug, PartialEq, Eq, Structural)]
pub struct Taken {
    pub id: u64,
    pub bytes: u64,
    /// Whether it may go to the pool.
    pub pooled: bool,
}

/// A buffer in the pool.
#[derive(Clone, Copy, Debug, PartialEq, Eq, Structural)]
pub struct Free {
    pub id: u64,
    pub bytes: u64,
}

/// The most bytes that the pool keeps.
pub const POOL_MAX_BYTES: u64 = 0x800_0000;

/// Bytes of free buffers.
pub open spec fn bytes_of(free: Seq<Free>) -> nat
    decreases free.len(),
{
    if free.len() == 0 {
        0
    } else {
        bytes_of(free.drop_last()) + free.last().bytes as nat
    }
}

/// The last free buffer of a size.
pub open spec fn last_of_size(free: Seq<Free>, bytes: u64) -> Option<int>
    decreases free.len(),
{
    if free.len() == 0 {
        None
    } else if free.last().bytes == bytes {
        Some(free.len() - 1)
    } else {
        last_of_size(free.drop_last(), bytes)
    }
}

pub struct Frames {
    pub free: Vec<Free>,
    pub pooled_bytes: u64,
    /// Buffers of the pass under way, if there is one.
    pub frame: Option<Vec<Taken>>,
}

/// The pool and what is to be destroyed when a buffer is given back.
pub open spec fn given_back(free: Seq<Free>, gone: Seq<u64>, b: Taken) -> (Seq<Free>, Seq<u64>) {
    if b.pooled && bytes_of(free) + b.bytes <= POOL_MAX_BYTES {
        (free.push(Free { id: b.id, bytes: b.bytes }), gone)
    } else {
        (free, gone.push(b.id))
    }
}

/// The same for the first `n` buffers of a pass but for those to keep.
pub open spec fn ended(free: Seq<Free>, frame: Seq<Taken>, keep: Seq<u64>, n: nat) -> (Seq<Free>, Seq<u64>)
    decreases n,
{
    if n == 0 {
        (free, Seq::empty())
    } else {
        let (f, g) = ended(free, frame, keep, (n - 1) as nat);
        let b = frame[n - 1];
        if keep.contains(b.id) {
            (f, g)
        } else {
            given_back(f, g, b)
        }
    }
}

/// Ids that are not among those to keep.
pub open spec fn not_kept(ids: Seq<u64>, keep: Seq<u64>) -> Seq<u64>
    decreases ids.len(),
{
    if ids.len() == 0 {
        Seq::empty()
    } else {
        let before = not_kept(ids.drop_last(), keep);
        if keep.contains(ids.last()) {
            before
        } else {
            before.push(ids.last())
        }
    }
}

fn has_id(ids: &[u64], id: u64) -> (r: bool)
    ensures
        r == ids@.contains(id),
{
    let len: usize = ids.len();
    let mut i: usize = 0;
    while i < len
        invariant
            len == ids@.len(),
            i <= len,
            forall|k: int| 0 <= k < i ==> #[trigger] ids@[k] != id,
        decreases len - i,
    {
        if ids[i] == id {
            return true;
        }
        i = i + 1;
    }
    false
}

impl Frames {
    /// The count of pooled bytes is right and within the limit.
    pub open spec fn wf(self) -> bool {
        self.pooled_bytes == bytes_of(self.free@) && self.pooled_bytes <= POOL_MAX_BYTES
    }

    pub fn new() -> (r: Frames)
        ensures
            r.wf(),
            r.free@.len() == 0,
            r.frame is None,
    {
        Frames { free: Vec::new(), pooled_bytes: 0, frame: None }
    }

    /// Start a pass.
    pub fn begin(&mut self)
        requires
            old(self).wf(),
        ensures
            final(self).wf(),
            final(self).free == old(self).free,
            final(self).frame matches Some(f) && f@.len() == 0,
    {
        self.frame = Some(Vec::new());
    }

    /// A free buffer of a size, the one given back last.
    pub fn take(&mut self, bytes: u64) -> (r: Option<u64>)
        requires
            old(self).wf(),
        ensures
            final(self).wf(),
            final(self).frame == old(self).frame,
            match last_of_size(old(self).free@, bytes) {
                Some(i) => r == Some(old(self).free@[i].id) && final(self).free@ == old(self).free@.remove(i),
                None => r is None && final(self).free == old(self).free,
            },
    {
        let len: usize = self.free.len();
        let ghost free = self.free@;
        let mut n: usize = len;
        proof {
            assert(free.take(len as int) =~= free);
        }
        while n > 0
            invariant
                free == self.free@,
                self.wf(),
                self.frame == old(self).frame,
                self.free == old(self).free,
                n <= free.len(),
                last_of_size(free, bytes) == last_of_size(free.take(n as int), bytes),
            decreases n,
        {
            proof {
                assert(free.take(n as int).drop_last() =~= free.take(n - 1));
                assert(free.take(n as int).last() == free[n - 1]);
            }
            if self.free[n - 1].bytes == bytes {
                let b = self.free.remove(n - 1);
                proof {
                    lemma_bytes_without(free, n - 1);
                }
                self.pooled_bytes = self.pooled_bytes - bytes;
                return Some(b.id);
            }
            n = n - 1;
        }
        None
    }

    /// Note a buffer as taken by the pass under way, if there is one.
    pub fn track(&mut self, b: Taken)
        requires
            old(self).wf(),
        ensures
            final(self).wf(),
            final(self).free == old(self).free,
            match old(self).frame {
                Some(f) => final(self).frame matches Some(g) && g@ == f@.push(b),
                None => final(self).frame is None,
            },
    {
        let mut frame: Option<Vec<Taken>> = None;
        std::mem::swap(&mut frame, &mut self.frame);
        self.frame = match frame {
            Some(f) => {
                let mut f = f;
                f.push(b);
                Some(f)
            },
            None => None,
        };
    }

    /// End a pass: give back its buffers but for those to keep. What is
    /// returned is to be destroyed: what the pool does not take, and of
    /// `also_free` what is not to be kept.
    pub fn end(&mut self, keep: &[u64], also_free: &[u64]) -> (r: Vec<u64>)
        requires
            old(self).wf(),
        ensures
            final(self).wf(),
            final(self).frame is None,
            ({
                let frame = match old(self).frame {
                    Some(f) => f@,
                    None => Seq::empty(),
                };
                let (free, gone) = ended(old(self).free@, frame, keep@, frame.len());
                &&& final(self).free@ == free
                &&& r@ == gone + not_kept(also_free@, keep@)
            }),
    {
        let mut gone: Vec<u64> = Vec::new();
        let mut taken: Option<Vec<Taken>> = None;
        std::mem::swap(&mut taken, &mut self.frame);
        let frame: Vec<Taken> = match taken {
            Some(f) => f,
            None => Vec::new(),
        };
        let ghost start = self.free@;
        let len: usize = frame.len();
        let mut i: usize = 0;
        proof {
            assert(gone@ =~= Seq::empty());
        }
        while i < len
            invariant
                len == frame@.len(),
                i <= len,
                self.wf(),
                self.frame is None,
                (self.free@, gone@) == ended(start, frame@, keep@, i as nat),
            decreases len - i,
        {
            let b = frame[i];
            if !has_id(keep, b.id) {
                if b.pooled && b.bytes <= POOL_MAX_BYTES - self.pooled_bytes {
                    let ghost before = self.free@;
                    self.free.push(Free { id: b.id, bytes: b.bytes });
                    self.pooled_bytes = self.pooled_bytes + b.bytes;
                    proof {
                        assert(self.free@.drop_last() =~= before);
                    }
                } else {
                    gone.push(b.id);
                }
            }
            i = i + 1;
        }
        let ghost first = gone@;
        let more: usize = also_free.len();
        let mut j: usize = 0;
        proof {
            assert(also_free@.take(0) =~= Seq::empty());
            assert(gone@ =~= first + not_kept(also_free@.take(0), keep@));
        }
        while j < more
            invariant
                more == also_free@.len(),
                j <= more,
                gone@ == first + not_kept(also_free@.take(j as int), keep@),
            decreases more - j,
        {
            proof {
                assert(also_free@.take(j + 1).drop_last() =~= also_free@.take(j as int));
                assert(also_free@.take(j + 1).last() == also_free@[j as int]);
            }
            let id: u64 = also_free[j];
            let ghost was = gone@;
            if !has_id(keep, id) {
                gone.push(id);
            }
            j = j + 1;
            proof {
                assert(gone@ =~= first + not_kept(also_free@.take(j as int), keep@));
            }
        }
        proof {
            assert(also_free@.take(more as int) =~= also_free@);
        }
        gone
    }
}

proof fn lemma_bytes_without(free: Seq<Free>, i: int)
    requires
        0 <= i < free.len(),
    ensures
        bytes_of(free) == bytes_of(free.remove(i)) + free[i].bytes,
    decreases free.len(),
{
    let less = free.remove(i);
    if i == free.len() - 1 {
        assert(less =~= free.drop_last());
    } else {
        lemma_bytes_without(free.drop_last(), i);
        assert(less.drop_last() =~= free.drop_last().remove(i));
        assert(less.last() == free.last());
    }
}

/// What is kept is neither pooled anew nor destroyed.
pub proof fn kept_buffers_stay(free: Seq<Free>, frame: Seq<Taken>, keep: Seq<u64>, n: nat, id: u64)
    requires
        n <= frame.len(),
        keep.contains(id),
        forall|k: int| 0 <= k < free.len() ==> (#[trigger] free[k]).id != id,
    ensures
        forall|k: int| 0 <= k < ended(free, frame, keep, n).0.len() ==> (#[trigger] ended(free, frame, keep, n).0[k]).id != id,
        !ended(free, frame, keep, n).1.contains(id),
    decreases n,
{
    if n > 0 {
        kept_buffers_stay(free, frame, keep, (n - 1) as nat, id);
        let (f, g) = ended(free, frame, keep, (n - 1) as nat);
        let b = frame[n - 1];
        let all = g.push(b.id);
        if !keep.contains(b.id) {
            if all.contains(id) {
                let k = choose|k: int| 0 <= k < all.len() && all[k] == id;
                if k < g.len() {
                    assert(g[k] == id);
                }
                assert(b.id == id);
            }
        }
    }
}

/// Every buffer that is not kept is pooled or destroyed.
pub proof fn other_buffers_go(free: Seq<Free>, frame: Seq<Taken>, keep: Seq<u64>, n: nat, i: int)
    requires
        0 <= i < n <= frame.len(),
        !keep.contains(frame[i].id),
    ensures
        ended(free, frame, keep, n).0.contains(Free { id: frame[i].id, bytes: frame[i].bytes }) || ended(
            free,
            frame,
            keep,
            n,
        ).1.contains(frame[i].id),
    decreases n,
{
    let (f, g) = ended(free, frame, keep, (n - 1) as nat);
    let b = frame[n - 1];
    let mine = Free { id: frame[i].id, bytes: frame[i].bytes };
    if i < n - 1 {
        other_buffers_go(free, frame, keep, (n - 1) as nat, i);
        let more = f.push(Free { id: b.id, bytes: b.bytes });
        if f.contains(mine) {
            let k = choose|k: int| 0 <= k < f.len() && f[k] == mine;
            assert(more[k] == mine);
        }
        let all = g.push(b.id);
        if g.contains(frame[i].id) {
            let k = choose|k: int| 0 <= k < g.len() && g[k] == frame[i].id;
            assert(all[k] == frame[i].id);
        }
    } else {
        assert(f.push(mine)[f.len() as int] == mine);
        assert(g.push(b.id)[g.len() as int] == b.id);
    }
}

// --- uniform parameters --------------------------------------------------------------------------

/// What offsets into a segment are multiples of.
pub const UNIFORM_ALIGN: u64 = 256;

/// The smallest segment.
pub const RING_MIN_CAP: u64 = 0x4_0000;

/// Bytes of `words` words, in whole blocks of 16.
pub open spec fn struct_bytes(words: nat) -> nat {
    (words * 4 + 15) / 16 * 16
}

/// Room that a struct takes in a segment.
pub open spec fn slot_bytes(words: nat) -> nat {
    ((struct_bytes(words) + 255) / 256 * 256) as nat
}

#[derive(Clone, Copy, Debug, PartialEq, Eq, Structural)]
pub struct Segment {
    pub used: u64,
    pub cap: u64,
}

/// The first segment with room.
pub open spec fn first_with_room(segments: Seq<Segment>, need: nat, from: int) -> Option<int>
    decreases segments.len() - from,
{
    if from < 0 || from >= segments.len() {
        None
    } else if segments[from].used + need <= segments[from].cap {
        Some(from)
    } else {
        first_with_room(segments, need, from + 1)
    }
}

/// Where a struct was put.
#[derive(Clone, Copy, Debug, PartialEq, Eq, Structural)]
pub struct Slot {
    pub segment: usize,
    pub offset: u64,
    pub bytes: u64,
    /// Whether the segment is new.
    pub fresh: bool,
}

pub struct Ring {
    pub segments: Vec<Segment>,
}

/// The most words of a struct.
pub const MAX_WORDS: usize = 0x1000_0000;

impl Ring {
    /// Segments are used up to a multiple of the alignment, within their size.
    pub open spec fn wf(self) -> bool {
        forall|i: int|
            0 <= i < self.segments@.len() ==> (#[trigger] self.segments@[i]).used <= self.segments@[i].cap
                && self.segments@[i].used % UNIFORM_ALIGN == 0
    }

    pub fn new() -> (r: Ring)
        ensures
            r.wf(),
            r.segments@.len() == 0,
    {
        Ring { segments: Vec::new() }
    }

    /// Find room for a struct of `words` words, in the first segment that has
    /// it or in a new one.
    pub fn place(&mut self, words: usize) -> (r: Slot)
        requires
            old(self).wf(),
            words <= MAX_WORDS,
        ensures
            final(self).wf(),
            r.bytes == struct_bytes(words as nat),
            r.offset % UNIFORM_ALIGN == 0,
            ({
                let need = slot_bytes(words as nat);
                match first_with_room(old(self).segments@, need, 0) {
                    Some(i) => {
                        let s = old(self).segments@[i];
                        &&& r.segment == i
                        &&& !r.fresh
                        &&& r.offset == s.used
                        &&& final(self).segments@ == old(self).segments@.update(
                            i,
                            Segment { used: (s.used + need) as u64, cap: s.cap },
                        )
                    },
                    None => {
                        &&& r.segment == old(self).segments@.len()
                        &&& r.fresh
                        &&& r.offset == 0
                        &&& final(self).segments@ == old(self).segments@.push(
                            Segment {
                                used: need as u64,
                                cap: if need as u64 > RING_MIN_CAP {
                                    need as u64
                                } else {
                                    RING_MIN_CAP
                                },
                            },
                        )
                    },
                }
            }),
    {
        let bytes: u64 = (words as u64 * 4 + 15) / 16 * 16;
        let need: u64 = (bytes + 255) / 256 * 256;
        let len: usize = self.segments.len();
        let ghost segments = self.segments@;
        proof {
            assert(need == slot_bytes(words as nat));
        }
        let mut i: usize = 0;
        while i < len
            invariant
                segments == self.segments@,
                self.segments == old(self).segments,
                len == segments.len(),
                i <= len,
                self.wf(),
                need == slot_bytes(words as nat),
                need % 256 == 0,
                bytes == struct_bytes(words as nat),
                need <= 0x1_0000_0000,
                first_with_room(segments, need as nat, 0) == first_with_room(segments, need as nat, i as int),
            decreases len - i,
        {
            let s = self.segments[i];
            if need <= s.cap && s.used <= s.cap - need {
                self.segments.set(i, Segment { used: s.used + need, cap: s.cap });
                return Slot { segment: i, offset: s.used, bytes, fresh: false };
            }
            i = i + 1;
        }
        let cap: u64 = if need > RING_MIN_CAP {
            need
        } else {
            RING_MIN_CAP
        };
        self.segments.push(Segment { used: need, cap });
        Slot { segment: len, offset: 0, bytes, fresh: true }
    }

    /// Start all segments anew, after a submission.
    pub fn restart(&mut self)
        ensures
            final(self).wf(),
            final(self).segments@.len() == old(self).segments@.len(),
            forall|i: int|
                0 <= i < old(self).segments@.len() ==> #[trigger] final(self).segments@[i] == (Segment {
                    used: 0,
                    cap: old(self).segments@[i].cap,
                }),
    {
        let len: usize = self.segments.len();
        let mut i: usize = 0;
        while i < len
            invariant
                len == self.segments@.len(),
                len == old(self).segments@.len(),
                i <= len,
                forall|k: int|
                    0 <= k < i ==> #[trigger] self.segments@[k] == (Segment {
                        used: 0,
                        cap: old(self).segments@[k].cap,
                    }),
                forall|k: int| i <= k < len ==> #[trigger] self.segments@[k] == old(self).segments@[k],
            decreases len - i,
        {
            let cap: u64 = self.segments[i].cap;
            self.segments.set(i, Segment { used: 0, cap });
            i = i + 1;
        }
    }
}

/// Byte `k` of words, least significant first; zero beyond them.
pub open spec fn word_byte(words: Seq<u32>, k: int) -> u8 {
    if k / 4 < words.len() {
        crate::safetensors::le_bytes(words[k / 4] as nat, 4)[k % 4]
    } else {
        0
    }
}

/// The bytes of a struct of words.
pub fn uniform_bytes(words: &[u32]) -> (r: Vec<u8>)
    requires
        words@.len() <= MAX_WORDS,
    ensures
        r@ == Seq::new(struct_bytes(words@.len()), |k: int| word_byte(words@, k)),
{
    let len: usize = words.len();
    let total: usize = (len * 4 + 15) / 16 * 16;
    let ghost want = Seq::new(struct_bytes(words@.len()), |k: int| word_byte(words@, k));
    let mut out: Vec<u8> = Vec::new();
    let mut k: usize = 0;
    while k < total
        invariant
            len == words@.len(),
            total == struct_bytes(len as nat),
            want == Seq::new(struct_bytes(len as nat), |k: int| word_byte(words@, k)),
            k <= total,
            out@ == want.take(k as int),
        decreases total - k,
    {
        let b: u8 = if k / 4 < len {
            byte_of_word(words[k / 4], k % 4)
        } else {
            0
        };
        out.push(b);
        k = k + 1;
        proof {
            assert(out@ =~= want.take(k as int));
        }
    }
    proof {
        assert(want.take(total as int) =~= want);
    }
    out
}

pub(crate) fn byte_of_word(w: u32, i: usize) -> (r: u8)
    requires
        i < 4,
    ensures
        r == crate::safetensors::le_bytes(w as nat, 4)[i as int],
{
    proof {
        reveal_with_fuel(crate::safetensors::le_bytes, 5);
    }
    if i == 0 {
        (w % 256) as u8
    } else if i == 1 {
        (w / 256 % 256) as u8
    } else if i == 2 {
        (w / 256 / 256 % 256) as u8
    } else {
        (w / 256 / 256 / 256 % 256) as u8
    }
}

} // verus!
