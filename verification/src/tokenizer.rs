//! Tokenizer loaded from a HuggingFace `tokenizer.json`.
//!
//! Gemma ships a SentencePiece model exported to the HF format. Two model types
//! show up in practice, "Unigram" (best path) and "BPE" (merge rank); both are
//! supported, with the metaspace convention (spaces become ▁), byte fallback
//! and explicit added tokens.
use vstd::hash_map::StringHashMap;
use vstd::prelude::*;

use crate::float::F64;
use crate::text::{chars_of, digit_char, is_at, text_between};

pub mod bpe;
pub mod choices;
pub mod load;
pub mod roundtrip;
pub mod stream;
pub mod unigram;

pub use self::stream::{Decoder, DecoderState};


verus! {

/// The character that stands for a space inside pieces.
pub const METASPACE: char = '\u{2581}';

#[derive(Clone, Copy, Debug, PartialEq, Eq, Structural)]
pub enum ModelType {
    Unigram,
    Bpe,
}

/// Token ids that a model's configuration fixes.
#[derive(Clone, Copy, Debug)]
pub struct TokenizerConfig {
    pub bos_token_id: Option<u32>,
    pub eos_token_ids: Option<&'static [u32]>,
}

/// Merge ranks by the two symbols merged.
pub struct Merges {
    /// First symbol -> its place in `tails`.
    pub heads: StringHashMap<usize>,
    /// Second symbol -> rank.
    pub tails: Vec<StringHashMap<usize>>,
}

pub struct Tokenizer {
    pub model_type: ModelType,
    pub id_to_piece: Vec<Option<String>>,
    pub piece_to_id: StringHashMap<u32>,
    /// Score by id; only Unigram models have scores.
    pub scores: Vec<F64>,
    /// Only BPE models have merges.
    pub merges: Merges,
    pub unk_id: u32,
    pub byte_fallback: bool,
    /// Special and added tokens: content -> id.
    pub specials: StringHashMap<u32>,
    /// The same contents, longest first.
    pub specials_by_len: Vec<Vec<char>>,
    pub bos_id: Option<u32>,
    pub eos_ids: Vec<u32>,
    /// No piece is longer than this many characters.
    pub max_piece_chars: usize,
}

/// Everything a tokenizer knows, as mathematics.
pub struct Lexicon {
    pub kind: ModelType,
    /// Piece by id.
    pub pieces: Seq<Option<Seq<char>>>,
    /// Id by piece.
    pub ids: Map<Seq<char>, u32>,
    /// Score by id.
    pub scores: Seq<F64>,
    /// Rank of a merge; the lowest goes first.
    pub merges: Map<(Seq<char>, Seq<char>), nat>,
    pub unk_id: u32,
    pub byte_fallback: bool,
    /// Id of a special token by its content.
    pub specials: Map<Seq<char>, u32>,
    pub bos: Option<u32>,
    pub eos: Seq<u32>,
}

// --- byte tokens -----------------------------------------------------------------------

/// Value of a hexadecimal digit.
pub open spec fn hex_value(c: char) -> Option<nat> {
    let u = c as u32;
    if 0x30 <= u <= 0x39 {
        Some((u - 0x30) as nat)
    } else if 0x41 <= u <= 0x46 {
        Some((u - 0x37) as nat)
    } else if 0x61 <= u <= 0x66 {
        Some((u - 0x57) as nat)
    } else {
        None
    }
}

/// The byte that a piece of the form `<0xNN>` stands for. A plus sign may take
/// the place of the first digit.
pub open spec fn byte_of_piece(p: Seq<char>) -> Option<u8> {
    if p.len() == 6 && p[0] == '<' && p[1] == '0' && p[2] == 'x' && p[5] == '>' {
        match hex_value(p[4]) {
            Some(low) => if p[3] == '+' {
                Some(low as u8)
            } else {
                match hex_value(p[3]) {
                    Some(high) => Some((16 * high + low) as u8),
                    None => None,
                }
            },
            None => None,
        }
    } else {
        None
    }
}

fn hex_digit(c: char) -> (r: Option<u8>)
    ensures
        r is Some <==> hex_value(c) is Some,
        r matches Some(d) ==> d < 16 && d == hex_value(c)->0,
{
    let u: u32 = c as u32;
    if 0x30 <= u && u <= 0x39 {
        Some((u - 0x30) as u8)
    } else if 0x41 <= u && u <= 0x46 {
        Some((u - 0x37) as u8)
    } else if 0x61 <= u && u <= 0x66 {
        Some((u - 0x57) as u8)
    } else {
        None
    }
}

/// The byte behind a `<0xNN>` token.
pub fn parse_byte_token(piece: &str) -> (r: Option<u8>)
    ensures
        r == byte_of_piece(piece@),
{
    let cs = chars_of(piece);
    if cs.len() != 6 || cs[0] != '<' || cs[1] != '0' || cs[2] != 'x' || cs[5] != '>' {
        return None;
    }
    match hex_digit(cs[4]) {
        Some(low) => {
            if cs[3] == '+' {
                return Some(low);
            }
            match hex_digit(cs[3]) {
                Some(high) => Some(16 * high + low),
                None => None,
            }
        },
        None => None,
    }
}

/// The piece `<0xNN>` for a byte.
pub open spec fn byte_piece(b: u8) -> Seq<char> {
    seq![
        '<',
        '0',
        'x',
        crate::text::digit((b / 16) as nat),
        crate::text::digit((b % 16) as nat),
        '>',
    ]
}

fn byte_token(b: u8) -> (r: String)
    ensures
        r@ == byte_piece(b),
{
    let mut s = String::new();
    s.push('<');
    s.push('0');
    s.push('x');
    s.push(digit_char((b / 16) as u64));
    s.push(digit_char((b % 16) as u64));
    s.push('>');
    proof {
        assert(s@ =~= byte_piece(b));
    }
    s
}

/// Reading a byte token gives the byte that was written.
pub proof fn byte_token_reads_back(b: u8)
    ensures
        byte_of_piece(byte_piece(b)) == Some(b),
{
    let (h, l) = ((b / 16) as nat, (b % 16) as nat);
    assert(hex_value(crate::text::digit(h)) == Some(h));
    assert(hex_value(crate::text::digit(l)) == Some(l));
}

// --- merges -----------------------------------------------------------------------------

impl Merges {
    pub open spec fn wf(self) -> bool {
        &&& forall|a: Seq<char>| #[trigger] self.heads@.contains_key(a) ==> self.heads@[a] < self.tails@.len()
        &&& forall|a: Seq<char>, b: Seq<char>|
            #![trigger self.heads@[a], self.heads@[b]]
            self.heads@.contains_key(a) && self.heads@.contains_key(b) && self.heads@[a] == self.heads@[b] ==> a == b
    }

    pub open spec fn has(self, a: Seq<char>, b: Seq<char>) -> bool {
        self.heads@.contains_key(a) && self.tails@[self.heads@[a] as int]@.contains_key(b)
    }

    pub open spec fn ranks(self) -> Map<(Seq<char>, Seq<char>), nat> {
        Map::new(
            |p: (Seq<char>, Seq<char>)| self.has(p.0, p.1),
            |p: (Seq<char>, Seq<char>)| self.tails@[self.heads@[p.0] as int]@[p.1] as nat,
        )
    }
}

// --- the tokenizer ------------------------------------------------------------------------

/// Whether a text is among those listed.
pub open spec fn is_listed(list: Seq<Vec<char>>, k: Seq<char>) -> bool {
    exists|i: int| 0 <= i < list.len() && (#[trigger] list[i])@ == k
}

/// Text of a stored piece.
pub open spec fn piece_text(p: Option<String>) -> Option<Seq<char>> {
    match p {
        Some(s) => Some(s@),
        None => None,
    }
}

impl Tokenizer {
    /// What the tokenizer knows.
    pub open spec fn lexicon(self) -> Lexicon {
        Lexicon {
            kind: self.model_type,
            pieces: self.id_to_piece@.map_values(|p: Option<String>| piece_text(p)),
            ids: self.piece_to_id@,
            scores: self.scores@,
            merges: self.merges.ranks(),
            unk_id: self.unk_id,
            byte_fallback: self.byte_fallback,
            specials: self.specials@,
            bos: self.bos_id,
            eos: self.eos_ids@,
        }
    }

    /// The indexes agree with the tables.
    pub open spec fn wf(self) -> bool {
        &&& self.merges.wf()
        &&& self.max_piece_chars >= 1
        &&& forall|k: Seq<char>| #[trigger] self.piece_to_id@.contains_key(k) ==> k.len() <= self.max_piece_chars
        &&& forall|k: Seq<char>| #[trigger] self.specials@.contains_key(k) <==> is_listed(self.specials_by_len@, k)
        &&& forall|i: int, j: int|
            #![trigger self.specials_by_len@[i], self.specials_by_len@[j]]
            0 <= i <= j < self.specials_by_len@.len() ==> self.specials_by_len@[i]@.len()
                >= self.specials_by_len@[j]@.len()
    }

    pub fn vocab_len(&self) -> (r: usize)
        ensures
            r == self.lexicon().pieces.len(),
    {
        self.id_to_piece.len()
    }

    pub fn piece(&self, id: u32) -> (r: Option<&str>)
        ensures
            r is Some <==> self.lexicon().piece(id) is Some,
            r matches Some(s) ==> s@ == self.lexicon().piece(id)->0,
    {
        let i: usize = id as usize;
        if i < self.id_to_piece.len() {
            match &self.id_to_piece[i] {
                Some(s) => Some(s.as_str()),
                None => None,
            }
        } else {
            None
        }
    }

    pub fn is_eos(&self, id: u32) -> (r: bool)
        ensures
            r == self.lexicon().eos.contains(id),
    {
        let mut i: usize = 0;
        while i < self.eos_ids.len()
            invariant
                i <= self.eos_ids@.len(),
                forall|k: int| 0 <= k < i ==> self.eos_ids@[k] != id,
            decreases self.eos_ids@.len() - i,
        {
            if self.eos_ids[i] == id {
                return true;
            }
            i = i + 1;
        }
        false
    }

    /// Metaspace pre-tokenizer: a leading ▁, and ▁ for every space.
    pub fn normalize(&self, text: &str) -> (r: String)
        ensures
            r@ == normalized(text@),
    {
        let mut s = String::new();
        s.push(METASPACE);
        for ch in it: text.chars()
            invariant
                it.seq() == text@,
                s@ == normalized(text@.take(it.index())),
        {
            proof {
                assert(text@.take(it.index() + 1) =~= text@.take(it.index()).push(text@[it.index()]));
                assert(normalized(text@.take(it.index() + 1)) =~= normalized(text@.take(it.index())).push(
                    metaspaced(ch),
                ));
            }
            s.push(
                if ch == ' ' {
                    METASPACE
                } else {
                    ch
                },
            );
        }
        proof {
            assert(text@.take(text@.len() as int) =~= text@);
        }
        s
    }
}

/// A space becomes ▁.
pub open spec fn metaspaced(c: char) -> char {
    if c == ' ' {
        METASPACE
    } else {
        c
    }
}

pub open spec fn normalized(text: Seq<char>) -> Seq<char> {
    seq![METASPACE] + text.map_values(|c: char| metaspaced(c))
}

impl Lexicon {
    pub open spec fn piece(self, id: u32) -> Option<Seq<char>> {
        if id < self.pieces.len() {
            self.pieces[id as int]
        } else {
            None
        }
    }

    /// Ids of the byte tokens for `bytes`; a byte without a token has none.
    pub open spec fn byte_ids(self, bytes: Seq<u8>) -> Seq<u32>
        decreases bytes.len(),
    {
        if bytes.len() == 0 {
            Seq::empty()
        } else {
            let before = self.byte_ids(bytes.drop_last());
            let p = byte_piece(bytes.last());
            if self.ids.contains_key(p) {
                before.push(self.ids[p])
            } else {
                before
            }
        }
    }

    /// Whether every byte has a token.
    pub open spec fn has_bytes(self, bytes: Seq<u8>) -> bool {
        forall|i: int| 0 <= i < bytes.len() ==> self.ids.contains_key(byte_piece(#[trigger] bytes[i]))
    }

    /// Whether a piece can be written down: as itself, or byte by byte.
    pub open spec fn can_emit(self, piece: Seq<char>) -> bool {
        self.ids.contains_key(piece) || (self.byte_fallback && self.has_bytes(vstd::utf8::encode_utf8(piece)))
    }

    /// Ids for one piece: its own, or those of its bytes.
    pub open spec fn emitted(self, piece: Seq<char>) -> Seq<u32> {
        if self.ids.contains_key(piece) {
            seq![self.ids[piece]]
        } else if self.byte_fallback {
            self.byte_ids(vstd::utf8::encode_utf8(piece))
        } else {
            Seq::empty()
        }
    }

    /// The same, followed by the unknown token where the piece could not be
    /// written down.
    pub open spec fn emitted_or_unk(self, piece: Seq<char>) -> Seq<u32> {
        if self.can_emit(piece) {
            self.emitted(piece)
        } else {
            self.emitted(piece).push(self.unk_id)
        }
    }
}

impl Tokenizer {
    /// Append the ids of one piece; false where it cannot be written down.
    pub fn emit_piece(&self, piece: &str, ids: &mut Vec<u32>) -> (ok: bool)
        ensures
            ok == self.lexicon().can_emit(piece@),
            final(ids)@ == old(ids)@ + self.lexicon().emitted(piece@),
    {
        let ghost lex = self.lexicon();
        let ghost before = ids@;
        if let Some(id) = self.piece_to_id.get(piece) {
            ids.push(*id);
            proof {
                assert(ids@ =~= before + lex.emitted(piece@));
            }
            return true;
        }
        if self.byte_fallback {
            let mut ok = true;
            let bytes = piece.as_bytes();
            let mut i: usize = 0;
            proof {
                assert(bytes@.take(0) =~= Seq::empty());
                assert(ids@ =~= before + lex.byte_ids(bytes@.take(0)));
            }
            while i < bytes.len()
                invariant
                    lex == self.lexicon(),
                    i <= bytes@.len(),
                    ids@ == before + lex.byte_ids(bytes@.take(i as int)),
                    ok == lex.has_bytes(bytes@.take(i as int)),
                decreases bytes@.len() - i,
            {
                let ghost done = bytes@.take(i as int);
                let tok = byte_token(bytes[i]);
                proof {
                    let next = bytes@.take(i + 1);
                    assert(next.drop_last() =~= done);
                    assert(next.last() == bytes@[i as int]);
                    assert(forall|k: int| 0 <= k < i ==> done[k] == #[trigger] next[k]);
                    if lex.has_bytes(next) {
                        assert forall|k: int| 0 <= k < done.len() implies lex.ids.contains_key(
                            byte_piece(#[trigger] done[k]),
                        ) by {
                            assert(next[k] == done[k]);
                        }
                        assert(lex.ids.contains_key(byte_piece(next[i as int])));
                    }
                }
                match self.piece_to_id.get(tok.as_str()) {
                    Some(bid) => {
                        let ghost was = ids@;
                        ids.push(*bid);
                        proof {
                            assert(ids@ =~= before + lex.byte_ids(bytes@.take(i + 1)));
                        }
                    },
                    None => {
                        ok = false;
                    },
                }
                i = i + 1;
            }
            proof {
                assert(bytes@.take(i as int) =~= bytes@);
            }
            return ok;
        }
        proof {
            assert(ids@ =~= before + lex.emitted(piece@));
        }
        false
    }

    /// Append the ids of one piece, or what there is of them and the unknown
    /// token.
    fn emit_or_unk(&self, piece: &str, ids: &mut Vec<u32>)
        ensures
            final(ids)@ == old(ids)@ + self.lexicon().emitted_or_unk(piece@),
    {
        let ghost before = ids@;
        if !self.emit_piece(piece, ids) {
            ids.push(self.unk_id);
            proof {
                assert(ids@ =~= before + self.lexicon().emitted_or_unk(piece@));
            }
        }
    }
}

// --- special tokens --------------------------------------------------------------------------

/// The content of a special token that stands at `at`, the longest such.
pub open spec fn is_special_at(specials: Map<Seq<char>, u32>, text: Seq<char>, at: int, k: Seq<char>) -> bool {
    &&& specials.contains_key(k)
    &&& crate::text::stands_at(text, at, k)
    &&& forall|o: Seq<char>| #[trigger]
        specials.contains_key(o) && crate::text::stands_at(text, at, o) ==> o.len() <= k.len()
}

/// That content.
pub open spec fn special_content(specials: Map<Seq<char>, u32>, text: Seq<char>, at: int) -> Seq<char> {
    choose|k: Seq<char>| is_special_at(specials, text, at, k)
}

impl Lexicon {
    /// Ids of a stretch of text without special tokens.
    pub open spec fn text_ids(self, text: Seq<char>) -> Seq<u32> {
        let norm = normalized(text);
        match self.kind {
            ModelType::Unigram => self.segmented(norm, norm.len()),
            ModelType::Bpe => self.merged_ids(norm),
        }
    }

    /// Ids of `text` from `at` on, where the ordinary text since `start` is
    /// still unwritten. The leftmost special token is taken first, and at one
    /// place the longest.
    pub open spec fn ids_from(self, text: Seq<char>, start: int, at: int) -> Seq<u32>
        decreases text.len() - at,
    {
        if at >= text.len() {
            if start < text.len() {
                self.text_ids(text.skip(start))
            } else {
                Seq::empty()
            }
        } else if exists|k: Seq<char>| is_special_at(self.specials, text, at, k) {
            let k = special_content(self.specials, text, at);
            let before = if start < at {
                self.text_ids(text.subrange(start, at))
            } else {
                Seq::empty()
            };
            if k.len() > 0 {
                before.push(self.specials[k]) + self.ids_from(text, at + k.len(), at + k.len())
            } else {
                before
            }
        } else {
            self.ids_from(text, start, at + 1)
        }
    }

    /// Ids of a text. Without special tokens the text is one stretch, even
    /// where it is empty.
    pub open spec fn encoded(self, text: Seq<char>, bos: bool) -> Seq<u32> {
        let head = if bos && self.bos is Some {
            seq![self.bos->0]
        } else {
            Seq::empty()
        };
        head + if self.specials.dom() =~= Set::empty() {
            self.text_ids(text)
        } else {
            self.ids_from(text, 0, 0)
        }
    }
}

impl Tokenizer {
    /// The special token at `at`, if any.
    fn special_at(&self, cs: &[char], at: usize) -> (r: Option<(u32, usize)>)
        requires
            self.wf(),
            at < cs@.len(),
        ensures
            r is Some <==> exists|k: Seq<char>| is_special_at(self.specials@, cs@, at as int, k),
            r matches Some((id, len)) ==> ({
                let k = special_content(self.specials@, cs@, at as int);
                is_special_at(self.specials@, cs@, at as int, k) && id == self.specials@[k] && len == k.len()
            }),
    {
        let mut i: usize = 0;
        while i < self.specials_by_len.len()
            invariant
                self.wf(),
                at < cs@.len(),
                i <= self.specials_by_len@.len(),
                forall|j: int|
                    0 <= j < i ==> !crate::text::stands_at(
                        cs@,
                        at as int,
                        (#[trigger] self.specials_by_len@[j])@,
                    ),
            decreases self.specials_by_len@.len() - i,
        {
            let sp = &self.specials_by_len[i];
            if is_at(cs, at, sp.as_slice()) {
                let content = text_between(sp.as_slice(), 0, sp.len());
                proof {
                    assert(sp@.subrange(0, sp@.len() as int) =~= sp@);
                    assert(self.specials@.contains_key(sp@));
                    assert forall|o: Seq<char>| #[trigger]
                        self.specials@.contains_key(o) && crate::text::stands_at(cs@, at as int, o) implies o.len()
                        <= sp@.len() by {
                        let j = choose|j: int|
                            0 <= j < self.specials_by_len@.len() && (#[trigger] self.specials_by_len@[j])@ == o;
                        assert(i <= j);
                        assert(self.specials_by_len@[i as int]@.len() >= self.specials_by_len@[j]@.len());
                    }
                    assert(is_special_at(self.specials@, cs@, at as int, sp@));
                    let k = special_content(self.specials@, cs@, at as int);
                    assert(is_special_at(self.specials@, cs@, at as int, k));
                    assert(k.len() == sp@.len());
                    assert(k == sp@);
                }
                match self.specials.get(content.as_str()) {
                    Some(id) => {
                        return Some((*id, sp.len()));
                    },
                    None => {},
                }
            }
            i = i + 1;
        }
        proof {
            assert forall|k: Seq<char>| !is_special_at(self.specials@, cs@, at as int, k) by {
                if is_special_at(self.specials@, cs@, at as int, k) {
                    let j = choose|j: int|
                        0 <= j < self.specials_by_len@.len() && (#[trigger] self.specials_by_len@[j])@ == k;
                    assert(!crate::text::stands_at(cs@, at as int, self.specials_by_len@[j]@));
                }
            }
        }
        None
    }

    /// Ids of one stretch of ordinary text.
    fn encode_text(&self, text: &str, ids: &mut Vec<u32>)
        requires
            self.wf(),
        ensures
            final(ids)@ == old(ids)@ + self.lexicon().text_ids(text@),
    {
        let norm = self.normalize(text);
        match self.model_type {
            ModelType::Unigram => self.encode_unigram(norm.as_str(), ids),
            ModelType::Bpe => self.encode_bpe(norm.as_str(), ids),
        }
    }

    /// Ids of a text, with the begin token in front where `bos` asks for it.
    pub fn encode(&self, text: &str, bos: bool) -> (ids: Vec<u32>)
        requires
            self.wf(),
            !self.specials@.contains_key(Seq::empty()),
        ensures
            ids@ == self.lexicon().encoded(text@, bos),
    {
        let ghost lex = self.lexicon();
        let mut ids: Vec<u32> = Vec::new();
        if bos {
            if let Some(b) = self.bos_id {
                ids.push(b);
            }
        }
        let ghost head = ids@;
        proof {
            assert(head =~= if bos && lex.bos is Some {
                seq![lex.bos->0]
            } else {
                Seq::empty()
            });
        }
        if self.specials_by_len.len() == 0 {
            proof {
                assert(self.specials@.dom() =~= Set::empty());
            }
            self.encode_text(text, &mut ids);
            return ids;
        }
        proof {
            assert(self.specials@.contains_key(self.specials_by_len@[0]@));
            assert(self.specials@.dom().contains(self.specials_by_len@[0]@));
            assert(!(self.specials@.dom() =~= Set::empty()));
        }
        let cs = chars_of(text);
        let n: usize = cs.len();
        let ghost goal = lex.ids_from(text@, 0, 0);
        let mut start: usize = 0;
        let mut i: usize = 0;
        proof {
            assert(head + goal =~= ids@ + lex.ids_from(text@, 0, 0));
        }
        while i < n
            invariant
                self.wf(),
                !self.specials@.contains_key(Seq::empty()),
                lex == self.lexicon(),
                cs@ == text@,
                n == cs@.len(),
                start <= i <= n,
                head + goal == ids@ + lex.ids_from(text@, start as int, i as int),
            decreases n - i,
        {
            let ghost was = ids@;
            let ghost tail = lex.ids_from(text@, start as int, i as int);
            if let Some((id, len)) = self.special_at(cs.as_slice(), i) {
                let ghost k = special_content(self.specials@, cs@, i as int);
                proof {
                    if len == 0 {
                        assert(k =~= Seq::empty());
                    }
                }
                if start < i {
                    let t = text_between(cs.as_slice(), start, i);
                    self.encode_text(t.as_str(), &mut ids);
                }
                ids.push(id);
                proof {
                    let before = if start < i {
                        lex.text_ids(text@.subrange(start as int, i as int))
                    } else {
                        Seq::empty()
                    };
                    assert(ids@ =~= was + before.push(id));
                    assert(is_special_at(lex.specials, text@, i as int, k));
                    assert(k == special_content(lex.specials, text@, i as int));
                    assert(k.len() > 0);
                    assert(lex.specials[k] == id);
                    assert(k.len() == len);
                    assert(tail == before.push(id) + lex.ids_from(text@, i + len, i + len));
                    assert(was + tail =~= ids@ + lex.ids_from(text@, i + len, i + len));
                }
                i = i + len;
                start = i;
            } else {
                i = i + 1;
            }
        }
        if start < n {
            let t = text_between(cs.as_slice(), start, n);
            proof {
                assert(text@.skip(start as int) =~= text@.subrange(start as int, n as int));
            }
            self.encode_text(t.as_str(), &mut ids);
        }
        proof {
            if start >= n {
                assert(ids@ + Seq::<u32>::empty() =~= ids@);
            }
        }
        ids
    }
}

/// A text that is the content of a special token becomes that token's id, and
/// nothing else.
pub proof fn special_text_is_one_id(lex: Lexicon, k: Seq<char>)
    requires
        lex.specials.contains_key(k),
        k.len() > 0,
    ensures
        lex.encoded(k, false) == seq![lex.specials[k]],
{
    assert(k.subrange(0, k.len() as int) =~= k);
    assert(is_special_at(lex.specials, k, 0, k));
    let c = special_content(lex.specials, k, 0);
    assert(is_special_at(lex.specials, k, 0, c));
    assert(c == k);
    assert(lex.specials.dom().contains(k));
    assert(lex.ids_from(k, k.len() as int, k.len() as int) =~= Seq::empty());
    assert(lex.encoded(k, false) =~= seq![lex.specials[k]]);
}

/// A special token stands in what follows a text where it stands in the whole.
proof fn lemma_stands_behind(a: Seq<char>, b: Seq<char>, at: int, k: Seq<char>)
    requires
        0 <= at,
    ensures
        crate::text::stands_at(a + b, a.len() + at, k) == crate::text::stands_at(b, at, k),
{
    if at + k.len() <= b.len() {
        assert((a + b).subrange(a.len() + at, a.len() + at + k.len()) =~= b.subrange(at, at + k.len()));
    }
}

proof fn lemma_special_behind(
    specials: Map<Seq<char>, u32>,
    a: Seq<char>,
    b: Seq<char>,
    at: int,
    k: Seq<char>,
)
    requires
        0 <= at,
    ensures
        is_special_at(specials, a + b, a.len() + at, k) == is_special_at(specials, b, at, k),
{
    lemma_stands_behind(a, b, at, k);
    if is_special_at(specials, a + b, a.len() + at, k) {
        assert forall|o: Seq<char>|
            #[trigger] specials.contains_key(o) && crate::text::stands_at(b, at, o) implies o.len()
            <= k.len() by {
            lemma_stands_behind(a, b, at, o);
        }
    }
    if is_special_at(specials, b, at, k) {
        assert forall|o: Seq<char>|
            #[trigger] specials.contains_key(o) && crate::text::stands_at(
                a + b,
                a.len() + at,
                o,
            ) implies o.len() <= k.len() by {
            lemma_stands_behind(a, b, at, o);
        }
    }
}

/// Of two longest contents at one place there is one.
proof fn lemma_one_special(specials: Map<Seq<char>, u32>, text: Seq<char>, at: int, k: Seq<char>)
    requires
        is_special_at(specials, text, at, k),
    ensures
        special_content(specials, text, at) == k,
{
    let c = special_content(specials, text, at);
    assert(is_special_at(specials, text, at, c));
    assert(c.len() == k.len());
}

/// The ids of what follows do not depend on what went before.
proof fn lemma_ids_behind(lex: Lexicon, a: Seq<char>, b: Seq<char>, start: int, at: int)
    requires
        0 <= start <= at,
    ensures
        lex.ids_from(a + b, a.len() + start, a.len() + at) == lex.ids_from(b, start, at),
    decreases b.len() - at,
{
    let n = a.len() as int;
    let text = a + b;
    let p = n + at;
    if at >= b.len() {
        assert(start < b.len() ==> text.skip(n + start) =~= b.skip(start));
    } else {
        assert forall|k: Seq<char>| is_special_at(lex.specials, text, p, k) == is_special_at(lex.specials, b, at, k) by {
            lemma_special_behind(lex.specials, a, b, at, k);
        }
        if exists|k: Seq<char>| is_special_at(lex.specials, b, at, k) {
            let k = special_content(lex.specials, b, at);
            assert(is_special_at(lex.specials, b, at, k));
            assert(is_special_at(lex.specials, text, p, k));
            lemma_one_special(lex.specials, text, p, k);
            assert(start < at ==> text.subrange(n + start, n + at) =~= b.subrange(start, at));
            if k.len() > 0 {
                lemma_ids_behind(lex, a, b, at + k.len(), at + k.len());
            }
        } else {
            assert(!exists|k: Seq<char>| is_special_at(lex.specials, text, p, k)) by {
                if exists|k: Seq<char>| is_special_at(lex.specials, text, p, k) {
                    let k = choose|k: Seq<char>| is_special_at(lex.specials, text, p, k);
                    assert(is_special_at(lex.specials, b, at, k));
                }
            }
            lemma_ids_behind(lex, a, b, start, at + 1);
        }
    }
}

/// Up to the first special token a text is one stretch.
proof fn lemma_ids_before(lex: Lexicon, a: Seq<char>, rest: Seq<char>, k: Seq<char>, at: int)
    requires
        0 <= at <= a.len(),
        k.len() > 0,
        is_special_at(lex.specials, a + rest, a.len() as int, k),
        forall|i: int, o: Seq<char>| 0 <= i < a.len() ==> !#[trigger] is_special_at(lex.specials, a + rest, i, o),
    ensures
        lex.ids_from(a + rest, 0, at) == (if a.len() > 0 {
            lex.text_ids(a)
        } else {
            Seq::empty()
        }).push(lex.specials[k]) + lex.ids_from(a + rest, (a.len() + k.len()) as int, (a.len() + k.len()) as int),
    decreases a.len() - at,
{
    let text = a + rest;
    if at < a.len() {
        lemma_ids_before(lex, a, rest, k, at + 1);
    } else {
        lemma_one_special(lex.specials, text, at, k);
        assert(text.subrange(0, at) =~= a);
    }
}

/// Special tokens are never broken up: the first special token in a text
/// becomes one id, between the ids of what stands before it and the ids of what
/// stands behind it.
pub proof fn special_token_stays_whole(lex: Lexicon, a: Seq<char>, k: Seq<char>, b: Seq<char>)
    requires
        k.len() > 0,
        is_special_at(lex.specials, a + k + b, a.len() as int, k),
        forall|i: int, o: Seq<char>| 0 <= i < a.len() ==> !#[trigger] is_special_at(lex.specials, a + k + b, i, o),
    ensures
        lex.encoded(a + k + b, false) == (if a.len() > 0 {
            lex.text_ids(a)
        } else {
            Seq::empty()
        }).push(lex.specials[k]) + lex.encoded(b, false),
{
    let text = a + k + b;
    assert(a + (k + b) =~= text);
    assert(lex.specials.dom().contains(k));
    lemma_ids_before(lex, a, k + b, k, 0);
    assert((a + k).len() == a.len() + k.len());
    lemma_ids_behind(lex, a + k, b, 0, 0);
    let head = Seq::<u32>::empty();
    assert(head + lex.ids_from(text, 0, 0) =~= lex.ids_from(text, 0, 0));
    assert(head + lex.ids_from(b, 0, 0) =~= lex.ids_from(b, 0, 0));
}

} // verus!
