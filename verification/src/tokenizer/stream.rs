//! Token by token back to text.
use vstd::prelude::*;
use vstd::string::*;
use vstd::utf8::*;

use super::Lexicon;
use super::Tokenizer;
use super::METASPACE;

verus! {

/// What stands for bytes that are no UTF-8.
pub const REPLACEMENT: char = '\u{FFFD}';

/// `char::from_u32` gives the character of a Unicode scalar value, and nothing
/// for any other number.
pub assume_specification[ char::from_u32 ](i: u32) -> (r: Option<char>)
    ensures
        r is Some <==> is_scalar(i),
        r matches Some(c) ==> c as u32 == i,
;

// --- UTF-8, as far as it has come ---------------------------------------------------------

/// Second bytes that may follow a given first byte of three or four.
pub open spec fn may_follow(b0: u8, b1: u8) -> bool {
    if b0 == 0xe0 {
        0xa0 <= b1 <= 0xbf
    } else if b0 == 0xed {
        0x80 <= b1 <= 0x9f
    } else if b0 == 0xf0 {
        0x90 <= b1 <= 0xbf
    } else if b0 == 0xf4 {
        0x80 <= b1 <= 0x8f
    } else {
        0x80 <= b1 <= 0xbf
    }
}

/// Bytes that are the start of a character, and not all of it.
pub open spec fn is_open(b: Seq<u8>) -> bool {
    ||| b.len() == 1 && 0xc2 <= b[0] <= 0xf4
    ||| b.len() == 2 && 0xe0 <= b[0] <= 0xf4 && may_follow(b[0], b[1])
    ||| b.len() == 3 && 0xf0 <= b[0] <= 0xf4 && may_follow(b[0], b[1]) && 0x80 <= b[2] <= 0xbf
}

/// How many bytes at the front of `b` one replacement character stands for:
/// as many as could still have become a character, and at least one.
pub open spec fn broken_len(b: Seq<u8>) -> int {
    if b.len() >= 3 && is_open(b.take(3)) {
        3
    } else if b.len() >= 2 && is_open(b.take(2)) {
        2
    } else {
        1
    }
}

/// What bytes read as, and those at the end that wait for more. With `flush`
/// nothing waits.
pub open spec fn drained(b: Seq<u8>, flush: bool) -> (Seq<char>, Seq<u8>)
    decreases b.len(),
{
    if b.len() == 0 {
        (Seq::empty(), Seq::empty())
    } else if valid_first_scalar(b) {
        let rest = drained(b.skip(length_of_first_scalar(b)), flush);
        (seq![decode_first_scalar(b) as char] + rest.0, rest.1)
    } else if is_open(b) {
        if flush {
            (seq![REPLACEMENT], Seq::empty())
        } else {
            (Seq::empty(), b)
        }
    } else {
        let rest = drained(b.skip(broken_len(b)), flush);
        (seq![REPLACEMENT] + rest.0, rest.1)
    }
}

/// Three-byte forms leave out surrogates and what fits two bytes.
proof fn lemma_second_of_three(b0: u8, b1: u8, b2: u8)
    requires
        is_leading_byte_width_3(b0),
        is_continuation_byte(b1),
        is_continuation_byte(b2),
        codepoint_width_3(b0, b1, b2) >= 0x800,
        not_surrogate(codepoint_width_3(b0, b1, b2)),
    ensures
        may_follow(b0, b1),
{
    assert((((b0 & 0x0F) as u32) << 12) | (((b1 & 0x3f) as u32) << 6) | ((b2 & 0x3f) as u32) >= 0x800 && b0 == 0xe0
        && 0x80 <= b1 && b1 <= 0xbf ==> 0xa0 <= b1) by (bit_vector);
    assert(!(0xD800 <= (((b0 & 0x0F) as u32) << 12) | (((b1 & 0x3f) as u32) << 6) | ((b2 & 0x3f) as u32) && ((((b0 & 0x0F)
        as u32) << 12) | (((b1 & 0x3f) as u32) << 6) | ((b2 & 0x3f) as u32)) <= 0xDFFF) && b0 == 0xed && 0x80 <= b1 && b1
        <= 0xbf ==> b1 <= 0x9f) by (bit_vector);
}

/// Four-byte forms start at 0x10000 and end at 0x10ffff.
proof fn lemma_second_of_four(b0: u8, b1: u8, b2: u8, b3: u8)
    requires
        is_leading_byte_width_4(b0),
        is_continuation_byte(b1),
        is_continuation_byte(b2),
        is_continuation_byte(b3),
        0x10000 <= codepoint_width_4(b0, b1, b2, b3) <= 0x10ffff,
    ensures
        b0 <= 0xf4,
        may_follow(b0, b1),
{
    assert(0x10000 <= ((((b0 & 0x07) as u32) << 18) | (((b1 & 0x3f) as u32) << 12) | (((b2 & 0x3f) as u32) << 6) | ((b3
        & 0x3f) as u32)) && b0 == 0xf0 && 0x80 <= b1 && b1 <= 0xbf ==> 0x90 <= b1) by (bit_vector);
    assert(((((b0 & 0x07) as u32) << 18) | (((b1 & 0x3f) as u32) << 12) | (((b2 & 0x3f) as u32) << 6) | ((b3 & 0x3f)
        as u32)) <= 0x10ffff && 0xf0 <= b0 && b0 <= 0xf7 && 0x80 <= b1 && b1 <= 0xbf ==> b0 <= 0xf4 && (b0 == 0xf4 ==> b1
        <= 0x8f)) by (bit_vector);
}

/// The start of a character is open.
proof fn lemma_start_is_open(b: Seq<u8>, n: int)
    requires
        valid_first_scalar(b),
        0 < n < length_of_first_scalar(b),
    ensures
        is_open(b.take(n)),
{
    let b0 = b[0];
    if is_leading_byte_width_2(b0) {
        let b1 = b[1];
        assert((((b0 & 0x1F) as u32) << 6) | ((b1 & 0x3f) as u32) >= 0x80 && 0xc0 <= b0 && b0 <= 0xdf ==> 0xc2 <= b0)
            by (bit_vector);
    } else if is_leading_byte_width_3(b0) {
        lemma_second_of_three(b0, b[1], b[2]);
    } else {
        lemma_second_of_four(b0, b[1], b[2], b[3]);
    }
}

/// Reading bytes in two goes gives what reading them in one gives: what waits
/// after the first part goes in front of the second.
pub proof fn draining_in_two_goes(a: Seq<u8>, b: Seq<u8>, flush: bool)
    ensures
        ({
            let first = drained(a, false);
            let second = drained(first.1 + b, flush);
            drained(a + b, flush) == (first.0 + second.0, second.1)
        }),
    decreases a.len(),
{
    let whole = a + b;
    let first = drained(a, false);
    if a.len() == 0 {
        assert(whole =~= b);
        assert(first.1 + b =~= b);
        assert(first.0 + drained(b, flush).0 =~= drained(b, flush).0);
    } else if valid_first_scalar(a) {
        let n = length_of_first_scalar(a);
        assert(whole[0] == a[0]);
        assert(n >= 2 ==> whole[1] == a[1]);
        assert(n >= 3 ==> whole[2] == a[2]);
        assert(n >= 4 ==> whole[3] == a[3]);
        assert(valid_first_scalar(whole) && length_of_first_scalar(whole) == n && decode_first_scalar(whole)
            == decode_first_scalar(a));
        assert(whole.skip(n) =~= a.skip(n) + b);
        draining_in_two_goes(a.skip(n), b, flush);
        let rest = drained(a.skip(n), false);
        let c = seq![decode_first_scalar(a) as char];
        let second = drained(rest.1 + b, flush);
        assert(c + (rest.0 + second.0) =~= (c + rest.0) + second.0);
    } else if is_open(a) {
        assert(first.0 + drained(whole, flush).0 =~= drained(whole, flush).0);
    } else {
        if valid_first_scalar(whole) {
            let n = length_of_first_scalar(whole);
            assert(whole[0] == a[0]);
            if n <= a.len() {
                assert(n >= 2 ==> whole[1] == a[1]);
                assert(n >= 3 ==> whole[2] == a[2]);
                assert(n >= 4 ==> whole[3] == a[3]);
                assert(valid_first_scalar(a));
            } else {
                lemma_start_is_open(whole, a.len() as int);
                assert(whole.take(a.len() as int) =~= a);
            }
        }
        assert forall|k: int| a.len() < k <= whole.len() && is_open(#[trigger] whole.take(k)) implies false by {
            assert(whole.take(k)[0] == a[0]);
            assert(a.len() >= 2 ==> whole.take(k)[1] == a[1]);
            assert(is_open(a));
        }
        assert(!is_open(whole)) by {
            assert(whole.take(whole.len() as int) =~= whole);
            if a.len() == whole.len() {
                assert(whole =~= a);
            }
        }
        let n = broken_len(a);
        assert(a.len() >= 3 ==> whole.take(3) =~= a.take(3));
        assert(a.len() >= 2 ==> whole.take(2) =~= a.take(2));
        assert(broken_len(whole) == n);
        assert(whole.skip(n) =~= a.skip(n) + b);
        draining_in_two_goes(a.skip(n), b, flush);
        let rest = drained(a.skip(n), false);
        let c = seq![REPLACEMENT];
        let second = drained(rest.1 + b, flush);
        assert(c + (rest.0 + second.0) =~= (c + rest.0) + second.0);
    }
}

/// The bytes of a text read as that text, and nothing waits.
pub proof fn bytes_of_text_read_back(s: Seq<char>, flush: bool)
    ensures
        drained(encode_utf8(s), flush) == (s, Seq::<u8>::empty()),
    decreases s.len(),
{
    let b = encode_utf8(s);
    if s.len() == 0 {
        assert(drained(b, flush).0 =~= s);
    } else {
        encode_utf8_first_scalar(s);
        char_u32_cast(s[0], decode_first_scalar(b));
        let n = length_of_first_scalar(b);
        assert(b.skip(n) =~= encode_utf8(s.drop_first()));
        bytes_of_text_read_back(s.drop_first(), flush);
        assert(seq![s[0]] + s.drop_first() =~= s);
    }
}

/// A text whose bytes come in two goes, cut anywhere, is read whole.
pub proof fn split_text_is_joined(s: Seq<char>, at: int)
    requires
        0 <= at <= encode_utf8(s).len(),
    ensures
        ({
            let b = encode_utf8(s);
            let first = drained(b.take(at), false);
            let second = drained(first.1 + b.skip(at), false);
            first.0 + second.0 == s && second.1.len() == 0
        }),
{
    let b = encode_utf8(s);
    bytes_of_text_read_back(s, false);
    draining_in_two_goes(b.take(at), b.skip(at), false);
    assert(b.take(at) + b.skip(at) =~= b);
}

/// What stands at the front of some bytes.
enum Front {
    /// A character and its length.
    Char(char, usize),
    /// The start of a character.
    Open,
    /// Bytes that are no character.
    Broken(usize),
}

/// Whether the three or four bytes can be a character's first two.
fn follows(b0: u8, b1: u8) -> (r: bool)
    ensures
        r == may_follow(b0, b1),
{
    if b0 == 0xe0 {
        0xa0 <= b1 && b1 <= 0xbf
    } else if b0 == 0xed {
        0x80 <= b1 && b1 <= 0x9f
    } else if b0 == 0xf0 {
        0x90 <= b1 && b1 <= 0xbf
    } else if b0 == 0xf4 {
        0x80 <= b1 && b1 <= 0x8f
    } else {
        0x80 <= b1 && b1 <= 0xbf
    }
}

fn continues(b: u8) -> (r: bool)
    ensures
        r == is_continuation_byte(b),
{
    0x80 <= b && b <= 0xbf
}

/// The codepoint that the first bytes spell, with its length, where their bit
/// patterns are those of UTF-8.
fn spelled(b: &[u8], at: usize) -> (r: Option<(u32, usize)>)
    requires
        at < b@.len(),
    ensures
        ({
            let s = b@.skip(at as int);
            &&& r is Some <==> valid_leading_and_continuation_bytes_first_codepoint(s)
            &&& r matches Some((c, n)) ==> c == decode_first_codepoint(s) && n == length_of_first_codepoint(s)
        }),
{
    let have: usize = b.len() - at;
    let ghost s = b@.skip(at as int);
    let b0: u8 = b[at];
    proof {
        assert(s.len() == have);
        assert(forall|k: int| 0 <= k < have ==> s[k] == b@[at + k]);
    }
    if b0 <= 0x7f {
        return Some(((b0 & 0x7F) as u32, 1));
    }
    if 0xc0 <= b0 && b0 <= 0xdf {
        if have >= 2 && continues(b[at + 1]) {
            let b1: u8 = b[at + 1];
            return Some(((((b0 & 0x1F) as u32) << 6) | ((b1 & 0x3f) as u32), 2));
        }
        return None;
    }
    if 0xe0 <= b0 && b0 <= 0xef {
        if have >= 3 && continues(b[at + 1]) && continues(b[at + 2]) {
            let b1: u8 = b[at + 1];
            let b2: u8 = b[at + 2];
            return Some(((((b0 & 0x0F) as u32) << 12) | (((b1 & 0x3f) as u32) << 6) | ((b2 & 0x3f) as u32), 3));
        }
        return None;
    }
    if 0xf0 <= b0 && b0 <= 0xf7 {
        if have >= 4 && continues(b[at + 1]) && continues(b[at + 2]) && continues(b[at + 3]) {
            let b1: u8 = b[at + 1];
            let b2: u8 = b[at + 2];
            let b3: u8 = b[at + 3];
            return Some(
                (
                    (((b0 & 0x07) as u32) << 18) | (((b1 & 0x3f) as u32) << 12) | (((b2 & 0x3f) as u32) << 6) | ((b3
                        & 0x3f) as u32),
                    4,
                ),
            );
        }
        return None;
    }
    None
}

/// Looks at the first bytes from `at` on.
fn front(b: &[u8], at: usize) -> (r: Front)
    requires
        at < b@.len(),
    ensures
        ({
            let s = b@.skip(at as int);
            match r {
                Front::Char(c, n) => valid_first_scalar(s) && c == decode_first_scalar(s) as char && n
                    == length_of_first_scalar(s),
                Front::Open => !valid_first_scalar(s) && is_open(s),
                Front::Broken(n) => !valid_first_scalar(s) && !is_open(s) && n == broken_len(s),
            }
        }),
{
    let ghost s = b@.skip(at as int);
    if let Some((u, n)) = spelled(b, at) {
        let whole = !(n == 2 && u < 0x80) && !(n == 3 && u < 0x800) && !(n == 4 && (u < 0x10000 || u > 0x10ffff)) && !(
        0xD800 <= u && u <= 0xDFFF);
        proof {
            assert(whole == valid_first_scalar(s));
            lemma_narrow_codepoint(s);
        }
        if whole {
            if let Some(c) = char::from_u32(u) {
                proof {
                    char_u32_cast(c, u);
                }
                return Front::Char(c, n);
            }
        }
    }
    let have: usize = b.len() - at;
    let b0: u8 = b[at];
    proof {
        assert(s.len() == have);
        assert(forall|k: int| 0 <= k < have ==> s[k] == b@[at + k]);
    }
    if have == 1 {
        if 0xc2 <= b0 && b0 <= 0xf4 {
            return Front::Open;
        }
        return Front::Broken(1);
    }
    let two = 0xe0 <= b0 && b0 <= 0xf4 && follows(b0, b[at + 1]);
    if have == 2 {
        if two {
            proof {
                assert(s.take(2) =~= s);
            }
            return Front::Open;
        }
        return Front::Broken(1);
    }
    let three = 0xf0 <= b0 && two && continues(b[at + 2]);
    proof {
        assert(s.take(2)[0] == s[0] && s.take(2)[1] == s[1]);
        assert(s.take(3)[0] == s[0] && s.take(3)[1] == s[1] && s.take(3)[2] == s[2]);
        assert(three == is_open(s.take(3)));
        assert(two == is_open(s.take(2)));
    }
    if have == 3 {
        if three {
            return Front::Open;
        }
        if two {
            return Front::Broken(2);
        }
        return Front::Broken(1);
    }
    if three {
        Front::Broken(3)
    } else if two {
        Front::Broken(2)
    } else {
        Front::Broken(1)
    }
}

/// One byte spells less than 0x80, two less than 0x800, three less than
/// 0x10000.
proof fn lemma_narrow_codepoint(s: Seq<u8>)
    requires
        valid_leading_and_continuation_bytes_first_codepoint(s),
    ensures
        valid_first_scalar(s) ==> is_scalar(decode_first_codepoint(s)),
{
    let b0 = s[0];
    if is_leading_byte_width_1(b0) {
        assert(((b0 & 0x7F) as u32) < 0x80) by (bit_vector);
    } else if is_leading_byte_width_2(b0) {
        let b1 = s[1];
        assert(((((b0 & 0x1F) as u32) << 6) | ((b1 & 0x3f) as u32)) < 0x800) by (bit_vector);
    } else if is_leading_byte_width_3(b0) {
        let (b1, b2) = (s[1], s[2]);
        assert(((((b0 & 0x0F) as u32) << 12) | (((b1 & 0x3f) as u32) << 6) | ((b2 & 0x3f) as u32)) < 0x10000)
            by (bit_vector);
    }
}

// --- the decoder ----------------------------------------------------------------------------

/// A decoder's state as mathematics.
pub struct Stream {
    pub skip_special: bool,
    pub text: Seq<char>,
    pub at_start: bool,
    pub pending: Seq<u8>,
}

/// ▁ becomes a space.
pub open spec fn spaced(c: char) -> char {
    if c == METASPACE {
        ' '
    } else {
        c
    }
}

impl Stream {
    /// What a chunk adds to the text: spaces in place of ▁, and at the very
    /// start no leading space.
    pub open spec fn shown(self, chunk: Seq<char>) -> Seq<char> {
        let c = chunk.map_values(|ch: char| spaced(ch));
        if self.at_start && c.len() > 0 && c[0] == ' ' {
            c.drop_first()
        } else {
            c
        }
    }

    pub open spec fn appended(self, chunk: Seq<char>) -> Stream {
        Stream {
            text: self.text + self.shown(chunk),
            at_start: self.at_start && chunk.len() == 0,
            ..self
        }
    }

    /// Tokens that leave no trace when specials are skipped.
    pub open spec fn hides(self, lex: Lexicon, id: u32, piece: Seq<char>) -> bool {
        self.skip_special && (lex.specials.contains_key(piece) || lex.bos == Some(id) || lex.eos.contains(id))
    }

    /// The chunk that a token completes, and what then waits: a byte token
    /// joins the waiting bytes, any other piece ends them.
    pub open spec fn chunk(self, lex: Lexicon, id: u32) -> (Seq<char>, Seq<u8>) {
        match lex.piece(id) {
            None => (Seq::empty(), self.pending),
            Some(piece) => if self.hides(lex, id, piece) {
                (Seq::empty(), self.pending)
            } else {
                match super::byte_of_piece(piece) {
                    Some(b) => drained(self.pending.push(b), false),
                    None => (drained(self.pending, true).0 + piece, Seq::empty()),
                }
            },
        }
    }

    /// Whether a token is taken notice of.
    pub open spec fn heeds(self, lex: Lexicon, id: u32) -> bool {
        match lex.piece(id) {
            None => false,
            Some(piece) => !self.hides(lex, id, piece),
        }
    }

    pub open spec fn pushed(self, lex: Lexicon, id: u32) -> Stream {
        if self.heeds(lex, id) {
            let c = self.chunk(lex, id);
            Stream { pending: c.1, ..self }.appended(c.0)
        } else {
            self
        }
    }

    /// The text that a token adds.
    pub open spec fn delta(self, lex: Lexicon, id: u32) -> Seq<char> {
        if self.heeds(lex, id) {
            self.shown(self.chunk(lex, id).0)
        } else {
            Seq::empty()
        }
    }

    pub open spec fn finished(self) -> Stream {
        Stream { pending: Seq::empty(), ..self }.appended(drained(self.pending, true).0)
    }

    pub open spec fn pushed_all(self, lex: Lexicon, ids: Seq<u32>) -> Stream
        decreases ids.len(),
    {
        if ids.len() == 0 {
            self
        } else {
            self.pushed_all(lex, ids.drop_last()).pushed(lex, ids.last())
        }
    }

    pub open spec fn fresh(skip_special: bool) -> Stream {
        Stream { skip_special, text: Seq::empty(), at_start: true, pending: Seq::empty() }
    }
}

/// With flush nothing is left waiting.
pub proof fn flushed_leaves_nothing(b: Seq<u8>)
    ensures
        drained(b, true).1.len() == 0,
    decreases b.len(),
{
    if b.len() > 0 {
        if valid_first_scalar(b) {
            flushed_leaves_nothing(b.skip(length_of_first_scalar(b)));
        } else if !is_open(b) {
            flushed_leaves_nothing(b.skip(broken_len(b)));
        }
    }
}

/// What a token shows is what it adds: text only grows, by the shown piece.
pub proof fn text_accumulates_deltas(s: Stream, lex: Lexicon, ids: Seq<u32>, id: u32)
    ensures
        s.pushed(lex, id).text == s.text + s.delta(lex, id),
        s.pushed_all(lex, ids.push(id)).text == s.pushed_all(lex, ids).text + s.pushed_all(lex, ids).delta(lex, id),
{
    assert(s.text + Seq::<char>::empty() =~= s.text);
    assert(ids.push(id).drop_last() =~= ids);
    let t = s.pushed_all(lex, ids);
    assert(t.text + Seq::<char>::empty() =~= t.text);
}

/// Incremental decoder state: `push(id)` returns only the text appended by
/// that token while `text` holds the accumulated result.
#[derive(Clone, Debug)]
pub struct DecoderState {
    pub skip_special: bool,
    pub text: String,
    /// Nothing has been appended yet.
    pub at_start: bool,
    /// Bytes of `<0xNN>` tokens that do not form a complete character yet.
    pub pending: Vec<u8>,
}

impl View for DecoderState {
    type V = Stream;

    open spec fn view(&self) -> Stream {
        Stream {
            skip_special: self.skip_special,
            text: self.text@,
            at_start: self.at_start,
            pending: self.pending@,
        }
    }
}

impl DecoderState {
    pub fn new(skip_special: bool) -> (r: DecoderState)
        ensures
            r@ == Stream::fresh(skip_special),
    {
        let r = DecoderState { skip_special, text: String::new(), at_start: true, pending: Vec::new() };
        proof {
            assert(r@.text =~= Seq::empty());
        }
        r
    }

    /// Append a chunk; returns the text it added.
    pub fn append(&mut self, chunk: &str) -> (r: String)
        ensures
            final(self)@ == old(self)@.appended(chunk@),
            r@ == old(self)@.shown(chunk@),
    {
        let ghost before = self@;
        let ghost all = chunk@.map_values(|ch: char| spaced(ch));
        let mut c = String::new();
        let mut first = true;
        let drop_space = self.at_start;
        let ghost skipped: int = if before.at_start && all.len() > 0 && all[0] == ' ' {
            1
        } else {
            0
        };
        for ch in it: chunk.chars()
            invariant
                it.seq() == chunk@,
                all == chunk@.map_values(|ch: char| spaced(ch)),
                drop_space == before.at_start,
                skipped == (if before.at_start && all.len() > 0 && all[0] == ' ' {
                    1int
                } else {
                    0
                }),
                first == (it.index() == 0),
                first ==> c@.len() == 0,
                !first ==> c@ == all.subrange(skipped, it.index() as int),
        {
            let s = if ch == METASPACE {
                ' '
            } else {
                ch
            };
            proof {
                assert(all[it.index()] == s);
                assert(it.index() > 0 ==> all.subrange(skipped, it.index() + 1) =~= all.subrange(
                    skipped,
                    it.index() as int,
                ).push(s));
            }
            if !(first && drop_space && s == ' ') {
                c.push(s);
            }
            proof {
                assert(c@ =~= all.subrange(skipped, it.index() + 1));
            }
            first = false;
        }
        proof {
            assert(c@ =~= before.shown(chunk@));
        }
        if !first {
            self.at_start = false;
        }
        self.text.append(c.as_str());
        c
    }

    /// Read as much of the waiting bytes as forms characters. Bytes that are
    /// none become U+FFFD; an unfinished character at the end waits for more,
    /// unless `flush`.
    pub fn drain_pending(&mut self, flush: bool) -> (out: String)
        ensures
            out@ == drained(old(self)@.pending, flush).0,
            final(self)@ == (Stream { pending: drained(old(self)@.pending, flush).1, ..old(self)@ }),
    {
        let ghost all = self.pending@;
        let ghost goal = drained(all, flush);
        let mut out = String::new();
        let mut at: usize = 0;
        let n: usize = self.pending.len();
        let mut waiting = false;
        proof {
            assert(all.skip(0) =~= all);
            assert(out@ + goal.0 =~= goal.0);
        }
        while at < n && !waiting
            invariant
                self@ == old(self)@,
                all == self.pending@,
                n == all.len(),
                at <= n,
                goal == drained(all, flush),
                waiting ==> at < n && !valid_first_scalar(all.skip(at as int)) && is_open(all.skip(at as int)),
                goal.0 == out@ + drained(all.skip(at as int), flush).0,
                goal.1 == drained(all.skip(at as int), flush).1,
            decreases n - at, !waiting as int,
        {
            let ghost here = all.skip(at as int);
            let ghost was = out@;
            match front(self.pending.as_slice(), at) {
                Front::Char(c, len) => {
                    out.push(c);
                    proof {
                        assert(here.skip(len as int) =~= all.skip(at + len));
                        let rest = drained(all.skip(at + len), flush).0;
                        assert(was + (seq![c] + rest) =~= out@ + rest);
                    }
                    at = at + len;
                },
                Front::Broken(len) => {
                    out.push(REPLACEMENT);
                    proof {
                        assert(here.skip(len as int) =~= all.skip(at + len));
                        let rest = drained(all.skip(at + len), flush).0;
                        assert(was + (seq![REPLACEMENT] + rest) =~= out@ + rest);
                    }
                    at = at + len;
                },
                Front::Open => {
                    waiting = true;
                },
            }
        }
        let mut rest: Vec<u8> = Vec::new();
        let ghost left = all.skip(at as int);
        if waiting {
            if flush {
                out.push(REPLACEMENT);
            } else {
                let mut k: usize = at;
                while k < n
                    invariant
                        self@ == old(self)@,
                        all == self.pending@,
                        n == all.len(),
                        at <= k <= n,
                        rest@ == all.subrange(at as int, k as int),
                    decreases n - k,
                {
                    rest.push(self.pending[k]);
                    proof {
                        assert(rest@ =~= all.subrange(at as int, k + 1));
                    }
                    k = k + 1;
                }
                proof {
                    assert(rest@ =~= left);
                    assert(out@ + Seq::<char>::empty() =~= out@);
                }
            }
        } else {
            proof {
                assert(left.len() == 0);
                assert(out@ + Seq::<char>::empty() =~= out@);
            }
        }
        self.pending = rest;
        proof {
            assert(out@ =~= goal.0);
            assert(self.pending@ =~= goal.1);
        }
        out
    }

    /// Take the next token; returns the text it added.
    pub fn push(&mut self, tok: &Tokenizer, id: u32) -> (r: String)
        ensures
            final(self)@ == old(self)@.pushed(tok.lexicon(), id),
            r@ == old(self)@.delta(tok.lexicon(), id),
    {
        let ghost before = self@;
        let ghost lex = tok.lexicon();
        let piece = match tok.piece(id) {
            Some(p) => p,
            None => {
                let r = String::new();
                proof {
                    assert(r@ =~= Seq::empty());
                }
                return r;
            },
        };
        let is_bos = match tok.bos_id {
            Some(b) => b == id,
            None => false,
        };
        if self.skip_special && (tok.specials.contains_key(piece) || is_bos || tok.is_eos(id)) {
            let r = String::new();
            proof {
                assert(r@ =~= Seq::empty());
            }
            return r;
        }
        if let Some(b) = super::parse_byte_token(piece) {
            self.pending.push(b);
            proof {
                assert(self@ == (Stream { pending: before.pending.push(b), ..before }));
            }
            let s = self.drain_pending(false);
            return self.append(s.as_str());
        }
        let mut s = self.drain_pending(true);
        proof {
            flushed_leaves_nothing(before.pending);
            assert(self@.pending =~= Seq::empty());
        }
        s.append(piece);
        self.append(s.as_str())
    }

    /// End of the tokens: what still waits is given up.
    pub fn finish(&mut self) -> (r: String)
        ensures
            final(self)@ == old(self)@.finished(),
            r@ == old(self)@.shown(drained(old(self)@.pending, true).0),
    {
        let ghost before = self@;
        let s = self.drain_pending(true);
        proof {
            flushed_leaves_nothing(before.pending);
            assert(self@.pending =~= Seq::empty());
        }
        self.append(s.as_str())
    }
}

/// A [`DecoderState`] bound to its tokenizer.
pub struct Decoder<'a> {
    pub tok: &'a Tokenizer,
    pub state: DecoderState,
}

impl<'a> Decoder<'a> {
    pub fn push(&mut self, id: u32) -> (r: String)
        ensures
            final(self).tok == old(self).tok,
            final(self).state@ == old(self).state@.pushed(old(self).tok.lexicon(), id),
            r@ == old(self).state@.delta(old(self).tok.lexicon(), id),
    {
        self.state.push(self.tok, id)
    }

    pub fn finish(&mut self) -> (r: String)
        ensures
            final(self).tok == old(self).tok,
            final(self).state@ == old(self).state@.finished(),
            r@ == old(self).state@.shown(drained(old(self).state@.pending, true).0),
    {
        self.state.finish()
    }

    pub fn text(&self) -> (r: &str)
        ensures
            r@ == self.state@.text,
    {
        self.state.text.as_str()
    }
}

impl Tokenizer {
    /// Token by token decoder.
    pub fn decoder(&self, skip_special: bool) -> (r: Decoder<'_>)
        ensures
            r.tok == self,
            r.state@ == Stream::fresh(skip_special),
    {
        Decoder { tok: self, state: DecoderState::new(skip_special) }
    }

    /// The text of a sequence of tokens.
    pub fn decode(&self, ids: &[u32], skip_special: bool) -> (r: String)
        ensures
            r@ == Stream::fresh(skip_special).pushed_all(self.lexicon(), ids@).finished().text,
    {
        let mut d = self.decoder(skip_special);
        let mut i: usize = 0;
        proof {
            assert(ids@.take(0) =~= Seq::empty());
        }
        while i < ids.len()
            invariant
                i <= ids@.len(),
                d.tok == self,
                d.state@ == Stream::fresh(skip_special).pushed_all(self.lexicon(), ids@.take(i as int)),
            decreases ids@.len() - i,
        {
            d.push(ids[i]);
            proof {
                assert(ids@.take(i + 1).drop_last() =~= ids@.take(i as int));
            }
            i = i + 1;
        }
        proof {
            assert(ids@.take(i as int) =~= ids@);
        }
        d.finish();
        d.state.text
    }
}

} // verus!
