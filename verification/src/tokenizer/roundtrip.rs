//! What was encoded decodes to itself.
use vstd::prelude::*;
use vstd::utf8::*;

use super::stream::Stream;
use super::Lexicon;
use super::ModelType;
use super::METASPACE;

verus! {

// --- pushing -------------------------------------------------------------------------------------

proof fn lemma_pushed_in_two_goes(s: Stream, lex: Lexicon, a: Seq<u32>, b: Seq<u32>)
    ensures
        s.pushed_all(lex, a + b) == s.pushed_all(lex, a).pushed_all(lex, b),
    decreases b.len(),
{
    if b.len() == 0 {
        assert(a + b =~= a);
    } else {
        lemma_pushed_in_two_goes(s, lex, a, b.drop_last());
        assert((a + b).drop_last() =~= a + b.drop_last());
        assert((a + b).last() == b.last());
    }
}

proof fn lemma_pushed_one(s: Stream, lex: Lexicon, id: u32)
    ensures
        s.pushed_all(lex, seq![id]) == s.pushed(lex, id),
{
    let ids = seq![id];
    assert(ids.drop_last() =~= Seq::empty());
    assert(s.pushed_all(lex, ids.drop_last()) == s);
    assert(ids.last() == id);
}

/// Two chunks show as one.
proof fn lemma_appended_twice(s: Stream, a: Seq<char>, b: Seq<char>)
    ensures
        s.appended(a).appended(b) == s.appended(a + b),
{
    let f = |ch: char| super::stream::spaced(ch);
    let t = s.appended(a);
    assert((a + b).map_values(f) =~= a.map_values(f) + b.map_values(f));
    if a.len() == 0 {
        assert(a + b =~= b);
        assert(s.shown(a) =~= Seq::empty());
        assert(s.text + s.shown(a) =~= s.text);
    } else {
        assert(s.shown(a + b) =~= s.shown(a) + t.shown(b));
        assert(t.appended(b).text =~= s.appended(a + b).text);
    }
    assert(t.appended(b).text =~= s.appended(a + b).text);
}

// --- conditions ----------------------------------------------------------------------------------

/// Whether a token would leave no trace.
pub open spec fn is_hidden(lex: Lexicon, skip_special: bool, piece: Seq<char>) -> bool {
    Stream::fresh(skip_special).hides(lex, lex.ids[piece], piece)
}

/// Whether ids stand for the pieces that have them: no two pieces share one.
pub open spec fn ids_are_own(lex: Lexicon) -> bool {
    forall|p: Seq<char>| #[trigger] lex.ids.contains_key(p) ==> lex.piece(lex.ids[p]) == Some(p)
}

/// Whether a piece is written down so that it can be read: by its own id, if it
/// does not spell a byte token, or by its bytes; and by no token that leaves no
/// trace.
pub open spec fn is_readable(lex: Lexicon, skip_special: bool, piece: Seq<char>) -> bool {
    let bytes = encode_utf8(piece);
    &&& lex.can_emit(piece)
    &&& if lex.ids.contains_key(piece) {
        super::byte_of_piece(piece) is None && !is_hidden(lex, skip_special, piece)
    } else {
        forall|i: int| 0 <= i < bytes.len() ==> !is_hidden(lex, skip_special, super::byte_piece(#[trigger] bytes[i]))
    }
}

/// Whether pieces can be read.
pub open spec fn are_readable(lex: Lexicon, skip_special: bool, v: Seq<Seq<char>>) -> bool {
    forall|i: int| 0 <= i < v.len() ==> is_readable(lex, skip_special, #[trigger] v[i])
}

/// The pieces of the best segmentation of the first `j` characters.
pub open spec fn best_pieces(lex: Lexicon, norm: Seq<char>, j: nat) -> Seq<Seq<char>>
    decreases j,
    via best_pieces_decreases
{
    if j == 0 {
        Seq::empty()
    } else {
        let back = lex.best_path(norm, j).back;
        best_pieces(lex, norm, back).push(norm.subrange(back as int, j as int))
    }
}

#[via_fn]
proof fn best_pieces_decreases(lex: Lexicon, norm: Seq<char>, j: nat) {
    lex.every_position_is_reached(norm, j);
}

/// The pieces by which a text is encoded.
pub open spec fn taken(lex: Lexicon, norm: Seq<char>) -> Seq<Seq<char>> {
    match lex.kind {
        ModelType::Unigram => best_pieces(lex, norm, norm.len()),
        ModelType::Bpe => super::bpe::fully_merged(lex.merges, super::bpe::single_chars(norm)),
    }
}

/// Whether a piece is a lone ▁ that is written down without a trace.
pub open spec fn is_idle(lex: Lexicon, skip_special: bool, piece: Seq<char>) -> bool {
    &&& piece == seq![METASPACE]
    &&& forall|i: int|
        0 <= i < lex.emitted_or_unk(piece).len() ==> !Stream::fresh(skip_special).heeds(
            lex,
            #[trigger] lex.emitted_or_unk(piece)[i],
        )
}

/// Whether what a text is encoded by can be read: of the pieces that are taken,
/// every one. The ▁ at the very front may be missing, unless another follows,
/// which then would be taken for it.
pub open spec fn is_readable_text(lex: Lexicon, skip_special: bool, norm: Seq<char>) -> bool {
    let v = taken(lex, norm);
    ||| are_readable(lex, skip_special, v)
    ||| {
        &&& v.len() > 0
        &&& is_idle(lex, skip_special, v[0])
        &&& are_readable(lex, skip_special, v.skip(1))
        &&& norm.len() > 1 ==> norm[1] != METASPACE
    }
}

/// Whether no special token stands in a text.
pub open spec fn has_no_special(lex: Lexicon, text: Seq<char>) -> bool {
    forall|at: int, k: Seq<char>| 0 <= at < text.len() ==> !#[trigger] super::is_special_at(lex.specials, text, at, k)
}

// --- one piece -----------------------------------------------------------------------------------

/// Byte tokens read as their bytes.
proof fn lemma_bytes(s: Stream, lex: Lexicon, bytes: Seq<u8>)
    requires
        ids_are_own(lex),
        s.pending.len() == 0,
        lex.has_bytes(bytes),
        forall|i: int| 0 <= i < bytes.len() ==> !is_hidden(lex, s.skip_special, super::byte_piece(#[trigger] bytes[i])),
    ensures
        ({
            let d = super::stream::drained(bytes, false);
            s.pushed_all(lex, lex.byte_ids(bytes)) == (Stream { pending: d.1, ..s.appended(d.0) })
        }),
    decreases bytes.len(),
{
    if bytes.len() == 0 {
        assert(s.pending =~= Seq::empty());
        assert(s.shown(Seq::empty()) =~= Seq::empty());
        assert(s.text + s.shown(Seq::empty()) =~= s.text);
    } else {
        let before = bytes.drop_last();
        assert forall|i: int| 0 <= i < before.len() implies lex.ids.contains_key(super::byte_piece(#[trigger] before[i])) by {
            assert(before[i] == bytes[i]);
        }
        assert forall|i: int| 0 <= i < before.len() implies !is_hidden(
            lex,
            s.skip_special,
            super::byte_piece(#[trigger] before[i]),
        ) by {
            assert(before[i] == bytes[i]);
        }
        lemma_bytes(s, lex, before);
        let b = bytes.last();
        assert(b == bytes[bytes.len() - 1]);
        let p = super::byte_piece(b);
        assert(lex.ids.contains_key(p));
        super::byte_token_reads_back(b);
        let d = super::stream::drained(before, false);
        let t = Stream { pending: d.1, ..s.appended(d.0) };
        super::stream::draining_in_two_goes(before, seq![b], false);
        assert(before + seq![b] =~= bytes);
        assert(d.1 + seq![b] =~= d.1.push(b));
        let c = super::stream::drained(d.1.push(b), false);
        lemma_appended_twice(s, d.0, c.0);
        let ids = lex.byte_ids(bytes);
        assert(ids == lex.byte_ids(before).push(lex.ids[p]));
        assert(ids.drop_last() =~= lex.byte_ids(before));
        assert(ids.last() == lex.ids[p]);
        assert(!is_hidden(lex, s.skip_special, p));
        assert(t.hides(lex, lex.ids[p], p) == is_hidden(lex, s.skip_special, p));
        assert(t.heeds(lex, lex.ids[p]));
        assert(t.chunk(lex, lex.ids[p]) == c);
        assert(t.pushed(lex, lex.ids[p]) == (Stream { pending: c.1, ..t }).appended(c.0));
        assert((Stream { pending: c.1, ..t }).appended(c.0) == (Stream { pending: c.1, ..s.appended(d.0).appended(c.0) }));
    }
}

/// A piece that is written down is read.
proof fn lemma_piece(s: Stream, lex: Lexicon, piece: Seq<char>)
    requires
        ids_are_own(lex),
        s.pending.len() == 0,
        is_readable(lex, s.skip_special, piece),
    ensures
        s.pushed_all(lex, lex.emitted_or_unk(piece)) == s.appended(piece),
{
    if lex.ids.contains_key(piece) {
        lemma_known_piece(s, lex, piece);
    } else {
        let bytes = encode_utf8(piece);
        lemma_bytes(s, lex, bytes);
        super::stream::bytes_of_text_read_back(piece, false);
        assert(s.pending =~= Seq::empty());
    }
}

proof fn lemma_known_piece(s: Stream, lex: Lexicon, piece: Seq<char>)
    requires
        ids_are_own(lex),
        s.pending.len() == 0,
        lex.ids.contains_key(piece),
        is_readable(lex, s.skip_special, piece),
    ensures
        s.pushed_all(lex, seq![lex.ids[piece]]) == s.appended(piece),
{
    let id = lex.ids[piece];
    lemma_pushed_one(s, lex, id);
    assert(s.hides(lex, id, piece) == is_hidden(lex, s.skip_special, piece));
    assert(super::stream::drained(s.pending, true).0 =~= Seq::empty());
    assert(Seq::<char>::empty() + piece =~= piece);
    assert(s.pending =~= Seq::empty());
}

// --- pieces --------------------------------------------------------------------------------------

/// Symbols put together again.
pub open spec fn joined(s: Seq<Seq<char>>) -> Seq<char>
    decreases s.len(),
{
    if s.len() == 0 {
        Seq::empty()
    } else {
        joined(s.drop_last()) + s.last()
    }
}

proof fn lemma_joined_parts(a: Seq<Seq<char>>, b: Seq<Seq<char>>)
    ensures
        joined(a + b) == joined(a) + joined(b),
    decreases b.len(),
{
    if b.len() == 0 {
        assert(a + b =~= a);
        assert(joined(a) + joined(b) =~= joined(a));
    } else {
        lemma_joined_parts(a, b.drop_last());
        assert((a + b).drop_last() =~= a + b.drop_last());
        assert(joined(a) + (joined(b.drop_last()) + b.last()) =~= (joined(a) + joined(b.drop_last())) + b.last());
    }
}

proof fn lemma_joined_singles(text: Seq<char>)
    ensures
        joined(super::bpe::single_chars(text)) == text,
    decreases text.len(),
{
    let s = super::bpe::single_chars(text);
    if text.len() > 0 {
        lemma_joined_singles(text.drop_last());
        assert(s.drop_last() =~= super::bpe::single_chars(text.drop_last()));
        assert(text.drop_last() + seq![text.last()] =~= text);
    }
}

proof fn lemma_joined_after_merge(s: Seq<Seq<char>>, p: int)
    requires
        0 <= p < s.len() - 1,
    ensures
        joined(super::bpe::merged_at(s, p)) == joined(s),
{
    let (a, b, rest) = (s[p], s[p + 1], s.skip(p + 2));
    let (one, two) = (seq![a + b], seq![a, b]);
    assert(s =~= s.take(p) + two + rest);
    assert(super::bpe::merged_at(s, p) =~= s.take(p) + one + rest);
    lemma_joined_parts(s.take(p) + two, rest);
    lemma_joined_parts(s.take(p), two);
    lemma_joined_parts(s.take(p) + one, rest);
    lemma_joined_parts(s.take(p), one);
    assert(one.drop_last() =~= Seq::empty());
    assert(two.drop_last() =~= seq![a]);
    assert(seq![a].drop_last() =~= Seq::<Seq<char>>::empty());
    assert(joined(Seq::<Seq<char>>::empty()) =~= Seq::empty());
    assert(joined(seq![a]) =~= a);
    assert(joined(two) =~= a + b);
    assert(joined(one) =~= a + b);
}

/// Merging keeps the text.
pub(crate) proof fn lemma_merged(merges: Map<(Seq<char>, Seq<char>), nat>, s: Seq<Seq<char>>)
    ensures
        joined(super::bpe::fully_merged(merges, s)) == joined(s),
    decreases s.len(),
{
    if exists|p: int| super::bpe::is_next_pair(merges, s, p) {
        let p = choose|p: int| super::bpe::is_next_pair(merges, s, p);
        lemma_joined_after_merge(s, p);
        lemma_merged(merges, super::bpe::merged_at(s, p));
    }
}

proof fn lemma_symbols(s: Stream, lex: Lexicon, v: Seq<Seq<char>>)
    requires
        ids_are_own(lex),
        s.pending.len() == 0,
        are_readable(lex, s.skip_special, v),
    ensures
        s.pushed_all(lex, lex.emitted_all(v)) == s.appended(joined(v)),
    decreases v.len(),
{
    if v.len() == 0 {
        assert(s.shown(Seq::empty()) =~= Seq::empty());
        assert(s.text + s.shown(Seq::empty()) =~= s.text);
    } else {
        let before = v.drop_last();
        let piece = v.last();
        assert(piece == v[v.len() - 1]);
        assert forall|i: int| 0 <= i < before.len() implies is_readable(lex, s.skip_special, #[trigger] before[i]) by {
            assert(before[i] == v[i]);
        }
        lemma_symbols(s, lex, before);
        let t = s.appended(joined(before));
        lemma_pushed_in_two_goes(s, lex, lex.emitted_all(before), lex.emitted_or_unk(piece));
        lemma_piece(t, lex, piece);
        lemma_appended_twice(s, joined(before), piece);
    }
}

// --- the law -------------------------------------------------------------------------------------

/// The pieces of the best segmentation make up the text, and are what is
/// written down.
proof fn lemma_best_pieces(lex: Lexicon, norm: Seq<char>, j: nat)
    requires
        j <= norm.len(),
    ensures
        lex.segmented(norm, j) == lex.emitted_all(best_pieces(lex, norm, j)),
        joined(best_pieces(lex, norm, j)) == norm.take(j as int),
    decreases j,
{
    if j == 0 {
        assert(norm.take(0) =~= Seq::empty());
    } else {
        lex.every_position_is_reached(norm, j);
        lex.lemma_step_id(norm, j, j);
        crate::float::F64::minus_infinity_is_itself();
        let c = lex.best_path(norm, j);
        let piece = norm.subrange(c.back as int, j as int);
        let v = best_pieces(lex, norm, j);
        lemma_best_pieces(lex, norm, c.back);
        assert(v.drop_last() =~= best_pieces(lex, norm, c.back));
        assert(lex.step_ids(norm, j) == lex.emitted_or_unk(piece));
        assert(norm.take(c.back as int) + piece =~= norm.take(j as int));
    }
}

/// The pieces by which a text is encoded make it up, and are what is written
/// down.
pub(crate) proof fn lemma_taken(lex: Lexicon, text: Seq<char>)
    ensures
        ({
            let v = taken(lex, super::normalized(text));
            &&& lex.text_ids(text) == lex.emitted_all(v)
            &&& joined(v) == super::normalized(text)
        }),
{
    let norm = super::normalized(text);
    match lex.kind {
        ModelType::Unigram => {
            lemma_best_pieces(lex, norm, norm.len());
            assert(norm.take(norm.len() as int) =~= norm);
        },
        ModelType::Bpe => {
            let v = super::bpe::single_chars(norm);
            lemma_merged(lex.merges, v);
            lemma_joined_singles(norm);
        },
    }
}

/// What is written down of the first piece comes first.
proof fn lemma_emitted_first(lex: Lexicon, v: Seq<Seq<char>>)
    requires
        v.len() > 0,
    ensures
        lex.emitted_all(v) == lex.emitted_or_unk(v[0]) + lex.emitted_all(v.skip(1)),
    decreases v.len(),
{
    let rest = v.skip(1);
    if v.len() == 1 {
        assert(v.drop_last() =~= Seq::empty());
        assert(rest =~= Seq::empty());
        assert(lex.emitted_all(v) =~= lex.emitted_or_unk(v[0]) + lex.emitted_all(rest));
    } else {
        lemma_emitted_first(lex, v.drop_last());
        assert(v.drop_last().skip(1) =~= rest.drop_last());
        assert(v.drop_last()[0] == v[0]);
        assert(rest.last() == v.last());
        assert(lex.emitted_all(v) =~= lex.emitted_or_unk(v[0]) + lex.emitted_all(rest));
    }
}

/// Ids that are not heeded change nothing.
proof fn lemma_unheeded(s: Stream, lex: Lexicon, ids: Seq<u32>)
    requires
        forall|i: int| 0 <= i < ids.len() ==> !Stream::fresh(s.skip_special).heeds(lex, #[trigger] ids[i]),
    ensures
        s.pushed_all(lex, ids) == s,
    decreases ids.len(),
{
    if ids.len() > 0 {
        let before = ids.drop_last();
        assert forall|i: int| 0 <= i < before.len() implies !Stream::fresh(s.skip_special).heeds(lex, #[trigger] before[i]) by {
            assert(before[i] == ids[i]);
        }
        lemma_unheeded(s, lex, before);
        assert(!Stream::fresh(s.skip_special).heeds(lex, ids[ids.len() - 1]));
        assert(!s.heeds(lex, ids.last()));
    }
}

/// A stretch reads as its text.
proof fn lemma_stretch(lex: Lexicon, text: Seq<char>, skip_special: bool)
    requires
        ids_are_own(lex),
        is_readable_text(lex, skip_special, super::normalized(text)),
        !text.contains(METASPACE),
    ensures
        ({
            let t = Stream::fresh(skip_special).pushed_all(lex, lex.text_ids(text));
            t.text == text && t.pending.len() == 0
        }),
{
    let s = Stream::fresh(skip_special);
    let norm = super::normalized(text);
    let v = taken(lex, norm);
    let f = |ch: char| super::stream::spaced(ch);
    lemma_taken(lex, text);
    assert(norm.skip(1).map_values(f) =~= text) by {
        assert forall|i: int| 0 <= i < text.len() implies norm.skip(1).map_values(f)[i] == text[i] by {
            assert(norm[i + 1] == super::metaspaced(text[i]));
            assert(text.contains(text[i]));
        }
    }
    if are_readable(lex, skip_special, v) {
        lemma_symbols(s, lex, v);
        assert(norm.map_values(f)[0] == ' ');
        assert(norm.map_values(f).drop_first() =~= text);
        assert(s.appended(norm).text =~= text);
    } else {
        let rest = v.skip(1);
        lemma_emitted_first(lex, v);
        lemma_pushed_in_two_goes(s, lex, lex.emitted_or_unk(v[0]), lex.emitted_all(rest));
        lemma_unheeded(s, lex, lex.emitted_or_unk(v[0]));
        lemma_symbols(s, lex, rest);
        assert(v =~= seq![v[0]] + rest);
        lemma_joined_parts(seq![v[0]], rest);
        assert(seq![v[0]].drop_last() =~= Seq::empty());
        assert(joined(Seq::empty()) =~= Seq::empty());
        assert(joined(seq![v[0]]) =~= v[0]);
        assert(joined(rest) =~= norm.skip(1));
        if text.len() > 0 {
            assert(norm[1] == super::metaspaced(text[0]));
            assert(text[0] != ' ');
        }
        assert(s.shown(norm.skip(1)) =~= text);
        assert(s.appended(norm.skip(1)).text =~= text);
    }
}

/// Without special tokens a text is one stretch.
proof fn lemma_one_stretch(lex: Lexicon, text: Seq<char>, at: int)
    requires
        has_no_special(lex, text),
        0 <= at <= text.len(),
        text.len() > 0,
    ensures
        lex.ids_from(text, 0, at) == lex.text_ids(text),
    decreases text.len() - at,
{
    if at < text.len() {
        lemma_one_stretch(lex, text, at + 1);
    } else {
        assert(text.skip(0) =~= text);
    }
}

/// Decoding gives back what was encoded: of a text in which no special token
/// and no ▁ stands, and of whose encoding every piece can be read.
pub proof fn encoded_text_reads_back(lex: Lexicon, text: Seq<char>, bos: bool, skip_special: bool)
    requires
        ids_are_own(lex),
        text.len() > 0 || lex.specials.dom() =~= Set::empty() ==> is_readable_text(
            lex,
            skip_special,
            super::normalized(text),
        ),
        has_no_special(lex, text),
        !text.contains(METASPACE),
        bos ==> skip_special,
    ensures
        Stream::fresh(skip_special).pushed_all(lex, lex.encoded(text, bos)).finished().text == text,
{
    let s = Stream::fresh(skip_special);
    let head = if bos && lex.bos is Some {
        seq![lex.bos->0]
    } else {
        Seq::empty()
    };
    let tail = if lex.specials.dom() =~= Set::empty() {
        lex.text_ids(text)
    } else {
        lex.ids_from(text, 0, 0)
    };
    lemma_pushed_in_two_goes(s, lex, head, tail);
    if head.len() > 0 {
        lemma_pushed_one(s, lex, lex.bos->0);
    }
    assert(s.pushed_all(lex, head) == s);
    let t = s.pushed_all(lex, tail);
    if text.len() > 0 || lex.specials.dom() =~= Set::empty() {
        if text.len() > 0 {
            lemma_one_stretch(lex, text, 0);
        }
        lemma_stretch(lex, text, skip_special);
    } else {
        assert(t.text =~= text);
    }
    assert(super::stream::drained(t.pending, true).0 =~= Seq::empty()) by {
        assert(t.pending =~= Seq::empty());
    }
    assert(t.shown(Seq::empty()) =~= Seq::empty());
    assert(t.finished().text =~= text);
}

// --- the law, by the ids -------------------------------------------------------------------------

/// Whether an id is that of a token which leaves no trace.
pub open spec fn is_hidden_id(lex: Lexicon, skip_special: bool, id: u32) -> bool {
    lex.piece(id) matches Some(piece) && Stream::fresh(skip_special).hides(lex, id, piece)
}

/// Whether ids are neither that of the unknown token nor hidden.
pub open spec fn are_plain(lex: Lexicon, skip_special: bool, ids: Seq<u32>) -> bool {
    forall|i: int| 0 <= i < ids.len() ==> ids[i] != lex.unk_id && !is_hidden_id(lex, skip_special, #[trigger] ids[i])
}

/// Whether a text is encoded by plain ids. Those of a lone ▁ at the very front
/// may be hidden, unless a space follows, which then would be taken for it.
pub open spec fn is_encoded_plainly(lex: Lexicon, skip_special: bool, text: Seq<char>) -> bool {
    let ids = lex.encoded(text, false);
    let front = taken(lex, super::normalized(text))[0];
    ||| are_plain(lex, skip_special, ids)
    ||| {
        &&& is_idle(lex, skip_special, front)
        &&& are_plain(lex, skip_special, ids.skip(lex.emitted_or_unk(front).len() as int))
        &&& text.len() > 0 ==> text[0] != ' '
    }
}

/// Whether a text holds no special token's content.
pub open spec fn holds_no_special(lex: Lexicon, text: Seq<char>) -> bool {
    forall|at: int, k: Seq<char>| #[trigger] crate::text::stands_at(text, at, k) ==> !lex.specials.contains_key(k)
}

proof fn lemma_plain_parts(lex: Lexicon, skip_special: bool, a: Seq<u32>, b: Seq<u32>)
    requires
        are_plain(lex, skip_special, a + b),
    ensures
        are_plain(lex, skip_special, a),
        are_plain(lex, skip_special, b),
{
    assert forall|i: int| 0 <= i < a.len() implies a[i] != lex.unk_id && !is_hidden_id(lex, skip_special, #[trigger] a[i]) by {
        assert((a + b)[i] == a[i]);
    }
    assert forall|i: int| 0 <= i < b.len() implies b[i] != lex.unk_id && !is_hidden_id(lex, skip_special, #[trigger] b[i]) by {
        assert((a + b)[a.len() + i] == b[i]);
    }
}

/// The ids of bytes hold the id of each.
proof fn lemma_byte_id(lex: Lexicon, bytes: Seq<u8>, i: int)
    requires
        lex.has_bytes(bytes),
        0 <= i < bytes.len(),
    ensures
        lex.byte_ids(bytes).contains(lex.ids[super::byte_piece(bytes[i])]),
    decreases bytes.len(),
{
    let before = bytes.drop_last();
    let ids = lex.byte_ids(bytes);
    assert(bytes.last() == bytes[bytes.len() - 1]);
    assert forall|k: int| 0 <= k < before.len() implies lex.ids.contains_key(super::byte_piece(#[trigger] before[k])) by {
        assert(before[k] == bytes[k]);
    }
    if i < before.len() {
        lemma_byte_id(lex, before, i);
        assert(before[i] == bytes[i]);
        let id = lex.ids[super::byte_piece(bytes[i])];
        let b = lex.byte_ids(before);
        let k = choose|k: int| 0 <= k < b.len() && b[k] == id;
        assert(ids[k] == id);
    } else {
        assert(ids[ids.len() - 1] == lex.ids[super::byte_piece(bytes[i])]);
    }
}

/// A piece that is written down by plain ids can be read.
proof fn lemma_readable(lex: Lexicon, skip_special: bool, piece: Seq<char>)
    requires
        ids_are_own(lex),
        are_plain(lex, skip_special, lex.emitted_or_unk(piece)),
        super::byte_of_piece(piece) is None,
    ensures
        is_readable(lex, skip_special, piece),
{
    let ids = lex.emitted_or_unk(piece);
    if !lex.can_emit(piece) {
        assert(ids[ids.len() - 1] == lex.unk_id);
        assert(!is_hidden_id(lex, skip_special, ids[ids.len() - 1]));
    }
    if lex.ids.contains_key(piece) {
        assert(ids[0] == lex.ids[piece]);
        assert(!is_hidden_id(lex, skip_special, ids[0]));
    } else {
        let bytes = encode_utf8(piece);
        assert forall|i: int| 0 <= i < bytes.len() implies !is_hidden(
            lex,
            skip_special,
            super::byte_piece(#[trigger] bytes[i]),
        ) by {
            let p = super::byte_piece(bytes[i]);
            lemma_byte_id(lex, bytes, i);
            let k = choose|k: int| 0 <= k < ids.len() && ids[k] == lex.ids[p];
            assert(!is_hidden_id(lex, skip_special, ids[k]));
        }
    }
}

/// A stretch of the normalized text is no byte token, where the text holds no
/// start of one.
proof fn lemma_ordinary(text: Seq<char>, i: int, j: int)
    requires
        !crate::text::holds(text, seq!['<', '0', 'x']),
        0 <= i <= j <= super::normalized(text).len(),
    ensures
        super::byte_of_piece(super::normalized(text).subrange(i, j)) is None,
{
    let norm = super::normalized(text);
    let piece = norm.subrange(i, j);
    if super::byte_of_piece(piece) is Some {
        let mark = seq!['<', '0', 'x'];
        assert(piece[0] == '<' && piece[1] == '0' && piece[2] == 'x');
        assert forall|k: int| 0 <= k < 3 implies i + k > 0 && text[i + k - 1] == piece[k] by {
            assert(piece[k] == norm[i + k]);
            if i + k > 0 {
                assert(norm[i + k] == super::metaspaced(text[i + k - 1]));
            }
        }
        assert(text.subrange(i - 1, i - 1 + mark.len()) =~= mark);
        assert(crate::text::stands_at(text, i - 1, mark));
    }
}

/// Pieces are stretches of what they make up.
proof fn lemma_piece_is_stretch(v: Seq<Seq<char>>, i: int) -> (at: int)
    requires
        0 <= i < v.len(),
    ensures
        0 <= at <= at + v[i].len() <= joined(v).len(),
        joined(v).subrange(at, at + v[i].len()) == v[i],
    decreases v.len(),
{
    let before = v.drop_last();
    if i < before.len() {
        let at = lemma_piece_is_stretch(before, i);
        assert(before[i] == v[i]);
        assert(joined(v).subrange(at, at + v[i].len()) =~= joined(before).subrange(at, at + v[i].len()));
        at
    } else {
        let at = joined(before).len() as int;
        assert(joined(v).subrange(at, at + v[i].len()) =~= v[i]);
        at
    }
}

proof fn lemma_plain_symbols(lex: Lexicon, skip_special: bool, v: Seq<Seq<char>>, i: int)
    requires
        are_plain(lex, skip_special, lex.emitted_all(v)),
        0 <= i < v.len(),
    ensures
        are_plain(lex, skip_special, lex.emitted_or_unk(v[i])),
    decreases v.len(),
{
    let before = v.drop_last();
    lemma_plain_parts(lex, skip_special, lex.emitted_all(before), lex.emitted_or_unk(v.last()));
    if i < before.len() {
        lemma_plain_symbols(lex, skip_special, before, i);
        assert(before[i] == v[i]);
    } else {
        assert(v[i] == v.last());
    }
}

/// Pieces that are written down by plain ids can be read.
proof fn lemma_readable_pieces(lex: Lexicon, skip_special: bool, text: Seq<char>, v: Seq<Seq<char>>, from: int)
    requires
        ids_are_own(lex),
        !crate::text::holds(text, seq!['<', '0', 'x']),
        joined(v) == super::normalized(text),
        0 <= from <= v.len(),
        are_plain(lex, skip_special, lex.emitted_all(v.skip(from))),
    ensures
        are_readable(lex, skip_special, v.skip(from)),
{
    let w = v.skip(from);
    assert forall|i: int| 0 <= i < w.len() implies is_readable(lex, skip_special, #[trigger] w[i]) by {
        let at = lemma_piece_is_stretch(v, from + i);
        lemma_ordinary(text, at, at + w[i].len());
        lemma_plain_symbols(lex, skip_special, w, i);
        lemma_readable(lex, skip_special, w[i]);
    }
}

/// Decoding gives back what was encoded wherever the encoding holds no unknown
/// token and none that is left out, but for a ▁ at the front: of a text without a
/// special token's content, a ▁ or the `<0x` of a byte token.
pub proof fn plain_encoding_reads_back(lex: Lexicon, text: Seq<char>, bos: bool, skip_special: bool)
    requires
        ids_are_own(lex),
        holds_no_special(lex, text),
        !text.contains(METASPACE),
        !crate::text::holds(text, seq!['<', '0', 'x']),
        is_encoded_plainly(lex, skip_special, text),
        bos ==> skip_special,
    ensures
        Stream::fresh(skip_special).pushed_all(lex, lex.encoded(text, bos)).finished().text == text,
{
    let norm = super::normalized(text);
    assert(has_no_special(lex, text));
    if text.len() > 0 || lex.specials.dom() =~= Set::empty() {
        if text.len() > 0 {
            lemma_one_stretch(lex, text, 0);
        }
        let ids = lex.encoded(text, false);
        assert(ids =~= lex.text_ids(text));
        let v = taken(lex, norm);
        lemma_taken(lex, text);
        assert(norm.len() > 0);
        assert(v.len() > 0);
        assert(v.skip(0) =~= v);
        if are_plain(lex, skip_special, ids) {
            lemma_readable_pieces(lex, skip_special, text, v, 0);
        } else {
            lemma_emitted_first(lex, v);
            assert(ids.skip(lex.emitted_or_unk(v[0]).len() as int) =~= lex.emitted_all(v.skip(1)));
            lemma_readable_pieces(lex, skip_special, text, v, 1);
            if norm.len() > 1 {
                assert(norm[1] == super::metaspaced(text[0]));
                assert(text.contains(text[0]));
            }
        }
    }
    encoded_text_reads_back(lex, text, bos, skip_special);
}

} // verus!
