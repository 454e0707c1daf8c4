//! Building a tokenizer from a `tokenizer.json` document.
use vstd::hash_map::StringHashMap;
use vstd::prelude::*;
use vstd::string::*;

use super::Lexicon;
use super::Merges;
use super::ModelType;
use super::Tokenizer;
use crate::float::F64;
use crate::json::{Json, Tree};
use crate::text::{chars_of, same_text, text_between};

verus! {

/// Pieces by id and ids by piece.
pub struct Vocab {
    pub pieces: Seq<Option<Seq<char>>>,
    pub ids: Map<Seq<char>, u32>,
}

/// `pieces` with `piece` under `id`; gaps below it stay empty.
pub open spec fn piece_set(pieces: Seq<Option<Seq<char>>>, id: u32, piece: Seq<char>) -> Seq<Option<Seq<char>>> {
    if id < pieces.len() {
        pieces.update(id as int, Some(piece))
    } else {
        (pieces + Seq::new((id - pieces.len()) as nat, |i: int| None)).push(Some(piece))
    }
}

impl Vocab {
    pub open spec fn empty() -> Vocab {
        Vocab { pieces: Seq::empty(), ids: Map::empty() }
    }

    pub open spec fn with(self, id: u32, piece: Seq<char>) -> Vocab {
        Vocab { pieces: piece_set(self.pieces, id, piece), ids: self.ids.insert(piece, id) }
    }

    /// An added token keeps the piece that its id already has.
    pub open spec fn with_added(self, id: u32, content: Seq<char>) -> Vocab {
        Vocab {
            pieces: if id < self.pieces.len() && self.pieces[id as int] is Some {
                self.pieces
            } else {
                piece_set(self.pieces, id, content)
            },
            ids: self.ids.insert(content, id),
        }
    }
}

/// What an optional part of a document is.
pub open spec fn text_of(t: Option<Tree>) -> Option<Seq<char>> {
    match t {
        Some(t) => t.text(),
        None => None,
    }
}

pub open spec fn count_of(t: Option<Tree>) -> Option<u64> {
    match t {
        Some(t) => t.count(),
        None => None,
    }
}

/// The model part of a document.
pub open spec fn model_of(doc: Tree) -> Tree {
    match doc.field("model"@) {
        Some(m) => m,
        None => Tree::Null,
    }
}

/// The declared model type; a model that declares none is BPE where it has
/// merges.
pub open spec fn kind_of(model: Tree) -> Result<ModelType, Seq<char>> {
    match text_of(model.field("type"@)) {
        Some(s) => if s == "Unigram"@ {
            Ok(ModelType::Unigram)
        } else if s == "BPE"@ {
            Ok(ModelType::Bpe)
        } else {
            Err("unsupported tokenizer model type "@ + s)
        },
        None => if model.field("merges"@) is Some {
            Ok(ModelType::Bpe)
        } else {
            Ok(ModelType::Unigram)
        },
    }
}

// --- Unigram vocabulary -----------------------------------------------------------------

/// Entry: `[piece, score]`.
pub open spec fn entry_piece(entry: Tree) -> Option<Seq<char>> {
    text_of(entry.element(0))
}

pub open spec fn entry_score(entry: Tree) -> F64 {
    match entry.element(1) {
        Some(t) => match t.number() {
            Some(x) => x,
            None => F64(0),
        },
        None => F64(0),
    }
}

/// The first `n` entries; an entry's id is its place.
pub open spec fn unigram_vocab(items: Seq<Tree>, n: nat) -> Vocab
    decreases n,
{
    if n == 0 {
        Vocab::empty()
    } else {
        unigram_vocab(items, (n - 1) as nat).with((n - 1) as usize as u32, entry_piece(items[n - 1])->0)
    }
}

// --- BPE vocabulary and merges -----------------------------------------------------------

/// The first `n` fields, `piece: id`.
pub open spec fn bpe_vocab(fields: Seq<(Seq<char>, Tree)>, n: nat) -> Vocab
    decreases n,
{
    if n == 0 {
        Vocab::empty()
    } else {
        bpe_vocab(fields, (n - 1) as nat).with(fields[n - 1].1.count()->0 as u32, fields[n - 1].0)
    }
}

/// Place of the first space, or the length.
pub open spec fn first_space(s: Seq<char>) -> nat
    decreases s.len(),
{
    if s.len() == 0 || s[0] == ' ' {
        0
    } else {
        1 + first_space(s.drop_first())
    }
}

/// The two symbols of a merge, written `"a b"` or `["a", "b"]`.
pub open spec fn merge_pair(m: Tree) -> Option<(Seq<char>, Seq<char>)> {
    match m {
        Tree::Array(ab) => Some(
            (
                match ab[0].text() {
                    Some(s) => s,
                    None => Seq::empty(),
                },
                match ab[1].text() {
                    Some(s) => s,
                    None => Seq::empty(),
                },
            ),
        ),
        Tree::Text(s) => {
            let p = first_space(s);
            Some(
                (
                    s.take(p as int),
                    if p < s.len() {
                        s.skip(p as int + 1)
                    } else {
                        Seq::empty()
                    },
                ),
            )
        },
        _ => None,
    }
}

/// Ranks of the first `n` merges; a merge's rank is its place.
pub open spec fn merge_ranks(items: Seq<Tree>, n: nat) -> Map<(Seq<char>, Seq<char>), nat>
    decreases n,
{
    if n == 0 {
        Map::empty()
    } else {
        let before = merge_ranks(items, (n - 1) as nat);
        match merge_pair(items[n - 1]) {
            Some(p) => before.insert(p, (n - 1) as nat),
            None => before,
        }
    }
}

/// The merges of a model.
pub open spec fn merges_of(model: Tree) -> Seq<Tree> {
    match model.field("merges"@) {
        Some(t) => match t.items() {
            Some(v) => v,
            None => Seq::empty(),
        },
        None => Seq::empty(),
    }
}

/// A merge written as an array names both symbols.
pub open spec fn merges_are_complete(doc: Tree) -> bool {
    let items = merges_of(model_of(doc));
    forall|i: int| 0 <= i < items.len() ==> ((#[trigger] items[i]) matches Tree::Array(ab) ==> ab.len() >= 2)
}

// --- added tokens ------------------------------------------------------------------------

/// Content and id of an added token that has both.
pub open spec fn added_token(a: Tree) -> Option<(Seq<char>, u32)> {
    match (text_of(a.field("content"@)), count_of(a.field("id"@))) {
        (Some(content), Some(id)) => Some((content, id as u32)),
        _ => None,
    }
}

/// The added tokens of a document.
pub open spec fn added_of(doc: Tree) -> Seq<Tree> {
    match doc.field("added_tokens"@) {
        Some(t) => match t.items() {
            Some(v) => v,
            None => Seq::empty(),
        },
        None => Seq::empty(),
    }
}

/// Special tokens among the first `n` added ones.
pub open spec fn specials_of(items: Seq<Tree>, n: nat) -> Map<Seq<char>, u32>
    decreases n,
{
    if n == 0 {
        Map::empty()
    } else {
        let before = specials_of(items, (n - 1) as nat);
        match added_token(items[n - 1]) {
            Some((content, id)) => before.insert(content, id),
            None => before,
        }
    }
}

/// A vocabulary with the first `n` added tokens.
pub open spec fn vocab_with_added(vocab: Vocab, items: Seq<Tree>, n: nat) -> Vocab
    decreases n,
{
    if n == 0 {
        vocab
    } else {
        let before = vocab_with_added(vocab, items, (n - 1) as nat);
        match added_token(items[n - 1]) {
            Some((content, id)) => before.with_added(id, content),
            None => before,
        }
    }
}

// --- the whole document --------------------------------------------------------------------

/// The part of a tokenizer that its model type decides.
pub struct Core {
    pub vocab: Vocab,
    pub scores: Seq<F64>,
    pub merges: Map<(Seq<char>, Seq<char>), nat>,
    pub unk_id: u32,
}

pub open spec fn unigram_core(model: Tree) -> Result<Core, Seq<char>> {
    match model.field("vocab"@) {
        Some(t) => match t.items() {
            Some(items) => if forall|i: int| 0 <= i < items.len() ==> entry_piece(#[trigger] items[i]) is Some {
                Ok(
                    Core {
                        vocab: unigram_vocab(items, items.len()),
                        scores: items.map_values(|e: Tree| entry_score(e)),
                        merges: Map::empty(),
                        unk_id: match count_of(model.field("unk_id"@)) {
                            Some(n) => n as u32,
                            None => 0,
                        },
                    },
                )
            } else {
                Err("bad vocab entry"@)
            },
            None => Err("Unigram vocab missing"@),
        },
        None => Err("Unigram vocab missing"@),
    }
}

pub open spec fn bpe_core(model: Tree) -> Result<Core, Seq<char>> {
    match model.field("vocab"@) {
        Some(t) => match t.fields() {
            Some(fields) => if forall|i: int|
                0 <= i < fields.len() ==> (#[trigger] fields[i]).1.count() is Some {
                let vocab = bpe_vocab(fields, fields.len());
                Ok(
                    Core {
                        vocab,
                        scores: Seq::empty(),
                        merges: merge_ranks(merges_of(model), merges_of(model).len()),
                        unk_id: match text_of(model.field("unk_token"@)) {
                            Some(u) => if vocab.ids.contains_key(u) {
                                vocab.ids[u]
                            } else {
                                0
                            },
                            None => 0,
                        },
                    },
                )
            } else {
                Err("bad BPE id"@)
            },
            None => Err("BPE vocab missing"@),
        },
        None => Err("BPE vocab missing"@),
    }
}

pub open spec fn core_of(model: Tree, kind: ModelType) -> Result<Core, Seq<char>> {
    match kind {
        ModelType::Unigram => unigram_core(model),
        ModelType::Bpe => bpe_core(model),
    }
}

/// A tokenizer's lexicon: the model's vocabulary, then the added tokens; given
/// begin and end ids win over `<bos>` and `<eos>` of the vocabulary.
pub open spec fn finished(
    doc: Tree,
    kind: ModelType,
    core: Core,
    bos: Option<u32>,
    eos: Option<Seq<u32>>,
) -> Lexicon {
    let added = added_of(doc);
    let vocab = vocab_with_added(core.vocab, added, added.len());
    Lexicon {
        kind,
        pieces: vocab.pieces,
        ids: vocab.ids,
        scores: core.scores,
        merges: core.merges,
        unk_id: core.unk_id,
        byte_fallback: match model_of(doc).field("byte_fallback"@) {
            Some(t) => match t.flag() {
                Some(b) => b,
                None => false,
            },
            None => false,
        },
        specials: specials_of(added, added.len()),
        bos: match bos {
            Some(b) => Some(b),
            None => if vocab.ids.contains_key("<bos>"@) {
                Some(vocab.ids["<bos>"@])
            } else {
                None
            },
        },
        eos: match eos {
            Some(e) => e,
            None => if vocab.ids.contains_key("<eos>"@) {
                seq![vocab.ids["<eos>"@]]
            } else {
                Seq::empty()
            },
        },
    }
}

/// The lexicon of a document, or what is wrong with it.
pub open spec fn lexicon_of(doc: Tree, bos: Option<u32>, eos: Option<Seq<u32>>) -> Result<Lexicon, Seq<char>> {
    match kind_of(model_of(doc)) {
        Err(e) => Err(e),
        Ok(kind) => match core_of(model_of(doc), kind) {
            Err(e) => Err(e),
            Ok(core) => Ok(finished(doc, kind, core, bos, eos)),
        },
    }
}

// --- building --------------------------------------------------------------------------------

/// The texts of stored pieces.
spec fn piece_texts(v: Seq<Option<String>>) -> Seq<Option<Seq<char>>> {
    v.map_values(|p: Option<String>| super::piece_text(p))
}

/// A vocabulary under construction.
struct Builder {
    pieces: Vec<Option<String>>,
    ids: StringHashMap<u32>,
    longest: usize,
}

impl Builder {
    spec fn vocab(self) -> Vocab {
        Vocab { pieces: piece_texts(self.pieces@), ids: self.ids@ }
    }

    spec fn wf(self) -> bool {
        &&& self.longest >= 1
        &&& forall|k: Seq<char>| #[trigger] self.ids@.contains_key(k) ==> k.len() <= self.longest
    }

    fn new() -> (r: Builder)
        ensures
            r.wf(),
            r.vocab() == Vocab::empty(),
    {
        let r = Builder { pieces: Vec::new(), ids: StringHashMap::new(), longest: 1 };
        proof {
            assert(r.vocab().pieces =~= Seq::empty());
        }
        r
    }

    fn set_piece(&mut self, id: u32, piece: &str)
        requires
            old(self).wf(),
        ensures
            final(self).wf(),
            final(self).ids@ == old(self).ids@,
            piece_texts(final(self).pieces@) == piece_set(piece_texts(old(self).pieces@), id, piece@),
    {
        let ghost before = piece_texts(self.pieces@);
        let i: usize = id as usize;
        if i < self.pieces.len() {
            self.pieces.set(i, Some(piece.to_owned()));
        } else {
            while self.pieces.len() < i
                invariant
                    self.wf(),
                    self.ids@ == old(self).ids@,
                    before.len() <= self.pieces@.len() <= i,
                    piece_texts(self.pieces@) == before + Seq::new(
                        (self.pieces@.len() - before.len()) as nat,
                        |k: int| None,
                    ),
                decreases i - self.pieces@.len(),
            {
                let ghost was = piece_texts(self.pieces@);
                self.pieces.push(None);
                proof {
                    assert(piece_texts(self.pieces@) =~= was.push(None));
                    assert(piece_texts(self.pieces@) =~= before + Seq::new(
                        (self.pieces@.len() - before.len()) as nat,
                        |k: int| None,
                    ));
                }
            }
            self.pieces.push(Some(piece.to_owned()));
        }
        proof {
            assert(piece_texts(self.pieces@) =~= piece_set(before, id, piece@));
        }
    }

    fn set_id(&mut self, id: u32, piece: &str)
        requires
            old(self).wf(),
        ensures
            final(self).wf(),
            final(self).pieces@ == old(self).pieces@,
            final(self).ids@ == old(self).ids@.insert(piece@, id),
    {
        let len: usize = chars_of(piece).len();
        if len > self.longest {
            self.longest = len;
        }
        self.ids.insert(piece.to_owned(), id);
    }

    /// A vocabulary entry.
    fn add(&mut self, id: u32, piece: &str)
        requires
            old(self).wf(),
        ensures
            final(self).wf(),
            final(self).vocab() == old(self).vocab().with(id, piece@),
    {
        self.set_piece(id, piece);
        self.set_id(id, piece);
    }

    /// An added token.
    fn add_added(&mut self, id: u32, content: &str)
        requires
            old(self).wf(),
        ensures
            final(self).wf(),
            final(self).vocab() == old(self).vocab().with_added(id, content@),
    {
        let i: usize = id as usize;
        let taken = i < self.pieces.len() && self.pieces[i].is_some();
        proof {
            if i < self.pieces@.len() {
                assert(piece_texts(self.pieces@)[i as int] == super::piece_text(self.pieces@[i as int]));
            }
        }
        if !taken {
            self.set_piece(id, content);
        }
        self.set_id(id, content);
    }
}

/// A core under construction.
struct Parts {
    builder: Builder,
    scores: Vec<F64>,
    merges: Merges,
    unk_id: u32,
}

impl Parts {
    spec fn wf(self) -> bool {
        self.builder.wf() && self.merges.wf()
    }

    spec fn basis(self) -> Core {
        Core {
            vocab: self.builder.vocab(),
            scores: self.scores@,
            merges: self.merges.ranks(),
            unk_id: self.unk_id,
        }
    }
}

/// An error text.
fn failure(s: &str) -> (r: Result<Parts, String>)
    ensures
        r is Err,
        r->Err_0@ == s@,
{
    Err(s.to_owned())
}

fn count_field(j: &Json, key: &str) -> (r: Option<u64>)
    ensures
        r == count_of(j@.field(key@)),
{
    match j.get(key) {
        Some(v) => v.as_u64(),
        None => None,
    }
}

fn text_field<'a>(j: &'a Json, key: &str) -> (r: Option<&'a str>)
    ensures
        r is Some <==> text_of(j@.field(key@)) is Some,
        r matches Some(s) ==> s@ == text_of(j@.field(key@))->0,
{
    match j.get(key) {
        Some(v) => v.as_str(),
        None => None,
    }
}

fn load_unigram(model: &Json) -> (r: Result<Parts, String>)
    ensures
        r matches Ok(p) ==> p.wf() && unigram_core(model@) == Ok::<Core, Seq<char>>(p.basis()),
        r matches Err(e) ==> unigram_core(model@) == Err::<Core, Seq<char>>(e@),
{
    let vocab = match model.get("vocab") {
        Some(v) => match v.as_array() {
            Some(a) => a,
            None => {
                return failure("Unigram vocab missing");
            },
        },
        None => {
            return failure("Unigram vocab missing");
        },
    };
    let ghost items = vocab@.map_values(|j: Json| j@);
    let mut builder = Builder::new();
    let mut scores: Vec<F64> = Vec::new();
    let mut i: usize = 0;
    while i < vocab.len()
        invariant
            items == vocab@.map_values(|j: Json| j@),
            unigram_core(model@) is Ok <==> forall|k: int| 0 <= k < items.len() ==> entry_piece(#[trigger] items[k]) is Some,
            unigram_core(model@) is Err ==> unigram_core(model@)->Err_0 == "bad vocab entry"@,
            i <= vocab@.len(),
            builder.wf(),
            builder.vocab() == unigram_vocab(items, i as nat),
            scores@.len() == i,
            forall|k: int| 0 <= k < i ==> entry_piece(#[trigger] items[k]) is Some,
            forall|k: int| 0 <= k < i ==> #[trigger] scores@[k] == entry_score(items[k]),
        decreases vocab@.len() - i,
    {
        let entry = &vocab[i];
        proof {
            assert(items[i as int] == entry@);
        }
        let piece = match entry.at(0) {
            Some(p) => match p.as_str() {
                Some(s) => s,
                None => {
                    return failure("bad vocab entry");
                },
            },
            None => {
                return failure("bad vocab entry");
            },
        };
        let score = match entry.at(1) {
            Some(x) => match x.as_f64() {
                Some(f) => f,
                None => F64(0),
            },
            None => F64(0),
        };
        builder.add(i as u32, piece);
        scores.push(score);
        i = i + 1;
    }
    let unk_id = match count_field(model, "unk_id") {
        Some(n) => n as u32,
        None => 0,
    };
    let parts = Parts { builder, scores, merges: Merges::new(), unk_id };
    proof {
        assert(parts.basis().scores =~= items.map_values(|e: Tree| entry_score(e)));
    }
    Ok(parts)
}

/// The symbols of one merge.
fn read_merge(m: &Json) -> (r: Option<(String, String)>)
    requires
        m@ matches Tree::Array(ab) ==> ab.len() >= 2,
    ensures
        r is Some <==> merge_pair(m@) is Some,
        r matches Some((a, b)) ==> merge_pair(m@)->0 == (a@, b@),
{
    match m {
        Json::Array(ab) => {
            let a = match ab[0].as_str() {
                Some(s) => s.to_owned(),
                None => String::new(),
            };
            let b = match ab[1].as_str() {
                Some(s) => s.to_owned(),
                None => String::new(),
            };
            Some((a, b))
        },
        Json::Text(s) => {
            let cs = chars_of(s.as_str());
            let mut p: usize = 0;
            proof {
                assert(s@.skip(0) =~= s@);
            }
            while p < cs.len() && cs[p] != ' '
                invariant
                    cs@ == s@,
                    p <= cs@.len(),
                    first_space(s@) == p + first_space(s@.skip(p as int)),
                decreases cs@.len() - p,
            {
                proof {
                    assert(s@.skip(p as int).drop_first() =~= s@.skip(p + 1));
                }
                p = p + 1;
            }
            proof {
                assert(first_space(s@) == p);
                assert(s@.take(p as int) =~= s@.subrange(0, p as int));
            }
            let a = text_between(cs.as_slice(), 0, p);
            let b = if p < cs.len() {
                proof {
                    assert(s@.skip(p + 1) =~= s@.subrange(p + 1, s@.len() as int));
                }
                text_between(cs.as_slice(), p + 1, cs.len())
            } else {
                String::new()
            };
            Some((a, b))
        },
        _ => None,
    }
}

fn load_merges(model: &Json) -> (r: Merges)
    requires
        forall|i: int|
            0 <= i < merges_of(model@).len() ==> ((#[trigger] merges_of(model@)[i]) matches Tree::Array(ab) ==> ab.len()
                >= 2),
    ensures
        r.wf(),
        r.ranks() == merge_ranks(merges_of(model@), merges_of(model@).len()),
{
    let mut merges = Merges::new();
    let ghost items = merges_of(model@);
    if let Some(t) = model.get("merges") {
        if let Some(ms) = t.as_array() {
            let mut i: usize = 0;
            while i < ms.len()
                invariant
                    items == ms@.map_values(|j: Json| j@),
                    forall|k: int|
                        0 <= k < items.len() ==> ((#[trigger] items[k]) matches Tree::Array(ab) ==> ab.len() >= 2),
                    i <= ms@.len(),
                    merges.wf(),
                    merges.ranks() == merge_ranks(items, i as nat),
                decreases ms@.len() - i,
            {
                proof {
                    assert(items[i as int] == ms@[i as int]@);
                }
                if let Some((a, b)) = read_merge(&ms[i]) {
                    merges.insert(a, b, i);
                }
                i = i + 1;
            }
        }
    }
    merges
}

fn load_bpe(model: &Json) -> (r: Result<Parts, String>)
    requires
        bpe_core(model@) is Ok ==> forall|i: int|
            0 <= i < merges_of(model@).len() ==> ((#[trigger] merges_of(model@)[i]) matches Tree::Array(ab) ==> ab.len()
                >= 2),
    ensures
        r matches Ok(p) ==> p.wf() && bpe_core(model@) == Ok::<Core, Seq<char>>(p.basis()),
        r matches Err(e) ==> bpe_core(model@) == Err::<Core, Seq<char>>(e@),
{
    let vocab = match model.get("vocab") {
        Some(v) => match v.as_object() {
            Some(a) => a,
            None => {
                return failure("BPE vocab missing");
            },
        },
        None => {
            return failure("BPE vocab missing");
        },
    };
    let ghost fields = vocab@.map_values(|e: (String, Json)| (e.0@, e.1@));
    let mut builder = Builder::new();
    let mut i: usize = 0;
    while i < vocab.len()
        invariant
            fields == vocab@.map_values(|e: (String, Json)| (e.0@, e.1@)),
            bpe_core(model@) is Ok <==> forall|k: int| 0 <= k < fields.len() ==> (#[trigger] fields[k]).1.count() is Some,
            bpe_core(model@) is Err ==> bpe_core(model@)->Err_0 == "bad BPE id"@,
            i <= vocab@.len(),
            builder.wf(),
            builder.vocab() == bpe_vocab(fields, i as nat),
            forall|k: int| 0 <= k < i ==> (#[trigger] fields[k]).1.count() is Some,
        decreases vocab@.len() - i,
    {
        proof {
            assert(fields[i as int] == (vocab@[i as int].0@, vocab@[i as int].1@));
        }
        match vocab[i].1.as_u64() {
            Some(id) => {
                builder.add(id as u32, vocab[i].0.as_str());
            },
            None => {
                return failure("bad BPE id");
            },
        }
        i = i + 1;
    }
    let merges = load_merges(model);
    let unk_id = match text_field(model, "unk_token") {
        Some(u) => match builder.ids.get(u) {
            Some(id) => *id,
            None => 0,
        },
        None => 0,
    };
    Ok(Parts { builder, scores: Vec::new(), merges, unk_id })
}

/// Special tokens under construction.
struct Specials {
    map: StringHashMap<u32>,
    by_len: Vec<Vec<char>>,
}

impl Specials {
    spec fn wf(self) -> bool {
        &&& forall|k: Seq<char>| #[trigger] self.map@.contains_key(k) <==> super::is_listed(self.by_len@, k)
        &&& forall|i: int, j: int|
            #![trigger self.by_len@[i], self.by_len@[j]]
            0 <= i <= j < self.by_len@.len() ==> self.by_len@[i]@.len() >= self.by_len@[j]@.len()
    }

    fn add(&mut self, content: &str, id: u32)
        requires
            old(self).wf(),
        ensures
            final(self).wf(),
            final(self).map@ == old(self).map@.insert(content@, id),
    {
        if !self.map.contains_key(content) {
            let cs = chars_of(content);
            let mut p: usize = 0;
            while p < self.by_len.len() && self.by_len[p].len() >= cs.len()
                invariant
                    p <= self.by_len@.len(),
                    forall|i: int| 0 <= i < p ==> (#[trigger] self.by_len@[i])@.len() >= cs@.len(),
                decreases self.by_len@.len() - p,
            {
                p = p + 1;
            }
            let ghost before = self.by_len@;
            self.by_len.insert(p, cs);
            proof {
                let after = self.by_len@;
                assert forall|i: int, j: int|
                    #![trigger after[i], after[j]]
                    0 <= i <= j < after.len() implies after[i]@.len() >= after[j]@.len() by {
                    let bi = if i < p { i } else { i - 1 };
                    let bj = if j < p { j } else { j - 1 };
                    if i != p {
                        assert(after[i] == before[bi]);
                    }
                    if j != p {
                        assert(after[j] == before[bj]);
                    }
                    if i != p && j != p {
                        assert(before[bi]@.len() >= before[bj]@.len());
                    } else if i == p && j != p {
                        assert(before[p as int]@.len() < cs@.len());
                        assert(before[p as int]@.len() >= before[bj]@.len());
                    }
                }
                assert forall|k: Seq<char>| #![trigger super::is_listed(after, k)] super::is_listed(after, k) <==> (k
                    == content@ || super::is_listed(before, k)) by {
                    if k == content@ {
                        assert(after[p as int]@ == k);
                    }
                    if super::is_listed(before, k) {
                        let i = choose|i: int| 0 <= i < before.len() && (#[trigger] before[i])@ == k;
                        let ai = if i < p { i } else { i + 1 };
                        assert(after[ai] == before[i]);
                    }
                    if super::is_listed(after, k) {
                        let i = choose|i: int| 0 <= i < after.len() && (#[trigger] after[i])@ == k;
                        if i != p {
                            let bi = if i < p { i } else { i - 1 };
                            assert(after[i] == before[bi]);
                        }
                    }
                }
            }
        }
        self.map.insert(content.to_owned(), id);
    }
}

/// The added tokens, into the vocabulary and by themselves.
fn load_added(json: &Json, builder: &mut Builder) -> (r: Specials)
    requires
        old(builder).wf(),
    ensures
        final(builder).wf(),
        final(builder).vocab() == vocab_with_added(old(builder).vocab(), added_of(json@), added_of(json@).len()),
        r.wf(),
        r.map@ == specials_of(added_of(json@), added_of(json@).len()),
{
    let ghost items = added_of(json@);
    let ghost start = builder.vocab();
    let mut specials = Specials { map: StringHashMap::new(), by_len: Vec::new() };
    if let Some(t) = json.get("added_tokens") {
        if let Some(added) = t.as_array() {
            let mut i: usize = 0;
            while i < added.len()
                invariant
                    items == added@.map_values(|j: Json| j@),
                    i <= added@.len(),
                    builder.wf(),
                    builder.vocab() == vocab_with_added(start, items, i as nat),
                    specials.wf(),
                    specials.map@ == specials_of(items, i as nat),
                decreases added@.len() - i,
            {
                let a = &added[i];
                proof {
                    assert(items[i as int] == a@);
                }
                if let Some(content) = text_field(a, "content") {
                    if let Some(id) = count_field(a, "id") {
                        specials.add(content, id as u32);
                        builder.add_added(id as u32, content);
                    }
                }
                i = i + 1;
            }
        }
    }
    specials
}

/// Whether every merge written as an array names both symbols.
pub fn has_complete_merges(json: &Json) -> (r: bool)
    ensures
        r == merges_are_complete(json@),
{
    let model = match json.get("model") {
        Some(m) => m,
        None => {
            return true;
        },
    };
    if let Some(t) = model.get("merges") {
        if let Some(ms) = t.as_array() {
            let ghost items = ms@.map_values(|j: Json| j@);
            let mut i: usize = 0;
            while i < ms.len()
                invariant
                    items == ms@.map_values(|j: Json| j@),
                    items == merges_of(model_of(json@)),
                    i <= ms@.len(),
                    forall|k: int| 0 <= k < i ==> ((#[trigger] items[k]) matches Tree::Array(ab) ==> ab.len() >= 2),
                decreases ms@.len() - i,
            {
                proof {
                    assert(items[i as int] == ms@[i as int]@);
                }
                if let Json::Array(ab) = &ms[i] {
                    if ab.len() < 2 {
                        proof {
                            assert(items[i as int]->Array_0.len() < 2);
                        }
                        return false;
                    }
                }
                i = i + 1;
            }
        }
    }
    true
}

/// Whether the merges of a document, where they count, are complete: a Unigram
/// model has none, and a BPE model whose vocabulary is refused needs none.
pub open spec fn merges_suffice(doc: Tree) -> bool {
    kind_of(model_of(doc)) == Ok::<ModelType, Seq<char>>(ModelType::Bpe) && bpe_core(model_of(doc)) is Ok
        ==> merges_are_complete(doc)
}

/// The declared model type.
fn read_kind(model: &Json) -> (r: Result<ModelType, String>)
    ensures
        r matches Ok(k) ==> kind_of(model@) == Ok::<ModelType, Seq<char>>(k),
        r matches Err(e) ==> kind_of(model@) == Err::<ModelType, Seq<char>>(e@),
{
    match text_field(model, "type") {
        Some(s) => {
            if same_text(s, "Unigram") {
                Ok(ModelType::Unigram)
            } else if same_text(s, "BPE") {
                Ok(ModelType::Bpe)
            } else {
                let mut e = "unsupported tokenizer model type ".to_owned();
                e.append(s);
                Err(e)
            }
        },
        None => {
            if model.get("merges").is_some() {
                Ok(ModelType::Bpe)
            } else {
                Ok(ModelType::Unigram)
            }
        },
    }
}

/// Whether the vocabulary of a BPE model can be read.
fn has_bpe_vocab(model: &Json) -> (r: bool)
    ensures
        r == (bpe_core(model@) is Ok),
{
    if let Some(v) = model.get("vocab") {
        if let Some(vocab) = v.as_object() {
            let ghost fields = vocab@.map_values(|e: (String, Json)| (e.0@, e.1@));
            let mut i: usize = 0;
            while i < vocab.len()
                invariant
                    fields == vocab@.map_values(|e: (String, Json)| (e.0@, e.1@)),
                    bpe_core(model@) is Ok <==> forall|k: int|
                        0 <= k < fields.len() ==> (#[trigger] fields[k]).1.count() is Some,
                    i <= vocab@.len(),
                    forall|k: int| 0 <= k < i ==> (#[trigger] fields[k]).1.count() is Some,
                decreases vocab@.len() - i,
            {
                proof {
                    assert(fields[i as int] == (vocab@[i as int].0@, vocab@[i as int].1@));
                }
                if vocab[i].1.as_u64().is_none() {
                    return false;
                }
                i = i + 1;
            }
            return true;
        }
    }
    false
}

/// Whether a tokenizer can be read from a document, or is refused with an
/// error.
pub fn can_be_read(json: &Json) -> (r: bool)
    ensures
        r == merges_suffice(json@),
{
    let null = Json::Null;
    let model: &Json = match json.get("model") {
        Some(m) => m,
        None => &null,
    };
    proof {
        assert(model@ == model_of(json@));
    }
    match read_kind(model) {
        Ok(ModelType::Bpe) => !has_bpe_vocab(model) || has_complete_merges(json),
        _ => true,
    }
}

/// Given ids as a sequence.
pub open spec fn given(eos: Option<&[u32]>) -> Option<Seq<u32>> {
    match eos {
        Some(e) => Some(e@),
        None => None,
    }
}

impl Tokenizer {
    /// Build from a parsed `tokenizer.json`. `bos_token_id` and `eos_token_ids`
    /// win over the vocabulary's `<bos>` and `<eos>` where they are given.
    pub fn from_json(json: &Json, bos_token_id: Option<u32>, eos_token_ids: Option<&[u32]>) -> (r: Result<
        Tokenizer,
        String,
    >)
        requires
            merges_suffice(json@),
        ensures
            r matches Ok(t) ==> t.wf() && lexicon_of(json@, bos_token_id, given(eos_token_ids)) == Ok::<
                Lexicon,
                Seq<char>,
            >(t.lexicon()),
            r matches Err(e) ==> lexicon_of(json@, bos_token_id, given(eos_token_ids)) == Err::<Lexicon, Seq<char>>(e@),
    {
        let null = Json::Null;
        let model: &Json = match json.get("model") {
            Some(m) => m,
            None => &null,
        };
        proof {
            assert(model@ == model_of(json@));
        }
        let model_type = match read_kind(model) {
            Ok(k) => k,
            Err(e) => {
                return Err(e);
            },
        };
        let loaded = match model_type {
            ModelType::Unigram => load_unigram(model),
            ModelType::Bpe => load_bpe(model),
        };
        let mut parts = match loaded {
            Ok(p) => p,
            Err(e) => {
                return Err(e);
            },
        };
        let ghost basis = parts.basis();
        let byte_fallback = match model.get("byte_fallback") {
            Some(b) => match b.as_bool() {
                Some(f) => f,
                None => false,
            },
            None => false,
        };
        let specials = load_added(json, &mut parts.builder);
        let bos_id = match bos_token_id {
            Some(b) => Some(b),
            None => match parts.builder.ids.get("<bos>") {
                Some(id) => Some(*id),
                None => None,
            },
        };
        let mut eos_ids: Vec<u32> = Vec::new();
        match eos_token_ids {
            Some(e) => {
                let mut i: usize = 0;
                while i < e.len()
                    invariant
                        i <= e@.len(),
                        eos_ids@ == e@.take(i as int),
                    decreases e@.len() - i,
                {
                    eos_ids.push(e[i]);
                    proof {
                        assert(eos_ids@ =~= e@.take(i + 1));
                    }
                    i = i + 1;
                }
                proof {
                    assert(e@.take(i as int) =~= e@);
                }
            },
            None => {
                if let Some(id) = parts.builder.ids.get("<eos>") {
                    eos_ids.push(*id);
                }
            },
        }
        let t = Tokenizer {
            model_type,
            id_to_piece: parts.builder.pieces,
            piece_to_id: parts.builder.ids,
            scores: parts.scores,
            merges: parts.merges,
            unk_id: parts.unk_id,
            byte_fallback,
            specials: specials.map,
            specials_by_len: specials.by_len,
            bos_id,
            eos_ids,
            max_piece_chars: parts.builder.longest,
        };
        proof {
            let l = finished(json@, model_type, basis, bos_token_id, given(eos_token_ids));
            assert(t.lexicon().eos =~= l.eos);
            assert(t.lexicon() == l);
        }
        Ok(t)
    }
}

} // verus!
