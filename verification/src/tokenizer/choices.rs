//! Which merge, which special token and which pieces are chosen.
use vstd::prelude::*;

use super::Lexicon;
use super::Tokenizer;
use super::METASPACE;
use crate::float::F64;

verus! {

// --- merges --------------------------------------------------------------------------------------

/// Whether symbol `p` and the one after it are listed as a merge.
pub open spec fn is_listed(merges: Map<(Seq<char>, Seq<char>), nat>, s: Seq<Seq<char>>, p: int) -> bool {
    0 <= p < s.len() - 1 && merges.contains_key((s[p], s[p + 1]))
}

/// The merge listed first is carried out first, and of equal ones the leftmost:
/// symbols with a known pair become what they become once the pair of the lowest
/// rank is one symbol.
pub proof fn lowest_rank_is_merged_first(merges: Map<(Seq<char>, Seq<char>), nat>, s: Seq<Seq<char>>, p: int)
    requires
        is_listed(merges, s, p),
        forall|q: int| #[trigger]
            is_listed(merges, s, q) ==> merges[(s[p], s[p + 1])] < merges[(s[q], s[q + 1])] || (merges[(s[p], s[p + 1])]
                == merges[(s[q], s[q + 1])] && p <= q),
    ensures
        super::bpe::fully_merged(merges, s) == super::bpe::fully_merged(
            merges,
            s.take(p) + seq![s[p] + s[p + 1]] + s.skip(p + 2),
        ),
{
    assert(super::bpe::is_pair(merges, s, p));
    assert forall|q: int| #[trigger] super::bpe::is_pair(merges, s, q) implies super::bpe::pair_rank(merges, s, p)
        < super::bpe::pair_rank(merges, s, q) || (super::bpe::pair_rank(merges, s, p) == super::bpe::pair_rank(merges, s, q) && p
        <= q) by {
        assert(is_listed(merges, s, q));
    }
    assert(super::bpe::is_next_pair(merges, s, p));
    let c = choose|c: int| super::bpe::is_next_pair(merges, s, c);
    assert(super::bpe::is_next_pair(merges, s, c));
    assert(super::bpe::is_pair(merges, s, c));
    assert(c == p);
    assert(super::bpe::merged_at(s, p) =~= s.take(p) + seq![s[p] + s[p + 1]] + s.skip(p + 2));
}

/// Merging goes on until no known pair stands in the symbols, and changes
/// nothing where none does. The symbols make up the same text throughout.
pub proof fn merging_leaves_no_pair(merges: Map<(Seq<char>, Seq<char>), nat>, s: Seq<Seq<char>>)
    ensures
        ({
            let r = super::bpe::fully_merged(merges, s);
            &&& forall|p: int| !#[trigger] is_listed(merges, r, p)
            &&& (forall|p: int| !#[trigger] is_listed(merges, s, p)) ==> r == s
            &&& super::roundtrip::joined(r) == super::roundtrip::joined(s)
        }),
    decreases s.len(),
{
    super::roundtrip::lemma_merged(merges, s);
    if exists|p: int| super::bpe::is_pair(merges, s, p) {
        let w = choose|p: int| super::bpe::is_pair(merges, s, p);
        assert(w < s.len());
        let p = lemma_lowest(merges, s, s.len() as int);
        assert(super::bpe::is_next_pair(merges, s, p));
        let c = choose|c: int| super::bpe::is_next_pair(merges, s, c);
        assert(super::bpe::is_next_pair(merges, s, c) && super::bpe::is_pair(merges, s, c));
        assert(is_listed(merges, s, c));
        merging_leaves_no_pair(merges, super::bpe::merged_at(s, c));
        assert(super::bpe::fully_merged(merges, s) == super::bpe::fully_merged(merges, super::bpe::merged_at(s, c)));
    } else {
        assert forall|p: int| !#[trigger] is_listed(merges, s, p) by {
            assert(!super::bpe::is_pair(merges, s, p));
        }
        if exists|p: int| super::bpe::is_next_pair(merges, s, p) {
            let p = choose|p: int| super::bpe::is_next_pair(merges, s, p);
            assert(super::bpe::is_pair(merges, s, p));
        }
        assert(super::bpe::fully_merged(merges, s) == s);
    }
}

/// The leftmost pair of the lowest rank, of those before `n`.
proof fn lemma_lowest(merges: Map<(Seq<char>, Seq<char>), nat>, s: Seq<Seq<char>>, n: int) -> (p: int)
    requires
        exists|q: int| super::bpe::is_pair(merges, s, q) && q < n,
        0 <= n,
    ensures
        super::bpe::is_pair(merges, s, p),
        p < n,
        forall|q: int| #[trigger]
            super::bpe::is_pair(merges, s, q) && q < n ==> super::bpe::pair_rank(merges, s, p) < super::bpe::pair_rank(
                merges,
                s,
                q,
            ) || (super::bpe::pair_rank(merges, s, p) == super::bpe::pair_rank(merges, s, q) && p <= q),
    decreases n,
{
    let w = choose|q: int| super::bpe::is_pair(merges, s, q) && q < n;
    if exists|q: int| super::bpe::is_pair(merges, s, q) && q < n - 1 {
        let p = lemma_lowest(merges, s, n - 1);
        if super::bpe::is_pair(merges, s, n - 1) && super::bpe::pair_rank(merges, s, n - 1) < super::bpe::pair_rank(
            merges,
            s,
            p,
        ) {
            n - 1
        } else {
            p
        }
    } else {
        w
    }
}

/// Where both pairs of three symbols side by side are known and no other pair
/// is, the one of lower rank is merged: the first, if it is no higher.
pub proof fn of_two_pairs_the_lower_is_merged(
    merges: Map<(Seq<char>, Seq<char>), nat>,
    s: Seq<Seq<char>>,
    p: int,
)
    requires
        is_listed(merges, s, p),
        is_listed(merges, s, p + 1),
        forall|q: int| #[trigger] is_listed(merges, s, q) ==> q == p || q == p + 1,
    ensures
        merges[(s[p], s[p + 1])] <= merges[(s[p + 1], s[p + 2])] ==> super::bpe::fully_merged(merges, s)
            == super::bpe::fully_merged(merges, s.take(p) + seq![s[p] + s[p + 1], s[p + 2]] + s.skip(p + 3)),
        merges[(s[p], s[p + 1])] > merges[(s[p + 1], s[p + 2])] ==> super::bpe::fully_merged(merges, s)
            == super::bpe::fully_merged(merges, s.take(p) + seq![s[p], s[p + 1] + s[p + 2]] + s.skip(p + 3)),
{
    if merges[(s[p], s[p + 1])] <= merges[(s[p + 1], s[p + 2])] {
        lowest_rank_is_merged_first(merges, s, p);
        assert(s.take(p) + seq![s[p] + s[p + 1]] + s.skip(p + 2) =~= s.take(p) + seq![s[p] + s[p + 1], s[p + 2]] + s.skip(
            p + 3,
        ));
    } else {
        lowest_rank_is_merged_first(merges, s, p + 1);
        assert(s.take(p + 1) + seq![s[p + 1] + s[p + 2]] + s.skip(p + 3) =~= s.take(p) + seq![s[p], s[p + 1] + s[p + 2]]
            + s.skip(p + 3));
    }
}

// --- ids -----------------------------------------------------------------------------------------

/// A stretch of text is written with a ▁ before it and one for every space,
/// piece by piece: a known piece by its id; an unknown one, where bytes do not
/// stand in, by the unknown token. The pieces of a BPE model are what its merges
/// make of the characters.
pub proof fn pieces_are_written_in_order(lex: Lexicon, text: Seq<char>)
    ensures
        ({
            let norm = seq![METASPACE] + text.map_values(
                |c: char|
                    if c == ' ' {
                        METASPACE
                    } else {
                        c
                    },
            );
            let v = super::roundtrip::taken(lex, norm);
            &&& super::roundtrip::joined(v) == norm
            &&& lex.kind is Bpe ==> v == super::bpe::fully_merged(lex.merges, Seq::new(norm.len(), |i: int| seq![norm[i]]))
            &&& !lex.byte_fallback || (forall|i: int| 0 <= i < v.len() ==> lex.ids.contains_key(#[trigger] v[i]))
                ==> lex.text_ids(text) == v.map_values(
                |p: Seq<char>|
                    if lex.ids.contains_key(p) {
                        lex.ids[p]
                    } else {
                        lex.unk_id
                    },
            )
        }),
{
    let norm = seq![METASPACE] + text.map_values(
        |c: char|
            if c == ' ' {
                METASPACE
            } else {
                c
            },
    );
    assert(norm =~= super::normalized(text));
    let v = super::roundtrip::taken(lex, norm);
    super::roundtrip::lemma_taken(lex, text);
    assert(super::bpe::single_chars(norm) =~= Seq::new(norm.len(), |i: int| seq![norm[i]]));
    if !lex.byte_fallback || (forall|i: int| 0 <= i < v.len() ==> lex.ids.contains_key(#[trigger] v[i])) {
        lemma_one_each(lex, v);
    }
}

proof fn lemma_one_each(lex: Lexicon, v: Seq<Seq<char>>)
    requires
        !lex.byte_fallback || (forall|i: int| 0 <= i < v.len() ==> lex.ids.contains_key(#[trigger] v[i])),
    ensures
        lex.emitted_all(v) == v.map_values(
            |p: Seq<char>|
                if lex.ids.contains_key(p) {
                    lex.ids[p]
                } else {
                    lex.unk_id
                },
        ),
    decreases v.len(),
{
    let f = |p: Seq<char>|
        if lex.ids.contains_key(p) {
            lex.ids[p]
        } else {
            lex.unk_id
        };
    if v.len() == 0 {
        assert(lex.emitted_all(v) =~= v.map_values(f));
    } else {
        let before = v.drop_last();
        if lex.byte_fallback {
            assert forall|i: int| 0 <= i < before.len() implies lex.ids.contains_key(#[trigger] before[i]) by {
                assert(before[i] == v[i]);
            }
            assert(lex.ids.contains_key(v[v.len() - 1]));
        }
        lemma_one_each(lex, before);
        assert(v.map_values(f) =~= before.map_values(f).push(f(v.last())));
        assert(lex.emitted_or_unk(v.last()) =~= seq![f(v.last())]);
    }
}

/// The start token comes first where it is asked for and there is one.
pub proof fn start_token_comes_first(lex: Lexicon, text: Seq<char>)
    ensures
        lex.bos matches Some(id) ==> lex.encoded(text, true) == seq![id] + lex.encoded(text, false),
        lex.bos is None ==> lex.encoded(text, true) == lex.encoded(text, false),
{
    let rest = lex.encoded(text, false);
    assert(Seq::<u32>::empty() + rest =~= rest);
    if let Some(id) = lex.bos {
        assert(lex.encoded(text, true) =~= seq![id] + rest);
    }
}

/// The first special token in a text becomes its id, between the ids of what
/// stands before it and the ids of what stands behind it. Of several that stand
/// at one place, the longest is taken.
pub proof fn longest_special_is_taken(lex: Lexicon, a: Seq<char>, k: Seq<char>, b: Seq<char>)
    requires
        k.len() > 0,
        lex.specials.contains_key(k),
        forall|o: Seq<char>| #[trigger]
            lex.specials.contains_key(o) && crate::text::stands_at(a + k + b, a.len() as int, o) ==> o.len() <= k.len(),
        forall|i: int, o: Seq<char>|
            0 <= i < a.len() && lex.specials.contains_key(o) ==> !#[trigger] crate::text::stands_at(a + k + b, i, o),
    ensures
        lex.encoded(a + k + b, false) == (if a.len() > 0 {
            lex.text_ids(a)
        } else {
            Seq::empty()
        }) + seq![lex.specials[k]] + lex.encoded(b, false),
{
    let text = a + k + b;
    assert(text.subrange(a.len() as int, (a.len() + k.len()) as int) =~= k);
    assert(super::is_special_at(lex.specials, text, a.len() as int, k));
    super::special_token_stays_whole(lex, a, k, b);
    let before = if a.len() > 0 {
        lex.text_ids(a)
    } else {
        Seq::empty()
    };
    assert(before.push(lex.specials[k]) =~= before + seq![lex.specials[k]]);
}

// --- scores --------------------------------------------------------------------------------------

/// The scores of tokens, summed up from the left.
pub open spec fn total_score(lex: Lexicon, ids: Seq<u32>) -> F64
    decreases ids.len(),
{
    if ids.len() == 0 {
        F64(0)
    } else {
        total_score(lex, ids.drop_last()).spec_plus(lex.scores[ids.last() as int])
    }
}

/// The ids of a cut's pieces.
pub open spec fn ids_of_cut(lex: Lexicon, text: Seq<char>, ends: Seq<nat>) -> Seq<u32> {
    Seq::new((ends.len() - 1) as nat, |k: int| lex.ids[text.subrange(ends[k] as int, ends[k + 1] as int)])
}

proof fn lemma_cut(lex: Lexicon, text: Seq<char>, ends: Seq<nat>)
    requires
        lex.is_cut(text, ends),
        forall|p: Seq<char>| #[trigger] lex.ids.contains_key(p) ==> lex.ids[p] < lex.scores.len(),
    ensures
        lex.cut_score(text, ends) == total_score(lex, ids_of_cut(lex, text, ends)),
    decreases ends.len(),
{
    let ids = ids_of_cut(lex, text, ends);
    if ends.len() > 1 {
        let before = ends.drop_last();
        let n = ends.len() - 2;
        assert(ends[n] < ends[n + 1]);
        assert forall|k: int| 0 <= k < before.len() - 1 implies {
            &&& #[trigger] before[k] < before[k + 1] <= text.len()
            &&& lex.ids.contains_key(text.subrange(before[k] as int, before[k + 1] as int))
        } by {
            assert(ends[k] == before[k]);
            assert(ends[k + 1] == before[k + 1]);
        }
        lemma_cut(lex, text, before);
        assert(ids.drop_last() =~= ids_of_cut(lex, text, before));
    }
}

proof fn lemma_best_ids(lex: Lexicon, text: Seq<char>, j: nat)
    requires
        j <= text.len(),
        lex.takes_pieces(text, j),
    ensures
        lex.segmented(text, j) == ids_of_cut(lex, text, lex.best_ends(text, j)),
        lex.best_ends(text, j).len() > 0,
        lex.best_ends(text, j).last() == j,
    decreases j,
{
    if j > 0 {
        let c = lex.best_path(text, j);
        lex.every_position_is_reached(text, j);
        lex.lemma_step_id(text, j, j);
        lemma_best_ids(lex, text, c.back);
        let (before, ends) = (lex.best_ends(text, c.back), lex.best_ends(text, j));
        let was = ids_of_cut(lex, text, before);
        assert(ids_of_cut(lex, text, ends) =~= was.push(lex.ids[text.subrange(c.back as int, j as int)])) by {
            assert forall|k: int| 0 <= k < was.len() implies #[trigger] ids_of_cut(lex, text, ends)[k] == was[k] by {
                assert(ends[k] == before[k] && ends[k + 1] == before[k + 1]);
            }
            assert(ends[ends.len() - 2] == before.last());
        }
        assert(lex.segmented(text, j) =~= was.push(c.id->0));
    } else {
        assert(ids_of_cut(lex, text, lex.best_ends(text, 0)) =~= Seq::empty());
    }
}

/// Under a Unigram model no other way of writing a text in pieces has a higher
/// total score than the ids that it is given, where those are ids of pieces.
pub proof fn no_other_pieces_score_higher(lex: Lexicon, text: Seq<char>, ends: Seq<nat>)
    requires
        lex.kind is Unigram,
        forall|p: Seq<char>| #[trigger] lex.ids.contains_key(p) ==> lex.ids[p] < lex.scores.len(),
        ({
            let norm = super::normalized(text);
            &&& ends.len() > 0
            &&& ends[0] == 0
            &&& ends.last() == norm.len()
            &&& forall|k: int|
                0 <= k < ends.len() - 1 ==> {
                    &&& #[trigger] ends[k] < ends[k + 1] <= norm.len()
                    &&& lex.ids.contains_key(norm.subrange(ends[k] as int, ends[k + 1] as int))
                }
            &&& lex.takes_pieces(norm, norm.len())
        }),
    ensures
        !total_score(lex, lex.text_ids(text)).spec_less(
            total_score(lex, ids_of_cut(lex, super::normalized(text), ends)),
        ),
{
    let norm = super::normalized(text);
    lex.no_cut_does_better(norm, ends);
    lex.best_segmentation_is_a_cut(norm, norm.len());
    lemma_best_ids(lex, norm, norm.len());
    lemma_cut(lex, norm, ends);
    lemma_cut(lex, norm, lex.best_ends(norm, norm.len()));
}

proof fn lemma_longer_step(lex: Lexicon, text: Seq<char>, j: nat, i: nat, start: nat)
    requires
        i <= j,
        start < lex.best_step(text, j, i).back,
        lex.ids.contains_key(text.subrange(start as int, j as int)),
        !lex.through(text, start, j).spec_is_nan(),
    ensures
        lex.through(text, start, j).spec_less(lex.best_step(text, j, i).best),
    decreases i,
{
    if i > 0 {
        let p = (i - 1) as nat;
        let rest = lex.best_step(text, j, p);
        if lex.best_step(text, j, i) == rest {
            lemma_longer_step(lex, text, j, p, start);
        } else {
            lex.lemma_best_step(text, j, p, start);
        }
    }
}

/// Of last pieces with the same total score the longest is taken: one that is
/// longer than the piece taken scores lower.
pub proof fn longer_pieces_score_lower(lex: Lexicon, text: Seq<char>, start: nat, j: nat)
    requires
        j <= text.len(),
        lex.best_path(text, j).id is Some,
        start < lex.best_path(text, j).back,
        lex.ids.contains_key(text.subrange(start as int, j as int)),
        !lex.best_path(text, start).best.spec_plus(
            lex.score(lex.ids[text.subrange(start as int, j as int)]),
        ).spec_is_nan(),
    ensures
        lex.best_path(text, start).best.spec_plus(lex.score(lex.ids[text.subrange(start as int, j as int)])).spec_less(
            lex.best_path(text, j).best,
        ),
{
    lemma_longer_step(lex, text, j, j, start);
}

/// A character that no piece ends with is taken by itself, at a price of a
/// million, and written as its bytes or as the unknown token.
pub proof fn lone_character_costs_a_million(lex: Lexicon, text: Seq<char>, j: nat)
    requires
        0 < j <= text.len(),
        forall|start: int| 0 <= start < j ==> !lex.ids.contains_key(#[trigger] text.subrange(start, j as int)),
    ensures
        ({
            let (before, now) = (lex.best_path(text, (j - 1) as nat), lex.best_path(text, j));
            &&& now.back == j - 1
            &&& exists|price: F64|
                price.steps() == -1000000 * vstd::arithmetic::power2::pow2(1074) && now.best == #[trigger] before.best.spec_plus(price)
            &&& lex.segmented(text, j) == lex.segmented(text, (j - 1) as nat) + lex.emitted_or_unk(seq![text[j - 1]])
        }),
{
    lemma_no_step(lex, text, j, j);
    F64::minus_infinity_is_itself();
    F64::price_is_a_million();
    let price = F64(crate::float::MINUS_MILLION_F64);
    assert(lex.best_path(text, j).best == lex.best_path(text, (j - 1) as nat).best.spec_plus(price));
    lex.every_position_is_reached(text, j);
    assert(text.subrange(j - 1, j as int) =~= seq![text[j - 1]]);
}

proof fn lemma_no_step(lex: Lexicon, text: Seq<char>, j: nat, i: nat)
    requires
        i <= j <= text.len(),
        forall|start: int| 0 <= start < j ==> !lex.ids.contains_key(#[trigger] text.subrange(start, j as int)),
    ensures
        lex.best_step(text, j, i).best == F64(crate::float::NEG_INFINITY_F64),
    decreases i,
{
    if i > 0 {
        lemma_no_step(lex, text, j, (i - 1) as nat);
        assert(!lex.ids.contains_key(text.subrange(i - 1, j as int)));
    }
}

// --- what `encode` gives -------------------------------------------------------------------------

/// What `encode` gives are the ids of the text, after the start token where it
/// is asked for and there is one.
pub proof fn encode_gives_the_ids(t: &Tokenizer, text: &str, bos: bool, r: Vec<u32>)
    requires
        call_ensures(Tokenizer::encode, (t, text, bos), r),
    ensures
        r@ == (match (bos, t.lexicon().bos) {
            (true, Some(id)) => seq![id],
            _ => Seq::empty(),
        }) + t.lexicon().encoded(text@, false),
{
    start_token_comes_first(t.lexicon(), text@);
    assert(Seq::<u32>::empty() + t.lexicon().encoded(text@, false) =~= t.lexicon().encoded(text@, false));
}

} // verus!
