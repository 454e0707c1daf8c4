//! Best segmentation under a Unigram model.
use vstd::prelude::*;

use super::Lexicon;
use super::Tokenizer;
use crate::float::{F64, MINUS_MILLION_F64, NEG_INFINITY_F64};
use crate::text::{chars_of, text_between};

verus! {

/// The best way found to reach a position: its score, where its last step
/// starts, and the id of the piece taken (none for a lone character that is no
/// piece).
pub struct Cell {
    pub best: F64,
    pub back: nat,
    pub id: Option<u32>,
}

impl Lexicon {
    pub open spec fn score(self, id: u32) -> F64 {
        if id < self.scores.len() {
            self.scores[id as int]
        } else {
            F64(0)
        }
    }

    /// The best step to `j` among pieces that start before `i`; of equally
    /// good ones, the longest.
    pub open spec fn best_step(self, text: Seq<char>, j: nat, i: nat) -> Cell
        decreases j, i,
        when i <= j
    {
        if i == 0 {
            Cell { best: F64(NEG_INFINITY_F64), back: 0, id: None }
        } else {
            let start = (i - 1) as nat;
            let rest = self.best_step(text, j, start);
            let sub = text.subrange(start as int, j as int);
            if self.ids.contains_key(sub) {
                let score = self.best_path(text, start).best.spec_plus(self.score(self.ids[sub]));
                if rest.best.spec_less(score) {
                    Cell { best: score, back: start, id: Some(self.ids[sub]) }
                } else {
                    rest
                }
            } else {
                rest
            }
        }
    }

    /// The best way to `j`. A character that no piece ends with is taken by
    /// itself, at a price.
    pub open spec fn best_path(self, text: Seq<char>, j: nat) -> Cell
        decreases j, j + 1,
    {
        if j == 0 {
            Cell { best: F64(0), back: 0, id: None }
        } else {
            let c = self.best_step(text, j, j);
            if c.best.spec_same(F64(NEG_INFINITY_F64)) {
                Cell {
                    best: self.best_path(text, (j - 1) as nat).best.spec_plus(F64(MINUS_MILLION_F64)),
                    back: (j - 1) as nat,
                    id: None,
                }
            } else {
                c
            }
        }
    }

    proof fn lemma_step(self, text: Seq<char>, j: nat, i: nat)
        requires
            i <= j,
        ensures
            ({
                let c = self.best_step(text, j, i);
                c == Cell { best: F64(NEG_INFINITY_F64), back: 0, id: None } || (c.best.is_score() && c.back < i)
            }),
        decreases i,
    {
        if i > 0 {
            self.lemma_step(text, j, (i - 1) as nat);
        }
    }

    /// Every position is reached, by a step from an earlier one.
    pub proof fn every_position_is_reached(self, text: Seq<char>, j: nat)
        ensures
            self.best_path(text, j).best.is_score(),
            j > 0 ==> self.best_path(text, j).back < j,
        decreases j,
    {
        if j > 0 {
            self.lemma_step(text, j, j);
            self.every_position_is_reached(text, (j - 1) as nat);
            self.best_path(text, (j - 1) as nat).best.lowered_is_score();
        } else {
            F64::zero_is_score();
        }
    }

    pub(crate) proof fn lemma_best_step(self, text: Seq<char>, j: nat, i: nat, start: nat)
        requires
            start < i <= j,
            self.ids.contains_key(text.subrange(start as int, j as int)),
        ensures
            !self.best_step(text, j, i).best.spec_less(self.through(text, start, j)),
        decreases i,
    {
        if start < i - 1 {
            self.lemma_best_step(text, j, (i - 1) as nat, start);
        }
    }

    /// What reaching `j` by the piece from `start` scores.
    pub open spec fn through(self, text: Seq<char>, start: nat, j: nat) -> F64 {
        self.best_path(text, start).best.spec_plus(self.score(self.ids[text.subrange(start as int, j as int)]))
    }

    /// No piece that ends at `j` scores better than the best way there.
    pub proof fn no_piece_does_better(self, text: Seq<char>, start: nat, j: nat)
        requires
            start < j <= text.len(),
            self.ids.contains_key(text.subrange(start as int, j as int)),
        ensures
            !self.best_path(text, j).best.spec_less(self.through(text, start, j)),
    {
        self.lemma_best_step(text, j, j, start);
        self.every_position_is_reached(text, j);
    }

    /// A cut of the first `ends.last()` characters into pieces: where they
    /// meet, from the start on.
    pub open spec fn is_cut(self, text: Seq<char>, ends: Seq<nat>) -> bool {
        &&& ends.len() > 0
        &&& ends[0] == 0
        &&& forall|k: int|
            0 <= k < ends.len() - 1 ==> {
                &&& #[trigger] ends[k] < ends[k + 1] <= text.len()
                &&& self.ids.contains_key(text.subrange(ends[k] as int, ends[k + 1] as int))
            }
    }

    /// The scores of a cut's pieces, summed up from the left.
    pub open spec fn cut_score(self, text: Seq<char>, ends: Seq<nat>) -> F64
        decreases ends.len(),
    {
        if ends.len() <= 1 {
            F64(0)
        } else {
            let piece = text.subrange(ends[ends.len() - 2] as int, ends.last() as int);
            self.cut_score(text, ends.drop_last()).spec_plus(self.score(self.ids[piece]))
        }
    }

    /// No cut of a text into pieces scores better than its best segmentation.
    pub proof fn no_cut_does_better(self, text: Seq<char>, ends: Seq<nat>)
        requires
            self.is_cut(text, ends),
        ensures
            !self.best_path(text, ends.last()).best.spec_less(self.cut_score(text, ends)),
        decreases ends.len(),
    {
        if ends.len() > 1 {
            let before = ends.drop_last();
            let (start, j) = (before.last(), ends.last());
            assert(ends[ends.len() - 2] == start && ends[ends.len() - 2 + 1] == j);
            assert forall|k: int| 0 <= k < before.len() - 1 implies {
                &&& #[trigger] before[k] < before[k + 1] <= text.len()
                &&& self.ids.contains_key(text.subrange(before[k] as int, before[k + 1] as int))
            } by {
                assert(ends[k] == before[k]);
                assert(ends[k + 1] == before[k + 1]);
            }
            self.no_cut_does_better(text, before);
            self.no_piece_does_better(text, start, j);
            self.every_position_is_reached(text, start);
            let score = self.score(self.ids[text.subrange(start as int, j as int)]);
            self.cut_score(text, before).sums_keep_order(
                self.best_path(text, start).best,
                score,
                self.best_path(text, j).best,
            );
        }
    }

    /// Where the steps of the best segmentation meet.
    pub open spec fn best_ends(self, text: Seq<char>, j: nat) -> Seq<nat>
        decreases j,
        via Lexicon::best_ends_decreases
    {
        if j == 0 {
            seq![0]
        } else {
            self.best_ends(text, self.best_path(text, j).back).push(j)
        }
    }

    #[via_fn]
    proof fn best_ends_decreases(self, text: Seq<char>, j: nat) {
        self.every_position_is_reached(text, j);
    }

    /// Whether the best segmentation takes pieces only.
    pub open spec fn takes_pieces(self, text: Seq<char>, j: nat) -> bool
        decreases j,
        via Lexicon::takes_pieces_decreases
    {
        j == 0 || (self.best_path(text, j).id is Some && self.takes_pieces(text, self.best_path(text, j).back))
    }

    #[via_fn]
    proof fn takes_pieces_decreases(self, text: Seq<char>, j: nat) {
        self.every_position_is_reached(text, j);
    }

    /// A step by a piece is a step by that piece's id, at its score.
    pub(crate) proof fn lemma_step_id(self, text: Seq<char>, j: nat, i: nat)
        requires
            i <= j <= text.len(),
        ensures
            ({
                let c = self.best_step(text, j, i);
                c.id matches Some(id) ==> {
                    let sub = text.subrange(c.back as int, j as int);
                    &&& c.back < i
                    &&& self.ids.contains_key(sub)
                    &&& id == self.ids[sub]
                    &&& c.best == self.through(text, c.back, j)
                }
            }),
            self.best_step(text, j, i).id is None ==> self.best_step(text, j, i).best == F64(NEG_INFINITY_F64),
        decreases i,
    {
        if i > 0 {
            self.lemma_step_id(text, j, (i - 1) as nat);
        }
    }

    /// The best segmentation, where it takes pieces only, is a cut, and its
    /// score is the best one.
    pub proof fn best_segmentation_is_a_cut(self, text: Seq<char>, j: nat)
        requires
            j <= text.len(),
            self.takes_pieces(text, j),
        ensures
            self.is_cut(text, self.best_ends(text, j)),
            self.best_ends(text, j).last() == j,
            self.cut_score(text, self.best_ends(text, j)) == self.best_path(text, j).best,
        decreases j,
    {
        if j > 0 {
            let c = self.best_path(text, j);
            self.every_position_is_reached(text, j);
            self.lemma_step_id(text, j, j);
            self.best_segmentation_is_a_cut(text, c.back);
            let before = self.best_ends(text, c.back);
            let ends = self.best_ends(text, j);
            assert(ends.drop_last() =~= before);
            assert forall|k: int| 0 <= k < ends.len() - 1 implies {
                &&& #[trigger] ends[k] < ends[k + 1] <= text.len()
                &&& self.ids.contains_key(text.subrange(ends[k] as int, ends[k + 1] as int))
            } by {
                assert(ends[k] == before[k]);
                if k < before.len() - 1 {
                    assert(ends[k + 1] == before[k + 1]);
                }
            }
        }
    }

    /// Ids of the best segmentation of the first `j` characters.
    pub open spec fn segmented(self, text: Seq<char>, j: nat) -> Seq<u32>
        decreases j,
        via Lexicon::segmented_decreases
    {
        if j == 0 {
            Seq::empty()
        } else {
            let c = self.best_path(text, j);
            self.segmented(text, c.back) + self.step_ids(text, j)
        }
    }

    #[via_fn]
    proof fn segmented_decreases(self, text: Seq<char>, j: nat) {
        self.every_position_is_reached(text, j);
    }

    /// Ids of the last step to `j`.
    pub open spec fn step_ids(self, text: Seq<char>, j: nat) -> Seq<u32> {
        let c = self.best_path(text, j);
        match c.id {
            Some(id) => seq![id],
            None => self.emitted_or_unk(text.subrange(c.back as int, j as int)),
        }
    }
}

/// The cell that three parallel tables hold for a position.
spec fn held(best: Seq<F64>, back: Seq<usize>, ids: Seq<Option<u32>>, j: int) -> Cell {
    Cell { best: best[j], back: back[j] as nat, id: ids[j] }
}

impl Tokenizer {
    /// Ids of the best segmentation of `text` under a Unigram model.
    #[verifier::rlimit(60)]
    pub fn encode_unigram(&self, text: &str, ids: &mut Vec<u32>)
        requires
            self.wf(),
        ensures
            final(ids)@ == old(ids)@ + self.lexicon().segmented(text@, text@.len()),
    {
        let ghost lex = self.lexicon();
        let cs = chars_of(text);
        let n: usize = cs.len();
        let mut best: Vec<F64> = Vec::new();
        let mut back: Vec<usize> = Vec::new();
        let mut back_id: Vec<Option<u32>> = Vec::new();
        best.push(F64(0));
        back.push(0);
        back_id.push(None);
        let mut k: usize = 0;
        while k < n
            invariant
                k <= n,
                best@.len() == k + 1,
                back@.len() == k + 1,
                back_id@.len() == k + 1,
                best@[0] == F64(0),
                back@[0] == 0,
                back_id@[0] is None,
                forall|j: int| 0 < j <= k ==> held(best@, back@, back_id@, j) == lex.best_step(text@, j as nat, 0),
            decreases n - k,
        {
            let ghost (b0, k0, d0) = (best@, back@, back_id@);
            best.push(F64(NEG_INFINITY_F64));
            back.push(0);
            back_id.push(None);
            proof {
                assert forall|p: int| #![trigger held(best@, back@, back_id@, p)] 0 < p <= k implies held(
                    best@,
                    back@,
                    back_id@,
                    p,
                ) == held(b0, k0, d0, p) by {}
            }
            k = k + 1;
        }
        let mut i: usize = 0;
        while i < n
            invariant
                self.wf(),
                lex == self.lexicon(),
                cs@ == text@,
                n == cs@.len(),
                i <= n,
                best@.len() == n + 1,
                back@.len() == n + 1,
                back_id@.len() == n + 1,
                forall|j: int| 0 <= j <= i ==> held(best@, back@, back_id@, j) == lex.best_path(text@, j as nat),
                forall|j: int|
                    i < j <= n ==> held(best@, back@, back_id@, j) == lex.best_step(text@, j as nat, i as nat),
            decreases n - i,
        {
            let end: usize = if self.max_piece_chars < n - i {
                i + self.max_piece_chars
            } else {
                n
            };
            let from = best[i];
            let mut sub = String::new();
            let mut j: usize = i;
            proof {
                assert(from == held(best@, back@, back_id@, i as int).best);
                assert(text@.subrange(i as int, i as int) =~= Seq::empty());
            }
            while j < end
                invariant
                    self.wf(),
                    lex == self.lexicon(),
                    cs@ == text@,
                    n == cs@.len(),
                    i <= j <= end <= n,
                    i < n,
                    from == lex.best_path(text@, i as nat).best,
                    sub@ == text@.subrange(i as int, j as int),
                    best@.len() == n + 1,
                    back@.len() == n + 1,
                    back_id@.len() == n + 1,
                    forall|p: int| 0 <= p <= i ==> held(best@, back@, back_id@, p) == lex.best_path(text@, p as nat),
                    forall|p: int|
                        i < p <= j ==> held(best@, back@, back_id@, p) == lex.best_step(
                            text@,
                            p as nat,
                            (i + 1) as nat,
                        ),
                    forall|p: int|
                        j < p <= n ==> held(best@, back@, back_id@, p) == lex.best_step(text@, p as nat, i as nat),
                decreases end - j,
            {
                sub.push(cs[j]);
                j = j + 1;
                proof {
                    assert(sub@ =~= text@.subrange(i as int, j as int));
                    assert(held(best@, back@, back_id@, j as int) == lex.best_step(text@, j as nat, i as nat));
                }
                let ghost (b0, k0, d0) = (best@, back@, back_id@);
                if let Some(id) = self.piece_to_id.get(sub.as_str()) {
                    let gain: F64 = if (*id as usize) < self.scores.len() {
                        self.scores[*id as usize]
                    } else {
                        F64(0)
                    };
                    let score = from.plus(gain);
                    if best[j].less(score) {
                        best.set(j, score);
                        back.set(j, i);
                        back_id.set(j, Some(*id));
                    }
                }
                proof {
                    assert forall|p: int| #![trigger held(best@, back@, back_id@, p)] 0 <= p <= n && p != j implies held(best@, back@, back_id@, p) == held(
                        b0,
                        k0,
                        d0,
                        p,
                    ) by {}
                }
            }
            proof {
                // pieces longer than the longest one are no pieces
                assert forall|p: int| #![trigger held(best@, back@, back_id@, p)] i < p <= n implies held(best@, back@, back_id@, p) == lex.best_step(
                    text@,
                    p as nat,
                    (i + 1) as nat,
                ) by {
                    if p > end {
                        assert(text@.subrange(i as int, p).len() > self.max_piece_chars);
                    }
                }
                assert(held(best@, back@, back_id@, i + 1) == lex.best_step(text@, (i + 1) as nat, (i + 1) as nat));
            }
            let ghost (b0, k0, d0) = (best@, back@, back_id@);
            // a lone character, so that the path never breaks
            if best[i + 1].same(F64(NEG_INFINITY_F64)) {
                best.set(i + 1, from.plus(F64(MINUS_MILLION_F64)));
                back.set(i + 1, i);
                back_id.set(i + 1, None);
            }
            proof {
                assert forall|p: int| #![trigger held(best@, back@, back_id@, p)] 0 <= p <= n && p != i + 1 implies held(best@, back@, back_id@, p) == held(
                    b0,
                    k0,
                    d0,
                    p,
                ) by {}
                assert(held(best@, back@, back_id@, i + 1) == lex.best_path(text@, (i + 1) as nat));
            }
            i = i + 1;
        }
        // the steps of the best path, last first
        let mut stops: Vec<usize> = Vec::new();
        let mut at: usize = n;
        while at > 0
            invariant
                lex == self.lexicon(),
                at <= n,
                back@.len() == n + 1,
                forall|j: int| 0 <= j <= n ==> held(best@, back@, back_id@, j) == lex.best_path(text@, j as nat),
                is_trail(lex, text@, stops@, at as nat, n as nat),
            decreases at,
        {
            proof {
                lex.every_position_is_reached(text@, at as nat);
                assert(held(best@, back@, back_id@, at as int).back == back@[at as int]);
            }
            let ghost was = stops@;
            stops.push(at);
            at = back[at];
        }
        let ghost start = ids@;
        let mut r: usize = stops.len();
        let ghost mut done: nat = 0;
        proof {
            assert(ids@ =~= start + lex.segmented(text@, 0));
        }
        while r > 0
            invariant
                lex == self.lexicon(),
                cs@ == text@,
                n == cs@.len(),
                back@.len() == n + 1,
                back_id@.len() == n + 1,
                forall|j: int| 0 <= j <= n ==> held(best@, back@, back_id@, j) == lex.best_path(text@, j as nat),
                is_trail(lex, text@, stops@, 0, n as nat),
                r <= stops@.len(),
                done == (if r == stops@.len() { 0 } else { stops@[r as int] as nat }),
                ids@ == start + lex.segmented(text@, done),
            decreases r,
        {
            let j: usize = stops[r - 1];
            let b: usize = back[j];
            let ghost was = ids@;
            proof {
                lex.every_position_is_reached(text@, j as nat);
                assert(held(best@, back@, back_id@, j as int) == lex.best_path(text@, j as nat));
                assert(b == done);
            }
            match back_id[j] {
                Some(id) => {
                    ids.push(id);
                },
                None => {
                    let piece = text_between(cs.as_slice(), b, j);
                    self.emit_or_unk(piece.as_str(), ids);
                },
            }
            proof {
                assert(ids@ =~= was + lex.step_ids(text@, j as nat));
                assert(ids@ =~= start + lex.segmented(text@, j as nat));
                done = j as nat;
            }
            r = r - 1;
        }
    }
}

/// `stops` leads from `n` back to `at`, step by best step.
spec fn is_trail(lex: Lexicon, text: Seq<char>, stops: Seq<usize>, at: nat, n: nat) -> bool {
    &&& forall|k: int| 0 <= k < stops.len() ==> 0 < #[trigger] stops[k] <= n
    &&& stops.len() == 0 ==> at == n
    &&& stops.len() > 0 ==> stops[0] == n && lex.best_path(text, stops.last() as nat).back == at
    &&& forall|k: int|
        0 <= k < stops.len() - 1 ==> lex.best_path(text, (#[trigger] stops[k]) as nat).back == stops[k + 1]
}

} // verus!
