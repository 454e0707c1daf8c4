//! Greedy merging by rank.
use vstd::hash_map::StringHashMap;
use vstd::prelude::*;

use super::Lexicon;
use super::Merges;
use super::Tokenizer;
use crate::text::{chars_of, joined};

verus! {

impl Merges {
    pub fn new() -> (r: Merges)
        ensures
            r.wf(),
            r.ranks() == Map::<(Seq<char>, Seq<char>), nat>::empty(),
    {
        let r = Merges { heads: StringHashMap::new(), tails: Vec::new() };
        proof {
            assert(r.ranks() =~= Map::<(Seq<char>, Seq<char>), nat>::empty());
        }
        r
    }

    /// Give a pair its rank, in place of an earlier one.
    pub fn insert(&mut self, a: String, b: String, rank: usize)
        requires
            old(self).wf(),
        ensures
            final(self).wf(),
            final(self).ranks() == old(self).ranks().insert((a@, b@), rank as nat),
    {
        let ghost before = *self;
        let ghost (av, bv) = (a@, b@);
        let place: Option<usize> = match self.heads.get(a.as_str()) {
            Some(k) => Some(*k),
            None => None,
        };
        match place {
            Some(k) => {
                self.tails[k].insert(b, rank);
            },
            None => {
                let k: usize = self.tails.len();
                let mut tail: StringHashMap<usize> = StringHashMap::new();
                tail.insert(b, rank);
                self.tails.push(tail);
                self.heads.insert(a, k);
            },
        }
        proof {
            assert(self.ranks() =~= before.ranks().insert((av, bv), rank as nat));
        }
    }

    pub fn rank(&self, a: &str, b: &str) -> (r: Option<usize>)
        requires
            self.wf(),
        ensures
            r is Some <==> self.ranks().contains_key((a@, b@)),
            r matches Some(k) ==> self.ranks()[(a@, b@)] == k,
    {
        match self.heads.get(a) {
            Some(k) => match self.tails[*k].get(b) {
                Some(r) => Some(*r),
                None => None,
            },
            None => None,
        }
    }
}

/// Symbols `p` and `p + 1` form a known pair.
pub open spec fn is_pair(
    merges: Map<(Seq<char>, Seq<char>), nat>,
    s: Seq<Seq<char>>,
    p: int,
) -> bool {
    0 <= p < s.len() - 1 && merges.contains_key((s[p], s[p + 1]))
}

pub open spec fn pair_rank(merges: Map<(Seq<char>, Seq<char>), nat>, s: Seq<Seq<char>>, p: int) -> nat {
    merges[(s[p], s[p + 1])]
}

/// The pair to merge next: the lowest rank, and of those the leftmost.
pub open spec fn is_next_pair(
    merges: Map<(Seq<char>, Seq<char>), nat>,
    s: Seq<Seq<char>>,
    p: int,
) -> bool {
    &&& is_pair(merges, s, p)
    &&& forall|q: int| #[trigger]
        is_pair(merges, s, q) ==> pair_rank(merges, s, p) < pair_rank(merges, s, q) || (pair_rank(merges, s, p)
            == pair_rank(merges, s, q) && p <= q)
}

/// Symbols `p` and `p + 1` made one.
pub open spec fn merged_at(s: Seq<Seq<char>>, p: int) -> Seq<Seq<char>> {
    s.take(p).push(s[p] + s[p + 1]) + s.skip(p + 2)
}

/// All merges carried out, one at a time.
pub open spec fn fully_merged(merges: Map<(Seq<char>, Seq<char>), nat>, s: Seq<Seq<char>>) -> Seq<Seq<char>>
    decreases s.len(),
{
    if exists|p: int| is_next_pair(merges, s, p) {
        let p = choose|p: int| is_next_pair(merges, s, p);
        if is_pair(merges, s, p) {
            fully_merged(merges, merged_at(s, p))
        } else {
            s
        }
    } else {
        s
    }
}

/// Each character by itself.
pub open spec fn single_chars(text: Seq<char>) -> Seq<Seq<char>> {
    text.map_values(|c: char| seq![c])
}

impl Lexicon {
    /// Ids of symbols, one after the other.
    pub open spec fn emitted_all(self, s: Seq<Seq<char>>) -> Seq<u32>
        decreases s.len(),
    {
        if s.len() == 0 {
            Seq::empty()
        } else {
            self.emitted_all(s.drop_last()) + self.emitted_or_unk(s.last())
        }
    }

    /// Ids of a text under a BPE model.
    pub open spec fn merged_ids(self, text: Seq<char>) -> Seq<u32> {
        self.emitted_all(fully_merged(self.merges, single_chars(text)))
    }
}

/// The texts of symbols.
spec fn texts(v: Seq<String>) -> Seq<Seq<char>> {
    v.map_values(|s: String| s@)
}

impl Tokenizer {
    /// Ids of `text` under a BPE model: known pairs are merged, lowest rank
    /// first, until none is left.
    pub fn encode_bpe(&self, text: &str, ids: &mut Vec<u32>)
        requires
            self.wf(),
        ensures
            final(ids)@ == old(ids)@ + self.lexicon().merged_ids(text@),
    {
        let ghost lex = self.lexicon();
        let ghost goal = fully_merged(lex.merges, single_chars(text@));
        let cs = chars_of(text);
        let mut symbols: Vec<String> = Vec::new();
        let mut k: usize = 0;
        while k < cs.len()
            invariant
                k <= cs@.len(),
                cs@ == text@,
                symbols@.len() == k,
                forall|j: int| 0 <= j < k ==> (#[trigger] symbols@[j])@ == single_chars(text@)[j],
            decreases cs@.len() - k,
        {
            let mut s = String::new();
            s.push(cs[k]);
            proof {
                assert(s@ =~= seq![cs@[k as int]]);
            }
            symbols.push(s);
            k = k + 1;
        }
        proof {
            assert(texts(symbols@) =~= single_chars(text@));
        }
        let mut more = true;
        while more
            invariant
                self.wf(),
                lex == self.lexicon(),
                fully_merged(lex.merges, texts(symbols@)) == goal,
                !more ==> texts(symbols@) == goal,
            decreases symbols@.len(), more as int,
        {
            let mut best: Option<usize> = None;
            let mut best_rank: usize = 0;
            let mut i: usize = 0;
            let ghost s = texts(symbols@);
            while i < symbols.len() && i + 1 < symbols.len()
                invariant
                    self.wf(),
                    lex == self.lexicon(),
                    s == texts(symbols@),
                    i <= symbols@.len(),
                    best is None ==> forall|q: int| q < i ==> !#[trigger] is_pair(lex.merges, s, q),
                    best matches Some(p) ==> p < i && is_pair(lex.merges, s, p as int) && best_rank == pair_rank(
                        lex.merges,
                        s,
                        p as int,
                    ) && forall|q: int|
                        q < i && #[trigger] is_pair(lex.merges, s, q) ==> best_rank < pair_rank(lex.merges, s, q) || (
                        best_rank == pair_rank(lex.merges, s, q) && p <= q),
                decreases symbols@.len() - i,
            {
                if let Some(rank) = self.merges.rank(symbols[i].as_str(), symbols[i + 1].as_str()) {
                    proof {
                        assert(is_pair(lex.merges, s, i as int));
                    }
                    if best.is_none() || rank < best_rank {
                        best_rank = rank;
                        best = Some(i);
                    }
                } else {
                    proof {
                        assert(!is_pair(lex.merges, s, i as int));
                    }
                }
                i = i + 1;
            }
            match best {
                None => {
                    proof {
                        assert(forall|q: int| !is_pair(lex.merges, s, q));
                    }
                    more = false;
                },
                Some(p) => {
                    proof {
                        assert(is_next_pair(lex.merges, s, p as int));
                        let c = choose|c: int| is_next_pair(lex.merges, s, c);
                        assert(is_pair(lex.merges, s, c));
                        assert(c == p);
                    }
                    let whole = joined(symbols[p].as_str(), symbols[p + 1].as_str());
                    let ghost before = symbols@;
                    symbols.set(p, whole);
                    let _gone = symbols.remove(p + 1);
                    proof {
                        assert(texts(symbols@) =~= merged_at(s, p as int));
                    }
                },
            }
        }
        let ghost start = ids@;
        let ghost all = texts(symbols@);
        let mut r: usize = 0;
        proof {
            assert(all.take(0) =~= Seq::empty());
            assert(ids@ =~= start + lex.emitted_all(all.take(0)));
        }
        while r < symbols.len()
            invariant
                lex == self.lexicon(),
                all == texts(symbols@),
                r <= symbols@.len(),
                ids@ == start + lex.emitted_all(all.take(r as int)),
            decreases symbols@.len() - r,
        {
            let ghost was = ids@;
            self.emit_or_unk(symbols[r].as_str(), ids);
            proof {
                let next = all.take(r + 1);
                assert(next.drop_last() =~= all.take(r as int));
                assert(next.last() == symbols@[r as int]@);
                assert(ids@ =~= start + lex.emitted_all(next));
            }
            r = r + 1;
        }
        proof {
            assert(all.take(r as int) =~= all);
        }
    }
}

} // verus!
