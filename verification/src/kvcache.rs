//! Keys and values of the tokens seen so far.
//!
//! Layers that share keys and values read those of one source layer, so only
//! source layers have a slot. The backend appends to a slot in place while its
//! buffer has room. When growing takes a new buffer, the old one is kept as dead
//! until the end of the forward pass, where it can be freed.
use vstd::prelude::*;

use crate::backend::{Backend, Content, KvAppend, TensorShape};

verus! {

#[verifier::ext_equal]
pub struct KvSlot<T> {
    pub k: T,
    pub v: T,
}

impl<T: TensorShape> KvSlot<T> {
    pub open spec fn contents(self) -> KvSlot<Content> {
        KvSlot { k: self.k.content(), v: self.v.content() }
    }
}

/// What a cache holds.
#[verifier::ext_equal]
pub struct Memory {
    pub kv: Seq<Option<KvSlot<Content>>>,
    pub positions: Seq<u32>,
}

impl Memory {
    /// Nothing, for a number of layers.
    pub open spec fn blank(layers: nat) -> Memory {
        Memory { kv: Seq::new(layers, |i: int| None), positions: Seq::empty() }
    }

    /// A layer's slot with rows appended.
    pub open spec fn grown(self, layer: int, k: Content, v: Content) -> KvSlot<Content> {
        match self.kv[layer] {
            Some(s) => KvSlot {
                k: crate::backend::joined_rows(Some(s.k), k),
                v: crate::backend::joined_rows(Some(s.v), v),
            },
            None => KvSlot { k, v },
        }
    }
}

/// Keys and values of the slots that hold any, layer by layer.
pub open spec fn live(kv: Seq<Option<KvSlot<Content>>>) -> Seq<Content>
    decreases kv.len(),
{
    if kv.len() == 0 {
        Seq::empty()
    } else {
        let before = live(kv.drop_last());
        match kv.last() {
            Some(s) => before.push(s.k).push(s.v),
            None => before,
        }
    }
}

/// What tensors hold.
pub open spec fn contents<T: TensorShape>(tensors: Seq<T>) -> Seq<Content> {
    tensors.map_values(|t: T| t.content())
}

/// What a slot holds.
pub open spec fn slot_contents<T: TensorShape>(s: Option<KvSlot<T>>) -> Option<KvSlot<Content>> {
    match s {
        Some(s) => Some(s.contents()),
        None => None,
    }
}

pub struct KVCache<B: Backend> {
    pub slots: Vec<Option<KvSlot<B::Tensor>>>,
    /// Absolute positions of the tokens.
    pub positions: Vec<u32>,
    /// Superseded tensors that wait to be freed.
    pub dead: Vec<B::Tensor>,
}

/// The keys of a slot, if there are any.
pub open spec fn key_of<T>(s: &Option<KvSlot<T>>) -> Option<&T> {
    match s {
        Some(s) => Some(&s.k),
        None => None,
    }
}

/// The values of a slot, if there are any.
pub open spec fn value_of<T>(s: &Option<KvSlot<T>>) -> Option<&T> {
    match s {
        Some(s) => Some(&s.v),
        None => None,
    }
}

/// One tensor or none, as a list.
pub open spec fn listed<T>(t: Option<T>) -> Seq<T> {
    match t {
        Some(t) => seq![t],
        None => Seq::empty(),
    }
}

impl<B: Backend> KVCache<B> {
    pub open spec fn memory(self) -> Memory {
        Memory {
            kv: self.slots@.map_values(|s: Option<KvSlot<B::Tensor>>| slot_contents(s)),
            positions: self.positions@,
        }
    }

    pub fn new(num_layers: usize) -> (r: Self)
        ensures
            r.memory() == Memory::blank(num_layers as nat),
            r.dead@.len() == 0,
    {
        let slots = empty_slots::<B::Tensor>(num_layers);
        let r = KVCache { slots, positions: Vec::new(), dead: Vec::new() };
        proof {
            assert(r.memory() =~= Memory::blank(num_layers as nat));
        }
        r
    }

    /// Number of tokens.
    pub fn len(&self) -> (r: usize)
        ensures
            r == self.memory().positions.len(),
    {
        self.positions.len()
    }

    pub fn is_empty(&self) -> (r: bool)
        ensures
            r == (self.memory().positions.len() == 0),
    {
        self.positions.len() == 0
    }

    /// Note the positions of the tokens of one step.
    pub fn push_positions(&mut self, positions: &[u32])
        ensures
            final(self).memory() == (Memory {
                positions: old(self).memory().positions + positions@,
                ..old(self).memory()
            }),
            final(self).slots == old(self).slots,
            final(self).dead == old(self).dead,
    {
        let len: usize = positions.len();
        let mut i: usize = 0;
        while i < len
            invariant
                len == positions@.len(),
                i <= len,
                self.positions@ == old(self).positions@ + positions@.take(i as int),
                self.slots == old(self).slots,
                self.dead == old(self).dead,
            decreases len - i,
        {
            self.positions.push(positions[i]);
            i = i + 1;
            proof {
                assert(self.positions@ =~= old(self).positions@ + positions@.take(i as int));
            }
        }
        proof {
            assert(positions@.take(len as int) =~= positions@);
        }
    }

    /// Append keys and values to a source layer's slot and return all of the
    /// slot, old and new.
    pub fn append_and_read(
        &mut self,
        backend: &B,
        src_layer: usize,
        k_new: &B::Tensor,
        v_new: &B::Tensor,
    ) -> (r: (B::Tensor, B::Tensor))
        requires
            src_layer < old(self).memory().kv.len(),
            k_new.content().is_plain(),
            v_new.content().is_plain(),
            k_new.content().dims.len() > 0,
            v_new.content().dims.len() > 0,
            k_new.content().dims[0] > 0,
            v_new.content().dims[0] > 0,
            old(self).memory().kv[src_layer as int] matches Some(s) ==> {
                &&& crate::backend::can_follow(Some(s.k), k_new.content())
                &&& crate::backend::can_follow(Some(s.v), v_new.content())
            },
        ensures
            (KvSlot { k: r.0.content(), v: r.1.content() }) == old(self).memory().grown(
                src_layer as int,
                k_new.content(),
                v_new.content(),
            ),
            r.0.content().is_plain(),
            r.1.content().is_plain(),
            final(self).memory() == (Memory {
                kv: old(self).memory().kv.update(
                    src_layer as int,
                    Some(old(self).memory().grown(src_layer as int, k_new.content(), v_new.content())),
                ),
                ..old(self).memory()
            }),
            exists|rk: KvAppend<B::Tensor>, rv: KvAppend<B::Tensor>| #[trigger]
                call_ensures(B::kv_append, (backend, key_of(&old(self).slots@[src_layer as int]), k_new), rk)
                    && #[trigger] call_ensures(B::kv_append, (backend, value_of(&old(self).slots@[src_layer as int]), v_new), rv)
                    && final(self).dead@ == old(self).dead@ + listed(rk.dead) + listed(rv.dead)
                    && final(self).slots@ == old(self).slots@.update(
                    src_layer as int,
                    Some(KvSlot { k: rk.tensor, v: rv.tensor }),
                ),
    {
        proof {
            assert(self.memory().kv[src_layer as int] == slot_contents(self.slots@[src_layer as int]));
        }
        let (rk, rv) = match &self.slots[src_layer] {
            Some(s) => (backend.kv_append(Some(&s.k), k_new), backend.kv_append(Some(&s.v), v_new)),
            None => (backend.kv_append(None, k_new), backend.kv_append(None, v_new)),
        };
        let ghost (gk, gv) = (rk, rv);
        if let Some(d) = rk.dead {
            self.dead.push(d);
        }
        if let Some(d) = rv.dead {
            self.dead.push(d);
        }
        let k = rk.tensor.share();
        let v = rv.tensor.share();
        self.slots.set(src_layer, Some(KvSlot { k: rk.tensor, v: rv.tensor }));
        proof {
            assert(self.dead@ =~= old(self).dead@ + listed(gk.dead) + listed(gv.dead));
            assert(call_ensures(B::kv_append, (backend, key_of(&old(self).slots@[src_layer as int]), k_new), gk));
            assert(self.memory().kv =~= old(self).memory().kv.update(
                src_layer as int,
                Some(old(self).memory().grown(src_layer as int, k_new.content(), v_new.content())),
            ));
        }
        (k, v)
    }

    /// The slot of a layer, for one that shares it.
    pub fn read(&self, src_layer: usize) -> (r: Option<&KvSlot<B::Tensor>>)
        requires
            src_layer < self.memory().kv.len(),
        ensures
            match r {
                Some(s) => self.memory().kv[src_layer as int] == Some(s.contents()),
                None => self.memory().kv[src_layer as int] is None,
            },
    {
        proof {
            assert(self.memory().kv[src_layer as int] == slot_contents(self.slots@[src_layer as int]));
        }
        match &self.slots[src_layer] {
            Some(s) => Some(s),
            None => None,
        }
    }

    /// The tensors that have to survive a forward pass.
    pub fn live_tensors(&self) -> (r: Vec<B::Tensor>)
        ensures
            contents(r@) == live(self.memory().kv),
    {
        let len: usize = self.slots.len();
        let ghost kv = self.memory().kv;
        let mut out: Vec<B::Tensor> = Vec::new();
        let mut i: usize = 0;
        proof {
            assert(kv.take(0) =~= Seq::empty());
            assert(contents(out@) =~= Seq::empty());
        }
        while i < len
            invariant
                len == self.slots@.len(),
                kv == self.memory().kv,
                i <= len,
                contents(out@) == live(kv.take(i as int)),
            decreases len - i,
        {
            proof {
                assert(kv.take(i + 1).drop_last() =~= kv.take(i as int));
                assert(kv.take(i + 1).last() == slot_contents(self.slots@[i as int]));
            }
            if let Some(s) = &self.slots[i] {
                let ghost before = contents(out@);
                let k = s.k.share();
                let v = s.v.share();
                out.push(k);
                out.push(v);
                proof {
                    assert(contents(out@) =~= before.push(s.k.content()).push(s.v.content()));
                }
            }
            i = i + 1;
        }
        proof {
            assert(kv.take(len as int) =~= kv);
        }
        out
    }

    /// Hand over the superseded tensors.
    pub fn take_dead(&mut self) -> (r: Vec<B::Tensor>)
        ensures
            r@ == old(self).dead@,
            final(self).dead@.len() == 0,
            final(self).memory() == old(self).memory(),
    {
        let mut out: Vec<B::Tensor> = Vec::new();
        std::mem::swap(&mut out, &mut self.dead);
        out
    }

    /// Forget everything and free it.
    pub fn reset(&mut self, backend: &B)
        ensures
            final(self).memory() == Memory::blank(old(self).memory().kv.len()),
            final(self).dead@.len() == 0,
    {
        let n: usize = self.slots.len();
        let mut slots = empty_slots::<B::Tensor>(n);
        std::mem::swap(&mut slots, &mut self.slots);
        for s in slots {
            if let Some(s) = s {
                backend.free_tensor(s.k);
                backend.free_tensor(s.v);
            }
        }
        let dead = self.take_dead();
        for t in dead {
            backend.free_tensor(t);
        }
        self.positions = Vec::new();
        proof {
            assert(self.memory() =~= Memory::blank(old(self).memory().kv.len()));
        }
    }
}

fn empty_slots<T>(n: usize) -> (r: Vec<Option<KvSlot<T>>>)
    ensures
        r@ == Seq::new(n as nat, |i: int| None::<KvSlot<T>>),
{
    let mut slots: Vec<Option<KvSlot<T>>> = Vec::new();
    let mut i: usize = 0;
    while i < n
        invariant
            i <= n,
            slots@ == Seq::new(i as nat, |i: int| None::<KvSlot<T>>),
        decreases n - i,
    {
        slots.push(None);
        i = i + 1;
        proof {
            assert(slots@ =~= Seq::new(i as nat, |i: int| None::<KvSlot<T>>));
        }
    }
    slots
}

} // verus!
