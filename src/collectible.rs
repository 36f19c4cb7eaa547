//! Values that a running computation emits beside its result.
use vstd::prelude::*;

verus! {

/// Handle of an effect instance. Its field is private: only the task store
/// hands such handles out, so code outside the runtime cannot fabricate an
/// effect that would bypass the at-most-once guarantee.
#[derive(Clone, Copy, Debug, PartialEq, Eq, Hash, Structural)]
pub struct EffectId {
    index: usize,
}

impl View for EffectId {
    type V = usize;

    closed spec fn view(&self) -> usize {
        self.index
    }
}

impl EffectId {
    pub(crate) fn from_index(index: usize) -> (r: EffectId)
        ensures
            r@ == index,
    {
        EffectId { index }
    }

    /// Position of the instance in the store that created it.
    pub fn index(&self) -> (r: usize)
        ensures
            r == self@,
    {
        self.index
    }
}

/// Two handles are equal exactly when they name the same instance.
pub proof fn lemma_effect_id_view_injective(a: EffectId, b: EffectId)
    ensures
        (a@ == b@) <==> a == b,
{
}

/// A collectible value. Effects form a variant of their own, whose payload
/// only the runtime can construct.
#[derive(Clone, Copy, Debug, PartialEq, Eq, Hash, Structural)]
pub enum Collectible {
    Effect(EffectId),
    Value { kind: u64, payload: u64 },
}

/// The type of a collectible, used to select what a consumer drains.
#[derive(Clone, Copy, Debug, PartialEq, Eq, Hash, Structural)]
pub enum CollectibleKind {
    Effect,
    Value(u64),
}

pub open spec fn kind_of(c: Collectible) -> CollectibleKind {
    match c {
        Collectible::Effect(_) => CollectibleKind::Effect,
        Collectible::Value { kind, .. } => CollectibleKind::Value(kind),
    }
}

impl Collectible {
    pub fn kind(&self) -> (r: CollectibleKind)
        ensures
            r == kind_of(*self),
    {
        match self {
            Collectible::Effect(_) => CollectibleKind::Effect,
            Collectible::Value { kind, .. } => CollectibleKind::Value(*kind),
        }
    }
}

/// The context of one consumer of collectibles: what it has already drained.
pub struct Collector {
    drained: Vec<Collectible>,
}

impl View for Collector {
    type V = Seq<Collectible>;

    closed spec fn view(&self) -> Seq<Collectible> {
        self.drained@
    }
}

impl Collector {
    pub fn new() -> (r: Collector)
        ensures
            r@ == Seq::<Collectible>::empty(),
    {
        Collector { drained: Vec::new() }
    }

    pub fn has_drained(&self, c: &Collectible) -> (r: bool)
        ensures
            r == self@.contains(*c),
    {
        let mut i: usize = 0;
        while i < self.drained.len()
            invariant
                i <= self.drained.len(),
                forall|j: int| 0 <= j < i ==> self.drained@[j] != *c,
            decreases self.drained.len() - i,
        {
            if self.drained[i] == *c {
                return true;
            }
            i = i + 1;
        }
        false
    }

    pub(crate) fn record(&mut self, c: Collectible)
        ensures
            final(self)@ == old(self)@.push(c),
    {
        self.drained.push(c);
    }

    /// Everything this consumer has drained, in the order it was drained.
    pub fn drained(&self) -> (r: Vec<Collectible>)
        ensures
            r@ == self@,
    {
        let mut r: Vec<Collectible> = Vec::new();
        let mut i: usize = 0;
        while i < self.drained.len()
            invariant
                i <= self.drained.len(),
                r@ == self.drained@.subrange(0, i as int),
            decreases self.drained.len() - i,
        {
            r.push(self.drained[i]);
            i = i + 1;
        }
        assert(r@ =~= self.drained@);
        r
    }
}

} // verus!
