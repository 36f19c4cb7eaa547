//! Effects: deferred units of work, emitted as collectibles, that run at most
//! once however many collectors observe them.
//!
//! The runtime decides which effects run; the caller executes their work and
//! reports each outcome. Within one application the work of the claimed
//! effects is run one after the other, in the order returned, and every one
//! of them runs even when an earlier one failed.
use vstd::prelude::*;
use crate::collectible::{Collectible, CollectibleKind, Collector, EffectId, kind_of,
    lemma_effect_id_view_injective};
use crate::store::{StoreView, TaskState, TaskStore};

verus! {

/// `id` is visible from `task` and not yet drained by a collector that has
/// drained `drained`.
pub open spec fn effect_available(s: StoreView, drained: Seq<Collectible>, task: usize, id: EffectId) -> bool {
    !drained.contains(Collectible::Effect(id)) && s.visible(task, Collectible::Effect(id))
}

/// The store once every instance in `bundle` is spent.
pub open spec fn spend(s: StoreView, bundle: Seq<EffectId>) -> StoreView {
    StoreView {
        pending: Seq::new(
            s.pending.len(),
            |i: int| s.pending[i] && !(exists|k: int| 0 <= k < bundle.len() && (#[trigger] bundle[k])@ == i),
        ),
        ..s
    }
}

/// Schedules an effect on behalf of the running computation `task`: a fresh
/// pending instance, emitted as a collectible of `task`. Its work runs only
/// when a bundle holding it is applied.
pub fn effect(store: &mut TaskStore, task: usize) -> (r: EffectId)
    requires
        old(store)@.wf(),
        task < old(store)@.len(),
        old(store)@.entries[task as int].state == TaskState::Running,
    ensures
        r@ == old(store)@.pending.len(),
        final(store)@ == (StoreView { pending: old(store)@.pending.push(true), ..old(store)@ }).emitted(
            task as int,
            Collectible::Effect(r),
        ),
        final(store)@.wf(),
{
    store.emit_effect(task)
}

/// Effects captured from an operation, ordered by discovery, each instance
/// once. A bundle is a plain value: it can be returned, stored and applied
/// later.
pub struct Effects {
    effects: Vec<EffectId>,
}

impl View for Effects {
    type V = Seq<EffectId>;

    closed spec fn view(&self) -> Seq<EffectId> {
        self.effects@
    }
}

impl Default for Effects {
    fn default() -> (r: Effects)
        ensures
            r@ == Seq::<EffectId>::empty(),
    {
        Effects { effects: Vec::new() }
    }
}

/// Captures the effects visible from `task` that `collector` has not drained
/// yet, and drains them for `collector`.
pub fn get_effects(store: &TaskStore, collector: &mut Collector, task: usize) -> (r: Effects)
    requires
        store@.wf(),
        task < store@.len(),
    ensures
        r@.no_duplicates(),
        final(collector)@ == old(collector)@ + r@.map_values(|id: EffectId| Collectible::Effect(id)),
        forall|id: EffectId| r@.contains(id) <==> effect_available(store@, old(collector)@, task, id),
{
    let taken = store.take_collectibles(collector, task, CollectibleKind::Effect);
    let mut effects: Vec<EffectId> = Vec::new();
    let mut i: usize = 0;
    while i < taken.len()
        invariant
            i <= taken@.len(),
            effects@.len() == i,
            forall|k: int| 0 <= k < i ==> taken@[k] == Collectible::Effect(#[trigger] effects@[k]),
            forall|k: int| 0 <= k < taken@.len() ==> kind_of(#[trigger] taken@[k]) == CollectibleKind::Effect,
        decreases taken.len() - i,
    {
        assert(taken@.contains(taken@[i as int]));
        match taken[i] {
            Collectible::Effect(id) => effects.push(id),
            Collectible::Value { .. } => {},
        }
        i = i + 1;
    }
    proof {
        let drained0 = old(collector)@;
        assert(effects@.map_values(|id: EffectId| Collectible::Effect(id)) =~= taken@);
        assert forall|a: int, b: int| 0 <= a < effects@.len() && 0 <= b < effects@.len() && a != b
            implies effects@[a] != effects@[b] by {
            assert(taken@[a] != taken@[b]);
        }
        assert forall|id: EffectId| effects@.contains(id) <==> effect_available(store@, drained0, task, id) by {
            assert(kind_of(Collectible::Effect(id)) == CollectibleKind::Effect);
            assert(taken@.contains(Collectible::Effect(id)) <==> effect_available(store@, drained0, task, id));
            if effects@.contains(id) {
                let k = choose|k: int| 0 <= k < effects@.len() && effects@[k] == id;
                assert(taken@[k] == Collectible::Effect(id));
                assert(taken@.contains(Collectible::Effect(id)));
            }
            if taken@.contains(Collectible::Effect(id)) {
                let k = choose|k: int| 0 <= k < taken@.len() && taken@[k] == Collectible::Effect(id);
                assert(effects@[k] == id);
            }
        }
    }
    Effects { effects }
}

impl Effects {
    /// The captured instances, in order of discovery.
    pub fn ids(&self) -> (r: Vec<EffectId>)
        ensures
            r@ == self@,
    {
        let mut r: Vec<EffectId> = Vec::new();
        let mut i: usize = 0;
        while i < self.effects.len()
            invariant
                i <= self.effects@.len(),
                r@ == self.effects@.subrange(0, i as int),
            decreases self.effects.len() - i,
        {
            r.push(self.effects[i]);
            i = i + 1;
        }
        assert(r@ =~= self.effects@);
        r
    }

    pub fn len(&self) -> (r: usize)
        ensures
            r == self@.len(),
    {
        self.effects.len()
    }

    /// Applies the captured effects: takes the work of every instance that
    /// still holds it and returns those instances, whose work the caller then
    /// runs. An instance already applied, through this bundle or another,
    /// is skipped.
    pub fn apply(&self, store: &mut TaskStore) -> (r: Vec<EffectId>)
        requires
            old(store)@.wf(),
        ensures
            final(store)@ == spend(old(store)@, self@),
            final(store)@.wf(),
            r@.no_duplicates(),
            forall|id: EffectId| r@.contains(id) <==> (self@.contains(id) && (id@ as int) < old(store)@.pending.len()
                && old(store)@.pending[id@ as int]),
    {
        let ghost s = store@;
        let mut r: Vec<EffectId> = Vec::new();
        let mut i: usize = 0;
        proof {
            assert(spend(s, self@.subrange(0, 0)).pending =~= s.pending);
            assert(spend(s, self@.subrange(0, 0)) == s);
        }
        while i < self.effects.len()
            invariant
                i <= self.effects@.len(),
                store@ == spend(s, self@.subrange(0, i as int)),
                store@.wf(),
                s.wf(),
                r@.no_duplicates(),
                forall|id: EffectId| #[trigger] r@.contains(id) ==> (id@ as int) < s.pending.len()
                    && !store@.pending[id@ as int],
                forall|id: EffectId| r@.contains(id) <==> (self@.subrange(0, i as int).contains(id)
                    && (id@ as int) < s.pending.len() && s.pending[id@ as int]),
            decreases self.effects.len() - i,
        {
            let id = self.effects[i];
            let ghost r0 = r@;
            let ghost before = store@;
            let ghost pre = self@.subrange(0, i as int);
            let ghost post = self@.subrange(0, i as int + 1);
            assert(post =~= pre.push(id));
            let claimed = store.claim(id);
            if claimed {
                r.push(id);
            }
            proof {
                assert(store@ == spend(s, post)) by {
                    assert forall|j: int| 0 <= j < s.pending.len() implies store@.pending[j] == spend(s, post).pending[j] by {
                        assert(post[post.len() - 1]@ == id@);
                        if exists|k: int| 0 <= k < pre.len() && (#[trigger] pre[k])@ == j {
                            let k = choose|k: int| 0 <= k < pre.len() && (#[trigger] pre[k])@ == j;
                            assert(post[k] == pre[k]);
                        }
                        if exists|k: int| 0 <= k < post.len() && (#[trigger] post[k])@ == j {
                            let k = choose|k: int| 0 <= k < post.len() && (#[trigger] post[k])@ == j;
                            if k < pre.len() {
                                assert(pre[k] == post[k]);
                            }
                        }
                    }
                    assert(store@.pending =~= spend(s, post).pending);
                }
                assert forall|x: EffectId| #[trigger] r@.contains(x) implies (x@ as int) < s.pending.len()
                    && !store@.pending[x@ as int] by {
                    if r@.contains(x) && x != id {
                        let k = choose|k: int| 0 <= k < r@.len() && r@[k] == x;
                        assert(r0[k] == x);
                        assert(r0.contains(x));
                    }
                    if r@.contains(x) && x == id && !claimed {
                        let k = choose|k: int| 0 <= k < r@.len() && r@[k] == x;
                        assert(r0[k] == x);
                        assert(r0.contains(x));
                    }
                }
                if claimed {
                    assert(!r0.contains(id)) by {
                        if r0.contains(id) {
                            assert(!before.pending[id@ as int]);
                        }
                    }
                    assert forall|a: int, b: int| 0 <= a < r@.len() && 0 <= b < r@.len() && a != b
                        implies r@[a] != r@[b] by {
                        if a == r0.len() {
                            assert(r0.contains(r@[b]));
                        } else if b == r0.len() {
                            assert(r0.contains(r@[a]));
                        }
                    }
                }
                assert forall|x: EffectId| r@.contains(x) <==> (post.contains(x)
                    && (x@ as int) < s.pending.len() && s.pending[x@ as int]) by {
                    lemma_effect_id_view_injective(x, id);
                    if x == id {
                        assert(post[post.len() - 1] == id);
                        if !claimed && (id@ as int) < s.pending.len() && s.pending[id@ as int] {
                            assert(!before.pending[id@ as int]);
                            let k = choose|k: int| 0 <= k < pre.len() && (#[trigger] pre[k])@ == id@;
                            lemma_effect_id_view_injective(pre[k], id);
                            assert(pre.contains(id));
                            assert(r0.contains(id));
                        }
                        if claimed {
                            assert(r@[r@.len() - 1] == id);
                        }
                        if pre.contains(id) {
                            // An earlier occurrence already spent the instance.
                            let k = choose|k: int| 0 <= k < pre.len() && pre[k] == id;
                            assert(exists|k: int| 0 <= k < pre.len() && (#[trigger] pre[k])@ == id@);
                        }
                    } else {
                        if post.contains(x) {
                            let k = choose|k: int| 0 <= k < post.len() && post[k] == x;
                            assert(pre[k] == x);
                        }
                        if pre.contains(x) {
                            let k = choose|k: int| 0 <= k < pre.len() && pre[k] == x;
                            assert(post[k] == x);
                        }
                        if r@.contains(x) {
                            let k = choose|k: int| 0 <= k < r@.len() && r@[k] == x;
                            assert(r0[k] == x);
                        }
                        if r0.contains(x) {
                            let k = choose|k: int| 0 <= k < r0.len() && r0[k] == x;
                            assert(r@[k] == x);
                        }
                    }
                }
            }
            i = i + 1;
        }
        assert(self@.subrange(0, self@.len() as int) =~= self@);
        r
    }
}

impl Effects {
    /// Whether the bundle holds instance `id`.
    pub fn contains(&self, id: EffectId) -> (r: bool)
        ensures
            r == self@.contains(id),
    {
        let mut j: usize = 0;
        while j < self.effects.len()
            invariant
                j <= self@.len(),
                forall|k: int| 0 <= k < j ==> self@[k] != id,
            decreases self.effects.len() - j,
        {
            if self.effects[j] == id {
                assert(self@[j as int] == id);
                return true;
            }
            j = j + 1;
        }
        false
    }
}

impl PartialEq for Effects {
    fn eq(&self, other: &Effects) -> (r: bool)
        ensures
            r == (self@.len() == other@.len() && forall|i: int|
                0 <= i < other@.len() ==> self@.contains(#[trigger] other@[i])),
    {
        if self.effects.len() != other.effects.len() {
            return false;
        }
        let mut i: usize = 0;
        while i < other.effects.len()
            invariant
                i <= other@.len(),
                self@.len() == other@.len(),
                forall|k: int| 0 <= k < i ==> self@.contains(#[trigger] other@[k]),
            decreases other.effects.len() - i,
        {
            if !self.contains(other.effects[i]) {
                return false;
            }
            i = i + 1;
        }
        true
    }
}

impl vstd::std_specs::cmp::PartialEqSpecImpl for Effects {
    open spec fn obeys_eq_spec() -> bool {
        true
    }

    /// Equal sizes, and each of `other`'s instances in `self`.
    open spec fn eq_spec(&self, other: &Effects) -> bool {
        self@.len() == other@.len() && forall|i: int|
            0 <= i < other@.len() ==> self@.contains(#[trigger] other@[i])
    }
}

/// How the work of one applied effect ended, as its runner reports it.
pub enum EffectOutcome {
    Completed,
    /// It returned an error, with this message.
    Failed(String),
    /// It terminated abnormally, with the diagnostic that could be recovered.
    Panicked(Option<String>),
}

/// The error an application reports for a failed effect.
#[derive(Debug)]
pub enum EffectError {
    Failed(String),
    /// An abnormal termination, converted to an error; it carries the
    /// diagnostic message when one could be recovered.
    Panicked(Option<String>),
}

pub open spec fn failure_of(o: EffectOutcome) -> Option<EffectError> {
    match o {
        EffectOutcome::Completed => None,
        EffectOutcome::Failed(m) => Some(EffectError::Failed(m)),
        EffectOutcome::Panicked(m) => Some(EffectError::Panicked(m)),
    }
}

/// The failure of the earliest outcome that failed, if any did.
pub open spec fn first_failure(os: Seq<EffectOutcome>) -> Option<EffectError>
    decreases os.len(),
{
    if os.len() == 0 {
        None
    } else {
        match first_failure(os.drop_last()) {
            Some(e) => Some(e),
            None => failure_of(os.last()),
        }
    }
}

/// `r` reports the failure `f`, or success when there is none.
pub open spec fn reports(r: Result<(), EffectError>, f: Option<EffectError>) -> bool {
    match f {
        Some(e) => r == Err::<(), EffectError>(e),
        None => r is Ok,
    }
}

impl EffectOutcome {
    pub fn duplicate(&self) -> (r: EffectOutcome)
        ensures
            r == *self,
    {
        match self {
            EffectOutcome::Completed => EffectOutcome::Completed,
            EffectOutcome::Failed(m) => EffectOutcome::Failed(m.clone()),
            EffectOutcome::Panicked(None) => EffectOutcome::Panicked(None),
            EffectOutcome::Panicked(Some(m)) => EffectOutcome::Panicked(Some(m.clone())),
        }
    }
}

/// Folds one effect's outcome into the result of an application: the first
/// failure is kept, later ones are dropped.
pub fn apply_effect(outcome: EffectOutcome, first_error: &mut Result<(), EffectError>)
    ensures
        old(first_error).is_err() ==> *final(first_error) == *old(first_error),
        old(first_error).is_ok() ==> reports(*final(first_error), failure_of(outcome)),
{
    if first_error.is_ok() {
        match outcome {
            EffectOutcome::Completed => {},
            EffectOutcome::Failed(m) => {
                *first_error = Err(EffectError::Failed(m));
            },
            EffectOutcome::Panicked(m) => {
                *first_error = Err(EffectError::Panicked(m));
            },
        }
    }
}

/// The result of an application whose effects ended with `outcomes`, in the
/// order they were run: the first failure, or success.
pub fn first_error(outcomes: &Vec<EffectOutcome>) -> (r: Result<(), EffectError>)
    ensures
        reports(r, first_failure(outcomes@)),
{
    let mut acc: Result<(), EffectError> = Ok(());
    let mut i: usize = 0;
    while i < outcomes.len()
        invariant
            i <= outcomes@.len(),
            reports(acc, first_failure(outcomes@.subrange(0, i as int))),
        decreases outcomes.len() - i,
    {
        let o = outcomes[i].duplicate();
        proof {
            let pre = outcomes@.subrange(0, i as int);
            let post = outcomes@.subrange(0, i as int + 1);
            assert(post.drop_last() =~= pre);
            assert(post.last() == outcomes@[i as int]);
        }
        apply_effect(o, &mut acc);
        i = i + 1;
    }
    assert(outcomes@.subrange(0, outcomes@.len() as int) =~= outcomes@);
    acc
}

/// Captures the effects visible from `task` for `collector` and applies them
/// at once: the instances whose work the caller must now run. For a
/// computation that runs once; one that is recomputed captures a bundle with
/// `get_effects` and applies it later.
pub fn apply_effects(store: &mut TaskStore, collector: &mut Collector, task: usize) -> (r: Vec<EffectId>)
    requires
        old(store)@.wf(),
        task < old(store)@.len(),
    ensures
        final(store)@.wf(),
        r@.no_duplicates(),
        forall|id: EffectId| r@.contains(id) <==> (effect_available(old(store)@, old(collector)@, task, id)
            && old(store)@.pending[id@ as int]),
        forall|id: EffectId| #[trigger] effect_available(old(store)@, old(collector)@, task, id)
            ==> (id@ as int) < final(store)@.pending.len() && !final(store)@.pending[id@ as int],
        final(store)@.entries == old(store)@.entries,
{
    let bundle = get_effects(store, collector, task);
    let r = bundle.apply(store);
    proof {
        let s = old(store)@;
        assert forall|id: EffectId| #[trigger] effect_available(s, old(collector)@, task, id)
            implies (id@ as int) < s.pending.len() && (id@ as int) < store@.pending.len() && !store@.pending[id@ as int] by {
            effect_id_in_range(s, task, id);
            assert(bundle@.contains(id));
            let k = choose|k: int| 0 <= k < bundle@.len() && bundle@[k] == id;
            assert(exists|k: int| 0 <= k < bundle@.len() && (#[trigger] bundle@[k])@ == id@);
        }
    }
    r
}

/// An effect visible in a well-formed store names one of its instances.
proof fn effect_id_in_range(s: StoreView, task: usize, id: EffectId)
    requires
        s.wf(),
        s.visible(task, Collectible::Effect(id)),
    ensures
        (id@ as int) < s.pending.len(),
{
    let j = choose|j: usize| (j as int) < s.len() && #[trigger] s.reaches(task, j)
        && s.entries[j as int].collectibles.contains(Collectible::Effect(id));
    assert(s.entry_wf(j as int));
    let k = choose|k: int| 0 <= k < s.entries[j as int].collectibles.len()
        && s.entries[j as int].collectibles[k] == Collectible::Effect(id);
    assert(match s.entries[j as int].collectibles[k] {
        Collectible::Effect(id) => (id@ as int) < s.pending.len(),
        _ => true,
    });
}

} // verus!
