//! Laws of the runtime, stated over the views that the operations' contracts
//! use, and proved from those contracts' spec functions.
use vstd::prelude::*;
use crate::collectible::{Collectible, EffectId, lemma_effect_id_view_injective};
use crate::effect::spend;
use crate::graph::{is_path, lemma_edge_then_reaches, lemma_reaches_self, path_step, reaches};
use crate::identity::TaskIdentity;
use crate::store::{
    Consistency, Lookup, StoreView, TaskState, lemma_settled_reaches_settled,
};

verus! {

/// A reader that the store accepts: none, or a running entry.
pub open spec fn valid_caller(s: StoreView, caller: Option<usize>) -> bool {
    caller matches Some(c) ==> (c as int) < s.len() && s.entries[c as int].state == TaskState::Running
}

/// An instance is claimed by applying `bundle` to `s`: it is in the bundle
/// and still holds its work.
pub open spec fn claimed(s: StoreView, bundle: Seq<EffectId>, id: EffectId) -> bool {
    bundle.contains(id) && (id@ as int) < s.pending.len() && s.pending[id@ as int]
}

/// Memoization: two reads of a settled computation, with no invalidation
/// between them, both return its stored result, and neither starts it again.
pub proof fn lemma_memoization_idempotent(
    s0: StoreView,
    c1: Option<usize>,
    c2: Option<usize>,
    id: TaskIdentity,
)
    requires
        s0.wf(),
        s0.find(id) matches Some(i) && s0.settled(i),
        valid_caller(s0, c1),
        valid_caller(s0, c2),
    ensures
        ({
            let i = s0.find(id)->0;
            let s1 = s0.after_request(c1, id);
            let s2 = s1.after_request(c2, id);
            &&& s0.lookup(c1, id) == Lookup::Ready(i as usize, s0.entries[i].output->0)
            &&& s1.lookup(c2, id) == s0.lookup(c1, id)
            &&& s2.entries[i] == s0.entries[i]
            &&& s2.len() == s0.len()
        }),
{
    let i = s0.find(id)->0;
    let s1 = s0.after_request(c1, id);
    lemma_ready_read_keeps_entry(s0, c1, id, i);
    assert(s1.find(id) == Some(i)) by {
        assert(s1.entries[i].identity == id);
        assert forall|j: int| 0 <= j < s1.len() && #[trigger] s1.entries[j].identity == id implies j == i by {
            assert(s0.entries[j].identity == id);
        }
    }
    assert(valid_caller(s1, c2)) by {
        if let Some(c) = c2 {
            assert(s1.entries[c as int].state == s0.entries[c as int].state);
        }
    }
    lemma_ready_read_keeps_entry(s1, c2, id, i);
}

/// A read of a settled entry changes no entry but the reader's, and keeps
/// every identity and state.
proof fn lemma_ready_read_keeps_entry(s: StoreView, c: Option<usize>, id: TaskIdentity, i: int)
    requires
        s.wf(),
        s.find(id) == Some(i),
        s.settled(i),
        valid_caller(s, c),
    ensures
        ({
            let t = s.after_request(c, id);
            &&& s.lookup(c, id) == Lookup::Ready(i as usize, s.entries[i].output->0)
            &&& t.len() == s.len()
            &&& t.wf()
            &&& t.entries[i] == s.entries[i]
            &&& forall|j: int| 0 <= j < s.len() ==> (#[trigger] t.entries[j]).identity == s.entries[j].identity
                && t.entries[j].state == s.entries[j].state
        }),
{
    assert(s.entries[i].identity == id);
    if let Some(cc) = c {
        assert(cc as int != i);
    }
    let t = s.after_request(c, id);
    assert(t.wf()) by {
        if let Some(cc) = c {
            crate::store::lemma_with_edge_wf(s, cc as int, i as usize);
        }
    }
}

/// Single flight: the first reader of a new identity executes it; a second
/// reader while it runs shares that execution, which is counted once.
pub proof fn lemma_single_flight(s0: StoreView, c1: Option<usize>, c2: Option<usize>, id: TaskIdentity)
    requires
        s0.wf(),
        s0.find(id) is None,
        s0.clock < u64::MAX,
        s0.len() < usize::MAX,
        valid_caller(s0, c1),
        valid_caller(s0, c2),
    ensures
        ({
            let n = s0.len();
            let s1 = s0.after_request(c1, id);
            let s2 = s1.after_request(c2, id);
            &&& s0.lookup(c1, id) == Lookup::Execute(n as usize)
            &&& s1.lookup(c2, id) == Lookup::InFlight(n as usize)
            &&& s2.entries[n].executions == 1
            &&& s2.entries[n].state == TaskState::Running
        }),
{
    let n = s0.len();
    let s1 = s0.after_request(c1, id);
    let sc = s0.created(id);
    assert(sc.entries[n].identity == id);
    assert(s1.entries[n] == sc.entries[n]) by {
        if let Some(c) = c1 {
            assert(c as int != n);
        }
    }
    assert(s1.len() == n + 1);
    assert(s1.find(id) == Some(n)) by {
        assert(s1.entries[n].identity == id);
        assert forall|j: int| 0 <= j < s1.len() && #[trigger] s1.entries[j].identity == id implies j == n by {
            if j < n {
                assert(s1.entries[j].identity == s0.entries[j].identity);
            }
        }
    }
    if let Some(c) = c2 {
        // The new entry has read nothing, so it reaches only itself.
        assert(s1.graph()[n] == s1.entries[n].dependencies);
        if s1.reaches(n as usize, c) {
            lemma_no_deps_reaches_only_self(s1.graph(), n as usize, c);
        }
    }
}

/// Single flight, for any number of readers: while an entry runs, every
/// reader that it does not itself depend on shares the running execution,
/// and the read leaves the entry running with its execution count as it was.
pub proof fn lemma_running_entry_is_shared(s: StoreView, c: Option<usize>, id: TaskIdentity)
    requires
        s.wf(),
        s.find(id) matches Some(i) && s.entries[i].state == TaskState::Running,
        valid_caller(s, c),
        c matches Some(cc) ==> !s.reaches((s.find(id)->0) as usize, cc),
    ensures
        ({
            let i = s.find(id)->0;
            let t = s.after_request(c, id);
            &&& s.lookup(c, id) == Lookup::InFlight(i as usize)
            &&& t.entries[i] == s.entries[i]
            &&& t.find(id) == Some(i)
            &&& t.wf()
        }),
{
    let i = s.find(id)->0;
    let t = s.after_request(c, id);
    assert(s.entries[i].identity == id);
    if let Some(cc) = c {
        if cc as int == i {
            lemma_reaches_self(s.graph(), cc);
        }
        crate::store::lemma_with_edge_wf(s, cc as int, i as usize);
    }
    assert(t.find(id) == Some(i)) by {
        assert(t.entries[i].identity == id);
        assert forall|j: int| 0 <= j < t.len() && #[trigger] t.entries[j].identity == id implies j == i by {
            assert(s.entries[j].identity == id);
        }
    }
}

proof fn lemma_no_deps_reaches_only_self(g: Seq<Seq<usize>>, a: usize, b: usize)
    requires
        (a as int) < g.len(),
        g[a as int].len() == 0,
        reaches(g, a, b),
    ensures
        a == b,
{
    let p = choose|p: Seq<usize>| #[trigger] is_path(g, p) && p[0] == a && p.last() == b;
    if p.len() > 1 {
        assert(path_step(g, p, 0));
    }
}

/// Bubble-up: once a running computation `b` has read computation `a`, every
/// collectible of `a`'s last execution is visible from `b`.
pub proof fn lemma_collectible_bubbles_up(s0: StoreView, b: usize, id: TaskIdentity, c: Collectible)
    requires
        s0.wf(),
        valid_caller(s0, Some(b)),
        s0.find(id) matches Some(a) && s0.settled(a) && s0.entries[a].collectibles.contains(c),
    ensures
        s0.after_request(Some(b), id).visible(b, c),
{
    let a = s0.find(id)->0;
    let s1 = s0.after_request(Some(b), id);
    lemma_ready_read_keeps_entry(s0, Some(b), id, a);
    assert(s1 == s0.with_edge(b as int, a as usize));
    let deps0 = s0.entries[b as int].dependencies;
    if !deps0.contains(a as usize) {
        assert(s1.entries[b as int].dependencies[deps0.len() as int] == a as usize);
    }
    assert(s1.entries[b as int].dependencies.contains(a as usize));
    let g = s1.graph();
    assert(g[b as int] == s1.entries[b as int].dependencies);
    lemma_reaches_self(g, a as usize);
    lemma_edge_then_reaches(g, b, a as usize, a as usize);
    assert(s1.reaches(b, a as usize));
}

/// Bubble-up is bounded by the read graph: a collectible that no entry
/// reached from `b` emitted is not visible from `b`.
pub proof fn lemma_unread_not_visible(s: StoreView, b: usize, c: Collectible)
    requires
        forall|j: usize| #[trigger] s.reaches(b, j) && (j as int) < s.len()
            ==> !s.entries[j as int].collectibles.contains(c),
    ensures
        !s.visible(b, c),
{
}

/// Exactly once: applying two bundles in turn runs each instance at most
/// once in total, and runs every instance of either bundle that held its work.
pub proof fn lemma_effect_exactly_once(s0: StoreView, b1: Seq<EffectId>, b2: Seq<EffectId>, id: EffectId)
    ensures
        !(claimed(s0, b1, id) && claimed(spend(s0, b1), b2, id)),
        (claimed(s0, b1, id) || claimed(spend(s0, b1), b2, id)) <==> ((id@ as int) < s0.pending.len()
            && s0.pending[id@ as int] && (b1.contains(id) || b2.contains(id))),
{
    let s1 = spend(s0, b1);
    if b1.contains(id) {
        let k = choose|k: int| 0 <= k < b1.len() && b1[k] == id;
        assert(b1[k]@ == id@);
    } else if (id@ as int) < s0.pending.len() {
        assert forall|k: int| 0 <= k < b1.len() implies (#[trigger] b1[k])@ != id@ by {
            lemma_effect_id_view_injective(b1[k], id);
        }
    }
}

/// Bundles are independent: applying one leaves every instance outside it
/// as it was, so applying a disjoint bundle later still runs its instances.
pub proof fn lemma_bundles_independent(s: StoreView, b1: Seq<EffectId>, b2: Seq<EffectId>, id: EffectId)
    requires
        b2.contains(id),
        !b1.contains(id),
    ensures
        claimed(spend(s, b1), b2, id) == claimed(s, b2, id),
{
    if (id@ as int) < s.pending.len() {
        assert forall|k: int| 0 <= k < b1.len() implies (#[trigger] b1[k])@ != id@ by {
            lemma_effect_id_view_injective(b1[k], id);
        }
    }
}

/// Strong consistency: when a consistent read of `x` is ready, everything
/// `x` transitively read is settled, each at the version its reader observed.
pub proof fn lemma_ready_is_consistent(s: StoreView, x: usize, b: usize)
    requires
        s.wf(),
        (x as int) < s.len(),
        s.consistency(x as int) is Ready,
        s.reaches(x, b),
    ensures
        (b as int) < s.len(),
        s.settled(b as int),
        forall|k: int| 0 <= k < s.entries[b as int].dependencies.len() ==> #[trigger] s.dep_current(b as int, k),
{
    lemma_settled_reaches_settled(s, x, b);
    assert(s.entry_wf(b as int));
}

/// Invalidation propagates: when `x` transitively read `y` and `y`'s input
/// changes, a consistent read of `x` is no longer ready, while a relaxed
/// read of `x` still returns its previous result.
pub proof fn lemma_invalidation_propagates(s: StoreView, x: usize, y: usize)
    requires
        s.wf(),
        (x as int) < s.len(),
        (y as int) < s.len(),
        s.clock < u64::MAX,
        s.reaches(x, y),
    ensures
        !(s.after_invalidate(y).consistency(x as int) is Ready),
        s.settled(x as int) ==> s.after_invalidate(y).consistency(x as int) == Consistency::Recompute,
        s.after_invalidate(y).entries[x as int].output == s.entries[x as int].output,
{
}

} // verus!
