//! The memoization store: one cache entry per computation identity, with
//! the dependency edges, collectibles and version of its last execution.
use vstd::prelude::*;
use crate::collectible::{Collectible, CollectibleKind, Collector, EffectId, kind_of};
use crate::graph::{
    closed_under_deps, lemma_closed_holds_reachable, lemma_distinct_below, lemma_reaches_self,
    lemma_reaches_then_edge, lemma_edge_then_reaches, reaches,
};
use crate::identity::TaskIdentity;

verus! {

/// Where a computation stands: `Pending` before its first run and after an
/// invalidation, `Running` while it executes, then `Settled` or `Failed`.
#[derive(Clone, Copy, Debug, PartialEq, Eq, Hash, Structural)]
pub enum TaskState {
    Pending,
    Running,
    Settled,
    Failed,
}

/// A computed value: an opaque payload, and the capabilities (one bit each)
/// that its concrete type implements.
#[derive(Clone, Copy, Debug, PartialEq, Eq, Hash, Structural)]
pub struct Output {
    pub payload: u64,
    pub capabilities: u64,
}

/// The stored result of one execution: a value, or the error it raised.
/// Errors are opaque payloads to the runtime.
#[derive(Clone, Copy, Debug, PartialEq, Eq, Hash, Structural)]
pub enum Outcome {
    Value(Output),
    Error(u64),
}

/// What the store tells a reader that asks for a computation's result.
#[derive(Clone, Copy, Debug, PartialEq, Eq, Hash, Structural)]
pub enum Lookup {
    /// The entry is settled: here is its result.
    Ready(usize, Outcome),
    /// The reader must execute the computation now and report its result.
    Execute(usize),
    /// Another reader is executing it: wait for that execution.
    InFlight(usize),
    /// Waiting would never end: the running entry already depends on the
    /// reader.
    Cycle(usize),
}

/// The next step of a strongly consistent read.
#[derive(Clone, Copy, Debug, PartialEq, Eq, Hash, Structural)]
pub enum Consistency {
    /// The entry and everything it transitively read are settled.
    Ready(Outcome),
    /// The entry is stale and must be executed again.
    Recompute,
    /// The entry is executing: wait for it.
    Wait,
}

/// One cache entry.
pub struct CacheEntry {
    pub identity: TaskIdentity,
    pub state: TaskState,
    /// Result of the last completed execution, kept when the entry goes stale.
    pub output: Option<Outcome>,
    /// Entries read during the current or last execution, without repeats.
    pub dependencies: Vec<usize>,
    /// The version of each dependency when it was first read.
    pub observed: Vec<u64>,
    /// Collectibles emitted by the current or last execution, in order.
    pub collectibles: Vec<Collectible>,
    pub version: u64,
    /// The version at which the current or last execution began.
    pub started_at: u64,
    /// How many times the computation has been started.
    pub executions: u64,
}

pub struct EntryView {
    pub identity: TaskIdentity,
    pub state: TaskState,
    pub output: Option<Outcome>,
    pub dependencies: Seq<usize>,
    pub observed: Seq<u64>,
    pub collectibles: Seq<Collectible>,
    pub version: u64,
    pub started_at: u64,
    pub executions: u64,
}

impl View for CacheEntry {
    type V = EntryView;

    open spec fn view(&self) -> EntryView {
        EntryView {
            identity: self.identity,
            state: self.state,
            output: self.output,
            dependencies: self.dependencies@,
            observed: self.observed@,
            collectibles: self.collectibles@,
            version: self.version,
            started_at: self.started_at,
            executions: self.executions,
        }
    }
}

/// The whole runtime state: cache entries, the pending flag of each effect
/// instance, and the clock that versions are drawn from.
pub struct StoreView {
    pub entries: Seq<EntryView>,
    pub pending: Seq<bool>,
    pub clock: u64,
}

pub open spec fn is_settled(e: EntryView) -> bool {
    e.state == TaskState::Settled || e.state == TaskState::Failed
}

impl StoreView {
    pub open spec fn len(self) -> int {
        self.entries.len() as int
    }

    pub open spec fn graph(self) -> Seq<Seq<usize>> {
        self.entries.map_values(|e: EntryView| e.dependencies)
    }

    pub open spec fn settled(self, i: int) -> bool {
        is_settled(self.entries[i])
    }

    /// The `k`-th dependency of entry `i` is settled and still at the version
    /// that `i` observed.
    pub open spec fn dep_current(self, i: int, k: int) -> bool {
        let d = self.entries[i].dependencies[k] as int;
        self.settled(d) && self.entries[d].version == self.entries[i].observed[k]
    }

    pub open spec fn entry_wf(self, i: int) -> bool {
        let e = self.entries[i];
        &&& e.dependencies.len() == e.observed.len()
        &&& e.dependencies.no_duplicates()
        &&& forall|k: int| 0 <= k < e.dependencies.len() ==> (#[trigger] e.dependencies[k] as int)
            < self.len()
        &&& forall|k: int|
            0 <= k < e.collectibles.len() ==> match #[trigger] e.collectibles[k] {
                Collectible::Effect(id) => (id@ as int) < self.pending.len(),
                _ => true,
            }
        &&& e.state == TaskState::Settled ==> (e.output matches Some(Outcome::Value(_)))
        &&& e.state == TaskState::Failed ==> (e.output matches Some(Outcome::Error(_)))
        &&& is_settled(e) ==> forall|k: int|
            0 <= k < e.dependencies.len() ==> #[trigger] self.dep_current(i, k)
        &&& e.started_at <= e.version <= self.clock
        &&& e.executions <= self.clock
    }

    /// The store's invariant: identities are unique, every edge points into
    /// the store, and a settled entry has only settled dependencies, each at
    /// the version it observed.
    pub open spec fn wf(self) -> bool {
        &&& forall|i: int, j: int|
            0 <= i < self.len() && 0 <= j < self.len() && i != j ==> self.entries[i].identity
                != self.entries[j].identity
        &&& forall|i: int| 0 <= i < self.len() ==> #[trigger] self.entry_wf(i)
        &&& self.len() <= usize::MAX
    }

    pub open spec fn reaches(self, a: usize, b: usize) -> bool {
        reaches(self.graph(), a, b)
    }

    /// The index of the entry with this identity, if there is one.
    pub open spec fn find(self, id: TaskIdentity) -> Option<int> {
        if exists|i: int| 0 <= i < self.len() && #[trigger] self.entries[i].identity == id {
            Some(choose|i: int| 0 <= i < self.len() && #[trigger] self.entries[i].identity == id)
        } else {
            None
        }
    }


    /// The answer to a read of `id` by `caller` (the running computation that
    /// reads, if any).
    pub open spec fn lookup(self, caller: Option<usize>, id: TaskIdentity) -> Lookup {
        match self.find(id) {
            None => Lookup::Execute(self.len() as usize),
            Some(i) => {
                let e = self.entries[i];
                if e.state == TaskState::Pending {
                    Lookup::Execute(i as usize)
                } else if e.state == TaskState::Running {
                    if caller matches Some(c) && self.reaches(i as usize, c) {
                        Lookup::Cycle(i as usize)
                    } else {
                        Lookup::InFlight(i as usize)
                    }
                } else {
                    Lookup::Ready(i as usize, e.output->0)
                }
            }
        }
    }

    /// A fresh execution of entry `i` begins: its dependencies and
    /// collectibles are cleared and it gets a new version.
    pub open spec fn restarted(self, i: int) -> StoreView {
        let e = self.entries[i];
        let tick = (self.clock + 1) as u64;
        StoreView {
            entries: self.entries.update(
                i,
                EntryView {
                    state: TaskState::Running,
                    dependencies: Seq::empty(),
                    observed: Seq::empty(),
                    collectibles: Seq::empty(),
                    version: tick,
                    started_at: tick,
                    executions: (e.executions + 1) as u64,
                    ..e
                },
            ),
            clock: tick,
            ..self
        }
    }

    /// A new entry for `id`, whose first execution begins.
    pub open spec fn created(self, id: TaskIdentity) -> StoreView {
        let tick = (self.clock + 1) as u64;
        StoreView {
            entries: self.entries.push(
                EntryView {
                    identity: id,
                    state: TaskState::Running,
                    output: None,
                    dependencies: Seq::empty(),
                    observed: Seq::empty(),
                    collectibles: Seq::empty(),
                    version: tick,
                    started_at: tick,
                    executions: 1,
                },
            ),
            clock: tick,
            ..self
        }
    }

    /// `caller` records that it read `target`, at the version `target` has
    /// now, unless it had read it before.
    pub open spec fn with_edge(self, caller: int, target: usize) -> StoreView {
        let e = self.entries[caller];
        if e.dependencies.contains(target) {
            self
        } else {
            StoreView {
                entries: self.entries.update(
                    caller,
                    EntryView {
                        dependencies: e.dependencies.push(target),
                        observed: e.observed.push(self.entries[target as int].version),
                        ..e
                    },
                ),
                ..self
            }
        }
    }

    /// The store after a read of `id` by `caller`.
    pub open spec fn after_request(self, caller: Option<usize>, id: TaskIdentity) -> StoreView {
        let r = self.lookup(caller, id);
        let s1 = match r {
            Lookup::Execute(i) => if i as int == self.len() {
                self.created(id)
            } else {
                self.restarted(i as int)
            },
            _ => self,
        };
        match r {
            Lookup::Cycle(_) => s1,
            Lookup::Execute(t) | Lookup::InFlight(t) | Lookup::Ready(t, _) => match caller {
                Some(c) => s1.with_edge(c as int, t),
                None => s1,
            },
        }
    }


    /// Entry `i`'s running execution may settle: its version has not moved
    /// since it began and every dependency is current.
    pub open spec fn current(self, i: int) -> bool {
        let e = self.entries[i];
        &&& e.version == e.started_at
        &&& forall|k: int| 0 <= k < e.dependencies.len() ==> #[trigger] self.dep_current(i, k)
    }

    /// Entry `i` emitted `c`.
    pub open spec fn emitted(self, i: int, c: Collectible) -> StoreView {
        let e = self.entries[i];
        StoreView {
            entries: self.entries.update(i, EntryView { collectibles: e.collectibles.push(c), ..e }),
            ..self
        }
    }

    /// Entry `i`'s execution finished with `o`. It settles if it is current,
    /// and goes back to `Pending` otherwise.
    pub open spec fn completed(self, i: int, o: Outcome) -> StoreView {
        let e = self.entries[i];
        let state = if !self.current(i) {
            TaskState::Pending
        } else if o is Value {
            TaskState::Settled
        } else {
            TaskState::Failed
        };
        StoreView {
            entries: self.entries.update(i, EntryView { state, output: Some(o), ..e }),
            ..self
        }
    }

    /// The input of entry `y` changed: `y` gets a new version, and every
    /// settled entry that reaches `y` (`y` included) becomes `Pending`.
    pub open spec fn after_invalidate(self, y: usize) -> StoreView {
        let tick = (self.clock + 1) as u64;
        StoreView {
            entries: Seq::new(
                self.entries.len(),
                |i: int|
                    {
                        let e = self.entries[i];
                        EntryView {
                            state: if self.settled(i) && self.reaches(i as usize, y) {
                                TaskState::Pending
                            } else {
                                e.state
                            },
                            version: if i == y as int {
                                tick
                            } else {
                                e.version
                            },
                            ..e
                        }
                    },
            ),
            clock: tick,
            ..self
        }
    }

    /// What a strongly consistent read of entry `i` must do next.
    pub open spec fn consistency(self, i: int) -> Consistency {
        let e = self.entries[i];
        if e.state == TaskState::Running {
            Consistency::Wait
        } else if e.state == TaskState::Pending {
            Consistency::Recompute
        } else {
            Consistency::Ready(e.output->0)
        }
    }

    /// `c` was emitted by the last execution of an entry that `task` reaches.
    pub open spec fn visible(self, task: usize, c: Collectible) -> bool {
        exists|j: usize|
            (j as int) < self.len() && #[trigger] self.reaches(task, j)
                && self.entries[j as int].collectibles.contains(c)
    }
}

/// A settled entry reaches only settled entries.
pub proof fn lemma_settled_reaches_settled(s: StoreView, a: usize, b: usize)
    requires
        s.wf(),
        (a as int) < s.len(),
        s.settled(a as int),
        s.reaches(a, b),
    ensures
        (b as int) < s.len(),
        s.settled(b as int),
{
    let g = s.graph();
    let p = choose|p: Seq<usize>| #[trigger] crate::graph::is_path(g, p) && p[0] == a && p.last() == b;
    lemma_path_settled(s, p, p.len() - 1);
}

proof fn lemma_path_settled(s: StoreView, p: Seq<usize>, i: int)
    requires
        s.wf(),
        crate::graph::is_path(s.graph(), p),
        0 <= p[0] < s.len(),
        s.settled(p[0] as int),
        0 <= i < p.len(),
    ensures
        0 <= p[i] < s.len(),
        s.settled(p[i] as int),
    decreases i,
{
    if i > 0 {
        lemma_path_settled(s, p, i - 1);
        let g = s.graph();
        assert(crate::graph::path_step(g, p, i - 1));
        let a = p[i - 1] as int;
        assert(s.entry_wf(a));
        assert(g[a] == s.entries[a].dependencies);
        let k = choose|k: int| 0 <= k < g[a].len() && g[a][k] == p[i];
        assert(s.dep_current(a, k));
    }
}


proof fn lemma_restarted_wf(s: StoreView, i: int)
    requires
        s.wf(),
        0 <= i < s.len(),
        !s.settled(i),
        s.clock < u64::MAX,
    ensures
        s.restarted(i).wf(),
{
    let t = s.restarted(i);
    assert forall|j: int| 0 <= j < t.len() implies #[trigger] t.entry_wf(j) by {
        assert(s.entry_wf(j));
        if j != i && t.settled(j) {
            assert forall|k: int| 0 <= k < t.entries[j].dependencies.len() implies #[trigger] t.dep_current(j, k) by {
                assert(s.dep_current(j, k));
            }
        }
    }
}

proof fn lemma_created_wf(s: StoreView, id: TaskIdentity)
    requires
        s.wf(),
        s.find(id) is None,
        s.clock < u64::MAX,
        s.len() < usize::MAX,
    ensures
        s.created(id).wf(),
{
    let t = s.created(id);
    assert forall|j: int| 0 <= j < t.len() implies #[trigger] t.entry_wf(j) by {
        if j < s.len() {
            assert(s.entry_wf(j));
            if t.settled(j) {
                assert forall|k: int| 0 <= k < t.entries[j].dependencies.len() implies #[trigger] t.dep_current(j, k) by {
                    assert(s.dep_current(j, k));
                }
            }
        }
    }
    assert forall|i: int, j: int|
        0 <= i < t.len() && 0 <= j < t.len() && i != j implies t.entries[i].identity
            != t.entries[j].identity by {
        if i == s.len() {
            assert(s.entries[j].identity != id);
        } else if j == s.len() {
            assert(s.entries[i].identity != id);
        }
    }
}

/// Recording a read edge of a running entry keeps the store well formed.
pub proof fn lemma_with_edge_wf(s: StoreView, c: int, target: usize)
    requires
        s.wf(),
        0 <= c < s.len(),
        !s.settled(c),
        (target as int) < s.len(),
    ensures
        s.with_edge(c, target).wf(),
{
    let t = s.with_edge(c, target);
    if !s.entries[c].dependencies.contains(target) {
        assert forall|j: int| 0 <= j < t.len() implies #[trigger] t.entry_wf(j) by {
            assert(s.entry_wf(j));
            if j == c {
                let d = t.entries[c].dependencies;
                assert forall|k: int| 0 <= k < d.len() implies (#[trigger] d[k] as int) < t.len() by {
                    if k < d.len() - 1 {
                        assert(d[k] == s.entries[c].dependencies[k]);
                    }
                }
                assert forall|a: int, b: int| 0 <= a < d.len() && 0 <= b < d.len() && a != b implies d[a] != d[b] by {
                    if a == d.len() - 1 {
                        assert(!s.entries[c].dependencies.contains(target));
                        assert(d[b] == s.entries[c].dependencies[b]);
                    } else if b == d.len() - 1 {
                        assert(d[a] == s.entries[c].dependencies[a]);
                    }
                }
            } else if t.settled(j) {
                assert forall|k: int| 0 <= k < t.entries[j].dependencies.len() implies #[trigger] t.dep_current(j, k) by {
                    assert(s.dep_current(j, k));
                }
            }
        }
    }
}


proof fn lemma_emitted_wf(s: StoreView, i: int, c: Collectible)
    requires
        s.wf(),
        0 <= i < s.len(),
        c matches Collectible::Effect(id) ==> (id@ as int) < s.pending.len(),
    ensures
        s.emitted(i, c).wf(),
{
    let t = s.emitted(i, c);
    assert forall|j: int| 0 <= j < t.len() implies #[trigger] t.entry_wf(j) by {
        assert(s.entry_wf(j));
        if j == i {
            let cs = t.entries[i].collectibles;
            assert forall|k: int| 0 <= k < cs.len() implies match #[trigger] cs[k] {
                Collectible::Effect(id) => (id@ as int) < t.pending.len(),
                _ => true,
            } by {
                if k < cs.len() - 1 {
                    assert(cs[k] == s.entries[i].collectibles[k]);
                }
            }
        }
        if t.settled(j) {
            assert forall|k: int| 0 <= k < t.entries[j].dependencies.len() implies #[trigger] t.dep_current(j, k) by {
                assert(s.dep_current(j, k));
            }
        }
    }
}

proof fn lemma_completed_wf(s: StoreView, i: int, o: Outcome)
    requires
        s.wf(),
        0 <= i < s.len(),
        s.entries[i].state == TaskState::Running,
    ensures
        s.completed(i, o).wf(),
{
    let t = s.completed(i, o);
    assert forall|j: int| 0 <= j < t.len() implies #[trigger] t.entry_wf(j) by {
        assert(s.entry_wf(j));
        if t.settled(j) {
            assert forall|k: int| 0 <= k < t.entries[j].dependencies.len() implies #[trigger] t.dep_current(j, k) by {
                if j == i {
                    assert(s.dep_current(j, k));
                } else {
                    assert(s.dep_current(j, k));
                }
            }
        }
    }
}

proof fn lemma_after_invalidate_wf(s: StoreView, y: usize)
    requires
        s.wf(),
        (y as int) < s.len(),
        s.clock < u64::MAX,
    ensures
        s.after_invalidate(y).wf(),
{
    let t = s.after_invalidate(y);
    let g = s.graph();
    lemma_reaches_self(g, y);
    assert(t.graph() =~= g);
    assert forall|j: int| 0 <= j < t.len() implies #[trigger] t.entry_wf(j) by {
        assert(s.entry_wf(j));
        if t.settled(j) {
            assert(s.settled(j) && !s.reaches(j as usize, y));
            assert forall|k: int| 0 <= k < t.entries[j].dependencies.len() implies #[trigger] t.dep_current(j, k) by {
                assert(s.dep_current(j, k));
                let d = s.entries[j].dependencies[k];
                assert(g[j].contains(d)) by {
                    assert(g[j][k] == d);
                }
                if s.reaches(d, y) {
                    lemma_edge_then_reaches(g, j as usize, d, y);
                }
            }
        }
    }
}

pub struct TaskStore {
    entries: Vec<CacheEntry>,
    pending: Vec<bool>,
    clock: u64,
}

impl View for TaskStore {
    type V = StoreView;

    closed spec fn view(&self) -> StoreView {
        StoreView {
            entries: self.entries@.map_values(|e: CacheEntry| e@),
            pending: self.pending@,
            clock: self.clock,
        }
    }
}

impl TaskStore {
    pub fn new() -> (r: TaskStore)
        ensures
            r@.wf(),
            r@.entries.len() == 0,
            r@.pending.len() == 0,
            r@.clock == 0,
    {
        TaskStore { entries: Vec::new(), pending: Vec::new(), clock: 0 }
    }

    pub fn len(&self) -> (r: usize)
        ensures
            r == self@.len(),
    {
        self.entries.len()
    }

    /// Read access to one entry.
    pub fn entry(&self, i: usize) -> (r: &CacheEntry)
        requires
            i < self@.len(),
        ensures
            r@ == self@.entries[i as int],
    {
        &self.entries[i]
    }

    /// The index of the entry with this identity, if there is one.
    pub fn find(&self, id: &TaskIdentity) -> (r: Option<usize>)
        requires
            self@.wf(),
        ensures
            match r {
                Some(i) => self@.find(*id) == Some(i as int),
                None => self@.find(*id) is None,
            },
    {
        let mut i: usize = 0;
        while i < self.entries.len()
            invariant
                i <= self.entries.len(),
                self@.wf(),
                forall|j: int| 0 <= j < i ==> self@.entries[j].identity != *id,
            decreases self.entries.len() - i,
        {
            if self.entries[i].identity.same_as(id) {
                assert(self@.entries[i as int].identity == *id);
                assert(self@.find(*id) == Some(i as int));
                return Some(i);
            }
            i = i + 1;
        }
        None
    }

    /// Entry `a` transitively read entry `b`.
    pub fn depends_on(&self, a: usize, b: usize) -> (r: bool)
        requires
            self@.wf(),
            a < self@.len(),
            b < self@.len(),
        ensures
            r == self@.reaches(a, b),
    {
        let order = self.reachable_from(a);
        let mut i: usize = 0;
        while i < order.len()
            invariant
                i <= order@.len(),
                (b as int) < self@.len(),
                forall|j: int| 0 <= j < i ==> order@[j] != b,
                forall|x: usize| (x as int) < self@.len() ==> (order@.contains(x) <==> self@.reaches(a, x)),
            decreases order.len() - i,
        {
            if order[i] == b {
                assert(order@.contains(b));
                assert(order@.contains(b) <==> self@.reaches(a, b));
                return true;
            }
            i = i + 1;
        }
        assert(!order@.contains(b));
        assert(order@.contains(b) <==> self@.reaches(a, b));
        false
    }

    fn restart(&mut self, i: usize)
        requires
            old(self)@.wf(),
            i < old(self)@.len(),
            !old(self)@.settled(i as int),
            old(self)@.clock < u64::MAX,
        ensures
            final(self)@ == old(self)@.restarted(i as int),
    {
        assert(old(self)@.entry_wf(i as int));
        let tick = self.clock + 1;
        let ghost before = self.entries@;
        let mut e = CacheEntry {
            identity: self.entries[i].identity,
            state: TaskState::Pending,
            output: None,
            dependencies: Vec::new(),
            observed: Vec::new(),
            collectibles: Vec::new(),
            version: 0,
            started_at: 0,
            executions: 0,
        };
        self.entries.set_and_swap(i, &mut e);
        e.state = TaskState::Running;
        e.dependencies = Vec::new();
        e.observed = Vec::new();
        e.collectibles = Vec::new();
        e.version = tick;
        e.started_at = tick;
        e.executions = e.executions + 1;
        self.entries.set_and_swap(i, &mut e);
        self.clock = tick;
        assert(self@.entries =~= old(self)@.restarted(i as int).entries);
    }

    fn create(&mut self, id: TaskIdentity) -> (r: usize)
        requires
            old(self)@.wf(),
            old(self)@.clock < u64::MAX,
        ensures
            r == old(self)@.len(),
            final(self)@ == old(self)@.created(id),
    {
        let tick = self.clock + 1;
        let r = self.entries.len();
        self.entries.push(
            CacheEntry {
                identity: id,
                state: TaskState::Running,
                output: None,
                dependencies: Vec::new(),
                observed: Vec::new(),
                collectibles: Vec::new(),
                version: tick,
                started_at: tick,
                executions: 1,
            },
        );
        self.clock = tick;
        assert(self@.entries =~= old(self)@.created(id).entries);
        r
    }

    fn add_edge(&mut self, c: usize, target: usize)
        requires
            old(self)@.wf(),
            c < old(self)@.len(),
            target < old(self)@.len(),
        ensures
            final(self)@ == old(self)@.with_edge(c as int, target),
    {
        let ghost s = self@;
        let mut k: usize = 0;
        let n = self.entries[c].dependencies.len();
        while k < n
            invariant
                self@ == s,
                n == s.entries[c as int].dependencies.len(),
                c < s.len(),
                k <= n,
                forall|j: int| 0 <= j < k ==> s.entries[c as int].dependencies[j] != target,
            decreases n - k,
        {
            if self.entries[c].dependencies[k] == target {
                assert(s.entries[c as int].dependencies.contains(target));
                return;
            }
            k = k + 1;
        }
        let version = self.entries[target].version;
        let mut e = CacheEntry {
            identity: self.entries[c].identity,
            state: TaskState::Pending,
            output: None,
            dependencies: Vec::new(),
            observed: Vec::new(),
            collectibles: Vec::new(),
            version: 0,
            started_at: 0,
            executions: 0,
        };
        self.entries.set_and_swap(c, &mut e);
        e.dependencies.push(target);
        e.observed.push(version);
        self.entries.set_and_swap(c, &mut e);
        assert(self@.entries =~= s.with_edge(c as int, target).entries);
    }

    /// Asks for the result of the computation `id` on behalf of `caller`, the
    /// running computation that reads it (none for a top-level read).
    ///
    /// A settled entry answers at once. An absent or stale one is started and
    /// the reader must execute it; one that is running is shared with the
    /// reader, which waits for it, unless it already depends on the reader.
    /// The read is recorded as a dependency edge of `caller`.
    pub fn request(&mut self, caller: Option<usize>, id: TaskIdentity) -> (r: Lookup)
        requires
            old(self)@.wf(),
            old(self)@.clock < u64::MAX,
            old(self)@.len() < usize::MAX,
            caller matches Some(c) ==> (c as int) < old(self)@.len()
                && old(self)@.entries[c as int].state == TaskState::Running,
        ensures
            r == old(self)@.lookup(caller, id),
            final(self)@ == old(self)@.after_request(caller, id),
            final(self)@.wf(),
    {
        let ghost s = self@;
        let found = self.find(&id);
        let r = match found {
            None => {
                proof {
                    lemma_created_wf(s, id);
                }
                let i = self.create(id);
                Lookup::Execute(i)
            },
            Some(i) => {
                assert(s.entry_wf(i as int));
                let state = self.entries[i].state;
                match state {
                    TaskState::Pending => {
                        proof {
                            lemma_restarted_wf(s, i as int);
                        }
                        self.restart(i);
                        Lookup::Execute(i)
                    },
                    TaskState::Running => {
                        let cycle = match caller {
                            Some(c) => self.depends_on(i, c),
                            None => false,
                        };
                        if cycle {
                            Lookup::Cycle(i)
                        } else {
                            Lookup::InFlight(i)
                        }
                    },
                    _ => {
                        let out = self.entries[i].output;
                        match out {
                            Some(o) => Lookup::Ready(i, o),
                            None => Lookup::Execute(i),
                        }
                    },
                }
            },
        };
        assert(r == s.lookup(caller, id));
        match r {
            Lookup::Cycle(_) => {},
            Lookup::Execute(t) | Lookup::InFlight(t) | Lookup::Ready(t, _) => {
                match caller {
                    Some(c) => {
                        proof {
                            lemma_with_edge_wf(self@, c as int, t);
                        }
                        self.add_edge(c, t);
                    },
                    None => {},
                }
            },
        }
        r
    }

    fn push_collectible(&mut self, i: usize, c: Collectible)
        requires
            old(self)@.wf(),
            i < old(self)@.len(),
        ensures
            final(self)@ == old(self)@.emitted(i as int, c),
    {
        let ghost s = self@;
        let mut e = CacheEntry {
            identity: self.entries[i].identity,
            state: TaskState::Pending,
            output: None,
            dependencies: Vec::new(),
            observed: Vec::new(),
            collectibles: Vec::new(),
            version: 0,
            started_at: 0,
            executions: 0,
        };
        self.entries.set_and_swap(i, &mut e);
        e.collectibles.push(c);
        self.entries.set_and_swap(i, &mut e);
        assert(self@.entries =~= s.emitted(i as int, c).entries);
    }

    /// The running computation `task` emits a collectible of type `kind`.
    pub fn emit(&mut self, task: usize, kind: u64, payload: u64)
        requires
            old(self)@.wf(),
            task < old(self)@.len(),
            old(self)@.entries[task as int].state == TaskState::Running,
        ensures
            final(self)@ == old(self)@.emitted(task as int, Collectible::Value { kind, payload }),
            final(self)@.wf(),
    {
        proof {
            lemma_emitted_wf(self@, task as int, Collectible::Value { kind, payload });
        }
        self.push_collectible(task, Collectible::Value { kind, payload });
    }

    /// The running computation `task` schedules an effect: a fresh pending
    /// instance is created and emitted as a collectible of `task`.
    pub fn emit_effect(&mut self, task: usize) -> (r: EffectId)
        requires
            old(self)@.wf(),
            task < old(self)@.len(),
            old(self)@.entries[task as int].state == TaskState::Running,
        ensures
            r@ == old(self)@.pending.len(),
            final(self)@ == (StoreView { pending: old(self)@.pending.push(true), ..old(self)@ }).emitted(
                task as int,
                Collectible::Effect(r),
            ),
            final(self)@.wf(),
    {
        let ghost s = self@;
        let id = EffectId::from_index(self.pending.len());
        self.pending.push(true);
        let ghost s1 = StoreView { pending: s.pending.push(true), ..s };
        assert(self@ == s1);
        proof {
            assert forall|j: int| 0 <= j < s1.len() implies #[trigger] s1.entry_wf(j) by {
                assert(s.entry_wf(j));
                if s1.settled(j) {
                    assert forall|k: int| 0 <= k < s1.entries[j].dependencies.len() implies #[trigger] s1.dep_current(j, k) by {
                        assert(s.dep_current(j, k));
                    }
                }
            }
            lemma_emitted_wf(s1, task as int, Collectible::Effect(id));
        }
        self.push_collectible(task, Collectible::Effect(id));
        id
    }

    /// Whether entry `i`'s running execution may settle.
    fn is_current(&self, i: usize) -> (r: bool)
        requires
            self@.wf(),
            i < self@.len(),
        ensures
            r == self@.current(i as int),
    {
        assert(self@.entry_wf(i as int));
        let e = &self.entries[i];
        if e.version != e.started_at {
            return false;
        }
        let mut k: usize = 0;
        while k < e.dependencies.len()
            invariant
                self@.wf(),
                i < self@.len(),
                self@.entries[i as int] == e@,
                self@.entry_wf(i as int),
                k <= e.dependencies@.len(),
                forall|kk: int| 0 <= kk < k ==> #[trigger] self@.dep_current(i as int, kk),
            decreases e.dependencies.len() - k,
        {
            let d = e.dependencies[k];
            let de = &self.entries[d];
            let ok = match de.state {
                TaskState::Settled | TaskState::Failed => de.version == e.observed[k],
                _ => false,
            };
            if !ok {
                assert(!self@.dep_current(i as int, k as int));
                return false;
            }
            k = k + 1;
        }
        true
    }

    /// The running computation `task` finished with `outcome`.
    ///
    /// Returns whether the entry settled; it stays stale (`Pending`) when its
    /// own version moved or a dependency changed while it ran.
    pub fn complete(&mut self, task: usize, outcome: Outcome) -> (r: bool)
        requires
            old(self)@.wf(),
            task < old(self)@.len(),
            old(self)@.entries[task as int].state == TaskState::Running,
        ensures
            r == old(self)@.current(task as int),
            final(self)@ == old(self)@.completed(task as int, outcome),
            final(self)@.wf(),
    {
        let ghost s = self@;
        proof {
            lemma_completed_wf(s, task as int, outcome);
        }
        let current = self.is_current(task);
        let state = if !current {
            TaskState::Pending
        } else {
            match outcome {
                Outcome::Value(_) => TaskState::Settled,
                Outcome::Error(_) => TaskState::Failed,
            }
        };
        let mut e = CacheEntry {
            identity: self.entries[task].identity,
            state: TaskState::Pending,
            output: None,
            dependencies: Vec::new(),
            observed: Vec::new(),
            collectibles: Vec::new(),
            version: 0,
            started_at: 0,
            executions: 0,
        };
        self.entries.set_and_swap(task, &mut e);
        e.state = state;
        e.output = Some(outcome);
        self.entries.set_and_swap(task, &mut e);
        assert(self@.entries =~= s.completed(task as int, outcome).entries);
        current
    }

    /// The input of entry `y` changed. `y`'s version is bumped and every
    /// settled entry that transitively read `y` becomes stale.
    pub fn invalidate(&mut self, y: usize)
        requires
            old(self)@.wf(),
            y < old(self)@.len(),
            old(self)@.clock < u64::MAX,
        ensures
            final(self)@ == old(self)@.after_invalidate(y),
            final(self)@.wf(),
    {
        let ghost s = self@;
        proof {
            lemma_after_invalidate_wf(s, y);
        }
        let n = self.entries.len();
        let mut marks: Vec<bool> = Vec::new();
        let mut i: usize = 0;
        while i < n
            invariant
                self@ == s,
                s.wf(),
                n == s.len(),
                (y as int) < n,
                i <= n,
                marks@.len() == i,
                forall|j: int| 0 <= j < i ==> marks@[j] == s.reaches(j as usize, y),
            decreases n - i,
        {
            let m = self.depends_on(i, y);
            marks.push(m);
            i = i + 1;
        }
        let tick = self.clock + 1;
        self.clock = tick;
        let ghost t = s.after_invalidate(y);
        let mut i: usize = 0;
        while i < n
            invariant
                n == s.len(),
                (y as int) < n,
                marks@.len() == n,
                forall|j: int| 0 <= j < n ==> marks@[j] == s.reaches(j as usize, y),
                t == s.after_invalidate(y),
                i <= n,
                self@.clock == t.clock,
                tick == t.clock,
                self@.pending == t.pending,
                self@.entries.len() == n,
                forall|j: int| 0 <= j < i ==> self@.entries[j] == t.entries[j],
                forall|j: int| i <= j < n ==> self@.entries[j] == s.entries[j],
            decreases n - i,
        {
            let ghost before = self@;
            let ghost before_vec = self.entries@;
            assert(before.entries[i as int] == before_vec[i as int]@);
            let mut e = CacheEntry {
                identity: self.entries[i].identity,
                state: TaskState::Pending,
                output: None,
                dependencies: Vec::new(),
                observed: Vec::new(),
                collectibles: Vec::new(),
                version: 0,
                started_at: 0,
                executions: 0,
            };
            self.entries.set_and_swap(i, &mut e);
            let settled = match e.state {
                TaskState::Settled | TaskState::Failed => true,
                _ => false,
            };
            if settled && marks[i] {
                e.state = TaskState::Pending;
            }
            if i == y {
                e.version = tick;
            }
            assert(e@ == t.entries[i as int]) by {
                assert(before.entries[i as int] == s.entries[i as int]);
                assert(t.entries[i as int].state == (if s.settled(i as int) && s.reaches(i, y) {
                    TaskState::Pending
                } else {
                    s.entries[i as int].state
                }));
            }
            self.entries.set_and_swap(i, &mut e);
            assert(self@.entries =~= before.entries.update(i as int, t.entries[i as int]));
            i = i + 1;
        }
        assert(self@.entries =~= t.entries);
    }

    /// The last stored result of entry `task`, possibly stale; `None` before
    /// its first execution completes.
    pub fn read(&self, task: usize) -> (r: Option<Outcome>)
        requires
            task < self@.len(),
        ensures
            r == self@.entries[task as int].output,
    {
        self.entries[task].output
    }

    /// One step of a strongly consistent read of `task`. `Ready` comes only
    /// when the entry and everything it transitively read are settled and
    /// current (see `lemma_ready_is_consistent`).
    pub fn consistent_step(&self, task: usize) -> (r: Consistency)
        requires
            self@.wf(),
            task < self@.len(),
        ensures
            r == self@.consistency(task as int),
    {
        assert(self@.entry_wf(task as int));
        let e = &self.entries[task];
        match e.state {
            TaskState::Running => Consistency::Wait,
            TaskState::Pending => Consistency::Recompute,
            _ => match e.output {
                Some(o) => Consistency::Ready(o),
                None => Consistency::Recompute,
            },
        }
    }

    /// The state of an entry.
    pub fn state(&self, task: usize) -> (r: TaskState)
        requires
            task < self@.len(),
        ensures
            r == self@.entries[task as int].state,
    {
        self.entries[task].state
    }

    /// How many times the computation of an entry has been started.
    pub fn executions(&self, task: usize) -> (r: u64)
        requires
            task < self@.len(),
        ensures
            r == self@.entries[task as int].executions,
    {
        self.entries[task].executions
    }

    /// The version of an entry.
    pub fn version(&self, task: usize) -> (r: u64)
        requires
            task < self@.len(),
        ensures
            r == self@.entries[task as int].version,
    {
        self.entries[task].version
    }

    /// The clock that versions are drawn from.
    pub fn clock(&self) -> (r: u64)
        ensures
            r == self@.clock,
    {
        self.clock
    }

    /// Drains, for `collector`, every collectible of type `kind` emitted by
    /// `task` or by an entry it transitively read, that `collector` has not
    /// drained before. Each comes once, in order of discovery. The entries
    /// keep their own records, so another collector still sees them all.
    pub fn take_collectibles(&self, collector: &mut Collector, task: usize, kind: CollectibleKind) -> (r: Vec<Collectible>)
        requires
            self@.wf(),
            task < self@.len(),
        ensures
            r@.no_duplicates(),
            final(collector)@ == old(collector)@ + r@,
            forall|c: Collectible|
                r@.contains(c) <==> (kind_of(c) == kind && !old(collector)@.contains(c)
                    && self@.visible(task, c)),
    {
        let ghost s = self@;
        let ghost drained0 = collector@;
        let order = self.reachable_from(task);
        let mut r: Vec<Collectible> = Vec::new();
        let mut j: usize = 0;
        while j < order.len()
            invariant
                s == self@,
                s.wf(),
                (task as int) < s.len(),
                j <= order@.len(),
                forall|x: int| 0 <= x < order@.len() ==> (#[trigger] order@[x] as int) < s.len(),
                forall|b: usize| (b as int) < s.len() ==> (order@.contains(b) <==> s.reaches(task, b)),
                collector@ == drained0 + r@,
                r@.no_duplicates(),
                forall|c: Collectible| #[trigger] r@.contains(c) ==> kind_of(c) == kind && !drained0.contains(c)
                    && s.visible(task, c),
                forall|x: int, k: int|
                    0 <= x < j && 0 <= k < s.entries[order@[x] as int].collectibles.len()
                        ==> {
                        let c = #[trigger] s.entries[order@[x] as int].collectibles[k];
                        kind_of(c) == kind && !drained0.contains(c) ==> r@.contains(c)
                    },
            decreases order.len() - j,
        {
            let e = order[j];
            assert(order@.contains(e));
            assert(s.reaches(task, e));
            let cs = &self.entries[e].collectibles;
            let mut k: usize = 0;
            while k < cs.len()
                invariant
                    s == self@,
                    s.wf(),
                    (task as int) < s.len(),
                    j < order@.len(),
                    forall|x: int| 0 <= x < order@.len() ==> (#[trigger] order@[x] as int) < s.len(),
                    e == order@[j as int],
                    (e as int) < s.len(),
                    s.reaches(task, e),
                    cs@ == s.entries[e as int].collectibles,
                    k <= cs@.len(),
                    collector@ == drained0 + r@,
                    r@.no_duplicates(),
                    forall|c: Collectible| #[trigger] r@.contains(c) ==> kind_of(c) == kind && !drained0.contains(c)
                        && s.visible(task, c),
                    forall|x: int, kk: int|
                        0 <= x < j && 0 <= kk < s.entries[order@[x] as int].collectibles.len()
                            ==> {
                            let c = #[trigger] s.entries[order@[x] as int].collectibles[kk];
                            kind_of(c) == kind && !drained0.contains(c) ==> r@.contains(c)
                        },
                    forall|kk: int| 0 <= kk < k ==> {
                        let c = #[trigger] cs@[kk];
                        kind_of(c) == kind && !drained0.contains(c) ==> r@.contains(c)
                    },
                decreases cs.len() - k,
            {
                let c = cs[k];
                if c.kind() == kind && !collector.has_drained(&c) {
                    let ghost r0 = r@;
                    proof {
                        assert(kind_of(c) == kind);
                        assert(s.entries[e as int].collectibles.contains(c)) by {
                            assert(s.entries[e as int].collectibles[k as int] == c);
                        }
                        assert(s.visible(task, c));
                        assert(!drained0.contains(c)) by {
                            if drained0.contains(c) {
                                let x = choose|x: int| 0 <= x < drained0.len() && drained0[x] == c;
                                assert((drained0 + r@)[x] == c);
                            }
                        }
                        assert(!r0.contains(c)) by {
                            if r0.contains(c) {
                                let x = choose|x: int| 0 <= x < r0.len() && r0[x] == c;
                                assert((drained0 + r@)[drained0.len() + x] == c);
                            }
                        }
                    }
                    r.push(c);
                    collector.record(c);
                    proof {
                        assert(collector@ =~= drained0 + r@);
                        assert forall|x: Collectible| r0.contains(x) implies r@.contains(x) by {
                            let i = choose|i: int| 0 <= i < r0.len() && r0[i] == x;
                            assert(r@[i] == x);
                        }
                        assert(r@[r@.len() - 1] == c);
                        assert forall|x: Collectible| #[trigger] r@.contains(x) implies kind_of(x) == kind
                            && !drained0.contains(x) && s.visible(task, x) by {
                            if x != c {
                                let i = choose|i: int| 0 <= i < r@.len() && r@[i] == x;
                                assert(r0[i] == x);
                                assert(r0.contains(x));
                            }
                        }
                    }
                } else {
                    proof {
                        if kind_of(c) == kind && !drained0.contains(c) {
                            // `collector` holds `c`, and `drained0` does not.
                            assert(collector@.contains(c));
                            let x = choose|x: int| 0 <= x < collector@.len() && collector@[x] == c;
                            if x < drained0.len() {
                                assert(drained0[x] == c);
                            } else {
                                assert(r@[x - drained0.len()] == c);
                            }
                        }
                    }
                }
                k = k + 1;
            }
            j = j + 1;
        }
        proof {
            assert forall|c: Collectible| (kind_of(c) == kind && !drained0.contains(c) && s.visible(task, c))
                implies r@.contains(c) by {
                let b = choose|b: usize| (b as int) < s.len() && #[trigger] s.reaches(task, b)
                    && s.entries[b as int].collectibles.contains(c);
                assert(order@.contains(b));
                let x = choose|x: int| 0 <= x < order@.len() && order@[x] == b;
                let k = choose|k: int| 0 <= k < s.entries[b as int].collectibles.len()
                    && s.entries[b as int].collectibles[k] == c;
                assert(s.entries[order@[x] as int].collectibles[k] == c);
            }
        }
        r
    }

    /// Whether an effect instance still holds its unit of work.
    pub fn is_pending(&self, id: EffectId) -> (r: bool)
        ensures
            r == ((id@ as int) < self@.pending.len() && self@.pending[id@ as int]),
    {
        let i = id.index();
        i < self.pending.len() && self.pending[i]
    }

    /// Takes an effect instance's unit of work for execution. This succeeds
    /// once per instance: afterwards the instance is spent.
    pub fn claim(&mut self, id: EffectId) -> (r: bool)
        requires
            old(self)@.wf(),
        ensures
            r == ((id@ as int) < old(self)@.pending.len() && old(self)@.pending[id@ as int]),
            final(self)@ == (if r {
                StoreView { pending: old(self)@.pending.update(id@ as int, false), ..old(self)@ }
            } else {
                old(self)@
            }),
            final(self)@.wf(),
    {
        let ghost s = self@;
        let i = id.index();
        if i < self.pending.len() && self.pending[i] {
            self.pending.set(i, false);
            proof {
                let t = self@;
                assert forall|j: int| 0 <= j < t.len() implies #[trigger] t.entry_wf(j) by {
                    assert(s.entry_wf(j));
                    if t.settled(j) {
                        assert forall|k: int| 0 <= k < t.entries[j].dependencies.len() implies #[trigger] t.dep_current(j, k) by {
                            assert(s.dep_current(j, k));
                        }
                    }
                }
            }
            true
        } else {
            false
        }
    }

    /// Every entry that `start` transitively read, `start` first, each once,
    /// in breadth-first order of discovery.
    pub fn reachable_from(&self, start: usize) -> (r: Vec<usize>)
        requires
            self@.wf(),
            start < self@.len(),
        ensures
            r@.len() >= 1,
            r@[0] == start,
            r@.no_duplicates(),
            forall|j: int| 0 <= j < r@.len() ==> (#[trigger] r@[j] as int) < self@.len(),
            forall|b: usize| (b as int) < self@.len() ==> (r@.contains(b) <==> self@.reaches(start, b)),
    {
        let ghost s = self@;
        let ghost g = s.graph();
        let n = self.entries.len();
        let mut seen: Vec<bool> = vec![false; n];
        seen.set(start, true);
        let mut order: Vec<usize> = Vec::new();
        order.push(start);
        proof {
            lemma_reaches_self(g, start);
            assert forall|v: usize| v < n implies (seen@[v as int] <==> order@.contains(v)) by {
                if v == start {
                    assert(order@[0] == v);
                } else {
                    assert(!seen@[v as int]);
                    if order@.contains(v) {
                        let j = choose|j: int| 0 <= j < order@.len() && order@[j] == v;
                        assert(j == 0);
                    }
                }
            }
        }
        let mut i: usize = 0;
        while i < order.len()
            invariant
                s == self@,
                g == s.graph(),
                s.wf(),
                n == s.len(),
                seen@.len() == n,
                order@.len() >= 1,
                order@[0] == start,
                order@.no_duplicates(),
                i <= order@.len() <= n,
                forall|j: int| 0 <= j < order@.len() ==> (#[trigger] order@[j] as int) < n,
                forall|v: usize| v < n ==> (seen@[v as int] <==> order@.contains(v)),
                forall|j: int| 0 <= j < order@.len() ==> reaches(g, start, #[trigger] order@[j]),
                forall|j: int, k: int|
                    0 <= j < i && 0 <= k < g[order@[j] as int].len() ==> order@.contains(
                        #[trigger] g[order@[j] as int][k],
                    ),
            decreases n - i,
        {
            let cur = order[i];
            assert(s.entry_wf(cur as int));
            let deps = &self.entries[cur].dependencies;
            assert(deps@ == g[cur as int]);
            let mut k: usize = 0;
            while k < deps.len()
                invariant
                    s == self@,
                    g == s.graph(),
                    s.wf(),
                    n == s.len(),
                    deps@ == g[cur as int],
                    cur == order@[i as int],
                    (cur as int) < n,
                    seen@.len() == n,
                    order@.len() >= 1,
                    order@[0] == start,
                    order@.no_duplicates(),
                    i < order@.len() <= n,
                    k <= deps@.len(),
                    forall|j: int| 0 <= j < order@.len() ==> (#[trigger] order@[j] as int) < n,
                    forall|v: usize| v < n ==> (seen@[v as int] <==> order@.contains(v)),
                    forall|j: int| 0 <= j < order@.len() ==> reaches(g, start, #[trigger] order@[j]),
                    forall|j: int, kk: int|
                        0 <= j < i && 0 <= kk < g[order@[j] as int].len() ==> order@.contains(
                            #[trigger] g[order@[j] as int][kk],
                        ),
                    forall|kk: int| 0 <= kk < k ==> order@.contains(#[trigger] deps@[kk]),
                decreases deps.len() - k,
            {
                let d = deps[k];
                assert(s.entry_wf(cur as int));
                assert((d as int) < n);
                if !seen[d] {
                    proof {
                        assert(reaches(g, start, cur));
                        assert(g[cur as int].contains(d));
                        lemma_reaches_then_edge(g, start, cur, d);
                        assert(!order@.contains(d));
                        lemma_distinct_below(order@, n as int);
                        if order@.len() == n {
                            // `d` is below `n` and missing, yet `order` holds `n` distinct
                            // indices below `n`.
                            lemma_distinct_below(order@.push(d), n as int);
                        }
                    }
                    let ghost before = order@;
                    seen.set(d, true);
                    order.push(d);
                    proof {
                        assert(order@[order@.len() - 1] == d);
                        assert forall|x: usize| before.contains(x) implies order@.contains(x) by {
                            let j = choose|j: int| 0 <= j < before.len() && before[j] == x;
                            assert(order@[j] == x);
                        }
                        assert forall|v: usize| v < n implies (seen@[v as int] <==> order@.contains(v)) by {
                            if order@.contains(v) && v != d {
                                let j = choose|j: int| 0 <= j < order@.len() && order@[j] == v;
                                assert(before[j] == v);
                            }
                        }
                    }
                }
                assert(order@.contains(d));
                k = k + 1;
            }
            i = i + 1;
        }
        proof {
            assert(closed_under_deps(g, order@));
            assert forall|b: usize| (b as int) < s.len() implies (order@.contains(b)
                <==> s.reaches(start, b)) by {
                if s.reaches(start, b) {
                    assert(order@[0] == start);
                    lemma_closed_holds_reachable(g, order@, start, b);
                }
                if order@.contains(b) {
                    let j = choose|j: int| 0 <= j < order@.len() && order@[j] == b;
                    assert(reaches(g, start, order@[j]));
                }
            }
        }
        order
    }
}

} // verus!
