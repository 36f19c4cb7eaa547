//! Reachability in the dependency graph. Node `i` is the cache entry at
//! index `i`; `g[i]` lists the entries that it read during its last run.
use vstd::prelude::*;
use vstd::set_lib::{lemma_int_range, lemma_len_subset, set_int_range};

verus! {

/// One step of a path: `p[i]` read `p[i + 1]`.
pub open spec fn path_step(g: Seq<Seq<usize>>, p: Seq<usize>, i: int) -> bool {
    (p[i] as int) < g.len() && g[p[i] as int].contains(p[i + 1])
}

/// `p` is a non-empty walk along dependency edges.
pub open spec fn is_path(g: Seq<Seq<usize>>, p: Seq<usize>) -> bool {
    &&& p.len() > 0
    &&& forall|i: int| 0 <= i < p.len() - 1 ==> #[trigger] path_step(g, p, i)
}

/// Entry `a` (transitively) read entry `b`; every entry reaches itself.
pub open spec fn reaches(g: Seq<Seq<usize>>, a: usize, b: usize) -> bool {
    exists|p: Seq<usize>| #[trigger] is_path(g, p) && p[0] == a && p.last() == b
}

/// Every entry listed in `s` has all of its dependencies listed in `s` too.
pub open spec fn closed_under_deps(g: Seq<Seq<usize>>, s: Seq<usize>) -> bool {
    forall|j: int, k: int|
        0 <= j < s.len() && 0 <= k < g[s[j] as int].len() ==> s.contains(
            #[trigger] g[s[j] as int][k],
        )
}

pub proof fn lemma_reaches_self(g: Seq<Seq<usize>>, a: usize)
    ensures
        reaches(g, a, a),
{
    let p = seq![a];
    assert(is_path(g, p));
}

/// A path extended by one edge at its end.
pub proof fn lemma_reaches_then_edge(g: Seq<Seq<usize>>, a: usize, b: usize, c: usize)
    requires
        reaches(g, a, b),
        (b as int) < g.len(),
        g[b as int].contains(c),
    ensures
        reaches(g, a, c),
{
    let p = choose|p: Seq<usize>| #[trigger] is_path(g, p) && p[0] == a && p.last() == b;
    let q = p.push(c);
    assert forall|i: int| 0 <= i < q.len() - 1 implies #[trigger] path_step(g, q, i) by {
        if i < p.len() - 1 {
            assert(path_step(g, p, i));
        }
    }
    assert(is_path(g, q) && q[0] == a && q.last() == c);
}

/// A path extended by one edge at its start.
pub proof fn lemma_edge_then_reaches(g: Seq<Seq<usize>>, a: usize, b: usize, c: usize)
    requires
        (a as int) < g.len(),
        g[a as int].contains(b),
        reaches(g, b, c),
    ensures
        reaches(g, a, c),
{
    let p = choose|p: Seq<usize>| #[trigger] is_path(g, p) && p[0] == b && p.last() == c;
    let q = seq![a] + p;
    assert forall|i: int| 0 <= i < q.len() - 1 implies #[trigger] path_step(g, q, i) by {
        if i > 0 {
            assert(path_step(g, p, i - 1));
        }
    }
    assert(is_path(g, q) && q[0] == a && q.last() == c);
}

/// Every entry on a path from a node of a dependency-closed list is in it.
proof fn lemma_path_stays_in_closed(g: Seq<Seq<usize>>, s: Seq<usize>, p: Seq<usize>, i: int)
    requires
        closed_under_deps(g, s),
        is_path(g, p),
        s.contains(p[0]),
        0 <= i < p.len(),
    ensures
        s.contains(p[i]),
    decreases i,
{
    if i > 0 {
        lemma_path_stays_in_closed(g, s, p, i - 1);
        assert(path_step(g, p, i - 1));
        let j = choose|j: int| 0 <= j < s.len() && s[j] == p[i - 1];
        let k = choose|k: int| 0 <= k < g[p[i - 1] as int].len() && #[trigger] g[p[i - 1] as int][k] == p[i];
        assert(s.contains(g[s[j] as int][k]));
    }
}

/// A dependency-closed list that holds `a` holds everything `a` reaches.
pub proof fn lemma_closed_holds_reachable(g: Seq<Seq<usize>>, s: Seq<usize>, a: usize, b: usize)
    requires
        closed_under_deps(g, s),
        s.contains(a),
        reaches(g, a, b),
    ensures
        s.contains(b),
{
    let p = choose|p: Seq<usize>| #[trigger] is_path(g, p) && p[0] == a && p.last() == b;
    lemma_path_stays_in_closed(g, s, p, p.len() - 1);
}

/// A list of distinct indices below `n` has at most `n` elements.
pub proof fn lemma_distinct_below(s: Seq<usize>, n: int)
    requires
        s.no_duplicates(),
        0 <= n,
        forall|i: int| 0 <= i < s.len() ==> (s[i] as int) < n,
    ensures
        s.len() <= n,
{
    let t = s.map_values(|x: usize| x as int);
    assert(t.no_duplicates()) by {
        assert forall|i: int, j: int| 0 <= i < t.len() && 0 <= j < t.len() && i != j implies t[i]
            != t[j] by {
            assert(s[i] != s[j]);
        }
    }
    t.unique_seq_to_set();
    lemma_int_range(0, n);
    assert forall|x: int| t.to_set().contains(x) implies set_int_range(0, n).contains(x) by {
        let i = choose|i: int| 0 <= i < t.len() && t[i] == x;
        assert(t.contains(x));
    }
    lemma_len_subset(t.to_set(), set_int_range(0, n));
}

} // verus!
