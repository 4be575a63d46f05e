use vstd::prelude::*;
use vstd::set_lib::*;

verus! {

// ---------------------------------------------------------------------------
// The mathematical model: node indices are `int`s, edges are pairs of them.
// ---------------------------------------------------------------------------

/// Consecutive entries `i` and `i + 1` of `p` are joined by an edge.
pub open spec fn path_step(edges: Set<(int, int)>, p: Seq<int>, i: int) -> bool {
    edges.contains((p[i], p[i + 1]))
}

/// `p` is a non-empty walk along `edges`.
pub open spec fn is_path(edges: Set<(int, int)>, p: Seq<int>) -> bool {
    &&& p.len() >= 1
    &&& forall|i: int| 0 <= i < p.len() - 1 ==> #[trigger] path_step(edges, p, i)
}

/// There is a walk from `v` to `t` (every node influences itself).
pub open spec fn influences(edges: Set<(int, int)>, v: int, t: int) -> bool {
    exists|p: Seq<int>| #[trigger] is_path(edges, p) && p[0] == v && p.last() == t
}

/// All nodes that influence `t`.
pub open spec fn influencers(edges: Set<(int, int)>, t: int) -> Set<int> {
    Set::new(|v: int| influences(edges, v, t))
}

/// `v` is still to be placed and nothing still to be placed has an edge into it.
pub open spec fn ready(rem: Set<int>, edges: Set<(int, int)>, v: int) -> bool {
    &&& rem.contains(v)
    &&& forall|u: int| rem.contains(u) ==> !edges.contains((u, v))
}

/// `v` is the smallest ready node.
pub open spec fn is_next(rem: Set<int>, edges: Set<(int, int)>, v: int) -> bool {
    &&& ready(rem, edges, v)
    &&& forall|w: int| #[trigger] ready(rem, edges, w) ==> v <= w
}

/// The order in which the nodes of `rem` are scheduled: repeatedly the
/// smallest node none of whose remaining predecessors is left. `None` when
/// at some point every remaining node still waits for another one (a cycle).
pub open spec fn linearize(rem: Set<int>, edges: Set<(int, int)>) -> Option<Seq<int>>
    decreases rem.len(),
    when rem.finite()
{
    if rem.len() == 0 {
        Some(Seq::empty())
    } else if exists|v: int| is_next(rem, edges, v) {
        let v = choose|v: int| is_next(rem, edges, v);
        match linearize(rem.remove(v), edges) {
            Some(s) => Some(seq![v] + s),
            None => None,
        }
    } else {
        None
    }
}

/// `prefix` followed by the outcome `rest`, or `None` when `rest` failed.
pub open spec fn prepend(prefix: Seq<int>, rest: Option<Seq<int>>) -> Option<Seq<int>> {
    match rest {
        Some(s) => Some(prefix + s),
        None => None,
    }
}

/// The indices listed in `s`.
pub open spec fn index_set(s: Seq<usize>) -> Set<int> {
    Set::new(|t: int| exists|i: int| 0 <= i < s.len() && s[i] as int == t)
}

/// `v` influences some node of `roots`.
pub open spec fn influences_any(edges: Set<(int, int)>, v: int, roots: Set<int>) -> bool {
    exists|t: int| roots.contains(t) && #[trigger] influences(edges, v, t)
}

/// All nodes that influence some node of `roots`.
pub open spec fn influencers_of(edges: Set<(int, int)>, roots: Set<int>) -> Set<int> {
    Set::new(|v: int| influences_any(edges, v, roots))
}

/// The schedule of everything that influences one of the `roots`.
pub open spec fn schedule(edges: Set<(int, int)>, roots: Set<int>) -> Option<Seq<int>> {
    linearize(influencers_of(edges, roots), edges)
}

/// Node indices of an executable schedule as integers.
pub open spec fn order_view(order: Option<Vec<usize>>) -> Option<Seq<int>> {
    match order {
        Some(v) => Some(v@.map_values(|x: usize| x as int)),
        None => None,
    }
}

// ---------------------------------------------------------------------------
// Lemmas on paths
// ---------------------------------------------------------------------------

pub proof fn lemma_path_prepend(edges: Set<(int, int)>, a: int, p: Seq<int>)
    requires
        is_path(edges, p),
        edges.contains((a, p[0])),
    ensures
        is_path(edges, seq![a] + p),
        (seq![a] + p)[0] == a,
        (seq![a] + p).last() == p.last(),
{
    let q = seq![a] + p;
    assert forall|i: int| 0 <= i < q.len() - 1 implies #[trigger] path_step(edges, q, i) by {
        if i > 0 {
            assert(path_step(edges, p, i - 1));
            assert(q[i] == p[i - 1] && q[i + 1] == p[i]);
        }
    }
}

pub proof fn lemma_path_tail(edges: Set<(int, int)>, p: Seq<int>)
    requires
        is_path(edges, p),
        p.len() >= 2,
    ensures
        is_path(edges, p.drop_first()),
        p.drop_first()[0] == p[1],
        p.drop_first().last() == p.last(),
        edges.contains((p[0], p[1])),
{
    let q = p.drop_first();
    assert(path_step(edges, p, 0));
    assert forall|i: int| 0 <= i < q.len() - 1 implies #[trigger] path_step(edges, q, i) by {
        assert(path_step(edges, p, i + 1));
    }
}

/// A node set that holds `p.last()` and every predecessor of each of its
/// members holds the whole walk `p`.
pub proof fn lemma_closed_holds_path(edges: Set<(int, int)>, s: Set<int>, p: Seq<int>)
    requires
        is_path(edges, p),
        s.contains(p.last()),
        forall|u: int, v: int| #[trigger] edges.contains((u, v)) && s.contains(v) ==> s.contains(u),
    ensures
        s.contains(p[0]),
    decreases p.len(),
{
    if p.len() >= 2 {
        lemma_path_tail(edges, p);
        lemma_closed_holds_path(edges, s, p.drop_first());
    }
}

pub proof fn lemma_influences_self(edges: Set<(int, int)>, t: int)
    ensures
        influences(edges, t, t),
{
    let p = seq![t];
    assert(is_path(edges, p));
}

pub proof fn lemma_influences_pred(edges: Set<(int, int)>, u: int, v: int, t: int)
    requires
        influences(edges, v, t),
        edges.contains((u, v)),
    ensures
        influences(edges, u, t),
{
    let p = choose|p: Seq<int>| #[trigger] is_path(edges, p) && p[0] == v && p.last() == t;
    lemma_path_prepend(edges, u, p);
    assert(is_path(edges, seq![u] + p));
}

/// A predecessor of a node that influences some root influences it too.
pub proof fn lemma_influences_any_pred(edges: Set<(int, int)>, u: int, v: int, roots: Set<int>)
    requires
        influences_any(edges, v, roots),
        edges.contains((u, v)),
    ensures
        influences_any(edges, u, roots),
{
    let t = choose|t: int| roots.contains(t) && #[trigger] influences(edges, v, t);
    lemma_influences_pred(edges, u, v, t);
}

// ---------------------------------------------------------------------------
// Lemmas on the schedule
// ---------------------------------------------------------------------------

/// The smallest ready node is unique.
pub proof fn lemma_next_unique(rem: Set<int>, edges: Set<(int, int)>, v: int, w: int)
    requires
        is_next(rem, edges, v),
        is_next(rem, edges, w),
    ensures
        v == w,
{
    assert(ready(rem, edges, v));
    assert(ready(rem, edges, w));
}

/// One step of the schedule: the smallest ready node goes first.
pub proof fn lemma_linearize_step(rem: Set<int>, edges: Set<(int, int)>, v: int)
    requires
        rem.finite(),
        is_next(rem, edges, v),
    ensures
        linearize(rem, edges) == prepend(seq![v], linearize(rem.remove(v), edges)),
{
    assert(rem.contains(v));
    assert(rem.len() != 0);
    let w = choose|w: int| is_next(rem, edges, w);
    lemma_next_unique(rem, edges, v, w);
}

/// The schedule fails when nothing is ready.
pub proof fn lemma_linearize_stuck(rem: Set<int>, edges: Set<(int, int)>)
    requires
        rem.finite(),
        rem.len() != 0,
        forall|v: int| !ready(rem, edges, v),
    ensures
        linearize(rem, edges) is None,
{
}

/// A schedule holds every node of `rem` exactly once.
pub proof fn lemma_linearize_permutation(rem: Set<int>, edges: Set<(int, int)>)
    requires
        rem.finite(),
        linearize(rem, edges) is Some,
    ensures
        linearize(rem, edges)->0.no_duplicates(),
        linearize(rem, edges)->0.to_set() == rem,
        linearize(rem, edges)->0.len() == rem.len(),
    decreases rem.len(),
{
    if rem.len() == 0 {
        assert(rem =~= Set::empty());
        assert(linearize(rem, edges)->0.to_set() =~= rem);
    } else {
        let v = choose|v: int| is_next(rem, edges, v);
        let r2 = rem.remove(v);
        lemma_linearize_permutation(r2, edges);
        let s = linearize(r2, edges)->0;
        let full = seq![v] + s;
        assert(linearize(rem, edges)->0 == full);
        assert(!s.contains(v)) by {
            if s.contains(v) {
                assert(s.to_set().contains(v));
            }
        }
        assert forall|i: int, j: int| 0 <= i < full.len() && 0 <= j < full.len() && i != j
            implies full[i] != full[j] by {
            if i > 0 && j > 0 {
                assert(full[i] == s[i - 1] && full[j] == s[j - 1]);
            } else if i == 0 {
                assert(full[j] == s[j - 1]);
                assert(s.contains(s[j - 1]));
            } else {
                assert(full[i] == s[i - 1]);
                assert(s.contains(s[i - 1]));
            }
        }
        assert forall|x: int| full.to_set().contains(x) <==> rem.contains(x) by {
            if full.to_set().contains(x) {
                let k = choose|k: int| 0 <= k < full.len() && full[k] == x;
                if k > 0 {
                    assert(s[k - 1] == x);
                    assert(s.to_set().contains(x));
                }
            }
            if rem.contains(x) {
                if x == v {
                    assert(full[0] == x);
                } else {
                    assert(r2.contains(x));
                    assert(s.to_set().contains(x));
                    let k = choose|k: int| 0 <= k < s.len() && s[k] == x;
                    assert(full[k + 1] == x);
                }
            }
        }
        assert(full.to_set() =~= rem);
    }
}

/// In a schedule every edge between scheduled nodes points forward.
pub proof fn lemma_linearize_topological(rem: Set<int>, edges: Set<(int, int)>)
    requires
        rem.finite(),
        linearize(rem, edges) is Some,
    ensures
        forall|i: int, j: int|
            0 <= i < linearize(rem, edges)->0.len() && 0 <= j < linearize(rem, edges)->0.len()
                && #[trigger] edges.contains(
                (linearize(rem, edges)->0[i], linearize(rem, edges)->0[j]),
            ) ==> i < j,
    decreases rem.len(),
{
    if rem.len() != 0 {
        let v = choose|v: int| is_next(rem, edges, v);
        let r2 = rem.remove(v);
        lemma_linearize_topological(r2, edges);
        lemma_linearize_permutation(r2, edges);
        let s = linearize(r2, edges)->0;
        let full = seq![v] + s;
        assert(linearize(rem, edges)->0 == full);
        assert forall|i: int, j: int|
            0 <= i < full.len() && 0 <= j < full.len() && #[trigger] edges.contains(
                (full[i], full[j]),
            ) implies i < j by {
            if j == 0 {
                // nothing remaining has an edge into the ready node `v`
                if i > 0 {
                    assert(s.contains(s[i - 1]));
                    assert(s.to_set().contains(s[i - 1]));
                    assert(rem.contains(full[i]));
                }
            } else if i > 0 {
                assert(full[i] == s[i - 1] && full[j] == s[j - 1]);
                assert(edges.contains((s[i - 1], s[j - 1])));
            }
        }
    }
}

/// The schedule depends only on the edges between its own nodes.
pub proof fn lemma_linearize_local(rem: Set<int>, e1: Set<(int, int)>, e2: Set<(int, int)>)
    requires
        rem.finite(),
        forall|u: int, v: int|
            rem.contains(u) && rem.contains(v) ==> (e1.contains((u, v)) <==> e2.contains((u, v))),
    ensures
        linearize(rem, e1) == linearize(rem, e2),
    decreases rem.len(),
{
    if rem.len() != 0 {
        assert forall|v: int| ready(rem, e1, v) <==> ready(rem, e2, v) by {}
        assert forall|v: int| is_next(rem, e1, v) <==> is_next(rem, e2, v) by {}
        if exists|v: int| is_next(rem, e1, v) {
            let v = choose|v: int| is_next(rem, e1, v);
            let w = choose|v: int| is_next(rem, e2, v);
            lemma_next_unique(rem, e1, v, w);
            lemma_linearize_local(rem.remove(v), e1, e2);
        }
    }
}



/// Some closed walk of at least one edge stays inside `s`.
pub open spec fn has_cycle_within(edges: Set<(int, int)>, s: Set<int>) -> bool {
    exists|p: Seq<int>|
        #[trigger] is_path(edges, p) && p.len() >= 2 && p[0] == p.last() && forall|i: int|
            0 <= i < p.len() ==> s.contains(#[trigger] p[i])
}

/// A member of `rem` with an edge into `v`.
pub open spec fn some_pred(rem: Set<int>, edges: Set<(int, int)>, v: int) -> int {
    choose|u: int| rem.contains(u) && edges.contains((u, v))
}

/// A walk of `k` edges ending in `v`, stepping backwards through `some_pred`.
pub open spec fn back_walk(rem: Set<int>, edges: Set<(int, int)>, v: int, k: nat) -> Seq<int>
    decreases k,
{
    if k == 0 {
        seq![v]
    } else {
        back_walk(rem, edges, some_pred(rem, edges, v), (k - 1) as nat).push(v)
    }
}

pub proof fn lemma_path_push(edges: Set<(int, int)>, p: Seq<int>, v: int)
    requires
        is_path(edges, p),
        edges.contains((p.last(), v)),
    ensures
        is_path(edges, p.push(v)),
{
    let q = p.push(v);
    assert forall|i: int| 0 <= i < q.len() - 1 implies #[trigger] path_step(edges, q, i) by {
        if i < p.len() - 1 {
            assert(path_step(edges, p, i));
        }
    }
}

pub proof fn lemma_path_subrange(edges: Set<(int, int)>, p: Seq<int>, lo: int, hi: int)
    requires
        is_path(edges, p),
        0 <= lo < hi <= p.len(),
    ensures
        is_path(edges, p.subrange(lo, hi)),
{
    let q = p.subrange(lo, hi);
    assert forall|i: int| 0 <= i < q.len() - 1 implies #[trigger] path_step(edges, q, i) by {
        assert(path_step(edges, p, lo + i));
    }
}

proof fn lemma_back_walk(rem: Set<int>, edges: Set<(int, int)>, v: int, k: nat)
    requires
        rem.contains(v),
        forall|x: int| rem.contains(x) ==> exists|u: int| rem.contains(u) && #[trigger] edges.contains((u, x)),
    ensures
        back_walk(rem, edges, v, k).len() == k + 1,
        is_path(edges, back_walk(rem, edges, v, k)),
        back_walk(rem, edges, v, k).last() == v,
        forall|i: int| 0 <= i < k + 1 ==> rem.contains(#[trigger] back_walk(rem, edges, v, k)[i]),
    decreases k,
{
    if k == 0 {
        assert(is_path(edges, seq![v]));
    } else {
        let u = some_pred(rem, edges, v);
        assert(rem.contains(u) && edges.contains((u, v)));
        lemma_back_walk(rem, edges, u, (k - 1) as nat);
        let w = back_walk(rem, edges, u, (k - 1) as nat);
        lemma_path_push(edges, w, v);
        assert forall|i: int| 0 <= i < k + 1 implies rem.contains(#[trigger] back_walk(rem, edges, v, k)[i]) by {
            if i < k {
                assert(back_walk(rem, edges, v, k)[i] == w[i]);
            }
        }
    }
}

/// A non-empty finite set of integers has a least element.
pub proof fn lemma_min_exists(s: Set<int>)
    requires
        s.finite(),
        s.len() > 0,
    ensures
        exists|m: int| s.contains(m) && forall|x: int| s.contains(x) ==> m <= x,
    decreases s.len(),
{
    let a = s.choose();
    assert(s.contains(a));
    let r = s.remove(a);
    if r.len() == 0 {
        assert forall|x: int| s.contains(x) implies a <= x by {
            if x != a {
                assert(r.contains(x));
            }
        }
    } else {
        lemma_min_exists(r);
        let m = choose|m: int| r.contains(m) && forall|x: int| r.contains(x) ==> m <= x;
        if a < m {
            assert forall|x: int| s.contains(x) implies a <= x by {
                if x != a {
                    assert(r.contains(x));
                }
            }
        } else {
            assert forall|x: int| s.contains(x) implies m <= x by {
                if x != a {
                    assert(r.contains(x));
                }
            }
        }
    }
}

/// When some node is ready, a smallest ready node exists.
pub proof fn lemma_ready_gives_next(rem: Set<int>, edges: Set<(int, int)>, v: int)
    requires
        rem.finite(),
        ready(rem, edges, v),
    ensures
        exists|w: int| is_next(rem, edges, w),
{
    let rs = rem.filter(|x: int| ready(rem, edges, x));
    assert(rs.subset_of(rem));
    lemma_len_subset(rs, rem);
    assert(rs.contains(v));
    lemma_min_exists(rs);
    let m = choose|m: int| rs.contains(m) && forall|x: int| rs.contains(x) ==> m <= x;
    assert forall|w: int| #[trigger] ready(rem, edges, w) implies m <= w by {
        assert(rs.contains(w));
    }
    assert(is_next(rem, edges, m));
}

/// When the schedule fails, the nodes contain a cycle.
pub proof fn lemma_linearize_none_has_cycle(rem: Set<int>, edges: Set<(int, int)>)
    requires
        rem.finite(),
        linearize(rem, edges) is None,
    ensures
        has_cycle_within(edges, rem),
    decreases rem.len(),
{
    if rem.len() == 0 {
    } else if exists|v: int| is_next(rem, edges, v) {
        let v = choose|v: int| is_next(rem, edges, v);
        let r2 = rem.remove(v);
        lemma_linearize_none_has_cycle(r2, edges);
        let p = choose|p: Seq<int>|
            #[trigger] is_path(edges, p) && p.len() >= 2 && p[0] == p.last() && forall|i: int|
                0 <= i < p.len() ==> r2.contains(#[trigger] p[i]);
        assert forall|i: int| 0 <= i < p.len() implies rem.contains(#[trigger] p[i]) by {
            assert(r2.contains(p[i]));
        }
    } else {
        assert forall|x: int| rem.contains(x) implies exists|u: int|
            rem.contains(u) && #[trigger] edges.contains((u, x)) by {
            if !ready(rem, edges, x) {
            } else {
                lemma_ready_gives_next(rem, edges, x);
            }
        }
        let v = rem.choose();
        assert(rem.contains(v));
        let k = rem.len();
        lemma_back_walk(rem, edges, v, k);
        let w = back_walk(rem, edges, v, k);
        assert(w.to_set().subset_of(rem)) by {
            assert forall|x: int| w.to_set().contains(x) implies rem.contains(x) by {
                let i = choose|i: int| 0 <= i < w.len() && w[i] == x;
                assert(rem.contains(w[i]));
            }
        }
        lemma_len_subset(w.to_set(), rem);
        if w.no_duplicates() {
            w.unique_seq_to_set();
        }
        let (i, j) = choose|i: int, j: int| 0 <= i < w.len() && 0 <= j < w.len() && i != j && w[i] == w[j];
        let (lo, hi) = if i < j { (i, j) } else { (j, i) };
        lemma_path_subrange(edges, w, lo, hi + 1);
        let p = w.subrange(lo, hi + 1);
        assert(p[0] == p.last());
        assert forall|m: int| 0 <= m < p.len() implies rem.contains(#[trigger] p[m]) by {
            assert(p[m] == w[lo + m]);
        }
        assert(is_path(edges, p));
    }
}

/// Position of `x` in `s`.
pub open spec fn position(s: Seq<int>, x: int) -> int {
    choose|i: int| 0 <= i < s.len() && s[i] == x
}

proof fn lemma_path_moves_forward(s: Seq<int>, edges: Set<(int, int)>, p: Seq<int>, m: int)
    requires
        forall|i: int, j: int|
            0 <= i < s.len() && 0 <= j < s.len() && #[trigger] edges.contains((s[i], s[j])) ==> i < j,
        forall|k: int| 0 <= k < p.len() ==> s.contains(#[trigger] p[k]),
        is_path(edges, p),
        1 <= m < p.len(),
    ensures
        position(s, p[0]) < position(s, p[m]),
        0 <= position(s, p[0]),
    decreases m,
{
    assert(s.contains(p[0]));
    assert(s.contains(p[m]));
    assert(s.contains(p[m - 1]));
    let a = position(s, p[m - 1]);
    let b = position(s, p[m]);
    assert(path_step(edges, p, m - 1));
    assert(edges.contains((s[a], s[b])));
    if m > 1 {
        lemma_path_moves_forward(s, edges, p, m - 1);
    }
}

/// The schedule exists exactly when the nodes hold no cycle.
pub proof fn lemma_linearize_none_iff_cycle(rem: Set<int>, edges: Set<(int, int)>)
    requires
        rem.finite(),
    ensures
        linearize(rem, edges) is None <==> has_cycle_within(edges, rem),
{
    if linearize(rem, edges) is None {
        lemma_linearize_none_has_cycle(rem, edges);
    } else if has_cycle_within(edges, rem) {
        let s = linearize(rem, edges)->0;
        lemma_linearize_permutation(rem, edges);
        lemma_linearize_topological(rem, edges);
        let p = choose|p: Seq<int>|
            #[trigger] is_path(edges, p) && p.len() >= 2 && p[0] == p.last() && forall|i: int|
                0 <= i < p.len() ==> rem.contains(#[trigger] p[i]);
        assert forall|k: int| 0 <= k < p.len() implies s.contains(#[trigger] p[k]) by {
            assert(rem.contains(p[k]));
            assert(s.to_set().contains(p[k]));
        }
        lemma_path_moves_forward(s, edges, p, p.len() - 1);
    }
}

/// Each node of a schedule sits at its position.
pub proof fn lemma_position(s: Seq<int>, x: int)
    requires
        s.contains(x),
    ensures
        0 <= position(s, x) < s.len(),
        s[position(s, x)] == x,
{
}

/// Every root is scheduled, and after every other node that influences it.
pub proof fn lemma_schedule_roots_after_influencers(edges: Set<(int, int)>, roots: Set<int>)
    requires
        influencers_of(edges, roots).finite(),
        schedule(edges, roots) is Some,
    ensures
        forall|t: int| roots.contains(t) ==> schedule(edges, roots)->0.contains(t),
        forall|t: int, x: int|
            roots.contains(t) && #[trigger] influences(edges, x, t) && x != t ==> schedule(
                edges,
                roots,
            )->0.contains(x) && position(schedule(edges, roots)->0, x) < position(
                schedule(edges, roots)->0,
                t,
            ),
{
    let c = influencers_of(edges, roots);
    let s = schedule(edges, roots)->0;
    lemma_linearize_permutation(c, edges);
    lemma_linearize_topological(c, edges);
    assert forall|t: int| roots.contains(t) implies s.contains(t) by {
        lemma_influences_self(edges, t);
        assert(c.contains(t));
        assert(s.to_set().contains(t));
    }
    assert forall|t: int, x: int|
        roots.contains(t) && #[trigger] influences(edges, x, t) && x != t implies s.contains(x)
            && position(s, x) < position(s, t) by {
        let p = choose|p: Seq<int>| #[trigger] is_path(edges, p) && p[0] == x && p.last() == t;
        assert forall|k: int| 0 <= k < p.len() implies s.contains(#[trigger] p[k]) by {
            lemma_path_subrange(edges, p, k, p.len() as int);
            let q = p.subrange(k, p.len() as int);
            assert(q[0] == p[k] && q.last() == t);
            assert(influences(edges, p[k], t));
            assert(c.contains(p[k]));
            assert(s.to_set().contains(p[k]));
        }
        assert(p.len() >= 2);
        lemma_path_moves_forward(s, edges, p, p.len() - 1);
        assert(s.contains(p[0]));
    }
}

/// With a single root, the root is scheduled last.
pub proof fn lemma_schedule_single_root_last(edges: Set<(int, int)>, t: int)
    requires
        influencers_of(edges, set![t]).finite(),
        schedule(edges, set![t]) is Some,
    ensures
        schedule(edges, set![t])->0.len() > 0,
        schedule(edges, set![t])->0.last() == t,
{
    let roots = set![t];
    let c = influencers_of(edges, roots);
    let s = schedule(edges, roots)->0;
    lemma_linearize_permutation(c, edges);
    lemma_schedule_roots_after_influencers(edges, roots);
    assert(roots.contains(t));
    assert(s.contains(t));
    let x = s.last();
    assert(s.to_set().contains(x));
    assert(c.contains(x));
    if x != t {
        assert(influences_any(edges, x, roots));
        assert(influences(edges, x, t));
        lemma_position(s, x);
        lemma_position(s, t);
        assert(s[s.len() - 1] == x);
        assert(position(s, x) == s.len() - 1);
    }
}

/// Popping the last of a duplicate-free sequence.
pub proof fn lemma_pop_contains(popped: Seq<usize>, v: usize)
    requires
        popped.push(v).no_duplicates(),
    ensures
        !popped.contains(v),
        popped.no_duplicates(),
        forall|x: usize| popped.push(v).contains(x) <==> (popped.contains(x) || x == v),
{
    let full = popped.push(v);
    if popped.contains(v) {
        let k = choose|k: int| 0 <= k < popped.len() && popped[k] == v;
        assert(full[k] == full[popped.len() as int]);
    }
    assert forall|i: int, j: int| 0 <= i < popped.len() && 0 <= j < popped.len() && i != j
        implies popped[i] != popped[j] by {
        assert(full[i] == popped[i] && full[j] == popped[j]);
    }
    assert forall|x: usize| full.contains(x) <==> (popped.contains(x) || x == v) by {
        if full.contains(x) {
            let k = choose|k: int| 0 <= k < full.len() && full[k] == x;
            if k < popped.len() {
                assert(popped[k] == x);
            }
        }
        if popped.contains(x) {
            let k = choose|k: int| 0 <= k < popped.len() && popped[k] == x;
            assert(full[k] == x);
        }
        if x == v {
            assert(full[popped.len() as int] == x);
        }
    }
}

/// Pushing a new element onto a duplicate-free sequence.
pub proof fn lemma_push_contains(s: Seq<usize>, v: usize)
    requires
        s.no_duplicates(),
        !s.contains(v),
    ensures
        s.push(v).no_duplicates(),
        forall|x: usize| s.push(v).contains(x) <==> (s.contains(x) || x == v),
{
    let full = s.push(v);
    assert forall|i: int, j: int| 0 <= i < full.len() && 0 <= j < full.len() && i != j
        implies full[i] != full[j] by {
        if i < s.len() && j < s.len() {
            assert(full[i] == s[i] && full[j] == s[j]);
        } else if i < s.len() {
            assert(full[i] == s[i]);
            assert(s.contains(s[i]));
        } else if j < s.len() {
            assert(full[j] == s[j]);
            assert(s.contains(s[j]));
        }
    }
    assert forall|x: usize| full.contains(x) <==> (s.contains(x) || x == v) by {
        if full.contains(x) {
            let k = choose|k: int| 0 <= k < full.len() && full[k] == x;
            if k < s.len() {
                assert(s[k] == x);
            }
        }
        if s.contains(x) {
            let k = choose|k: int| 0 <= k < s.len() && s[k] == x;
            assert(full[k] == x);
        }
        if x == v {
            assert(full[s.len() as int] == x);
        }
    }
}

/// The indices whose flag is set.
pub open spec fn marked(flags: Seq<bool>) -> Set<int> {
    Set::new(|v: int| 0 <= v < flags.len() && flags[v])
}

/// The indices marked in `inc` and not yet in `placed`.
pub open spec fn remaining(inc: Seq<bool>, placed: Seq<bool>) -> Set<int> {
    Set::new(|v: int| 0 <= v < inc.len() && inc[v] && !placed[v])
}

pub proof fn lemma_marked_finite(flags: Seq<bool>)
    ensures
        marked(flags).finite(),
        marked(flags).len() <= flags.len(),
        marked(flags).subset_of(set_int_range(0, flags.len() as int)),
{
    lemma_int_range(0, flags.len() as int);
    lemma_len_subset(marked(flags), set_int_range(0, flags.len() as int));
}

pub proof fn lemma_marked_set(flags: Seq<bool>, a: int)
    requires
        0 <= a < flags.len(),
        !flags[a],
    ensures
        marked(flags.update(a, true)) == marked(flags).insert(a),
        marked(flags.update(a, true)).len() == marked(flags).len() + 1,
        marked(flags).len() < flags.len(),
{
    assert(marked(flags.update(a, true)) =~= marked(flags).insert(a));
    lemma_marked_finite(flags);
    lemma_marked_finite(flags.update(a, true));
}

pub proof fn lemma_prepend_assoc(a: Seq<int>, b: Seq<int>, r: Option<Seq<int>>)
    ensures
        prepend(a, prepend(b, r)) == prepend(a + b, r),
        prepend(Seq::empty(), r) == r,
{
    if r is Some {
        assert(a + (b + r->0) =~= (a + b) + r->0);
        assert(Seq::<int>::empty() + r->0 =~= r->0);
    }
}

// ---------------------------------------------------------------------------
// The graph
// ---------------------------------------------------------------------------

/// A directed graph over numbered nodes whose edges carry a payload.
///
/// An edge `(from, to)` means that `from` has to happen before `to`.
pub struct DirectedAcyclicGraph<N, E> {
    nodes: Vec<N>,
    edges: Vec<(usize, usize, E)>,
}

impl<N, E> DirectedAcyclicGraph<N, E> {
    /// The nodes, by index.
    pub closed spec fn node_seq(&self) -> Seq<N> {
        self.nodes@
    }

    /// The edges in insertion order: source, destination, payload.
    pub closed spec fn edge_list(&self) -> Seq<(int, int, E)> {
        self.edges@.map_values(|e: (usize, usize, E)| (e.0 as int, e.1 as int, e.2))
    }

    /// The pairs joined by an edge.
    pub open spec fn edge_set(&self) -> Set<(int, int)> {
        Set::new(
            |p: (int, int)|
                exists|i: int|
                    0 <= i < self.edge_list().len() && #[trigger] self.edge_list()[i].0 == p.0
                        && self.edge_list()[i].1 == p.1,
        )
    }

    /// Edges join existing nodes and no pair is joined twice.
    pub open spec fn wf(&self) -> bool {
        &&& forall|i: int|
            0 <= i < self.edge_list().len() ==> 0 <= #[trigger] self.edge_list()[i].0 < self.node_seq().len()
                && 0 <= self.edge_list()[i].1 < self.node_seq().len()
        &&& forall|i: int, j: int|
            0 <= i < self.edge_list().len() && 0 <= j < self.edge_list().len() && i != j
                ==> (#[trigger] self.edge_list()[i].0 != #[trigger] self.edge_list()[j].0
                || self.edge_list()[i].1 != self.edge_list()[j].1)
    }

    /// An empty graph.
    pub fn new() -> (res: Self)
        ensures
            res.wf(),
            res.node_seq() == Seq::<N>::empty(),
            res.edge_list() == Seq::<(int, int, E)>::empty(),
    {
        let res = Self { nodes: Vec::new(), edges: Vec::new() };
        assert(res.edge_list() =~= Seq::<(int, int, E)>::empty());
        res
    }

    /// Appends a node; its index is the previous node count.
    pub fn add_node(&mut self, node: N)
        requires
            old(self).wf(),
        ensures
            final(self).wf(),
            final(self).node_seq() == old(self).node_seq().push(node),
            final(self).edge_list() == old(self).edge_list(),
    {
        self.nodes.push(node);
        assert(self.edge_list() == old(self).edge_list());
    }

    /// The number of nodes.
    pub fn node_count(&self) -> (res: usize)
        ensures
            res == self.node_seq().len(),
    {
        self.nodes.len()
    }

    /// The nodes, by index.
    pub fn nodes(&self) -> (res: &Vec<N>)
        ensures
            res@ == self.node_seq(),
    {
        &self.nodes
    }

    /// The node at `index`, if there is one.
    pub fn get_node(&self, index: usize) -> (res: Option<&N>)
        ensures
            index < self.node_seq().len() ==> res == Some(&self.node_seq()[index as int]),
            index >= self.node_seq().len() ==> res is None,
    {
        if index < self.nodes.len() {
            Some(&self.nodes[index])
        } else {
            None
        }
    }

    /// Joins `from` to `to`, replacing the payload if they are already joined.
    ///
    /// No check is made that the new edge keeps the graph acyclic: a cycle
    /// shows up later, when `compile` finds no schedule.
    pub fn add_edge_cyclic(&mut self, from: usize, to: usize, payload: E)
        requires
            old(self).wf(),
            from < old(self).node_seq().len(),
            to < old(self).node_seq().len(),
        ensures
            final(self).wf(),
            final(self).node_seq() == old(self).node_seq(),
            final(self).edge_set() == old(self).edge_set().insert((from as int, to as int)),
            forall|i: int|
                0 <= i < old(self).edge_list().len() && old(self).edge_list()[i].0 == from
                    && old(self).edge_list()[i].1 == to ==> final(self).edge_list()
                    == old(self).edge_list().update(i, (from as int, to as int, payload)),
            (forall|i: int|
                0 <= i < old(self).edge_list().len() ==> !(old(self).edge_list()[i].0 == from
                    && old(self).edge_list()[i].1 == to)) ==> final(self).edge_list()
                == old(self).edge_list().push((from as int, to as int, payload)),
    {
        let ghost old_list = self.edge_list();
        let ghost old_set = self.edge_set();
        let mut i: usize = 0;
        while i < self.edges.len()
            invariant
                self.wf(),
                self.node_seq() == old(self).node_seq(),
                old_list == old(self).edge_list(),
                old_set == old(self).edge_set(),
                self.edge_list() == old_list,
                self.edge_set() == old_set,
                from < self.node_seq().len(),
                to < self.node_seq().len(),
                0 <= i <= self.edges.len(),
                self.edges.len() == old_list.len(),
                forall|k: int| 0 <= k < i ==> !(old_list[k].0 == from && old_list[k].1 == to),
            decreases self.edges.len() - i,
        {
            if self.edges[i].0 == from && self.edges[i].1 == to {
                assert(old_list[i as int].0 == from && old_list[i as int].1 == to);
                let ghost before = self.edges@;
                self.edges.set(i, (from, to, payload));
                assert(self.edge_list() =~= old_list.update(i as int, (from as int, to as int, payload)));
                assert forall|k: int|
                    0 <= k < old_list.len() && old_list[k].0 == from && old_list[k].1 == to
                    implies k == i by {
                    if k != i {
                        assert(old_list[k].0 != old_list[i as int].0 || old_list[k].1 != old_list[i as int].1);
                    }
                }
                assert(self.edge_set() =~= old_set.insert((from as int, to as int))) by {
                    assert forall|p: (int, int)| #[trigger] self.edge_set().contains(p) <==> old_set.insert((from as int, to as int)).contains(p) by {
                        if self.edge_set().contains(p) {
                            let k = choose|k: int| 0 <= k < self.edge_list().len() && #[trigger] self.edge_list()[k].0 == p.0 && self.edge_list()[k].1 == p.1;
                            if k != i {
                                assert(old_list[k] == self.edge_list()[k]);
                            }
                        }
                        if old_set.contains(p) {
                            let k = choose|k: int| 0 <= k < old_list.len() && #[trigger] old_list[k].0 == p.0 && old_list[k].1 == p.1;
                            assert(self.edge_list()[k].0 == p.0 && self.edge_list()[k].1 == p.1);
                        }
                        if p == (from as int, to as int) {
                            assert(self.edge_list()[i as int].0 == p.0 && self.edge_list()[i as int].1 == p.1);
                        }
                    }
                }
                return;
            }
            i += 1;
        }
        self.edges.push((from, to, payload));
        assert(self.edge_list() =~= old_list.push((from as int, to as int, payload)));
        assert(self.edge_set() =~= old_set.insert((from as int, to as int))) by {
            assert forall|p: (int, int)| #[trigger] self.edge_set().contains(p) <==> old_set.insert((from as int, to as int)).contains(p) by {
                if self.edge_set().contains(p) {
                    let k = choose|k: int| 0 <= k < self.edge_list().len() && #[trigger] self.edge_list()[k].0 == p.0 && self.edge_list()[k].1 == p.1;
                    if k < old_list.len() {
                        assert(old_list[k] == self.edge_list()[k]);
                    }
                }
                if old_set.contains(p) {
                    let k = choose|k: int| 0 <= k < old_list.len() && #[trigger] old_list[k].0 == p.0 && old_list[k].1 == p.1;
                    assert(self.edge_list()[k].0 == p.0 && self.edge_list()[k].1 == p.1);
                }
                if p == (from as int, to as int) {
                    assert(self.edge_list()[old_list.len() as int].0 == p.0);
                }
            }
        }
    }


    /// Marks every node that influences one of `roots`; the count of marked nodes comes second.
    fn mark_influencers(&self, roots: &Vec<usize>) -> (res: (Vec<bool>, usize))
        requires
            self.wf(),
            forall|i: int| 0 <= i < roots@.len() ==> roots@[i] < self.node_seq().len(),
        ensures
            res.0@.len() == self.node_seq().len(),
            marked(res.0@) == influencers_of(self.edge_set(), index_set(roots@)),
            res.1 == marked(res.0@).len(),
    {
        let n = self.nodes.len();
        let ghost edges = self.edge_set();
        let ghost list = self.edge_list();
        let ghost rs = index_set(roots@);
        let mut inc: Vec<bool> = Vec::new();
        let mut k: usize = 0;
        while k < n
            invariant
                n == self.node_seq().len(),
                k <= n,
                inc@.len() == k,
                forall|i: int| 0 <= i < k ==> !inc@[i],
            decreases n - k,
        {
            inc.push(false);
            k += 1;
        }
        let mut count: usize = 0;
        let mut work: Vec<usize> = Vec::new();
        proof {
            assert(marked(inc@) =~= Set::<int>::empty());
        }
        let mut r: usize = 0;
        while r < roots.len()
            invariant
                n == self.node_seq().len(),
                rs == index_set(roots@),
                forall|i: int| 0 <= i < roots@.len() ==> roots@[i] < n,
                r <= roots@.len(),
                inc@.len() == n,
                count == marked(inc@).len(),
                forall|v: int| 0 <= v < n ==> (#[trigger] inc@[v] <==> exists|i: int| 0 <= i < r && roots@[i] as int == v),
                forall|i: int| 0 <= i < work@.len() ==> #[trigger] work@[i] < n && inc@[work@[i] as int],
                forall|v: int| 0 <= v < n && #[trigger] inc@[v] ==> work@.contains(v as usize),
                work@.no_duplicates(),
            decreases roots@.len() - r,
        {
            let t = roots[r];
            if !inc[t] {
                proof {
                    lemma_marked_set(inc@, t as int);
                    assert(!work@.contains(t)) by {
                        if work@.contains(t) {
                            let q = choose|q: int| 0 <= q < work@.len() && work@[q] == t;
                            assert(inc@[work@[q] as int]);
                        }
                    }
                    lemma_push_contains(work@, t);
                }
                let ghost w0 = work@;
                inc.set(t, true);
                work.push(t);
                count += 1;
                proof {
                    assert forall|i: int| 0 <= i < work@.len() implies #[trigger] work@[i] < n && inc@[work@[i] as int] by {
                        if i < w0.len() {
                            assert(work@[i] == w0[i]);
                        }
                    }
                }
            }
            proof {
                assert forall|v: int| 0 <= v < n implies (#[trigger] inc@[v] <==> exists|i: int| 0 <= i < r + 1 && roots@[i] as int == v) by {
                    if inc@[v] && v != t {
                        let i = choose|i: int| 0 <= i < r && roots@[i] as int == v;
                        assert(0 <= i < r + 1);
                    }
                    if v == t {
                        assert(roots@[r as int] as int == v);
                    }
                }
            }
            r += 1;
        }
        proof {
            assert forall|v: int| 0 <= v < n && #[trigger] inc@[v] implies influences_any(edges, v, rs) by {
                let i = choose|i: int| 0 <= i < roots@.len() && roots@[i] as int == v;
                assert(rs.contains(v));
                lemma_influences_self(edges, v);
            }
        }
        while work.len() > 0
            invariant
                self.wf(),
                edges == self.edge_set(),
                list == self.edge_list(),
                rs == index_set(roots@),
                n == self.node_seq().len(),
                inc@.len() == n,
                forall|t: int| #[trigger] rs.contains(t) ==> 0 <= t < n && inc@[t],
                count == marked(inc@).len(),
                forall|i: int| 0 <= i < work@.len() ==> #[trigger] work@[i] < n && inc@[work@[i] as int],
                work@.no_duplicates(),
                forall|v: int| 0 <= v < n && #[trigger] inc@[v] ==> influences_any(edges, v, rs),
                forall|j: int|
                    0 <= j < list.len() && #[trigger] inc@[list[j].1] && !work@.contains(list[j].1 as usize)
                        ==> inc@[list[j].0],
            decreases n - count, work.len(),
        {
            proof { lemma_marked_finite(inc@); }
            let ghost before_pop = work@;
            let v = work.pop().unwrap();
            let ghost popped = work@;
            let ghost count_before = count;
            proof {
                assert(before_pop =~= popped.push(v));
                lemma_pop_contains(popped, v);
            }
            let mut j: usize = 0;
            while j < self.edges.len()
                invariant
                    self.wf(),
                    edges == self.edge_set(),
                    list == self.edge_list(),
                    rs == index_set(roots@),
                    n == self.node_seq().len(),
                    v < n,
                    inc@[v as int],
                    j <= list.len(),
                    inc@.len() == n,
                    forall|t: int| #[trigger] rs.contains(t) ==> 0 <= t < n && inc@[t],
                    count == marked(inc@).len(),
                    count >= count_before,
                    count == count_before ==> work@ == popped,
                    !work@.contains(v),
                    forall|i: int| 0 <= i < work@.len() ==> #[trigger] work@[i] < n && inc@[work@[i] as int],
                    work@.no_duplicates(),
                    forall|v: int| 0 <= v < n && #[trigger] inc@[v] ==> influences_any(edges, v, rs),
                    forall|jj: int|
                        0 <= jj < list.len() && #[trigger] inc@[list[jj].1] && list[jj].1 != v
                            && !work@.contains(list[jj].1 as usize) ==> inc@[list[jj].0],
                    forall|jj: int| 0 <= jj < j && #[trigger] list[jj].1 == v ==> inc@[list[jj].0],
                decreases list.len() - j,
            {
                let a = self.edges[j].0;
                let b = self.edges[j].1;
                assert(list[j as int].0 == a && list[j as int].1 == b);
                if b == v && !inc[a] {
                    proof {
                        lemma_marked_set(inc@, a as int);
                        assert(edges.contains((a as int, v as int)));
                        assert(influences_any(edges, v as int, rs));
                        let t = choose|t: int| rs.contains(t) && #[trigger] influences(edges, v as int, t);
                        lemma_influences_pred(edges, a as int, v as int, t);
                        assert(influences_any(edges, a as int, rs));
                        assert(!work@.contains(a)) by {
                            if work@.contains(a) {
                                let k = choose|k: int| 0 <= k < work@.len() && work@[k] == a;
                                assert(inc@[work@[k] as int]);
                            }
                        }
                        lemma_push_contains(work@, a);
                    }
                    let ghost w0 = work@;
                    inc.set(a, true);
                    work.push(a);
                    count += 1;
                    proof {
                        assert forall|i: int| 0 <= i < work@.len() implies #[trigger] work@[i] < n && inc@[work@[i] as int] by {
                            if i < w0.len() {
                                assert(work@[i] == w0[i]);
                            }
                        }
                    }
                }
                j += 1;
            }
            proof {
                lemma_marked_finite(inc@);
                assert forall|jj: int|
                    0 <= jj < list.len() && #[trigger] inc@[list[jj].1] && !work@.contains(list[jj].1 as usize)
                    implies inc@[list[jj].0] by {
                    if list[jj].1 == v {
                        assert(list[jj].1 == v);
                    }
                }
            }
        }
        proof {
            lemma_marked_finite(inc@);
            let c = marked(inc@);
            let infl = influencers_of(edges, rs);
            assert forall|u: int, w: int| #[trigger] edges.contains((u, w)) && c.contains(w) implies c.contains(u) by {
                let jj = choose|jj: int| 0 <= jj < list.len() && #[trigger] list[jj].0 == u && list[jj].1 == w;
                assert(inc@[list[jj].1]);
            }
            assert forall|x: int| c.contains(x) <==> infl.contains(x) by {
                if infl.contains(x) {
                    let t = choose|t: int| rs.contains(t) && #[trigger] influences(edges, x, t);
                    let p = choose|p: Seq<int>| #[trigger] is_path(edges, p) && p[0] == x && p.last() == t;
                    assert(c.contains(t));
                    lemma_closed_holds_path(edges, c, p);
                }
            }
            assert(c =~= infl);
        }
        (inc, count)
    }

    /// Some node marked in `inc` and not yet in `placed` has an edge into `v`.
    fn has_waiting_pred(&self, v: usize, inc: &Vec<bool>, placed: &Vec<bool>) -> (res: bool)
        requires
            self.wf(),
            inc@.len() == self.node_seq().len(),
            placed@.len() == self.node_seq().len(),
        ensures
            res <==> exists|u: int| #[trigger] remaining(inc@, placed@).contains(u)
                && self.edge_set().contains((u, v as int)),
    {
        let ghost list = self.edge_list();
        let ghost rem = remaining(inc@, placed@);
        let mut j: usize = 0;
        while j < self.edges.len()
            invariant
                self.wf(),
                list == self.edge_list(),
                rem == remaining(inc@, placed@),
                inc@.len() == self.node_seq().len(),
                placed@.len() == self.node_seq().len(),
                j <= list.len(),
                forall|jj: int| 0 <= jj < j && #[trigger] list[jj].1 == v ==> !rem.contains(list[jj].0),
            decreases list.len() - j,
        {
            let a = self.edges[j].0;
            let b = self.edges[j].1;
            assert(list[j as int].0 == a && list[j as int].1 == b);
            if b == v && inc[a] && !placed[a] {
                assert(rem.contains(a as int));
                assert(self.edge_set().contains((a as int, v as int)));
                return true;
            }
            j += 1;
        }
        assert forall|u: int| #[trigger] rem.contains(u) implies !self.edge_set().contains((u, v as int)) by {
            if self.edge_set().contains((u, v as int)) {
                let jj = choose|jj: int| 0 <= jj < list.len() && #[trigger] list[jj].0 == u && list[jj].1 == v as int;
                assert(list[jj].1 == v);
            }
        }
        false
    }

    /// Schedules every node that influences one of `roots`, each after the
    /// nodes with an edge into it, taking the smallest ready node first;
    /// `None` when those nodes contain a cycle.
    pub fn compile(&self, roots: &Vec<usize>) -> (res: Option<Vec<usize>>)
        requires
            self.wf(),
            forall|i: int| 0 <= i < roots@.len() ==> roots@[i] < self.node_seq().len(),
        ensures
            order_view(res) == schedule(self.edge_set(), index_set(roots@)),
    {
        let n = self.nodes.len();
        let ghost edges = self.edge_set();
        let (inc, count) = self.mark_influencers(roots);
        let ghost c = marked(inc@);
        let mut placed: Vec<bool> = Vec::new();
        let mut k: usize = 0;
        while k < n
            invariant
                n == self.node_seq().len(),
                k <= n,
                placed@.len() == k,
                forall|i: int| 0 <= i < k ==> !placed@[i],
            decreases n - k,
        {
            placed.push(false);
            k += 1;
        }
        let mut order: Vec<usize> = Vec::new();
        proof {
            assert(remaining(inc@, placed@) =~= c);
            assert(order@.map_values(|x: usize| x as int) =~= Seq::<int>::empty());
            lemma_prepend_assoc(Seq::empty(), Seq::empty(), linearize(c, edges));
            lemma_marked_finite(inc@);
        }
        while order.len() < count
            invariant
                self.wf(),
                edges == self.edge_set(),
                n == self.node_seq().len(),
                inc@.len() == n,
                placed@.len() == n,
                c == marked(inc@),
                c == influencers_of(edges, index_set(roots@)),
                count == c.len(),
                c.finite(),
                remaining(inc@, placed@).finite(),
                remaining(inc@, placed@).len() + order@.len() == count,
                linearize(c, edges) == prepend(
                    order@.map_values(|x: usize| x as int),
                    linearize(remaining(inc@, placed@), edges),
                ),
            decreases count - order.len(),
        {
            let ghost rem = remaining(inc@, placed@);
            let mut v: usize = 0;
            let mut found = false;
            while v < n && !found
                invariant
                    self.wf(),
                    edges == self.edge_set(),
                    n == self.node_seq().len(),
                    inc@.len() == n,
                    placed@.len() == n,
                    rem == remaining(inc@, placed@),
                    v <= n,
                    found ==> v < n && is_next(rem, edges, v as int),
                    !found ==> forall|w: int| 0 <= w < v ==> !#[trigger] ready(rem, edges, w),
                decreases n - v, if found { 0int } else { 1int },
            {
                if inc[v] && !placed[v] && !self.has_waiting_pred(v, &inc, &placed) {
                    assert(ready(rem, edges, v as int));
                    found = true;
                } else {
                    assert(!ready(rem, edges, v as int)) by {
                        if ready(rem, edges, v as int) {
                            assert(rem.contains(v as int));
                        }
                    }
                    v += 1;
                }
            }
            if !found {
                proof {
                    assert forall|w: int| !ready(rem, edges, w) by {
                        if ready(rem, edges, w) {
                            assert(rem.contains(w));
                        }
                    }
                    lemma_linearize_stuck(rem, edges);
                }
                return None;
            }
            proof {
                lemma_linearize_step(rem, edges, v as int);
                lemma_prepend_assoc(
                    order@.map_values(|x: usize| x as int),
                    seq![v as int],
                    linearize(rem.remove(v as int), edges),
                );
            }
            let ghost old_order = order@;
            placed.set(v, true);
            order.push(v);
            proof {
                assert(remaining(inc@, placed@) =~= rem.remove(v as int));
                assert(order@.map_values(|x: usize| x as int) =~= old_order.map_values(
                    |x: usize| x as int,
                ) + seq![v as int]);
            }
        }
        proof {
            let rem = remaining(inc@, placed@);
            assert(rem.len() == 0);
            assert(linearize(rem, edges) == Some(Seq::<int>::empty()));
            assert(order@.map_values(|x: usize| x as int) + Seq::<int>::empty() =~= order@.map_values(
                |x: usize| x as int,
            ));
        }
        Some(order)
    }

    /// Removes every node and edge.
    pub fn clear(&mut self)
        ensures
            final(self).wf(),
            final(self).node_seq() == Seq::<N>::empty(),
            final(self).edge_list() == Seq::<(int, int, E)>::empty(),
    {
        self.nodes.clear();
        self.edges.clear();
        assert(self.edge_list() =~= Seq::<(int, int, E)>::empty());
    }
}

} // verus!
