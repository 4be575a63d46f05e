use vstd::prelude::*;

use crate::render_graph::dag::{
    has_cycle_within, index_set, influencers_of, influences, influences_any, is_path,
    lemma_closed_holds_path, lemma_influences_pred, lemma_influences_self, lemma_linearize_local,
    lemma_linearize_none_iff_cycle, lemma_linearize_permutation, lemma_influences_any_pred,
    lemma_path_subrange, lemma_linearize_topological,
    lemma_marked_finite, lemma_marked_set, lemma_path_tail, lemma_pop_contains,
    lemma_push_contains, lemma_schedule_roots_after_influencers, lemma_schedule_single_root_last,
    marked, path_step, position, schedule, DirectedAcyclicGraph,
};
use crate::render_graph::gpu_operation::Operation;
use crate::render_graph::resource::ResourceId;
use vstd::set_lib::*;

verus! {

/// The payload of a dependency edge.
#[derive(Debug, Clone, Copy)]
pub enum IntermediateAction {
    NoAction,
}

/// Pairs `(w, r)` of operation indices where `ops[w]` writes a resource
/// that `ops[r]` reads.
pub open spec fn dependencies(ops: Seq<Operation>) -> Set<(int, int)> {
    Set::new(
        |p: (int, int)|
            0 <= p.0 < ops.len() && 0 <= p.1 < ops.len() && ops[p.0].feeds(ops[p.1]),
    )
}

/// What compiling `ops` towards the operations at `roots` yields: the
/// operations that influence some root, each after every operation whose
/// output it reads, the smallest index first among those that are ready;
/// `None` when their dependencies form a cycle.
pub open spec fn compiled(ops: Seq<Operation>, roots: Set<int>) -> Option<Seq<Operation>> {
    match schedule(dependencies(ops), roots) {
        Some(s) => Some(s.map_values(|i: int| ops[i])),
        None => None,
    }
}

/// The operations compiled towards: the marked targets, or the first
/// operation while none is marked.
pub open spec fn effective_roots(targets: Seq<usize>) -> Set<int> {
    if targets.len() == 0 {
        set![0int]
    } else {
        index_set(targets)
    }
}

/// The dependency edges that compiling towards `roots` records: those into
/// an operation that influences some root.
pub open spec fn recorded_edges(ops: Seq<Operation>, roots: Set<int>) -> Set<(int, int)> {
    Set::new(
        |p: (int, int)|
            dependencies(ops).contains(p) && influencers_of(dependencies(ops), roots).contains(p.1),
    )
}

/// Operations of an executable result.
pub open spec fn ops_view(res: Option<Vec<Operation>>) -> Option<Seq<Operation>> {
    match res {
        Some(v) => Some(v@),
        None => None,
    }
}

/// Batches, culls and orders GPU operations towards its target operations.
pub struct RenderGraph {
    dag: DirectedAcyclicGraph<Operation, IntermediateAction>,
    target_nodes: Vec<usize>,
}

impl RenderGraph {
    /// The recorded operations, by insertion order.
    pub closed spec fn ops(&self) -> Seq<Operation> {
        self.dag.node_seq()
    }

    /// Indices of the operations added as targets, in insertion order.
    pub closed spec fn targets(&self) -> Seq<usize> {
        self.target_nodes@
    }

    /// The dependency edges recorded so far.
    pub closed spec fn edges(&self) -> Set<(int, int)> {
        self.dag.edge_set()
    }

    /// Every target is a recorded operation.
    pub open spec fn targets_valid(&self) -> bool {
        forall|i: int| 0 <= i < self.targets().len() ==> self.targets()[i] < self.ops().len()
    }

    /// The graph is well formed and each of its edges is a dependency.
    pub closed spec fn wf(&self) -> bool {
        &&& self.dag.wf()
        &&& self.dag.edge_set().subset_of(dependencies(self.dag.node_seq()))
    }

    pub fn new() -> (res: Self)
        ensures
            res.wf(),
            res.targets_valid(),
            res.ops() == Seq::<Operation>::empty(),
            res.targets() == Seq::<usize>::empty(),
            res.edges() == Set::<(int, int)>::empty(),
    {
        let res = Self { dag: DirectedAcyclicGraph::new(), target_nodes: Vec::new() };
        assert(res.dag.edge_set() =~= Set::<(int, int)>::empty());
        res
    }

    /// Inserts operation into render graph
    ///
    /// If operation is not infuencing any target operations it would be culled at compilation
    pub fn add_operation(&mut self, op: Operation)
        requires
            old(self).wf(),
        ensures
            final(self).wf(),
            old(self).targets_valid() ==> final(self).targets_valid(),
            final(self).ops() == old(self).ops().push(op),
            final(self).targets() == old(self).targets(),
            final(self).edges() == old(self).edges(),
    {
        let ghost before = self.dag.node_seq();
        self.dag.add_node(op);
        proof { lemma_dependencies_grow(before, op, self.dag.edge_set()); }
        assert(old(self).targets_valid() ==> self.targets_valid()) by {
            if old(self).targets_valid() {
                assert forall|i: int| 0 <= i < self.targets().len() implies self.targets()[i] < self.ops().len() by {
                    assert(self.targets()[i] == old(self).targets()[i]);
                }
            }
        }
    }

    /// Inserts operation into render graph marked as targeted, `target`
    /// operations are the ones that define output of app
    pub fn add_target_op(&mut self, target: Operation)
        requires
            old(self).wf(),
        ensures
            final(self).wf(),
            old(self).targets_valid() ==> final(self).targets_valid(),
            final(self).ops() == old(self).ops().push(target),
            final(self).targets() == old(self).targets().push(old(self).ops().len() as usize),
            final(self).edges() == old(self).edges(),
    {
        let ghost before = self.dag.node_seq();
        self.dag.add_node(target);
        proof { lemma_dependencies_grow(before, target, self.dag.edge_set()); }
        let index = self.dag.node_count() - 1;
        self.target_nodes.push(index);
        assert(old(self).targets_valid() ==> self.targets_valid()) by {
            if old(self).targets_valid() {
                assert forall|i: int| 0 <= i < self.targets().len() implies self.targets()[i] < self.ops().len() by {
                    if i < old(self).targets().len() {
                        assert(self.targets()[i] == old(self).targets()[i]);
                    }
                }
            }
        }
    }

    /// This function is main feature of render graph: it culls the
    /// operations that influence no target and orders the rest.
    #[verifier::rlimit(80)]
    pub fn compile(&mut self) -> (res: Option<Vec<Operation>>)
        requires
            old(self).wf(),
            old(self).targets_valid(),
            old(self).ops().len() > 0,
        ensures
            final(self).wf(),
            final(self).targets_valid(),
            final(self).ops() == old(self).ops(),
            final(self).targets() == old(self).targets(),
            final(self).edges() == old(self).edges().union(
                recorded_edges(old(self).ops(), effective_roots(old(self).targets())),
            ),
            ops_view(res) == compiled(old(self).ops(), effective_roots(old(self).targets())),
    {
        let n = self.dag.node_count();
        let ghost ops = self.dag.node_seq();
        let ghost deps = dependencies(ops);
        let ghost e_old = self.dag.edge_set();
        // The operations compiled towards.
        let mut roots: Vec<usize> = Vec::new();
        if self.target_nodes.len() == 0 {
            roots.push(0);
        } else {
            let mut r: usize = 0;
            while r < self.target_nodes.len()
                invariant
                    self.wf(),
                    n == self.dag.node_seq().len(),
                    r <= self.target_nodes@.len(),
                    roots@ == self.target_nodes@.subrange(0, r as int),
                decreases self.target_nodes@.len() - r,
            {
                roots.push(self.target_nodes[r]);
                r += 1;
            }
            assert(roots@ =~= self.target_nodes@);
        }
        let ghost rs = index_set(roots@);
        proof {
            if self.target_nodes@.len() == 0 {
                assert forall|t: int| rs.contains(t) <==> set![0int].contains(t) by {
                    if t == 0 {
                        assert(roots@[0] as int == t);
                    }
                }
            }
            assert(rs =~= effective_roots(self.target_nodes@));
        }
        assert forall|i: int| 0 <= i < roots@.len() implies roots@[i] < n by {
            if self.target_nodes@.len() != 0 {
                assert(roots@[i] == self.targets()[i]);
            }
        }
        let (seen, stack, count) = mark_roots(n, &roots);
        proof {
            assert forall|v: int| 0 <= v < n && #[trigger] seen@[v] implies influences_any(deps, v, rs) by {
                let i = choose|i: int| 0 <= i < roots@.len() && roots@[i] as int == v;
                assert(rs.contains(v));
                lemma_influences_self(deps, v);
            }
            assert forall|t: int| #[trigger] rs.contains(t) implies 0 <= t < n && seen@[t] by {
                let i = choose|i: int| 0 <= i < roots@.len() && roots@[i] as int == t;
            }
        }
        let seen = self.link_dependencies(&roots, seen, stack, count);
        proof {
            lemma_marked_finite(seen@);
            let e = self.dag.edge_set();
            let c = marked(seen@);
            assert forall|u: int, v: int| c.contains(u) && c.contains(v) implies (e.contains((u, v)) <==> deps.contains((u, v))) by {
                if deps.contains((u, v)) {
                    assert(recorded_edges(ops, rs).contains((u, v)));
                }
            }
            lemma_linearize_local(c, e, deps);
        }
        match self.dag.compile(&roots) {
            Some(order) => {
                proof {
                    lemma_marked_finite(seen@);
                    lemma_linearize_permutation(marked(seen@), self.dag.edge_set());
                }
                let ghost idx = order@.map_values(|x: usize| x as int);
                assert forall|i: int| 0 <= i < order@.len() implies order@[i] < n by {
                    assert(idx.to_set().contains(idx[i]));
                }
                let out = self.collect_ops(&order);
                assert(out@ =~= idx.map_values(|j: int| ops[j]));
                Some(out)
            },
            None => None,
        }
    }

    /// The operations at the given indices.
    fn collect_ops(&self, order: &Vec<usize>) -> (out: Vec<Operation>)
        requires
            forall|i: int| 0 <= i < order@.len() ==> order@[i] < self.ops().len(),
        ensures
            out@ == order@.map_values(|x: usize| self.ops()[x as int]),
    {
        let mut out: Vec<Operation> = Vec::new();
        let mut i: usize = 0;
        while i < order.len()
            invariant
                forall|i: int| 0 <= i < order@.len() ==> order@[i] < self.ops().len(),
                i <= order@.len(),
                out@ == order@.subrange(0, i as int).map_values(|x: usize| self.ops()[x as int]),
            decreases order@.len() - i,
        {
            let op: Operation = self.dag.nodes()[order[i]];
            out.push(op);
            i += 1;
            assert(out@ =~= order@.subrange(0, i as int).map_values(|x: usize| self.ops()[x as int]));
        }
        assert(order@.subrange(0, order@.len() as int) =~= order@);
        out
    }

    /// Links every operation to the readers of what it writes, walking
    /// backwards from the operations marked in `seen`; returns the marks,
    /// which end up on every operation that influences a root.
    fn link_dependencies(&mut self, roots: &Vec<usize>, seen: Vec<bool>, stack: Vec<usize>, count: usize) -> (res: Vec<bool>)
        requires
            old(self).wf(),
            seen@.len() == old(self).ops().len(),
            count == marked(seen@).len(),
            forall|t: int| #[trigger] index_set(roots@).contains(t) ==> 0 <= t < seen@.len() && seen@[t],
            forall|i: int| 0 <= i < stack@.len() ==> #[trigger] stack@[i] < seen@.len() && seen@[stack@[i] as int],
            stack@.no_duplicates(),
            forall|v: int| 0 <= v < seen@.len() && #[trigger] seen@[v] ==> influences_any(dependencies(old(self).ops()), v, index_set(roots@)),
            forall|v: int| 0 <= v < seen@.len() && #[trigger] seen@[v] ==> stack@.contains(v as usize),
        ensures
            final(self).wf(),
            final(self).ops() == old(self).ops(),
            final(self).targets() == old(self).targets(),
            res@.len() == old(self).ops().len(),
            marked(res@) == influencers_of(dependencies(old(self).ops()), index_set(roots@)),
            marked(res@) == influencers_of(final(self).edges(), index_set(roots@)),
            final(self).edges() == old(self).edges().union(recorded_edges(old(self).ops(), index_set(roots@))),
    {
        let mut seen = seen;
        let mut stack = stack;
        let mut count = count;
        let n = self.dag.node_count();
        let ghost ops = self.dag.node_seq();
        let ghost deps = dependencies(ops);
        let ghost e_old = self.dag.edge_set();
        let ghost rs = index_set(roots@);
        // Link every operation to the readers of what it writes, walking
        // backwards from the targets.
        while stack.len() > 0
            invariant
                self.wf(),
                self.dag.node_seq() == ops,
                self.target_nodes@ == old(self).target_nodes@,
                e_old == old(self).edges(),
                deps == dependencies(ops),
                n == ops.len(),
                rs == index_set(roots@),
                forall|t: int| #[trigger] rs.contains(t) ==> 0 <= t < n && seen@[t],
                seen@.len() == n,
                count == marked(seen@).len(),
                forall|i: int| 0 <= i < stack@.len() ==> #[trigger] stack@[i] < n && seen@[stack@[i] as int],
                stack@.no_duplicates(),
                forall|v: int| 0 <= v < n && #[trigger] seen@[v] ==> influences_any(deps, v, rs),
                forall|u: int, v: int|
                    #[trigger] deps.contains((u, v)) && seen@[v] && !stack@.contains(v as usize)
                        ==> seen@[u] && self.dag.edge_set().contains((u, v)),
                e_old.subset_of(self.dag.edge_set()),
                forall|p: (int, int)| #[trigger] self.dag.edge_set().contains(p) ==> e_old.contains(p)
                    || (deps.contains(p) && 0 <= p.1 < n && seen@[p.1]),
            decreases n - count, stack.len(),
        {
            proof { lemma_marked_finite(seen@); }
            let ghost before_pop = stack@;
            let ghost seen_before = seen@;
            let cur = stack.pop().unwrap();
            let ghost popped = stack@;
            let ghost count_before = count;
            let ghost e_before = self.dag.edge_set();
            proof {
                assert(before_pop =~= popped.push(cur));
                lemma_pop_contains(popped, cur);
            }
            self.link_writers(cur, &mut seen, &mut stack, &mut count, Ghost(rs), Ghost(e_old));
            proof {
                lemma_marked_finite(seen@);
                assert forall|u: int, v: int|
                    #[trigger] deps.contains((u, v)) && seen@[v] && !stack@.contains(v as usize)
                    implies seen@[u] && self.dag.edge_set().contains((u, v)) by {
                    if v != cur {
                        if seen_before[v] {
                            assert(!popped.contains(v as usize));
                            assert(!before_pop.contains(v as usize));
                            assert(e_before.contains((u, v)));
                        }
                    }
                }
            }
        }
        proof {
            lemma_marked_finite(seen@);
            let e = self.dag.edge_set();
            let c = marked(seen@);
            assert forall|u: int, v: int| #[trigger] deps.contains((u, v)) && c.contains(v) implies c.contains(u) by {}
            assert forall|x: int| influencers_of(deps, rs).contains(x) implies c.contains(x) by {
                let t = choose|t: int| rs.contains(t) && #[trigger] influences(deps, x, t);
                let p = choose|p: Seq<int>| #[trigger] is_path(deps, p) && p[0] == x && p.last() == t;
                assert(c.contains(t));
                lemma_closed_holds_path(deps, c, p);
            }
            assert(influencers_of(deps, rs) =~= c);
            assert(e =~= e_old.union(recorded_edges(ops, rs)));
            assert forall|x: int| influencers_of(e, rs).contains(x) <==> c.contains(x) by {
                if influencers_of(e, rs).contains(x) {
                    let t = choose|t: int| rs.contains(t) && #[trigger] influences(e, x, t);
                    assert(e.subset_of(deps));
                    lemma_influences_mono(e, deps, x, t);
                    assert(influences_any(deps, x, rs));
                    assert(influencers_of(deps, rs).contains(x));
                }
                if c.contains(x) {
                    assert(influencers_of(deps, rs).contains(x));
                    let t = choose|t: int| rs.contains(t) && #[trigger] influences(deps, x, t);
                    let p = choose|p: Seq<int>| #[trigger] is_path(deps, p) && p[0] == x && p.last() == t;
                    lemma_path_in_recorded(ops, rs, p, t, e);
                    assert(is_path(e, p));
                    assert(influences(e, x, t));
                    assert(influences_any(e, x, rs));
                }
            }
            assert(influencers_of(e, rs) =~= c);
        }
        seen
    }

    /// Links each operation that writes what `ops[cur]` reads to `cur`,
    /// marking and stacking those not marked yet.
    #[verifier::rlimit(40)]
    fn link_writers(
        &mut self,
        cur: usize,
        seen: &mut Vec<bool>,
        stack: &mut Vec<usize>,
        count: &mut usize,
        Ghost(rs): Ghost<Set<int>>,
        Ghost(e_base): Ghost<Set<(int, int)>>,
    )
        requires
            old(self).wf(),
            cur < old(self).ops().len(),
            old(seen)@.len() == old(self).ops().len(),
            old(seen)@[cur as int],
            *old(count) == marked(old(seen)@).len(),
            forall|i: int| 0 <= i < old(stack)@.len() ==> #[trigger] old(stack)@[i] < old(seen)@.len() && old(seen)@[old(stack)@[i] as int],
            old(stack)@.no_duplicates(),
            !old(stack)@.contains(cur),
            forall|v: int| 0 <= v < old(seen)@.len() && #[trigger] old(seen)@[v] ==> influences_any(dependencies(old(self).ops()), v, rs),
            e_base.subset_of(old(self).edges()),
            forall|p: (int, int)| #[trigger] old(self).edges().contains(p) ==> e_base.contains(p)
                || (dependencies(old(self).ops()).contains(p) && 0 <= p.1 < old(seen)@.len() && old(seen)@[p.1]),
        ensures
            final(self).wf(),
            final(self).ops() == old(self).ops(),
            final(self).targets() == old(self).targets(),
            final(seen)@.len() == old(seen)@.len(),
            forall|v: int| 0 <= v < old(seen)@.len() && #[trigger] old(seen)@[v] ==> final(seen)@[v],
            *final(count) == marked(final(seen)@).len(),
            *final(count) >= *old(count),
            *final(count) == *old(count) ==> final(stack)@ == old(stack)@,
            forall|i: int| 0 <= i < final(stack)@.len() ==> #[trigger] final(stack)@[i] < final(seen)@.len() && final(seen)@[final(stack)@[i] as int],
            final(stack)@.no_duplicates(),
            !final(stack)@.contains(cur),
            forall|x: usize| #[trigger] old(stack)@.contains(x) ==> final(stack)@.contains(x),
            forall|v: int| 0 <= v < old(seen)@.len() && #[trigger] final(seen)@[v] && !old(seen)@[v] ==> final(stack)@.contains(v as usize),
            forall|v: int| 0 <= v < old(seen)@.len() && #[trigger] final(seen)@[v] ==> influences_any(dependencies(old(self).ops()), v, rs),
            old(self).edges().subset_of(final(self).edges()),
            forall|p: (int, int)| #[trigger] final(self).edges().contains(p) ==> e_base.contains(p)
                || (dependencies(old(self).ops()).contains(p) && 0 <= p.1 < old(seen)@.len() && final(seen)@[p.1]),
            forall|u: int| #[trigger] dependencies(old(self).ops()).contains((u, cur as int))
                ==> final(seen)@[u] && final(self).edges().contains((u, cur as int)),
    {
        let n = self.dag.node_count();
        let ghost ops = self.dag.node_seq();
        let ghost deps = dependencies(ops);
        let ghost seen0 = seen@;
        let ghost stack0 = stack@;
        let ghost count0 = *count;
        let ghost e0 = self.dag.edge_set();
        let current_node: Operation = self.dag.nodes()[cur];
        let reads = current_node.read_resources();
        let mut node_id: usize = 0;
        while node_id < n
            invariant
                self.wf(),
                self.dag.node_seq() == ops,
                self.target_nodes@ == old(self).target_nodes@,
                deps == dependencies(ops),
                n == ops.len(),
                cur < n,
                current_node == ops[cur as int],
                reads@ == current_node.reads(),
                seen@[cur as int],
                node_id <= n,
                seen@.len() == n,
                seen0.len() == n,
                forall|v: int| 0 <= v < n && #[trigger] seen0[v] ==> seen@[v],
                *count == marked(seen@).len(),
                *count >= count0,
                *count == count0 ==> stack@ == stack0,
                !stack@.contains(cur),
                forall|i: int| 0 <= i < stack@.len() ==> #[trigger] stack@[i] < n && seen@[stack@[i] as int],
                stack@.no_duplicates(),
                forall|x: usize| #[trigger] stack0.contains(x) ==> stack@.contains(x),
                forall|v: int| 0 <= v < n && #[trigger] seen@[v] && !seen0[v] ==> stack@.contains(v as usize),
                forall|v: int| 0 <= v < n && #[trigger] seen@[v] ==> influences_any(deps, v, rs),
                e0.subset_of(self.dag.edge_set()),
                forall|p: (int, int)| #[trigger] self.dag.edge_set().contains(p) ==> e_base.contains(p)
                    || (deps.contains(p) && 0 <= p.1 < n && seen@[p.1]),
                forall|u: int| 0 <= u < node_id && #[trigger] deps.contains((u, cur as int))
                    ==> seen@[u] && self.dag.edge_set().contains((u, cur as int)),
            decreases n - node_id,
        {
            let node: Operation = self.dag.nodes()[node_id];
            if writes_any_of(&node, &reads) {
                proof {
                    assert(deps.contains((node_id as int, cur as int)));
                    lemma_influences_any_pred(deps, node_id as int, cur as int, rs);
                }
                self.dag.add_edge_cyclic(node_id, cur, IntermediateAction::NoAction);
                proof {
                    assert(self.dag.edge_set().subset_of(dependencies(self.dag.node_seq())));
                }
                if !seen[node_id] {
                    proof {
                        lemma_marked_set(seen@, node_id as int);
                        assert(!stack@.contains(node_id)) by {
                            if stack@.contains(node_id) {
                                let k = choose|k: int| 0 <= k < stack@.len() && stack@[k] == node_id;
                                assert(seen@[stack@[k] as int]);
                            }
                        }
                        lemma_push_contains(stack@, node_id);
                    }
                    let ghost s0 = stack@;
                    seen.set(node_id, true);
                    stack.push(node_id);
                    *count += 1;
                    proof {
                        assert forall|i: int| 0 <= i < stack@.len()
                            implies #[trigger] stack@[i] < n && seen@[stack@[i] as int] by {
                            if i < s0.len() {
                                assert(stack@[i] == s0[i]);
                            }
                        }
                    }
                }
            }
            node_id += 1;
        }
    }

    /// The underlying dependency graph.
    pub fn dag(&self) -> (res: &DirectedAcyclicGraph<Operation, IntermediateAction>)
        ensures
            res.node_seq() == self.ops(),
            res.edge_set() == self.edges(),
            self.wf() ==> res.wf() && res.edge_set().subset_of(dependencies(self.ops())),
    {
        &self.dag
    }

    /// Forgets every operation; the targets stay as they were. Intended for
    /// use after all work is done.
    pub fn clear(&mut self)
        requires
            old(self).wf(),
        ensures
            final(self).wf(),
            final(self).ops() == Seq::<Operation>::empty(),
            final(self).targets() == old(self).targets(),
            final(self).edges() == Set::<(int, int)>::empty(),
    {
        self.dag.clear();
        assert(self.dag.edge_set() =~= Set::<(int, int)>::empty());
    }
}


/// The operations that influence some root lie among the recorded ones.
pub proof fn lemma_influencers_in_range(ops: Seq<Operation>, roots: Set<int>)
    requires
        forall|t: int| roots.contains(t) ==> 0 <= t < ops.len(),
    ensures
        influencers_of(dependencies(ops), roots).subset_of(set_int_range(0, ops.len() as int)),
        influencers_of(dependencies(ops), roots).finite(),
{
    let deps = dependencies(ops);
    assert forall|v: int| influencers_of(deps, roots).contains(v) implies 0 <= v < ops.len() by {
        let t = choose|t: int| roots.contains(t) && #[trigger] influences(deps, v, t);
        let p = choose|p: Seq<int>| #[trigger] is_path(deps, p) && p[0] == v && p.last() == t;
        if p.len() >= 2 {
            lemma_path_tail(deps, p);
        }
    }
    lemma_int_range(0, ops.len() as int);
    lemma_len_subset(influencers_of(deps, roots), set_int_range(0, ops.len() as int));
}

/// The roots a graph compiles towards are recorded operations.
pub proof fn lemma_effective_roots_in_range(ops: Seq<Operation>, targets: Seq<usize>)
    requires
        ops.len() > 0,
        forall|i: int| 0 <= i < targets.len() ==> targets[i] < ops.len(),
    ensures
        forall|t: int| effective_roots(targets).contains(t) ==> 0 <= t < ops.len(),
{
}

/// Culling: compiling keeps exactly the operations that influence some
/// root (through a chain of writes read by the next operation), each once,
/// and drops every other operation.
pub proof fn law_compile_keeps_exactly_influencers(ops: Seq<Operation>, roots: Set<int>)
    requires
        forall|t: int| roots.contains(t) ==> 0 <= t < ops.len(),
        compiled(ops, roots) is Some,
    ensures
        schedule(dependencies(ops), roots)->0.no_duplicates(),
        schedule(dependencies(ops), roots)->0.to_set() == influencers_of(dependencies(ops), roots),
        compiled(ops, roots)->0 == schedule(dependencies(ops), roots)->0.map_values(|i: int| ops[i]),
{
    lemma_influencers_in_range(ops, roots);
    lemma_linearize_permutation(influencers_of(dependencies(ops), roots), dependencies(ops));
}

/// Ordering: in a compiled list every operation comes after each operation
/// that writes a resource it reads.
pub proof fn law_compile_respects_dependencies(ops: Seq<Operation>, roots: Set<int>)
    requires
        forall|t: int| roots.contains(t) ==> 0 <= t < ops.len(),
        compiled(ops, roots) is Some,
    ensures
        forall|i: int, j: int|
            0 <= i < compiled(ops, roots)->0.len() && 0 <= j < compiled(ops, roots)->0.len()
                && #[trigger] compiled(ops, roots)->0[i].feeds(#[trigger] compiled(ops, roots)->0[j]) ==> i < j,
{
    let deps = dependencies(ops);
    let c = influencers_of(deps, roots);
    lemma_influencers_in_range(ops, roots);
    lemma_linearize_permutation(c, deps);
    lemma_linearize_topological(c, deps);
    let s = schedule(deps, roots)->0;
    let out = compiled(ops, roots)->0;
    assert forall|i: int, j: int|
        0 <= i < out.len() && 0 <= j < out.len() && #[trigger] out[i].feeds(#[trigger] out[j]) implies i < j by {
        assert(s.to_set().contains(s[i]) && s.to_set().contains(s[j]));
        assert(c.contains(s[i]) && c.contains(s[j]));
        assert(set_int_range(0, ops.len() as int).contains(s[i]));
        assert(set_int_range(0, ops.len() as int).contains(s[j]));
        assert(out[i] == ops[s[i]] && out[j] == ops[s[j]]);
        assert(deps.contains((s[i], s[j])));
    }
}

/// No target is culled: every root is in a compiled list, after every other
/// operation that influences it.
pub proof fn law_compile_keeps_every_target(ops: Seq<Operation>, roots: Set<int>)
    requires
        forall|t: int| roots.contains(t) ==> 0 <= t < ops.len(),
        compiled(ops, roots) is Some,
    ensures
        forall|t: int| #[trigger] roots.contains(t) ==> {
            let s = schedule(dependencies(ops), roots)->0;
            &&& s.contains(t)
            &&& 0 <= position(s, t) < s.len()
            &&& compiled(ops, roots)->0[position(s, t)] == ops[t]
        },
        forall|t: int, x: int|
            roots.contains(t) && #[trigger] influences(dependencies(ops), x, t) && x != t ==> {
                let s = schedule(dependencies(ops), roots)->0;
                &&& s.contains(x)
                &&& 0 <= position(s, x) < position(s, t) < s.len()
                &&& compiled(ops, roots)->0[position(s, x)] == ops[x]
            },
{
    let deps = dependencies(ops);
    let s = schedule(deps, roots)->0;
    lemma_influencers_in_range(ops, roots);
    lemma_schedule_roots_after_influencers(deps, roots);
    assert forall|t: int| #[trigger] roots.contains(t) implies s.contains(t) && 0 <= position(s, t) < s.len()
        && compiled(ops, roots)->0[position(s, t)] == ops[t] by {
        assert(s.contains(t));
    }
    assert forall|t: int, x: int|
        roots.contains(t) && #[trigger] influences(deps, x, t) && x != t implies s.contains(x)
            && 0 <= position(s, x) < position(s, t) < s.len()
            && compiled(ops, roots)->0[position(s, x)] == ops[x] by {
        assert(s.contains(t));
        assert(s.contains(x));
    }
}

/// With a single target, the target operation is the last one of a
/// compiled list.
pub proof fn law_compile_single_target_last(ops: Seq<Operation>, t: int)
    requires
        0 <= t < ops.len(),
        compiled(ops, set![t]) is Some,
    ensures
        compiled(ops, set![t])->0.len() > 0,
        compiled(ops, set![t])->0.last() == ops[t],
{
    lemma_influencers_in_range(ops, set![t]);
    lemma_schedule_single_root_last(dependencies(ops), t);
}

/// Compiling fails exactly when the operations that influence some root
/// depend on each other in a cycle.
pub proof fn law_compile_fails_iff_cycle(ops: Seq<Operation>, roots: Set<int>)
    requires
        forall|t: int| roots.contains(t) ==> 0 <= t < ops.len(),
    ensures
        compiled(ops, roots) is None <==> has_cycle_within(
            dependencies(ops),
            influencers_of(dependencies(ops), roots),
        ),
{
    lemma_influencers_in_range(ops, roots);
    lemma_linearize_none_iff_cycle(influencers_of(dependencies(ops), roots), dependencies(ops));
}

/// Marks the operations listed in `roots` and stacks each of them once.
fn mark_roots(n: usize, roots: &Vec<usize>) -> (res: (Vec<bool>, Vec<usize>, usize))
    requires
        forall|i: int| 0 <= i < roots@.len() ==> roots@[i] < n,
    ensures
        res.0@.len() == n,
        res.2 == marked(res.0@).len(),
        forall|v: int| 0 <= v < n ==> (#[trigger] res.0@[v] <==> exists|i: int| 0 <= i < roots@.len() && roots@[i] as int == v),
        forall|i: int| 0 <= i < res.1@.len() ==> #[trigger] res.1@[i] < n && res.0@[res.1@[i] as int],
        forall|v: int| 0 <= v < n && #[trigger] res.0@[v] ==> res.1@.contains(v as usize),
        res.1@.no_duplicates(),
{
    let mut seen: Vec<bool> = Vec::new();
    let mut k: usize = 0;
    while k < n
        invariant
            k <= n,
            seen@.len() == k,
            forall|i: int| 0 <= i < k ==> !seen@[i],
        decreases n - k,
    {
        seen.push(false);
        k += 1;
    }
    proof {
        assert(marked(seen@) =~= Set::<int>::empty());
    }
    let mut count: usize = 0;
    let mut stack: Vec<usize> = Vec::new();
    let mut r: usize = 0;
    while r < roots.len()
        invariant
            forall|i: int| 0 <= i < roots@.len() ==> roots@[i] < n,
            r <= roots@.len(),
            seen@.len() == n,
            count == marked(seen@).len(),
            forall|v: int| 0 <= v < n ==> (#[trigger] seen@[v] <==> exists|i: int| 0 <= i < r && roots@[i] as int == v),
            forall|i: int| 0 <= i < stack@.len() ==> #[trigger] stack@[i] < n && seen@[stack@[i] as int],
            forall|v: int| 0 <= v < n && #[trigger] seen@[v] ==> stack@.contains(v as usize),
            stack@.no_duplicates(),
        decreases roots@.len() - r,
    {
        let t = roots[r];
        if !seen[t] {
            proof {
                lemma_marked_set(seen@, t as int);
                assert(!stack@.contains(t)) by {
                    if stack@.contains(t) {
                        let q = choose|q: int| 0 <= q < stack@.len() && stack@[q] == t;
                        assert(seen@[stack@[q] as int]);
                    }
                }
                lemma_push_contains(stack@, t);
            }
            let ghost s0 = stack@;
            seen.set(t, true);
            stack.push(t);
            count += 1;
            proof {
                assert forall|i: int| 0 <= i < stack@.len() implies #[trigger] stack@[i] < n && seen@[stack@[i] as int] by {
                    if i < s0.len() {
                        assert(stack@[i] == s0[i]);
                    }
                }
            }
        }
        proof {
            assert forall|v: int| 0 <= v < n implies (#[trigger] seen@[v] <==> exists|i: int| 0 <= i < r + 1 && roots@[i] as int == v) by {
                if seen@[v] && v != t {
                    let i = choose|i: int| 0 <= i < r && roots@[i] as int == v;
                    assert(0 <= i < r + 1);
                }
                if v == t {
                    assert(roots@[r as int] as int == v);
                }
            }
        }
        r += 1;
    }
    (seen, stack, count)
}

/// `node` writes one of the resources in `reads`.
fn writes_any_of(node: &Operation, reads: &Vec<ResourceId>) -> (res: bool)
    ensures
        res <==> exists|x: ResourceId| node.writes().contains(x) && reads@.contains(x),
{
    let writes = node.write_resources();
    let mut i: usize = 0;
    while i < writes.len()
        invariant
            writes@ == node.writes(),
            i <= writes@.len(),
            forall|k: int| 0 <= k < i ==> !reads@.contains(#[trigger] writes@[k]),
        decreases writes@.len() - i,
    {
        let mut j: usize = 0;
        while j < reads.len()
            invariant
                i < writes@.len(),
                writes@ == node.writes(),
                j <= reads@.len(),
                forall|k: int| 0 <= k < j ==> reads@[k] != writes@[i as int],
            decreases reads@.len() - j,
        {
            if reads[j] == writes[i] {
                assert(reads@.contains(writes@[i as int]));
                assert(node.writes().contains(writes@[i as int]));
                return true;
            }
            j += 1;
        }
        i += 1;
    }
    assert forall|x: ResourceId| !(node.writes().contains(x) && reads@.contains(x)) by {
        if node.writes().contains(x) {
            let k = choose|k: int| 0 <= k < writes@.len() && writes@[k] == x;
            assert(!reads@.contains(writes@[k]));
        }
    }
    false
}

/// Adding an operation adds no dependency between the earlier ones.
proof fn lemma_dependencies_grow(ops: Seq<Operation>, op: Operation, edges: Set<(int, int)>)
    requires
        edges.subset_of(dependencies(ops)),
    ensures
        edges.subset_of(dependencies(ops.push(op))),
{
    assert forall|p: (int, int)| edges.contains(p) implies dependencies(ops.push(op)).contains(p) by {
        assert(ops.push(op)[p.0] == ops[p.0] && ops.push(op)[p.1] == ops[p.1]);
    }
}

/// A dependency walk into a root runs along recorded edges only.
proof fn lemma_path_in_recorded(ops: Seq<Operation>, rs: Set<int>, p: Seq<int>, t: int, e: Set<(int, int)>)
    requires
        is_path(dependencies(ops), p),
        p.last() == t,
        rs.contains(t),
        recorded_edges(ops, rs).subset_of(e),
    ensures
        is_path(e, p),
{
    let deps = dependencies(ops);
    assert forall|i: int| 0 <= i < p.len() - 1 implies #[trigger] path_step(e, p, i) by {
        assert(path_step(deps, p, i));
        lemma_path_subrange(deps, p, i + 1, p.len() as int);
        let q = p.subrange(i + 1, p.len() as int);
        assert(q[0] == p[i + 1] && q.last() == t);
        assert(influences(deps, p[i + 1], t));
        assert(influencers_of(deps, rs).contains(p[i + 1]));
        assert(recorded_edges(ops, rs).contains((p[i], p[i + 1])));
    }
}

/// A walk along fewer edges is a walk along more.
proof fn lemma_influences_mono(e1: Set<(int, int)>, e2: Set<(int, int)>, v: int, t: int)
    requires
        e1.subset_of(e2),
        influences(e1, v, t),
    ensures
        influences(e2, v, t),
{
    let p = choose|p: Seq<int>| #[trigger] is_path(e1, p) && p[0] == v && p.last() == t;
    assert forall|i: int| 0 <= i < p.len() - 1 implies #[trigger] path_step(e2, p, i) by {
        assert(path_step(e1, p, i));
    }
    assert(is_path(e2, p));
}

} // verus!
