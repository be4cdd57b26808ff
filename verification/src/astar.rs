//! The search engine: open set, best-per-cell dominance pruning, parent-link
//! bookkeeping, trajectory reconstruction, and the two execution modes.

use std::collections::HashMap;
use vstd::prelude::*;

use crate::model::{Model, PathFindingErr, PathResult, Sampler, Trajectory};

verus! {

broadcast use vstd::std_specs::hash::group_hash_axioms;

/// Identity and cost bookkeeping of a search node.
///
/// `id` is a unique value drawn from a strictly monotonic counter; it alone
/// identifies the node and keys the parent-link table.  `f` (estimated total
/// cost, used to order the open set) and `g` (accumulated cost from the
/// start) play no part in identity.
#[derive(Clone, Copy)]
pub struct Id {
    /// Unique monotonic identity.
    pub id: usize,
    /// Estimated total cost: `g` plus the heuristic.
    pub f: u64,
    /// Accumulated cost from the start node.
    pub g: u64,
}

/// A search-tree vertex: identity plus the state reached and the control
/// that produced it from its parent.  Nodes are immutable once created; a
/// better path to the same cell is a new node, never a mutation.
pub struct Node<M: Model> {
    /// Identity and cost bookkeeping.
    pub id: Id,
    /// The state this node reached.
    pub state: M::State,
    /// The control that produced this state from the parent state.
    pub control: M::Control,
}

/// The parent-link table is acyclic: a parent's identity is always strictly
/// smaller than its child's, because identities are assigned from a strictly
/// increasing counter.
pub open spec fn parents_acyclic<M: Model>(m: Map<usize, Node<M>>) -> bool {
    forall|i: usize| #[trigger] m.contains_key(i) ==> m[i].id.id < i
}

/// The `(state, control)` path obtained by walking parent links from `n`
/// back to a parentless node, in chronological order (root first).
pub open spec fn chain<M: Model>(m: Map<usize, Node<M>>, n: Node<M>) -> Seq<(M::State, M::Control)>
    decreases n.id.id,
        when parents_acyclic(m)
{
    if m.contains_key(n.id.id) {
        chain(m, m[n.id.id]).push((n.state, n.control))
    } else {
        seq![(n.state, n.control)]
    }
}

/// Addition on costs, saturating at the numeric limit.
pub open spec fn sat_add_spec(a: u64, b: u64) -> u64 {
    if a + b > u64::MAX {
        u64::MAX
    } else {
        (a + b) as u64
    }
}

/// The total cost of the parent-link path from `n` back to its root,
/// recomputed edge by edge as `spec_cost(parent, child)` — the same
/// direction in which the search accumulates `g`.
pub open spec fn chain_cost<M: Model>(model: M, m: Map<usize, Node<M>>, n: Node<M>) -> u64
    decreases n.id.id,
        when parents_acyclic(m)
{
    if m.contains_key(n.id.id) {
        sat_add_spec(chain_cost(model, m, m[n.id.id]), model.spec_cost(m[n.id.id].state, n.state))
    } else {
        0
    }
}

/// The recomputed total cost of an output path: the saturating sum of
/// `spec_cost(previous, next)` over consecutive entries.
pub open spec fn path_cost<M: Model>(model: M, s: Seq<(M::State, M::Control)>) -> u64
    decreases s.len(),
{
    if s.len() <= 1 {
        0
    } else {
        sat_add_spec(path_cost(model, s.drop_last()), model.spec_cost(s[s.len() - 2].0, s.last().0))
    }
}

/// A node agrees with the parent-link table: if it has a parent, then its
/// own state is exactly what the model's transition produces from the
/// parent's state under the node's control.
pub open spec fn node_linked<M: Model>(model: M, m: Map<usize, Node<M>>, n: Node<M>) -> bool {
    m.contains_key(n.id.id) ==> model.spec_integrate(m[n.id.id].state, n.control) == Some(n.state)
}

/// Every node stored in the parent-link table agrees with the table.
pub open spec fn map_linked<M: Model>(model: M, m: Map<usize, Node<M>>) -> bool {
    forall|i: usize| #[trigger] m.contains_key(i) ==> node_linked(model, m, m[i])
}

/// Along a parent-link walk, every step after the first is a genuine model
/// transition: the control stored with an entry produces that entry's state
/// from the preceding entry's state.
pub open spec fn edges_valid<M: Model>(model: M, s: Seq<(M::State, M::Control)>) -> bool {
    forall|i: int|
        1 <= i < s.len() ==> model.spec_integrate(s[i - 1].0, #[trigger] s[i].1) == Some(s[i].0)
}

/// A walk from a node that agrees with a table whose nodes all agree with
/// it produces a path of genuine model transitions.
pub proof fn lemma_chain_edges_valid<M: Model>(model: M, m: Map<usize, Node<M>>, n: Node<M>)
    requires
        parents_acyclic(m),
        map_linked(model, m),
        node_linked(model, m, n),
    ensures
        edges_valid(model, chain(m, n)),
    decreases n.id.id,
{
    if m.contains_key(n.id.id) {
        let p = m[n.id.id];
        lemma_chain_edges_valid(model, m, p);
        lemma_chain_shape(m, p);
        let s = chain(m, n);
        assert forall|i: int|
            1 <= i < s.len() implies model.spec_integrate(s[i - 1].0, #[trigger] s[i].1) == Some(
            s[i].0,
        ) by {
            if i < s.len() - 1 {
                assert(chain(m, p)[i] == s[i] && chain(m, p)[i - 1] == s[i - 1]);
            } else {
                assert(s[i - 1] == (p.state, p.control));
            }
        }
    }
}

/// Removing an open-set entry disturbs no remaining entry's agreement with
/// the parent-link table or with the best-per-cell map, nor the table's
/// own.
pub proof fn lemma_linked_after_remove<M: Model>(
    model: M,
    pre: AStar<M>,
    post: AStar<M>,
    j: int,
)
    requires
        pre.linked(model),
        pre.cells_tracked(model),
        0 <= j < pre.queue@.len(),
        post.parent_map@ == pre.parent_map@,
        post.grid@ == pre.grid@,
        post.queue@ == pre.queue@.remove(j),
    ensures
        post.linked(model),
        post.cells_tracked(model),
{
    assert forall|i: int| 0 <= i < post.queue@.len() implies node_linked(
        model,
        post.parent_map@,
        #[trigger] post.queue@[i],
    ) by {
        if i < j {
            assert(post.queue@[i] == pre.queue@[i]);
        } else {
            assert(post.queue@[i] == pre.queue@[i + 1]);
        }
    }
    assert forall|i: int| 0 <= i < post.queue@.len() implies {
        let n = #[trigger] post.queue@[i];
        post.parent_map@.contains_key(n.id.id) ==> post.grid@.contains_key(model.spec_key(n.state))
            && post.grid@[model.spec_key(n.state)].g <= n.id.g
    } by {
        if i < j {
            assert(post.queue@[i] == pre.queue@[i]);
        } else {
            assert(post.queue@[i] == pre.queue@[i + 1]);
        }
    }
}

/// The best-per-cell map after the dominance check on one candidate: a
/// candidate that does not strictly improve the recorded arrival cost for
/// its cell is discarded; otherwise it becomes the cell's new best entry.
pub open spec fn grid_after(grid: Map<u64, Id>, key: u64, cand: Id) -> Map<u64, Id> {
    if grid.contains_key(key) && grid[key].g <= cand.g {
        grid
    } else {
        grid.insert(key, cand)
    }
}

/// Dominance correctness: whatever order two arrivals at the same cell are
/// processed in, the retained entry's accumulated cost is at most either
/// arrival's cost, and a strictly cheaper later arrival at a fresh cell
/// supersedes the earlier one.
pub proof fn lemma_dominance(grid: Map<u64, Id>, key: u64, a: Id, b: Id)
    ensures
        ({
            let g1 = grid_after(grid, key, a);
            let g2 = grid_after(g1, key, b);
            &&& g2.contains_key(key)
            &&& g2[key].g <= a.g
            &&& g2[key].g <= b.g
            &&& (!grid.contains_key(key) && b.g < a.g ==> g2[key] == b)
        }),
{
}

/// Saturating addition is commutative and associative.
pub proof fn lemma_sat_add_algebra(a: u64, b: u64, c: u64)
    ensures
        sat_add_spec(a, b) == sat_add_spec(b, a),
        sat_add_spec(sat_add_spec(a, b), c) == sat_add_spec(a, sat_add_spec(b, c)),
{
}

/// A parent-link walk always produces at least the node's own entry, and
/// ends (chronologically) with exactly that entry.
pub proof fn lemma_chain_shape<M: Model>(m: Map<usize, Node<M>>, n: Node<M>)
    requires
        parents_acyclic(m),
    ensures
        chain(m, n).len() >= 1,
        chain(m, n).last() == (n.state, n.control),
{
}

/// Inserting a parent link under a key larger than every key in the table
/// and larger than `n`'s identity leaves `n`'s walk, and its recomputed
/// cost, unchanged; acyclicity is preserved.
pub proof fn lemma_chain_insert_fresh<M: Model>(
    model: M,
    m: Map<usize, Node<M>>,
    c: usize,
    v: Node<M>,
    n: Node<M>,
)
    requires
        parents_acyclic(m),
        v.id.id < c,
        n.id.id < c,
        forall|i: usize| #[trigger] m.contains_key(i) ==> i < c,
    ensures
        parents_acyclic(m.insert(c, v)),
        chain(m.insert(c, v), n) == chain(m, n),
        chain_cost(model, m.insert(c, v), n) == chain_cost(model, m, n),
    decreases n.id.id,
{
    let m2 = m.insert(c, v);
    assert(parents_acyclic(m2)) by {
        assert forall|i: usize| #[trigger] m2.contains_key(i) implies m2[i].id.id < i by {
            if i != c {
                assert(m.contains_key(i));
            }
        }
    }
    if m.contains_key(n.id.id) {
        lemma_chain_insert_fresh(model, m, c, v, m[n.id.id]);
    }
}

/// The recomputed cost of a parent-link walk equals the recomputed cost of
/// the path it produces.
pub proof fn lemma_chain_cost_is_path_cost<M: Model>(model: M, m: Map<usize, Node<M>>, n: Node<M>)
    requires
        parents_acyclic(m),
    ensures
        path_cost(model, chain(m, n)) == chain_cost(model, m, n),
    decreases n.id.id,
{
    if m.contains_key(n.id.id) {
        let p = m[n.id.id];
        lemma_chain_cost_is_path_cost(model, m, p);
        lemma_chain_shape(m, p);
        let s = chain(m, n);
        assert(s.drop_last() =~= chain(m, p));
        assert(s[s.len() - 2] == chain(m, p).last());
    }
}

/// Addition on costs, saturating at the numeric limit.
pub fn sat_add(a: u64, b: u64) -> (r: u64)
    ensures
        r == sat_add_spec(a, b),
{
    if u64::MAX - b < a {
        u64::MAX
    } else {
        a + b
    }
}

/// Duplicate a node through the model's clone operations.
fn clone_node<M: Model>(model: &M, n: &Node<M>) -> (r: Node<M>)
    ensures
        r == *n,
{
    Node { id: n.id, state: model.clone_state(&n.state), control: model.clone_control(&n.control) }
}

/// The search engine: the open set, the best-cost-per-cell map, the
/// parent-link table, and the monotonic identity counter.
pub struct AStar<M: Model> {
    /// The open set: discovered-but-unexpanded nodes.  Ordering is by
    /// ascending `f`, realized at pop time; ties are broken arbitrarily.
    pub queue: Vec<Node<M>>,
    /// Parent links, keyed by a node's identity; populated only for nodes
    /// that won their dominance check.  The start node has no entry.
    pub parent_map: HashMap<usize, Node<M>>,
    /// Best-per-cell map: discretization key to the identity (and costs) of
    /// the currently-best known arrival for that cell.
    pub grid: HashMap<u64, Id>,
    /// All discretization keys discovered so far, in first-arrival order.
    pub discovered: Vec<u64>,
    /// The strictly monotonic identity counter.
    pub id_counter: usize,
}

impl<M: Model> AStar<M> {
    /// Every identity stored anywhere in the engine is below `b`.
    pub open spec fn ids_below(self, b: int) -> bool {
        &&& forall|i: usize| #[trigger] self.parent_map@.contains_key(i) ==> i < b
        &&& forall|j: int| 0 <= j < self.queue@.len() ==> #[trigger] self.queue@[j].id.id < b
        &&& forall|k: u64| #[trigger] self.grid@.contains_key(k) ==> self.grid@[k].id < b
    }

    /// Well-formedness: parent links are acyclic, every stored identity has
    /// been drawn from the counter, and the discovered-key list holds
    /// exactly the keys of the best-per-cell map.
    pub open spec fn wf(self) -> bool {
        &&& parents_acyclic(self.parent_map@)
        &&& self.ids_below(self.id_counter + 1)
        &&& forall|k: u64| #[trigger] self.grid@.contains_key(k) ==> self.discovered@.contains(k)
        &&& forall|k: u64| #[trigger] self.discovered@.contains(k) ==> self.grid@.contains_key(k)
        &&& forall|j1: int, j2: int|
            #![trigger self.discovered@[j1], self.discovered@[j2]]
            0 <= j1 < j2 < self.discovered@.len() ==> self.discovered@[j1]
                != self.discovered@[j2]
    }

    /// The engine's stored nodes were all built against `model`'s
    /// transition relation: every parent link and every open-set entry
    /// records a state that the model really produces from its parent's
    /// state under the recorded control.
    pub open spec fn linked(self, model: M) -> bool {
        &&& map_linked(model, self.parent_map@)
        &&& forall|j: int|
            0 <= j < self.queue@.len() ==> node_linked(
                model,
                self.parent_map@,
                #[trigger] self.queue@[j],
            )
    }

    /// Every open-set entry that won a dominance check (equivalently: that
    /// has a parent link) is tracked by the best-per-cell map: its cell has
    /// an entry whose recorded arrival cost is at most the entry's own `g`.
    /// The seeded start node has no parent link and no cell entry.
    pub open spec fn cells_tracked(self, model: M) -> bool {
        forall|j: int|
            0 <= j < self.queue@.len() ==> {
                let n = #[trigger] self.queue@[j];
                self.parent_map@.contains_key(n.id.id) ==> self.grid@.contains_key(
                    model.spec_key(n.state),
                ) && self.grid@[model.spec_key(n.state)].g <= n.id.g
            }
    }

    /// The internal collections hold nothing: the engine is ready for a
    /// fresh, unrelated planning problem.
    pub open spec fn is_reset(self) -> bool {
        &&& self.queue@.len() == 0
        &&& forall|i: usize| !(#[trigger] self.parent_map@.contains_key(i))
        &&& forall|k: u64| !(#[trigger] self.grid@.contains_key(k))
        &&& self.discovered@.len() == 0
    }

    /// Create a new, empty engine.
    pub fn new() -> (r: AStar<M>)
        ensures
            r.wf(),
            r.is_reset(),
            r.id_counter == 0,
    {
        AStar {
            queue: Vec::new(),
            parent_map: HashMap::new(),
            grid: HashMap::new(),
            discovered: Vec::new(),
            id_counter: 0,
        }
    }

    /// Clear the open set, the best-per-cell map and the parent-link table,
    /// so the engine can be reused for an unrelated problem.  The identity
    /// counter is not rewound: identities stay unique across the engine's
    /// whole lifetime.
    pub fn clear(&mut self)
        ensures
            final(self).wf(),
            final(self).is_reset(),
            final(self).id_counter == old(self).id_counter,
    {
        self.queue.clear();
        self.parent_map.clear();
        self.grid.clear();
        self.discovered.clear();
    }

    /// The dominance check and conditional enqueue for one freshly built
    /// candidate node.  A candidate that does not strictly improve the
    /// recorded arrival cost for its cell is discarded without any side
    /// effect; otherwise it becomes the cell's best entry, its parent link
    /// is recorded, and it joins the open set.
    fn record_child(&mut self, model: &M, parent: &Node<M>, child: Node<M>, key: u64)
        requires
            old(self).wf(),
            old(self).ids_below(child.id.id as int),
            parent.id.id < child.id.id,
            child.id.id <= old(self).id_counter,
            old(self).linked(*model),
            node_linked(*model, old(self).parent_map@, *parent),
            model.spec_integrate(parent.state, child.control) == Some(child.state),
        ensures
            final(self).wf(),
            final(self).linked(*model),
            node_linked(*model, final(self).parent_map@, *parent),
            final(self).id_counter == old(self).id_counter,
            final(self).grid@ == grid_after(old(self).grid@, key, child.id),
            ({
                let dominated = old(self).grid@.contains_key(key) && old(self).grid@[key].g
                    <= child.id.g;
                if dominated {
                    *final(self) == *old(self)
                } else {
                    &&& final(self).parent_map@ == old(self).parent_map@.insert(
                        child.id.id,
                        *parent,
                    )
                    &&& final(self).queue@ == old(self).queue@.push(child)
                    &&& final(self).discovered@ == if old(self).grid@.contains_key(key) {
                        old(self).discovered@
                    } else {
                        old(self).discovered@.push(key)
                    }
                }
            }),
    {
        let dominated = match self.grid.get(&key) {
            Some(best) => best.g <= child.id.g,
            None => false,
        };
        if dominated {
            return ;
        }
        if !self.grid.contains_key(&key) {
            self.discovered.push(key);
        }
        self.grid.insert(key, child.id);
        let parent_copy = clone_node(model, parent);
        self.parent_map.insert(child.id.id, parent_copy);
        self.queue.push(child);
        proof {
            assert forall|i: usize| #[trigger]
                self.parent_map@.contains_key(i) implies self.parent_map@[i].id.id < i by {
                if i != child.id.id {
                    assert(old(self).parent_map@.contains_key(i));
                }
            }
            assert forall|i: usize| #[trigger]
                self.parent_map@.contains_key(i) implies node_linked(
                *model,
                self.parent_map@,
                self.parent_map@[i],
            ) by {
                if i == child.id.id {
                    assert(self.parent_map@[i] == *parent);
                } else {
                    assert(old(self).parent_map@.contains_key(i));
                    let v = old(self).parent_map@[i];
                    assert(node_linked(*model, old(self).parent_map@, v));
                    assert(v.id.id < i < child.id.id);
                }
            }
            assert forall|j: int| 0 <= j < self.queue@.len() implies node_linked(
                *model,
                self.parent_map@,
                #[trigger] self.queue@[j],
            ) by {
                if j < old(self).queue@.len() {
                    let n = old(self).queue@[j];
                    assert(node_linked(*model, old(self).parent_map@, n));
                    assert(n.id.id < child.id.id);
                } else {
                    assert(self.queue@[j] == child);
                    assert(self.parent_map@[child.id.id] == *parent);
                }
            }
            assert forall|k2: u64| #[trigger]
                self.discovered@.contains(k2) implies self.grid@.contains_key(k2) by {
                if k2 != key {
                    assert(old(self).discovered@.contains(k2));
                }
            }
            assert forall|j1: int, j2: int|
                #![trigger self.discovered@[j1], self.discovered@[j2]]
                0 <= j1 < j2 < self.discovered@.len() implies self.discovered@[j1]
                != self.discovered@[j2] by {
                if !old(self).grid@.contains_key(key) && j2 == self.discovered@.len() - 1 {
                    if self.discovered@[j1] == key {
                        assert(old(self).discovered@[j1] == key);
                        assert(old(self).discovered@.contains(key));
                    }
                } else {
                    assert(self.discovered@[j1] == old(self).discovered@[j1]);
                    assert(self.discovered@[j2] == old(self).discovered@[j2]);
                }
            }
            assert forall|k2: u64| #[trigger]
                self.grid@.contains_key(k2) implies self.discovered@.contains(k2) by {
                if k2 == key {
                    if old(self).grid@.contains_key(key) {
                        assert(old(self).discovered@.contains(key));
                        let j = choose|j: int|
                            0 <= j < old(self).discovered@.len() && old(self).discovered@[j]
                                == key;
                        assert(self.discovered@[j] == key);
                    } else {
                        assert(self.discovered@.last() == key);
                    }
                } else {
                    assert(old(self).discovered@.contains(k2));
                    let j = choose|j: int|
                        0 <= j < old(self).discovered@.len() && old(self).discovered@[j] == k2;
                    assert(self.discovered@[j] == k2);
                }
            }
        }
    }

    /// One expansion of a popped node `current`: report convergence, or ask
    /// the sampler for candidate controls and, for each applicable one,
    /// build the child node, run the dominance check, and conditionally
    /// enqueue it.
    ///
    /// When `false` is returned, the open set has kept every earlier entry
    /// and gained only genuine children of `current`: each one's state is
    /// what the model's transition produces from `current`'s state under its
    /// control, its `g` is `current`'s `g` plus the edge cost and its `f` is
    /// that plus the heuristic, its identity is fresh and distinct from
    /// every other new entry's, its parent link points at `current`, and its
    /// cell's best-per-cell entry costs no more than it does.  Every
    /// pre-existing node's walk is untouched, a cell's entry changes only
    /// for a strictly cheaper arrival that was itself enqueued, and a model
    /// that rejects every control from `current`'s state leaves the engine
    /// untouched.
    pub fn step<S: Sampler<M>>(
        &mut self,
        current: &Node<M>,
        model: &M,
        goal: &M::State,
        sampler: &mut S,
    ) -> (r: bool)
        requires
            old(self).wf(),
            current.id.id <= old(self).id_counter,
            old(self).linked(*model),
            old(self).cells_tracked(*model),
            node_linked(*model, old(self).parent_map@, *current),
        ensures
            final(self).wf(),
            final(self).linked(*model),
            final(self).cells_tracked(*model),
            r == model.spec_converge(current.state, *goal),
            r ==> *final(self) == *old(self),
            final(self).id_counter >= old(self).id_counter,
            old(self).queue@.len() <= final(self).queue@.len(),
            forall|j: int|
                0 <= j < old(self).queue@.len() ==> final(self).queue@[j] == old(self).queue@[j],
            forall|j: int|
                old(self).queue@.len() <= j < final(self).queue@.len() ==> {
                    let n = #[trigger] final(self).queue@[j];
                    &&& old(self).id_counter < n.id.id <= final(self).id_counter
                    &&& chain(final(self).parent_map@, n) == chain(
                        final(self).parent_map@,
                        *current,
                    ).push((n.state, n.control))
                    &&& model.spec_integrate(current.state, n.control) == Some(n.state)
                    &&& n.id.g == sat_add_spec(
                        current.id.g,
                        model.spec_cost(current.state, n.state),
                    )
                    &&& n.id.f == sat_add_spec(n.id.g, model.spec_heuristic(n.state, *goal))
                    &&& final(self).parent_map@.contains_key(n.id.id)
                    &&& final(self).parent_map@[n.id.id] == *current
                    &&& final(self).grid@.contains_key(model.spec_key(n.state))
                    &&& final(self).grid@[model.spec_key(n.state)].g <= n.id.g
                },
            forall|j1: int, j2: int|
                #![trigger final(self).queue@[j1], final(self).queue@[j2]]
                old(self).queue@.len() <= j1 < j2 < final(self).queue@.len()
                    ==> final(self).queue@[j1].id.id < final(self).queue@[j2].id.id,
            forall|k: u64| #[trigger]
                final(self).grid@.contains_key(k) && !(old(self).grid@.contains_key(k)
                    && final(self).grid@[k] == old(self).grid@[k]) ==> exists|j: int|
                    old(self).queue@.len() <= j < final(self).queue@.len()
                        && final(self).queue@[j].id == final(self).grid@[k] && model.spec_key(
                        final(self).queue@[j].state,
                    ) == k,
            (forall|c: M::Control|
                (#[trigger] model.spec_integrate(current.state, c)) is None) ==> *final(self)
                == *old(self),
            forall|i: usize| #[trigger]
                old(self).parent_map@.contains_key(i) ==> final(self).parent_map@.contains_key(i)
                    && final(self).parent_map@[i] == old(self).parent_map@[i],
            forall|i: usize| #[trigger]
                final(self).parent_map@.contains_key(i) ==> old(self).parent_map@.contains_key(i)
                    || i > old(self).id_counter,
            forall|n: Node<M>|
                n.id.id <= old(self).id_counter ==> #[trigger] chain(final(self).parent_map@, n)
                    == chain(old(self).parent_map@, n),
            forall|n: Node<M>|
                n.id.id <= old(self).id_counter ==> #[trigger] chain_cost(
                    *model,
                    final(self).parent_map@,
                    n,
                ) == chain_cost(*model, old(self).parent_map@, n),
            forall|k: u64| #[trigger]
                old(self).grid@.contains_key(k) ==> final(self).grid@.contains_key(k)
                    && final(self).grid@[k].g <= old(self).grid@[k].g && (final(self).grid@[k]
                    != old(self).grid@[k] ==> final(self).grid@[k].g < old(self).grid@[k].g),
    {
        if model.converge(&current.state, goal) {
            return true;
        }
        let controls = sampler.sample(model, &current.state);
        let mut idx: usize = 0;
        while idx < controls.len()
            invariant
                self.wf(),
                self.linked(*model),
                node_linked(*model, self.parent_map@, *current),
                current.id.id <= old(self).id_counter,
                self.id_counter >= old(self).id_counter,
                old(self).queue@.len() <= self.queue@.len(),
                forall|j: int|
                    0 <= j < old(self).queue@.len() ==> self.queue@[j] == old(self).queue@[j],
                forall|j: int|
                    old(self).queue@.len() <= j < self.queue@.len() ==> {
                        let n = #[trigger] self.queue@[j];
                        &&& old(self).id_counter < n.id.id <= self.id_counter
                        &&& chain(self.parent_map@, n) == chain(self.parent_map@, *current).push(
                            (n.state, n.control),
                        )
                        &&& model.spec_integrate(current.state, n.control) == Some(n.state)
                        &&& n.id.g == sat_add_spec(
                            current.id.g,
                            model.spec_cost(current.state, n.state),
                        )
                        &&& n.id.f == sat_add_spec(n.id.g, model.spec_heuristic(n.state, *goal))
                        &&& self.parent_map@.contains_key(n.id.id)
                        &&& self.parent_map@[n.id.id] == *current
                        &&& self.grid@.contains_key(model.spec_key(n.state))
                        &&& self.grid@[model.spec_key(n.state)].g <= n.id.g
                    },
                forall|j1: int, j2: int|
                    #![trigger self.queue@[j1], self.queue@[j2]]
                    old(self).queue@.len() <= j1 < j2 < self.queue@.len() ==> self.queue@[j1].id.id
                        < self.queue@[j2].id.id,
                forall|k: u64| #[trigger]
                    self.grid@.contains_key(k) && !(old(self).grid@.contains_key(k)
                        && self.grid@[k] == old(self).grid@[k]) ==> exists|j: int|
                        old(self).queue@.len() <= j < self.queue@.len() && self.queue@[j].id
                            == self.grid@[k] && model.spec_key(self.queue@[j].state) == k,
                (forall|c: M::Control|
                    (#[trigger] model.spec_integrate(current.state, c)) is None) ==> *self == *old(
                    self,
                ),
                forall|i: usize| #[trigger]
                    old(self).parent_map@.contains_key(i) ==> self.parent_map@.contains_key(i)
                        && self.parent_map@[i] == old(self).parent_map@[i],
                forall|i: usize| #[trigger]
                    self.parent_map@.contains_key(i) ==> old(self).parent_map@.contains_key(i)
                        || i > old(self).id_counter,
                forall|n: Node<M>|
                    n.id.id <= old(self).id_counter ==> #[trigger] chain(self.parent_map@, n)
                        == chain(old(self).parent_map@, n),
                forall|n: Node<M>|
                    n.id.id <= old(self).id_counter ==> #[trigger] chain_cost(
                        *model,
                        self.parent_map@,
                        n,
                    ) == chain_cost(*model, old(self).parent_map@, n),
                forall|k: u64| #[trigger]
                    old(self).grid@.contains_key(k) ==> self.grid@.contains_key(k)
                        && self.grid@[k].g <= old(self).grid@[k].g && (self.grid@[k] != old(
                        self,
                    ).grid@[k] ==> self.grid@[k].g < old(self).grid@[k].g),
            decreases controls@.len() - idx,
        {
            let ghost entry = *self;
            let control = &controls[idx];
            if let Some(child_state) = model.integrate(&current.state, control) {
                if self.id_counter < usize::MAX {
                    self.id_counter = self.id_counter + 1;
                    let g2 = sat_add(current.id.g, model.cost(&current.state, &child_state));
                    let f2 = sat_add(g2, model.heuristic(&child_state, goal));
                    let key = model.grid_position(&child_state);
                    let child = Node {
                        id: Id { id: self.id_counter, g: g2, f: f2 },
                        state: child_state,
                        control: model.clone_control(control),
                    };
                    let ghost child_g = child;
                    self.record_child(model, current, child, key);
                    proof {
                        let c = child_g.id.id;
                        let dominated = entry.grid@.contains_key(key) && entry.grid@[key].g
                            <= child_g.id.g;
                        // Whether or not an enqueue happened, the walk of
                        // every node with a pre-existing identity is
                        // untouched: a new parent link only ever appears
                        // under the fresh identity `c`.
                        assert forall|n: Node<M>| n.id.id < c implies #[trigger]
                            chain(self.parent_map@, n) == chain(entry.parent_map@, n) by {
                            if dominated {
                                assert(self.parent_map@ == entry.parent_map@);
                            } else {
                                assert(self.parent_map@ == entry.parent_map@.insert(c, *current));
                                lemma_chain_insert_fresh(
                                    *model,
                                    entry.parent_map@,
                                    c,
                                    *current,
                                    n,
                                );
                            }
                        }
                        assert forall|n: Node<M>| n.id.id < c implies #[trigger]
                            chain_cost(*model, self.parent_map@, n) == chain_cost(
                            *model,
                            entry.parent_map@,
                            n,
                        ) by {
                            if dominated {
                                assert(self.parent_map@ == entry.parent_map@);
                            } else {
                                assert(self.parent_map@ == entry.parent_map@.insert(c, *current));
                                lemma_chain_insert_fresh(
                                    *model,
                                    entry.parent_map@,
                                    c,
                                    *current,
                                    n,
                                );
                            }
                        }
                        if !dominated {
                            assert(chain(self.parent_map@, child_g) == chain(
                                self.parent_map@,
                                *current,
                            ).push((child_g.state, child_g.control)));
                            assert(self.parent_map@.contains_key(current.id.id)
                                == entry.parent_map@.contains_key(current.id.id));
                        }
                        assert(node_linked(*model, self.parent_map@, *current));
                        // Entries pushed by earlier candidates keep their
                        // walk-extension and bookkeeping properties under
                        // the grown table and the updated cell map.
                        assert forall|j: int|
                            old(self).queue@.len() <= j < self.queue@.len() implies {
                            let n = #[trigger] self.queue@[j];
                            &&& old(self).id_counter < n.id.id <= self.id_counter
                            &&& chain(self.parent_map@, n) == chain(
                                self.parent_map@,
                                *current,
                            ).push((n.state, n.control))
                            &&& model.spec_integrate(current.state, n.control) == Some(n.state)
                            &&& n.id.g == sat_add_spec(
                                current.id.g,
                                model.spec_cost(current.state, n.state),
                            )
                            &&& n.id.f == sat_add_spec(
                                n.id.g,
                                model.spec_heuristic(n.state, *goal),
                            )
                            &&& self.parent_map@.contains_key(n.id.id)
                            &&& self.parent_map@[n.id.id] == *current
                            &&& self.grid@.contains_key(model.spec_key(n.state))
                            &&& self.grid@[model.spec_key(n.state)].g <= n.id.g
                        } by {
                            let n = self.queue@[j];
                            if j < entry.queue@.len() {
                                assert(n == entry.queue@[j]);
                                assert(chain(entry.parent_map@, n) == chain(
                                    entry.parent_map@,
                                    *current,
                                ).push((n.state, n.control)));
                                assert(n.id.id < c);
                                assert(current.id.id < c);
                                assert(entry.grid@.contains_key(model.spec_key(n.state))
                                    && entry.grid@[model.spec_key(n.state)].g <= n.id.g);
                                assert(self.grid@ == grid_after(entry.grid@, key, child_g.id));
                            } else {
                                assert(n == child_g);
                                assert(key == model.spec_key(child_g.state));
                            }
                        }
                        assert forall|k2: u64| #[trigger]
                            self.grid@.contains_key(k2) && !(old(self).grid@.contains_key(k2)
                            && self.grid@[k2] == old(self).grid@[k2]) implies exists|j: int|
                            old(self).queue@.len() <= j < self.queue@.len() && self.queue@[j].id
                                == self.grid@[k2] && model.spec_key(self.queue@[j].state)
                                == k2 by {
                            if entry.grid@.contains_key(k2) && self.grid@[k2] == entry.grid@[k2] {
                                assert(entry.grid@.contains_key(k2) && !(old(
                                    self,
                                ).grid@.contains_key(k2) && entry.grid@[k2] == old(
                                    self,
                                ).grid@[k2]));
                                let j = choose|j: int|
                                    old(self).queue@.len() <= j < entry.queue@.len()
                                        && entry.queue@[j].id == entry.grid@[k2]
                                        && model.spec_key(entry.queue@[j].state) == k2;
                                assert(self.queue@[j] == entry.queue@[j]);
                            } else {
                                assert(k2 == key && !dominated);
                                assert(self.grid@[k2] == child_g.id);
                                let j = entry.queue@.len() as int;
                                assert(self.queue@[j] == child_g);
                                assert(key == model.spec_key(child_g.state));
                            }
                        }
                    }
                }
            }
            proof {
                assert forall|n: Node<M>| n.id.id <= old(self).id_counter implies #[trigger]
                    chain(self.parent_map@, n) == chain(old(self).parent_map@, n) by {
                    assert(chain(entry.parent_map@, n) == chain(old(self).parent_map@, n));
                }
                assert forall|n: Node<M>| n.id.id <= old(self).id_counter implies #[trigger]
                    chain_cost(*model, self.parent_map@, n) == chain_cost(
                    *model,
                    old(self).parent_map@,
                    n,
                ) by {
                    assert(chain_cost(*model, entry.parent_map@, n) == chain_cost(
                        *model,
                        old(self).parent_map@,
                        n,
                    ));
                }
            }
            idx = idx + 1;
        }
        proof {
            assert forall|j: int| 0 <= j < self.queue@.len() implies {
                let n = #[trigger] self.queue@[j];
                self.parent_map@.contains_key(n.id.id) ==> self.grid@.contains_key(
                    model.spec_key(n.state),
                ) && self.grid@[model.spec_key(n.state)].g <= n.id.g
            } by {
                let n = self.queue@[j];
                if j < old(self).queue@.len() {
                    assert(n == old(self).queue@[j]);
                    if self.parent_map@.contains_key(n.id.id) {
                        assert(old(self).parent_map@.contains_key(n.id.id));
                        assert(old(self).grid@.contains_key(model.spec_key(n.state))
                            && old(self).grid@[model.spec_key(n.state)].g <= n.id.g);
                    }
                }
            }
        }
        false
    }

    /// Remove and return an open-set entry with the lowest estimated total
    /// cost `f`, or `None` when the open set is empty.  Ties are broken
    /// arbitrarily.  The other collections are untouched.
    fn pop_min(&mut self) -> (r: Option<Node<M>>)
        requires
            old(self).wf(),
        ensures
            final(self).wf(),
            final(self).parent_map@ == old(self).parent_map@,
            final(self).grid@ == old(self).grid@,
            final(self).discovered@ == old(self).discovered@,
            final(self).id_counter == old(self).id_counter,
            match r {
                Some(n) => {
                    &&& exists|j: int|
                        0 <= j < old(self).queue@.len() && old(self).queue@[j] == n
                            && final(self).queue@ == old(self).queue@.remove(j)
                    &&& forall|j: int|
                        0 <= j < old(self).queue@.len() ==> n.id.f
                            <= #[trigger] old(self).queue@[j].id.f
                },
                None => old(self).queue@.len() == 0 && *final(self) == *old(self),
            },
    {
        if self.queue.len() == 0 {
            return None;
        }
        let mut best: usize = 0;
        let mut i: usize = 1;
        while i < self.queue.len()
            invariant
                best < i <= self.queue@.len(),
                self.queue@.len() > 0,
                forall|j: int|
                    0 <= j < i ==> self.queue@[best as int].id.f <= #[trigger] self.queue@[j].id.f,
            decreases self.queue@.len() - i,
        {
            if self.queue[i].id.f < self.queue[best].id.f {
                best = i;
            }
            i = i + 1;
        }
        let n = self.queue.remove(best);
        proof {
            assert(final(self).queue@ == old(self).queue@.remove(best as int));
            assert forall|j: int| 0 <= j < final(self).queue@.len() implies #[trigger]
                final(self).queue@[j].id.id < final(self).id_counter + 1 by {
                if j < best {
                    assert(final(self).queue@[j] == old(self).queue@[j]);
                } else {
                    assert(final(self).queue@[j] == old(self).queue@[j + 1]);
                }
            }
        }
        Some(n)
    }

    /// Follow the parent links from `current` back up to the start node and
    /// return the walked path in chronological order, with the total cost
    /// recomputed edge by edge from the model.
    pub fn unwind_trajectory(&self, model: &M, current: Node<M>) -> (t: Trajectory<M>)
        requires
            self.wf(),
        ensures
            t.trajectory@ == chain(self.parent_map@, current),
            t.cost == chain_cost(*model, self.parent_map@, current),
            t.cost == path_cost(*model, t.trajectory@),
    {
        let mut result: Vec<(M::State, M::Control)> = Vec::new();
        result.push((model.clone_state(&current.state), model.clone_control(&current.control)));
        let mut cost: u64 = 0;
        let ghost target = current;
        let mut cur: Node<M> = current;
        loop
            invariant
                self.wf(),
                result@.len() >= 1,
                result@.last() == (cur.state, cur.control),
                chain(self.parent_map@, target) == chain(self.parent_map@, cur) + result@.take(
                    result@.len() - 1,
                ).reverse(),
                chain_cost(*model, self.parent_map@, target) == sat_add_spec(
                    cost,
                    chain_cost(*model, self.parent_map@, cur),
                ),
            ensures
                !self.parent_map@.contains_key(cur.id.id),
            decreases cur.id.id,
        {
            match self.parent_map.get(&cur.id.id) {
                Some(p) => {
                    let edge = model.cost(&p.state, &cur.state);
                    let pn = clone_node(model, p);
                    proof {
                        let m = self.parent_map@;
                        assert(chain(m, cur) == chain(m, pn).push((cur.state, cur.control)));
                        assert(chain_cost(*model, m, cur) == sat_add_spec(
                            chain_cost(*model, m, pn),
                            model.spec_cost(pn.state, cur.state),
                        ));
                        lemma_sat_add_algebra(cost, edge, chain_cost(*model, m, pn));
                        lemma_sat_add_algebra(edge, chain_cost(*model, m, pn), 0);
                        let r1 = result@.push((pn.state, pn.control));
                        assert(r1.take(r1.len() - 1) =~= result@);
                        assert(result@ =~= result@.take(result@.len() - 1).push(
                            (cur.state, cur.control),
                        ));
                        assert(result@.reverse() =~= seq![(cur.state, cur.control)]
                            + result@.take(result@.len() - 1).reverse());
                        assert(chain(m, pn) + result@.reverse() =~= chain(m, pn).push(
                            (cur.state, cur.control),
                        ) + result@.take(result@.len() - 1).reverse());
                    }
                    cost = sat_add(cost, edge);
                    cur = pn;
                    result.push((model.clone_state(&cur.state), model.clone_control(&cur.control)));
                },
                None => {
                    break ;
                },
            }
        }
        proof {
            let m = self.parent_map@;
            assert(chain(m, cur) =~= seq![(cur.state, cur.control)]);
            assert(result@ =~= result@.take(result@.len() - 1).push((cur.state, cur.control)));
            assert(result@.reverse() =~= seq![(cur.state, cur.control)] + result@.take(
                result@.len() - 1,
            ).reverse());
            assert(chain(m, target) =~= result@.reverse());
        }
        let mut rev: Vec<(M::State, M::Control)> = Vec::new();
        let mut i: usize = result.len();
        while i > 0
            invariant
                i <= result@.len(),
                rev@ == result@.subrange(i as int, result@.len() as int).reverse(),
            decreases i,
        {
            i = i - 1;
            let pair = &result[i];
            rev.push((model.clone_state(&pair.0), model.clone_control(&pair.1)));
            proof {
                let s = result@.subrange(i as int, result@.len() as int);
                assert(s =~= seq![result@[i as int]] + result@.subrange(
                    i + 1,
                    result@.len() as int,
                ));
                assert(s.reverse() =~= result@.subrange(i + 1, result@.len() as int).reverse().push(
                    result@[i as int],
                ));
            }
        }
        proof {
            assert(rev@ =~= result@.reverse());
            lemma_chain_cost_is_path_cost(*model, self.parent_map@, target);
        }
        Trajectory { cost, trajectory: rev }
    }

    /// The open set a planning call works on: the engine seeds a start node
    /// (`g = 0`, `f` = the heuristic at the start, placeholder control) when
    /// both the open set and the parent-link table are empty, and otherwise
    /// continues from what is there.
    pub open spec fn seeded_queue(self, model: M, start: M::State, goal: M::State) -> Seq<
        Node<M>,
    > {
        if self.queue@.len() == 0 && self.parent_map@.dom().is_empty() {
            seq![
                Node {
                    id: Id { id: 0, g: 0, f: model.spec_heuristic(start, goal) },
                    state: start,
                    control: model.spec_default_control(),
                },
            ]
        } else {
            self.queue@
        }
    }

    /// Both execution modes begin identically: on a reset engine the open
    /// set a planning call works on holds exactly one node — the seeded
    /// start node — whose parent-link walk is the one-entry path at the
    /// start state with zero recomputed cost.  When the start state already
    /// satisfies the goal test, both modes therefore return the same
    /// single-state, zero-cost trajectory.
    pub proof fn lemma_modes_share_seed(self, model: M, start: M::State, goal: M::State)
        requires
            self.wf(),
            self.is_reset(),
        ensures
            ({
                let seeded = self.seeded_queue(model, start, goal);
                &&& seeded.len() == 1
                &&& seeded[0].state == start
                &&& seeded[0].id.g == 0
                &&& chain(self.parent_map@, seeded[0]) == seq![
                    (start, model.spec_default_control()),
                ]
                &&& path_cost(model, chain(self.parent_map@, seeded[0])) == 0
            }),
    {
        assert(self.parent_map@.dom() =~= Set::<usize>::empty());
        let seeded = self.seeded_queue(model, start, goal);
        assert(!self.parent_map@.contains_key(seeded[0].id.id));
        assert(chain(self.parent_map@, seeded[0]) =~= seq![
            (start, model.spec_default_control()),
        ]);
    }

    /// Run-to-completion planning: seed the open set with the start node,
    /// then repeatedly pop a lowest-`f` node and expand it until convergence
    /// is reported or the open set empties.
    ///
    /// On success the trajectory begins at the start state under the
    /// placeholder control, ends at a state satisfying the goal test, and
    /// carries the recomputed cost of exactly the returned path.  A start
    /// that already satisfies the goal test short-circuits to a single-state
    /// zero-cost trajectory and leaves the engine untouched.  `Intermediate`
    /// is never returned.  The engine
    /// must be reset beforehand: stale entries from an unrelated problem
    /// would bias the dominance pruning.
    pub fn optimize<S: Sampler<M>>(
        &mut self,
        model: &M,
        start: &M::State,
        goal: &M::State,
        sampler: &mut S,
    ) -> (r: PathResult<M>)
        requires
            old(self).wf(),
            old(self).is_reset(),
        ensures
            final(self).wf(),
            match r {
                PathResult::Final(t) => {
                    &&& t.trajectory@.len() >= 1
                    &&& t.trajectory@[0] == (*start, model.spec_default_control())
                    &&& model.spec_converge(t.trajectory@.last().0, *goal)
                    &&& t.cost == path_cost(*model, t.trajectory@)
                    &&& edges_valid(*model, t.trajectory@)
                    &&& (model.spec_converge(*start, *goal) ==> t.trajectory@ == seq![
                        (*start, model.spec_default_control()),
                    ] && t.cost == 0 && *final(self) == *old(self))
                },
                PathResult::Intermediate(_) => false,
                PathResult::Failure(e) => e == PathFindingErr::Unreachable
                    && !model.spec_converge(*start, *goal),
            },
    {
        if model.converge(start, goal) {
            let mut tv: Vec<(M::State, M::Control)> = Vec::new();
            tv.push((model.clone_state(start), model.default_control()));
            proof {
                assert(tv@ =~= seq![(*start, model.spec_default_control())]);
            }
            return PathResult::Final(Trajectory { cost: 0, trajectory: tv });
        }
        let h0 = model.heuristic(start, goal);
        let root = Node {
            id: Id { id: 0, g: 0, f: h0 },
            state: model.clone_state(start),
            control: model.default_control(),
        };
        self.queue.push(root);
        proof {
            let ghost q0 = self.queue@;
            assert(!self.parent_map@.contains_key(q0[0].id.id));
            assert(chain(self.parent_map@, q0[0]) =~= seq![(*start, model.spec_default_control())]);
            assert(self.linked(*model));
            assert(self.cells_tracked(*model));
        }
        // The search is bounded only by the reachable-and-sampled portion of
        // the state space; a caller owns any deadline policy.  The identity
        // space itself bounds the loop here.
        let mut fuel: u64 = u64::MAX;
        while fuel > 0
            invariant
                self.wf(),
                self.linked(*model),
                self.cells_tracked(*model),
                !model.spec_converge(*start, *goal),
                forall|j: int|
                    0 <= j < self.queue@.len() ==> chain(
                        self.parent_map@,
                        #[trigger] self.queue@[j],
                    )[0] == (*start, model.spec_default_control()),
            decreases fuel,
        {
            let ghost at_entry = *self;
            let popped = self.pop_min();
            match popped {
                None => {
                    return PathResult::Failure(PathFindingErr::Unreachable);
                },
                Some(current) => {
                    let ghost gcur = current;
                    proof {
                        let j = choose|j: int|
                            0 <= j < at_entry.queue@.len() && at_entry.queue@[j] == gcur
                                && self.queue@ == at_entry.queue@.remove(j);
                        assert(chain(self.parent_map@, gcur)[0] == (
                            *start,
                            model.spec_default_control(),
                        ));
                        assert(gcur.id.id <= self.id_counter);
                        assert(node_linked(*model, at_entry.parent_map@, gcur));
                        lemma_linked_after_remove(*model, at_entry, *self, j);
                    }
                    let ghost prestep = *self;
                    if self.step(&current, model, goal, sampler) {
                        let t = self.unwind_trajectory(model, current);
                        proof {
                            lemma_chain_shape(self.parent_map@, gcur);
                            lemma_chain_edges_valid(*model, self.parent_map@, gcur);
                        }
                        return PathResult::Final(t);
                    }
                    proof {
                        assert forall|jj: int| 0 <= jj < self.queue@.len() implies chain(
                            self.parent_map@,
                            #[trigger] self.queue@[jj],
                        )[0] == (*start, model.spec_default_control()) by {
                            let n = self.queue@[jj];
                            if jj < prestep.queue@.len() {
                                let j = choose|j: int|
                                    0 <= j < at_entry.queue@.len() && at_entry.queue@[j] == gcur
                                        && prestep.queue@ == at_entry.queue@.remove(j);
                                assert(prestep.queue@[jj] == if jj < j {
                                    at_entry.queue@[jj]
                                } else {
                                    at_entry.queue@[jj + 1]
                                });
                                assert(n.id.id <= prestep.id_counter);
                                assert(chain(self.parent_map@, n) == chain(
                                    prestep.parent_map@,
                                    n,
                                ));
                            } else {
                                assert(chain(self.parent_map@, n) == chain(
                                    self.parent_map@,
                                    gcur,
                                ).push((n.state, n.control)));
                                assert(chain(self.parent_map@, gcur) == chain(
                                    prestep.parent_map@,
                                    gcur,
                                ));
                                lemma_chain_shape(self.parent_map@, gcur);
                            }
                        }
                    }
                },
            }
            fuel = fuel - 1;
        }
        PathResult::Failure(PathFindingErr::Unreachable)
    }

    /// Single-step planning: seed the open set as `optimize` does when the
    /// engine is empty, pop exactly one lowest-`f` node, expand it once, and
    /// return the trajectory reconstructed to that node — `Final` when the
    /// node satisfies the goal test, `Intermediate` otherwise.  An already
    /// exhausted open set reports `Unreachable` and leaves the engine
    /// untouched.  On progress, the contract carries the expansion's whole
    /// effect: the surviving open set, the genuine children gained (their
    /// costs, parent links and fresh identities), and the preservation of
    /// every earlier parent link and every cell entry's monotone cost.
    pub fn next_trajectory<S: Sampler<M>>(
        &mut self,
        model: &M,
        start: &M::State,
        goal: &M::State,
        sampler: &mut S,
    ) -> (r: PathResult<M>)
        requires
            old(self).wf(),
            old(self).linked(*model),
            old(self).cells_tracked(*model),
        ensures
            final(self).wf(),
            final(self).linked(*model),
            final(self).cells_tracked(*model),
            final(self).id_counter >= old(self).id_counter,
            forall|i: usize| #[trigger]
                old(self).parent_map@.contains_key(i) ==> final(self).parent_map@.contains_key(i)
                    && final(self).parent_map@[i] == old(self).parent_map@[i],
            forall|k: u64| #[trigger]
                old(self).grid@.contains_key(k) ==> final(self).grid@.contains_key(k)
                    && final(self).grid@[k].g <= old(self).grid@[k].g,
            ({
                let seeded = old(self).seeded_queue(*model, *start, *goal);
                match r {
                    PathResult::Final(t) => exists|j: int|
                        {
                            &&& 0 <= j < seeded.len()
                            &&& (forall|i: int|
                                0 <= i < seeded.len() ==> seeded[j].id.f
                                    <= #[trigger] seeded[i].id.f)
                            &&& t.trajectory@ == chain(old(self).parent_map@, seeded[j])
                            &&& t.cost == path_cost(*model, t.trajectory@)
                            &&& edges_valid(*model, t.trajectory@)
                            &&& t.trajectory@.last() == (seeded[j].state, seeded[j].control)
                            &&& model.spec_converge(seeded[j].state, *goal)
                            &&& final(self).queue@ == seeded.remove(j)
                            &&& final(self).parent_map@ == old(self).parent_map@
                            &&& final(self).grid@ == old(self).grid@
                            &&& final(self).id_counter == old(self).id_counter
                        },
                    PathResult::Intermediate(t) => exists|j: int|
                        {
                            &&& 0 <= j < seeded.len()
                            &&& (forall|i: int|
                                0 <= i < seeded.len() ==> seeded[j].id.f
                                    <= #[trigger] seeded[i].id.f)
                            &&& t.trajectory@ == chain(old(self).parent_map@, seeded[j])
                            &&& t.cost == path_cost(*model, t.trajectory@)
                            &&& edges_valid(*model, t.trajectory@)
                            &&& t.trajectory@.last() == (seeded[j].state, seeded[j].control)
                            &&& !model.spec_converge(seeded[j].state, *goal)
                            &&& seeded.len() - 1 <= final(self).queue@.len()
                            &&& (forall|i: int|
                                0 <= i < seeded.len() - 1 ==> #[trigger] final(self).queue@[i]
                                    == seeded.remove(j)[i])
                            &&& (forall|i: int|
                                seeded.len() - 1 <= i < final(self).queue@.len() ==> {
                                    let n = #[trigger] final(self).queue@[i];
                                    &&& old(self).id_counter < n.id.id
                                    &&& model.spec_integrate(seeded[j].state, n.control) == Some(
                                        n.state,
                                    )
                                    &&& n.id.g == sat_add_spec(
                                        seeded[j].id.g,
                                        model.spec_cost(seeded[j].state, n.state),
                                    )
                                    &&& n.id.f == sat_add_spec(
                                        n.id.g,
                                        model.spec_heuristic(n.state, *goal),
                                    )
                                    &&& final(self).parent_map@.contains_key(n.id.id)
                                    &&& final(self).parent_map@[n.id.id] == seeded[j]
                                })
                        },
                    PathResult::Failure(e) => {
                        &&& e == PathFindingErr::Unreachable
                        &&& *final(self) == *old(self)
                        &&& old(self).queue@.len() == 0
                        &&& !old(self).parent_map@.dom().is_empty()
                    },
                }
            }),
    {
        if self.parent_map.is_empty() && self.queue.len() == 0 {
            let h0 = model.heuristic(start, goal);
            let root = Node {
                id: Id { id: 0, g: 0, f: h0 },
                state: model.clone_state(start),
                control: model.default_control(),
            };
            self.queue.push(root);
        }
        let ghost seeded = old(self).seeded_queue(*model, *start, *goal);
        proof {
            assert(seeded =~= self.queue@);
        }
        let ghost at_entry = *self;
        let popped = self.pop_min();
        match popped {
            None => PathResult::Failure(PathFindingErr::Unreachable),
            Some(current) => {
                let ghost gcur = current;
                let ghost j = choose|j: int|
                    0 <= j < at_entry.queue@.len() && at_entry.queue@[j] == gcur && self.queue@
                        == at_entry.queue@.remove(j);
                proof {
                    assert(gcur.id.id <= self.id_counter);
                    assert(node_linked(*model, at_entry.parent_map@, gcur));
                    lemma_linked_after_remove(*model, at_entry, *self, j);
                }
                let ghost prestep = *self;
                let conv = self.step(&current, model, goal, sampler);
                let t = self.unwind_trajectory(model, current);
                proof {
                    assert(seeded == at_entry.queue@);
                    assert(prestep.queue@ == seeded.remove(j));
                    assert(at_entry.parent_map@ == old(self).parent_map@);
                    assert(at_entry.grid@ == old(self).grid@);
                    assert(prestep.id_counter == old(self).id_counter);
                    assert(chain(self.parent_map@, gcur) == chain(at_entry.parent_map@, gcur));
                    lemma_chain_shape(self.parent_map@, gcur);
                    assert(node_linked(*model, self.parent_map@, gcur)) by {
                        assert(at_entry.queue@[j] == gcur && at_entry.ids_below(
                            at_entry.id_counter + 1,
                        ));
                        assert(gcur.id.id <= at_entry.id_counter);
                        assert(prestep.parent_map@ == at_entry.parent_map@);
                        assert(prestep.id_counter == at_entry.id_counter);
                        if self.parent_map@.contains_key(gcur.id.id) {
                            assert(at_entry.parent_map@.contains_key(gcur.id.id));
                            assert(self.parent_map@[gcur.id.id]
                                == at_entry.parent_map@[gcur.id.id]);
                        }
                    }
                    lemma_chain_edges_valid(*model, self.parent_map@, gcur);
                }
                if conv {
                    PathResult::Final(t)
                } else {
                    PathResult::Intermediate(t)
                }
            },
        }
    }

    /// The `(state, control)` pairs currently on the open set, in internal
    /// storage order, copied out for inspection; the engine is not changed.
    pub fn inspect_queue(&self, model: &M) -> (r: Vec<(M::State, M::Control)>)
        ensures
            r@.len() == self.queue@.len(),
            forall|j: int|
                0 <= j < r@.len() ==> #[trigger] r@[j] == (
                    self.queue@[j].state,
                    self.queue@[j].control,
                ),
    {
        let mut r: Vec<(M::State, M::Control)> = Vec::new();
        let mut i: usize = 0;
        while i < self.queue.len()
            invariant
                i <= self.queue@.len(),
                r@.len() == i,
                forall|j: int|
                    0 <= j < i ==> #[trigger] r@[j] == (
                        self.queue@[j].state,
                        self.queue@[j].control,
                    ),
            decreases self.queue@.len() - i,
        {
            let n = &self.queue[i];
            r.push((model.clone_state(&n.state), model.clone_control(&n.control)));
            i = i + 1;
        }
        r
    }

    /// All discretization keys discovered so far, in first-arrival order,
    /// copied out for inspection; the engine is not changed.  Under the
    /// engine's well-formedness these are exactly the keys of the
    /// best-per-cell map.
    pub fn inspect_discovered(&self) -> (r: Vec<u64>)
        ensures
            r@ == self.discovered@,
            self.wf() ==> forall|k: u64|
                #[trigger] r@.contains(k) <==> self.grid@.contains_key(k),
            self.wf() ==> forall|j1: int, j2: int|
                #![trigger r@[j1], r@[j2]]
                0 <= j1 < j2 < r@.len() ==> r@[j1] != r@[j2],
    {
        let mut r: Vec<u64> = Vec::new();
        let mut i: usize = 0;
        while i < self.discovered.len()
            invariant
                i <= self.discovered@.len(),
                r@ == self.discovered@.take(i as int),
            decreases self.discovered@.len() - i,
        {
            let k = self.discovered[i];
            r.push(k);
            proof {
                assert(r@ =~= self.discovered@.take(i + 1));
            }
            i = i + 1;
        }
        proof {
            assert(r@ =~= self.discovered@);
        }
        r
    }
}

} // verus!
