use std::collections::HashMap;
use vstd::prelude::*;

use crate::flow_model::{
    flows_feasible, is_min_cut, lemma_net_into_bounded, lemma_net_into_update,
    lemma_same_shape_capacity, lemma_total_capacity_bound, max_flow_outcome, net_into, pushed,
    has_pair, residual_between, same_shape, shift, total_capacity, FlowEdge,
};

verus! {

broadcast use vstd::std_specs::hash::group_hash_axioms;

/// Why a maximum-flow computation could not report its value.
#[derive(Clone, Copy, Debug, PartialEq, Eq, Structural)]
pub enum FlowError {
    /// The maximum flow exceeds what an `i32` holds.
    Overflow,
}

/// A flow network solved with the Edmonds-Karp method.
///
/// The network is an arena of edge records, at most one for each ordered
/// pair of vertices: `add_edge` rejects a pair that is already present and
/// leaves the network unchanged, so a capacity is never silently replaced
/// or added to. The forward residual capacity of
/// an edge is `capacity - flow`, its backward residual capacity is `flow`.
/// `adjacency` maps each known vertex to the indices of the edges that touch
/// it, in insertion order.
#[derive(Debug)]
pub struct EdmondsKarp {
    pub edges: Vec<FlowEdge>,
    pub adjacency: HashMap<usize, Vec<usize>>,
}

/// The incident-edge list of `v`, empty for an unknown vertex.
pub open spec fn incident(adj: Map<usize, Vec<usize>>, v: usize) -> Seq<usize> {
    if adj.contains_key(v) {
        adj[v]@
    } else {
        Seq::empty()
    }
}

/// The vertex at the other end of `e` when `e` is entered at `v`.
pub open spec fn other_end(e: FlowEdge, v: usize) -> usize {
    if e.to == v {
        e.from
    } else {
        e.to
    }
}

/// Residual capacity of `e` in the direction that arrives at `v`: forward
/// when `v` is its head, backward when `v` is its tail.
pub open spec fn residual_into(e: FlowEdge, v: usize) -> int {
    if e.to == v {
        e.capacity - e.flow
    } else {
        e.flow as int
    }
}

/// `e` is not a loop, touches `v`, and has residual capacity toward `v`.
pub open spec fn enters(e: FlowEdge, v: usize) -> bool {
    e.from != e.to && (e.to == v || e.from == v) && residual_into(e, v) > 0
}

/// `parent` maps each reached vertex but `source` to the edge it was reached
/// by; `rank` orders the reached vertices so that each comes after the one
/// it was reached from.
pub open spec fn search_tree(
    es: Seq<FlowEdge>,
    parent: Map<usize, usize>,
    rank: Map<usize, int>,
    source: usize,
) -> bool {
    &&& !parent.contains_key(source)
    &&& rank.contains_key(source)
    &&& rank[source] == 0
    &&& forall|v: usize|
        #[trigger] parent.contains_key(v) ==> {
            &&& parent[v] < es.len()
            &&& enters(es[parent[v] as int], v)
            &&& (other_end(es[parent[v] as int], v) == source || parent.contains_key(
                other_end(es[parent[v] as int], v),
            ))
            &&& rank.contains_key(other_end(es[parent[v] as int], v))
            &&& rank.contains_key(v)
            &&& 0 <= rank[other_end(es[parent[v] as int], v)] < rank[v]
        }
}

/// State of the breadth-first search: the queue of reached vertices, the
/// edge each reached vertex (but the source) was reached by, and whether the
/// sink has been reached.
pub type SearchState = (Seq<usize>, Map<usize, usize>, bool);

/// The search considers edge `ei` while scanning vertex `u`: a non-loop edge
/// with residual capacity away from `u`, toward a vertex not reached yet,
/// reaches that vertex; reaching the sink ends the search.
pub open spec fn visit_edge(
    es: Seq<FlowEdge>,
    source: usize,
    sink: usize,
    u: usize,
    ei: usize,
    st: SearchState,
) -> SearchState {
    if st.2 || ei >= es.len() {
        st
    } else {
        let e = es[ei as int];
        let next = if e.from == u {
            e.to
        } else {
            e.from
        };
        let open = if e.from == u {
            e.flow < e.capacity
        } else {
            e.flow > 0
        };
        if e.from != e.to && open && next != source && !st.1.contains_key(next) {
            if next == sink {
                (st.0, st.1.insert(next, ei), true)
            } else {
                (st.0.push(next), st.1.insert(next, ei), false)
            }
        } else {
            st
        }
    }
}

/// The search state after the first `k` edges of `u`'s list, in insertion
/// order, have been considered.
pub open spec fn visit_list(
    es: Seq<FlowEdge>,
    source: usize,
    sink: usize,
    u: usize,
    list: Seq<usize>,
    k: nat,
    st: SearchState,
) -> SearchState
    decreases k,
{
    if k == 0 || k > list.len() {
        st
    } else {
        visit_edge(
            es,
            source,
            sink,
            u,
            list[k - 1],
            visit_list(es, source, sink, u, list, (k - 1) as nat, st),
        )
    }
}

/// The search state after the first `h` queued vertices have been scanned,
/// in queue order.
pub open spec fn search_state(
    es: Seq<FlowEdge>,
    adj: Map<usize, Vec<usize>>,
    source: usize,
    sink: usize,
    h: nat,
) -> SearchState
    decreases h,
{
    if h == 0 {
        (seq![source], Map::empty(), false)
    } else {
        let st = search_state(es, adj, source, sink, (h - 1) as nat);
        if st.2 || h - 1 >= st.0.len() {
            st
        } else {
            let u = st.0[h - 1];
            visit_list(es, source, sink, u, incident(adj, u), incident(adj, u).len(), st)
        }
    }
}

/// Where the search ends: every vertex it can queue has been scanned by then.
pub open spec fn search_result(
    es: Seq<FlowEdge>,
    adj: Map<usize, Vec<usize>>,
    source: usize,
    sink: usize,
) -> SearchState {
    search_state(es, adj, source, sink, (adj.dom().len() + 1) as nat)
}

proof fn lemma_visit_list_found(
    es: Seq<FlowEdge>,
    source: usize,
    sink: usize,
    u: usize,
    list: Seq<usize>,
    k: nat,
    m: nat,
    st: SearchState,
)
    requires
        k <= m <= list.len(),
        visit_list(es, source, sink, u, list, k, st).2,
    ensures
        visit_list(es, source, sink, u, list, m, st) == visit_list(es, source, sink, u, list, k, st),
    decreases m - k,
{
    if m > k {
        lemma_visit_list_found(es, source, sink, u, list, k, (m - 1) as nat, st);
    }
}

proof fn lemma_search_settled(
    es: Seq<FlowEdge>,
    adj: Map<usize, Vec<usize>>,
    source: usize,
    sink: usize,
    h: nat,
    m: nat,
)
    requires
        h <= m,
        search_state(es, adj, source, sink, h).2 || h >= search_state(
            es,
            adj,
            source,
            sink,
            h,
        ).0.len(),
    ensures
        search_state(es, adj, source, sink, m) == search_state(es, adj, source, sink, h),
    decreases m - h,
{
    if m > h {
        lemma_search_settled(es, adj, source, sink, h, (m - 1) as nat);
    }
}

/// The augmenting path read back from `v` through `parent` until `source`,
/// at most `fuel` steps: each step is the edge index and whether the edge is
/// used forward.
pub open spec fn path_back(
    es: Seq<FlowEdge>,
    parent: Map<usize, usize>,
    source: usize,
    v: usize,
    fuel: nat,
) -> Seq<(usize, bool)>
    decreases fuel,
{
    if fuel == 0 || v == source || !parent.contains_key(v) || parent[v] >= es.len() {
        Seq::empty()
    } else {
        let ei = parent[v];
        let e = es[ei as int];
        seq![(ei, e.to == v)] + path_back(es, parent, source, other_end(e, v), (fuel - 1) as nat)
    }
}

/// Residual capacity of one path step.
pub open spec fn step_room(es: Seq<FlowEdge>, p: (usize, bool)) -> int {
    if p.1 {
        es[p.0 as int].capacity - es[p.0 as int].flow
    } else {
        es[p.0 as int].flow as int
    }
}

/// Least residual capacity along a path, starting from `i32::MAX`.
pub open spec fn bottleneck_of(es: Seq<FlowEdge>, path: Seq<(usize, bool)>) -> int
    decreases path.len(),
{
    if path.len() == 0 {
        i32::MAX as int
    } else {
        let b = bottleneck_of(es, path.drop_last());
        let r = step_room(es, path.last());
        if r < b {
            r
        } else {
            b
        }
    }
}

/// The edges after `amount` has been pushed along the first `k` steps of
/// `path`: more flow on a forward step, less on a backward one.
pub open spec fn apply_path(es: Seq<FlowEdge>, path: Seq<(usize, bool)>, amount: int, k: nat) -> Seq<
    FlowEdge,
>
    decreases k,
{
    if k == 0 || k > path.len() {
        es
    } else {
        let prev = apply_path(es, path, amount, (k - 1) as nat);
        let p = path[k - 1];
        if p.0 >= prev.len() {
            prev
        } else {
            let e = prev[p.0 as int];
            let flow = if p.1 {
                e.flow + amount
            } else {
                e.flow - amount
            };
            prev.update(
                p.0 as int,
                FlowEdge { from: e.from, to: e.to, capacity: e.capacity, flow: flow as i32 },
            )
        }
    }
}

/// One round of the solver: search, and if the sink is reached push the
/// path's bottleneck along it.
pub open spec fn augment(
    es: Seq<FlowEdge>,
    adj: Map<usize, Vec<usize>>,
    source: usize,
    sink: usize,
) -> Seq<FlowEdge> {
    let st = search_result(es, adj, source, sink);
    if !st.2 {
        es
    } else {
        let path = path_back(es, st.1, source, sink, (adj.dom().len() + 2) as nat);
        apply_path(es, path, bottleneck_of(es, path), path.len())
    }
}

/// The edges after `n` rounds of the solver.
pub open spec fn augment_rounds(
    es: Seq<FlowEdge>,
    adj: Map<usize, Vec<usize>>,
    source: usize,
    sink: usize,
    n: nat,
) -> Seq<FlowEdge>
    decreases n,
{
    if n == 0 {
        es
    } else {
        augment(augment_rounds(es, adj, source, sink, (n - 1) as nat), adj, source, sink)
    }
}

/// `after` is what rounds of the solver reach from `before`, stopping at the
/// first state in which the search no longer reaches the sink.
pub open spec fn solver_fixpoint(
    before: Seq<FlowEdge>,
    adj: Map<usize, Vec<usize>>,
    source: usize,
    sink: usize,
    after: Seq<FlowEdge>,
) -> bool {
    exists|n: nat|
        after == augment_rounds(before, adj, source, sink, n) && !search_result(
            after,
            adj,
            source,
            sink,
        ).2
}

/// Every residual edge out of a vertex ranked below `h` leads to a ranked
/// vertex at most one level deeper.
pub open spec fn closed_below(e: FlowEdge, rank: Map<usize, int>, level: Map<usize, int>, h: int) -> bool {
    &&& (rank.contains_key(e.from) && rank[e.from] < h && e.flow < e.capacity)
        ==> rank.contains_key(e.to) && level[e.to] <= level[e.from] + 1
    &&& (rank.contains_key(e.to) && rank[e.to] < h && e.flow > 0) ==> rank.contains_key(e.from)
        && level[e.from] <= level[e.to] + 1
}

/// Every residual edge out of `u` leads to a ranked vertex at most one level
/// deeper.
pub open spec fn closed_at(e: FlowEdge, u: usize, rank: Map<usize, int>, level: Map<usize, int>) -> bool {
    &&& (e.from == u && e.flow < e.capacity) ==> rank.contains_key(e.to) && level[e.to]
        <= level[u] + 1
    &&& (e.to == u && e.flow > 0) ==> rank.contains_key(e.from) && level[e.from] <= level[u] + 1
}

/// Breadth-first levels: the source is at level zero, each reached vertex one
/// level below the vertex it was reached from, and no level exceeds the
/// vertex's rank.
#[verifier::opaque]
pub open spec fn tree_levels(
    es: Seq<FlowEdge>,
    parent: Map<usize, usize>,
    rank: Map<usize, int>,
    level: Map<usize, int>,
    source: usize,
) -> bool {
    &&& level.contains_key(source)
    &&& level[source] == 0
    &&& forall|v: usize| #[trigger]
        rank.contains_key(v) ==> level.contains_key(v) && 0 <= level[v] <= rank[v]
    &&& forall|v: usize| #[trigger] level.contains_key(v) ==> level[v] >= 0
    &&& forall|v: usize| #[trigger]
        parent.contains_key(v) ==> level.contains_key(v) && parent[v] < es.len()
            && level.contains_key(other_end(es[parent[v] as int], v)) && level[v] == level[other_end(
            es[parent[v] as int],
            v,
        )] + 1
}

/// The queue holds vertices in order of level, and no queued vertex lies more
/// than one level below any vertex from position `head` on.
#[verifier::opaque]
pub open spec fn level_order(queue: Seq<usize>, level: Map<usize, int>, head: int) -> bool {
    &&& forall|i: int, j: int|
        0 <= i < j < queue.len() ==> level[#[trigger] queue[i]] <= level[#[trigger] queue[j]]
    &&& forall|i: int, j: int|
        head <= i < queue.len() && 0 <= j < queue.len() ==> level[#[trigger] queue[j]]
            <= level[#[trigger] queue[i]] + 1
}

/// `e` offers residual capacity from `a` to `b`.
pub open spec fn residual_edge(e: FlowEdge, a: usize, b: usize) -> bool {
    e.from != e.to && ((e.from == a && e.to == b && e.flow < e.capacity) || (e.to == a && e.from
        == b && e.flow > 0))
}

/// Some edge offers residual capacity from `a` to `b`.
pub open spec fn residual_step(es: Seq<FlowEdge>, a: usize, b: usize) -> bool {
    exists|i: int| 0 <= i < es.len() && #[trigger] residual_edge(es[i], a, b)
}

/// `vs` is a walk from `source` to `sink` along residual edges; it has
/// `vs.len() - 1` edges.
pub open spec fn is_residual_walk(es: Seq<FlowEdge>, vs: Seq<usize>, source: usize, sink: usize) -> bool {
    &&& vs.len() >= 1
    &&& vs[0] == source
    &&& vs.last() == sink
    &&& forall|i: int| 0 <= i < vs.len() - 1 ==> residual_step(es, #[trigger] vs[i], vs[i + 1])
}

/// Every vertex of a residual walk from the source, within the levels the
/// search has finished, has been reached at a level no deeper than its
/// position on the walk.
proof fn lemma_walk_reached(
    es: Seq<FlowEdge>,
    rank: Map<usize, int>,
    level: Map<usize, int>,
    queue: Seq<usize>,
    head: int,
    vs: Seq<usize>,
    i: int,
)
    requires
        0 <= head < queue.len(),
        forall|j: int|
            0 <= j < queue.len() ==> rank.contains_key(#[trigger] queue[j]) && rank[queue[j]] == j,
        forall|v: usize|
            rank.contains_key(v) ==> 0 <= #[trigger] rank[v] < queue.len() && queue[rank[v]] == v,
        forall|v: usize| #[trigger]
            rank.contains_key(v) ==> level.contains_key(v) && 0 <= level[v] <= rank[v],
        level_order(queue, level, head),
        forall|k: int| 0 <= k < es.len() ==> closed_below(#[trigger] es[k], rank, level, head),
        vs.len() >= 1,
        rank.contains_key(vs[0]),
        level[vs[0]] == 0,
        forall|k: int| 0 <= k < vs.len() - 1 ==> residual_step(es, #[trigger] vs[k], vs[k + 1]),
        0 <= i < vs.len(),
        i <= level[queue[head]],
    ensures
        rank.contains_key(vs[i]),
        level[vs[i]] <= i,
    decreases i,
{
    reveal(level_order);
    if i > 0 {
        lemma_walk_reached(es, rank, level, queue, head, vs, i - 1);
        let a = vs[i - 1];
        assert(rank[a] < head) by {
            if rank[a] >= head {
                assert(queue[rank[a]] == a);
                if rank[a] > head {
                    assert(level[queue[head]] <= level[queue[rank[a]]]);
                }
            }
        }
        assert(residual_step(es, vs[i - 1], vs[i]));
        let k = choose|k: int| 0 <= k < es.len() && #[trigger] residual_edge(es[k], a, vs[i]);
        assert(closed_below(es[k], rank, level, head));
    }
}

/// Walking back from `v` through the search tree takes exactly `level[v]`
/// steps.
proof fn lemma_path_back_len(
    es: Seq<FlowEdge>,
    parent: Map<usize, usize>,
    rank: Map<usize, int>,
    level: Map<usize, int>,
    source: usize,
    v: usize,
    fuel: nat,
)
    requires
        tree_levels(es, parent, rank, level, source),
        !parent.contains_key(source),
        v == source || parent.contains_key(v),
        level.contains_key(v),
        search_tree(es, parent, rank, source),
        level[v] < fuel,
    ensures
        path_back(es, parent, source, v, fuel).len() == level[v],
    decreases fuel,
{
    reveal(tree_levels);
    if v != source {
        let p = other_end(es[parent[v] as int], v);
        lemma_path_back_len(es, parent, rank, level, source, p, (fuel - 1) as nat);
    }
}

/// Flow pushed into `sink` between two states of the edges.
pub open spec fn flow_value(before: Seq<FlowEdge>, after: Seq<FlowEdge>, sink: usize) -> int {
    net_into(after, set![sink]) - net_into(before, set![sink])
}

/// Path step: the edge `p.0` enters `child` from `parent` with residual
/// capacity, and `p.1` says whether it is used forward.
pub open spec fn on_path(es: Seq<FlowEdge>, p: (usize, bool), child: usize, parent: usize) -> bool {
    &&& p.0 < es.len()
    &&& enters(es[p.0 as int], child)
    &&& other_end(es[p.0 as int], child) == parent
    &&& p.1 == (es[p.0 as int].to == child)
}

impl EdmondsKarp {
    /// The model is consistent: flows are feasible, both endpoints of every
    /// edge are known and list it, and every listed index names an edge that
    /// touches the vertex.
    pub open spec fn wf(&self) -> bool {
        &&& flows_feasible(self.edges@)
        &&& self.edges@.len() <= usize::MAX
        &&& forall|i: int|
            0 <= i < self.edges@.len() ==> {
                &&& self.adjacency@.contains_key((#[trigger] self.edges@[i]).from)
                &&& self.adjacency@.contains_key(self.edges@[i].to)
                &&& self.adjacency@[self.edges@[i].from]@.contains(i as usize)
                &&& self.adjacency@[self.edges@[i].to]@.contains(i as usize)
            }
        &&& forall|v: usize, k: int|
            #![trigger self.adjacency@[v]@[k]]
            self.adjacency@.contains_key(v) && 0 <= k < self.adjacency@[v]@.len() ==> {
                &&& self.adjacency@[v]@[k] < self.edges@.len()
                &&& self.edges@[self.adjacency@[v]@[k] as int].from == v
                    || self.edges@[self.adjacency@[v]@[k] as int].to == v
            }
    }

    /// An empty network.
    pub fn new() -> (r: Self)
        ensures
            r.wf(),
            r.edges@.len() == 0,
            r.adjacency@.dom().is_empty(),
    {
        EdmondsKarp { edges: Vec::new(), adjacency: HashMap::new() }
    }

    /// Whether an edge from `from` to `to` is already in the network.
    pub fn has_edge(&self, from: usize, to: usize) -> (r: bool)
        requires
            self.wf(),
        ensures
            r == has_pair(self.edges@, from, to),
    {
        match self.adjacency.get(&from) {
            None => {
                proof {
                    if has_pair(self.edges@, from, to) {
                        let i = choose|i: int|
                            0 <= i < self.edges@.len() && (#[trigger] self.edges@[i]).from == from
                                && self.edges@[i].to == to;
                        assert(self.adjacency@.contains_key(self.edges@[i].from));
                    }
                }
                false
            },
            Some(list) => {
                let mut k: usize = 0;
                while k < list.len()
                    invariant
                        self.wf(),
                        self.adjacency@.contains_key(from),
                        list@ == self.adjacency@[from]@,
                        k <= list@.len(),
                        forall|j: int|
                            0 <= j < k ==> !(self.edges@[#[trigger] list@[j] as int].from == from
                                && self.edges@[list@[j] as int].to == to),
                    decreases list.len() - k,
                {
                    let ei = list[k];
                    proof {
                        assert(self.adjacency@[from]@[k as int] == ei);
                    }
                    let e = self.edges[ei];
                    if e.from == from && e.to == to {
                        return true;
                    }
                    k += 1;
                }
                proof {
                    if has_pair(self.edges@, from, to) {
                        let i = choose|i: int|
                            0 <= i < self.edges@.len() && (#[trigger] self.edges@[i]).from == from
                                && self.edges@[i].to == to;
                        assert(self.adjacency@[from]@.contains(i as usize));
                        let j = choose|j: int| 0 <= j < list@.len() && list@[j] == i as usize;
                        assert(list@[j] as int == i);
                    }
                }
                false
            },
        }
    }

    /// Adds an edge from `from` to `to` with the given capacity and no flow,
    /// unless an edge from `from` to `to` is already present: then nothing
    /// changes and `false` is returned. A new edge makes both endpoints known
    /// vertices, and its index is appended to the incident-edge list of each
    /// (once for a loop).
    pub fn add_edge(&mut self, from: usize, to: usize, capacity: i32) -> (added: bool)
        requires
            old(self).wf(),
            capacity >= 0,
            old(self).edges@.len() < usize::MAX,
        ensures
            final(self).wf(),
            added == !has_pair(old(self).edges@, from, to),
            !added ==> final(self).edges@ == old(self).edges@ && final(self).adjacency@ == old(
                self,
            ).adjacency@,
            added ==> final(self).edges@ == old(self).edges@.push(
                FlowEdge { from, to, capacity, flow: 0 },
            ),
            added ==> final(self).adjacency@.dom() == old(self).adjacency@.dom().insert(
                from,
            ).insert(to),
            added ==> incident(final(self).adjacency@, from) == incident(
                old(self).adjacency@,
                from,
            ).push(old(self).edges@.len() as usize),
            added && from != to ==> incident(final(self).adjacency@, to) == incident(
                old(self).adjacency@,
                to,
            ).push(old(self).edges@.len() as usize),
            forall|v: usize|
                v != from && v != to ==> incident(final(self).adjacency@, v) == incident(
                    old(self).adjacency@,
                    v,
                ),
    {
        if self.has_edge(from, to) {
            return false;
        }
        self.push_edge(from, to, capacity);
        true
    }

    fn push_edge(&mut self, from: usize, to: usize, capacity: i32)
        requires
            old(self).wf(),
            capacity >= 0,
            old(self).edges@.len() < usize::MAX,
        ensures
            final(self).wf(),
            final(self).edges@ == old(self).edges@.push(
                FlowEdge { from, to, capacity, flow: 0 },
            ),
            final(self).adjacency@.dom() == old(self).adjacency@.dom().insert(from).insert(to),
            incident(final(self).adjacency@, from) == incident(old(self).adjacency@, from).push(
                old(self).edges@.len() as usize,
            ),
            from != to ==> incident(final(self).adjacency@, to) == incident(
                old(self).adjacency@,
                to,
            ).push(old(self).edges@.len() as usize),
            forall|v: usize|
                v != from && v != to ==> incident(final(self).adjacency@, v) == incident(
                    old(self).adjacency@,
                    v,
                ),
    {
        let idx = self.edges.len();
        self.edges.push(FlowEdge { from, to, capacity, flow: 0 });
        let mut out = match self.adjacency.remove(&from) {
            Some(l) => l,
            None => Vec::new(),
        };
        out.push(idx);
        self.adjacency.insert(from, out);
        if to != from {
            let mut inc = match self.adjacency.remove(&to) {
                Some(l) => l,
                None => Vec::new(),
            };
            inc.push(idx);
            self.adjacency.insert(to, inc);
        }
        proof {
            let a0 = old(self).adjacency@;
            let a1 = self.adjacency@;
            let es = self.edges@;
            assert(a1.dom() =~= a0.dom().insert(from).insert(to));
            assert forall|v: usize| #[trigger]
                incident(a1, v) == if v == from || v == to {
                    incident(a0, v).push(idx)
                } else {
                    incident(a0, v)
                } by {}
            assert forall|i: int| 0 <= i < es.len() implies {
                &&& a1.contains_key((#[trigger] es[i]).from)
                &&& a1.contains_key(es[i].to)
                &&& a1[es[i].from]@.contains(i as usize)
                &&& a1[es[i].to]@.contains(i as usize)
            } by {
                if i < idx {
                    assert(es[i] == old(self).edges@[i]);
                    let f = es[i].from;
                    let t = es[i].to;
                    let kf = choose|k: int| 0 <= k < a0[f]@.len() && a0[f]@[k] == i as usize;
                    let kt = choose|k: int| 0 <= k < a0[t]@.len() && a0[t]@[k] == i as usize;
                    assert(incident(a1, f)[kf] == i as usize);
                    assert(incident(a1, t)[kt] == i as usize);
                } else {
                    assert(incident(a1, from)[incident(a1, from).len() - 1] == idx);
                    assert(incident(a1, to)[incident(a1, to).len() - 1] == idx);
                }
            }
            assert forall|v: usize, k: int|
                a1.contains_key(v) && 0 <= k < a1[v]@.len() implies {
                &&& #[trigger] a1[v]@[k] < es.len()
                &&& es[a1[v]@[k] as int].from == v || es[a1[v]@[k] as int].to == v
            } by {
                assert(incident(a1, v)[k] == a1[v]@[k]);
                if (v == from || v == to) && k == incident(a1, v).len() - 1 {
                } else {
                    assert(a0[v]@[k] == a1[v]@[k]);
                    assert(es[a0[v]@[k] as int] == old(self).edges@[a0[v]@[k] as int]);
                }
            }
        }
    }
    /// Breadth-first search from `source` over the residual edges, visiting
    /// each vertex's incident edges in insertion order. Stops as soon as
    /// `sink` is reached. `parent` receives, for each reached vertex, the
    /// edge it was reached by. The outcome is exactly `search_result`: the
    /// queue is scanned in order, each vertex's edges in insertion order, so
    /// the tree is the same on every call. When `sink` is reached, the path
    /// back through `parent` is a shortest residual path; when it is not, the
    /// reached vertices form a cut that no residual edge leaves.
    #[verifier::rlimit(100)]
    fn bfs(&self, source: usize, sink: usize, parent: &mut HashMap<usize, usize>) -> (r: (
        bool,
        Ghost<Map<usize, int>>,
    ))
        requires
            self.wf(),
            source != sink,
            old(parent)@ == Map::<usize, usize>::empty(),
        ensures
            search_tree(self.edges@, final(parent)@, r.1@, source),
            r.0 ==> final(parent)@.contains_key(sink),
            !r.0 ==> is_min_cut(self.edges@, final(parent)@.dom().insert(source), source, sink),
            r.0 == search_result(self.edges@, self.adjacency@, source, sink).2,
            final(parent)@ == search_result(self.edges@, self.adjacency@, source, sink).1,
            forall|v: usize| #[trigger]
                r.1@.contains_key(v) ==> r.1@[v] <= self.adjacency@.dom().len() + 1,
            r.0 ==> forall|vs: Seq<usize>|
                is_residual_walk(self.edges@, vs, source, sink) ==> path_back(
                    self.edges@,
                    final(parent)@,
                    source,
                    sink,
                    (self.adjacency@.dom().len() + 2) as nat,
                ).len() <= vs.len() - 1,
    {
        let ghost es = self.edges@;
        let ghost adj = self.adjacency@;
        let mut queue: Vec<usize> = Vec::new();
        queue.push(source);
        let ghost mut rank: Map<usize, int> = map![source => 0int];
        let ghost mut level: Map<usize, int> = map![source => 0int];
        let mut head: usize = 0;
        proof {
            assert(parent@.dom() =~= Set::<usize>::empty());
        }
        assert(level_order(queue@, level, 0)) by {
            reveal(level_order);
        }
        assert(tree_levels(es, parent@, rank, level, source)) by {
            reveal(tree_levels);
        }
        while head < queue.len()
            invariant
                self.wf(),
                es == self.edges@,
                source != sink,
                0 <= head <= queue@.len(),
                queue@.len() == parent@.dom().len() + 1,
                parent@.dom().finite(),
                parent@.dom().subset_of(self.adjacency@.dom()),
                queue@[0] == source,
                forall|i: int|
                    0 <= i < queue@.len() ==> rank.contains_key(#[trigger] queue@[i]) && rank[queue@[i]]
                        == i,
                forall|v: usize| #[trigger]
                    rank.contains_key(v) <==> (v == source || parent@.contains_key(v)),
                forall|v: usize|
                    rank.contains_key(v) ==> 0 <= #[trigger] rank[v] < queue@.len() && queue@[rank[v]]
                        == v,
                !parent@.contains_key(sink),
                search_tree(es, parent@, rank, source),
                tree_levels(es, parent@, rank, level, source),
                level_order(queue@, level, head as int),
                forall|i: int| 0 <= i < es.len() ==> closed_below(#[trigger] es[i], rank, level, head as int),
                adj == self.adjacency@,
                (queue@, parent@, false) == search_state(es, adj, source, sink, head as nat),
            decreases self.adjacency@.dom().len() + 1 - head,
        {
            proof {
                vstd::set_lib::lemma_len_subset(parent@.dom(), self.adjacency@.dom());
            }
            let u = queue[head];
            match self.adjacency.get(&u) {
                None => {},
                Some(list) => {
                    let mut k: usize = 0;
                    while k < list.len()
                        invariant
                            self.wf(),
                            es == self.edges@,
                            source != sink,
                            self.adjacency@.contains_key(u),
                            list@ == self.adjacency@[u]@,
                            k <= list@.len(),
                            0 <= head < queue@.len(),
                            u == queue@[head as int],
                            queue@.len() == parent@.dom().len() + 1,
                            parent@.dom().finite(),
                            parent@.dom().subset_of(self.adjacency@.dom()),
                            queue@[0] == source,
                            forall|i: int|
                                0 <= i < queue@.len() ==> rank.contains_key(#[trigger] queue@[i])
                                    && rank[queue@[i]] == i,
                            forall|v: usize| #[trigger]
                                rank.contains_key(v) <==> (v == source || parent@.contains_key(v)),
                            forall|v: usize|
                                rank.contains_key(v) ==> 0 <= #[trigger] rank[v] < queue@.len()
                                    && queue@[rank[v]] == v,
                            !parent@.contains_key(sink),
                            search_tree(es, parent@, rank, source),
                            tree_levels(es, parent@, rank, level, source),
                            level_order(queue@, level, head as int),
                tree_levels(es, parent@, rank, level, source),
                level_order(queue@, level, head as int),
                            forall|i: int|
                                0 <= i < es.len() ==> closed_below(#[trigger] es[i], rank, level, head as int),
                            forall|j: int|
                                0 <= j < k ==> closed_at(es[#[trigger] list@[j] as int], u, rank, level),
                            adj == self.adjacency@,
                            !search_state(es, adj, source, sink, head as nat).2,
                            head < search_state(es, adj, source, sink, head as nat).0.len(),
                            search_state(es, adj, source, sink, head as nat).0[head as int] == u,
                            (queue@, parent@, false) == visit_list(
                                es,
                                source,
                                sink,
                                u,
                                list@,
                                k as nat,
                                search_state(es, adj, source, sink, head as nat),
                            ),
                        decreases list.len() - k,
                    {
                        let ei = list[k];
                        proof {
                            assert(list@[k as int] == ei);
                            assert(self.adjacency@[u]@[k as int] == ei);
                        }
                        let e = self.edges[ei];
                        if e.from != e.to {
                            let next: usize;
                            let open: bool;
                            if e.from == u {
                                next = e.to;
                                open = e.flow < e.capacity;
                            } else {
                                next = e.from;
                                open = e.flow > 0;
                            }
                            if open && next != source && !parent.contains_key(&next) {
                                proof {
                                    assert(self.adjacency@[u]@[k as int] == ei);
                                    assert(ei < es.len());
                                    assert(enters(e, next));
                                    assert(other_end(e, next) == u);
                                    assert(self.adjacency@.contains_key(next));
                                }
                                let ghost old_parent = parent@;
                                let ghost old_rank = rank;
                                let ghost old_level = level;
                                parent.insert(next, ei);
                                proof {
                                    rank = rank.insert(next, queue@.len() as int);
                                    level = level.insert(next, old_level[u] + 1);
                                    assert(tree_levels(es, parent@, rank, level, source)) by {
                                        reveal(tree_levels);
                                        assert(old_rank.contains_key(u));
                                        assert forall|v: usize| #[trigger]
                                            parent@.contains_key(v) implies level.contains_key(v)
                                            && parent@[v] < es.len() && level.contains_key(
                                            other_end(es[parent@[v] as int], v),
                                        ) && level[v] == level[other_end(es[parent@[v] as int], v)]
                                            + 1 by {
                                            if v != next {
                                                assert(old_parent.contains_key(v));
                                                assert(old_rank.contains_key(
                                                    other_end(es[parent@[v] as int], v),
                                                ));
                                            }
                                        }
                                    }
                                    assert forall|v: usize| #[trigger]
                                        parent@.contains_key(v) implies {
                                        &&& parent@[v] < es.len()
                                        &&& enters(es[parent@[v] as int], v)
                                        &&& (other_end(es[parent@[v] as int], v) == source
                                            || parent@.contains_key(
                                            other_end(es[parent@[v] as int], v),
                                        ))
                                        &&& rank.contains_key(other_end(es[parent@[v] as int], v))
                                        &&& rank.contains_key(v)
                                        &&& 0 <= rank[other_end(es[parent@[v] as int], v)]
                                            < rank[v]
                                    } by {
                                        if v != next {
                                            assert(old_parent.contains_key(v));
                                        }
                                    }
                                    assert(search_tree(es, parent@, rank, source));
                                }
                                if next == sink {
                                    proof {
                                        vstd::set_lib::lemma_len_subset(
                                            old_parent.dom(),
                                            adj.dom(),
                                        );
                                        let st = search_state(es, adj, source, sink, head as nat);
                                        lemma_visit_list_found(
                                            es,
                                            source,
                                            sink,
                                            u,
                                            list@,
                                            (k + 1) as nat,
                                            list@.len(),
                                            st,
                                        );
                                        lemma_search_settled(
                                            es,
                                            adj,
                                            source,
                                            sink,
                                            (head + 1) as nat,
                                            (adj.dom().len() + 1) as nat,
                                        );
                                        assert forall|vs: Seq<usize>|
                                            is_residual_walk(es, vs, source, sink) implies level[sink]
                                            <= vs.len() - 1 by {
                                            if vs.len() - 1 <= old_level[u] {
                                                reveal(tree_levels);
                                                assert(tree_levels(
                                                    es,
                                                    old_parent,
                                                    old_rank,
                                                    old_level,
                                                    source,
                                                ));
                                                lemma_walk_reached(
                                                    es,
                                                    old_rank,
                                                    old_level,
                                                    queue@,
                                                    head as int,
                                                    vs,
                                                    vs.len() - 1,
                                                );
                                            }
                                        }
                                        assert(level[sink] <= rank[sink]) by {
                                            reveal(tree_levels);
                                        }
                                        lemma_path_back_len(
                                            es,
                                            parent@,
                                            rank,
                                            level,
                                            source,
                                            sink,
                                            (adj.dom().len() + 2) as nat,
                                        );
                                    }
                                    return (true, Ghost(rank));
                                }
                                let ghost old_queue = queue@;
                                queue.push(next);
                                proof {
                                    assert(level_order(queue@, level, head as int)) by {
                                        reveal(level_order);
                                        assert(level_order(old_queue, old_level, head as int));
                                        assert(old_queue[head as int] == u);
                                        assert forall|i: int| 0 <= i < old_queue.len() implies
                                            level[#[trigger] queue@[i]] == old_level[old_queue[i]] by {
                                            assert(queue@[i] == old_queue[i]);
                                            assert(old_rank.contains_key(old_queue[i]));
                                        }
                                    }
                                    assert forall|i: int| 0 <= i < queue@.len() implies rank.contains_key(#[trigger] queue@[i])
                                        && rank[queue@[i]] == i by {
                                        if i < queue@.len() - 1 {
                                            assert(old_rank.contains_key(queue@[i]));
                                        }
                                    }
                                    assert(parent@.dom() == old_parent.dom().insert(next));
                                }
                            }
                        }
                        proof {
                            let e0 = es[list@[k as int] as int];
                            assert(closed_at(e0, u, rank, level)) by {
                                reveal(level_order);
                                if e0.from == u && e0.flow < e0.capacity && rank.contains_key(e0.to) {
                                    assert(queue@[rank[e0.to]] == e0.to);
                                }
                                if e0.to == u && e0.flow > 0 && rank.contains_key(e0.from) {
                                    assert(queue@[rank[e0.from]] == e0.from);
                                }
                            }
                        }
                        k += 1;
                    }
                    proof {
                        assert forall|i: int|
                            0 <= i < es.len() && (es[i].from == u || es[i].to == u) implies closed_at(
                            #[trigger] es[i],
                            u,
                            rank,
                            level,
                        ) by {
                            assert(self.edges@[i] == es[i]);
                            assert(self.adjacency@[u]@.contains(i as usize));
                            let j = choose|j: int|
                                0 <= j < list@.len() && list@[j] == i as usize;
                            assert(k == list@.len());
                            assert(list@[j] as int == i);
                            assert(closed_at(es[list@[j] as int], u, rank, level));
                        }
                    }
                },
            }
            proof {
                assert forall|i: int| 0 <= i < es.len() implies closed_below(
                    #[trigger] es[i],
                    rank,
                    level,
                    head + 1,
                ) by {
                    assert(closed_below(es[i], rank, level, head as int));
                    if rank.contains_key(es[i].from) && rank[es[i].from] == head {
                        assert(queue@[rank[es[i].from]] == es[i].from);
                    }
                    if rank.contains_key(es[i].to) && rank[es[i].to] == head {
                        assert(queue@[rank[es[i].to]] == es[i].to);
                    }
                    if es[i].from == u || es[i].to == u {
                        assert(closed_at(es[i], u, rank, level));
                    }
                }
            }
            assert(level_order(queue@, level, (head + 1) as int)) by {
                reveal(level_order);
            }
            head += 1;
        }
        proof {
            assert(parent@.dom().insert(source) =~= rank.dom());
            vstd::set_lib::lemma_len_subset(parent@.dom(), adj.dom());
            lemma_search_settled(
                es,
                adj,
                source,
                sink,
                head as nat,
                (adj.dom().len() + 1) as nat,
            );
        }
        (false, Ghost(rank))
    }
    /// Residual capacity from `from` to `to`: the room left on edges
    /// `from -> to` plus the flow on edges `to -> from` that can be sent
    /// back. Zero for a pair that no edge joins.
    pub fn residual(&self, from: usize, to: usize) -> (r: i128)
        requires
            self.wf(),
        ensures
            r == residual_between(self.edges@, from, to),
            r >= 0,
    {
        let ghost es = self.edges@;
        let mut acc: i128 = 0;
        let mut i: usize = 0;
        while i < self.edges.len()
            invariant
                self.wf(),
                es == self.edges@,
                i <= es.len(),
                acc == residual_between(es.take(i as int), from, to),
                0 <= acc <= total_capacity(es.take(i as int)),
            decreases es.len() - i,
        {
            let e = self.edges[i];
            let ghost t = es.take(i + 1);
            proof {
                assert(t.drop_last() =~= es.take(i as int));
                assert(t.last() == e);
                lemma_total_capacity_bound(t);
                assert(t.len() * 0x7fff_ffff <= 0xffff_ffff_ffff_ffff * 0x7fff_ffff) by (nonlinear_arith)
                    requires
                        t.len() <= 0xffff_ffff_ffff_ffff,
                ;
                assert(0 <= e.flow <= e.capacity);
            }
            if e.from == from && e.to == to {
                acc = acc + (e.capacity - e.flow) as i128;
            }
            if e.to == from && e.from == to {
                acc = acc + e.flow as i128;
            }
            i += 1;
        }
        proof {
            assert(es.take(es.len() as int) =~= es);
        }
        acc
    }

    /// Computes a maximum flow from `source` to `sink` with the Edmonds-Karp
    /// method: while a breadth-first search finds a residual path, push its
    /// bottleneck capacity along it. Flow already on the edges is kept, so a
    /// second run pushes only what the first left room for.
    ///
    /// On return the edges carry a feasible flow in which the value computed
    /// has been pushed from `source` to `sink`, and no residual path is left.
    /// That value is returned, or `Overflow` when it does not fit an `i32`.
    /// For `source == sink` nothing changes and the value is zero. The final
    /// edges are `augment_rounds` of the initial ones, taken up to the first
    /// round that finds no path, so equal models end in equal flows.
    pub fn max_flow(&mut self, source: usize, sink: usize) -> (r: Result<i32, FlowError>)
        requires
            old(self).wf(),
        ensures
            final(self).wf(),
            final(self).adjacency@ == old(self).adjacency@,
            max_flow_outcome(
                old(self).edges@,
                final(self).edges@,
                source,
                sink,
                flow_value(old(self).edges@, final(self).edges@, sink),
            ),
            source != sink ==> solver_fixpoint(
                old(self).edges@,
                old(self).adjacency@,
                source,
                sink,
                final(self).edges@,
            ),
            r == if flow_value(old(self).edges@, final(self).edges@, sink) <= i32::MAX {
                Ok(flow_value(old(self).edges@, final(self).edges@, sink) as i32)
            } else {
                Err::<i32, FlowError>(FlowError::Overflow)
            },
    {
        if source == sink {
            return Ok(0);
        }
        let ghost start = self.edges@;
        let ghost adj0 = self.adjacency@;
        let mut total: i128 = 0;
        let ghost mut rounds: nat = 0;
        proof {
            lemma_total_capacity_bound(start);
            lemma_net_into_bounded(start, set![source]);
            assert(total_capacity(start) * 2 <= 0x7fff_ffff_ffff_ffff_ffff_ffff_ffff) by (nonlinear_arith)
                requires
                    total_capacity(start) <= start.len() * 0x7fff_ffff,
                    start.len() <= usize::MAX,
                    0 <= total_capacity(start),
                    usize::MAX <= 0xffff_ffff_ffff_ffff,
            ;
            assert(pushed(start, self.edges@, source, sink, 0));
        }
        loop
            invariant
                self.wf(),
                self.adjacency@ == adj0,
                source != sink,
                same_shape(start, self.edges@),
                flows_feasible(start),
                0 <= total <= 2 * total_capacity(start),
                0 <= total_capacity(start),
                total_capacity(start) * 2 <= 0x7fff_ffff_ffff_ffff_ffff_ffff_ffff,
                pushed(start, self.edges@, source, sink, total as int),
                self.edges@ == augment_rounds(start, adj0, source, sink, rounds),
            ensures
                exists|c: Set<usize>| is_min_cut(self.edges@, c, source, sink),
                self.edges@ == augment_rounds(start, adj0, source, sink, rounds),
                !search_result(self.edges@, adj0, source, sink).2,
            decreases 2 * total_capacity(start) - total,
        {
            let mut parent: HashMap<usize, usize> = HashMap::new();
            proof {
                assert(parent@ =~= Map::<usize, usize>::empty());
            }
            let (found, Ghost(rank)) = self.bfs(source, sink, &mut parent);
            if !found {
                break;
            }
            let ghost es0 = self.edges@;
            // Walk back from the sink: collect the path and its bottleneck.
            let mut path: Vec<(usize, bool)> = Vec::new();
            let ghost mut verts: Seq<usize> = seq![sink];
            let mut cur: usize = sink;
            let mut bottleneck: i32 = i32::MAX;
            while cur != source
                invariant
                    self.wf(),
                    self.edges@ == es0,
                    search_tree(es0, parent@, rank, source),
                    cur == source || parent@.contains_key(cur),
                    verts.len() == path@.len() + 1,
                    verts[0] == sink,
                    verts.last() == cur,
                    forall|j: int| 0 <= j < verts.len() ==> rank.contains_key(#[trigger] verts[j]),
                    forall|j: int, k: int|
                        0 <= j < k < verts.len() ==> rank[#[trigger] verts[j]] > rank[#[trigger] verts[k]],
                    forall|j: int| 0 <= j < path@.len() ==> on_path(es0, #[trigger] path@[j], verts[j], verts[j + 1]),
                    forall|j: int| 0 <= j < path@.len() ==> bottleneck <= residual_into(
                        es0[(#[trigger] path@[j]).0 as int],
                        verts[j],
                    ),
                    forall|j: int, k: int|
                        0 <= j < k < path@.len() ==> (#[trigger] path@[j]).0 != (#[trigger] path@[k]).0,
                    1 <= bottleneck,
                    rank.contains_key(sink),
                    rank[sink] <= adj0.dom().len() + 1,
                    path@.len() + rank[cur] <= rank[sink],
                    path@ + path_back(
                        es0,
                        parent@,
                        source,
                        cur,
                        (adj0.dom().len() + 2 - path@.len()) as nat,
                    ) == path_back(es0, parent@, source, sink, (adj0.dom().len() + 2) as nat),
                    bottleneck == bottleneck_of(es0, path@),
                    self.adjacency@ == adj0,
                decreases rank[cur],
            {
                let ei = *parent.get(&cur).unwrap();
                let e = self.edges[ei];
                let forward = e.to == cur;
                let prev: usize;
                let room: i32;
                if forward {
                    prev = e.from;
                    room = e.capacity - e.flow;
                } else {
                    prev = e.to;
                    room = e.flow;
                }
                if room < bottleneck {
                    bottleneck = room;
                }
                proof {
                    assert(other_end(e, cur) == prev);
                    assert forall|j: int| 0 <= j < path@.len() implies path@[j].0 != ei by {
                        assert(on_path(es0, path@[j], verts[j], verts[j + 1]));
                        assert(rank[verts[j]] > rank[verts[path@.len() as int]]);
                        if j + 1 < path@.len() {
                            assert(rank[verts[j + 1]] > rank[verts[path@.len() as int]]);
                        }
                    }
                }
                let ghost old_path = path@;
                proof {
                    let f = (adj0.dom().len() + 2 - path@.len()) as nat;
                    assert(f >= 1);
                    assert(path_back(es0, parent@, source, cur, f) == seq![(ei, forward)]
                        + path_back(es0, parent@, source, prev, (f - 1) as nat));
                }
                path.push((ei, forward));
                proof {
                    assert(path@.drop_last() =~= old_path);
                    assert(step_room(es0, (ei, forward)) == room);
                    assert(old_path + (seq![(ei, forward)] + path_back(
                        es0,
                        parent@,
                        source,
                        prev,
                        (adj0.dom().len() + 2 - path@.len()) as nat,
                    )) =~= path@ + path_back(
                        es0,
                        parent@,
                        source,
                        prev,
                        (adj0.dom().len() + 2 - path@.len()) as nat,
                    ));
                    verts = verts.push(prev);
                    assert forall|j: int, k: int|
                        0 <= j < k < verts.len() implies rank[#[trigger] verts[j]] > rank[#[trigger] verts[k]] by {
                        if k == verts.len() - 1 {
                            assert(rank[verts[j]] >= rank[cur]);
                        }
                    }
                }
                cur = prev;
            }
            proof {
                assert(path_back(
                    es0,
                    parent@,
                    source,
                    source,
                    (adj0.dom().len() + 2 - path@.len()) as nat,
                ) =~= Seq::<(usize, bool)>::empty());
                assert(path@ =~= path_back(
                    es0,
                    parent@,
                    source,
                    sink,
                    (adj0.dom().len() + 2) as nat,
                ));
            }
            // Push the bottleneck along the path, from the sink back to the source.
            let mut k: usize = 0;
            while k < path.len()
                invariant
                    self.wf(),
                    self.adjacency@ == adj0,
                    same_shape(es0, self.edges@),
                    verts.len() == path@.len() + 1,
                    verts[0] == sink,
                    verts.last() == source,
                    k <= path@.len(),
                    1 <= bottleneck,
                    forall|j: int| 0 <= j < path@.len() ==> on_path(es0, #[trigger] path@[j], verts[j], verts[j + 1]),
                    forall|j: int| 0 <= j < path@.len() ==> bottleneck <= residual_into(
                        es0[(#[trigger] path@[j]).0 as int],
                        verts[j],
                    ),
                    forall|j: int, m: int|
                        0 <= j < m < path@.len() ==> (#[trigger] path@[j]).0 != (#[trigger] path@[m]).0,
                    forall|j: int|
                        k <= j < path@.len() ==> self.edges@[(#[trigger] path@[j]).0 as int] == es0[path@[j].0 as int],
                    self.edges@ == apply_path(es0, path@, bottleneck as int, k as nat),
                    forall|c: Set<usize>|
                        #[trigger] net_into(self.edges@, c) == net_into(es0, c) + shift(
                            c,
                            sink,
                            verts[k as int],
                            bottleneck as int,
                        ),
                decreases path.len() - k,
            {
                let (ei, forward) = path[k];
                let e = self.edges[ei];
                proof {
                    assert(on_path(es0, path@[k as int], verts[k as int], verts[k + 1]));
                    assert(e == es0[ei as int]);
                }
                let flow = if forward {
                    e.flow + bottleneck
                } else {
                    e.flow - bottleneck
                };
                let ne = FlowEdge { from: e.from, to: e.to, capacity: e.capacity, flow };
                let ghost es_before = self.edges@;
                proof {
                    assert(es_before[ei as int] == e);
                    assert(path@[k as int] == (ei, forward));
                    assert(ei < es_before.len());
                }
                self.edges.set(ei, ne);
                proof {
                    assert(self.edges@ == apply_path(es0, path@, bottleneck as int, (k + 1) as nat));
                }
                proof {
                    assert forall|c: Set<usize>| #[trigger]
                        net_into(self.edges@, c) == net_into(es0, c) + shift(
                            c,
                            sink,
                            verts[k + 1],
                            bottleneck as int,
                        ) by {
                        lemma_net_into_update(es_before, ei as int, ne, c);
                    }
                    assert forall|j: int|
                        k + 1 <= j < path@.len() implies self.edges@[(#[trigger] path@[j]).0 as int]
                        == es0[path@[j].0 as int] by {
                        assert(path@[j].0 != path@[k as int].0);
                    }
                    assert forall|i: int| 0 <= i < self.edges@.len() implies 0 <= #[trigger] self.edges@[i].flow
                        <= self.edges@[i].capacity by {
                        if i != ei {
                            assert(self.edges@[i] == es_before[i]);
                        }
                    }
                    assert forall|i: int| 0 <= i < self.edges@.len() implies #[trigger] self.edges@[i].from == es_before[i].from
                        && self.edges@[i].to == es_before[i].to by {
                    }
                }
                k += 1;
            }
            proof {
                assert forall|c: Set<usize>| #[trigger]
                    net_into(self.edges@, c) == net_into(start, c) + shift(
                        c,
                        sink,
                        source,
                        total + bottleneck,
                    ) by {
                    assert(net_into(es0, c) == net_into(start, c) + shift(c, sink, source, total as int));
                }
                lemma_same_shape_capacity(start, self.edges@);
                lemma_net_into_bounded(self.edges@, set![source]);
                lemma_net_into_bounded(start, set![source]);
                assert(net_into(self.edges@, set![source]) == net_into(start, set![source]) + shift(
                    set![source],
                    sink,
                    source,
                    total + bottleneck,
                ));
            }
            total = total + bottleneck as i128;
            proof {
                assert(self.edges@ == augment(es0, adj0, source, sink));
                rounds = rounds + 1;
            }
        }
        proof {
            assert(net_into(self.edges@, set![sink]) == net_into(start, set![sink]) + shift(
                set![sink],
                sink,
                source,
                total as int,
            ));
        }
        if total > i32::MAX as i128 {
            Err(FlowError::Overflow)
        } else {
            Ok(total as i32)
        }
    }
}

} // verus!
