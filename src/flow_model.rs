use vstd::prelude::*;

verus! {

/// One directed edge of the network: its endpoints, its capacity and the
/// flow it currently carries.
#[derive(Clone, Copy, Debug, PartialEq, Eq, Structural)]
pub struct FlowEdge {
    pub from: usize,
    pub to: usize,
    pub capacity: i32,
    pub flow: i32,
}

/// `amount` counted positively when the set holds `a` but not `b`,
/// negatively when it holds `b` but not `a`, and not at all otherwise.
pub open spec fn shift(s: Set<usize>, a: usize, b: usize, amount: int) -> int {
    if s.contains(a) == s.contains(b) {
        0
    } else if s.contains(a) {
        amount
    } else {
        -amount
    }
}

/// Net flow that the edges `es` carry into the vertex set `s`.
pub open spec fn net_into(es: Seq<FlowEdge>, s: Set<usize>) -> int
    decreases es.len(),
{
    if es.len() == 0 {
        0
    } else {
        let e = es.last();
        net_into(es.drop_last(), s) + shift(s, e.to, e.from, e.flow as int)
    }
}

/// Residual capacity from `from` to `to` that one edge offers: forward room
/// on an edge `from -> to`, plus flow that can be sent back on an edge
/// `to -> from`.
pub open spec fn edge_residual(e: FlowEdge, from: usize, to: usize) -> int {
    (if e.from == from && e.to == to {
        e.capacity - e.flow
    } else {
        0
    }) + (if e.to == from && e.from == to {
        e.flow as int
    } else {
        0
    })
}

/// Total residual capacity from `from` to `to` over all edges; zero for a
/// pair that no edge joins.
pub open spec fn residual_between(es: Seq<FlowEdge>, from: usize, to: usize) -> int
    decreases es.len(),
{
    if es.len() == 0 {
        0
    } else {
        residual_between(es.drop_last(), from, to) + edge_residual(es.last(), from, to)
    }
}

/// Some edge runs from `from` to `to`.
pub open spec fn has_pair(es: Seq<FlowEdge>, from: usize, to: usize) -> bool {
    exists|i: int| 0 <= i < es.len() && (#[trigger] es[i]).from == from && es[i].to == to
}

/// Sum of the capacities of all edges.
pub open spec fn total_capacity(es: Seq<FlowEdge>) -> int
    decreases es.len(),
{
    if es.len() == 0 {
        0
    } else {
        total_capacity(es.drop_last()) + es.last().capacity
    }
}

/// Sum of the capacities of the edges that leave the vertex set `s`.
pub open spec fn cut_capacity(es: Seq<FlowEdge>, s: Set<usize>) -> int
    decreases es.len(),
{
    if es.len() == 0 {
        0
    } else {
        let e = es.last();
        cut_capacity(es.drop_last(), s) + if s.contains(e.from) && !s.contains(e.to) {
            e.capacity as int
        } else {
            0
        }
    }
}

/// The flow of every edge lies between zero and its capacity, so neither the
/// forward residual `capacity - flow` nor the backward residual `flow` is
/// negative.
pub open spec fn flows_feasible(es: Seq<FlowEdge>) -> bool {
    forall|i: int| 0 <= i < es.len() ==> 0 <= #[trigger] es[i].flow <= es[i].capacity
}

/// Every edge carries zero flow.
pub open spec fn flows_zero(es: Seq<FlowEdge>) -> bool {
    forall|i: int| 0 <= i < es.len() ==> #[trigger] es[i].flow == 0
}

/// Two edge lists with the same endpoints and capacities, edge by edge.
pub open spec fn same_shape(a: Seq<FlowEdge>, b: Seq<FlowEdge>) -> bool {
    &&& a.len() == b.len()
    &&& forall|i: int|
        0 <= i < a.len() ==> (#[trigger] a[i]).from == b[i].from && a[i].to == b[i].to
            && a[i].capacity == b[i].capacity
}

/// No edge with residual capacity leaves the vertex set `s`: every edge out
/// of `s` is saturated, and every edge into `s` carries no flow.
pub open spec fn residual_closed(es: Seq<FlowEdge>, s: Set<usize>) -> bool {
    forall|i: int|
        0 <= i < es.len() ==> {
            &&& (s.contains((#[trigger] es[i]).from) && es[i].flow < es[i].capacity ==> s.contains(
                es[i].to,
            ))
            &&& (s.contains(es[i].to) && es[i].flow > 0 ==> s.contains(es[i].from))
        }
}

/// A set of vertices that holds `source`, not `sink`, and that no residual
/// edge leaves: no augmenting path from `source` to `sink` is left.
pub open spec fn is_min_cut(es: Seq<FlowEdge>, s: Set<usize>, source: usize, sink: usize) -> bool {
    s.contains(source) && !s.contains(sink) && residual_closed(es, s)
}

/// `after` is `before` with `value` units more pushed from `source` to
/// `sink`: the net flow into any vertex set changes by `value` exactly when
/// the set separates the two.
pub open spec fn pushed(
    before: Seq<FlowEdge>,
    after: Seq<FlowEdge>,
    source: usize,
    sink: usize,
    value: int,
) -> bool {
    forall|s: Set<usize>|
        #[trigger] net_into(after, s) == net_into(before, s) + shift(s, sink, source, value)
}

/// What one run of the solver leaves behind: the same edges, feasible flows,
/// `value` units pushed from `source` to `sink`, and (for distinct
/// endpoints) a cut that no residual edge crosses, so that the flow is a
/// maximum one.
pub open spec fn max_flow_outcome(
    before: Seq<FlowEdge>,
    after: Seq<FlowEdge>,
    source: usize,
    sink: usize,
    value: int,
) -> bool {
    &&& same_shape(before, after)
    &&& flows_feasible(after)
    &&& value >= 0
    &&& pushed(before, after, source, sink, value)
    &&& source != sink ==> exists|s: Set<usize>| is_min_cut(after, s, source, sink)
    &&& source == sink ==> after == before && value == 0
}

/// Replacing one edge changes the net flow into a set by the difference of
/// the two edges' contributions.
pub proof fn lemma_net_into_update(es: Seq<FlowEdge>, i: int, e: FlowEdge, s: Set<usize>)
    requires
        0 <= i < es.len(),
    ensures
        net_into(es.update(i, e), s) == net_into(es, s) + shift(s, e.to, e.from, e.flow as int)
            - shift(s, es[i].to, es[i].from, es[i].flow as int),
    decreases es.len(),
{
    let u = es.update(i, e);
    if i == es.len() - 1 {
        assert(u.drop_last() =~= es.drop_last());
    } else {
        assert(u.drop_last() =~= es.drop_last().update(i, e));
        lemma_net_into_update(es.drop_last(), i, e, s);
    }
}

/// Under a feasible flow the net flow into any set is bounded by the total
/// capacity.
pub proof fn lemma_net_into_bounded(es: Seq<FlowEdge>, s: Set<usize>)
    requires
        flows_feasible(es),
    ensures
        -total_capacity(es) <= net_into(es, s) <= total_capacity(es),
        0 <= total_capacity(es),
    decreases es.len(),
{
    if es.len() > 0 {
        assert(flows_feasible(es.drop_last())) by {
            assert forall|i: int| 0 <= i < es.drop_last().len() implies 0
                <= #[trigger] es.drop_last()[i].flow <= es.drop_last()[i].capacity by {
                assert(es.drop_last()[i] == es[i]);
            }
        }
        lemma_net_into_bounded(es.drop_last(), s);
        assert(0 <= es[es.len() - 1].flow <= es[es.len() - 1].capacity);
    }
}

/// Each capacity is an `i32`, so the total is at most the edge count times
/// `i32::MAX`.
pub proof fn lemma_total_capacity_bound(es: Seq<FlowEdge>)
    ensures
        total_capacity(es) <= es.len() * 0x7fff_ffff,
    decreases es.len(),
{
    if es.len() > 0 {
        lemma_total_capacity_bound(es.drop_last());
    }
}

/// Edge lists of the same shape have the same capacities, in total and
/// across every cut.
pub proof fn lemma_same_shape_capacity(a: Seq<FlowEdge>, b: Seq<FlowEdge>)
    requires
        same_shape(a, b),
    ensures
        total_capacity(a) == total_capacity(b),
        forall|s: Set<usize>| cut_capacity(a, s) == #[trigger] cut_capacity(b, s),
    decreases a.len(),
{
    if a.len() > 0 {
        assert(same_shape(a.drop_last(), b.drop_last())) by {
            assert forall|i: int| 0 <= i < a.drop_last().len() implies (
            #[trigger] a.drop_last()[i]).from == b.drop_last()[i].from && a.drop_last()[i].to
                == b.drop_last()[i].to && a.drop_last()[i].capacity
                == b.drop_last()[i].capacity by {
                assert(a.drop_last()[i] == a[i]);
                assert(b.drop_last()[i] == b[i]);
            }
        }
        lemma_same_shape_capacity(a.drop_last(), b.drop_last());
        let k = a.len() - 1;
        assert(a[k].from == b[k].from && a[k].to == b[k].to && a[k].capacity == b[k].capacity);
        assert forall|s: Set<usize>| cut_capacity(a, s) == #[trigger] cut_capacity(b, s) by {
            assert(cut_capacity(a.drop_last(), s) == cut_capacity(b.drop_last(), s));
        }
    }
}

/// Without flow, no set receives any.
pub proof fn lemma_net_into_zero(es: Seq<FlowEdge>, s: Set<usize>)
    requires
        flows_zero(es),
    ensures
        net_into(es, s) == 0,
    decreases es.len(),
{
    if es.len() > 0 {
        assert(flows_zero(es.drop_last())) by {
            assert forall|i: int| 0 <= i < es.drop_last().len() implies #[trigger] es.drop_last()[
                i].flow == 0 by {
                assert(es.drop_last()[i] == es[i]);
            }
        }
        lemma_net_into_zero(es.drop_last(), s);
        assert(es[es.len() - 1].flow == 0);
    }
}

/// Net flow into a vertex that no edge touches is zero.
pub proof fn lemma_net_into_untouched(es: Seq<FlowEdge>, v: usize)
    requires
        forall|i: int| 0 <= i < es.len() ==> (#[trigger] es[i]).from != v && es[i].to != v,
    ensures
        net_into(es, set![v]) == 0,
    decreases es.len(),
{
    if es.len() > 0 {
        assert forall|i: int| 0 <= i < es.drop_last().len() implies (
        #[trigger] es.drop_last()[i]).from != v && es.drop_last()[i].to != v by {
            assert(es.drop_last()[i] == es[i]);
        }
        lemma_net_into_untouched(es.drop_last(), v);
        assert(es[es.len() - 1].from != v);
    }
}

/// Across a set that no residual edge leaves, the net flow into the set is
/// minus the capacity of the edges leaving it.
pub proof fn lemma_closed_net_into(es: Seq<FlowEdge>, s: Set<usize>)
    requires
        residual_closed(es, s),
        flows_feasible(es),
    ensures
        net_into(es, s) == -cut_capacity(es, s),
    decreases es.len(),
{
    if es.len() > 0 {
        let d = es.drop_last();
        assert forall|i: int| 0 <= i < d.len() implies #[trigger] d[i] == es[i] by {}
        assert(residual_closed(d, s)) by {
            assert forall|i: int| 0 <= i < d.len() implies {
                &&& (s.contains((#[trigger] d[i]).from) && d[i].flow < d[i].capacity
                    ==> s.contains(d[i].to))
                &&& (s.contains(d[i].to) && d[i].flow > 0 ==> s.contains(d[i].from))
            } by {
                assert(d[i] == es[i]);
            }
        }
        assert(flows_feasible(d)) by {
            assert forall|i: int| 0 <= i < d.len() implies 0 <= #[trigger] d[i].flow
                <= d[i].capacity by {
                assert(d[i] == es[i]);
            }
        }
        lemma_closed_net_into(d, s);
        let k = es.len() - 1;
        assert(0 <= es[k].flow <= es[k].capacity);
        assert(s.contains(es[k].from) && es[k].flow < es[k].capacity ==> s.contains(es[k].to));
        assert(s.contains(es[k].to) && es[k].flow > 0 ==> s.contains(es[k].from));
    }
}

/// For any feasible flow, the net flow into a set is at least minus the
/// capacity of the edges leaving it.
pub proof fn lemma_net_into_above_cut(es: Seq<FlowEdge>, s: Set<usize>)
    requires
        flows_feasible(es),
    ensures
        net_into(es, s) >= -cut_capacity(es, s),
    decreases es.len(),
{
    if es.len() > 0 {
        let d = es.drop_last();
        assert(flows_feasible(d)) by {
            assert forall|i: int| 0 <= i < d.len() implies 0 <= #[trigger] d[i].flow
                <= d[i].capacity by {
                assert(d[i] == es[i]);
            }
        }
        lemma_net_into_above_cut(d, s);
        let k = es.len() - 1;
        assert(0 <= es[k].flow <= es[k].capacity);
    }
}

} // verus!
