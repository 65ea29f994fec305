use vstd::prelude::*;

use crate::edmonds_karp_solver::{
    augment_rounds, search_result, solver_fixpoint, EdmondsKarp,
};
use crate::flow_check::flow_checks_out;
use crate::flow_model::{
    cut_capacity, flows_zero, is_min_cut, lemma_closed_net_into, lemma_net_into_above_cut,
    lemma_net_into_zero, lemma_same_shape_capacity, max_flow_outcome, net_into, shift, FlowEdge,
};

verus! {

/// Flow conservation: when the solver starts from a network without flow,
/// every vertex other than the source and the sink passes on exactly what
/// it receives.
pub proof fn lemma_conservation(
    before: Seq<FlowEdge>,
    after: Seq<FlowEdge>,
    source: usize,
    sink: usize,
    value: int,
)
    requires
        flows_zero(before),
        max_flow_outcome(before, after, source, sink, value),
    ensures
        forall|v: usize| v != source && v != sink ==> #[trigger] net_into(after, set![v]) == 0,
{
    assert forall|v: usize| v != source && v != sink implies #[trigger] net_into(
        after,
        set![v],
    ) == 0 by {
        lemma_net_into_zero(before, set![v]);
        assert(net_into(after, set![v]) == net_into(before, set![v]) + shift(
            set![v],
            sink,
            source,
            value,
        ));
    }
}

/// Max-flow equals min-cut: when the solver starts from a network without
/// flow and the endpoints differ, some vertex set holding the source but not
/// the sink is left by no residual edge, and for every such set the value
/// returned equals the total capacity of the edges leaving it.
pub proof fn lemma_max_flow_min_cut(
    before: Seq<FlowEdge>,
    after: Seq<FlowEdge>,
    source: usize,
    sink: usize,
    value: int,
)
    requires
        flows_zero(before),
        max_flow_outcome(before, after, source, sink, value),
        source != sink,
    ensures
        exists|c: Set<usize>| is_min_cut(after, c, source, sink),
        forall|c: Set<usize>|
            #[trigger] is_min_cut(after, c, source, sink) ==> value == cut_capacity(after, c)
                && value == cut_capacity(before, c),
{
    lemma_same_shape_capacity(before, after);
    assert forall|c: Set<usize>| #[trigger] is_min_cut(after, c, source, sink) implies value
        == cut_capacity(after, c) && value == cut_capacity(before, c) by {
        lemma_net_into_zero(before, c);
        lemma_closed_net_into(after, c);
        assert(net_into(after, c) == net_into(before, c) + shift(c, sink, source, value));
    }
}

/// The value of the maximum flow depends on the network alone: two runs of
/// the solver from the same network without flow return the same value.
pub proof fn lemma_flow_value_unique(
    before: Seq<FlowEdge>,
    first: Seq<FlowEdge>,
    second: Seq<FlowEdge>,
    source: usize,
    sink: usize,
    first_value: int,
    second_value: int,
)
    requires
        flows_zero(before),
        max_flow_outcome(before, first, source, sink, first_value),
        max_flow_outcome(before, second, source, sink, second_value),
    ensures
        first_value == second_value,
{
    if source != sink {
        lemma_max_flow_min_cut(before, first, source, sink, first_value);
        lemma_max_flow_min_cut(before, second, source, sink, second_value);
        let c1 = choose|c: Set<usize>| is_min_cut(first, c, source, sink);
        let c2 = choose|c: Set<usize>| is_min_cut(second, c, source, sink);
        lemma_same_shape_capacity(before, first);
        lemma_same_shape_capacity(before, second);
        lemma_net_into_zero(before, c1);
        lemma_net_into_zero(before, c2);
        lemma_net_into_above_cut(second, c1);
        lemma_net_into_above_cut(first, c2);
        assert(net_into(second, c1) == net_into(before, c1) + shift(
            c1,
            sink,
            source,
            second_value,
        ));
        assert(net_into(first, c2) == net_into(before, c2) + shift(
            c2,
            sink,
            source,
            first_value,
        ));
    }
}

/// No residual capacity is ever negative: in every consistent model each
/// edge has `capacity - flow >= 0` forward and `flow >= 0` backward.
pub proof fn lemma_residuals_nonnegative(m: &EdmondsKarp)
    requires
        m.wf(),
    ensures
        forall|i: int|
            0 <= i < m.edges@.len() ==> #[trigger] m.edges@[i].flow >= 0 && m.edges@[i].capacity
                - m.edges@[i].flow >= 0,
{
}

/// What the solver computes from a network without flow passes the flow
/// check with the value it returned.
pub proof fn lemma_solver_result_checks_out(
    before: Seq<FlowEdge>,
    after: Seq<FlowEdge>,
    source: usize,
    sink: usize,
    value: int,
)
    requires
        flows_zero(before),
        max_flow_outcome(before, after, source, sink, value),
    ensures
        flow_checks_out(after, source, sink, value),
{
    lemma_conservation(before, after, source, sink, value);
    lemma_net_into_zero(before, set![source]);
    lemma_net_into_zero(before, set![sink]);
    assert(net_into(after, set![source]) == net_into(before, set![source]) + shift(
        set![source],
        sink,
        source,
        value,
    ));
    assert(net_into(after, set![sink]) == net_into(before, set![sink]) + shift(
        set![sink],
        sink,
        source,
        value,
    ));
}

/// The flow check depends on the model and the claim alone: two checks of
/// the same model against the same claim agree.
pub proof fn lemma_check_repeatable(
    m: &EdmondsKarp,
    source: usize,
    sink: usize,
    expected_flow: i32,
    first: bool,
    second: bool,
)
    requires
        first == flow_checks_out(m.edges@, source, sink, expected_flow as int),
        second == flow_checks_out(m.edges@, source, sink, expected_flow as int),
    ensures
        first == second,
{
}

/// Once a round finds no augmenting path, further rounds change nothing.
proof fn lemma_rounds_settled(
    es: Seq<FlowEdge>,
    adj: Map<usize, Vec<usize>>,
    source: usize,
    sink: usize,
    n: nat,
    m: nat,
)
    requires
        n <= m,
        !search_result(augment_rounds(es, adj, source, sink, n), adj, source, sink).2,
    ensures
        augment_rounds(es, adj, source, sink, m) == augment_rounds(es, adj, source, sink, n),
    decreases m - n,
{
    if m > n {
        lemma_rounds_settled(es, adj, source, sink, n, (m - 1) as nat);
    }
}

/// Determinism: for distinct endpoints, the edges the solver leaves behind
/// are a function of the edges it started from, the incident-edge lists,
/// the source and the sink. Two runs on equal models leave equal flows on
/// every edge, hence equal residual capacities. (For equal endpoints the
/// solver leaves the edges unchanged.)
pub proof fn lemma_max_flow_deterministic(
    before: Seq<FlowEdge>,
    adj: Map<usize, Vec<usize>>,
    source: usize,
    sink: usize,
    first: Seq<FlowEdge>,
    second: Seq<FlowEdge>,
)
    requires
        solver_fixpoint(before, adj, source, sink, first),
        solver_fixpoint(before, adj, source, sink, second),
    ensures
        first == second,
{
    let n1 = choose|n: nat|
        first == augment_rounds(before, adj, source, sink, n) && !search_result(
            first,
            adj,
            source,
            sink,
        ).2;
    let n2 = choose|n: nat|
        second == augment_rounds(before, adj, source, sink, n) && !search_result(
            second,
            adj,
            source,
            sink,
        ).2;
    if n1 <= n2 {
        lemma_rounds_settled(before, adj, source, sink, n1, n2);
    } else {
        lemma_rounds_settled(before, adj, source, sink, n2, n1);
    }
}

} // verus!
