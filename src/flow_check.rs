use std::collections::HashMap;
use vstd::prelude::*;

use crate::edmonds_karp_solver::EdmondsKarp;
use crate::flow_model::{
    flows_feasible, lemma_net_into_bounded, lemma_net_into_untouched, net_into, total_capacity,
    FlowEdge,
};

verus! {

broadcast use vstd::std_specs::hash::group_hash_axioms;

/// The first check that a claimed flow failed.
#[derive(Clone, Copy, Debug, PartialEq, Eq, Structural)]
pub enum FlowViolation {
    /// The net flow out of the source differs from the claim.
    SourceMismatch { net_outflow: i128 },
    /// The net flow into the sink differs from the claim.
    SinkMismatch { net_inflow: i128 },
    /// Flow is not conserved at a vertex other than the source and the sink.
    Unbalanced { vertex: usize, balance: i128 },
}

/// The edges carry `expected` units from `source` to `sink`: that much net
/// flow leaves the source and enters the sink, and every other vertex
/// passes on what it receives.
pub open spec fn flow_checks_out(es: Seq<FlowEdge>, source: usize, sink: usize, expected: int) -> bool {
    &&& -net_into(es, set![source]) == expected
    &&& net_into(es, set![sink]) == expected
    &&& forall|v: usize| v != source && v != sink ==> #[trigger] net_into(es, set![v]) == 0
}

/// Net inflow recorded for `v`, zero when none is.
pub open spec fn recorded(m: Map<usize, i128>, v: usize) -> int {
    if m.contains_key(v) {
        m[v] as int
    } else {
        0
    }
}

fn balance_of(m: &HashMap<usize, i128>, v: usize) -> (r: i128)
    ensures
        r == recorded(m@, v),
{
    match m.get(&v) {
        Some(b) => *b,
        None => 0,
    }
}

proof fn lemma_net_into_take(es: Seq<FlowEdge>, i: int, s: Set<usize>)
    requires
        0 <= i < es.len(),
    ensures
        net_into(es.take(i + 1), s) == net_into(es.take(i), s) + if s.contains(es[i].to)
            == s.contains(es[i].from) {
            0
        } else if s.contains(es[i].to) {
            es[i].flow as int
        } else {
            -es[i].flow
        },
{
    assert(es.take(i + 1).drop_last() =~= es.take(i));
}

/// Net inflow of every vertex over all edges, in one pass.
fn balances(ek: &EdmondsKarp) -> (m: HashMap<usize, i128>)
    requires
        ek.wf(),
    ensures
        forall|v: usize| #[trigger] recorded(m@, v) == net_into(ek.edges@, set![v]),
        forall|v: usize|
            -0x7fff_ffff_ffff_ffff_ffff_ffff <= #[trigger] recorded(m@, v)
                <= 0x7fff_ffff_ffff_ffff_ffff_ffff,
{
    let ghost es = ek.edges@;
    let mut m: HashMap<usize, i128> = HashMap::new();
    let mut i: usize = 0;
    proof {
        crate::flow_model::lemma_total_capacity_bound(es);
    }
    while i < ek.edges.len()
        invariant
            ek.wf(),
            es == ek.edges@,
            i <= es.len(),
            total_capacity(es) <= es.len() * 0x7fff_ffff,
            es.len() <= usize::MAX,
            forall|v: usize| #[trigger] recorded(m@, v) == net_into(es.take(i as int), set![v]),
        decreases es.len() - i,
    {
        let e = ek.edges[i];
        let ghost before = m@;
        proof {
            assert forall|j: int| 0 <= j < es.take(i + 1).len() implies 0
                <= #[trigger] es.take(i + 1)[j].flow <= es.take(i + 1)[j].capacity by {
                assert(es.take(i + 1)[j] == es[j]);
            }
            assert forall|j: int| 0 <= j < es.take(i as int).len() implies 0
                <= #[trigger] es.take(i as int)[j].flow <= es.take(i as int)[j].capacity by {
                assert(es.take(i as int)[j] == es[j]);
            }
            lemma_net_into_bounded(es.take(i as int), set![e.from]);
            lemma_net_into_bounded(es.take(i as int), set![e.to]);
            assert(total_capacity(es.take(i as int)) <= es.len() * 0x7fff_ffff) by {
                crate::flow_model::lemma_total_capacity_bound(es.take(i as int));
                assert(es.take(i as int).len() * 0x7fff_ffff <= es.len() * 0x7fff_ffff) by (nonlinear_arith)
                    requires
                        es.take(i as int).len() <= es.len(),
                ;
            }
            assert(es.len() * 0x7fff_ffff <= 0xffff_ffff_ffff_ffff * 0x7fff_ffff) by (nonlinear_arith)
                requires
                    es.len() <= 0xffff_ffff_ffff_ffff,
            ;
        }
        if e.from != e.to {
            let bt = balance_of(&m, e.to);
            m.insert(e.to, bt + e.flow as i128);
            proof {
                assert(recorded(m@, e.from) == recorded(before, e.from));
            }
            let bf = balance_of(&m, e.from);
            m.insert(e.from, bf - e.flow as i128);
        }
        proof {
            assert forall|v: usize| #[trigger]
                recorded(m@, v) == net_into(es.take(i + 1), set![v]) by {
                lemma_net_into_take(es, i as int, set![v]);
                assert(recorded(before, v) == net_into(es.take(i as int), set![v]));
            }
        }
        i += 1;
    }
    proof {
        assert(es.take(es.len() as int) =~= es);
        assert(es.len() * 0x7fff_ffff <= 0xffff_ffff_ffff_ffff * 0x7fff_ffff) by (nonlinear_arith)
            requires
                es.len() <= 0xffff_ffff_ffff_ffff,
        ;
        assert forall|v: usize|
            -0x7fff_ffff_ffff_ffff_ffff_ffff <= #[trigger] recorded(m@, v)
                <= 0x7fff_ffff_ffff_ffff_ffff_ffff by {
            lemma_net_into_bounded(es, set![v]);
        }
    }
    m
}

/// Checks a claimed flow value against the flow the edges carry, reporting
/// the first check that fails: the source's net outflow, then the sink's net
/// inflow, then conservation at the other vertices.
pub fn check_flow(ek: &EdmondsKarp, source: usize, sink: usize, expected_flow: i32) -> (r: Result<
    (),
    FlowViolation,
>)
    requires
        ek.wf(),
    ensures
        r is Ok <==> flow_checks_out(ek.edges@, source, sink, expected_flow as int),
        r matches Err(FlowViolation::SourceMismatch { net_outflow }) ==> net_outflow == -net_into(
            ek.edges@,
            set![source],
        ) && net_outflow != expected_flow,
        r matches Err(FlowViolation::SinkMismatch { net_inflow }) ==> -net_into(
            ek.edges@,
            set![source],
        ) == expected_flow && net_inflow == net_into(ek.edges@, set![sink]) && net_inflow
            != expected_flow,
        r matches Err(FlowViolation::Unbalanced { vertex, balance }) ==> -net_into(
            ek.edges@,
            set![source],
        ) == expected_flow && net_into(ek.edges@, set![sink]) == expected_flow && vertex
            != source && vertex != sink && balance == net_into(ek.edges@, set![vertex]) && balance
            != 0,
        (-net_into(ek.edges@, set![source]) != expected_flow) ==> r matches Err(
            FlowViolation::SourceMismatch { .. },
        ),
        (-net_into(ek.edges@, set![source]) == expected_flow && net_into(ek.edges@, set![sink])
            != expected_flow) ==> r matches Err(FlowViolation::SinkMismatch { .. }),
{
    let ghost es = ek.edges@;
    let m = balances(ek);
    let src = balance_of(&m, source);
    proof {
        assert(recorded(m@, source) == net_into(es, set![source]));
        assert(-0x7fff_ffff_ffff_ffff_ffff_ffff <= recorded(m@, source));
    }
    if -src != expected_flow as i128 {
        return Err(FlowViolation::SourceMismatch { net_outflow: -src });
    }
    let snk = balance_of(&m, sink);
    proof {
        assert(recorded(m@, sink) == net_into(es, set![sink]));
    }
    if snk != expected_flow as i128 {
        return Err(FlowViolation::SinkMismatch { net_inflow: snk });
    }
    let mut i: usize = 0;
    while i < ek.edges.len()
        invariant
            ek.wf(),
            es == ek.edges@,
            i <= es.len(),
            -net_into(es, set![source]) == expected_flow,
            net_into(es, set![sink]) == expected_flow,
            forall|v: usize| #[trigger] recorded(m@, v) == net_into(es, set![v]),
            forall|j: int|
                0 <= j < i ==> ((#[trigger] es[j]).from == source || es[j].from == sink || net_into(
                    es,
                    set![es[j].from],
                ) == 0) && (es[j].to == source || es[j].to == sink || net_into(es, set![es[j].to])
                    == 0),
        decreases es.len() - i,
    {
        let e = ek.edges[i];
        if e.from != source && e.from != sink {
            let b = balance_of(&m, e.from);
            proof {
                assert(recorded(m@, e.from) == net_into(es, set![e.from]));
            }
            if b != 0 {
                return Err(FlowViolation::Unbalanced { vertex: e.from, balance: b });
            }
        }
        if e.to != source && e.to != sink {
            let b = balance_of(&m, e.to);
            proof {
                assert(recorded(m@, e.to) == net_into(es, set![e.to]));
            }
            if b != 0 {
                return Err(FlowViolation::Unbalanced { vertex: e.to, balance: b });
            }
        }
        i += 1;
    }
    proof {
        assert forall|v: usize| v != source && v != sink implies #[trigger] net_into(
            es,
            set![v],
        ) == 0 by {
            if exists|j: int| 0 <= j < es.len() && ((#[trigger] es[j]).from == v || es[j].to == v) {
                let j = choose|j: int| 0 <= j < es.len() && ((#[trigger] es[j]).from == v || es[j].to == v);
                assert(es[j].from == v || es[j].to == v);
            } else {
                lemma_net_into_untouched(es, v);
            }
        }
    }
    Ok(())
}

/// Whether the edges of `ek` carry exactly `expected_flow` units from
/// `source` to `sink` with flow conserved everywhere else. `check_flow` is
/// the structured form: on a mismatch it names the check that failed (the
/// source's balance, the sink's balance, or a vertex and its balance).
pub fn verify_max_flow(ek: &EdmondsKarp, source: usize, sink: usize, expected_flow: i32) -> (r:
    bool)
    requires
        ek.wf(),
    ensures
        r == flow_checks_out(ek.edges@, source, sink, expected_flow as int),
{
    check_flow(ek, source, sink, expected_flow).is_ok()
}

} // verus!
