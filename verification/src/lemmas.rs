//! Sums of flow over the arc list and the facts about them that the
//! computation and the conservation law rest on.

use vstd::prelude::*;

use crate::network::{bounded, cap_sum, edge_ok, mirror_of, mirrored, pair_ok, EdgeRec};

verus! {

/// The signed flow leaving node `x`: the sum of `flow` over the arcs whose
/// tail is `x`.
pub open spec fn net_outflow(es: Seq<EdgeRec>, x: char) -> int
    decreases es.len(),
{
    if es.len() == 0 {
        0
    } else {
        net_outflow(es.drop_last(), x) + if es.last().from == x {
            es.last().edge.flow as int
        } else {
            0
        }
    }
}

/// The signed flow entering node `x`: the sum of `flow` over the arcs whose
/// head is `x`.
pub open spec fn net_inflow(es: Seq<EdgeRec>, x: char) -> int
    decreases es.len(),
{
    if es.len() == 0 {
        0
    } else {
        net_inflow(es.drop_last(), x) + if es.last().to == x {
            es.last().edge.flow as int
        } else {
            0
        }
    }
}

/// Capacities are non-negative and no flow exceeds its own capacity; the
/// part of well-formedness that restricts to any prefix of the arc list.
pub open spec fn flows_le_caps(es: Seq<EdgeRec>) -> bool {
    forall|k: int|
        0 <= k < es.len() ==> (#[trigger] es[k].edge.capacity >= 0 && es[k].edge.flow as int
            <= es[k].edge.capacity as int)
}

/// Replacing the record at `k` by one with the same tail shifts the outflow
/// of that tail by the flow difference and changes no other node's outflow.
pub proof fn lemma_net_outflow_update(es: Seq<EdgeRec>, k: int, r: EdgeRec, x: char)
    requires
        0 <= k < es.len(),
        r.from == es[k].from,
    ensures
        net_outflow(es.update(k, r), x) == net_outflow(es, x) + if es[k].from == x {
            r.edge.flow - es[k].edge.flow
        } else {
            0
        },
    decreases es.len(),
{
    let es2 = es.update(k, r);
    if k == es.len() - 1 {
        assert(es2.drop_last() =~= es.drop_last());
        assert(es2.last() == r);
    } else {
        assert(es2.drop_last() =~= es.drop_last().update(k, r));
        lemma_net_outflow_update(es.drop_last(), k, r, x);
        assert(es2.last() == es.last());
    }
}

/// When every flow is zero, every outflow is zero.
pub proof fn lemma_net_outflow_zero(es: Seq<EdgeRec>, x: char)
    requires
        forall|k: int| 0 <= k < es.len() ==> #[trigger] es[k].edge.flow == 0,
    ensures
        net_outflow(es, x) == 0,
    decreases es.len(),
{
    if es.len() > 0 {
        lemma_net_outflow_zero(es.drop_last(), x);
        assert(es[es.len() - 1].edge.flow == 0);
    }
}

/// The outflow of any node is at most the total capacity of the network.
pub proof fn lemma_net_outflow_le_cap_sum(es: Seq<EdgeRec>, x: char)
    requires
        flows_le_caps(es),
    ensures
        net_outflow(es, x) <= cap_sum(es),
        0 <= cap_sum(es),
    decreases es.len(),
{
    if es.len() > 0 {
        lemma_net_outflow_le_cap_sum(es.drop_last(), x);
        assert(es[es.len() - 1].edge.capacity >= 0 && es[es.len() - 1].edge.flow as int <= es[es.len()
            - 1].edge.capacity as int);
    }
}

/// Two arc lists whose records agree pairwise on capacity have the same
/// total capacity.
pub proof fn lemma_cap_sum_pointwise(es1: Seq<EdgeRec>, es2: Seq<EdgeRec>)
    requires
        es1.len() == es2.len(),
        forall|k: int| 0 <= k < es1.len() ==> #[trigger] es1[k].edge.capacity
            == es2[k].edge.capacity,
    ensures
        cap_sum(es1) == cap_sum(es2),
    decreases es1.len(),
{
    if es1.len() > 0 {
        lemma_cap_sum_pointwise(es1.drop_last(), es2.drop_last());
        assert(es1[es1.len() - 1].edge.capacity == es2[es1.len() - 1].edge.capacity);
    }
}

/// In a mirrored network the flow into a node is the negation of the flow
/// out of it: the two records of each pair cancel.
pub proof fn lemma_net_inflow_neg_outflow(es: Seq<EdgeRec>, x: char)
    requires
        mirrored(es),
    ensures
        net_inflow(es, x) == -net_outflow(es, x),
    decreases es.len(),
{
    if es.len() > 0 {
        let n = es.len() as int;
        let es1 = es.subrange(0, n - 2);
        assert(pair_ok(es, n - 1));
        assert(pair_ok(es, n - 2));
        assert((n - 2) % 2 == 0);
        assert(mirrored(es1)) by {
            assert forall|k: int| 0 <= k < es1.len() implies #[trigger] pair_ok(es1, k) by {
                assert(pair_ok(es, k));
                assert(es1[k] == es[k]);
                if k % 2 == 0 {
                    assert(es1[k + 1] == es[k + 1]);
                } else {
                    assert(es1[k - 1] == es[k - 1]);
                }
            }
        }
        lemma_net_inflow_neg_outflow(es1, x);
        let r = es[n - 2];
        let m = es[n - 1];
        assert(m.from == r.to && m.to == r.from && m.edge.flow as int == -(r.edge.flow as int))
            by {
            assert(pair_ok(es, n - 2));
            assert((n - 2) % 2 == 0);
        }
        assert(es.drop_last() =~= es1.push(r));
        assert(es1.push(r).drop_last() =~= es1);
        assert(es.last() == m);
        assert(es1.push(r).last() == r);
        assert(net_outflow(es, x) == net_outflow(es.drop_last(), x) + (if m.from == x {
            m.edge.flow as int
        } else {
            0
        }));
        assert(net_outflow(es1.push(r), x) == net_outflow(es1, x) + (if r.from == x {
            r.edge.flow as int
        } else {
            0
        }));
        assert(net_inflow(es, x) == net_inflow(es.drop_last(), x) + (if m.to == x {
            m.edge.flow as int
        } else {
            0
        }));
        assert(net_inflow(es1.push(r), x) == net_inflow(es1, x) + (if r.to == x {
            r.edge.flow as int
        } else {
            0
        }));
    }
}

/// The total capacity is non-negative when every capacity is.
pub proof fn lemma_cap_sum_nonneg(es: Seq<EdgeRec>)
    requires
        forall|k: int| 0 <= k < es.len() ==> #[trigger] es[k].edge.capacity >= 0,
    ensures
        cap_sum(es) >= 0,
    decreases es.len(),
{
    if es.len() > 0 {
        lemma_cap_sum_nonneg(es.drop_last());
        assert(es[es.len() - 1].edge.capacity >= 0);
    }
}

/// One capacity never exceeds the total.
pub proof fn lemma_cap_le_sum(es: Seq<EdgeRec>, i: int)
    requires
        forall|k: int| 0 <= k < es.len() ==> #[trigger] es[k].edge.capacity >= 0,
        0 <= i < es.len(),
    ensures
        es[i].edge.capacity <= cap_sum(es),
    decreases es.len(),
{
    if i == es.len() - 1 {
        lemma_cap_sum_nonneg(es.drop_last());
    } else {
        lemma_cap_le_sum(es.drop_last(), i);
        assert(es[es.len() - 1].edge.capacity >= 0);
    }
}

/// Two distinct capacities together never exceed the total.
pub proof fn lemma_pair_caps_le_sum(es: Seq<EdgeRec>, i: int, j: int)
    requires
        forall|k: int| 0 <= k < es.len() ==> #[trigger] es[k].edge.capacity >= 0,
        0 <= i < j < es.len(),
    ensures
        es[i].edge.capacity + es[j].edge.capacity <= cap_sum(es),
    decreases es.len(),
{
    if j == es.len() - 1 {
        lemma_cap_le_sum(es.drop_last(), i);
    } else {
        lemma_pair_caps_le_sum(es.drop_last(), i, j);
        assert(es[es.len() - 1].edge.capacity >= 0);
    }
}

/// In a well-formed network the difference `capacity - flow` of any record
/// fits comfortably in the machine integer, so its magnitude can be taken.
pub proof fn lemma_residual_args_ok(es: Seq<EdgeRec>, k: int)
    requires
        mirrored(es),
        bounded(es),
        cap_sum(es) <= i32::MAX as int,
        0 <= k < es.len(),
    ensures
        es[k].edge.capacity - es[k].edge.flow <= i32::MAX as int,
        -(i32::MAX as int) <= es[k].edge.capacity - es[k].edge.flow,
        es[k].edge.spec_residual() <= i32::MAX as int,
        0 <= es[k].edge.spec_residual(),
{
    assert forall|k2: int| 0 <= k2 < es.len() implies #[trigger] es[k2].edge.capacity >= 0 by {
        assert(edge_ok(es, k2));
    }
    assert(edge_ok(es, k));
    assert(pair_ok(es, k));
    let m = mirror_of(k);
    if k < m {
        lemma_pair_caps_le_sum(es, k, m);
    } else {
        lemma_pair_caps_le_sum(es, m, k);
    }
}

} // verus!
