//! The guarantees of the flow engine, stated on their own: conservation at
//! interior nodes, the capacity bound, the cancellation of mirrored arcs,
//! and the cut that certifies a finished computation.

use vstd::prelude::*;

use crate::lemmas::{lemma_net_inflow_neg_outflow, net_inflow, net_outflow};
use crate::network::{
    arc_index, cap_at, edge_ok, flow_at, has_edge, lemma_arc_at, mirror_of, pair_ok, EdgeRec,
    FordFulkerson,
};
use crate::search::{
    node_closed, search_closed, step_ok, tb_entry_ok, tb_has, tb_nodup, tb_sound, visited,
    PredEntry,
};

verus! {

/// Flow conservation: at every node other than the source and the sink, the
/// signed flow entering over incoming arcs equals the signed flow leaving
/// over outgoing arcs, and both are zero.
pub proof fn lemma_flow_conservation(f: FordFulkerson, x: char)
    requires
        f.wf(),
        f.conserves(),
        x != f.start,
        x != f.sink,
    ensures
        net_inflow(f.edges@, x) == net_outflow(f.edges@, x),
        net_outflow(f.edges@, x) == 0,
{
    assert(net_outflow(f.edges@, x) == 0);
    lemma_net_inflow_neg_outflow(f.edges@, x);
}

/// A network whose flows are all zero, as right after construction, is
/// conserved everywhere and its source has no outflow yet: it is ready for
/// the computation.
pub proof fn lemma_fresh_network_ready(f: FordFulkerson)
    requires
        crate::network::all_flows_zero(f.edges@),
    ensures
        f.conserves(),
        net_outflow(f.edges@, f.start) == 0,
{
    assert forall|x: char|
        x != f.start && x != f.sink implies #[trigger] net_outflow(f.edges@, x) == 0 by {
        crate::lemmas::lemma_net_outflow_zero(f.edges@, x);
    }
    crate::lemmas::lemma_net_outflow_zero(f.edges@, f.start);
}

/// Capacity bound: the flow on any arc never exceeds its capacity and never
/// drops below the negated capacity of its mirror; in particular the flow
/// on an originally added forward arc, whose mirror has capacity zero, lies
/// between zero and the arc's capacity.
pub proof fn lemma_capacity_bound(f: FordFulkerson, u: char, v: char)
    requires
        f.wf(),
        has_edge(f.edges@, u, v),
    ensures
        has_edge(f.edges@, v, u),
        0 <= cap_at(f.edges@, u, v),
        flow_at(f.edges@, u, v) <= cap_at(f.edges@, u, v),
        -cap_at(f.edges@, v, u) <= flow_at(f.edges@, u, v),
        cap_at(f.edges@, v, u) == 0 ==> 0 <= flow_at(f.edges@, u, v),
{
    let es = f.edges@;
    let i = arc_index(es, u, v);
    assert(0 <= i < es.len() && es[i].from == u && es[i].to == v);
    assert(edge_ok(es, i));
    assert(pair_ok(es, i));
    lemma_arc_at(es, i, u, v);
    lemma_arc_at(es, mirror_of(i), v, u);
}

/// Cancellation: every arc has a mirrored reverse arc and the two carry
/// opposite flows at all times.
pub proof fn lemma_cancellation(f: FordFulkerson, u: char, v: char)
    requires
        f.wf(),
        has_edge(f.edges@, u, v),
    ensures
        has_edge(f.edges@, v, u),
        flow_at(f.edges@, u, v) == -flow_at(f.edges@, v, u),
{
    let es = f.edges@;
    let i = arc_index(es, u, v);
    assert(0 <= i < es.len() && es[i].from == u && es[i].to == v);
    assert(pair_ok(es, i));
    lemma_arc_at(es, i, u, v);
    lemma_arc_at(es, mirror_of(i), v, u);
}

/// The signed flow crossing the cut: the sum of `flow` over arcs whose tail
/// the search reached and whose head it did not.
pub open spec fn cut_flow(es: Seq<EdgeRec>, t: Seq<PredEntry>, root: char) -> int
    decreases es.len(),
{
    if es.len() == 0 {
        0
    } else {
        cut_flow(es.drop_last(), t, root) + if visited(t, root, es.last().from) && !visited(
            t,
            root,
            es.last().to,
        ) {
            es.last().edge.flow as int
        } else {
            0
        }
    }
}

/// The capacity of the cut: the sum of `capacity` over arcs whose tail the
/// search reached and whose head it did not.
pub open spec fn cut_capacity(es: Seq<EdgeRec>, t: Seq<PredEntry>, root: char) -> int
    decreases es.len(),
{
    if es.len() == 0 {
        0
    } else {
        cut_capacity(es.drop_last(), t, root) + if visited(t, root, es.last().from) && !visited(
            t,
            root,
            es.last().to,
        ) {
            es.last().edge.capacity as int
        } else {
            0
        }
    }
}

/// The sum of `flow` over arcs whose tail the search reached.
spec fn from_in_sum(es: Seq<EdgeRec>, t: Seq<PredEntry>, root: char) -> int
    decreases es.len(),
{
    if es.len() == 0 {
        0
    } else {
        from_in_sum(es.drop_last(), t, root) + if visited(t, root, es.last().from) {
            es.last().edge.flow as int
        } else {
            0
        }
    }
}

/// The sum of `flow` over arcs with both endpoints reached.
spec fn internal_sum(es: Seq<EdgeRec>, t: Seq<PredEntry>, root: char) -> int
    decreases es.len(),
{
    if es.len() == 0 {
        0
    } else {
        internal_sum(es.drop_last(), t, root) + if visited(t, root, es.last().from) && visited(
            t,
            root,
            es.last().to,
        ) {
            es.last().edge.flow as int
        } else {
            0
        }
    }
}

/// The sum of the outflows of the recorded nodes.
spec fn tb_outflow_sum(es: Seq<EdgeRec>, t: Seq<PredEntry>) -> int
    decreases t.len(),
{
    if t.len() == 0 {
        0
    } else {
        tb_outflow_sum(es, t.drop_last()) + net_outflow(es, t.last().node)
    }
}

proof fn lemma_tb_sum_empty(es: Seq<EdgeRec>, t: Seq<PredEntry>)
    requires
        es.len() == 0,
    ensures
        tb_outflow_sum(es, t) == 0,
    decreases t.len(),
{
    if t.len() > 0 {
        lemma_tb_sum_empty(es, t.drop_last());
    }
}

/// Dropping the last record takes exactly its contribution out of the
/// summed node outflows.
proof fn lemma_peel_record(es: Seq<EdgeRec>, t: Seq<PredEntry>)
    requires
        tb_nodup(t),
        es.len() > 0,
    ensures
        tb_outflow_sum(es, t) == tb_outflow_sum(es.drop_last(), t) + if tb_has(t, es.last().from) {
            es.last().edge.flow as int
        } else {
            0
        },
    decreases t.len(),
{
    let r = es.last();
    if t.len() == 0 {
        assert(!tb_has(t, r.from));
    } else {
        lemma_peel_record(es, t.drop_last());
        let x = t.last().node;
        if r.from == x {
            assert(!tb_has(t.drop_last(), r.from)) by {
                if tb_has(t.drop_last(), r.from) {
                    let j = choose|j: int|
                        0 <= j < t.drop_last().len() && #[trigger] t.drop_last()[j].node == r.from;
                    assert(t[j].node == t[t.len() - 1].node);
                    assert(false);
                }
            }
            assert(t[t.len() - 1].node == r.from);
            assert(tb_has(t, r.from));
        } else {
            assert(tb_has(t, r.from) == tb_has(t.drop_last(), r.from)) by {
                if tb_has(t, r.from) {
                    let j = choose|j: int| 0 <= j < t.len() && #[trigger] t[j].node == r.from;
                    assert(j < t.len() - 1);
                    assert(t.drop_last()[j].node == r.from);
                }
                if tb_has(t.drop_last(), r.from) {
                    let j = choose|j: int|
                        0 <= j < t.drop_last().len() && #[trigger] t.drop_last()[j].node == r.from;
                    assert(t[j].node == r.from);
                }
            }
        }
    }
}

/// Summing flow per arc whose tail is reached equals summing the outflow of
/// every reached node: each record is counted once either way.
proof fn lemma_exchange(es: Seq<EdgeRec>, t: Seq<PredEntry>, root: char)
    requires
        tb_nodup(t),
        !tb_has(t, root),
    ensures
        from_in_sum(es, t, root) == net_outflow(es, root) + tb_outflow_sum(es, t),
    decreases es.len(),
{
    if es.len() == 0 {
        lemma_tb_sum_empty(es, t);
    } else {
        lemma_exchange(es.drop_last(), t, root);
        lemma_peel_record(es, t);
        let r = es.last();
        if r.from == root {
            assert(!tb_has(t, r.from));
        }
    }
}

proof fn lemma_split(es: Seq<EdgeRec>, t: Seq<PredEntry>, root: char)
    ensures
        from_in_sum(es, t, root) == cut_flow(es, t, root) + internal_sum(es, t, root),
    decreases es.len(),
{
    if es.len() > 0 {
        lemma_split(es.drop_last(), t, root);
    }
}

/// Arcs with both endpoints reached cancel pair by pair: their summed flow
/// is zero.
proof fn lemma_internal_zero(es: Seq<EdgeRec>, t: Seq<PredEntry>, root: char)
    requires
        crate::network::mirrored(es),
    ensures
        internal_sum(es, t, root) == 0,
    decreases es.len(),
{
    if es.len() > 0 {
        let n = es.len() as int;
        let es1 = es.subrange(0, n - 2);
        assert(pair_ok(es, n - 1));
        assert(pair_ok(es, n - 2));
        assert((n - 2) % 2 == 0);
        assert(crate::network::mirrored(es1)) by {
            assert forall|k: int| 0 <= k < es1.len() implies #[trigger] pair_ok(es1, k) by {
                assert(pair_ok(es, k));
                assert(es1[k] == es[k]);
                if k % 2 == 0 {
                    assert(es1[k + 1] == es[k + 1]);
                } else {
                    assert(es1[k - 1] == es[k - 1]);
                }
            }
        }
        lemma_internal_zero(es1, t, root);
        let r = es[n - 2];
        let m = es[n - 1];
        assert(m.from == r.to && m.to == r.from && m.edge.flow as int == -(r.edge.flow as int));
        assert(es.drop_last() =~= es1.push(r));
        assert(es1.push(r).drop_last() =~= es1);
        assert(es.last() == m);
        assert(es1.push(r).last() == r);
        assert(internal_sum(es, t, root) == internal_sum(es.drop_last(), t, root) + (if visited(
            t,
            root,
            m.from,
        ) && visited(t, root, m.to) {
            m.edge.flow as int
        } else {
            0
        }));
        assert(internal_sum(es1.push(r), t, root) == internal_sum(es1, t, root) + (if visited(
            t,
            root,
            r.from,
        ) && visited(t, root, r.to) {
            r.edge.flow as int
        } else {
            0
        }));
    }
}

/// When every crossing arc is saturated the two cut sums coincide.
proof fn lemma_cut_sums_equal(es: Seq<EdgeRec>, t: Seq<PredEntry>, root: char)
    requires
        forall|k: int|
            0 <= k < es.len() && visited(t, root, #[trigger] es[k].from) && !visited(
                t,
                root,
                es[k].to,
            ) ==> es[k].edge.flow as int == es[k].edge.capacity as int,
    ensures
        cut_flow(es, t, root) == cut_capacity(es, t, root),
    decreases es.len(),
{
    if es.len() > 0 {
        lemma_cut_sums_equal(es.drop_last(), t, root);
        assert(es[es.len() - 1] == es.last());
    }
}

/// Max-flow/min-cut duality: after an exhaustive search that did not reach
/// the sink, the net outflow of the source equals the capacity of the cut
/// between the reached nodes and the rest. The reached side holds the
/// source and not the sink, so the accumulated total is certified maximal.
pub proof fn lemma_min_cut(f: FordFulkerson, t: Seq<PredEntry>)
    requires
        f.wf(),
        f.conserves(),
        tb_sound(f.edges@, t, f.start),
        tb_nodup(t),
        search_closed(f.edges@, t, f.start),
        !tb_has(t, f.sink),
    ensures
        visited(t, f.start, f.start),
        !visited(t, f.start, f.sink),
        net_outflow(f.edges@, f.start) == cut_capacity(f.edges@, t, f.start),
{
    let es = f.edges@;
    let root = f.start;
    assert(!tb_has(t, root)) by {
        if tb_has(t, root) {
            let i = choose|i: int| 0 <= i < t.len() && #[trigger] t[i].node == root;
            assert(tb_entry_ok(es, t, root, i));
            assert(false);
        }
    }
    lemma_exchange(es, t, root);
    assert(tb_outflow_sum(es, t) == 0) by {
        lemma_tb_conserved(f, t, t.len() as int);
        assert(t.subrange(0, t.len() as int) =~= t);
    }
    lemma_split(es, t, root);
    lemma_internal_zero(es, t, root);
    assert forall|k: int|
        0 <= k < es.len() && visited(t, root, #[trigger] es[k].from) && !visited(
            t,
            root,
            es[k].to,
        ) implies es[k].edge.flow as int == es[k].edge.capacity as int by {
        let u = es[k].from;
        let v = es[k].to;
        assert(node_closed(es, t, root, u));
        lemma_arc_at(es, k, u, v);
        if es[k].edge.spec_residual() > 0 {
            assert(step_ok(es, u, v));
            assert(visited(t, root, v));
            assert(false);
        }
        assert(edge_ok(es, k));
    }
    lemma_cut_sums_equal(es, t, root);
}

/// Every recorded node lies strictly inside the network (it is neither the
/// source nor the sink), so conservation zeroes the whole sum.
proof fn lemma_tb_conserved(f: FordFulkerson, t: Seq<PredEntry>, k: int)
    requires
        f.wf(),
        f.conserves(),
        tb_sound(f.edges@, t, f.start),
        !tb_has(t, f.sink),
        0 <= k <= t.len(),
    ensures
        tb_outflow_sum(f.edges@, t.subrange(0, k)) == 0,
    decreases k,
{
    if k > 0 {
        lemma_tb_conserved(f, t, k - 1);
        let s = t.subrange(0, k);
        assert(s.drop_last() =~= t.subrange(0, k - 1));
        let x = s.last().node;
        assert(t[k - 1].node == x);
        assert(tb_entry_ok(f.edges@, t, f.start, k - 1));
        assert(x != f.start);
        assert(x != f.sink) by {
            if x == f.sink {
                assert(tb_has(t, f.sink));
            }
        }
        assert(net_outflow(f.edges@, x) == 0);
    } else {
        assert(t.subrange(0, 0) =~= Seq::<PredEntry>::empty());
    }
}

} // verus!
