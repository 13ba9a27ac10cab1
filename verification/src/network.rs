//! The flow network: directed arcs with capacity and signed flow, stored as
//! mirrored pairs, together with the specification-level model of the
//! adjacency structure.

use vstd::prelude::*;

verus! {

/// Why a network operation was rejected.
#[derive(Debug, Clone, Copy, PartialEq, Eq, Structural)]
pub enum FlowError {
    /// A negative capacity was passed to `add_edge`.
    InvalidCapacity,
    /// The two endpoints given to `new` or `add_edge` coincide.
    InvalidEndpoints,
    /// An arc that was never created was looked up.
    MissingEdge,
}

/// One directed arc: the capacity it was created with and the signed flow
/// currently on it. Flow on an auto-created reverse arc goes negative as
/// flow is pushed along its forward twin.
#[derive(Debug, Clone, Copy, PartialEq, Eq, Structural)]
pub struct Edge {
    pub capacity: i32,
    pub flow: i32,
}

impl Edge {
    /// Remaining augmentable capacity: the magnitude of `capacity - flow`.
    pub open spec fn spec_residual(self) -> int {
        if self.capacity - self.flow >= 0 {
            self.capacity - self.flow
        } else {
            -(self.capacity - self.flow)
        }
    }

    /// Residual (augmentable) capacity of this arc, `|capacity - flow|`.
    pub fn residual_flow(&self) -> (r: i32)
        requires
            self.capacity - self.flow <= i32::MAX as int,
            -(i32::MAX as int) <= self.capacity - self.flow,
        ensures
            r as int == self.spec_residual(),
            r >= 0,
    {
        let d = self.capacity - self.flow;
        if d >= 0 {
            d
        } else {
            -d
        }
    }
}

/// One arc together with its endpoints, as stored in the network.
#[derive(Debug, Clone, Copy, PartialEq, Eq, Structural)]
pub struct EdgeRec {
    pub from: char,
    pub to: char,
    pub edge: Edge,
}

/// The index of the mirror twin of the record at index `k`: records are kept
/// in adjacent pairs, a forward arc at an even index and its reverse arc
/// right after it.
pub open spec fn mirror_of(k: int) -> int {
    if k % 2 == 0 {
        k + 1
    } else {
        k - 1
    }
}

/// The record at `k` and its twin connect the same two nodes in opposite
/// directions and carry opposite flows.
pub open spec fn pair_ok(es: Seq<EdgeRec>, k: int) -> bool {
    &&& 0 <= mirror_of(k) < es.len()
    &&& es[mirror_of(k)].from == es[k].to
    &&& es[mirror_of(k)].to == es[k].from
    &&& es[mirror_of(k)].edge.flow as int == -(es[k].edge.flow as int)
}

/// Every record has a mirror twin adjacent to it.
pub open spec fn mirrored(es: Seq<EdgeRec>) -> bool {
    &&& es.len() % 2 == 0
    &&& forall|k: int| 0 <= k < es.len() ==> #[trigger] pair_ok(es, k)
}

/// No two records carry the same ordered pair of endpoints.
pub open spec fn keys_unique(es: Seq<EdgeRec>) -> bool {
    forall|i: int, j: int|
        0 <= i < j < es.len() ==> !(#[trigger] es[i].from == #[trigger] es[j].from && es[i].to
            == es[j].to)
}

/// Capacity is non-negative and flow lies between the negated capacity of
/// the mirror twin and the record's own capacity.
pub open spec fn edge_ok(es: Seq<EdgeRec>, k: int) -> bool {
    &&& es[k].edge.capacity >= 0
    &&& es[k].edge.flow as int <= es[k].edge.capacity as int
    &&& -(es[mirror_of(k)].edge.capacity as int) <= es[k].edge.flow as int
}

/// Every record satisfies the capacity bound.
pub open spec fn bounded(es: Seq<EdgeRec>) -> bool {
    forall|k: int| 0 <= k < es.len() ==> #[trigger] edge_ok(es, k)
}

/// The sum of all capacities in the network.
pub open spec fn cap_sum(es: Seq<EdgeRec>) -> int
    decreases es.len(),
{
    if es.len() == 0 {
        0
    } else {
        cap_sum(es.drop_last()) + es.last().edge.capacity
    }
}

/// Some record carries the arc `u -> v`.
pub open spec fn has_edge(es: Seq<EdgeRec>, u: char, v: char) -> bool {
    exists|i: int| 0 <= i < es.len() && #[trigger] es[i].from == u && es[i].to == v
}

/// The index of the record carrying the arc `u -> v`; meaningful only when
/// `has_edge` holds (the keys are unique).
pub open spec fn arc_index(es: Seq<EdgeRec>, u: char, v: char) -> int {
    choose|i: int| 0 <= i < es.len() && #[trigger] es[i].from == u && es[i].to == v
}

/// The arc `u -> v`; meaningful only when `has_edge` holds.
pub open spec fn arc(es: Seq<EdgeRec>, u: char, v: char) -> Edge {
    es[arc_index(es, u, v)].edge
}

/// The capacity of the arc `u -> v`.
pub open spec fn cap_at(es: Seq<EdgeRec>, u: char, v: char) -> int {
    arc(es, u, v).capacity as int
}

/// The signed flow on the arc `u -> v`.
pub open spec fn flow_at(es: Seq<EdgeRec>, u: char, v: char) -> int {
    arc(es, u, v).flow as int
}

/// The residual capacity of the arc `u -> v`.
pub open spec fn residual_at(es: Seq<EdgeRec>, u: char, v: char) -> int {
    arc(es, u, v).spec_residual()
}

/// Every flow in the network is zero, as right after construction.
pub open spec fn all_flows_zero(es: Seq<EdgeRec>) -> bool {
    forall|k: int| 0 <= k < es.len() ==> #[trigger] es[k].edge.flow == 0
}

/// The flow network: a designated source and sink and the owned set of
/// arcs, kept as mirrored pairs.
#[derive(Debug)]
pub struct FordFulkerson {
    pub start: char,
    pub sink: char,
    pub edges: Vec<EdgeRec>,
}

impl FordFulkerson {
    /// Well-formedness: distinct endpoints, arcs in mirrored pairs with
    /// opposite flows, unique keys, flows within the capacity bounds, and a
    /// total capacity small enough that no flow figure can overflow.
    pub open spec fn wf(self) -> bool {
        &&& self.start != self.sink
        &&& mirrored(self.edges@)
        &&& keys_unique(self.edges@)
        &&& bounded(self.edges@)
        &&& cap_sum(self.edges@) <= i32::MAX as int
    }

    /// An empty network between the two given endpoints; rejected when they
    /// coincide.
    pub fn new(start: char, sink: char) -> (r: Result<FordFulkerson, FlowError>)
        ensures
            start == sink ==> r == Err::<FordFulkerson, FlowError>(FlowError::InvalidEndpoints),
            start != sink ==> {
                &&& r is Ok
                &&& r->Ok_0.start == start
                &&& r->Ok_0.sink == sink
                &&& r->Ok_0.edges@.len() == 0
                &&& r->Ok_0.wf()
                &&& all_flows_zero(r->Ok_0.edges@)
                &&& cap_sum(r->Ok_0.edges@) == 0
            },
    {
        if start == sink {
            Err(FlowError::InvalidEndpoints)
        } else {
            Ok(FordFulkerson { start, sink, edges: Vec::new() })
        }
    }

    /// The index of the record carrying `u -> v`, scanning the arc list.
    pub(crate) fn find_edge_index(&self, u: char, v: char) -> (r: Option<usize>)
        ensures
            match r {
                Some(i) => i < self.edges@.len() && self.edges@[i as int].from == u
                    && self.edges@[i as int].to == v,
                None => !has_edge(self.edges@, u, v),
            },
    {
        let n = self.edges.len();
        for k in 0..n
            invariant
                n == self.edges@.len(),
                forall|j: int| 0 <= j < k ==> !(#[trigger] self.edges@[j].from == u
                    && self.edges@[j].to == v),
        {
            if self.edges[k].from == u && self.edges[k].to == v {
                return Some(k);
            }
        }
        None
    }

    /// A copy of the arc `from -> to`, or `None` when no such arc exists.
    pub fn get_edge(&self, from: char, to: char) -> (r: Option<Edge>)
        requires
            keys_unique(self.edges@),
        ensures
            r is Some <==> has_edge(self.edges@, from, to),
            r is Some ==> r->0 == arc(self.edges@, from, to),
    {
        match self.find_edge_index(from, to) {
            Some(i) => {
                proof {
                    lemma_arc_at(self.edges@, i as int, from, to);
                }
                Some(self.edges[i].edge)
            },
            None => None,
        }
    }

    /// Inserts or overwrites the forward arc `from -> to` with the given
    /// capacity and zero flow, and unconditionally resets the mirrored
    /// reverse arc `to -> from` to capacity zero and zero flow. Only
    /// non-negative capacities between distinct nodes are accepted, and
    /// construction must finish before any flow is pushed: overwriting an
    /// arc discards whatever flow it carried.
    pub fn add_edge(&mut self, from: char, to: char, capacity: i32) -> (r: Result<(), FlowError>)
        requires
            old(self).wf(),
            cap_sum(old(self).edges@) + capacity <= i32::MAX as int,
        ensures
            final(self).start == old(self).start,
            final(self).sink == old(self).sink,
            final(self).wf(),
            capacity < 0 ==> r == Err::<(), FlowError>(FlowError::InvalidCapacity) && *final(self)
                == *old(self),
            capacity >= 0 && from == to ==> r == Err::<(), FlowError>(FlowError::InvalidEndpoints)
                && *final(self) == *old(self),
            capacity >= 0 && from != to ==> {
                &&& r == Ok::<(), FlowError>(())
                &&& has_edge(final(self).edges@, from, to)
                &&& has_edge(final(self).edges@, to, from)
                &&& cap_at(final(self).edges@, from, to) == capacity as int
                &&& flow_at(final(self).edges@, from, to) == 0
                &&& cap_at(final(self).edges@, to, from) == 0
                &&& flow_at(final(self).edges@, to, from) == 0
                &&& forall|x: char, y: char|
                    !(x == from && y == to) && !(x == to && y == from) ==> (#[trigger] has_edge(
                        final(self).edges@,
                        x,
                        y,
                    ) <==> has_edge(old(self).edges@, x, y))
                &&& forall|x: char, y: char|
                    !(x == from && y == to) && !(x == to && y == from) && has_edge(
                        old(self).edges@,
                        x,
                        y,
                    ) ==> #[trigger] arc(final(self).edges@, x, y) == arc(old(self).edges@, x, y)
                &&& cap_sum(final(self).edges@) <= cap_sum(old(self).edges@) + capacity
                &&& all_flows_zero(old(self).edges@) ==> all_flows_zero(final(self).edges@)
            },
    {
        if capacity < 0 {
            return Err(FlowError::InvalidCapacity);
        }
        if from == to {
            return Err(FlowError::InvalidEndpoints);
        }
        let fwd = EdgeRec { from, to, edge: Edge { capacity, flow: 0 } };
        let rev = EdgeRec { from: to, to: from, edge: Edge { capacity: 0, flow: 0 } };
        match self.find_edge_index(from, to) {
            Some(i) => {
                proof {
                    lemma_arc_at(self.edges@, i as int, from, to);
                    assert(pair_ok(self.edges@, i as int));
                }
                let j = if i % 2 == 0 {
                    i + 1
                } else {
                    i - 1
                };
                proof {
                    lemma_update_pair(self.edges@, i as int, fwd, rev, capacity as int);
                }
                self.edges.set(i, fwd);
                self.edges.set(j, rev);
                Ok(())
            },
            None => {
                proof {
                    lemma_mirror_has_edge(self.edges@, to, from);
                    lemma_push_pair(self.edges@, fwd, rev, capacity as int);
                }
                self.edges.push(fwd);
                self.edges.push(rev);
                Ok(())
            },
        }
    }
}

/// A record whose key is `(u, v)` sits exactly at `arc_index(es, u, v)` when
/// keys are unique, so the arc it carries is `arc(es, u, v)`.
pub proof fn lemma_arc_at(es: Seq<EdgeRec>, i: int, u: char, v: char)
    requires
        keys_unique(es),
        0 <= i < es.len(),
        es[i].from == u,
        es[i].to == v,
    ensures
        has_edge(es, u, v),
        arc_index(es, u, v) == i,
        arc(es, u, v) == es[i].edge,
        cap_at(es, u, v) == es[i].edge.capacity as int,
        flow_at(es, u, v) == es[i].edge.flow as int,
        residual_at(es, u, v) == es[i].edge.spec_residual(),
{
    assert(has_edge(es, u, v));
    let j = arc_index(es, u, v);
    assert(0 <= j < es.len() && es[j].from == u && es[j].to == v);
    if i != j {
        assert(false);
    }
}

/// In a mirrored network an arc exists exactly when its reverse does.
pub proof fn lemma_mirror_has_edge(es: Seq<EdgeRec>, u: char, v: char)
    requires
        mirrored(es),
    ensures
        has_edge(es, u, v) <==> has_edge(es, v, u),
{
    if has_edge(es, u, v) {
        let i = choose|i: int| 0 <= i < es.len() && #[trigger] es[i].from == u && es[i].to == v;
        assert(pair_ok(es, i));
        assert(es[mirror_of(i)].from == v && es[mirror_of(i)].to == u);
    }
    if has_edge(es, v, u) {
        let i = choose|i: int| 0 <= i < es.len() && #[trigger] es[i].from == v && es[i].to == u;
        assert(pair_ok(es, i));
        assert(es[mirror_of(i)].from == u && es[mirror_of(i)].to == v);
    }
}

/// Updating one record to another with the same endpoint key leaves
/// `cap_sum` changed by exactly the capacity difference.
pub proof fn lemma_cap_sum_update(es: Seq<EdgeRec>, k: int, r: EdgeRec)
    requires
        0 <= k < es.len(),
    ensures
        cap_sum(es.update(k, r)) == cap_sum(es) - es[k].edge.capacity + r.edge.capacity,
    decreases es.len(),
{
    let es2 = es.update(k, r);
    if k == es.len() - 1 {
        assert(es2.drop_last() =~= es.drop_last());
        assert(es2.last() == r);
    } else {
        assert(es2.drop_last() =~= es.drop_last().update(k, r));
        lemma_cap_sum_update(es.drop_last(), k, r);
        assert(es2.last() == es.last());
    }
}

/// Appending a record adds its capacity to `cap_sum`.
pub proof fn lemma_cap_sum_push(es: Seq<EdgeRec>, r: EdgeRec)
    ensures
        cap_sum(es.push(r)) == cap_sum(es) + r.edge.capacity,
{
    assert(es.push(r).drop_last() =~= es);
    assert(es.push(r).last() == r);
}

/// Overwriting a mirrored pair in place with a fresh forward arc and its
/// zeroed reverse twin preserves well-formedness and the key-level shape of
/// every other arc.
proof fn lemma_update_pair(es: Seq<EdgeRec>, i: int, fwd: EdgeRec, rev: EdgeRec, capacity: int)
    requires
        mirrored(es),
        keys_unique(es),
        bounded(es),
        0 <= i < es.len(),
        es[i].from == fwd.from,
        es[i].to == fwd.to,
        fwd.from != fwd.to,
        rev.from == fwd.to,
        rev.to == fwd.from,
        fwd.edge.capacity as int == capacity,
        0 <= capacity,
        fwd.edge.flow == 0,
        rev.edge.capacity == 0,
        rev.edge.flow == 0,
        cap_sum(es) + capacity <= i32::MAX as int,
    ensures
        ({
            let es2 = es.update(i, fwd).update(mirror_of(i), rev);
            &&& mirrored(es2)
            &&& keys_unique(es2)
            &&& bounded(es2)
            &&& cap_sum(es2) <= cap_sum(es) + capacity
            &&& has_edge(es2, fwd.from, fwd.to)
            &&& has_edge(es2, fwd.to, fwd.from)
            &&& cap_at(es2, fwd.from, fwd.to) == capacity
            &&& flow_at(es2, fwd.from, fwd.to) == 0
            &&& cap_at(es2, fwd.to, fwd.from) == 0
            &&& flow_at(es2, fwd.to, fwd.from) == 0
            &&& forall|x: char, y: char|
                !(x == fwd.from && y == fwd.to) && !(x == fwd.to && y == fwd.from) ==> (
                #[trigger] has_edge(es2, x, y) <==> has_edge(es, x, y))
            &&& forall|x: char, y: char|
                !(x == fwd.from && y == fwd.to) && !(x == fwd.to && y == fwd.from) && has_edge(
                    es,
                    x,
                    y,
                ) ==> #[trigger] arc(es2, x, y) == arc(es, x, y)
            &&& all_flows_zero(es) ==> all_flows_zero(es2)
        }),
{
    let j = mirror_of(i);
    assert(pair_ok(es, i));
    assert(es[j].from == fwd.to && es[j].to == fwd.from);
    let es2 = es.update(i, fwd).update(j, rev);
    assert(es2.len() == es.len());
    assert(i != j);
    assert forall|k: int| 0 <= k < es2.len() && k != i && k != j implies es2[k] == es[k] by {}
    assert(es2[i] == fwd);
    assert(es2[j] == rev);
    // The endpoint keys of every record are unchanged.
    assert forall|k: int| 0 <= k < es2.len() implies #[trigger] es2[k].from == es[k].from
        && es2[k].to == es[k].to by {}
    assert forall|k: int| 0 <= k < es2.len() implies #[trigger] pair_ok(es2, k) by {
        assert(pair_ok(es, k));
        if k == i || k == j {
        } else {
            assert(mirror_of(k) != i && mirror_of(k) != j);
        }
    }
    assert forall|k: int| 0 <= k < es2.len() implies #[trigger] edge_ok(es2, k) by {
        assert(edge_ok(es, k));
        if k == i || k == j {
        } else if mirror_of(k) == i || mirror_of(k) == j {
            assert(k == mirror_of(mirror_of(k)));
            assert(false);
        }
    }
    lemma_cap_sum_update(es, i, fwd);
    lemma_cap_sum_update(es.update(i, fwd), j, rev);
    assert(es[j].edge.capacity >= 0) by {
        assert(edge_ok(es, j));
    }
    assert(es[i].edge.capacity >= 0) by {
        assert(edge_ok(es, i));
    }
    assert((es.update(i, fwd))[j] == es[j]);
    if all_flows_zero(es) {
        assert forall|k: int| 0 <= k < es2.len() implies #[trigger] es2[k].edge.flow == 0 by {
            if k != i && k != j {
                assert(es[k].edge.flow == 0);
            }
        }
    }
    lemma_arc_at(es2, i, fwd.from, fwd.to);
    lemma_arc_at(es2, j, fwd.to, fwd.from);
    assert forall|x: char, y: char|
        !(x == fwd.from && y == fwd.to) && !(x == fwd.to && y == fwd.from) implies (
    #[trigger] has_edge(es2, x, y) <==> has_edge(es, x, y)) by {
        if has_edge(es2, x, y) {
            let k = choose|k: int| 0 <= k < es2.len() && #[trigger] es2[k].from == x && es2[k].to
                == y;
            assert(es[k].from == x && es[k].to == y);
        }
        if has_edge(es, x, y) {
            let k = choose|k: int| 0 <= k < es.len() && #[trigger] es[k].from == x && es[k].to
                == y;
            assert(es2[k].from == x && es2[k].to == y);
        }
    }
    assert forall|x: char, y: char|
        !(x == fwd.from && y == fwd.to) && !(x == fwd.to && y == fwd.from) && has_edge(
            es,
            x,
            y,
        ) implies #[trigger] arc(es2, x, y) == arc(es, x, y) by {
        let k = choose|k: int| 0 <= k < es.len() && #[trigger] es[k].from == x && es[k].to == y;
        assert(k != i && k != j);
        lemma_arc_at(es, k, x, y);
        lemma_arc_at(es2, k, x, y);
    }
}

/// Appending a fresh forward arc and its zeroed reverse twin preserves
/// well-formedness and the key-level shape of every existing arc.
proof fn lemma_push_pair(es: Seq<EdgeRec>, fwd: EdgeRec, rev: EdgeRec, capacity: int)
    requires
        mirrored(es),
        keys_unique(es),
        bounded(es),
        !has_edge(es, fwd.from, fwd.to),
        !has_edge(es, fwd.to, fwd.from),
        fwd.from != fwd.to,
        rev.from == fwd.to,
        rev.to == fwd.from,
        fwd.edge.capacity as int == capacity,
        0 <= capacity,
        fwd.edge.flow == 0,
        rev.edge.capacity == 0,
        rev.edge.flow == 0,
        cap_sum(es) + capacity <= i32::MAX as int,
    ensures
        ({
            let es2 = es.push(fwd).push(rev);
            &&& mirrored(es2)
            &&& keys_unique(es2)
            &&& bounded(es2)
            &&& cap_sum(es2) <= cap_sum(es) + capacity
            &&& has_edge(es2, fwd.from, fwd.to)
            &&& has_edge(es2, fwd.to, fwd.from)
            &&& cap_at(es2, fwd.from, fwd.to) == capacity
            &&& flow_at(es2, fwd.from, fwd.to) == 0
            &&& cap_at(es2, fwd.to, fwd.from) == 0
            &&& flow_at(es2, fwd.to, fwd.from) == 0
            &&& forall|x: char, y: char|
                !(x == fwd.from && y == fwd.to) && !(x == fwd.to && y == fwd.from) ==> (
                #[trigger] has_edge(es2, x, y) <==> has_edge(es, x, y))
            &&& forall|x: char, y: char|
                !(x == fwd.from && y == fwd.to) && !(x == fwd.to && y == fwd.from) && has_edge(
                    es,
                    x,
                    y,
                ) ==> #[trigger] arc(es2, x, y) == arc(es, x, y)
            &&& all_flows_zero(es) ==> all_flows_zero(es2)
        }),
{
    let n = es.len() as int;
    let es2 = es.push(fwd).push(rev);
    assert(es2.len() == n + 2);
    assert forall|k: int| 0 <= k < n implies es2[k] == es[k] by {}
    assert(es2[n] == fwd);
    assert(es2[n + 1] == rev);
    assert(n % 2 == 0);
    assert forall|k: int| 0 <= k < es2.len() implies #[trigger] pair_ok(es2, k) by {
        if k < n {
            assert(pair_ok(es, k));
            assert(mirror_of(k) < n);
        } else if k == n {
            assert(mirror_of(k) == n + 1);
        } else {
            assert(k == n + 1);
            assert((n + 1) % 2 == 1);
            assert(mirror_of(k) == n);
        }
    }
    assert(keys_unique(es2)) by {
        assert forall|i: int, j: int| 0 <= i < j < es2.len() implies !(#[trigger] es2[i].from
            == #[trigger] es2[j].from && es2[i].to == es2[j].to) by {
            if j < n {
            } else if j == n {
                if i < n && es2[i].from == fwd.from && es2[i].to == fwd.to {
                    assert(has_edge(es, fwd.from, fwd.to));
                }
            } else {
                if i < n && es2[i].from == rev.from && es2[i].to == rev.to {
                    assert(has_edge(es, fwd.to, fwd.from));
                }
            }
        }
    }
    assert forall|k: int| 0 <= k < es2.len() implies #[trigger] edge_ok(es2, k) by {
        if k < n {
            assert(edge_ok(es, k));
            assert(pair_ok(es, k));
            assert(mirror_of(k) < n);
        } else if k == n {
            assert(mirror_of(k) == n + 1);
        } else {
            assert((n + 1) % 2 == 1);
            assert(mirror_of(k) == n);
        }
    }
    lemma_cap_sum_push(es, fwd);
    lemma_cap_sum_push(es.push(fwd), rev);
    lemma_arc_at(es2, n, fwd.from, fwd.to);
    lemma_arc_at(es2, n + 1, fwd.to, fwd.from);
    assert forall|x: char, y: char|
        !(x == fwd.from && y == fwd.to) && !(x == fwd.to && y == fwd.from) implies (
    #[trigger] has_edge(es2, x, y) <==> has_edge(es, x, y)) by {
        if has_edge(es2, x, y) {
            let k = choose|k: int| 0 <= k < es2.len() && #[trigger] es2[k].from == x && es2[k].to
                == y;
            assert(k < n);
            assert(es[k].from == x && es[k].to == y);
        }
        if has_edge(es, x, y) {
            let k = choose|k: int| 0 <= k < es.len() && #[trigger] es[k].from == x && es[k].to
                == y;
            assert(es2[k].from == x && es2[k].to == y);
        }
    }
    assert forall|x: char, y: char|
        !(x == fwd.from && y == fwd.to) && !(x == fwd.to && y == fwd.from) && has_edge(
            es,
            x,
            y,
        ) implies #[trigger] arc(es2, x, y) == arc(es, x, y) by {
        let k = choose|k: int| 0 <= k < es.len() && #[trigger] es[k].from == x && es[k].to == y;
        lemma_arc_at(es, k, x, y);
        lemma_arc_at(es2, k, x, y);
    }
}

} // verus!
