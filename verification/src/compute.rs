//! Bottleneck computation, flow application along a path, and the
//! orchestration loop that augments until no path remains.

use vstd::prelude::*;

use vstd::pervasive::unreached;

use crate::lemmas::{
    lemma_cap_le_sum, lemma_cap_sum_pointwise, lemma_net_outflow_le_cap_sum,
    lemma_net_outflow_update, net_outflow,
};
use crate::network::{
    arc, arc_index, cap_at, cap_sum, edge_ok, flow_at, has_edge, lemma_arc_at,
    mirror_of, pair_ok, residual_at, Edge, EdgeRec, FlowError, FordFulkerson,
};
use crate::laws::{cut_capacity, lemma_min_cut};
use crate::search::{
    closed_cut_exists, reachable, search_closed, step_ok, tb_has, tb_nodup, tb_sound, visited,
    PredEntry,
};

verus! {

/// Every consecutive pair of `full` is joined by an arc of the network.
pub open spec fn path_edges_exist(es: Seq<EdgeRec>, full: Seq<char>) -> bool {
    forall|i: int| 0 <= i && i + 1 < full.len() ==> has_edge(es, #[trigger] full[i], full[i + 1])
}

/// The minimum residual capacity over the first `k` steps of `full`,
/// starting from the unbounded sentinel.
pub open spec fn min_residual_upto(es: Seq<EdgeRec>, full: Seq<char>, k: int) -> int
    decreases k,
{
    if k <= 0 {
        i32::MAX as int
    } else {
        let prev = min_residual_upto(es, full, k - 1);
        let cur = residual_at(es, full[k - 1], full[k]);
        if cur < prev {
            cur
        } else {
            prev
        }
    }
}

/// The arc `x -> y` exists in one network exactly when it exists in the
/// other, with the same capacity.
pub open spec fn shape_at(es1: Seq<EdgeRec>, es2: Seq<EdgeRec>, x: char, y: char) -> bool {
    &&& (has_edge(es2, x, y) <==> has_edge(es1, x, y))
    &&& (has_edge(es1, x, y) ==> cap_at(es2, x, y) == cap_at(es1, x, y))
}

/// The two networks have the same arcs with the same capacities; only flows
/// may differ.
pub open spec fn same_shape(es1: Seq<EdgeRec>, es2: Seq<EdgeRec>) -> bool {
    forall|x: char, y: char| #[trigger] shape_at(es1, es2, x, y)
}

/// Shape agreement is transitive.
pub proof fn lemma_same_shape_trans(a: Seq<EdgeRec>, b: Seq<EdgeRec>, c: Seq<EdgeRec>)
    requires
        same_shape(a, b),
        same_shape(b, c),
    ensures
        same_shape(a, c),
{
    assert forall|x: char, y: char| #[trigger] shape_at(a, c, x, y) by {
        assert(shape_at(a, b, x, y));
        assert(shape_at(b, c, x, y));
    }
}

/// The running minimum is a lower bound on every step it has passed.
pub proof fn lemma_min_le(es: Seq<EdgeRec>, full: Seq<char>, k: int, i: int)
    requires
        0 <= i < k,
    ensures
        min_residual_upto(es, full, k) <= residual_at(es, full[i], full[i + 1]),
    decreases k,
{
    if i < k - 1 {
        lemma_min_le(es, full, k - 1, i);
    }
}

/// Over steps that all have positive residual capacity the minimum stays
/// positive.
pub proof fn lemma_min_pos(es: Seq<EdgeRec>, full: Seq<char>, k: int)
    requires
        forall|i: int| 0 <= i < k ==> residual_at(es, #[trigger] full[i], full[i + 1]) > 0,
    ensures
        min_residual_upto(es, full, k) > 0,
    decreases k,
{
    if k > 0 {
        lemma_min_pos(es, full, k - 1);
    }
}

impl FordFulkerson {
    /// Flow is conserved: no node but the source and the sink has net
    /// outgoing flow.
    pub open spec fn conserves(self) -> bool {
        forall|x: char|
            x != self.start && x != self.sink ==> #[trigger] net_outflow(self.edges@, x) == 0
    }

    /// The minimum residual capacity along the path, read from the source:
    /// the amount by which one augmentation raises the total flow. An arc
    /// missing from the network is reported as such.
    pub fn find_min_flow(&self, path: &Vec<char>) -> (r: Result<i32, FlowError>)
        requires
            self.wf(),
        ensures
            ({
                let full = seq![self.start] + path@;
                &&& (r is Ok <==> path_edges_exist(self.edges@, full))
                &&& (r is Ok ==> r->Ok_0 as int == min_residual_upto(
                    self.edges@,
                    full,
                    path@.len() as int,
                ))
            }),
    {
        let ghost es = self.edges@;
        let ghost full = seq![self.start] + path@;
        let mut min_flow = i32::MAX;
        let mut from = self.start;
        let n = path.len();
        for idx in 0..n
            invariant
                self.wf(),
                es == self.edges@,
                n == path@.len(),
                full == seq![self.start] + path@,
                from == full[idx as int],
                min_flow as int == min_residual_upto(es, full, idx as int),
                forall|i: int| 0 <= i < idx ==> has_edge(es, #[trigger] full[i], full[i + 1]),
        {
            let to = path[idx];
            proof {
                assert(full[idx + 1] == path@[idx as int]);
            }
            match self.get_edge(from, to) {
                None => {
                    proof {
                        assert(!has_edge(es, full[idx as int], full[idx + 1]));
                    }
                    return Err(FlowError::MissingEdge);
                },
                Some(e) => {
                    proof {
                        assert(e == arc(es, from, to));
                        let ai = arc_index(es, from, to);
                        assert(0 <= ai < es.len() && es[ai].from == from && es[ai].to == to);
                        crate::lemmas::lemma_residual_args_ok(es, ai);
                    }
                    let res = e.residual_flow();
                    if res < min_flow {
                        min_flow = res;
                    }
                },
            }
            from = to;
        }
        Ok(min_flow)
    }

    /// Pushes `amount` along the arc `from -> to` and cancels it on the
    /// mirrored reverse arc, keeping the two in lockstep; an arc that was
    /// never created is reported missing and nothing changes.
    pub fn flow(&mut self, from: &char, to: &char, amount: i32) -> (r: Result<(), FlowError>)
        requires
            old(self).wf(),
            has_edge(old(self).edges@, *from, *to) ==> flow_at(old(self).edges@, *from, *to)
                + amount <= cap_at(old(self).edges@, *from, *to) && -cap_at(
                old(self).edges@,
                *to,
                *from,
            ) <= flow_at(old(self).edges@, *from, *to) + amount,
        ensures
            final(self).start == old(self).start,
            final(self).sink == old(self).sink,
            final(self).wf(),
            !has_edge(old(self).edges@, *from, *to) ==> r == Err::<(), FlowError>(
                FlowError::MissingEdge,
            ) && *final(self) == *old(self),
            has_edge(old(self).edges@, *from, *to) ==> ({
                let es0 = old(self).edges@;
                let es1 = final(self).edges@;
                &&& r == Ok::<(), FlowError>(())
                &&& *from != *to
                &&& same_shape(es0, es1)
                &&& cap_sum(es1) == cap_sum(es0)
                &&& flow_at(es1, *from, *to) == flow_at(es0, *from, *to) + amount
                &&& flow_at(es1, *to, *from) == flow_at(es0, *to, *from) - amount
                &&& forall|x: char, y: char|
                    !(x == *from && y == *to) && !(x == *to && y == *from) && has_edge(es0, x, y)
                        ==> #[trigger] arc(es1, x, y) == arc(es0, x, y)
                &&& forall|x: char|
                    #[trigger] net_outflow(es1, x) == net_outflow(es0, x) + (if x == *from {
                        amount as int
                    } else {
                        0
                    }) - (if x == *to {
                        amount as int
                    } else {
                        0
                    })
            }),
    {
        let u = *from;
        let v = *to;
        let ghost es0 = self.edges@;
        match self.find_edge_index(u, v) {
            None => Err(FlowError::MissingEdge),
            Some(i) => {
                proof {
                    lemma_arc_at(es0, i as int, u, v);
                    assert(pair_ok(es0, i as int));
                    assert(edge_ok(es0, i as int));
                    assert(edge_ok(es0, mirror_of(i as int)));
                    assert forall|k2: int| 0 <= k2 < es0.len() implies #[trigger] es0[k2].edge.capacity
                        >= 0 by {
                        assert(edge_ok(es0, k2));
                    }
                    lemma_cap_le_sum(es0, i as int);
                    lemma_cap_le_sum(es0, mirror_of(i as int));
                    if u == v {
                        assert(es0[mirror_of(i as int)].from == v && es0[mirror_of(i as int)].to
                            == u);
                        assert(false);
                    }
                }
                let j = if i % 2 == 0 {
                    i + 1
                } else {
                    i - 1
                };
                let rec_i = self.edges[i];
                let rec_j = self.edges[j];
                let new_i = EdgeRec {
                    from: rec_i.from,
                    to: rec_i.to,
                    edge: Edge { capacity: rec_i.edge.capacity, flow: rec_i.edge.flow + amount },
                };
                let new_j = EdgeRec {
                    from: rec_j.from,
                    to: rec_j.to,
                    edge: Edge { capacity: rec_j.edge.capacity, flow: rec_j.edge.flow - amount },
                };
                self.edges.set(i, new_i);
                self.edges.set(j, new_j);
                proof {
                    let es1 = self.edges@;
                    let gi = i as int;
                    let gj = mirror_of(gi);
                    assert(es1 == es0.update(gi, new_i).update(gj, new_j));
                    assert forall|k: int| 0 <= k < es1.len() && k != gi && k != gj implies es1[k]
                        == es0[k] by {}
                    assert forall|k: int| 0 <= k < es1.len() implies #[trigger] es1[k].from
                        == es0[k].from && es1[k].to == es0[k].to && es1[k].edge.capacity
                        == es0[k].edge.capacity by {}
                    assert forall|k: int| 0 <= k < es1.len() implies #[trigger] pair_ok(es1, k) by {
                        assert(pair_ok(es0, k));
                        if k == gi || k == gj {
                        } else {
                            assert(mirror_of(k) != gi && mirror_of(k) != gj);
                        }
                    }
                    assert forall|k: int| 0 <= k < es1.len() implies #[trigger] edge_ok(es1, k) by {
                        assert(edge_ok(es0, k));
                        if k == gi || k == gj {
                        } else if mirror_of(k) == gi || mirror_of(k) == gj {
                            assert(k == mirror_of(mirror_of(k)));
                            assert(false);
                        }
                    }
                    lemma_cap_sum_pointwise(es0, es1);
                    lemma_arc_at(es1, gi, u, v);
                    lemma_arc_at(es1, gj, v, u);
                    lemma_arc_at(es0, gj, v, u);
                    assert forall|x: char, y: char|
                        !(x == u && y == v) && !(x == v && y == u) && has_edge(
                            es0,
                            x,
                            y,
                        ) implies #[trigger] arc(es1, x, y) == arc(es0, x, y) by {
                        let k = choose|k: int|
                            0 <= k < es0.len() && #[trigger] es0[k].from == x && es0[k].to == y;
                        assert(k != gi && k != gj);
                        lemma_arc_at(es0, k, x, y);
                        lemma_arc_at(es1, k, x, y);
                    }
                    assert forall|x: char, y: char| #[trigger] shape_at(es0, es1, x, y) by {
                        if has_edge(es1, x, y) {
                            let k = choose|k: int|
                                0 <= k < es1.len() && #[trigger] es1[k].from == x && es1[k].to
                                    == y;
                            assert(es0[k].from == x && es0[k].to == y);
                        }
                        if has_edge(es0, x, y) {
                            let k = choose|k: int|
                                0 <= k < es0.len() && #[trigger] es0[k].from == x && es0[k].to
                                    == y;
                            assert(es1[k].from == x && es1[k].to == y);
                            lemma_arc_at(es0, k, x, y);
                            lemma_arc_at(es1, k, x, y);
                        }
                    }
                    assert forall|x: char| #[trigger] net_outflow(es1, x) == net_outflow(es0, x)
                        + (if x == u {
                        amount as int
                    } else {
                        0
                    }) - (if x == v {
                        amount as int
                    } else {
                        0
                    }) by {
                        let es_mid = es0.update(gi, new_i);
                        lemma_net_outflow_update(es0, gi, new_i, x);
                        assert(es_mid[gj] == es0[gj]);
                        lemma_net_outflow_update(es_mid, gj, new_j, x);
                        assert(es1 == es_mid.update(gj, new_j));
                    }
                }
                Ok(())
            },
        }
    }

    /// Runs the augment loop to completion: repeatedly finds an augmenting
    /// path, pushes its bottleneck along it, and stops when the sink is no
    /// longer reachable in the residual graph. Returns the flow added, a
    /// non-negative amount; on a network that is already at its maximum
    /// (in particular right after a previous run) it adds nothing and
    /// leaves every flow untouched.
    pub fn find_max_flow(&mut self) -> (r: i32)
        requires
            old(self).wf(),
            old(self).conserves(),
            net_outflow(old(self).edges@, old(self).start) >= 0,
        ensures
            final(self).start == old(self).start,
            final(self).sink == old(self).sink,
            final(self).wf(),
            final(self).conserves(),
            same_shape(old(self).edges@, final(self).edges@),
            cap_sum(final(self).edges@) == cap_sum(old(self).edges@),
            r >= 0,
            net_outflow(final(self).edges@, final(self).start) == net_outflow(
                old(self).edges@,
                old(self).start,
            ) + r,
            !reachable(final(self).edges@, final(self).start, final(self).sink),
            !reachable(old(self).edges@, old(self).start, old(self).sink) ==> r == 0
                && *final(self) == *old(self),
            exists|t: Seq<PredEntry>|
                {
                    &&& #[trigger] tb_sound(final(self).edges@, t, final(self).start)
                    &&& tb_nodup(t)
                    &&& search_closed(final(self).edges@, t, final(self).start)
                    &&& !tb_has(t, final(self).sink)
                    &&& visited(t, final(self).start, final(self).start)
                    &&& !visited(t, final(self).start, final(self).sink)
                    &&& net_outflow(final(self).edges@, final(self).start) == cut_capacity(
                        final(self).edges@,
                        t,
                        final(self).start,
                    )
                },
    {
        let ghost s0 = *old(self);
        let ghost es0 = old(self).edges@;
        let mut network_flow: i32 = 0;
        proof {
            lemma_flows_le_caps_of_wf(*self);
            lemma_net_outflow_le_cap_sum(self.edges@, self.start);
        }
        loop
            invariant
                self.start == s0.start,
                self.sink == s0.sink,
                self.wf(),
                self.conserves(),
                es0 == s0.edges@,
                same_shape(es0, self.edges@),
                cap_sum(self.edges@) == cap_sum(es0),
                network_flow as int == net_outflow(self.edges@, self.start) - net_outflow(
                    es0,
                    s0.start,
                ),
                network_flow >= 0,
                net_outflow(es0, s0.start) >= 0,
                net_outflow(self.edges@, self.start) <= cap_sum(self.edges@),
                network_flow == 0 ==> *self == s0,
                !reachable(es0, s0.start, s0.sink) ==> network_flow == 0 && *self == s0,
            ensures
                !reachable(self.edges@, self.start, self.sink),
                closed_cut_exists(self.edges@, self.start, self.sink),
            decreases cap_sum(self.edges@) - net_outflow(self.edges@, self.start),
        {
            let found = self.find_path();
            match found {
                None => {
                    break ;
                },
                Some(path) => {
                    proof {
                        // A path was found, so the starting network was not
                        // already at its maximum.
                        if !reachable(es0, s0.start, s0.sink) {
                            assert(*self == s0);
                            assert(self.edges@ == s0.edges@);
                            assert(reachable(self.edges@, self.start, self.sink));
                            assert(false);
                        }
                        let full = seq![self.start] + path@;
                        assert forall|i: int| 0 <= i && i + 1 < full.len() implies has_edge(
                            self.edges@,
                            #[trigger] full[i],
                            full[i + 1],
                        ) by {
                            assert(step_ok(self.edges@, full[i], full[i + 1]));
                        }
                    }
                    let bn = match self.find_min_flow(&path) {
                        Ok(v) => v,
                        Err(_) => unreached(),
                    };
                    let ghost entry = *self;
                    let ghost full = seq![entry.start] + path@;
                    let ghost n_steps = path@.len() as int;
                    proof {
                        assert forall|i: int| 0 <= i < n_steps implies residual_at(
                            entry.edges@,
                            #[trigger] full[i],
                            full[i + 1],
                        ) > 0 by {
                            assert(step_ok(entry.edges@, full[i], full[i + 1]));
                        }
                        lemma_min_pos(entry.edges@, full, n_steps);
                        // The nodes along the path are pairwise distinct.
                        assert forall|a: int, b: int| 0 <= a < b < full.len() implies full[a]
                            != full[b] by {
                            if a == 0 {
                                assert(full[b] == path@[b - 1]);
                                if path@[b - 1] == entry.start {
                                    assert(path@.contains(entry.start));
                                }
                            } else {
                                assert(full[a] == path@[a - 1] && full[b] == path@[b - 1]);
                            }
                        }
                    }
                    let mut from = self.start;
                    let n = path.len();
                    for idx in 0..n
                        invariant
                            self.start == entry.start,
                            self.sink == entry.sink,
                            self.wf(),
                            entry.wf(),
                            entry.conserves(),
                            n == path@.len(),
                            n_steps == n as int,
                            full == seq![entry.start] + path@,
                            entry.valid_path(path@),
                            forall|a: int, b: int| 0 <= a < b < full.len() ==> full[a] != full[b],
                            from == full[idx as int],
                            same_shape(entry.edges@, self.edges@),
                            cap_sum(self.edges@) == cap_sum(entry.edges@),
                            bn as int == min_residual_upto(entry.edges@, full, n_steps),
                            bn > 0,
                            forall|k2: int|
                                idx <= k2 < n_steps ==> #[trigger] arc(
                                    self.edges@,
                                    full[k2],
                                    full[k2 + 1],
                                ) == arc(entry.edges@, full[k2], full[k2 + 1]),
                            forall|x: char|
                                #[trigger] net_outflow(self.edges@, x) == net_outflow(
                                    entry.edges@,
                                    x,
                                ) + (if x == entry.start {
                                    bn as int
                                } else {
                                    0
                                }) - (if x == full[idx as int] {
                                    bn as int
                                } else {
                                    0
                                }),
                    {
                        let to = path[idx];
                        let ghost gi = idx as int;
                        let ghost es_cur = self.edges@;
                        proof {
                            assert(full[gi + 1] == path@[gi]);
                            assert(step_ok(entry.edges@, full[gi], full[gi + 1]));
                            assert(has_edge(entry.edges@, from, to));
                            assert(shape_at(entry.edges@, es_cur, from, to));
                            assert(has_edge(es_cur, from, to));
                            assert(arc(es_cur, from, to) == arc(entry.edges@, from, to));
                            // The bottleneck fits in the residual capacity of
                            // this step, so the update respects the bounds.
                            lemma_min_le(entry.edges@, full, n_steps, gi);
                            let ai = arc_index(es_cur, from, to);
                            assert(0 <= ai < es_cur.len() && es_cur[ai].from == from
                                && es_cur[ai].to == to);
                            assert(edge_ok(es_cur, ai));
                            assert(pair_ok(es_cur, ai));
                            lemma_arc_at(es_cur, mirror_of(ai), to, from);
                            assert(cap_at(es_cur, to, from) == es_cur[mirror_of(ai)].edge.capacity
                                as int);
                            assert(residual_at(es_cur, from, to) == cap_at(es_cur, from, to)
                                - flow_at(es_cur, from, to));
                            assert(residual_at(es_cur, from, to) == residual_at(
                                entry.edges@,
                                full[gi],
                                full[gi + 1],
                            ));
                            assert(flow_at(es_cur, from, to) + bn <= cap_at(es_cur, from, to));
                            assert(-cap_at(es_cur, to, from) <= flow_at(es_cur, from, to) + bn);
                        }
                        match self.flow(&from, &to, bn) {
                            Ok(_) => {},
                            Err(_) => {
                                return unreached();
                            },
                        }
                        proof {
                            let es1 = self.edges@;
                            lemma_same_shape_trans(entry.edges@, es_cur, es1);
                            // Arcs of later steps are untouched: their keys
                            // differ from this step's pair in both orders.
                            assert forall|k2: int| gi + 1 <= k2 < n_steps implies #[trigger] arc(
                                es1,
                                full[k2],
                                full[k2 + 1],
                            ) == arc(entry.edges@, full[k2], full[k2 + 1]) by {
                                assert(full[k2] != full[gi] || k2 == gi);
                                assert(!(full[k2] == from && full[k2 + 1] == to));
                                assert(!(full[k2] == to && full[k2 + 1] == from)) by {
                                    if full[k2] == to && full[k2 + 1] == from {
                                        assert(full[k2] == full[gi + 1]);
                                        assert(k2 == gi + 1);
                                        assert(full[k2 + 1] == full[gi]);
                                    }
                                }
                                assert(has_edge(entry.edges@, full[k2], full[k2 + 1])) by {
                                    assert(step_ok(entry.edges@, full[k2], full[k2 + 1]));
                                }
                                assert(shape_at(entry.edges@, es_cur, full[k2], full[k2 + 1]));
                                assert(has_edge(es_cur, full[k2], full[k2 + 1]));
                                assert(arc(es1, full[k2], full[k2 + 1]) == arc(
                                    es_cur,
                                    full[k2],
                                    full[k2 + 1],
                                ));
                            }
                            assert(full[gi] == from && full[gi + 1] == to);
                            assert forall|x: char| #[trigger] net_outflow(es1, x) == net_outflow(
                                entry.edges@,
                                x,
                            ) + (if x == entry.start {
                                bn as int
                            } else {
                                0
                            }) - (if x == full[gi + 1] {
                                bn as int
                            } else {
                                0
                            }) by {
                                assert(net_outflow(es_cur, x) == net_outflow(entry.edges@, x) + (
                                if x == entry.start {
                                    bn as int
                                } else {
                                    0
                                }) - (if x == full[gi] {
                                    bn as int
                                } else {
                                    0
                                }));
                            }
                        }
                        from = to;
                    }
                    proof {
                        // The whole path is applied: the shift now sits on
                        // the sink, so interior nodes are conserved again and
                        // the source gained exactly the bottleneck.
                        assert(full[n_steps] == path@[n_steps - 1]);
                        assert(full[n_steps] == entry.sink);
                        assert forall|x: char|
                            x != self.start && x != self.sink implies #[trigger] net_outflow(
                            self.edges@,
                            x,
                        ) == 0 by {
                            assert(net_outflow(entry.edges@, x) == 0);
                        }
                        assert(net_outflow(self.edges@, self.start) == net_outflow(
                            entry.edges@,
                            entry.start,
                        ) + bn);
                        lemma_flows_le_caps_of_wf(*self);
                        lemma_net_outflow_le_cap_sum(self.edges@, self.start);
                        lemma_same_shape_trans(es0, entry.edges@, self.edges@);
                    }
                    network_flow = network_flow + bn;
                },
            }
        }
        proof {
            // The exhaustive search that ended the loop certifies a cut whose
            // capacity the source's outflow meets exactly.
            let t = choose|t: Seq<PredEntry>|
                #[trigger] tb_sound(self.edges@, t, self.start) && tb_nodup(t) && search_closed(
                    self.edges@,
                    t,
                    self.start,
                ) && !tb_has(t, self.sink);
            lemma_min_cut(*self, t);
        }
        network_flow
    }
}

/// Well-formedness implies the prefix-stable capacity facts that the sum
/// lemmas ask for.
pub proof fn lemma_flows_le_caps_of_wf(f: FordFulkerson)
    requires
        f.wf(),
    ensures
        crate::lemmas::flows_le_caps(f.edges@),
{
    assert forall|k: int| 0 <= k < f.edges@.len() implies (#[trigger] f.edges@[k].edge.capacity
        >= 0 && f.edges@[k].edge.flow as int <= f.edges@[k].edge.capacity as int) by {
        assert(edge_ok(f.edges@, k));
    }
}

} // verus!
