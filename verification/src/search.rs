//! The augmenting-path search: a depth-first exploration of the residual
//! graph that records a predecessor for every node it reaches, and the
//! assembly of the discovered path from that record.

use vstd::prelude::*;

use crate::network::{
    arc_index, has_edge, lemma_arc_at, mirror_of, residual_at, EdgeRec, FordFulkerson,
};

verus! {

/// One entry of the predecessor map: `node` was first reached from `pred`.
#[derive(Debug, Clone, Copy, PartialEq, Eq, Structural)]
pub struct PredEntry {
    pub node: char,
    pub pred: char,
}

/// The predecessor map has an entry for `x`.
pub open spec fn tb_has(t: Seq<PredEntry>, x: char) -> bool {
    exists|i: int| 0 <= i < t.len() && #[trigger] t[i].node == x
}

/// The position of the entry for `x`; meaningful only when `tb_has` holds
/// and the entries are distinct.
pub open spec fn tb_index(t: Seq<PredEntry>, x: char) -> int {
    choose|i: int| 0 <= i < t.len() && #[trigger] t[i].node == x
}

/// The recorded predecessor of `x`.
pub open spec fn tb_pred(t: Seq<PredEntry>, x: char) -> char {
    t[tb_index(t, x)].pred
}

/// No node has two entries.
pub open spec fn tb_nodup(t: Seq<PredEntry>) -> bool {
    forall|i: int, j: int| 0 <= i < j < t.len() ==> #[trigger] t[i].node != #[trigger] t[j].node
}

/// The arc `u -> v` exists and has positive residual capacity: the search
/// may cross it.
pub open spec fn step_ok(es: Seq<EdgeRec>, u: char, v: char) -> bool {
    has_edge(es, u, v) && residual_at(es, u, v) > 0
}

/// Entry `i` of the predecessor map is justified: its node is not the root,
/// it was reached over a crossable arc from its predecessor, and that
/// predecessor is the root or was itself recorded earlier.
pub open spec fn tb_entry_ok(es: Seq<EdgeRec>, t: Seq<PredEntry>, root: char, i: int) -> bool {
    &&& t[i].node != root
    &&& step_ok(es, t[i].pred, t[i].node)
    &&& (t[i].pred == root || exists|j: int| 0 <= j < i && #[trigger] t[j].node == t[i].pred)
}

/// Every entry of the predecessor map is justified.
pub open spec fn tb_sound(es: Seq<EdgeRec>, t: Seq<PredEntry>, root: char) -> bool {
    forall|i: int| 0 <= i < t.len() ==> #[trigger] tb_entry_ok(es, t, root, i)
}

/// `x` was reached by the search: it is the root or has an entry.
pub open spec fn visited(t: Seq<PredEntry>, root: char, x: char) -> bool {
    x == root || tb_has(t, x)
}

/// Every crossable arc out of `x` leads to a reached node.
pub open spec fn node_closed(es: Seq<EdgeRec>, t: Seq<PredEntry>, root: char, x: char) -> bool {
    forall|v: char| #[trigger] step_ok(es, x, v) ==> visited(t, root, v)
}

/// The search explored everything: every reached node is closed.
pub open spec fn search_closed(es: Seq<EdgeRec>, t: Seq<PredEntry>, root: char) -> bool {
    forall|x: char| visited(t, root, x) ==> #[trigger] node_closed(es, t, root, x)
}

/// Consecutive nodes of `p` are joined by crossable arcs.
pub open spec fn chain_ok(es: Seq<EdgeRec>, p: Seq<char>) -> bool {
    forall|i: int| 0 <= i && i + 1 < p.len() ==> step_ok(es, #[trigger] p[i], p[i + 1])
}

/// `p` is an augmenting chain from `from` to `to`: a walk over arcs with
/// positive residual capacity.
pub open spec fn is_aug_chain(es: Seq<EdgeRec>, from: char, to: char, p: Seq<char>) -> bool {
    &&& p.len() >= 2
    &&& p[0] == from
    &&& p[p.len() - 1] == to
    &&& chain_ok(es, p)
}

/// Some augmenting chain joins `from` to `to` in the residual graph.
pub open spec fn reachable(es: Seq<EdgeRec>, from: char, to: char) -> bool {
    exists|p: Seq<char>| is_aug_chain(es, from, to, p)
}

/// Some exhaustive search from `root` found no entry for `target`: its
/// reached set is a cut whose outgoing arcs all have zero residual capacity.
pub open spec fn closed_cut_exists(es: Seq<EdgeRec>, root: char, target: char) -> bool {
    exists|t: Seq<PredEntry>|
        #[trigger] tb_sound(es, t, root) && tb_nodup(t) && search_closed(es, t, root) && !tb_has(
            t,
            target,
        )
}

/// Some record has head `x`.
spec fn to_of(es: Seq<EdgeRec>, x: char) -> bool {
    exists|k: int| 0 <= k < es.len() && #[trigger] es[k].to == x
}

/// An entry whose node is `x` sits exactly at `tb_index(t, x)` when the
/// entries are distinct.
pub proof fn lemma_tb_index_at(t: Seq<PredEntry>, i: int, x: char)
    requires
        tb_nodup(t),
        0 <= i < t.len(),
        t[i].node == x,
    ensures
        tb_has(t, x),
        tb_index(t, x) == i,
        tb_pred(t, x) == t[i].pred,
{
    assert(tb_has(t, x));
    let j = tb_index(t, x);
    if i != j {
        assert(false);
    }
}

/// A predecessor map with distinct nodes, each of which heads some arc,
/// cannot have more entries than there are arcs.
proof fn lemma_tb_len_le_edges(es: Seq<EdgeRec>, t: Seq<PredEntry>)
    requires
        tb_nodup(t),
        forall|i: int| 0 <= i < t.len() ==> to_of(es, #[trigger] t[i].node),
    ensures
        t.len() <= es.len(),
    decreases t.len(),
{
    if t.len() > 0 {
        let last = t[t.len() - 1];
        assert(to_of(es, last.node));
        let k = choose|k: int| 0 <= k < es.len() && #[trigger] es[k].to == last.node;
        let es1 = es.remove(k);
        let t1 = t.drop_last();
        assert forall|i: int| 0 <= i < t1.len() implies to_of(es1, #[trigger] t1[i].node) by {
            assert(t1[i] == t[i]);
            assert(to_of(es, t[i].node));
            let k2 = choose|k2: int| 0 <= k2 < es.len() && #[trigger] es[k2].to == t[i].node;
            assert(t[i].node != last.node);
            assert(k2 != k);
            if k2 < k {
                assert(es1[k2] == es[k2]);
                assert(es1[k2].to == t1[i].node);
            } else {
                assert(es1[k2 - 1] == es[k2]);
                assert(es1[k2 - 1].to == t1[i].node);
            }
        }
        lemma_tb_len_le_edges(es1, t1);
    }
}

/// Growing the predecessor map keeps a closed node closed.
proof fn lemma_closed_mono(
    es: Seq<EdgeRec>,
    t1: Seq<PredEntry>,
    t2: Seq<PredEntry>,
    root: char,
    x: char,
)
    requires
        t1.is_prefix_of(t2),
        node_closed(es, t1, root, x),
    ensures
        node_closed(es, t2, root, x),
{
    assert forall|v: char| #[trigger] step_ok(es, x, v) implies visited(t2, root, v) by {
        assert(visited(t1, root, v));
        if v != root {
            let i = choose|i: int| 0 <= i < t1.len() && #[trigger] t1[i].node == v;
            assert(t2[i].node == v);
        }
    }
}

/// Any augmenting chain out of the root of an exhaustively explored search
/// ends at a reached node.
proof fn lemma_closed_chain(
    es: Seq<EdgeRec>,
    t: Seq<PredEntry>,
    root: char,
    p: Seq<char>,
)
    requires
        search_closed(es, t, root),
        chain_ok(es, p),
        p.len() >= 1,
        p[0] == root,
    ensures
        visited(t, root, p[p.len() - 1]),
    decreases p.len(),
{
    if p.len() == 1 {
        assert(visited(t, root, root));
    } else {
        let q = p.drop_last();
        assert(chain_ok(es, q)) by {
            assert forall|i: int| 0 <= i && i + 1 < q.len() implies step_ok(
                es,
                #[trigger] q[i],
                q[i + 1],
            ) by {
                assert(q[i] == p[i] && q[i + 1] == p[i + 1]);
                assert(step_ok(es, p[i], p[i + 1]));
            }
        }
        lemma_closed_chain(es, t, root, q);
        let a = p[p.len() - 2];
        assert(q[q.len() - 1] == a);
        assert(visited(t, root, a));
        assert(step_ok(es, a, p[p.len() - 1]));
        assert(node_closed(es, t, root, a));
    }
}

/// After an exhaustive search, a node without an entry is unreachable from
/// the root over arcs with positive residual capacity.
pub proof fn lemma_no_path_when_closed(
    es: Seq<EdgeRec>,
    t: Seq<PredEntry>,
    root: char,
    target: char,
)
    requires
        search_closed(es, t, root),
        !tb_has(t, target),
        target != root,
    ensures
        !reachable(es, root, target),
{
    if reachable(es, root, target) {
        let p = choose|p: Seq<char>| is_aug_chain(es, root, target, p);
        lemma_closed_chain(es, t, root, p);
        assert(visited(t, root, target));
        assert(false);
    }
}

/// Whether the predecessor map has an entry for `x`.
fn tb_contains(t: &Vec<PredEntry>, x: char) -> (r: bool)
    ensures
        r == tb_has(t@, x),
{
    let n = t.len();
    for i in 0..n
        invariant
            n == t@.len(),
            forall|j: int| 0 <= j < i ==> #[trigger] t@[j].node != x,
    {
        if t[i].node == x {
            return true;
        }
    }
    false
}

/// The recorded predecessor of `x`.
fn tb_lookup(t: &Vec<PredEntry>, x: char) -> (r: char)
    requires
        tb_nodup(t@),
        tb_has(t@, x),
    ensures
        r == tb_pred(t@, x),
{
    let n = t.len();
    for i in 0..n
        invariant
            n == t@.len(),
            tb_nodup(t@),
            tb_has(t@, x),
            forall|j: int| 0 <= j < i ==> #[trigger] t@[j].node != x,
    {
        if t[i].node == x {
            proof {
                lemma_tb_index_at(t@, i as int, x);
            }
            return t[i].pred;
        }
    }
    proof {
        let i = choose|i: int| 0 <= i < t@.len() && #[trigger] t@[i].node == x;
        assert(false);
    }
    t[0].pred
}

impl FordFulkerson {
    /// Exhaustive depth-first exploration of the residual graph from
    /// `current`, extending the (empty) accumulated predecessor map: on
    /// return every entry is justified by a crossable arc and every reached
    /// node, the root included, has had all its outgoing arcs examined.
    pub fn find_argument_path(&self, current: char, trace_back: Vec<PredEntry>) -> (r: Vec<
        PredEntry,
    >)
        requires
            self.wf(),
            trace_back@.len() == 0,
        ensures
            tb_sound(self.edges@, r@, current),
            tb_nodup(r@),
            search_closed(self.edges@, r@, current),
    {
        let mut tb = trace_back;
        let mut pending: Vec<char> = Vec::new();
        pending.push(current);
        proof {
            assert(pending@ == Seq::<char>::empty().push(current));
            assert(pending@[0] == current);
            assert(pending@.contains(current));
            assert forall|x: char|
                visited(tb@, current, x) && !pending@.contains(x) implies #[trigger] node_closed(
                self.edges@,
                tb@,
                current,
                x,
            ) by {
                assert(x == current);
                assert(false);
            }
        }
        while pending.len() > 0
            invariant
                self.wf(),
                tb_sound(self.edges@, tb@, current),
                tb_nodup(tb@),
                tb@.len() <= self.edges@.len(),
                forall|i: int| 0 <= i < tb@.len() ==> to_of(self.edges@, #[trigger] tb@[i].node),
                forall|p: int| 0 <= p < pending@.len() ==> visited(
                    tb@,
                    current,
                    #[trigger] pending@[p],
                ),
                forall|x: char|
                    visited(tb@, current, x) && !pending@.contains(x)
                        ==> #[trigger] node_closed(self.edges@, tb@, current, x),
            decreases self.edges@.len() - tb@.len(), pending@.len(),
        {
            let ghost t_in = tb@;
            let ghost pend_in = pending@;
            let u = pending.pop().unwrap();
            let ghost pend_mid = pending@;
            proof {
                assert(u == pend_in[pend_in.len() - 1]);
                assert(visited(t_in, current, u));
            }
            let n = self.edges.len();
            for k in 0..n
                invariant
                    self.wf(),
                    n == self.edges@.len(),
                    tb_sound(self.edges@, tb@, current),
                    tb_nodup(tb@),
                    tb@.len() <= self.edges@.len(),
                    forall|i: int| 0 <= i < tb@.len() ==> to_of(
                        self.edges@,
                        #[trigger] tb@[i].node,
                    ),
                    t_in.is_prefix_of(tb@),
                    pend_mid.is_prefix_of(pending@),
                    pending@.len() - pend_mid.len() == tb@.len() - t_in.len(),
                    visited(tb@, current, u),
                    forall|p: int| 0 <= p < pending@.len() ==> visited(
                        tb@,
                        current,
                        #[trigger] pending@[p],
                    ),
                    forall|i: int| t_in.len() <= i < tb@.len() ==> pending@.contains(
                        #[trigger] tb@[i].node,
                    ),
                    forall|x: char|
                        visited(t_in, current, x) && !pend_in.contains(x)
                            ==> #[trigger] node_closed(self.edges@, t_in, current, x),
                    forall|k2: int|
                        0 <= k2 < k && #[trigger] self.edges@[k2].from == u
                            && self.edges@[k2].edge.spec_residual() > 0 ==> visited(
                            tb@,
                            current,
                            self.edges@[k2].to,
                        ),
            {
                let rec = self.edges[k];
                if rec.from == u {
                    proof {
                        crate::lemmas::lemma_residual_args_ok(self.edges@, k as int);
                    }
                    let res = rec.edge.residual_flow();
                    if res > 0 && rec.to != current && !tb_contains(&tb, rec.to) {
                        let ghost t_old = tb@;
                        let ghost pend_old = pending@;
                        tb.push(PredEntry { node: rec.to, pred: u });
                        pending.push(rec.to);
                        proof {
                            let es = self.edges@;
                            let ni = t_old.len() as int;
                            assert(tb@ == t_old.push(PredEntry { node: rec.to, pred: u }));
                            assert(pending@ == pend_old.push(rec.to));
                            assert(es[k as int].from == u && es[k as int].to == rec.to);
                            assert(has_edge(es, u, rec.to));
                            lemma_arc_at(es, k as int, u, rec.to);
                            assert(residual_at(es, u, rec.to) == rec.edge.spec_residual());
                            // The new entry is justified.
                            assert(tb_entry_ok(es, tb@, current, ni)) by {
                                if u != current {
                                    let j = choose|j: int|
                                        0 <= j < t_old.len() && #[trigger] t_old[j].node == u;
                                    assert(tb@[j].node == u);
                                }
                            }
                            assert forall|i: int| 0 <= i < tb@.len() implies #[trigger] tb_entry_ok(
                                es,
                                tb@,
                                current,
                                i,
                            ) by {
                                if i < ni {
                                    assert(tb_entry_ok(es, t_old, current, i));
                                    assert(tb@[i] == t_old[i]);
                                    if t_old[i].pred != current {
                                        let j = choose|j: int|
                                            0 <= j < i && #[trigger] t_old[j].node
                                                == t_old[i].pred;
                                        assert(tb@[j].node == tb@[i].pred);
                                    }
                                }
                            }
                            assert forall|i: int| 0 <= i < tb@.len() implies to_of(
                                es,
                                #[trigger] tb@[i].node,
                            ) by {
                                if i < ni {
                                    assert(to_of(es, t_old[i].node));
                                } else {
                                    assert(es[k as int].to == tb@[i].node);
                                }
                            }
                            lemma_tb_len_le_edges(es, tb@);
                            // Previously reached nodes are still reached, and
                            // pending nodes keep their witnesses.
                            assert forall|p: int| 0 <= p < pending@.len() implies visited(
                                tb@,
                                current,
                                #[trigger] pending@[p],
                            ) by {
                                if p < pend_old.len() {
                                    assert(visited(t_old, current, pend_old[p]));
                                    if pend_old[p] != current {
                                        let j = choose|j: int|
                                            0 <= j < t_old.len() && #[trigger] t_old[j].node
                                                == pend_old[p];
                                        assert(tb@[j].node == pend_old[p]);
                                    }
                                } else {
                                    assert(tb@[ni].node == rec.to);
                                }
                            }
                            assert forall|i: int| t_in.len() <= i < tb@.len() implies pending@
                                .contains(#[trigger] tb@[i].node) by {
                                if i < ni {
                                    let p = choose|p: int|
                                        0 <= p < pend_old.len() && pend_old[p] == t_old[i].node;
                                    assert(pending@[p] == tb@[i].node);
                                } else {
                                    assert(pending@[pending@.len() - 1] == rec.to);
                                }
                            }
                            assert(visited(tb@, current, u)) by {
                                if u != current {
                                    let j = choose|j: int|
                                        0 <= j < t_old.len() && #[trigger] t_old[j].node == u;
                                    assert(tb@[j].node == u);
                                }
                            }
                            // Arcs out of `u` handled so far still lead to
                            // reached nodes in the grown map.
                            assert(tb@[ni].node == rec.to);
                            assert(visited(tb@, current, rec.to));
                            assert forall|k2: int|
                                0 <= k2 < k && #[trigger] es[k2].from == u
                                    && es[k2].edge.spec_residual() > 0 implies visited(
                                tb@,
                                current,
                                es[k2].to,
                            ) by {
                                assert(visited(t_old, current, es[k2].to));
                                if es[k2].to != current {
                                    let j = choose|j: int|
                                        0 <= j < t_old.len() && #[trigger] t_old[j].node
                                            == es[k2].to;
                                    assert(tb@[j].node == es[k2].to);
                                }
                            }
                        }
                    }
                }
            }
            proof {
                let es = self.edges@;
                // The popped node is now closed, and every node closed before
                // this iteration remains closed.
                assert forall|x: char|
                    visited(tb@, current, x) && !pending@.contains(
                        x,
                    ) implies #[trigger] node_closed(es, tb@, current, x) by {
                    if x == u {
                        assert forall|v: char| #[trigger] step_ok(es, u, v) implies visited(
                            tb@,
                            current,
                            v,
                        ) by {
                            let k2 = choose|k2: int|
                                0 <= k2 < es.len() && #[trigger] es[k2].from == u && es[k2].to
                                    == v;
                            lemma_arc_at(es, k2, u, v);
                            assert(es[k2].edge.spec_residual() == residual_at(es, u, v));
                            assert(visited(tb@, current, es[k2].to));
                        }
                    } else if visited(t_in, current, x) {
                        assert(!pend_in.contains(x)) by {
                            if pend_in.contains(x) {
                                let p = choose|p: int|
                                    0 <= p < pend_in.len() && pend_in[p] == x;
                                assert(p < pend_in.len() - 1);
                                assert(pend_mid[p] == x);
                                assert(pending@[p] == x);
                                assert(false);
                            }
                        }
                        assert(node_closed(es, t_in, current, x));
                        lemma_closed_mono(es, t_in, tb@, current, x);
                    } else {
                        let i = choose|i: int| 0 <= i < tb@.len() && #[trigger] tb@[i].node == x;
                        assert(i >= t_in.len()) by {
                            if i < t_in.len() {
                                assert(t_in[i].node == x);
                            }
                        }
                        assert(pending@.contains(tb@[i].node));
                        assert(false);
                    }
                }
            }
        }
        proof {
            assert forall|x: char| visited(tb@, current, x) implies #[trigger] node_closed(
                self.edges@,
                tb@,
                current,
                x,
            ) by {
                assert(!pending@.contains(x));
            }
        }
        tb
    }

    /// Whether `p` is a discovered augmenting path: the nodes after the
    /// source up to and including the sink, pairwise distinct, avoiding the
    /// source, and joined (from the source on) by arcs with positive
    /// residual capacity.
    pub open spec fn valid_path(self, p: Seq<char>) -> bool {
        &&& p.len() >= 1
        &&& p[p.len() - 1] == self.sink
        &&& !p.contains(self.start)
        &&& p.no_duplicates()
        &&& chain_ok(self.edges@, seq![self.start] + p)
    }

    /// Runs the search from the source and assembles the discovered
    /// augmenting path; `None` exactly when the sink is unreachable in the
    /// residual graph.
    pub fn find_path(&self) -> (r: Option<Vec<char>>)
        requires
            self.wf(),
        ensures
            match r {
                Some(p) => self.valid_path(p@) && reachable(self.edges@, self.start, self.sink),
                None => !reachable(self.edges@, self.start, self.sink) && closed_cut_exists(
                    self.edges@,
                    self.start,
                    self.sink,
                ),
            },
    {
        let tb = self.find_argument_path(self.start, Vec::new());
        let ghost es = self.edges@;
        if !tb_contains(&tb, self.sink) {
            proof {
                lemma_no_path_when_closed(es, tb@, self.start, self.sink);
                assert(tb_sound(es, tb@, self.start) && tb_nodup(tb@) && search_closed(
                    es,
                    tb@,
                    self.start,
                ) && !tb_has(tb@, self.sink));
            }
            return None;
        }
        let mut rev: Vec<char> = Vec::new();
        let mut p = self.sink;
        while p != self.start
            invariant
                self.wf(),
                es == self.edges@,
                tb_sound(es, tb@, self.start),
                tb_nodup(tb@),
                visited(tb@, self.start, p),
                rev@.len() == 0 ==> p == self.sink,
                rev@.len() > 0 ==> rev@[0] == self.sink,
                forall|a: int| 0 <= a < rev@.len() ==> tb_has(tb@, #[trigger] rev@[a])
                    && rev@[a] != self.start,
                forall|a: int, b: int| 0 <= a < b < rev@.len() ==> tb_index(tb@, #[trigger] rev@[b])
                    < tb_index(tb@, #[trigger] rev@[a]),
                p != self.start ==> forall|a: int| 0 <= a < rev@.len() ==> tb_index(tb@, p)
                    < tb_index(tb@, #[trigger] rev@[a]),
                forall|a: int| 0 <= a && a + 1 < rev@.len() ==> step_ok(
                    es,
                    #[trigger] rev@[a + 1],
                    rev@[a],
                ),
                rev@.len() > 0 ==> step_ok(es, p, rev@[rev@.len() - 1]),
            decreases (if p == self.start {
                0int
            } else {
                tb_index(tb@, p) + 1
            }),
        {
            let ghost rev_old = rev@;
            rev.push(p);
            let ghost i = tb_index(tb@, p);
            proof {
                assert(tb_has(tb@, p));
                assert(0 <= i < tb@.len() && tb@[i].node == p);
                assert(tb_entry_ok(es, tb@, self.start, i));
            }
            let q = tb_lookup(&tb, p);
            proof {
                assert(q == tb@[i].pred);
                assert(step_ok(es, q, p));
                if q != self.start {
                    let j = choose|j: int| 0 <= j < i && #[trigger] tb@[j].node == q;
                    lemma_tb_index_at(tb@, j, q);
                    assert(tb_index(tb@, q) < i);
                }
                assert(rev@ == rev_old.push(p));
            }
            p = q;
        }
        let n = rev.len();
        proof {
            assert(self.start != self.sink);
            assert(n > 0);
        }
        let mut path: Vec<char> = Vec::new();
        let mut i: usize = n;
        while i > 0
            invariant
                n == rev@.len(),
                i <= n,
                path@.len() + i == n,
                forall|a: int| 0 <= a < path@.len() ==> #[trigger] path@[a] == rev@[n - 1 - a],
            decreases i,
        {
            i = i - 1;
            path.push(rev[i]);
        }
        proof {
            let full = seq![self.start] + path@;
            assert(path@[path@.len() - 1] == rev@[0]);
            assert(path@[path@.len() - 1] == self.sink);
            assert(!path@.contains(self.start)) by {
                if path@.contains(self.start) {
                    let a = choose|a: int| 0 <= a < path@.len() && path@[a] == self.start;
                    assert(rev@[n - 1 - a] == self.start);
                }
            }
            assert(path@.no_duplicates()) by {
                assert forall|a: int, b: int|
                    0 <= a < b < path@.len() implies path@[a] != path@[b] by {
                    assert(path@[a] == rev@[n - 1 - a] && path@[b] == rev@[n - 1 - b]);
                    assert(tb_index(tb@, rev@[n - 1 - a]) < tb_index(tb@, rev@[n - 1 - b]));
                }
            }
            assert(chain_ok(es, full)) by {
                assert forall|a: int| 0 <= a && a + 1 < full.len() implies step_ok(
                    es,
                    #[trigger] full[a],
                    full[a + 1],
                ) by {
                    if a == 0 {
                        assert(full[0] == self.start);
                        assert(full[1] == path@[0]);
                        assert(path@[0] == rev@[n - 1]);
                        assert(step_ok(es, self.start, rev@[n - 1]));
                    } else {
                        assert(full[a] == path@[a - 1]);
                        assert(full[a + 1] == path@[a]);
                        assert(path@[a - 1] == rev@[n - a]);
                        assert(path@[a] == rev@[n - 1 - a]);
                        assert(step_ok(es, rev@[(n - 1 - a) + 1], rev@[n - 1 - a]));
                    }
                }
            }
            assert(self.valid_path(path@));
            assert(full[0] == self.start && full[full.len() - 1] == self.sink && full.len() >= 2);
            assert(is_aug_chain(es, self.start, self.sink, full));
            assert(reachable(es, self.start, self.sink));
        }
        Some(path)
    }
}

} // verus!
