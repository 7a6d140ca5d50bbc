//! Depth-first traversal that stamps every resource with discovery and finish
//! times, and the ordering of resources by those times.

use crate::graph::Graph;
use crate::recipe::names_of;
use vstd::prelude::*;
use vstd::set_lib::{lemma_int_range, lemma_len_subset, set_int_range};

verus! {

/// The time of a node that has not been reached (or not left) yet.
pub open spec fn unset() -> u64 {
    0xffff_ffff_ffff_ffffu64
}

/// `g` has an edge from node `a` to node `b`.
pub open spec fn has_edge(g: &Graph, a: int, b: int) -> bool {
    &&& 0 <= a < g.resources@.len()
    &&& 0 <= b < g.resources@.len()
    &&& exists|j: int|
        0 <= j < g.egress(a).len() && #[trigger] g.egress(a)[j].1 == g.resource_names()[b]
}

/// `p` is a path of nodes of `g`.
pub open spec fn is_path(g: &Graph, p: Seq<int>) -> bool {
    &&& p.len() >= 1
    &&& forall|i: int| 0 <= i < p.len() ==> 0 <= #[trigger] p[i] < g.resources@.len()
    &&& forall|i: int| 0 <= i < p.len() - 1 ==> has_edge(g, #[trigger] p[i], p[i + 1])
}

/// Node `b` can be reached from node `a` (every node reaches itself).
pub open spec fn reaches(g: &Graph, a: int, b: int) -> bool {
    exists|p: Seq<int>| is_path(g, p) && p[0] == a && p[p.len() - 1] == b
}

/// The order that the times promise for an edge `u -> v`: `v` is left before
/// `u`, or `v` is an ancestor of `u` in the traversal (its interval encloses
/// that of `u`) and reaches `u`, so that the edge closes a cycle.
pub open spec fn edge_in_order(g: &Graph, t: Seq<(u64, u64)>, u: int, v: int) -> bool {
    ||| t[v].1 < t[u].1
    ||| t[v].0 <= t[u].0 && t[u].1 <= t[v].1 && reaches(g, v, u)
}

/// `t` holds valid depth-first times for the nodes of `g`: one pair per node,
/// discovery before finish, all below twice the number of nodes, no time used
/// twice, and every edge in order.
pub open spec fn valid_times(g: &Graph, t: Seq<(u64, u64)>) -> bool {
    let n = g.resources@.len();
    &&& t.len() == n
    &&& forall|i: int| 0 <= i < n ==> (#[trigger] t[i]).0 < t[i].1 < 2 * n
    &&& forall|i: int, j: int|
        0 <= i < n && 0 <= j < n && i != j ==> #[trigger] t[i].0 != #[trigger] t[j].0 && t[i].1
            != t[j].1
    &&& forall|i: int, j: int| 0 <= i < n && 0 <= j < n ==> #[trigger] t[i].0 != #[trigger] t[j].1
    &&& forall|u: int, v: int| #[trigger] has_edge(g, u, v) ==> edge_in_order(g, t, u, v)
}

/// Nodes reached so far.
pub open spec fn discovered_set(t: Seq<(u64, u64)>) -> Set<int> {
    Set::new(|i: int| 0 <= i < t.len() && t[i].0 != unset())
}

/// Nodes left so far.
pub open spec fn finished_set(t: Seq<(u64, u64)>) -> Set<int> {
    Set::new(|i: int| 0 <= i < t.len() && t[i].1 != unset())
}

/// Times are used in order and each at most once.
pub open spec fn times_ok(t: Seq<(u64, u64)>, cur: u64) -> bool {
    &&& forall|i: int|
        0 <= i < t.len() ==> {
            &&& (#[trigger] t[i]).1 != unset() ==> t[i].0 != unset() && t[i].0 < t[i].1 < cur
            &&& t[i].0 != unset() ==> t[i].0 < cur
        }
    &&& forall|i: int, j: int|
        0 <= i < t.len() && 0 <= j < t.len() && i != j ==> {
            &&& (#[trigger] t[i]).0 != unset() ==> t[i].0 != (#[trigger] t[j]).0
            &&& t[i].1 != unset() ==> t[i].1 != t[j].1
        }
    &&& forall|i: int, j: int|
        0 <= i < t.len() && 0 <= j < t.len() && (#[trigger] t[i]).0 != unset() && (
        #[trigger] t[j]).1 != unset() ==> t[i].0 != t[j].1
    &&& cur == discovered_set(t).len() + finished_set(t).len()
}

/// Every left node has all its edges in order, its targets reached.
pub open spec fn finished_edges_ok(g: &Graph, t: Seq<(u64, u64)>) -> bool {
    forall|u: int, v: int|
        #[trigger] has_edge(g, u, v) && t[u].1 != unset() ==> t[v].0 != unset() && edge_in_order(
            g,
            t,
            u,
            v,
        )
}

/// The targets of the edges `k..` of node `u` have been reached.
pub open spec fn frame_done_from(g: &Graph, t: Seq<(u64, u64)>, u: int, k: int) -> bool {
    forall|j: int, v: int|
        k <= j < g.egress(u).len() && 0 <= v < g.resources@.len() && #[trigger] g.resource_names()[v]
            == #[trigger] g.egress(u)[j].1 ==> t[v].0 != unset()
}

/// The stack of the traversal: the nodes in progress, in order of discovery,
/// each an edge away from the one below it.
pub open spec fn stack_ok(g: &Graph, t: Seq<(u64, u64)>, st: Seq<(usize, usize)>) -> bool {
    &&& forall|s: int|
        0 <= s < st.len() ==> {
            &&& 0 <= (#[trigger] st[s]).0 < g.resources@.len()
            &&& t[st[s].0 as int].0 != unset()
            &&& t[st[s].0 as int].1 == unset()
            &&& st[s].1 <= g.egress(st[s].0 as int).len()
            &&& frame_done_from(g, t, st[s].0 as int, st[s].1 as int)
        }
    &&& forall|s: int, s2: int|
        0 <= s < s2 < st.len() ==> t[(#[trigger] st[s]).0 as int].0 < t[(#[trigger] st[s2]).0 as int].0
    &&& forall|s: int|
        0 <= s < st.len() - 1 ==> has_edge(g, (#[trigger] st[s]).0 as int, st[s + 1].0 as int)
    &&& forall|i: int|
        0 <= i < t.len() && (#[trigger] t[i]).0 != unset() && t[i].1 == unset() ==> exists|s: int|
            0 <= s < st.len() && (#[trigger] st[s]).0 == i
}

/// The invariant of the traversal.
pub open spec fn dfs_state(g: &Graph, t: Seq<(u64, u64)>, st: Seq<(usize, usize)>, cur: u64) -> bool {
    &&& g.structure_ok()
    &&& t.len() == g.resources@.len()
    &&& times_ok(t, cur)
    &&& finished_edges_ok(g, t)
    &&& stack_ok(g, t, st)
}

/// Both counted sets lie in the node range.
pub proof fn lemma_counts_bounded(t: Seq<(u64, u64)>)
    ensures
        discovered_set(t).finite(),
        finished_set(t).finite(),
        discovered_set(t).len() <= t.len(),
        finished_set(t).len() <= t.len(),
{
    lemma_int_range(0, t.len() as int);
    lemma_len_subset(discovered_set(t), set_int_range(0, t.len() as int));
    lemma_len_subset(finished_set(t), set_int_range(0, t.len() as int));
}

/// The nodes of the stack from position `s` up form a path.
pub proof fn lemma_stack_reaches(g: &Graph, t: Seq<(u64, u64)>, st: Seq<(usize, usize)>, s: int)
    requires
        stack_ok(g, t, st),
        0 <= s < st.len(),
    ensures
        reaches(g, st[s].0 as int, st[st.len() - 1].0 as int),
{
    let p = Seq::new((st.len() - s) as nat, |i: int| st[s + i].0 as int);
    assert forall|i: int| 0 <= i < p.len() implies 0 <= #[trigger] p[i] < g.resources@.len() by {
        assert(st[s + i].0 < g.resources@.len());
    }
    assert forall|i: int| 0 <= i < p.len() - 1 implies has_edge(g, #[trigger] p[i], p[i + 1]) by {
        assert(has_edge(g, st[s + i].0 as int, st[s + i + 1].0 as int));
    }
    assert(is_path(g, p));
}

/// A node reaches itself.
pub proof fn lemma_reaches_self(g: &Graph, a: int)
    requires
        0 <= a < g.resources@.len(),
    ensures
        reaches(g, a, a),
{
    let p = seq![a];
    assert(is_path(g, p));
}


/// Only the node `v` changes its entry, and only from unreached to reached at `cur`.
pub proof fn lemma_times_discover(t: Seq<(u64, u64)>, cur: u64, v: int)
    requires
        times_ok(t, cur),
        0 <= v < t.len(),
        t[v].0 == unset(),
        cur + 1 < unset(),
    ensures
        times_ok(t.update(v, (cur, unset())), (cur + 1) as u64),
        discovered_set(t.update(v, (cur, unset()))) == discovered_set(t).insert(v),
        finished_set(t.update(v, (cur, unset()))) == finished_set(t),
{
    let t2 = t.update(v, (cur, unset()));
    lemma_counts_bounded(t);
    assert(t[v].1 == unset());
    assert(discovered_set(t2) =~= discovered_set(t).insert(v));
    assert(finished_set(t2) =~= finished_set(t));
    assert(!discovered_set(t).contains(v));
}

/// Only the node `u` changes its entry, from reached to left at `cur`.
pub proof fn lemma_times_finish(t: Seq<(u64, u64)>, cur: u64, u: int)
    requires
        times_ok(t, cur),
        0 <= u < t.len(),
        t[u].0 != unset(),
        t[u].1 == unset(),
        cur + 1 < unset(),
    ensures
        times_ok(t.update(u, (t[u].0, cur)), (cur + 1) as u64),
        discovered_set(t.update(u, (t[u].0, cur))) == discovered_set(t),
        finished_set(t.update(u, (t[u].0, cur))) == finished_set(t).insert(u),
{
    let t2 = t.update(u, (t[u].0, cur));
    lemma_counts_bounded(t);
    assert(discovered_set(t2) =~= discovered_set(t));
    assert(finished_set(t2) =~= finished_set(t).insert(u));
    assert(!finished_set(t).contains(u));
}

/// While some node is unreached, the clock has room for two more ticks.
pub proof fn lemma_clock_room(t: Seq<(u64, u64)>, cur: u64, v: int)
    requires
        times_ok(t, cur),
        0 <= v < t.len(),
        t[v].1 == unset(),
        2 * t.len() < unset(),
    ensures
        cur + 1 < unset(),
{
    lemma_counts_bounded(t);
    lemma_int_range(0, t.len() as int);
    assert(finished_set(t).subset_of(set_int_range(0, t.len() as int).remove(v)));
    lemma_len_subset(finished_set(t), set_int_range(0, t.len() as int).remove(v));
}

/// Reaching an unreached node `v` from an empty stack.
pub proof fn lemma_discover_root(g: &Graph, t: Seq<(u64, u64)>, cur: u64, v: usize, len_v: usize)
    requires
        dfs_state(g, t, seq![], cur),
        len_v == g.egress(v as int).len(),
        v < t.len(),
        t[v as int].0 == unset(),
        cur + 1 < unset(),
    ensures
        dfs_state(
            g,
            t.update(v as int, (cur, unset())),
            seq![(v, len_v)],
            (cur + 1) as u64,
        ),
{
    let v = v as int;
    let t2 = t.update(v, (cur, unset()));
    let st2: Seq<(usize, usize)> = seq![(v as usize, len_v)];
    lemma_times_discover(t, cur, v);
    assert(t[v].1 == unset());
    assert forall|a: int, x: int| #[trigger] has_edge(g, a, x) && t2[a].1 != unset() implies t2[x].0
        != unset() && edge_in_order(g, t2, a, x) by {
        assert(a != v);
        assert(t[x].0 != unset());
    }
    assert forall|i: int|
        0 <= i < t2.len() && (#[trigger] t2[i]).0 != unset() && t2[i].1 == unset() implies exists|s: int|
        0 <= s < st2.len() && (#[trigger] st2[s]).0 == i by {
        if i != v {
            assert(t[i] == t2[i]);
            assert(exists|s: int| 0 <= s < 0 && (#[trigger] st2[s]).0 == i);
        } else {
            assert(st2[0].0 == i);
        }
    }
    assert(frame_done_from(g, t2, v, g.egress(v).len() as int));
}

/// Reaching an unreached node `v` along edge `k - 1` of the node `u` on top of the stack.
pub proof fn lemma_discover_child(
    g: &Graph,
    t: Seq<(u64, u64)>,
    st: Seq<(usize, usize)>,
    cur: u64,
    v: usize,
    len_v: usize,
)
    requires
        dfs_state(g, t, st, cur),
        len_v == g.egress(v as int).len(),
        st.len() > 0,
        st[st.len() - 1].1 > 0,
        v < t.len(),
        t[v as int].0 == unset(),
        g.resource_names()[v as int] == g.egress(st[st.len() - 1].0 as int)[st[st.len() - 1].1 - 1].1,
        cur + 1 < unset(),
    ensures
        dfs_state(
            g,
            t.update(v as int, (cur, unset())),
            st.update(
                st.len() - 1,
                (st[st.len() - 1].0, (st[st.len() - 1].1 - 1) as usize),
            ).push((v, len_v)),
            (cur + 1) as u64,
        ),
{
    let v = v as int;
    let top = st.len() - 1;
    let u = st[top].0 as int;
    let k = st[top].1 as int;
    let t2 = t.update(v, (cur, unset()));
    let st1 = st.update(top, (st[top].0, (k - 1) as usize));
    let st2 = st1.push((v as usize, len_v));
    lemma_times_discover(t, cur, v);
    assert(t[v].1 == unset());
    assert forall|a: int, x: int| #[trigger] has_edge(g, a, x) && t2[a].1 != unset() implies t2[x].0
        != unset() && edge_in_order(g, t2, a, x) by {
        assert(a != v);
        assert(t[x].0 != unset());
    }
    // the frames
    assert forall|s: int| 0 <= s < st2.len() implies {
        &&& 0 <= (#[trigger] st2[s]).0 < g.resources@.len()
        &&& t2[st2[s].0 as int].0 != unset()
        &&& t2[st2[s].0 as int].1 == unset()
        &&& st2[s].1 <= g.egress(st2[s].0 as int).len()
        &&& frame_done_from(g, t2, st2[s].0 as int, st2[s].1 as int)
    } by {
        if s < top {
            assert(st2[s] == st[s]);
            let w = st[s].0 as int;
            assert(w != v);
            assert forall|j: int, x: int|
                st[s].1 <= j < g.egress(w).len() && 0 <= x < g.resources@.len()
                    && #[trigger] g.resource_names()[x] == #[trigger] g.egress(w)[j].1 implies t2[x].0
                != unset() by {
                assert(t[x].0 != unset());
            }
        } else if s == top {
            assert(u != v);
            assert forall|j: int, x: int|
                k - 1 <= j < g.egress(u).len() && 0 <= x < g.resources@.len()
                    && #[trigger] g.resource_names()[x] == #[trigger] g.egress(u)[j].1 implies t2[x].0
                != unset() by {
                if j == k - 1 {
                    if x != v {
                        assert(g.resource_names()[x] == g.resource_names()[v]);
                    }
                } else {
                    assert(t[x].0 != unset());
                }
            }
        } else {
            assert(st2[s].0 == v);
        }
    }
    assert forall|s: int, s2: int| 0 <= s < s2 < st2.len() implies t2[(#[trigger] st2[s]).0 as int].0
        < t2[(#[trigger] st2[s2]).0 as int].0 by {
        assert(st[s].0 != v);
        assert(t2[st2[s].0 as int] == t[st[s].0 as int]);
        if s2 < top + 1 {
            assert(st[s2].0 != v);
            assert(st2[s2].0 == st[s2].0);
        }
    }
    assert forall|s: int| 0 <= s < st2.len() - 1 implies has_edge(
        g,
        (#[trigger] st2[s]).0 as int,
        st2[s + 1].0 as int,
    ) by {
        if s < top {
            assert(has_edge(g, st[s].0 as int, st[s + 1].0 as int));
            assert(st2[s + 1].0 == st[s + 1].0);
        } else {
            assert(g.egress(u)[k - 1].1 == g.resource_names()[v]);
        }
    }
    assert forall|i: int|
        0 <= i < t2.len() && (#[trigger] t2[i]).0 != unset() && t2[i].1 == unset() implies exists|s: int|
        0 <= s < st2.len() && (#[trigger] st2[s]).0 == i by {
        if i != v {
            assert(t[i] == t2[i]);
            let s = choose|s: int| 0 <= s < st.len() && (#[trigger] st[s]).0 == i;
            assert(st2[s].0 == i);
        } else {
            assert(st2[top + 1].0 == i);
        }
    }
}

/// Skipping edge `k - 1` of the node on top of the stack, whose target `v` is reached.
pub proof fn lemma_skip_edge(g: &Graph, t: Seq<(u64, u64)>, st: Seq<(usize, usize)>, cur: u64, v: int)
    requires
        dfs_state(g, t, st, cur),
        st.len() > 0,
        st[st.len() - 1].1 > 0,
        0 <= v < t.len(),
        t[v].0 != unset(),
        g.resource_names()[v] == g.egress(st[st.len() - 1].0 as int)[st[st.len() - 1].1 - 1].1,
    ensures
        dfs_state(
            g,
            t,
            st.update(st.len() - 1, (st[st.len() - 1].0, (st[st.len() - 1].1 - 1) as usize)),
            cur,
        ),
{
    let top = st.len() - 1;
    let u = st[top].0 as int;
    let k = st[top].1 as int;
    let st2 = st.update(top, (st[top].0, (k - 1) as usize));
    assert forall|s: int| 0 <= s < st2.len() implies {
        &&& 0 <= (#[trigger] st2[s]).0 < g.resources@.len()
        &&& t[st2[s].0 as int].0 != unset()
        &&& t[st2[s].0 as int].1 == unset()
        &&& st2[s].1 <= g.egress(st2[s].0 as int).len()
        &&& frame_done_from(g, t, st2[s].0 as int, st2[s].1 as int)
    } by {
        if s == top {
            assert forall|j: int, x: int|
                k - 1 <= j < g.egress(u).len() && 0 <= x < g.resources@.len()
                    && #[trigger] g.resource_names()[x] == #[trigger] g.egress(u)[j].1 implies t[x].0
                != unset() by {
                if j == k - 1 {
                    if x != v {
                        assert(g.resource_names()[x] == g.resource_names()[v]);
                    }
                }
            }
        } else {
            assert(st2[s] == st[s]);
        }
    }
    assert forall|s: int, s2: int| 0 <= s < s2 < st2.len() implies t[(#[trigger] st2[s]).0 as int].0
        < t[(#[trigger] st2[s2]).0 as int].0 by {
        assert(st2[s].0 == st[s].0);
        assert(st2[s2].0 == st[s2].0);
    }
    assert forall|s: int| 0 <= s < st2.len() - 1 implies has_edge(
        g,
        (#[trigger] st2[s]).0 as int,
        st2[s + 1].0 as int,
    ) by {
        assert(has_edge(g, st[s].0 as int, st[s + 1].0 as int));
        assert(st2[s].0 == st[s].0);
        assert(st2[s + 1].0 == st[s + 1].0);
    }
    assert forall|i: int|
        0 <= i < t.len() && (#[trigger] t[i]).0 != unset() && t[i].1 == unset() implies exists|s: int|
        0 <= s < st2.len() && (#[trigger] st2[s]).0 == i by {
        let s = choose|s: int| 0 <= s < st.len() && (#[trigger] st[s]).0 == i;
        assert(st2[s].0 == i);
    }
}

/// Leaving the node `u` on top of the stack once all its edges are done.
pub proof fn lemma_finish_top(g: &Graph, t: Seq<(u64, u64)>, st: Seq<(usize, usize)>, cur: u64)
    requires
        dfs_state(g, t, st, cur),
        st.len() > 0,
        st[st.len() - 1].1 == 0,
        cur + 1 < unset(),
    ensures
        dfs_state(
            g,
            t.update(st[st.len() - 1].0 as int, (t[st[st.len() - 1].0 as int].0, cur)),
            st.drop_last(),
            (cur + 1) as u64,
        ),
{
    let top = st.len() - 1;
    let u = st[top].0 as int;
    let t2 = t.update(u, (t[u].0, cur));
    let st2 = st.drop_last();
    lemma_times_finish(t, cur, u);
    // the edges of u are in order
    assert forall|x: int| #[trigger] has_edge(g, u, x) implies t2[x].0 != unset() && edge_in_order(
        g,
        t2,
        u,
        x,
    ) by {
        let j = choose|j: int| 0 <= j < g.egress(u).len() && #[trigger] g.egress(u)[j].1 == g.resource_names()[x];
        assert(t[x].0 != unset());
        if x == u {
            lemma_reaches_self(g, u);
        } else if t[x].1 != unset() {
            assert(t[x].1 < cur);
        } else {
            let s = choose|s: int| 0 <= s < st.len() && (#[trigger] st[s]).0 == x;
            lemma_stack_reaches(g, t, st, s);
            if s < top {
                assert(t[st[s].0 as int].0 < t[st[top].0 as int].0);
            }
        }
    }
    assert forall|a: int, x: int| #[trigger] has_edge(g, a, x) && t2[a].1 != unset() implies t2[x].0
        != unset() && edge_in_order(g, t2, a, x) by {
        if a != u {
            assert(t[a] == t2[a]);
            assert(t[x].0 != unset() && edge_in_order(g, t, a, x));
            if x == u {
                assert(t[a].1 < cur);
            }
        }
    }
    assert forall|s: int| 0 <= s < st2.len() implies {
        &&& 0 <= (#[trigger] st2[s]).0 < g.resources@.len()
        &&& t2[st2[s].0 as int].0 != unset()
        &&& t2[st2[s].0 as int].1 == unset()
        &&& st2[s].1 <= g.egress(st2[s].0 as int).len()
        &&& frame_done_from(g, t2, st2[s].0 as int, st2[s].1 as int)
    } by {
        assert(st2[s] == st[s]);
        assert(t[st[s].0 as int].0 < t[st[top].0 as int].0);
        let w = st[s].0 as int;
        assert forall|j: int, x: int|
            st[s].1 <= j < g.egress(w).len() && 0 <= x < g.resources@.len()
                && #[trigger] g.resource_names()[x] == #[trigger] g.egress(w)[j].1 implies t2[x].0
            != unset() by {
            assert(t[x].0 != unset());
        }
    }
    assert forall|s: int, s2: int| 0 <= s < s2 < st2.len() implies t2[(#[trigger] st2[s]).0 as int].0
        < t2[(#[trigger] st2[s2]).0 as int].0 by {
        assert(st2[s] == st[s]);
        assert(st2[s2] == st[s2]);
        assert(t[st[s].0 as int].0 < t[st[s2].0 as int].0);
    }
    assert forall|s: int| 0 <= s < st2.len() - 1 implies has_edge(
        g,
        (#[trigger] st2[s]).0 as int,
        st2[s + 1].0 as int,
    ) by {
        assert(has_edge(g, st[s].0 as int, st[s + 1].0 as int));
        assert(st2[s] == st[s]);
        assert(st2[s + 1] == st[s + 1]);
    }
    assert forall|i: int|
        0 <= i < t2.len() && (#[trigger] t2[i]).0 != unset() && t2[i].1 == unset() implies exists|s: int|
        0 <= s < st2.len() && (#[trigger] st2[s]).0 == i by {
        assert(i != u);
        assert(t[i] == t2[i]);
        let s = choose|s: int| 0 <= s < st.len() && (#[trigger] st[s]).0 == i;
        assert(s != top);
        assert(st2[s].0 == i);
    }
}


/// The edges still to be looked at in the frames of the stack.
pub open spec fn frames_left(st: Seq<(usize, usize)>) -> nat
    decreases st.len(),
{
    if st.len() == 0 {
        0
    } else {
        frames_left(st.drop_last()) + st[st.len() - 1].1 as nat
    }
}

/// Stepping the top frame back by one edge lowers the work left by one.
pub proof fn lemma_frames_left_step(st: Seq<(usize, usize)>)
    requires
        st.len() > 0,
        st[st.len() - 1].1 > 0,
    ensures
        frames_left(st.update(st.len() - 1, (st[st.len() - 1].0, (st[st.len() - 1].1 - 1) as usize)))
            + 1 == frames_left(st),
{
    let st2 = st.update(st.len() - 1, (st[st.len() - 1].0, (st[st.len() - 1].1 - 1) as usize));
    assert(st2.drop_last() =~= st.drop_last());
}

/// The clock never passes twice the number of nodes.
pub proof fn lemma_clock_bound(t: Seq<(u64, u64)>, cur: u64)
    requires
        times_ok(t, cur),
    ensures
        cur <= 2 * t.len(),
{
    lemma_counts_bounded(t);
}

impl Graph {
    /// Stamps every resource with the times at which a depth-first traversal
    /// reaches and leaves it, and stores them in `topological_sort_result`.
    /// Leaving times order the resources topologically: an edge `u -> v`
    /// has `v` left before `u` unless `v` reaches back to `u`.
    pub fn topological_sort(&mut self)
        requires
            old(self).structure_ok(),
            2 * old(self).resources@.len() < unset(),
        ensures
            final(self).recipes@ == old(self).recipes@,
            final(self).resources@ == old(self).resources@,
            final(self).well_formed() == old(self).well_formed(),
            final(self).structure_ok(),
            valid_times(final(self), final(self).topological_sort_result@),
    {
        let n = self.resources.len();
        let mut times: Vec<(u64, u64)> = Vec::new();
        for i in 0..n
            invariant
                times@.len() == i,
                forall|k: int| 0 <= k < i ==> #[trigger] times@[k] == (unset(), unset()),
        {
            times.push((0xffff_ffff_ffff_ffffu64, 0xffff_ffff_ffff_ffffu64));
        }
        let mut cur: u64 = 0;
        let mut stack: Vec<(usize, usize)> = Vec::new();
        proof {
            assert(discovered_set(times@) =~= Set::empty());
            assert(finished_set(times@) =~= Set::empty());
            assert(stack@ =~= seq![]);
        }
        let mut start: usize = 0;
        while start < n
            invariant
                dfs_state(self, times@, stack@, cur),
                stack@.len() == 0,
                start <= n,
                n == self.resources@.len(),
                self.recipes@ == old(self).recipes@,
                self.resources@ == old(self).resources@,
                2 * n < unset(),
                forall|i: int| 0 <= i < start ==> (#[trigger] times@[i]).0 != unset(),
            decreases n - start,
        {
            if times[start].0 == 0xffff_ffff_ffff_ffffu64 {
                proof {
                    lemma_clock_room(times@, cur, start as int);
                    assert(stack@ =~= seq![]);
                }
                let len_v = self.resources[start].egress_edges.len();
                proof {
                    lemma_discover_root(self, times@, cur, start, len_v);
                }
                times.set(start, (cur, 0xffff_ffff_ffff_ffffu64));
                cur = cur + 1;
                stack.push((start, len_v));
                proof {
                    assert(stack@ =~= seq![(start, len_v)]);
                }
                while stack.len() > 0
                    invariant
                        dfs_state(self, times@, stack@, cur),
                        start < n,
                        n == self.resources@.len(),
                        self.recipes@ == old(self).recipes@,
                        self.resources@ == old(self).resources@,
                        2 * n < unset(),
                        forall|i: int| 0 <= i <= start ==> (#[trigger] times@[i]).0 != unset(),
                    decreases 2 * n - cur, frames_left(stack@),
                {
                    proof {
                        lemma_clock_bound(times@, cur);
                    }
                    let top = stack.len() - 1;
                    let (u, k) = stack[top];
                    if k == 0 {
                        proof {
                            lemma_clock_room(times@, cur, u as int);
                            lemma_finish_top(self, times@, stack@, cur);
                        }
                        let ghost st0 = stack@;
                        let d = times[u].0;
                        times.set(u, (d, cur));
                        cur = cur + 1;
                        stack.pop();
                        proof {
                            assert(stack@ =~= st0.drop_last());
                        }
                    } else {
                        let target = self.find_resource(&self.resources[u].egress_edges[k - 1].to);
                        let v = match target {
                            Some(v) => v,
                            None => {
                                proof {
                                    assert(self.egress(u as int)[k - 1].1 == self.resources@[u as int].egress_edges@[k - 1]@.1);
                                    assert(self.has_resource(self.egress(u as int)[k - 1].1));
                                    assert(false);
                                }
                                return;
                            },
                        };
                        if times[v].0 == 0xffff_ffff_ffff_ffffu64 {
                            proof {
                                lemma_clock_room(times@, cur, v as int);
                            }
                            let len_v = self.resources[v].egress_edges.len();
                            proof {
                                lemma_discover_child(self, times@, stack@, cur, v, len_v);
                            }
                            stack.set(top, (u, k - 1));
                            times.set(v, (cur, 0xffff_ffff_ffff_ffffu64));
                            cur = cur + 1;
                            stack.push((v, len_v));
                        } else {
                            proof {
                                lemma_skip_edge(self, times@, stack@, cur, v as int);
                                lemma_frames_left_step(stack@);
                            }
                            stack.set(top, (u, k - 1));
                        }
                    }
                    proof {
                        lemma_clock_bound(times@, cur);
                    }
                }
            }
            start = start + 1;
        }
        let ghost before = *self;
        self.topological_sort_result = times;
        proof {
            crate::graph::lemma_same_parts(self, &before);
            crate::graph::lemma_same_parts(&before, old(self));
            lemma_clock_bound(times@, cur);
            let t = times@;
            assert forall|i: int| 0 <= i < n implies (#[trigger] t[i]).1 != unset() by {
                if t[i].1 == unset() {
                    assert(t[i].0 != unset());
                    assert(exists|s: int| 0 <= s < stack@.len() && (#[trigger] stack@[s]).0 == i);
                }
            }
            assert forall|u: int, v: int| #[trigger] has_edge(self, u, v) implies edge_in_order(self, t, u, v) by {
                assert(self.resources@ == before.resources@);
                assert(self.egress(u) == before.egress(u));
                assert(self.resource_names() == before.resource_names());
                let j = choose|j: int| 0 <= j < self.egress(u).len() && #[trigger] self.egress(u)[j].1 == self.resource_names()[v];
                assert(before.egress(u)[j].1 == before.resource_names()[v]);
                assert(has_edge(&before, u, v));
                assert(t[u].1 != unset());
                assert(edge_in_order(&before, t, u, v));
                if !(t[v].1 < t[u].1) {
                    let p = choose|p: Seq<int>| is_path(&before, p) && p[0] == v && p[p.len() - 1] == u;
                    assert forall|i: int| 0 <= i < p.len() - 1 implies has_edge(self, #[trigger] p[i], p[i + 1]) by {
                        assert(has_edge(&before, p[i], p[i + 1]));
                        let a = p[i];
                        let b = p[i + 1];
                        assert(self.egress(a) == before.egress(a));
                        let j = choose|j: int| 0 <= j < before.egress(a).len() && #[trigger] before.egress(a)[j].1 == before.resource_names()[b];
                        assert(self.egress(a)[j].1 == self.resource_names()[b]);
                    }
                    assert(is_path(self, p));
                }
            }
        }
    }
}


/// The finish time recorded for the resource named `name`.
pub open spec fn finish_of(g: &Graph, name: Seq<char>) -> u64 {
    g.topological_sort_result@[g.resource_index(name)].1
}

/// `s` lists resources from the latest finish time to the earliest.
pub open spec fn finish_descending(g: &Graph, s: Seq<Seq<char>>) -> bool {
    forall|a: int, b: int| 0 <= a < b < s.len() ==> finish_of(g, #[trigger] s[a]) >= finish_of(g, #[trigger] s[b])
}

/// The names of `s` whose finish time is `v`, in their order in `s`.
pub open spec fn with_finish(g: &Graph, s: Seq<Seq<char>>, v: u64) -> Seq<Seq<char>> {
    s.filter(finish_is(g, v))
}

/// Whether a resource's finish time is `v`.
pub open spec fn finish_is(g: &Graph, v: u64) -> spec_fn(Seq<char>) -> bool {
    |x: Seq<char>| finish_of(g, x) == v
}

/// Inserting `x` at `p`, where no later entry passes `f`, adds `x` at the
/// end of the entries that pass `f` (when it passes).
pub proof fn lemma_filter_insert_before_failing<A>(s: Seq<A>, p: int, x: A, f: spec_fn(A) -> bool)
    requires
        0 <= p <= s.len(),
        forall|k: int| p <= k < s.len() ==> !f(#[trigger] s[k]),
    ensures
        s.insert(p, x).filter(f) == if f(x) {
            s.filter(f).push(x)
        } else {
            s.filter(f)
        },
{
    reveal(Seq::filter);
    let a = s.take(p);
    let b = s.skip(p);
    assert(s.insert(p, x) =~= a.push(x) + b);
    assert(s =~= a + b);
    Seq::filter_distributes_over_add(a.push(x), b, f);
    Seq::filter_distributes_over_add(a, b, f);
    assert(b.all(|y: A| !f(y))) by {
        assert forall|k: int| 0 <= k < b.len() implies !f(#[trigger] b[k]) by {
            assert(b[k] == s[p + k]);
        }
    }
    b.lemma_all_neg_filter_empty(f);
    assert(b.filter(f) =~= Seq::<A>::empty());
    assert(a.push(x).drop_last() =~= a);
    assert(a.push(x).filter(f) + b.filter(f) =~= a.push(x).filter(f));
    assert(a.filter(f) + b.filter(f) =~= a.filter(f));
}

/// Inserting an entry that fails `f` leaves the entries that pass `f` as they were.
pub proof fn lemma_filter_insert_failing<A>(s: Seq<A>, p: int, x: A, f: spec_fn(A) -> bool)
    requires
        0 <= p <= s.len(),
        !f(x),
    ensures
        s.insert(p, x).filter(f) == s.filter(f),
{
    reveal(Seq::filter);
    let a = s.take(p);
    let b = s.skip(p);
    assert(s.insert(p, x) =~= a.push(x) + b);
    assert(s =~= a + b);
    Seq::filter_distributes_over_add(a.push(x), b, f);
    Seq::filter_distributes_over_add(a, b, f);
    assert(a.push(x).drop_last() =~= a);
}

/// Filtering a sequence extended by `x`.
pub proof fn lemma_filter_push<A>(s: Seq<A>, x: A, f: spec_fn(A) -> bool)
    ensures
        s.push(x).filter(f) == if f(x) {
            s.filter(f).push(x)
        } else {
            s.filter(f)
        },
{
    reveal(Seq::filter);
    assert(s.push(x).drop_last() =~= s);
}

impl Graph {
    /// The finish time of the resource named `name`.
    pub fn finish_time(&self, name: &String) -> (t: u64)
        requires
            self.structure_ok(),
            self.topological_sort_result@.len() == self.resources@.len(),
            self.has_resource(name@),
        ensures
            t == finish_of(self, name@),
    {
        match self.find_resource(name) {
            Some(i) => {
                proof {
                    self.lemma_resource_index(i as int);
                }
                self.topological_sort_result[i].1
            },
            None => {
                proof {
                    assert(false);
                }
                0
            },
        }
    }

    /// Orders `resource_list` from the latest finish time to the earliest, so
    /// that after `topological_sort` producers come before what they produce;
    /// entries with equal times keep their relative order.
    pub fn sort_topologically(&self, resource_list: &mut Vec<String>)
        requires
            self.structure_ok(),
            self.topological_sort_result@.len() == self.resources@.len(),
            forall|k: int| 0 <= k < old(resource_list)@.len() ==> self.has_resource(#[trigger] old(resource_list)@[k]@),
        ensures
            names_of(final(resource_list)@).to_multiset() == names_of(old(resource_list)@).to_multiset(),
            finish_descending(self, names_of(final(resource_list)@)),
            forall|v: u64| #[trigger] with_finish(self, names_of(final(resource_list)@), v) == with_finish(
                self,
                names_of(old(resource_list)@),
                v,
            ),
    {
        let ghost src = names_of(resource_list@);
        let mut res: Vec<String> = Vec::new();
        let mut keys: Vec<u64> = Vec::new();
        let mut i: usize = 0;
        assert(names_of(res@) =~= src.take(0));
        while i < resource_list.len()
            invariant
                src == names_of(resource_list@),
                forall|k: int| 0 <= k < src.len() ==> self.has_resource(#[trigger] src[k]),
                self.structure_ok(),
                self.topological_sort_result@.len() == self.resources@.len(),
                i <= src.len(),
                res@.len() == keys@.len(),
                forall|k: int| 0 <= k < keys@.len() ==> #[trigger] keys@[k] == finish_of(self, names_of(res@)[k]),
                forall|a: int, b: int| 0 <= a < b < keys@.len() ==> #[trigger] keys@[a] >= #[trigger] keys@[b],
                names_of(res@).to_multiset() == src.take(i as int).to_multiset(),
                forall|v: u64| #[trigger] with_finish(self, names_of(res@), v) == with_finish(self, src.take(i as int), v),
            decreases src.len() - i,
        {
            let x = resource_list[i].clone();
            assert(src[i as int] == x@);
            let kx = self.finish_time(&x);
            let mut p: usize = 0;
            while p < keys.len() && keys[p] >= kx
                invariant
                    p <= keys@.len(),
                    forall|k: int| 0 <= k < p ==> #[trigger] keys@[k] >= kx,
                decreases keys@.len() - p,
            {
                p = p + 1;
            }
            let ghost before = names_of(res@);
            let ghost kbefore = keys@;
            assert(forall|v: u64| #[trigger] with_finish(self, before, v) == with_finish(self, src.take(i as int), v));
            res.insert(p, x);
            keys.insert(p, kx);
            proof {
                let after = names_of(res@);
                assert(after =~= before.insert(p as int, x@));
                assert forall|k: int| 0 <= k < keys@.len() implies #[trigger] keys@[k] == finish_of(self, names_of(res@)[k]) by {
                    if k < p {
                        assert(after[k] == before[k]);
                    } else if k > p {
                        assert(after[k] == before[k - 1]);
                    }
                }
                assert forall|a: int, b: int| 0 <= a < b < keys@.len() implies #[trigger] keys@[a] >= #[trigger] keys@[b] by {
                    if a < p && b > p {
                        assert(kbefore[a] >= kbefore[b - 1]);
                    } else if a == p && b > p {
                        assert(kbefore[p as int] >= kbefore[b - 1]);
                    } else if a > p {
                        assert(kbefore[a - 1] >= kbefore[b - 1]);
                    }
                }
                assert forall|v: u64| #[trigger] with_finish(self, after, v) == with_finish(self, src.take(i + 1), v) by {
                    let f = finish_is(self, v);
                    assert(with_finish(self, before, v) == with_finish(self, src.take(i as int), v));
                    assert(src.take(i + 1) =~= src.take(i as int).push(x@));
                    lemma_filter_push(src.take(i as int), x@, f);
                    if v == kx {
                        assert forall|k: int| p <= k < before.len() implies !f(#[trigger] before[k]) by {
                            assert(kbefore[k] == finish_of(self, before[k]));
                            assert(kbefore[p as int] < kx);
                            if k > p {
                                assert(kbefore[p as int] >= kbefore[k]);
                            }
                        }
                        lemma_filter_insert_before_failing(before, p as int, x@, f);
                    } else {
                        lemma_filter_insert_failing(before, p as int, x@, f);
                    }
                }
                vstd::seq_lib::to_multiset_insert(before, p as int, x@);
                assert(src.take(i + 1) =~= src.take(i as int).push(x@));
                vstd::seq_lib::to_multiset_build(src.take(i as int), x@);
            }
            i = i + 1;
        }
        proof {
            assert(src.take(src.len() as int) =~= src);
            assert forall|a: int, b: int| 0 <= a < b < res@.len() implies finish_of(self, #[trigger] names_of(res@)[a]) >= finish_of(self, #[trigger] names_of(res@)[b]) by {
                assert(keys@[a] >= keys@[b]);
            }
        }
        *resource_list = res;
    }
}

} // verus!
