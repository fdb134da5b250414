//! Laws of the director's visit: what a frame's update reaches.

use crate::director::{
    holds_roots, lemma_roots_rank, lemma_visits_of_fuel, links_ranked_on, root_ids, roots_rank, successors, visits,
    visits_of, visits_of_stack, visits_ranked, with_payload,
};
use crate::scene_check::acyclic_from;
use crate::scene::{live, NodeId, SceneNode};
use crate::scene_lemmas::lemma_concat_contains;
use vstd::prelude::*;

verus! {

/// A visit comes from a stack exactly when it comes from one of its entries.
proof fn lemma_stack_mem<E, T>(ns: Seq<Option<SceneNode<E>>>, st: Seq<(NodeId, T)>, f: nat, v: (NodeId, T))
    ensures
        visits_of_stack(ns, st, f).contains(v) <==> exists|i: int|
            0 <= i < st.len() && #[trigger] visits_of(ns, st[i].0, st[i].1, f).contains(v),
    decreases st.len(),
{
    if st.len() > 0 {
        let d = st.drop_last();
        lemma_stack_mem(ns, d, f, v);
        let a = visits_of(ns, st.last().0, st.last().1, f);
        lemma_concat_contains(a, visits_of_stack(ns, d, f), v);
        if visits_of_stack(ns, st, f).contains(v) {
            if a.contains(v) {
                assert(visits_of(ns, st[st.len() - 1].0, st[st.len() - 1].1, f).contains(v));
            } else {
                let i = choose|i: int| 0 <= i < d.len() && #[trigger] visits_of(ns, d[i].0, d[i].1, f).contains(v);
                assert(d[i] == st[i]);
                assert(visits_of(ns, st[i].0, st[i].1, f).contains(v));
            }
        }
        if exists|i: int| 0 <= i < st.len() && #[trigger] visits_of(ns, st[i].0, st[i].1, f).contains(v) {
            let i = choose|i: int| 0 <= i < st.len() && #[trigger] visits_of(ns, st[i].0, st[i].1, f).contains(v);
            if i < d.len() {
                assert(d[i] == st[i]);
                assert(visits_of(ns, d[i].0, d[i].1, f).contains(v));
            }
        }
    }
}

/// The same for a stack whose entries each get their rank's fuel.
proof fn lemma_ranked_mem<E, T>(
    ns: Seq<Option<SceneNode<E>>>,
    rank: spec_fn(int) -> nat,
    st: Seq<(NodeId, T)>,
    v: (NodeId, T),
)
    ensures
        visits_ranked(ns, st, rank).contains(v) <==> exists|i: int|
            0 <= i < st.len() && #[trigger] visits_of(ns, st[i].0, st[i].1, rank(st[i].0 as int) + 1).contains(v),
    decreases st.len(),
{
    if st.len() > 0 {
        let d = st.drop_last();
        lemma_ranked_mem(ns, rank, d, v);
        let a = visits_of(ns, st.last().0, st.last().1, rank(st.last().0 as int) + 1);
        lemma_concat_contains(a, visits_ranked(ns, d, rank), v);
        if visits_ranked(ns, st, rank).contains(v) {
            if a.contains(v) {
                assert(visits_of(ns, st[st.len() - 1].0, st[st.len() - 1].1, rank(st[st.len() - 1].0 as int) + 1).contains(v));
            } else {
                let i = choose|i: int|
                    0 <= i < d.len() && #[trigger] visits_of(ns, d[i].0, d[i].1, rank(d[i].0 as int) + 1).contains(v);
                assert(d[i] == st[i]);
                assert(visits_of(ns, st[i].0, st[i].1, rank(st[i].0 as int) + 1).contains(v));
            }
        }
        if exists|i: int| 0 <= i < st.len() && #[trigger] visits_of(ns, st[i].0, st[i].1, rank(st[i].0 as int) + 1).contains(v) {
            let i = choose|i: int|
                0 <= i < st.len() && #[trigger] visits_of(ns, st[i].0, st[i].1, rank(st[i].0 as int) + 1).contains(v);
            if i < d.len() {
                assert(d[i] == st[i]);
                assert(visits_of(ns, d[i].0, d[i].1, rank(d[i].0 as int) + 1).contains(v));
            }
        }
    }
}

/// Every visit is of a node.
proof fn lemma_visits_of_live<E, T>(ns: Seq<Option<SceneNode<E>>>, x: NodeId, t: T, f: nat, v: (NodeId, T))
    requires
        visits_of(ns, x, t, f).contains(v),
    ensures
        live(ns, v.0 as int),
    decreases f,
{
    if v != (x, t) {
        let st = with_payload(successors(ns, x), t);
        assert(f > 0 && live(ns, x as int));
        lemma_concat_contains(seq![(x, t)], visits_of_stack(ns, st, (f - 1) as nat), v);
        if seq![(x, t)].contains(v) {
            assert(seq![(x, t)][0] == (x, t));
        }
        lemma_stack_mem(ns, st, (f - 1) as nat, v);
        let i = choose|i: int| 0 <= i < st.len() && #[trigger] visits_of(ns, st[i].0, st[i].1, (f - 1) as nat).contains(v);
        lemma_visits_of_live(ns, st[i].0, st[i].1, (f - 1) as nat, v);
    } else {
        assert(f > 0 && live(ns, x as int));
    }
}

/// Once a visit of `(y, u)` comes from visiting `x`, so does everything that
/// visiting `y` leads to.
proof fn lemma_visits_of_closed<E, T>(
    ns: Seq<Option<SceneNode<E>>>,
    rank: spec_fn(int) -> nat,
    s: Set<NodeId>,
    x: NodeId,
    t: T,
    y: NodeId,
    u: T,
    v: (NodeId, T),
)
    requires
        links_ranked_on(ns, rank, s),
        s.contains(x),
        visits_of(ns, x, t, rank(x as int) + 1).contains((y, u)),
        visits_of(ns, y, u, rank(y as int) + 1).contains(v),
    ensures
        visits_of(ns, x, t, rank(x as int) + 1).contains(v),
    decreases rank(x as int),
{
    let f = rank(x as int) + 1;
    if (y, u) == (x, t) {
    } else {
        let st = with_payload(successors(ns, x), t);
        assert(live(ns, x as int));
        let rest = visits_of_stack(ns, st, (f - 1) as nat);
        assert(visits_of(ns, x, t, f) == seq![(x, t)] + rest);
        lemma_concat_contains(seq![(x, t)], rest, (y, u));
        if seq![(x, t)].contains((y, u)) {
            assert(seq![(x, t)][0] == (x, t));
        }
        lemma_stack_mem(ns, st, (f - 1) as nat, (y, u));
        let i = choose|i: int| 0 <= i < st.len() && #[trigger] visits_of(ns, st[i].0, st[i].1, (f - 1) as nat).contains((y, u));
        let c = st[i].0;
        assert(c == successors(ns, x)[i]);
        assert(rank(c as int) < rank(x as int) && s.contains(c));
        lemma_visits_of_fuel(ns, rank, s, c, t, (f - 1) as nat, rank(c as int) + 1);
        assert(st[i].1 == t);
        lemma_visits_of_closed(ns, rank, s, c, t, y, u, v);
        lemma_visits_of_fuel(ns, rank, s, c, t, (f - 1) as nat, rank(c as int) + 1);
        assert(visits_of(ns, st[i].0, st[i].1, (f - 1) as nat).contains(v));
        lemma_stack_mem(ns, st, (f - 1) as nat, v);
        lemma_concat_contains(seq![(x, t)], rest, v);
    }
}

/// Whatever visiting a node of a set closed under links leads to is in the
/// set.
proof fn lemma_visits_of_in<E, T>(
    ns: Seq<Option<SceneNode<E>>>,
    rank: spec_fn(int) -> nat,
    s: Set<NodeId>,
    x: NodeId,
    t: T,
    f: nat,
    v: (NodeId, T),
)
    requires
        links_ranked_on(ns, rank, s),
        s.contains(x),
        visits_of(ns, x, t, f).contains(v),
    ensures
        s.contains(v.0),
    decreases f,
{
    if v != (x, t) {
        let st = with_payload(successors(ns, x), t);
        assert(f > 0 && live(ns, x as int));
        lemma_concat_contains(seq![(x, t)], visits_of_stack(ns, st, (f - 1) as nat), v);
        if seq![(x, t)].contains(v) {
            assert(seq![(x, t)][0] == (x, t));
        }
        lemma_stack_mem(ns, st, (f - 1) as nat, v);
        let i = choose|i: int| 0 <= i < st.len() && #[trigger] visits_of(ns, st[i].0, st[i].1, (f - 1) as nat).contains(v);
        assert(st[i].0 == successors(ns, x)[i]);
        lemma_visits_of_in(ns, rank, s, st[i].0, st[i].1, (f - 1) as nat, v);
    }
}

/// The director's visit from a stack of roots reaches every root that is a
/// node, with the root's payload; passes each visited node's payload on to
/// its children and its mask node (whenever they are nodes); and visits
/// nothing but nodes.
pub proof fn lemma_visits_reach<E, T>(ns: Seq<Option<SceneNode<E>>>, roots: Seq<(NodeId, T)>)
    requires
        acyclic_from(ns, root_ids(roots), true),
    ensures
        forall|i: int|
            0 <= i < roots.len() && live(ns, roots[i].0 as int) ==> #[trigger] visits(ns, roots).contains(roots[i]),
        forall|x: NodeId, t: T, j: int|
            #![trigger visits(ns, roots).contains((x, t)), successors(ns, x)[j]]
            visits(ns, roots).contains((x, t)) && 0 <= j < successors(ns, x).len() && live(ns, successors(ns, x)[j] as int)
                ==> visits(ns, roots).contains((successors(ns, x)[j], t)),
        forall|v: (NodeId, T)| #[trigger] visits(ns, roots).contains(v) ==> live(ns, v.0 as int),
{
    lemma_roots_rank(ns, roots);
    let rank = roots_rank(ns, roots).0;
    let s = roots_rank(ns, roots).1;
    assert forall|i: int| 0 <= i < roots.len() && live(ns, roots[i].0 as int) implies #[trigger] visits(
        ns,
        roots,
    ).contains(roots[i]) by {
        let r = roots[i];
        let w = visits_of(ns, r.0, r.1, rank(r.0 as int) + 1);
        assert(w[0] == r);
        assert(w.contains(r));
        lemma_ranked_mem(ns, rank, roots, r);
    }
    assert forall|x: NodeId, t: T, j: int|
        #![trigger visits(ns, roots).contains((x, t)), successors(ns, x)[j]]
        visits(ns, roots).contains((x, t)) && 0 <= j < successors(ns, x).len() && live(ns, successors(ns, x)[j] as int)
            implies visits(ns, roots).contains((successors(ns, x)[j], t)) by {
        let c = successors(ns, x)[j];
        lemma_ranked_mem(ns, rank, roots, (x, t));
        let i = choose|i: int|
            0 <= i < roots.len() && #[trigger] visits_of(ns, roots[i].0, roots[i].1, rank(roots[i].0 as int) + 1).contains(
                (x, t),
            );
        let r = roots[i];
        assert(holds_roots(s, roots) && s.contains(r.0));
        // `x` is a node of the ranked set, and visiting it visits `c` first thing.
        lemma_visits_of_live(ns, r.0, r.1, rank(r.0 as int) + 1, (x, t));
        lemma_visits_of_in(ns, rank, s, r.0, r.1, rank(r.0 as int) + 1, (x, t));
        let st = with_payload(successors(ns, x), t);
        assert(st[j] == (c, t));
        assert(rank(c as int) < rank(x as int) && s.contains(c));
        lemma_visits_of_fuel(ns, rank, s, c, t, rank(x as int), rank(c as int) + 1);
        let wc = visits_of(ns, c, t, rank(x as int));
        assert(wc[0] == (c, t));
        assert(wc.contains((c, t)));
        assert(visits_of(ns, st[j].0, st[j].1, rank(x as int)).contains((c, t)));
        lemma_stack_mem(ns, st, rank(x as int), (c, t));
        let wx = visits_of(ns, x, t, rank(x as int) + 1);
        lemma_concat_contains(seq![(x, t)], visits_of_stack(ns, st, rank(x as int)), (c, t));
        assert(wx.contains((c, t)));
        lemma_visits_of_closed(ns, rank, s, r.0, r.1, x, t, (c, t));
        lemma_ranked_mem(ns, rank, roots, (c, t));
        assert(visits_of(ns, roots[i].0, roots[i].1, rank(roots[i].0 as int) + 1).contains((c, t)));
    }
    assert forall|v: (NodeId, T)| #[trigger] visits(ns, roots).contains(v) implies live(ns, v.0 as int) by {
        lemma_ranked_mem(ns, rank, roots, v);
        let i = choose|i: int|
            0 <= i < roots.len() && #[trigger] visits_of(ns, roots[i].0, roots[i].1, rank(roots[i].0 as int) + 1).contains(v);
        lemma_visits_of_live(ns, roots[i].0, roots[i].1, rank(roots[i].0 as int) + 1, v);
    }
}

/// `p` is a path of links from `p[0]` to `p.last()` through nodes.
pub open spec fn is_link_path<E>(ns: Seq<Option<SceneNode<E>>>, p: Seq<NodeId>) -> bool {
    &&& p.len() > 0
    &&& forall|i: int| 0 <= i < p.len() ==> live(ns, #[trigger] p[i] as int)
    &&& forall|i: int| 0 <= i < p.len() - 1 ==> #[trigger] successors(ns, p[i]).contains(p[i + 1])
}

/// Whether a path of links leads from node `r` to node `x`.
pub open spec fn reaches<E>(ns: Seq<Option<SceneNode<E>>>, r: NodeId, x: NodeId) -> bool {
    exists|p: Seq<NodeId>| #[trigger] is_link_path(ns, p) && p[0] == r && p.last() == x
}

/// What visiting `(r, t)` leads to is reached from `r`, with `t`.
proof fn lemma_visits_of_reached<E, T>(
    ns: Seq<Option<SceneNode<E>>>,
    r: NodeId,
    t: T,
    f: nat,
    v: (NodeId, T),
)
    requires
        visits_of(ns, r, t, f).contains(v),
    ensures
        v.1 == t,
        reaches(ns, r, v.0),
    decreases f,
{
    assert(f > 0 && live(ns, r as int));
    if v == (r, t) {
        let p = seq![r];
        assert(is_link_path(ns, p));
    } else {
        let st = with_payload(successors(ns, r), t);
        lemma_concat_contains(seq![(r, t)], visits_of_stack(ns, st, (f - 1) as nat), v);
        if seq![(r, t)].contains(v) {
            assert(seq![(r, t)][0] == (r, t));
        }
        lemma_stack_mem(ns, st, (f - 1) as nat, v);
        let i = choose|i: int| 0 <= i < st.len() && #[trigger] visits_of(ns, st[i].0, st[i].1, (f - 1) as nat).contains(v);
        let c = st[i].0;
        assert(c == successors(ns, r)[i] && st[i].1 == t);
        lemma_visits_of_reached(ns, c, t, (f - 1) as nat, v);
        let q = choose|q: Seq<NodeId>| #[trigger] is_link_path(ns, q) && q[0] == c && q.last() == v.0;
        let p = seq![r] + q;
        assert(successors(ns, r).contains(c));
        assert forall|k: int| 0 <= k < p.len() implies live(ns, #[trigger] p[k] as int) by {
            if k > 0 {
                assert(p[k] == q[k - 1]);
            }
        }
        assert forall|k: int| 0 <= k < p.len() - 1 implies #[trigger] successors(ns, p[k]).contains(p[k + 1]) by {
            if k == 0 {
                assert(p[1] == q[0]);
            } else {
                assert(p[k] == q[k - 1] && p[k + 1] == q[k]);
                assert(successors(ns, q[k - 1]).contains(q[k - 1 + 1]));
            }
        }
        assert(is_link_path(ns, p) && p[0] == r && p.last() == v.0);
    }
}

/// Along a path from a visited node, every node is visited with the same
/// payload.
proof fn lemma_path_visited<E, T>(ns: Seq<Option<SceneNode<E>>>, roots: Seq<(NodeId, T)>, p: Seq<NodeId>, t: T, k: int)
    requires
        acyclic_from(ns, root_ids(roots), true),
        is_link_path(ns, p),
        visits(ns, roots).contains((p[0], t)),
        0 <= k < p.len(),
    ensures
        visits(ns, roots).contains((p[k], t)),
    decreases k,
{
    if k > 0 {
        lemma_path_visited(ns, roots, p, t, k - 1);
        lemma_visits_reach(ns, roots);
        assert(successors(ns, p[k - 1]).contains(p[k - 1 + 1]));
        let sc = successors(ns, p[k - 1]);
        let j = choose|j: int| 0 <= j < sc.len() && #[trigger] sc[j] == p[k];
        assert(live(ns, p[k] as int));
        assert(visits(ns, roots).contains((sc[j], t)));
    }
}

/// The director's visit from a stack of roots visits exactly the nodes that
/// the roots reach through child and mask links, each with the payload of a
/// root that reaches it.
pub proof fn lemma_visits_are_reached<E, T>(ns: Seq<Option<SceneNode<E>>>, roots: Seq<(NodeId, T)>, x: NodeId, t: T)
    requires
        acyclic_from(ns, root_ids(roots), true),
    ensures
        visits(ns, roots).contains((x, t)) <==> exists|i: int|
            0 <= i < roots.len() && roots[i].1 == t && #[trigger] reaches(ns, roots[i].0, x),
{
    let rank = roots_rank(ns, roots).0;
    if visits(ns, roots).contains((x, t)) {
        lemma_ranked_mem(ns, rank, roots, (x, t));
        let i = choose|i: int|
            0 <= i < roots.len() && #[trigger] visits_of(ns, roots[i].0, roots[i].1, rank(roots[i].0 as int) + 1).contains(
                (x, t),
            );
        lemma_visits_of_reached(ns, roots[i].0, roots[i].1, rank(roots[i].0 as int) + 1, (x, t));
        assert(reaches(ns, roots[i].0, x));
    }
    if exists|i: int| 0 <= i < roots.len() && roots[i].1 == t && #[trigger] reaches(ns, roots[i].0, x) {
        let i = choose|i: int| 0 <= i < roots.len() && roots[i].1 == t && #[trigger] reaches(ns, roots[i].0, x);
        let p = choose|p: Seq<NodeId>| #[trigger] is_link_path(ns, p) && p[0] == roots[i].0 && p.last() == x;
        lemma_visits_reach(ns, roots);
        assert(live(ns, p[0] as int));
        assert(roots[i] == (p[0], t));
        assert(visits(ns, roots).contains(roots[i]));
        lemma_path_visited(ns, roots, p, t, p.len() - 1);
    }
}

} // verus!
