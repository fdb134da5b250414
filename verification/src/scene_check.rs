//! Checking that the scene graph's links contain no cycle, which the
//! recursive operations (destroying a subtree, visiting a frame) need in
//! order to end.

use crate::director::{links_acyclic, links_ranked, links_ranked_on, successors};
use crate::scene::{acyclic, kids, live, node_at, ranked, ranked_on, NodeId, SceneGraph, SceneNode};
use vstd::prelude::*;

verus! {

/// The links of node `x`: its children, and its mask node when `masks` is set.
pub open spec fn links<E>(ns: Seq<Option<SceneNode<E>>>, x: NodeId, masks: bool) -> Seq<NodeId> {
    if masks {
        successors(ns, x)
    } else {
        kids(ns, x as int)
    }
}

/// Every link goes from a node to one of strictly lower rank.
pub open spec fn ranked_links<E>(ns: Seq<Option<SceneNode<E>>>, rank: spec_fn(int) -> nat, masks: bool) -> bool {
    forall|x: NodeId, j: int|
        #![trigger links(ns, x, masks)[j]]
        live(ns, x as int) && 0 <= j < links(ns, x, masks).len() ==> rank(links(ns, x, masks)[j] as int) < rank(
            x as int,
        )
}

/// Every link out of a node of `s` leads into `s`, to a node of strictly
/// lower rank.
pub open spec fn ranked_links_on<E>(ns: Seq<Option<SceneNode<E>>>, rank: spec_fn(int) -> nat, s: Set<NodeId>, masks: bool) -> bool {
    forall|x: NodeId, j: int|
        #![trigger s.contains(x), links(ns, x, masks)[j]]
        s.contains(x) && live(ns, x as int) && 0 <= j < links(ns, x, masks).len() ==> s.contains(links(ns, x, masks)[j])
            && rank(links(ns, x, masks)[j] as int) < rank(x as int)
}

/// No cycle of links can be reached from the nodes `roots`: some set that
/// holds them, and that every link out of it leads back into, is ranked.
pub open spec fn acyclic_from<E>(ns: Seq<Option<SceneNode<E>>>, roots: Seq<NodeId>, masks: bool) -> bool {
    exists|rank: spec_fn(int) -> nat, s: Set<NodeId>|
        ranked_links_on(ns, rank, s, masks) && forall|i: int| 0 <= i < roots.len() ==> s.contains(#[trigger] roots[i])
}

/// Every link out of a node of `s` leads into `s`.
pub open spec fn closed_under<E>(ns: Seq<Option<SceneNode<E>>>, s: Set<NodeId>, masks: bool) -> bool {
    forall|x: NodeId, j: int|
        #![trigger s.contains(x), links(ns, x, masks)[j]]
        s.contains(x) && live(ns, x as int) && 0 <= j < links(ns, x, masks).len() ==> s.contains(links(ns, x, masks)[j])
}

/// Every set closed under links that holds `a` holds `b`: `b` can be reached
/// from `a`.
pub open spec fn reached_from<E>(ns: Seq<Option<SceneNode<E>>>, masks: bool, a: NodeId, b: NodeId) -> bool {
    forall|s: Set<NodeId>| #[trigger] closed_under(ns, s, masks) && s.contains(a) ==> s.contains(b)
}

/// Where a search below `path` started: the path's first node, or `x` when
/// the path is empty.
spec fn origin(path: Seq<NodeId>, x: NodeId) -> NodeId {
    if path.len() > 0 {
        path[0]
    } else {
        x
    }
}

/// Every set closed under links that holds a path's first node holds its
/// `i`-th.
proof fn lemma_closed_path<E>(ns: Seq<Option<SceneNode<E>>>, path: Seq<NodeId>, masks: bool, s: Set<NodeId>, i: int)
    requires
        closed_under(ns, s, masks),
        s.contains(path[0]),
        0 <= i < path.len(),
        forall|k: int| 0 <= k < path.len() ==> live(ns, #[trigger] path[k] as int),
        forall|k: int| 0 <= k < path.len() - 1 ==> #[trigger] links(ns, path[k], masks).contains(path[k + 1]),
    ensures
        s.contains(path[i]),
    decreases i,
{
    if i > 0 {
        lemma_closed_path(ns, path, masks, s, i - 1);
        assert(links(ns, path[i - 1], masks).contains(path[i - 1 + 1]));
        assert(live(ns, path[i - 1] as int));
        let l = links(ns, path[i - 1], masks);
        let j = choose|j: int| 0 <= j < l.len() && l[j] == path[i];
        assert(s.contains(l[j]));
    }
}

/// A cycle that a ranked set reaches into admits no ranking of that set.
proof fn lemma_cycle_unranked_on<E>(
    ns: Seq<Option<SceneNode<E>>>,
    p: Seq<NodeId>,
    masks: bool,
    rank: spec_fn(int) -> nat,
    s: Set<NodeId>,
)
    requires
        is_cycle(ns, p, masks),
        s.contains(p[0]),
    ensures
        !ranked_links_on(ns, rank, s, masks),
{
    if ranked_links_on(ns, rank, s, masks) {
        let rank2 = |y: int| if s.contains(y as NodeId) && 0 <= y { rank(y) } else { 0nat };
        assert forall|k: int| 0 <= k < p.len() implies s.contains(#[trigger] p[k]) by {
            assert(closed_under(ns, s, masks));
            lemma_closed_path(ns, p, masks, s, k);
        }
        assert forall|i: int| 0 <= i < p.len() implies #[trigger] rank(p[i] as int) + i <= rank(p[0] as int) by {
            lemma_cycle_descends_on(ns, p, masks, rank, s, i);
        }
        let l = p.last();
        assert(live(ns, p[p.len() - 1] as int));
        assert(s.contains(p[p.len() - 1]));
        let lk = links(ns, l, masks);
        let j = choose|j: int| 0 <= j < lk.len() && #[trigger] lk[j] == p[0];
        assert(rank(lk[j] as int) < rank(l as int));
        assert(rank(p[p.len() - 1] as int) + (p.len() - 1) <= rank(p[0] as int));
    }
}

proof fn lemma_cycle_descends_on<E>(
    ns: Seq<Option<SceneNode<E>>>,
    p: Seq<NodeId>,
    masks: bool,
    rank: spec_fn(int) -> nat,
    s: Set<NodeId>,
    i: int,
)
    requires
        is_cycle(ns, p, masks),
        ranked_links_on(ns, rank, s, masks),
        forall|k: int| 0 <= k < p.len() ==> s.contains(#[trigger] p[k]),
        0 <= i < p.len(),
    ensures
        rank(p[i] as int) + i <= rank(p[0] as int),
    decreases i,
{
    if i > 0 {
        lemma_cycle_descends_on(ns, p, masks, rank, s, i - 1);
        assert(links(ns, p[i - 1], masks).contains(p[i - 1 + 1]));
        assert(live(ns, p[i - 1] as int));
        assert(s.contains(p[i - 1]));
        let l = links(ns, p[i - 1], masks);
        let j = choose|j: int| 0 <= j < l.len() && #[trigger] l[j] == p[i];
        assert(rank(l[j] as int) < rank(p[i - 1] as int));
    }
}

/// Ranking a set's links without masks ranks its child links.
pub proof fn lemma_child_links_ranked_on<E>(ns: Seq<Option<SceneNode<E>>>, rank: spec_fn(int) -> nat, s: Set<NodeId>)
    requires
        ns.len() <= usize::MAX,
        ranked_links_on(ns, rank, s, false),
    ensures
        ranked_on(ns, rank, s),
{
    assert forall|x: int, j: int| #![trigger kids(ns, x)[j], live(ns, x)]
        live(ns, x) && s.contains(x as NodeId) && 0 <= j < kids(ns, x).len() implies s.contains(kids(ns, x)[j]) && rank(
            kids(ns, x)[j] as int,
        ) < rank(x) by {
        assert(links(ns, x as NodeId, false)[j] == kids(ns, x)[j]);
    }
}

/// Ranking a set's links with masks is ranking the director's links on it.
pub proof fn lemma_mask_links_ranked_on<E>(ns: Seq<Option<SceneNode<E>>>, rank: spec_fn(int) -> nat, s: Set<NodeId>)
    ensures
        ranked_links_on(ns, rank, s, true) <==> links_ranked_on(ns, rank, s),
{
    if ranked_links_on(ns, rank, s, true) {
        assert forall|x: NodeId, j: int| #![trigger s.contains(x), successors(ns, x)[j]]
            s.contains(x) && live(ns, x as int) && 0 <= j < successors(ns, x).len() implies s.contains(successors(ns, x)[j])
            && rank(successors(ns, x)[j] as int) < rank(x as int) by {
            assert(links(ns, x, true)[j] == successors(ns, x)[j]);
        }
    }
    if links_ranked_on(ns, rank, s) {
        assert forall|x: NodeId, j: int| #![trigger s.contains(x), links(ns, x, true)[j]]
            s.contains(x) && live(ns, x as int) && 0 <= j < links(ns, x, true).len() implies s.contains(links(ns, x, true)[j])
            && rank(links(ns, x, true)[j] as int) < rank(x as int) by {
            assert(successors(ns, x)[j] == links(ns, x, true)[j]);
        }
    }
}

/// `p` is a cycle of links: nodes each linking to the next, the last to the
/// first.
pub open spec fn is_cycle<E>(ns: Seq<Option<SceneNode<E>>>, p: Seq<NodeId>, masks: bool) -> bool {
    &&& p.len() > 0
    &&& forall|i: int| 0 <= i < p.len() ==> live(ns, #[trigger] p[i] as int)
    &&& forall|i: int| 0 <= i < p.len() - 1 ==> #[trigger] links(ns, p[i], masks).contains(p[i + 1])
    &&& links(ns, p.last(), masks).contains(p[0])
}

/// A cycle admits no ranking.
proof fn lemma_cycle_unranked<E>(ns: Seq<Option<SceneNode<E>>>, p: Seq<NodeId>, masks: bool, rank: spec_fn(int) -> nat)
    requires
        is_cycle(ns, p, masks),
    ensures
        !ranked_links(ns, rank, masks),
{
    if !ranked_links(ns, rank, masks) {
        return;
    }
    assert forall|i: int| 0 <= i < p.len() implies #[trigger] rank(p[i] as int) + i <= rank(p[0] as int) by {
        lemma_cycle_descends(ns, p, masks, rank, i);
    }
    let l = p.last();
    assert(live(ns, p[p.len() - 1] as int));
    let lk = links(ns, l, masks);
    let j = choose|j: int| 0 <= j < lk.len() && #[trigger] lk[j] == p[0];
    assert(rank(lk[j] as int) < rank(l as int));
    assert(rank(p[p.len() - 1] as int) + (p.len() - 1) <= rank(p[0] as int));
}

proof fn lemma_cycle_descends<E>(ns: Seq<Option<SceneNode<E>>>, p: Seq<NodeId>, masks: bool, rank: spec_fn(int) -> nat, i: int)
    requires
        is_cycle(ns, p, masks),
        ranked_links(ns, rank, masks),
        0 <= i < p.len(),
    ensures
        rank(p[i] as int) + i <= rank(p[0] as int),
    decreases i,
{
    if i > 0 {
        lemma_cycle_descends(ns, p, masks, rank, i - 1);
        assert(links(ns, p[i - 1], masks).contains(p[i - 1 + 1]));
        assert(live(ns, p[i - 1] as int));
        let l = links(ns, p[i - 1], masks);
        let j = choose|j: int| 0 <= j < l.len() && #[trigger] l[j] == p[i];
        assert(rank(l[j] as int) < rank(p[i - 1] as int));
    }
}

/// The number of unvisited (zero) marks.
spec fn zeros(s: Seq<u8>) -> nat
    decreases s.len(),
{
    if s.len() == 0 {
        0
    } else {
        zeros(s.drop_last()) + if s.last() == 0 {
            1nat
        } else {
            0nat
        }
    }
}

/// Marking more entries leaves fewer zeros: `s2` only turns zeros of `s`
/// into other marks.
proof fn lemma_zeros_mono(s: Seq<u8>, s2: Seq<u8>)
    requires
        s2.len() == s.len(),
        forall|i: int| 0 <= i < s.len() && s2[i] == 0 ==> s[i] == 0,
    ensures
        zeros(s2) <= zeros(s),
        (exists|i: int| 0 <= i < s.len() && s[i] == 0 && s2[i] != 0) ==> zeros(s2) < zeros(s),
    decreases s.len(),
{
    if s.len() > 0 {
        lemma_zeros_mono(s.drop_last(), s2.drop_last());
        if exists|i: int| 0 <= i < s.len() && s[i] == 0 && s2[i] != 0 {
            let i = choose|i: int| 0 <= i < s.len() && s[i] == 0 && s2[i] != 0;
            if i < s.len() - 1 {
                assert(s.drop_last()[i] == 0 && s2.drop_last()[i] != 0);
            }
        }
    }
}

/// The state of the search: marks (0 unvisited, 1 on the current path, 2
/// done), the finishing order of the done nodes, and the current path.
spec fn search_ok<E>(
    ns: Seq<Option<SceneNode<E>>>,
    masks: bool,
    color: Seq<u8>,
    fin: Seq<nat>,
    counter: nat,
    path: Seq<NodeId>,
) -> bool {
    &&& color.len() == ns.len()
    &&& fin.len() == ns.len()
    &&& forall|y: int| 0 <= y < ns.len() ==> #[trigger] color[y] <= 2
    &&& forall|y: int| 0 <= y < ns.len() && #[trigger] color[y] != 0 ==> live(ns, y)
    &&& forall|y: int| 0 <= y < ns.len() ==> (#[trigger] color[y] == 1 <==> path.contains(y as NodeId))
    &&& forall|i: int| 0 <= i < path.len() ==> #[trigger] path[i] < ns.len()
    &&& forall|i: int| 0 <= i < path.len() - 1 ==> #[trigger] links(ns, path[i], masks).contains(path[i + 1])
    &&& forall|y: int, j: int|
        #![trigger color[y], links(ns, y as NodeId, masks)[j]]
        0 <= y < ns.len() && color[y] == 2 && 0 <= j < links(ns, y as NodeId, masks).len() && live(
            ns,
            links(ns, y as NodeId, masks)[j] as int,
        ) ==> color[links(ns, y as NodeId, masks)[j] as int] == 2 && fin[links(ns, y as NodeId, masks)[j] as int]
            < fin[y]
    &&& forall|y: int| 0 <= y < ns.len() && #[trigger] color[y] == 2 ==> fin[y] < counter
}

impl<E> SceneGraph<E> {
    /// Follows the link from the last node of `path` to `c`: nothing when `c`
    /// names no node or is done, a search when it is unvisited, and `false`
    /// (a cycle) when it is on the path.
    fn follow(
        &self,
        c: NodeId,
        masks: bool,
        color: &mut Vec<u8>,
        Ghost(path): Ghost<Seq<NodeId>>,
        Ghost(fin): Ghost<Seq<nat>>,
        Ghost(counter): Ghost<nat>,
    ) -> (r: (bool, Ghost<Seq<nat>>, Ghost<nat>))
        requires
            self.nodes@.len() <= usize::MAX,
            search_ok(self.nodes@, masks, old(color)@, fin, counter, path),
            path.len() > 0,
            links(self.nodes@, path.last(), masks).contains(c),
        ensures
            r.0 ==> {
                &&& search_ok(self.nodes@, masks, final(color)@, r.1@, r.2@, path)
                &&& live(self.nodes@, c as int) ==> final(color)@[c as int] == 2 && r.1@[c as int] < r.2@
                &&& forall|y: int| 0 <= y < old(color)@.len() && old(color)@[y] != 0 ==> #[trigger] final(color)@[y] == old(color)@[y]
                &&& forall|y: int| 0 <= y < old(color)@.len() && old(color)@[y] == 2 ==> #[trigger] r.1@[y] == fin[y]
                &&& r.2@ >= counter
            },
            final(color)@.len() == old(color)@.len(),
            forall|y: int| 0 <= y < old(color)@.len() && #[trigger] final(color)@[y] == 0 ==> old(color)@[y] == 0,
            !r.0 ==> exists|p: Seq<NodeId>| is_cycle(self.nodes@, p, masks) && reached_from(self.nodes@, masks, path[0], p[0]),
            zeros(final(color)@) <= zeros(old(color)@),
        decreases zeros(old(color)@), 2nat,
    {
        let ghost ns = self.nodes@;
        let present = c < self.nodes.len() && self.nodes[c].is_some();
        if !present {
            return (true, Ghost(fin), Ghost(counter));
        }
        let mark = color[c];
        if mark == 1 {
            proof {
                assert(path.contains(c));
                let i = choose|i: int| 0 <= i < path.len() && path[i] == c;
                let p = path.subrange(i, path.len() as int);
                assert(p.last() == path.last());
                assert(p[0] == c);
                assert forall|k: int| 0 <= k < p.len() implies live(ns, #[trigger] p[k] as int) by {
                    assert(p[k] == path[i + k]);
                    assert(path.contains(path[i + k]));
                    assert(color@[path[i + k] as int] == 1);
                }
                assert forall|k: int| 0 <= k < p.len() - 1 implies #[trigger] links(ns, p[k], masks).contains(p[k + 1]) by {
                    assert(p[k] == path[i + k] && p[k + 1] == path[i + k + 1]);
                }
                assert(is_cycle(ns, p, masks));
                assert forall|k: int| 0 <= k < path.len() implies live(ns, #[trigger] path[k] as int) by {
                    assert(path.contains(path[k]));
                    assert(color@[path[k] as int] == 1);
                }
                assert forall|s: Set<NodeId>| #[trigger] closed_under(ns, s, masks) && s.contains(path[0]) implies s.contains(
                    p[0],
                ) by {
                    lemma_closed_path(ns, path, masks, s, i);
                }
                assert(reached_from(ns, masks, path[0], p[0]));
            }
            (false, Ghost(fin), Ghost(counter))
        } else if mark == 0 {
            assert(origin(path, c) == path[0]);
            self.search(c, masks, color, Ghost(path), Ghost(fin), Ghost(counter))
        } else {
            (true, Ghost(fin), Ghost(counter))
        }
    }

    /// Depth-first search from the unvisited node `x`, below the path `path`;
    /// `false` when it closes a cycle.
    fn search(
        &self,
        x: NodeId,
        masks: bool,
        color: &mut Vec<u8>,
        Ghost(path): Ghost<Seq<NodeId>>,
        Ghost(fin): Ghost<Seq<nat>>,
        Ghost(counter): Ghost<nat>,
    ) -> (r: (bool, Ghost<Seq<nat>>, Ghost<nat>))
        requires
            self.nodes@.len() <= usize::MAX,
            search_ok(self.nodes@, masks, old(color)@, fin, counter, path),
            live(self.nodes@, x as int),
            old(color)@[x as int] == 0,
            path.len() > 0 ==> links(self.nodes@, path.last(), masks).contains(x),
        ensures
            r.0 ==> {
                &&& search_ok(self.nodes@, masks, final(color)@, r.1@, r.2@, path)
                &&& final(color)@[x as int] == 2
                &&& r.1@[x as int] < r.2@
                &&& forall|y: int| 0 <= y < old(color)@.len() && old(color)@[y] != 0 ==> #[trigger] final(color)@[y] == old(color)@[y]
                &&& forall|y: int| 0 <= y < old(color)@.len() && old(color)@[y] == 2 ==> #[trigger] r.1@[y] == fin[y]
                &&& r.2@ >= counter
            },
            final(color)@.len() == old(color)@.len(),
            forall|y: int| 0 <= y < old(color)@.len() && #[trigger] final(color)@[y] == 0 ==> old(color)@[y] == 0,
            !r.0 ==> exists|p: Seq<NodeId>| is_cycle(self.nodes@, p, masks) && reached_from(self.nodes@, masks, origin(path, x), p[0]),
            zeros(final(color)@) < zeros(old(color)@),
        decreases zeros(old(color)@), 1nat,
    {
        let ghost ns = self.nodes@;
        let ghost c0 = color@;
        color.set(x, 1);
        let ghost gpath = path.push(x);
        proof {
            lemma_zeros_mono(c0, color@);
            assert(c0[x as int] == 0 && color@[x as int] != 0);
        }
        let ghost mut fin1 = fin;
        let ghost mut counter1 = counter;
        let node = self.nodes[x].as_ref().unwrap();
        let nk = node.children.len();
        let ghost lk = links(ns, x, masks);
        proof {
            assert(gpath.last() == x);
            assert forall|i: int| 0 <= i < gpath.len() - 1 implies #[trigger] links(ns, gpath[i], masks).contains(gpath[i + 1]) by {
                if i < path.len() - 1 {
                    assert(gpath[i] == path[i] && gpath[i + 1] == path[i + 1]);
                } else {
                    assert(gpath[i] == path.last() && gpath[i + 1] == x);
                }
            }
            assert forall|y: int| 0 <= y < ns.len() implies (#[trigger] color@[y] == 1 <==> gpath.contains(y as NodeId)) by {
                if y == x {
                    assert(gpath[gpath.len() - 1] == x);
                } else {
                    if gpath.contains(y as NodeId) {
                        let i = choose|i: int| 0 <= i < gpath.len() && gpath[i] == y as NodeId;
                        assert(path[i] == y as NodeId);
                    }
                    if path.contains(y as NodeId) {
                        let i = choose|i: int| 0 <= i < path.len() && path[i] == y as NodeId;
                        assert(gpath[i] == y as NodeId);
                    }
                }
            }
        }
        let mut j: usize = 0;
        while j < nk
            invariant
                ns == self.nodes@,
                ns.len() <= usize::MAX,
                live(ns, x as int),
                lk == links(ns, x, masks),
                nk == kids(ns, x as int).len(),
                node == node_at(ns, x as int),
                c0 == old(color)@,
                j <= nk,
                color@.len() == c0.len(),
                color@[x as int] == 1,
                zeros(color@) < zeros(c0),
                forall|y: int| 0 <= y < c0.len() && c0[y] != 0 ==> #[trigger] color@[y] == c0[y],
                forall|y: int| 0 <= y < c0.len() && #[trigger] color@[y] == 0 ==> c0[y] == 0,
                forall|y: int| 0 <= y < c0.len() && c0[y] == 2 ==> #[trigger] fin1[y] == fin[y],
                counter1 >= counter,
                search_ok(ns, masks, color@, fin1, counter1, gpath),
                gpath == path.push(x),
                gpath.last() == x,
                forall|i: int|
                    0 <= i < j && live(ns, #[trigger] lk[i] as int) ==> color@[lk[i] as int] == 2 && fin1[lk[i] as int]
                        < counter1,
            decreases nk - j,
        {
            let c = node.children[j];
            proof {
                assert(lk[j as int] == c);
                assert(lk.contains(c));
            }
            let ghost cb = color@;
            let (ok, f2, k2) = self.follow(c, masks, color, Ghost(gpath), Ghost(fin1), Ghost(counter1));
            if !ok {
                proof {
                    assert(gpath[0] == origin(path, x));
                }
                return (false, f2, k2);
            }
            proof {
                assert forall|i: int|
                    0 <= i < j + 1 && live(ns, #[trigger] lk[i] as int) implies color@[lk[i] as int] == 2 && f2@[lk[i]
                        as int] < k2@ by {
                    if i < j {
                        assert(cb[lk[i] as int] == 2);
                    }
                }
                fin1 = f2@;
                counter1 = k2@;
            }
            j += 1;
        }
        if masks && node.mask_node.is_some() {
            let m = node.mask_node.unwrap();
            proof {
                assert(lk[nk as int] == m);
                assert(lk.contains(m));
            }
            let ghost cb = color@;
            let (ok, f2, k2) = self.follow(m, masks, color, Ghost(gpath), Ghost(fin1), Ghost(counter1));
            if !ok {
                proof {
                    assert(gpath[0] == origin(path, x));
                }
                return (false, f2, k2);
            }
            proof {
                assert forall|i: int|
                    0 <= i < lk.len() && live(ns, #[trigger] lk[i] as int) implies color@[lk[i] as int] == 2 && f2@[lk[i]
                        as int] < k2@ by {
                    if i < nk {
                        assert(cb[lk[i] as int] == 2);
                    }
                }
                fin1 = f2@;
                counter1 = k2@;
            }
        }
        proof {
            assert(forall|i: int| 0 <= i < lk.len() && live(ns, #[trigger] lk[i] as int) ==> color@[lk[i] as int] == 2
                && fin1[lk[i] as int] < counter1);
        }
        // Every link of `x` is done: `x` is done, next in the order.
        let ghost fin2 = fin1.update(x as int, counter1);
        let ghost counter2 = counter1 + 1;
        let ghost cb = color@;
        color.set(x, 2);
        proof {
            assert(gpath.drop_last() =~= path);
            assert forall|y: int| 0 <= y < ns.len() implies (#[trigger] color@[y] == 1 <==> path.contains(y as NodeId)) by {
                if y == x {
                    assert(cb[y] == 1);
                    if path.contains(x) {
                        let i = choose|i: int| 0 <= i < path.len() && path[i] == x;
                        assert(c0[x as int] == 1) by {
                            assert(path.contains(path[i]));
                        }
                    }
                } else {
                    assert(color@[y] == cb[y]);
                    if path.contains(y as NodeId) {
                        let i = choose|i: int| 0 <= i < path.len() && path[i] == y as NodeId;
                        assert(gpath[i] == y as NodeId);
                    }
                    if gpath.contains(y as NodeId) {
                        let i = choose|i: int| 0 <= i < gpath.len() && gpath[i] == y as NodeId;
                        if i == gpath.len() - 1 {
                            assert(gpath[i] == x);
                        } else {
                            assert(path[i] == y as NodeId);
                        }
                    }
                }
            }
            assert forall|i: int| 0 <= i < path.len() - 1 implies #[trigger] links(ns, path[i], masks).contains(path[i + 1]) by {
                assert(gpath[i] == path[i] && gpath[i + 1] == path[i + 1]);
            }
            assert forall|y: int, k: int|
                #![trigger color@[y], links(ns, y as NodeId, masks)[k]]
                0 <= y < ns.len() && color@[y] == 2 && 0 <= k < links(ns, y as NodeId, masks).len() && live(
                    ns,
                    links(ns, y as NodeId, masks)[k] as int,
                ) implies color@[links(ns, y as NodeId, masks)[k] as int] == 2 && fin2[links(ns, y as NodeId, masks)[k] as int]
                < fin2[y] by {
                let c = links(ns, y as NodeId, masks)[k] as int;
                if y == x {
                    assert(lk[k] == c);
                    assert(cb[c] == 2);
                    assert(c != x);
                } else {
                    assert(cb[y] == 2);
                    assert(cb[c] == 2);
                    assert(c != x);
                }
            }
            assert forall|y: int| 0 <= y < ns.len() && #[trigger] color@[y] == 2 implies fin2[y] < counter2 by {
                if y != x {
                    assert(cb[y] == 2);
                }
            }
            assert forall|y: int| 0 <= y < c0.len() && c0[y] == 2 implies #[trigger] fin2[y] == fin[y] by {
                assert(y != x);
            }
            assert forall|y: int| 0 <= y < c0.len() && c0[y] != 0 implies #[trigger] color@[y] == c0[y] by {
                assert(y != x);
            }
            lemma_zeros_mono(cb, color@);
        }
        (true, Ghost(fin2), Ghost(counter2))
    }

    /// Whether the links contain no cycle: the child links, and the mask links
    /// too when `masks` is set.
    pub fn links_are_acyclic(&self, masks: bool) -> (r: bool)
        ensures
            r == exists|rank: spec_fn(int) -> nat| ranked_links(self.nodes@, rank, masks),
            !masks ==> (r == acyclic(self.nodes@)),
            masks ==> (r == links_acyclic(self.nodes@)),
    {
        let ghost ns = self.nodes@;
        let n = self.nodes.len();
        proof {
            lemma_rankable_iff(ns, masks);
        }
        let mut color: Vec<u8> = Vec::new();
        let mut i: usize = 0;
        while i < n
            invariant
                i <= n,
                color@.len() == i,
                forall|y: int| 0 <= y < i ==> color@[y] == 0,
            decreases n - i,
        {
            color.push(0);
            i += 1;
        }
        let ghost mut fin: Seq<nat> = Seq::new(n as nat, |y: int| 0nat);
        let ghost mut counter: nat = 0;
        let ghost path = Seq::<NodeId>::empty();
        let mut x: usize = 0;
        while x < n
            invariant
                ns == self.nodes@,
                n == ns.len(),
                x <= n,
                search_ok(ns, masks, color@, fin, counter, path),
                path == Seq::<NodeId>::empty(),
                forall|y: int| 0 <= y < x && live(ns, y) ==> #[trigger] color@[y] == 2,
                forall|y: int| 0 <= y < n ==> (#[trigger] color@[y] == 0 || color@[y] == 2),
            decreases n - x,
        {
            let present = self.nodes[x].is_some();
            if present && color[x] == 0 {
                let ghost cb = color@;
                let (ok, f2, k2) = self.search(x, masks, &mut color, Ghost(path), Ghost(fin), Ghost(counter));
                if !ok {
                    proof {
                        lemma_rankable_iff(ns, masks);
                        let p = choose|p: Seq<NodeId>| is_cycle(ns, p, masks);
                        if exists|rank: spec_fn(int) -> nat| ranked_links(ns, rank, masks) {
                            let rank = choose|rank: spec_fn(int) -> nat| ranked_links(ns, rank, masks);
                            lemma_cycle_unranked(ns, p, masks, rank);
                        }
                    }
                    return false;
                }
                proof {
                    assert forall|y: int| 0 <= y < x + 1 && live(ns, y) implies #[trigger] color@[y] == 2 by {
                        if y < x {
                            assert(cb[y] == 2);
                        }
                    }
                    assert forall|y: int| 0 <= y < n implies (#[trigger] color@[y] == 0 || color@[y] == 2) by {
                        if color@[y] == 1 {
                            assert(!path.contains(y as NodeId));
                        }
                    }
                }
                proof {
                    fin = f2@;
                    counter = k2@;
                }
            }
            x += 1;
        }
        let ghost rank = |y: int| if live(ns, y) { fin[y] + 1 } else { 0nat };
        proof {
            assert forall|y: NodeId, j: int|
                #![trigger links(ns, y, masks)[j]]
                live(ns, y as int) && 0 <= j < links(ns, y, masks).len() implies rank(links(ns, y, masks)[j] as int) < rank(
                    y as int,
                ) by {
                let c = links(ns, y, masks)[j] as int;
                assert(color@[y as int] == 2);
                if live(ns, c) {
                    assert(color@[c] == 2 && fin[c] < fin[y as int]);
                }
            }
            assert(ranked_links(ns, rank, masks));
        }
        true
    }
}

impl<E> SceneGraph<E> {
    /// Whether no cycle of links can be reached from the nodes `roots`: the
    /// child links, and the mask links too when `masks` is set. A cycle that
    /// none of them reaches does not count.
    pub fn links_acyclic_from(&self, roots: &Vec<NodeId>, masks: bool) -> (r: bool)
        ensures
            r == acyclic_from(self.nodes@, roots@, masks),
    {
        let ghost ns = self.nodes@;
        let n = self.nodes.len();
        let mut color: Vec<u8> = Vec::new();
        let mut i: usize = 0;
        while i < n
            invariant
                i <= n,
                color@.len() == i,
                forall|y: int| 0 <= y < i ==> color@[y] == 0,
            decreases n - i,
        {
            color.push(0);
            i += 1;
        }
        let ghost mut fin: Seq<nat> = Seq::new(n as nat, |y: int| 0nat);
        let ghost mut counter: nat = 0;
        let ghost path = Seq::<NodeId>::empty();
        let mut k: usize = 0;
        while k < roots.len()
            invariant
                ns == self.nodes@,
                n == ns.len(),
                k <= roots@.len(),
                search_ok(ns, masks, color@, fin, counter, path),
                path == Seq::<NodeId>::empty(),
                forall|q: int| 0 <= q < k && live(ns, roots@[q] as int) ==> #[trigger] color@[roots@[q] as int] == 2,
                forall|y: int| 0 <= y < n ==> (#[trigger] color@[y] == 0 || color@[y] == 2),
            decreases roots@.len() - k,
        {
            let x = roots[k];
            let present = x < n && self.nodes[x].is_some();
            if present && color[x] == 0 {
                let ghost cb = color@;
                let (ok, f2, k2) = self.search(x, masks, &mut color, Ghost(path), Ghost(fin), Ghost(counter));
                if !ok {
                    proof {
                        let p = choose|p: Seq<NodeId>| is_cycle(ns, p, masks) && reached_from(ns, masks, x, p[0]);
                        if acyclic_from(ns, roots@, masks) {
                            let (rank, s) = choose|rank: spec_fn(int) -> nat, s: Set<NodeId>|
                                ranked_links_on(ns, rank, s, masks) && forall|q: int|
                                    0 <= q < roots@.len() ==> s.contains(#[trigger] roots@[q]);
                            assert(s.contains(roots@[k as int]));
                            assert(closed_under(ns, s, masks));
                            lemma_cycle_unranked_on(ns, p, masks, rank, s);
                        }
                    }
                    return false;
                }
                proof {
                    assert forall|q: int| 0 <= q < k + 1 && live(ns, roots@[q] as int) implies #[trigger] color@[roots@[q]
                        as int] == 2 by {
                        if roots@[q] != x {
                            assert(cb[roots@[q] as int] == 2);
                        }
                    }
                    assert forall|y: int| 0 <= y < n implies (#[trigger] color@[y] == 0 || color@[y] == 2) by {
                        if color@[y] == 1 {
                            assert(!path.contains(y as NodeId));
                        }
                    }
                    fin = f2@;
                    counter = k2@;
                }
            } else {
                proof {
                    if live(ns, x as int) {
                        assert(color@[x as int] != 0);
                    }
                }
            }
            k += 1;
        }
        let ghost rank = |y: int| if live(ns, y) { fin[y] + 1 } else { 0nat };
        let ghost s = Set::new(|y: NodeId| !live(ns, y as int) || color@[y as int] == 2);
        proof {
            assert forall|y: NodeId, j: int|
                #![trigger s.contains(y), links(ns, y, masks)[j]]
                s.contains(y) && live(ns, y as int) && 0 <= j < links(ns, y, masks).len() implies s.contains(
                    links(ns, y, masks)[j],
                ) && rank(links(ns, y, masks)[j] as int) < rank(y as int) by {
                let c = links(ns, y, masks)[j] as int;
                assert(color@[y as int] == 2);
                if live(ns, c) {
                    assert(color@[c] == 2 && fin[c] < fin[y as int]);
                }
            }
            assert(ranked_links_on(ns, rank, s, masks));
            assert forall|q: int| 0 <= q < roots@.len() implies s.contains(#[trigger] roots@[q]) by {
                if live(ns, roots@[q] as int) {
                    assert(color@[roots@[q] as int] == 2);
                }
            }
        }
        true
    }
}

/// Links that can be ranked are acyclic in the sense of the operation that
/// follows them: destroying (child links) or visiting (with masks).
proof fn lemma_rankable_iff<E>(ns: Seq<Option<SceneNode<E>>>, masks: bool)
    requires
        ns.len() <= usize::MAX,
    ensures
        (exists|rank: spec_fn(int) -> nat| ranked_links(ns, rank, masks)) <==> if masks {
            links_acyclic(ns)
        } else {
            acyclic(ns)
        },
{
    if exists|rank: spec_fn(int) -> nat| ranked_links(ns, rank, masks) {
        let rank = choose|rank: spec_fn(int) -> nat| ranked_links(ns, rank, masks);
        lemma_child_links_ranked(ns, rank);
        lemma_mask_links_ranked(ns, rank);
    }
    if masks && links_acyclic(ns) {
        let rank = choose|rank: spec_fn(int) -> nat| links_ranked(ns, rank);
        lemma_mask_links_ranked(ns, rank);
    }
    if !masks && acyclic(ns) {
        let rank = choose|rank: spec_fn(int) -> nat| ranked(ns, rank);
        lemma_child_links_ranked(ns, rank);
    }
}

/// Ranking the links without masks is ranking the child links.
pub proof fn lemma_child_links_ranked<E>(ns: Seq<Option<SceneNode<E>>>, rank: spec_fn(int) -> nat)
    requires
        ns.len() <= usize::MAX,
    ensures
        ranked_links(ns, rank, false) <==> ranked(ns, rank),
{
    if ranked_links(ns, rank, false) {
        assert forall|x: int, j: int| #![trigger kids(ns, x)[j], live(ns, x)]
            live(ns, x) && 0 <= j < kids(ns, x).len() implies rank(kids(ns, x)[j] as int) < rank(x) by {
            assert(links(ns, x as NodeId, false)[j] == kids(ns, x)[j]);
        }
    }
    if ranked(ns, rank) {
        assert forall|x: NodeId, j: int| #![trigger links(ns, x, false)[j]]
            live(ns, x as int) && 0 <= j < links(ns, x, false).len() implies rank(links(ns, x, false)[j] as int) < rank(
                x as int,
            ) by {
            assert(kids(ns, x as int)[j] == links(ns, x, false)[j]);
        }
    }
}

/// Ranking the links with masks is ranking the director's links.
pub proof fn lemma_mask_links_ranked<E>(ns: Seq<Option<SceneNode<E>>>, rank: spec_fn(int) -> nat)
    ensures
        ranked_links(ns, rank, true) <==> links_ranked(ns, rank),
{
    if ranked_links(ns, rank, true) {
        assert forall|x: NodeId, j: int| #![trigger successors(ns, x)[j]]
            live(ns, x as int) && 0 <= j < successors(ns, x).len() implies rank(successors(ns, x)[j] as int) < rank(
                x as int,
            ) by {
            assert(links(ns, x, true)[j] == successors(ns, x)[j]);
        }
    }
    if links_ranked(ns, rank) {
        assert forall|x: NodeId, j: int| #![trigger links(ns, x, true)[j]]
            live(ns, x as int) && 0 <= j < links(ns, x, true).len() implies rank(links(ns, x, true)[j] as int) < rank(
                x as int,
            ) by {
            assert(successors(ns, x)[j] == links(ns, x, true)[j]);
        }
    }
}

} // verus!
