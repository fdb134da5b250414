//! Laws of the scene graph: what its operations keep and how they combine.

use crate::scene::{
    acyclic, child_added, child_links_ok, child_removed, destroy_post, destroyed, free_ok, kids, lemma_ranked_full, live,
    node_added, node_at, parent_links_ok, post_of, ranked, remove_first, same_but_children, subtree, wrapped,
    NodeId, SceneGraph, SceneNode,
};
use crate::scene_lemmas::{
    kids_live, lemma_concat_contains, lemma_concat_nodup, lemma_post_of_closed, lemma_post_of_nodup,
    lemma_post_of_parent, lemma_post_of_rank, lemma_post_of_root, lemma_remove_first_keeps, lemma_subtree_fuel, lemma_remove_first_nodup, lemma_remove_first_subset, lemma_unique_parent,
};
use vstd::prelude::*;

verus! {

/// Adding a node to a well-formed graph keeps it well-formed, and the node
/// lands in a slot that held no node.
pub proof fn lemma_add_node_keeps_wf<E>(g: SceneGraph<E>, g2: SceneGraph<E>, element: E, id: NodeId)
    requires
        g.wf(),
        node_added(g.nodes@, g.free_indices@, g2.nodes@, g2.free_indices@, element, id),
    ensures
        g2.wf(),
        !g.is_live(id as int),
        g2.is_live(id as int),
        node_at(g2.nodes@, id as int).element == element,
{
    let ns = g.nodes@;
    let fr = g.free_indices@;
    let ns2 = g2.nodes@;
    let fr2 = g2.free_indices@;
    if fr.len() > 0 {
        assert(fr[fr.len() - 1] == id);
    }
    assert(!live(ns, id as int));
    assert forall|k: int| #![trigger fr2[k]] 0 <= k < fr2.len() implies 0 <= fr2[k] < ns2.len()
        && ns2[fr2[k] as int] is None by {
        assert(fr2[k] == fr[k]);
        if fr.len() > 0 {
            assert(fr[k] != fr[fr.len() - 1]);
        }
        assert(ns2[fr[k] as int] == ns[fr[k] as int]);
    }
    assert(fr2.no_duplicates()) by {
        assert forall|i: int, j: int| 0 <= i < fr2.len() && 0 <= j < fr2.len() && i != j implies fr2[i] != fr2[j] by {
            assert(fr2[i] == fr[i] && fr2[j] == fr[j]);
        }
    }
    assert(child_links_ok(ns2)) by {
        assert forall|x: int, j: int| #![trigger kids(ns2, x)[j], live(ns2, x)]
            live(ns2, x) && 0 <= j < kids(ns2, x).len() implies {
                &&& live(ns2, kids(ns2, x)[j] as int)
                &&& node_at(ns2, kids(ns2, x)[j] as int).parent == Some(x as NodeId)
            } by {
            if x != id {
                assert(ns2[x] == ns[x]);
                assert(live(ns, x));
                let c = kids(ns, x)[j] as int;
                assert(live(ns, c));
                assert(ns2[c] == ns[c]);
            }
        }
        assert forall|x: int| #![trigger live(ns2, x)] live(ns2, x) implies kids(ns2, x).no_duplicates() by {
            if x != id {
                assert(ns2[x] == ns[x]);
                assert(live(ns, x));
            }
        }
    }
    assert(parent_links_ok(ns2)) by {
        assert forall|x: int| #![trigger live(ns2, x)] live(ns2, x) && node_at(ns2, x).parent is Some implies {
            &&& live(ns2, node_at(ns2, x).parent.unwrap() as int)
            &&& kids(ns2, node_at(ns2, x).parent.unwrap() as int).contains(x as NodeId)
        } by {
            if x != id {
                assert(ns2[x] == ns[x]);
                assert(live(ns, x));
                let p = node_at(ns, x).parent.unwrap() as int;
                assert(live(ns, p));
                assert(ns2[p] == ns[p]);
            }
        }
    }
    let rank = choose|rank: spec_fn(int) -> nat| ranked(ns, rank);
    lemma_ranked_full(ns, rank);
    assert(ranked(ns2, rank)) by {
        assert forall|x: int, j: int| #![trigger kids(ns2, x)[j], live(ns2, x)]
            live(ns2, x) && 0 <= j < kids(ns2, x).len() implies rank(kids(ns2, x)[j] as int) < rank(x) by {
            if x != id {
                assert(ns2[x] == ns[x]);
                assert(live(ns, x));
                assert(rank(kids(ns, x)[j] as int) < rank(x));
            }
        }
    }
}

/// Destroying a node keeps a valid free list valid (it names distinct empty
/// slots), whatever the graph's links; destroying an id that names no node
/// changes nothing.
pub proof fn lemma_destroy_keeps_free_list<E>(g: SceneGraph<E>, g2: SceneGraph<E>, id: NodeId)
    requires
        free_ok(g.nodes@, g.free_indices@),
        destroy_post(g, g2, id),
    ensures
        free_ok(g2.nodes@, g2.free_indices@),
        !g.is_live(id as int) ==> g2 == g,
{
}

/// Destroying a node of a well-formed graph keeps it well-formed.
pub proof fn lemma_destroy_keeps_wf<E>(g: SceneGraph<E>, g2: SceneGraph<E>, id: NodeId)
    requires
        g.wf(),
        destroy_post(g, g2, id),
    ensures
        g2.wf(),
{
    let ns = g.nodes@;
    let fr = g.free_indices@;
    let ns2 = g2.nodes@;
    let fr2 = g2.free_indices@;
    let rank = choose|rank: spec_fn(int) -> nat| ranked(ns, rank);
    lemma_ranked_full(ns, rank);
    let f = (rank(id as int) + 1) as nat;
    lemma_subtree_fuel(ns, rank, Set::<NodeId>::full(), id, f);
    let p = subtree(ns, id);
    assert(p == post_of(ns, id, f));
    assert(destroyed(ns, fr, ns2, fr2, id, p));
    assert(kids_live(ns)) by {
        assert forall|x: int, j: int| #![trigger kids(ns, x)[j], live(ns, x)]
            live(ns, x) && 0 <= j < kids(ns, x).len() implies live(ns, kids(ns, x)[j] as int) by {}
    }
    assert forall|k: int| #![trigger fr2[k]] 0 <= k < fr2.len() implies 0 <= fr2[k] < ns2.len()
        && ns2[fr2[k] as int] is None by {
        if k < fr.len() {
            assert(fr2[k] == fr[k]);
            let y = fr[k] as int;
            assert(ns[y] is None);
            if p.contains(y as NodeId) {
                lemma_post_of_rank(ns, rank, Set::<NodeId>::full(), id, f, y as NodeId);
            }
        } else {
            assert(fr2[k] == p[k - fr.len()]);
            assert(p.contains(fr2[k]));
            lemma_post_of_rank(ns, rank, Set::<NodeId>::full(), id, f, fr2[k]);
        }
    }
    assert(fr2.no_duplicates()) by {
        lemma_post_of_nodup(ns, rank, Set::<NodeId>::full(), id, f);
        assert forall|y: NodeId| fr.contains(y) implies !p.contains(y) by {
            let k = choose|k: int| 0 <= k < fr.len() && fr[k] == y;
            assert(ns[fr[k] as int] is None);
            if p.contains(y) {
                lemma_post_of_rank(ns, rank, Set::<NodeId>::full(), id, f, y);
            }
        }
        lemma_concat_nodup(fr, p);
    }
    assert(parent_links_ok(ns2)) by {
        assert forall|x: int| #![trigger live(ns2, x)] live(ns2, x) && node_at(ns2, x).parent is Some implies {
            &&& live(ns2, node_at(ns2, x).parent.unwrap() as int)
            &&& kids(ns2, node_at(ns2, x).parent.unwrap() as int).contains(x as NodeId)
        } by {
            assert(!p.contains(x as NodeId));
            assert(live(ns, x));
            let q = node_at(ns, x).parent.unwrap();
            assert(node_at(ns2, x).parent == node_at(ns, x).parent);
            assert(live(ns, q as int));
            assert(kids(ns, q as int).contains(x as NodeId));
            if p.contains(q) {
                lemma_post_of_closed(ns, rank, Set::<NodeId>::full(), id, f, q, x as NodeId);
            }
            if live(ns, id as int) {
                lemma_post_of_root(ns, id, f);
            }
            if live(ns, id as int) && node_at(ns, id as int).parent == Some(q) && live(ns, q as int) {
                lemma_remove_first_keeps(kids(ns, q as int), id, x as NodeId);
            }
        }
    }
}

/// After destroying a live node of a well-formed graph, the next node added
/// takes the destroyed node's id.
pub proof fn lemma_destroy_then_add_reuses<E>(
    g0: SceneGraph<E>,
    g1: SceneGraph<E>,
    g2: SceneGraph<E>,
    id: NodeId,
    element: E,
    id2: NodeId,
)
    requires
        g0.wf(),
        g0.is_live(id as int),
        destroy_post(g0, g1, id),
        node_added(g1.nodes@, g1.free_indices@, g2.nodes@, g2.free_indices@, element, id2),
    ensures
        id2 == id,
        node_at(g2.nodes@, id as int).element == element,
{
    let ns = g0.nodes@;
    let rank = choose|rank: spec_fn(int) -> nat| ranked(ns, rank);
    lemma_ranked_full(ns, rank);
    let f = (rank(id as int) + 1) as nat;
    lemma_post_of_root(ns, id, f);
    lemma_subtree_fuel(ns, rank, Set::<NodeId>::full(), id, f);
    let p = subtree(ns, id);
    assert(g1.free_indices@ == g0.free_indices@ + p);
    assert(g1.free_indices@.last() == p.last());
}

/// Attaching a node without a parent under a node outside its subtree keeps
/// a well-formed graph well-formed.
pub proof fn lemma_add_child_keeps_wf<E>(g: SceneGraph<E>, g2: SceneGraph<E>, parent: NodeId, child: NodeId)
    requires
        g.wf(),
        g.is_live(parent as int),
        g.is_live(child as int),
        node_at(g.nodes@, child as int).parent is None,
        !subtree(g.nodes@, child).contains(parent),
        child_added(g.nodes@, g2.nodes@, parent, child),
        g2.free_indices@ == g.free_indices@,
    ensures
        g2.wf(),
{
    let ns = g.nodes@;
    let ns2 = g2.nodes@;
    let rank = choose|rank: spec_fn(int) -> nat| ranked(ns, rank);
    lemma_ranked_full(ns, rank);
    let f = (rank(child as int) + 1) as nat;
    lemma_subtree_fuel(ns, rank, Set::<NodeId>::full(), child, f);
    let s = subtree(ns, child);
    assert(s == post_of(ns, child, f));
    lemma_post_of_root(ns, child, f);
    assert(parent != child);
    assert(kids_live(ns)) by {
        assert forall|x: int, j: int| #![trigger kids(ns, x)[j], live(ns, x)]
            live(ns, x) && 0 <= j < kids(ns, x).len() implies live(ns, kids(ns, x)[j] as int) by {}
    }
    // No node lists the child: its parent would be recorded.
    assert forall|x: int| live(ns, x) implies !#[trigger] kids(ns, x).contains(child) by {
        if kids(ns, x).contains(child) {
            let j = choose|j: int| 0 <= j < kids(ns, x).len() && kids(ns, x)[j] == child;
            assert(node_at(ns, kids(ns, x)[j] as int).parent == Some(x as NodeId));
        }
    }
    assert forall|k: int| #![trigger g2.free_indices@[k]] 0 <= k < g2.free_indices@.len() implies 0
        <= g2.free_indices@[k] < ns2.len() && ns2[g2.free_indices@[k] as int] is None by {
        assert(g.free_indices@[k] == g2.free_indices@[k]);
    }
    assert(child_links_ok(ns2)) by {
        assert forall|x: int, j: int| #![trigger kids(ns2, x)[j], live(ns2, x)]
            live(ns2, x) && 0 <= j < kids(ns2, x).len() implies {
                &&& live(ns2, kids(ns2, x)[j] as int)
                &&& node_at(ns2, kids(ns2, x)[j] as int).parent == Some(x as NodeId)
            } by {
            assert(live(ns, x));
            let c = kids(ns2, x)[j];
            if x == parent && j == kids(ns, x).len() {
                assert(c == child);
            } else {
                assert(c == kids(ns, x)[j]);
                assert(kids(ns, x).contains(c));
                assert(live(ns, c as int));
                assert(node_at(ns, c as int).parent == Some(x as NodeId));
                assert(c != child);
            }
        }
        assert forall|x: int| #![trigger live(ns2, x)] live(ns2, x) implies kids(ns2, x).no_duplicates() by {
            assert(live(ns, x));
            if x == parent {
                let o = kids(ns, x);
                let n = o.push(child);
                assert forall|a: int, b: int| 0 <= a < n.len() && 0 <= b < n.len() && a != b implies n[a] != n[b] by {
                    if a < o.len() && b < o.len() {
                        assert(n[a] == o[a] && n[b] == o[b]);
                    } else if a < o.len() {
                        assert(o.contains(n[a]));
                    } else {
                        assert(o.contains(n[b]));
                    }
                }
            }
        }
    }
    assert(parent_links_ok(ns2)) by {
        assert forall|x: int| #![trigger live(ns2, x)] live(ns2, x) && node_at(ns2, x).parent is Some implies {
            &&& live(ns2, node_at(ns2, x).parent.unwrap() as int)
            &&& kids(ns2, node_at(ns2, x).parent.unwrap() as int).contains(x as NodeId)
        } by {
            if x == child {
                assert(kids(ns2, parent as int) == kids(ns, parent as int).push(child));
                assert(kids(ns2, parent as int)[kids(ns, parent as int).len() as int] == child);
            } else {
                assert(live(ns, x));
                assert(node_at(ns2, x).parent == node_at(ns, x).parent);
                let q = node_at(ns, x).parent.unwrap();
                assert(live(ns, q as int));
                let j = choose|j: int| 0 <= j < kids(ns, q as int).len() && kids(ns, q as int)[j] == x as NodeId;
                if q == parent {
                    assert(kids(ns2, q as int)[j] == x as NodeId);
                } else {
                    assert(kids(ns2, q as int)[j] == x as NodeId);
                }
            }
        }
    }
    let rank2 = |x: int| if s.contains(x as NodeId) { rank(x) } else { rank(x) + rank(child as int) + 1 };
    assert(ranked(ns2, rank2)) by {
        assert forall|x: int, j: int| #![trigger kids(ns2, x)[j], live(ns2, x)]
            live(ns2, x) && 0 <= j < kids(ns2, x).len() implies rank2(kids(ns2, x)[j] as int) < rank2(x) by {
            assert(live(ns, x));
            let c = kids(ns2, x)[j];
            if x == parent && j == kids(ns, x).len() {
                assert(c == child);
            } else {
                assert(c == kids(ns, x)[j]);
                assert(rank(kids(ns, x)[j] as int) < rank(x));
                assert(kids(ns, x).contains(c));
                if s.contains(x as NodeId) {
                    lemma_post_of_closed(ns, rank, Set::<NodeId>::full(), child, f, x as NodeId, c);
                } else if s.contains(c) {
                    assert(c != child);
                    lemma_post_of_parent(ns, child, f, c);
                    let z = choose|z: NodeId|
                        #![trigger kids(ns, z as int).contains(c)]
                        post_of(ns, child, f).contains(z) && live(ns, z as int) && kids(ns, z as int).contains(c);
                    lemma_unique_parent(ns, z, x as NodeId, c);
                }
            }
        }
    }
}

/// Removing a child right after adding it gives the parent back its
/// children.
pub proof fn lemma_remove_child_undoes_add_child<E>(
    g0: SceneGraph<E>,
    g1: SceneGraph<E>,
    g2: SceneGraph<E>,
    parent: NodeId,
    child: NodeId,
)
    requires
        g0.is_live(parent as int),
        !kids(g0.nodes@, parent as int).contains(child),
        child_added(g0.nodes@, g1.nodes@, parent, child),
        child_removed(g1.nodes@, g2.nodes@, parent, child),
    ensures
        g2.is_live(parent as int),
        kids(g2.nodes@, parent as int) == kids(g0.nodes@, parent as int),
{
    let o = kids(g0.nodes@, parent as int);
    let n = o.push(child);
    assert(n[o.len() as int] == child);
    assert(n.contains(child));
    let i = choose|i: int| 0 <= i < n.len() && n[i] == child && forall|j: int| 0 <= j < i ==> n[j] != child;
    if i < o.len() {
        assert(o[i] == child);
    }
    assert(i == o.len()) by {
        if i > o.len() as int {
        }
        assert(!(forall|j: int| 0 <= j < i ==> n[j] != child) || i <= o.len());
    }
    assert(n.remove(i) =~= o);
}

/// Wrapping a node of a well-formed graph keeps it well-formed. The wrapper
/// lands in a slot that held no node and holds the payload; its only child is
/// the wrapped node and its parent is the wrapped node's former parent, which
/// now lists the wrapper (last) instead of the wrapped node. The wrapped node
/// keeps its children, and every other node is unchanged.
pub proof fn lemma_wrap_node_keeps_wf<E>(g: SceneGraph<E>, g2: SceneGraph<E>, id: NodeId, wrapper: E, w: NodeId)
    requires
        g.wf(),
        g.is_live(id as int),
        wrapped(g.nodes@, g.free_indices@, g2.nodes@, g2.free_indices@, id, wrapper, w),
    ensures
        g2.wf(),
        !g.is_live(w as int),
        g2.is_live(w as int),
        node_at(g2.nodes@, w as int).element == wrapper,
        kids(g2.nodes@, w as int) == seq![id],
        node_at(g2.nodes@, w as int).parent == node_at(g.nodes@, id as int).parent,
        g2.is_live(id as int),
        node_at(g2.nodes@, id as int).parent == Some(w),
        kids(g2.nodes@, id as int) == kids(g.nodes@, id as int),
        node_at(g.nodes@, id as int).parent is Some ==> {
            let p = node_at(g.nodes@, id as int).parent.unwrap() as int;
            &&& g2.is_live(p)
            &&& same_but_children(node_at(g2.nodes@, p), node_at(g.nodes@, p))
            &&& kids(g2.nodes@, p) == remove_first(kids(g.nodes@, p), id).push(w)
        },
        forall|y: int|
            #![trigger g2.nodes@[y]]
            0 <= y < g.nodes@.len() && y != id && y != w && node_at(g.nodes@, id as int).parent != Some(y as NodeId)
                ==> g2.nodes@[y] == g.nodes@[y],
{
    let ns = g.nodes@;
    let fr = g.free_indices@;
    let ns2 = g2.nodes@;
    let fr2 = g2.free_indices@;
    let pid = node_at(ns, id as int).parent;
    let (na, nb, nc) = choose|na: Seq<Option<SceneNode<E>>>, nb: Seq<Option<SceneNode<E>>>, nc: Seq<Option<SceneNode<E>>>|
        #![trigger node_added(ns, fr, na, fr2, wrapper, w), child_added(nc, ns2, w, id), nb.len()]
        {
            &&& node_added(ns, fr, na, fr2, wrapper, w)
            &&& match pid {
                Some(p) => child_removed(na, nb, p, id) && child_added(nb, nc, p, w),
                None => nc == na,
            }
            &&& child_added(nc, ns2, w, id)
        };
    // The wrapper's slot held no node.
    if fr.len() > 0 {
        assert(fr[fr.len() - 1] == w);
    }
    assert(!live(ns, w as int));
    assert(w != id);
    let rank = choose|rank: spec_fn(int) -> nat| ranked(ns, rank);
    lemma_ranked_full(ns, rank);
    // The parent is another live node that lists `id`.
    if pid is Some {
        let p = pid.unwrap();
        assert(live(ns, p as int));
        assert(kids(ns, p as int).contains(id));
        let j = choose|j: int| 0 <= j < kids(ns, p as int).len() && kids(ns, p as int)[j] == id;
        assert(rank(kids(ns, p as int)[j] as int) < rank(p as int));
        assert(p != id);
        assert(p != w);
    }
    // The shape of the result, slot by slot.
    assert(na[id as int] == ns[id as int]);
    assert(live(ns2, w as int));
    assert(kids(nc, w as int) == Seq::<NodeId>::empty()) by {
        if pid is Some {
            let p = pid.unwrap();
        }
    }
    assert(kids(ns2, w as int) =~= seq![id]);
    assert(node_at(ns2, w as int).parent == pid) by {
        if pid is Some {
        }
    }
    assert(node_at(ns2, w as int).element == wrapper) by {
        if pid is Some {
        }
    }
    assert(node_at(ns2, w as int).mask_node is None && node_at(ns2, w as int).z_index == 0) by {
        if pid is Some {
        }
    }
    assert(live(ns2, id as int) && same_but_children(node_at(ns2, id as int), node_at(ns2, id as int))) by {
        if pid is Some {
        }
    }
    assert(kids(ns2, id as int) == kids(ns, id as int) && node_at(ns2, id as int).parent == Some(w)
        && node_at(ns2, id as int).element == node_at(ns, id as int).element
        && node_at(ns2, id as int).mask_node == node_at(ns, id as int).mask_node
        && node_at(ns2, id as int).z_index == node_at(ns, id as int).z_index
        && node_at(ns2, id as int).dirty_style == node_at(ns, id as int).dirty_style) by {
        if pid is Some {
        }
    }
    if pid is Some {
        let p = pid.unwrap() as int;
        assert(na[p] == ns[p]);
        assert(live(ns2, p));
        assert(same_but_children(node_at(ns2, p), node_at(ns, p)));
        assert(kids(ns2, p) == remove_first(kids(ns, p), id).push(w));
    }
    assert forall|y: int|
        #![trigger ns2[y]]
        0 <= y < ns.len() && y != id && y != w && (pid is None || y != pid.unwrap() as int) implies ns2[y] == ns[y] by {
        assert(na[y] == ns[y]);
        if pid is Some {
            assert(nb[y] == na[y]);
        }
        assert(nc[y] == na[y]);
    }
    assert(ns2.len() == na.len());
    assert(ns2.len() == g2.nodes.len());
    assert(wrap_shape_wf(ns, fr, ns2, fr2, id, w, pid)) by {
        lemma_wrap_shape_wf(ns, fr, ns2, fr2, id, w, pid, rank);
    }
}

/// The arena after wrapping, as seen slot by slot (the premises of
/// `lemma_wrap_shape_wf`), is well-formed.
spec fn wrap_shape_wf<E>(
    ns: Seq<Option<SceneNode<E>>>,
    fr: Seq<usize>,
    ns2: Seq<Option<SceneNode<E>>>,
    fr2: Seq<usize>,
    id: NodeId,
    w: NodeId,
    pid: Option<NodeId>,
) -> bool {
    &&& free_ok(ns2, fr2)
    &&& child_links_ok(ns2)
    &&& parent_links_ok(ns2)
    &&& acyclic(ns2)
}

proof fn lemma_wrap_shape_wf<E>(
    ns: Seq<Option<SceneNode<E>>>,
    fr: Seq<usize>,
    ns2: Seq<Option<SceneNode<E>>>,
    fr2: Seq<usize>,
    id: NodeId,
    w: NodeId,
    pid: Option<NodeId>,
    rank: spec_fn(int) -> nat,
)
    requires
        ns2.len() <= usize::MAX,
        free_ok(ns, fr),
        child_links_ok(ns),
        parent_links_ok(ns),
        ranked(ns, rank),
        live(ns, id as int),
        pid == node_at(ns, id as int).parent,
        !live(ns, w as int),
        if fr.len() > 0 {
            &&& w == fr.last()
            &&& fr2 == fr.drop_last()
            &&& ns2.len() == ns.len()
        } else {
            &&& w == ns.len()
            &&& fr2 == fr
            &&& ns2.len() == ns.len() + 1
        },
        live(ns2, w as int),
        kids(ns2, w as int) == seq![id],
        node_at(ns2, w as int).parent == pid,
        live(ns2, id as int),
        kids(ns2, id as int) == kids(ns, id as int),
        node_at(ns2, id as int).parent == Some(w),
        pid is Some ==> {
            let p = pid.unwrap() as int;
            &&& p != id
            &&& p != w
            &&& live(ns2, p)
            &&& same_but_children(node_at(ns2, p), node_at(ns, p))
            &&& kids(ns2, p) == remove_first(kids(ns, p), id).push(w)
        },
        forall|y: int|
            #![trigger ns2[y]]
            0 <= y < ns.len() && y != id && y != w && (pid is None || y != pid.unwrap() as int) ==> ns2[y] == ns[y],
    ensures
        wrap_shape_wf(ns, fr, ns2, fr2, id, w, pid),
{
    let pp: int = if pid is Some { pid.unwrap() as int } else { -1 };
    // Ranks: the wrapper sits just above the wrapped node.
    assert forall|x: int, j: int| #![trigger kids(ns, x)[j], live(ns, x)]
        live(ns, x) && 0 <= j < kids(ns, x).len() implies live(ns, kids(ns, x)[j] as int)
        && kids(ns, x)[j] != w && rank(kids(ns, x)[j] as int) < rank(x) by {}
    if pid is Some {
        assert(kids(ns, pp).contains(id));
        let j = choose|j: int| 0 <= j < kids(ns, pp).len() && kids(ns, pp)[j] == id;
        assert(rank(kids(ns, pp)[j] as int) < rank(pp));
        lemma_remove_first_nodup(kids(ns, pp), id);
    }
    // The nodes below `id` are not its parent.
    assert forall|j: int| 0 <= j < kids(ns, id as int).len() implies #[trigger] kids(ns, id as int)[j] as int != pp
        && kids(ns, id as int)[j] != id by {
        assert(rank(kids(ns, id as int)[j] as int) < rank(id as int));
        if pid is Some {
            assert(kids(ns, pp).contains(id));
            let i = choose|i: int| 0 <= i < kids(ns, pp).len() && kids(ns, pp)[i] == id;
            assert(rank(kids(ns, pp)[i] as int) < rank(pp));
        }
    }
    // Free list.
    assert forall|k: int| #![trigger fr2[k]] 0 <= k < fr2.len() implies 0 <= fr2[k] < ns2.len()
        && ns2[fr2[k] as int] is None by {
        assert(fr2[k] == fr[k]);
        assert(ns[fr[k] as int] is None);
        if fr.len() > 0 {
            assert(fr[k] != fr[fr.len() - 1]);
        }
        assert(ns2[fr[k] as int] == ns[fr[k] as int]);
    }
    assert(fr2.no_duplicates()) by {
        assert forall|i: int, j: int| 0 <= i < fr2.len() && 0 <= j < fr2.len() && i != j implies fr2[i] != fr2[j] by {
            assert(fr2[i] == fr[i] && fr2[j] == fr[j]);
        }
    }
    // Which slots are live.
    assert forall|x: int| #![trigger live(ns2, x)] live(ns2, x) && x != w && x != id && x != pp implies live(ns, x)
        && ns2[x] == ns[x] by {
        assert(x < ns.len());
        assert(ns2[x] == ns[x]);
    }
    assert(child_links_ok(ns2)) by {
        assert forall|x: int, j: int| #![trigger kids(ns2, x)[j], live(ns2, x)]
            live(ns2, x) && 0 <= j < kids(ns2, x).len() implies {
                &&& live(ns2, kids(ns2, x)[j] as int)
                &&& node_at(ns2, kids(ns2, x)[j] as int).parent == Some(x as NodeId)
            } by {
            let c = kids(ns2, x)[j] as int;
            if x == w {
                assert(c == id);
            } else if x == id {
                assert(c == kids(ns, id as int)[j]);
                assert(live(ns, c) && node_at(ns, c).parent == Some(id));
                assert(ns2[c] == ns[c]);
            } else if x == pp {
                let o = remove_first(kids(ns, pp), id);
                if j == o.len() {
                    assert(c == w);
                } else {
                    assert(c == o[j]);
                    assert(o.contains(c as NodeId));
                    lemma_remove_first_subset(kids(ns, pp), id, c as NodeId);
                    let i = choose|i: int| 0 <= i < kids(ns, pp).len() && kids(ns, pp)[i] == c as NodeId;
                    assert(live(ns, c) && node_at(ns, c).parent == Some(pp as NodeId));
                    assert(rank(kids(ns, pp)[i] as int) < rank(pp));
                    assert(c != id);
                    assert(ns2[c] == ns[c]);
                }
            } else {
                assert(live(ns, x) && ns2[x] == ns[x]);
                assert(live(ns, c) && node_at(ns, c).parent == Some(x as NodeId));
                if c == id {
                    assert(pid == Some(x as NodeId));
                } else if c == pp {
                    assert(node_at(ns2, c).parent == node_at(ns, c).parent);
                } else {
                    assert(ns2[c] == ns[c]);
                }
            }
        }
        assert forall|x: int| #![trigger live(ns2, x)] live(ns2, x) implies kids(ns2, x).no_duplicates() by {
            if x == w {
            } else if x == id {
                assert(live(ns, id as int));
            } else if x == pp {
                let o = remove_first(kids(ns, pp), id);
                let n = o.push(w);
                assert forall|a: int, b: int| 0 <= a < n.len() && 0 <= b < n.len() && a != b implies n[a] != n[b] by {
                    if a < o.len() && b < o.len() {
                        assert(n[a] == o[a] && n[b] == o[b]);
                    } else if a < o.len() {
                        assert(o.contains(n[a]));
                        lemma_remove_first_subset(kids(ns, pp), id, n[a]);
                        let i = choose|i: int| 0 <= i < kids(ns, pp).len() && kids(ns, pp)[i] == n[a];
                    } else {
                        assert(o.contains(n[b]));
                        lemma_remove_first_subset(kids(ns, pp), id, n[b]);
                        let i = choose|i: int| 0 <= i < kids(ns, pp).len() && kids(ns, pp)[i] == n[b];
                    }
                }
            } else {
                assert(live(ns, x));
            }
        }
    }
    assert(parent_links_ok(ns2)) by {
        assert forall|x: int| #![trigger live(ns2, x)] live(ns2, x) && node_at(ns2, x).parent is Some implies {
            &&& live(ns2, node_at(ns2, x).parent.unwrap() as int)
            &&& kids(ns2, node_at(ns2, x).parent.unwrap() as int).contains(x as NodeId)
        } by {
            if x == w {
                let o = remove_first(kids(ns, pp), id);
                assert(kids(ns2, pp)[o.len() as int] == w);
            } else if x == id {
                assert(kids(ns2, w as int)[0] == id);
            } else {
                let q = node_at(ns2, x).parent.unwrap() as int;
                assert(live(ns, x));
                assert(node_at(ns2, x).parent == node_at(ns, x).parent);
                assert(live(ns, q) && kids(ns, q).contains(x as NodeId));
                let i = choose|i: int| 0 <= i < kids(ns, q).len() && kids(ns, q)[i] == x as NodeId;
                assert(rank(kids(ns, q)[i] as int) < rank(q));
                assert(q != w);
                if q == id {
                    assert(kids(ns2, q)[i] == x as NodeId);
                } else if q == pp {
                    assert(x != id);
                    lemma_remove_first_keeps(kids(ns, pp), id, x as NodeId);
                    let o = remove_first(kids(ns, pp), id);
                    let k = choose|k: int| 0 <= k < o.len() && o[k] == x as NodeId;
                    assert(kids(ns2, pp)[k] == x as NodeId);
                } else {
                    assert(ns2[q] == ns[q]);
                }
            }
        }
    }
    let rank2 = |x: int| if x == w { 2 * rank(id as int) + 1 } else { 2 * rank(x) };
    assert(ranked(ns2, rank2)) by {
        assert forall|x: int, j: int| #![trigger kids(ns2, x)[j], live(ns2, x)]
            live(ns2, x) && 0 <= j < kids(ns2, x).len() implies rank2(kids(ns2, x)[j] as int) < rank2(x) by {
            let c = kids(ns2, x)[j] as int;
            if x == w {
                assert(c == id);
            } else if x == id {
                assert(c == kids(ns, id as int)[j]);
                assert(rank(c) < rank(id as int));
            } else if x == pp {
                let o = remove_first(kids(ns, pp), id);
                if j == o.len() {
                    assert(c == w);
                } else {
                    assert(c == o[j]);
                    assert(o.contains(c as NodeId));
                    lemma_remove_first_subset(kids(ns, pp), id, c as NodeId);
                    let i = choose|i: int| 0 <= i < kids(ns, pp).len() && kids(ns, pp)[i] == c as NodeId;
                    assert(rank(kids(ns, pp)[i] as int) < rank(pp));
                }
            } else {
                assert(live(ns, x) && ns2[x] == ns[x]);
                assert(rank(kids(ns, x)[j] as int) < rank(x));
            }
        }
    }

}

/// A node that is added is found under the id that adding it returns, as a
/// fresh node holding the payload, and every node that was there stays as it
/// was.
pub proof fn lemma_added_node_is_found<E>(g: SceneGraph<E>, g2: SceneGraph<E>, element: E, id: NodeId)
    requires
        g.free_indices@.len() > 0 ==> g.free_indices@.last() < g.nodes@.len(),
        node_added(g.nodes@, g.free_indices@, g2.nodes@, g2.free_indices@, element, id),
    ensures
        g2.is_live(id as int),
        node_at(g2.nodes@, id as int).is_fresh(element),
        forall|i: int| #[trigger] g.is_live(i) && i != id ==> g2.is_live(i) && node_at(g2.nodes@, i) == node_at(g.nodes@, i),
{
    assert forall|i: int| #[trigger] g.is_live(i) && i != id implies g2.is_live(i) && node_at(g2.nodes@, i) == node_at(
        g.nodes@,
        i,
    ) by {
        assert(g2.nodes@[i] == g.nodes@[i]);
    }
}

} // verus!
