//! The scene graph: an arena of nodes with parent/child links and a free list
//! of slots that removed nodes leave behind.
//!
//! A node's payload `E` is whatever the renderer keeps per node (its visual
//! element, layout box, transform and timing); the graph only reads the links.

use crate::scene_check::{acyclic_from, lemma_child_links_ranked_on, ranked_links_on};
use crate::scene_lists::{drop_firsts, lemma_drop_firsts_none, lemma_drop_firsts_twice, lemma_remove_first_drops};
use crate::scene_lemmas::{
    agree_on, kids_live, lemma_concat_contains, lemma_frame_of, lemma_post_list_mem, lemma_post_list_rank,
    lemma_post_list_take, lemma_post_of_fuel, lemma_post_of_rank, lemma_post_of_root, lemma_remove_first_head, lemma_subtree_fuel,
    lemma_post_of_child, lemma_remove_first_keeps, lemma_remove_first_nodup, lemma_remove_first_subset, lemma_siblings_disjoint,
};
use vstd::prelude::*;

verus! {

/// Index of a node in the scene graph's arena.
pub type NodeId = usize;

/// A node of the scene graph: a payload plus its place in the hierarchy.
pub struct SceneNode<E> {
    /// The payload (the visual element and its per-frame state).
    pub element: E,
    /// Indices of child nodes.
    pub children: Vec<NodeId>,
    /// Index of the parent node.
    pub parent: Option<NodeId>,
    /// Node whose rendering masks this one.
    pub mask_node: Option<NodeId>,
    /// Render order among siblings: higher values render on top.
    pub z_index: i32,
    /// Whether the layout style must be synchronised again.
    pub dirty_style: bool,
}

impl<E> SceneNode<E> {
    /// A node as it is created: no links, z-index 0, style to be synchronised.
    pub open spec fn is_fresh(self, element: E) -> bool {
        &&& self.element == element
        &&& self.children@ == Seq::<NodeId>::empty()
        &&& self.parent is None
        &&& self.mask_node is None
        &&& self.z_index == 0
        &&& self.dirty_style
    }

    /// Creates a new node wrapping the given payload.
    pub fn new(element: E) -> (n: Self)
        ensures
            n.is_fresh(element),
    {
        SceneNode {
            element,
            children: Vec::new(),
            parent: None,
            mask_node: None,
            z_index: 0,
            dirty_style: true,
        }
    }
}

/// Whether slot `i` of the arena holds a node.
pub open spec fn live<E>(ns: Seq<Option<SceneNode<E>>>, i: int) -> bool {
    0 <= i < ns.len() && ns[i] is Some
}

/// The node in slot `i` (meaningful when the slot is live).
pub open spec fn node_at<E>(ns: Seq<Option<SceneNode<E>>>, i: int) -> SceneNode<E> {
    ns[i].unwrap()
}

/// The children of the node in slot `i`.
pub open spec fn kids<E>(ns: Seq<Option<SceneNode<E>>>, i: int) -> Seq<NodeId> {
    ns[i].unwrap().children@
}

/// Two nodes agree on everything but their children.
pub open spec fn same_but_children<E>(a: SceneNode<E>, b: SceneNode<E>) -> bool {
    &&& a.element == b.element
    &&& a.parent == b.parent
    &&& a.mask_node == b.mask_node
    &&& a.z_index == b.z_index
    &&& a.dirty_style == b.dirty_style
}

/// `s` without the first occurrence of `v` (unchanged when `v` is absent).
pub open spec fn remove_first(s: Seq<NodeId>, v: NodeId) -> Seq<NodeId> {
    if s.contains(v) {
        let i = choose|i: int| 0 <= i < s.len() && s[i] == v && forall|j: int| 0 <= j < i ==> s[j] != v;
        s.remove(i)
    } else {
        s
    }
}

/// Every child edge goes from a node to one of strictly lower rank.
pub open spec fn ranked<E>(ns: Seq<Option<SceneNode<E>>>, rank: spec_fn(int) -> nat) -> bool {
    forall|x: int, j: int|
        #![trigger kids(ns, x)[j], live(ns, x)]
        live(ns, x) && 0 <= j < kids(ns, x).len() ==> rank(kids(ns, x)[j] as int) < rank(x)
}

/// Every child edge out of a node of `s` leads into `s`, to a node of
/// strictly lower rank.
pub open spec fn ranked_on<E>(ns: Seq<Option<SceneNode<E>>>, rank: spec_fn(int) -> nat, s: Set<NodeId>) -> bool {
    forall|x: int, j: int|
        #![trigger kids(ns, x)[j], live(ns, x)]
        live(ns, x) && s.contains(x as NodeId) && 0 <= j < kids(ns, x).len() ==> s.contains(kids(ns, x)[j]) && rank(
            kids(ns, x)[j] as int,
        ) < rank(x)
}

/// Ranking every node is ranking the set of all ids.
pub proof fn lemma_ranked_full<E>(ns: Seq<Option<SceneNode<E>>>, rank: spec_fn(int) -> nat)
    ensures
        ranked(ns, rank) <==> ranked_on(ns, rank, Set::<NodeId>::full()),
{
}

/// The child links contain no cycle.
pub open spec fn acyclic<E>(ns: Seq<Option<SceneNode<E>>>) -> bool {
    exists|rank: spec_fn(int) -> nat| ranked(ns, rank)
}

/// Every listed child is a live node whose parent is the listing node, and no
/// list names a child twice.
pub open spec fn child_links_ok<E>(ns: Seq<Option<SceneNode<E>>>) -> bool {
    &&& forall|x: int, j: int|
        #![trigger kids(ns, x)[j], live(ns, x)]
        live(ns, x) && 0 <= j < kids(ns, x).len() ==> {
            &&& live(ns, kids(ns, x)[j] as int)
            &&& node_at(ns, kids(ns, x)[j] as int).parent == Some(x as NodeId)
        }
    &&& forall|x: int| #![trigger live(ns, x)] live(ns, x) ==> kids(ns, x).no_duplicates()
}

/// Every recorded parent is a live node that lists the child.
pub open spec fn parent_links_ok<E>(ns: Seq<Option<SceneNode<E>>>) -> bool {
    forall|x: int|
        #![trigger live(ns, x)]
        live(ns, x) && node_at(ns, x).parent is Some ==> {
            &&& live(ns, node_at(ns, x).parent.unwrap() as int)
            &&& kids(ns, node_at(ns, x).parent.unwrap() as int).contains(x as NodeId)
        }
}

/// The free list names distinct empty slots.
pub open spec fn free_ok<E>(ns: Seq<Option<SceneNode<E>>>, free: Seq<usize>) -> bool {
    &&& forall|k: int|
        #![trigger free[k]]
        0 <= k < free.len() ==> 0 <= free[k] < ns.len() && ns[free[k] as int] is None
    &&& free.no_duplicates()
}

/// The arena `ns2` and free list `fr2` after adding a node holding `element`
/// to `ns` and `fr` in slot `id`: the most recently freed slot if there is
/// one, else a new slot at the end.
pub open spec fn node_added<E>(
    ns: Seq<Option<SceneNode<E>>>,
    fr: Seq<usize>,
    ns2: Seq<Option<SceneNode<E>>>,
    fr2: Seq<usize>,
    element: E,
    id: NodeId,
) -> bool {
    &&& if fr.len() > 0 {
        &&& id == fr.last()
        &&& fr2 == fr.drop_last()
        &&& ns2.len() == ns.len()
    } else {
        &&& id == ns.len()
        &&& fr2 == fr
        &&& ns2.len() == ns.len() + 1
    }
    &&& ns2[id as int] is Some
    &&& node_at(ns2, id as int).is_fresh(element)
    &&& forall|i: int| #![trigger ns2[i]] 0 <= i < ns.len() && i != id ==> ns2[i] == ns[i]
}

/// The arena `ns2` after making `c` a child of `p` in `ns`: `p` (if live)
/// lists `c` last, `c` (if live) records `p` as its parent.
pub open spec fn child_added<E>(ns: Seq<Option<SceneNode<E>>>, ns2: Seq<Option<SceneNode<E>>>, p: NodeId, c: NodeId) -> bool {
    &&& ns2.len() == ns.len()
    &&& forall|i: int|
        #![trigger ns2[i]]
        0 <= i < ns.len() ==> {
            &&& (ns2[i] is Some <==> ns[i] is Some)
            &&& ns[i] is Some ==> {
                let o = ns[i].unwrap();
                let n = ns2[i].unwrap();
                &&& n.element == o.element
                &&& n.mask_node == o.mask_node
                &&& n.z_index == o.z_index
                &&& n.dirty_style == o.dirty_style
                &&& n.children@ == (if i == p { o.children@.push(c) } else { o.children@ })
                &&& n.parent == (if i == c { Some(p) } else { o.parent })
            }
            &&& i != p && i != c ==> ns2[i] == ns[i]
        }
}

/// The arena `ns2` after removing the first occurrence of `c` from the
/// children of `p` (if live) in `ns`.
pub open spec fn child_removed<E>(ns: Seq<Option<SceneNode<E>>>, ns2: Seq<Option<SceneNode<E>>>, p: NodeId, c: NodeId) -> bool {
    &&& ns2.len() == ns.len()
    &&& forall|i: int|
        #![trigger ns2[i]]
        0 <= i < ns.len() ==> {
            &&& (ns2[i] is Some <==> ns[i] is Some)
            &&& ns[i] is Some ==> {
                let o = ns[i].unwrap();
                let n = ns2[i].unwrap();
                &&& same_but_children(n, o)
                &&& n.children@ == (if i == p { remove_first(o.children@, c) } else { o.children@ })
            }
            &&& i != p ==> ns2[i] == ns[i]
        }
}

/// The nodes below `x` (and `x` itself) in post-order: each child's nodes in
/// the order of the children list, then `x`. `fuel` bounds the depth.
pub open spec fn post_of<E>(ns: Seq<Option<SceneNode<E>>>, x: NodeId, fuel: nat) -> Seq<NodeId>
    decreases fuel, 0nat,
{
    if fuel == 0 || !live(ns, x as int) {
        Seq::empty()
    } else {
        post_list(ns, kids(ns, x as int), (fuel - 1) as nat) + seq![x]
    }
}

/// The post-orders of the nodes in `cs`, one after the other.
pub open spec fn post_list<E>(ns: Seq<Option<SceneNode<E>>>, cs: Seq<NodeId>, fuel: nat) -> Seq<NodeId>
    decreases fuel, cs.len() + 1,
{
    if cs.len() == 0 {
        Seq::empty()
    } else {
        post_list(ns, cs.drop_last(), fuel) + post_of(ns, cs.last(), fuel)
    }
}

/// The subtree of `x` in post-order (when no cycle lies below `x`): the order
/// in which `destroy_node` frees its nodes.
pub open spec fn subtree<E>(ns: Seq<Option<SceneNode<E>>>, x: NodeId) -> Seq<NodeId> {
    let rank = (choose|rank: spec_fn(int) -> nat, s: Set<NodeId>| ranked_on(ns, rank, s) && s.contains(x)).0;
    post_of(ns, x, rank(x as int) + 1)
}

/// What destroying `x` does to the arena `ns` and free list `fr` when `p` is
/// the post-order of its subtree: the subtree's slots become empty and are
/// appended to the free list, `x` leaves its parent's children, and every
/// other slot is unchanged.
pub open spec fn destroyed<E>(
    ns: Seq<Option<SceneNode<E>>>,
    fr: Seq<usize>,
    ns2: Seq<Option<SceneNode<E>>>,
    fr2: Seq<usize>,
    x: NodeId,
    p: Seq<NodeId>,
) -> bool {
    &&& fr2 == fr + p
    &&& ns2.len() == ns.len()
    &&& forall|y: int|
        #![trigger ns2[y]]
        0 <= y < ns.len() ==> {
            if p.contains(y as NodeId) {
                ns2[y] is None
            } else if live(ns, x as int) && node_at(ns, x as int).parent == Some(y as NodeId) && live(ns, y) {
                &&& ns2[y] is Some
                &&& same_but_children(node_at(ns2, y), node_at(ns, y))
                &&& kids(ns2, y) == remove_first(kids(ns, y), x)
            } else {
                ns2[y] == ns[y]
            }
        }
}

/// What destroying a node does on any acyclic arena: slots only empty, nodes
/// that stay keep their fields and a subset of their children, the free list
/// only grows, and the destroyed node's slot is empty and last in the list.
pub open spec fn shrunk<E>(
    ns: Seq<Option<SceneNode<E>>>,
    fr: Seq<usize>,
    ns2: Seq<Option<SceneNode<E>>>,
    fr2: Seq<usize>,
    x: NodeId,
) -> bool {
    &&& ns2.len() == ns.len()
    &&& fr.len() <= fr2.len()
    &&& fr2.subrange(0, fr.len() as int) == fr
    &&& forall|y: int|
        #![trigger ns2[y]]
        0 <= y < ns.len() && ns2[y] is Some ==> {
            &&& ns[y] is Some
            &&& same_but_children(node_at(ns2, y), node_at(ns, y))
            &&& forall|c: NodeId| kids(ns2, y).contains(c) ==> kids(ns, y).contains(c)
        }
    &&& live(ns, x as int) ==> {
        &&& ns2[x as int] is None
        &&& fr2.len() > fr.len()
        &&& fr2.last() == x
    }
}

/// What destroying `x` (ranked by `rank`) empties and frees: only nodes
/// ranked no higher than `x`, and the ids appended to the free list are
/// distinct nodes of `ns` whose slots are now empty.
pub open spec fn emptied_below<E>(
    ns: Seq<Option<SceneNode<E>>>,
    fr: Seq<usize>,
    ns2: Seq<Option<SceneNode<E>>>,
    fr2: Seq<usize>,
    rank: spec_fn(int) -> nat,
    x: NodeId,
) -> bool {
    &&& forall|y: int| #![trigger ns2[y]] live(ns, y) && ns2[y] is None ==> rank(y) <= rank(x as int)
    &&& forall|k: int| #![trigger fr2[k]] fr.len() <= k < fr2.len() ==> live(ns, fr2[k] as int) && ns2[fr2[k] as int] is None
    &&& fr2.subrange(fr.len() as int, fr2.len() as int).no_duplicates()
}

/// What wrapping `id` in a new node holding `wrapper` does to the arena `ns`
/// and free list `fr`, giving `ns2`, `fr2` and the wrapper's id `w`: nothing
/// when `id` names no node; else the wrapper is added, takes the place of
/// `id` among its parent's children (at the end of the list), and `id`
/// becomes the wrapper's child.
pub open spec fn wrapped<E>(
    ns: Seq<Option<SceneNode<E>>>,
    fr: Seq<usize>,
    ns2: Seq<Option<SceneNode<E>>>,
    fr2: Seq<usize>,
    id: NodeId,
    wrapper: E,
    w: NodeId,
) -> bool {
    if !live(ns, id as int) {
        &&& ns2 == ns
        &&& fr2 == fr
        &&& w == id
    } else {
        exists|na: Seq<Option<SceneNode<E>>>, nb: Seq<Option<SceneNode<E>>>, nc: Seq<Option<SceneNode<E>>>|
            #![trigger node_added(ns, fr, na, fr2, wrapper, w), child_added(nc, ns2, w, id), nb.len()]
            {
                &&& node_added(ns, fr, na, fr2, wrapper, w)
                &&& match node_at(ns, id as int).parent {
                    Some(p) => child_removed(na, nb, p, id) && child_added(nb, nc, p, w),
                    None => nc == na,
                }
                &&& child_added(nc, ns2, w, id)
            }
    }
}

/// A copy of a list of ids.
fn copy_ids(v: &Vec<NodeId>) -> (r: Vec<NodeId>)
    ensures
        r@ == v@,
{
    let mut r: Vec<NodeId> = Vec::new();
    let mut k: usize = 0;
    while k < v.len()
        invariant
            k <= v@.len(),
            r@ == v@.take(k as int),
        decreases v@.len() - k,
    {
        r.push(v[k]);
        k += 1;
        assert(r@ =~= v@.take(k as int));
    }
    assert(v@.take(k as int) =~= v@);
    r
}

/// The arena `ns` and free list `fr` come from `ns0` and `fr0` by emptying
/// slots, dropping children and appending to the free list.
spec fn kept_from<E>(
    ns0: Seq<Option<SceneNode<E>>>,
    fr0: Seq<usize>,
    ns: Seq<Option<SceneNode<E>>>,
    fr: Seq<usize>,
) -> bool {
    &&& ns.len() == ns0.len()
    &&& fr0.len() <= fr.len()
    &&& fr.subrange(0, fr0.len() as int) == fr0
    &&& forall|y: int|
        #![trigger ns[y]]
        0 <= y < ns0.len() && ns[y] is Some ==> {
            &&& ns0[y] is Some
            &&& same_but_children(node_at(ns, y), node_at(ns0, y))
            &&& forall|c: NodeId| kids(ns, y).contains(c) ==> kids(ns0, y).contains(c)
        }
}

/// Midway through destroying `x`: the nodes `freed` are gone, `x` has left
/// its parent's children, and every other slot but `x` is unchanged.
spec fn detached<E>(
    ns0: Seq<Option<SceneNode<E>>>,
    ns: Seq<Option<SceneNode<E>>>,
    x: NodeId,
    freed: Seq<NodeId>,
) -> bool {
    &&& ns.len() == ns0.len()
    &&& forall|y: int|
        #![trigger ns[y]]
        0 <= y < ns0.len() && y != x ==> {
            if freed.contains(y as NodeId) {
                ns[y] is None
            } else if node_at(ns0, x as int).parent == Some(y as NodeId) && live(ns0, y) {
                &&& ns[y] is Some
                &&& same_but_children(node_at(ns, y), node_at(ns0, y))
                &&& kids(ns, y) == remove_first(kids(ns0, y), x)
            } else {
                ns[y] == ns0[y]
            }
        }
}

/// The first position of `x` in `v`, if any.
fn first_position(v: &Vec<NodeId>, x: NodeId) -> (r: Option<usize>)
    ensures
        match r {
            Some(k) => {
                &&& k < v@.len()
                &&& v@[k as int] == x
                &&& forall|j: int| 0 <= j < k ==> v@[j] != x
                &&& remove_first(v@, x) == v@.remove(k as int)
            },
            None => !v@.contains(x) && remove_first(v@, x) == v@,
        },
{
    let mut k: usize = 0;
    while k < v.len()
        invariant
            k <= v@.len(),
            forall|j: int| 0 <= j < k ==> v@[j] != x,
        decreases v@.len() - k,
    {
        if v[k] == x {
            proof {
                let i = choose|i: int| 0 <= i < v@.len() && v@[i] == x && forall|j: int| 0 <= j < i ==> v@[j] != x;
                assert(v@.contains(x));
                if i < k {
                } else if i > k {
                    assert(v@[k as int] != x);
                }
                assert(i == k);
            }
            return Some(k);
        }
        k += 1;
    }
    None
}

/// Points every entry of `roots` that names `from` at `to` instead: after
/// `from` is wrapped in `to`, the scenes that `from` was the root of start at
/// the wrapper.
pub fn retarget_roots(roots: &mut Vec<NodeId>, from: NodeId, to: NodeId)
    ensures
        final(roots)@.len() == old(roots)@.len(),
        forall|i: int|
            0 <= i < old(roots)@.len() ==> #[trigger] final(roots)@[i] == if old(roots)@[i] == from {
                to
            } else {
                old(roots)@[i]
            },
{
    let mut i: usize = 0;
    while i < roots.len()
        invariant
            i <= roots@.len(),
            roots@.len() == old(roots)@.len(),
            forall|j: int| 0 <= j < i ==> roots@[j] == if old(roots)@[j] == from {
                to
            } else {
                old(roots)@[j]
            },
            forall|j: int| i <= j < roots@.len() ==> roots@[j] == old(roots)@[j],
        decreases roots@.len() - i,
    {
        if roots[i] == from {
            roots.set(i, to);
        }
        i += 1;
    }
}

/// The scene graph data structure: an arena of nodes and the free list of its
/// empty slots.
pub struct SceneGraph<E> {
    /// The arena of all nodes; `None` marks a removed node.
    pub nodes: Vec<Option<SceneNode<E>>>,
    /// Indices of removed nodes, to be reused; the last one is reused first.
    pub free_indices: Vec<usize>,
}

/// The ids appended to the free list (from `fr` to `fr2`) are distinct nodes
/// of `ns` whose slots are empty in `ns2`.
pub open spec fn freed_distinct<E>(ns: Seq<Option<SceneNode<E>>>, fr: Seq<usize>, ns2: Seq<Option<SceneNode<E>>>, fr2: Seq<usize>) -> bool {
    &&& forall|k: int| #![trigger fr2[k]] fr.len() <= k < fr2.len() ==> live(ns, fr2[k] as int) && ns2[fr2[k] as int] is None
    &&& fr2.subrange(fr.len() as int, fr2.len() as int).no_duplicates()
}

/// Every node of `s` that is gone from `ns2` took every child it had in `ns`
/// with it.
pub open spec fn gone_closed<E>(ns: Seq<Option<SceneNode<E>>>, ns2: Seq<Option<SceneNode<E>>>, s: Set<NodeId>) -> bool {
    forall|z: int, j: int|
        #![trigger kids(ns, z)[j], live(ns2, z)]
        live(ns, z) && s.contains(z as NodeId) && !live(ns2, z) && 0 <= j < kids(ns, z).len() ==> !live(
            ns2,
            kids(ns, z)[j] as int,
        )
}

/// The nodes of the subtree of `id` whose recorded parent is `z`: destroying
/// `id` takes each of them out of `z`'s children (its first occurrence).
pub open spec fn freed_children<E>(ns: Seq<Option<SceneNode<E>>>, id: NodeId, z: int) -> Set<NodeId> {
    Set::new(|x: NodeId| subtree(ns, id).contains(x) && node_at(ns, x as int).parent == Some(z as NodeId))
}

/// The nodes of `ns` whose recorded parent is `z` and that are gone from
/// `ns2`.
pub open spec fn gone_children<E>(ns: Seq<Option<SceneNode<E>>>, ns2: Seq<Option<SceneNode<E>>>, z: int) -> Set<NodeId> {
    Set::new(
        |x: NodeId| live(ns, x as int) && node_at(ns, x as int).parent == Some(z as NodeId) && !live(ns2, x as int),
    )
}

/// `id` when its recorded parent is `z`, else nothing.
spec fn child_of<E>(ns: Seq<Option<SceneNode<E>>>, id: NodeId, z: int) -> Set<NodeId> {
    if node_at(ns, id as int).parent == Some(z as NodeId) {
        set![id]
    } else {
        Set::empty()
    }
}

/// The children lists after one more child of `id` is destroyed.
proof fn lemma_lists_after_child<E>(
    ns0: Seq<Option<SceneNode<E>>>,
    nsk: Seq<Option<SceneNode<E>>>,
    nsk1: Seq<Option<SceneNode<E>>>,
    id: NodeId,
)
    requires
        nsk.len() == ns0.len(),
        nsk1.len() == ns0.len(),
        live(nsk1, id as int),
        forall|y: int|
            #![trigger nsk[y]]
            0 <= y < ns0.len() && nsk[y] is Some ==> ns0[y] is Some && same_but_children(node_at(nsk, y), node_at(ns0, y)),
        forall|y: int| #![trigger nsk1[y]] 0 <= y < ns0.len() && nsk1[y] is Some ==> nsk[y] is Some,
        forall|z: int|
            #![trigger kids(nsk, z)]
            live(nsk, z) ==> kids(nsk, z) == drop_firsts(kids(ns0, z), gone_children(ns0, nsk, z).union(child_of(ns0, id, z))),
        forall|z: int|
            #![trigger kids(nsk1, z)]
            live(nsk1, z) ==> kids(nsk1, z) == drop_firsts(kids(nsk, z), gone_children(nsk, nsk1, z)),
    ensures
        forall|z: int|
            #![trigger kids(nsk1, z)]
            live(nsk1, z) ==> kids(nsk1, z) == drop_firsts(kids(ns0, z), gone_children(ns0, nsk1, z).union(child_of(ns0, id, z))),
{
    assert forall|z: int| #![trigger kids(nsk1, z)] live(nsk1, z) implies kids(nsk1, z) == drop_firsts(
        kids(ns0, z),
        gone_children(ns0, nsk1, z).union(child_of(ns0, id, z)),
    ) by {
        assert(nsk[z] is Some);
        assert(live(nsk, z));
        let a = gone_children(ns0, nsk, z).union(child_of(ns0, id, z));
        let b = gone_children(nsk, nsk1, z);
        assert(kids(nsk, z) == drop_firsts(kids(ns0, z), a));
        assert(kids(nsk1, z) == drop_firsts(kids(nsk, z), b));
        assert(a.disjoint(b)) by {
            assert forall|x: NodeId| a.contains(x) implies !b.contains(x) by {
                if b.contains(x) {
                    assert(live(nsk, x as int));
                    if x == id {
                        assert(live(nsk1, id as int));
                    }
                }
            }
        }
        lemma_drop_firsts_twice(kids(ns0, z), a, b);
        assert(a.union(b) =~= gone_children(ns0, nsk1, z).union(child_of(ns0, id, z))) by {
            assert forall|x: NodeId| #[trigger] a.union(b).contains(x) == gone_children(ns0, nsk1, z).union(
                child_of(ns0, id, z),
            ).contains(x) by {
                if live(nsk, x as int) {
                    assert(nsk[x as int] is Some);
                    assert(same_but_children(node_at(nsk, x as int), node_at(ns0, x as int)));
                } else if live(ns0, x as int) {
                    if live(nsk1, x as int) {
                        assert(nsk[x as int] is Some);
                    }
                }
            }
        }
    }
}

/// Every node that stays in `ns2` still lists each child that it listed in
/// `ns` and that stays.
pub open spec fn kids_kept<E>(ns: Seq<Option<SceneNode<E>>>, ns2: Seq<Option<SceneNode<E>>>) -> bool {
    forall|z: int, w: NodeId|
        #![trigger kids(ns, z).contains(w), live(ns2, z)]
        live(ns2, z) && kids(ns, z).contains(w) ==> kids(ns2, z).contains(w) || !live(ns2, w as int)
}

/// A subtree in an arena whose nodes and lists only shrank lies in the
/// subtree of the same node before.
proof fn lemma_post_of_mono<E>(ns: Seq<Option<SceneNode<E>>>, ns2: Seq<Option<SceneNode<E>>>, x: NodeId, f: nat, y: NodeId)
    requires
        forall|z: int| #![trigger ns2[z]] live(ns2, z) ==> live(ns, z),
        forall|z: int, w: NodeId| #![trigger kids(ns2, z).contains(w)] live(ns2, z) && kids(ns2, z).contains(w) ==> kids(ns, z).contains(w),
        post_of(ns2, x, f).contains(y),
    ensures
        post_of(ns, x, f).contains(y),
    decreases f,
{
    let ks2 = kids(ns2, x as int);
    let g = (f - 1) as nat;
    assert(f > 0 && live(ns2, x as int));
    assert(ns2[x as int] is Some);
    lemma_concat_contains(post_list(ns2, ks2, g), seq![x], y);
    if post_list(ns2, ks2, g).contains(y) {
        lemma_post_list_mem(ns2, ks2, g, y);
        let j = choose|j: int| 0 <= j < ks2.len() && #[trigger] post_of(ns2, ks2[j], g).contains(y);
        let w = ks2[j];
        assert(kids(ns2, x as int).contains(w));
        assert(kids(ns, x as int).contains(w));
        let j2 = choose|j2: int| 0 <= j2 < kids(ns, x as int).len() && kids(ns, x as int)[j2] == w;
        lemma_post_of_mono(ns, ns2, w, g, y);
        lemma_post_of_child(ns, x, j2, f, y);
    } else {
        assert(seq![x][0] == x);
        lemma_post_of_root(ns, x, f);
    }
}

/// When a node of a ranked set is gone and took its children along, its
/// whole subtree is gone.
proof fn lemma_gone_below<E>(
    ns: Seq<Option<SceneNode<E>>>,
    ns2: Seq<Option<SceneNode<E>>>,
    rank: spec_fn(int) -> nat,
    s: Set<NodeId>,
    x: NodeId,
    f: nat,
    y: NodeId,
)
    requires
        ranked_on(ns, rank, s),
        s.contains(x),
        gone_closed(ns, ns2, s),
        !live(ns2, x as int),
        post_of(ns, x, f).contains(y),
    ensures
        !live(ns2, y as int),
    decreases f,
{
    let ks = kids(ns, x as int);
    let g = (f - 1) as nat;
    lemma_concat_contains(post_list(ns, ks, g), seq![x], y);
    if post_list(ns, ks, g).contains(y) {
        lemma_post_list_mem(ns, ks, g, y);
        let j = choose|j: int| 0 <= j < ks.len() && #[trigger] post_of(ns, ks[j], g).contains(y);
        assert(live(ns, x as int));
        assert(s.contains(kids(ns, x as int)[j]) && !live(ns2, kids(ns, x as int)[j] as int));
        lemma_gone_below(ns, ns2, rank, s, ks[j], g, y);
    } else {
        assert(seq![x][0] == x);
    }
}

/// Emptying slots and appending distinct ids of nodes that are now gone
/// keeps a valid free list valid.
pub proof fn lemma_freed_keeps_free_ok<E>(
    ns: Seq<Option<SceneNode<E>>>,
    fr: Seq<usize>,
    ns2: Seq<Option<SceneNode<E>>>,
    fr2: Seq<usize>,
    x: NodeId,
)
    requires
        free_ok(ns, fr),
        shrunk(ns, fr, ns2, fr2, x),
        freed_distinct(ns, fr, ns2, fr2),
    ensures
        free_ok(ns2, fr2),
{
    assert forall|k: int| #![trigger fr2[k]] 0 <= k < fr2.len() implies 0 <= fr2[k] < ns2.len() && ns2[fr2[k] as int] is None by {
        if k < fr.len() {
            assert(fr2[k] == fr2.subrange(0, fr.len() as int)[k]);
            assert(fr[k] == fr2[k]);
            if ns2[fr[k] as int] is Some {
                assert(ns[fr[k] as int] is Some);
            }
        }
    }
    assert forall|a: int, b: int| 0 <= a < fr2.len() && 0 <= b < fr2.len() && a != b implies fr2[a] != fr2[b] by {
        let tail = fr2.subrange(fr.len() as int, fr2.len() as int);
        if a < fr.len() && b < fr.len() {
            assert(fr2[a] == fr2.subrange(0, fr.len() as int)[a] && fr2[b] == fr2.subrange(0, fr.len() as int)[b]);
            assert(fr[a] == fr2[a] && fr[b] == fr2[b]);
        } else if a >= fr.len() && b >= fr.len() {
            assert(tail[a - fr.len()] == fr2[a] && tail[b - fr.len()] == fr2[b]);
        } else if a < fr.len() {
            assert(fr2[a] == fr2.subrange(0, fr.len() as int)[a]);
            assert(fr[a] == fr2[a]);
            assert(ns[fr[a] as int] is None);
            assert(live(ns, fr2[b] as int));
        } else {
            assert(fr2[b] == fr2.subrange(0, fr.len() as int)[b]);
            assert(fr[b] == fr2[b]);
            assert(ns[fr[b] as int] is None);
            assert(live(ns, fr2[a] as int));
        }
    }
}

/// What `destroy_node(id)` makes of `g`: exactly the subtree of `id` is gone,
/// and its ids, each once, are appended to the free list (so a valid free
/// list stays valid); nodes that stay keep their fields, and their children
/// are the ones they had less some that are gone; nothing changes when `id`
/// names no node. Where the child links are sound, the ids come in
/// post-order, and `id` has left its parent's children while every other
/// node that stays is unchanged.
pub open spec fn destroy_post<E>(g: SceneGraph<E>, g2: SceneGraph<E>, id: NodeId) -> bool {
    &&& shrunk(g.nodes@, g.free_indices@, g2.nodes@, g2.free_indices@, id)
    &&& freed_distinct(g.nodes@, g.free_indices@, g2.nodes@, g2.free_indices@)
    &&& free_ok(g.nodes@, g.free_indices@) ==> free_ok(g2.nodes@, g2.free_indices@)
    &&& forall|y: NodeId| #[trigger] subtree(g.nodes@, id).contains(y) ==> !live(g2.nodes@, y as int)
        && g2.free_indices@.subrange(g.free_indices@.len() as int, g2.free_indices@.len() as int).contains(y)
    &&& forall|y: int| #![trigger g2.nodes@[y]] live(g.nodes@, y) && g2.nodes@[y] is None ==> subtree(g.nodes@, id).contains(
        y as NodeId,
    )
    &&& kids_kept(g.nodes@, g2.nodes@)
    &&& forall|z: int|
        #![trigger kids(g2.nodes@, z)]
        live(g2.nodes@, z) ==> kids(g2.nodes@, z) == drop_firsts(kids(g.nodes@, z), freed_children(g.nodes@, id, z))
    &&& !live(g.nodes@, id as int) ==> g2 == g
    &&& acyclic(g.nodes@) ==> acyclic(g2.nodes@)
    &&& child_links_ok(g.nodes@) ==> {
        &&& child_links_ok(g2.nodes@)
        &&& destroyed(g.nodes@, g.free_indices@, g2.nodes@, g2.free_indices@, id, subtree(g.nodes@, id))
    }
}

impl<E> SceneGraph<E> {
    /// A well-formed scene graph: a forest whose links agree in both
    /// directions, with a free list of distinct empty slots.
    pub open spec fn wf(self) -> bool {
        &&& free_ok(self.nodes@, self.free_indices@)
        &&& child_links_ok(self.nodes@)
        &&& parent_links_ok(self.nodes@)
        &&& acyclic(self.nodes@)
    }

    /// Whether `id` names a node of the graph.
    pub open spec fn is_live(self, id: int) -> bool {
        live(self.nodes@, id)
    }

    /// Creates an empty scene graph.
    pub fn new() -> (g: Self)
        ensures
            g.nodes@ == Seq::<Option<SceneNode<E>>>::empty(),
            g.free_indices@ == Seq::<usize>::empty(),
            g.wf(),
    {
        let g = SceneGraph { nodes: Vec::new(), free_indices: Vec::new() };
        assert(ranked(g.nodes@, |i: int| 0nat));
        g
    }

    /// Adds a new node holding `element` and returns its id: the most recently
    /// freed slot if there is one, else a new slot at the end.
    pub fn add_node(&mut self, element: E) -> (id: NodeId)
        requires
            old(self).free_indices@.len() > 0 ==> old(self).free_indices@.last() < old(self).nodes@.len(),
        ensures
            node_added(old(self).nodes@, old(self).free_indices@, final(self).nodes@, final(self).free_indices@, element, id),
    {
        let popped = self.free_indices.pop();
        match popped {
            Some(id) => {
                self.nodes.set(id, Some(SceneNode::new(element)));
                id
            },
            None => {
                let id = self.nodes.len();
                self.nodes.push(Some(SceneNode::new(element)));
                id
            },
        }
    }

    /// Makes `child` a child of `parent`: appends `child` to the parent's
    /// children (when the parent exists) and records `parent` as the child's
    /// parent (when the child exists).
    pub fn add_child(&mut self, parent: NodeId, child: NodeId)
        ensures
            final(self).free_indices@ == old(self).free_indices@,
            child_added(old(self).nodes@, final(self).nodes@, parent, child),
    {
        if parent < self.nodes.len() {
            match &mut self.nodes[parent] {
                Some(p_node) => {
                    p_node.children.push(child);
                },
                None => {},
            }
        }
        if child < self.nodes.len() {
            match &mut self.nodes[child] {
                Some(c_node) => {
                    c_node.parent = Some(parent);
                },
                None => {},
            }
        }
    }

    /// Removes the first occurrence of `child` from the children of `parent`
    /// (when the parent exists). The child's own `parent` field is left as it
    /// is, so that the caller can re-parent it.
    pub fn remove_child(&mut self, parent: NodeId, child: NodeId)
        ensures
            final(self).free_indices@ == old(self).free_indices@,
            child_removed(old(self).nodes@, final(self).nodes@, parent, child),
    {
        if parent < self.nodes.len() {
            match &mut self.nodes[parent] {
                Some(p_node) => {
                    let pos = first_position(&p_node.children, child);
                    match pos {
                        Some(k) => {
                            p_node.children.remove(k);
                        },
                        None => {},
                    }
                },
                None => {},
            }
        }
    }

    /// Returns the node with the given id, if it exists.
    pub fn get_node(&self, id: NodeId) -> (r: Option<&SceneNode<E>>)
        ensures
            match r {
                Some(n) => self.is_live(id as int) && *n == node_at(self.nodes@, id as int),
                None => !self.is_live(id as int),
            },
    {
        if id < self.nodes.len() {
            match &self.nodes[id] {
                Some(n) => Some(n),
                None => None,
            }
        } else {
            None
        }
    }
    /// Returns the node with the given id for modification, if it exists.
    pub fn get_node_mut(&mut self, id: NodeId) -> (r: Option<&mut SceneNode<E>>)
        ensures
            final(self).free_indices@ == old(self).free_indices@,
            match r {
                Some(n) => {
                    &&& old(self).is_live(id as int)
                    &&& *n == node_at(old(self).nodes@, id as int)
                    &&& final(self).nodes@ == old(self).nodes@.update(id as int, Some(*final(n)))
                },
                None => !old(self).is_live(id as int) && final(self).nodes@ == old(self).nodes@,
            },
    {
        if id < self.nodes.len() {
            match &mut self.nodes[id] {
                Some(n) => Some(n),
                None => None,
            }
        } else {
            None
        }
    }
    /// Wraps the node `id` in a new node holding `wrapper` (an effect that
    /// applies to the node and everything below it) and returns the wrapper's
    /// id; returns `id` and changes nothing when `id` names no node.
    pub fn wrap_node(&mut self, id: NodeId, wrapper: E) -> (w: NodeId)
        requires
            old(self).free_indices@.len() > 0 ==> old(self).free_indices@.last() < old(self).nodes@.len(),
        ensures
            wrapped(old(self).nodes@, old(self).free_indices@, final(self).nodes@, final(self).free_indices@, id, wrapper, w),
    {
        let ghost ns = self.nodes@;
        let ghost fr = self.free_indices@;
        let parent = match self.get_node(id) {
            Some(n) => n.parent,
            None => {
                return id;
            },
        };
        let w = self.add_node(wrapper);
        let ghost na = self.nodes@;
        let ghost mut nb = self.nodes@;
        match parent {
            Some(p) => {
                self.remove_child(p, id);
                proof {
                    nb = self.nodes@;
                }
                self.add_child(p, w);
            },
            None => {},
        }
        let ghost nc = self.nodes@;
        self.add_child(w, id);
        proof {
            assert(node_added(ns, fr, na, self.free_indices@, wrapper, w));
            assert(child_added(nc, self.nodes@, w, id));
        }
        w
    }

    /// Frees `id` and everything below it, children first in list order.
    #[verifier::rlimit(80)]
    fn destroy_rec(&mut self, id: NodeId, Ghost(rank): Ghost<spec_fn(int) -> nat>, Ghost(s): Ghost<Set<NodeId>>)
        requires
            ranked_on(old(self).nodes@, rank, s),
            s.contains(id),
        ensures
            ranked_on(final(self).nodes@, rank, s),
            shrunk(old(self).nodes@, old(self).free_indices@, final(self).nodes@, final(self).free_indices@, id),
            emptied_below(old(self).nodes@, old(self).free_indices@, final(self).nodes@, final(self).free_indices@, rank, id),
            !live(old(self).nodes@, id as int) ==> *final(self) == *old(self),
            forall|y: int|
                #![trigger final(self).nodes@[y]]
                live(old(self).nodes@, y) && final(self).nodes@[y] is None ==> s.contains(y as NodeId) && post_of(
                    old(self).nodes@,
                    id,
                    rank(id as int) + 1,
                ).contains(y as NodeId) && final(self).free_indices@.subrange(
                    old(self).free_indices@.len() as int,
                    final(self).free_indices@.len() as int,
                ).contains(y as NodeId),
            gone_closed(old(self).nodes@, final(self).nodes@, s),
            kids_kept(old(self).nodes@, final(self).nodes@),
            forall|z: int|
                #![trigger kids(final(self).nodes@, z)]
                live(final(self).nodes@, z) ==> kids(final(self).nodes@, z) == drop_firsts(
                    kids(old(self).nodes@, z),
                    gone_children(old(self).nodes@, final(self).nodes@, z),
                ),
            child_links_ok(old(self).nodes@) ==> {
                &&& child_links_ok(final(self).nodes@)
                &&& destroyed(
                    old(self).nodes@,
                    old(self).free_indices@,
                    final(self).nodes@,
                    final(self).free_indices@,
                    id,
                    post_of(old(self).nodes@, id, rank(id as int) + 1),
                )
            },
        decreases rank(id as int),
    {
        proof {
            assert(self.free_indices@.subrange(0, self.free_indices@.len() as int) =~= self.free_indices@);
        }
        proof {
            // Nothing is gone yet.
            assert forall|z: int| #![trigger kids(self.nodes@, z)] live(self.nodes@, z) implies kids(self.nodes@, z)
                == drop_firsts(kids(self.nodes@, z), gone_children(self.nodes@, self.nodes@, z)) by {
                assert(gone_children(self.nodes@, self.nodes@, z) =~= Set::<NodeId>::empty());
                lemma_drop_firsts_none(kids(self.nodes@, z));
            }
        }
        if id >= self.nodes.len() {
            return;
        }
        let present = match &self.nodes[id] {
            Some(_) => true,
            None => false,
        };
        if !present {
            return;
        }
        let ghost ns0 = self.nodes@;
        let ghost fr0 = self.free_indices@;
        let ghost tidy = child_links_ok(ns0);
        let ghost f: nat = rank(id as int);
        let (parent_id, children_ids) = match &self.nodes[id] {
            Some(node) => (node.parent, copy_ids(&node.children)),
            None => (None, Vec::new()),
        };
        proof {
            assert(live(ns0, id as int));
            assert(ns0.len() == self.nodes.len());
            if kids(ns0, id as int).contains(id) {
                let j = choose|j: int| 0 <= j < kids(ns0, id as int).len() && kids(ns0, id as int)[j] == id;
                assert(rank(kids(ns0, id as int)[j] as int) < rank(id as int));
            }
        }
        match parent_id {
            Some(pid) => {
                self.remove_child(pid, id);
            },
            None => {},
        }
        proof {
            let ns1 = self.nodes@;
            assert forall|y: int| #![trigger ns1[y]] 0 <= y < ns0.len() && ns1[y] is Some implies {
                &&& ns0[y] is Some
                &&& same_but_children(node_at(ns1, y), node_at(ns0, y))
                &&& forall|c: NodeId| kids(ns1, y).contains(c) ==> kids(ns0, y).contains(c)
            } by {
                assert forall|c: NodeId| kids(ns1, y).contains(c) implies kids(ns0, y).contains(c) by {
                    if parent_id is Some && y == parent_id.unwrap() {
                        lemma_remove_first_subset(kids(ns0, y), id, c);
                    }
                }
            }
            assert(self.free_indices@.subrange(0, fr0.len() as int) =~= fr0);
            assert(ranked_on(ns1, rank, s)) by {
                assert forall|x: int, j: int| #![trigger kids(ns1, x)[j], live(ns1, x)]
                    live(ns1, x) && s.contains(x as NodeId) && 0 <= j < kids(ns1, x).len() implies s.contains(kids(ns1, x)[j])
                    && rank(kids(ns1, x)[j] as int) < rank(x) by {
                    assert(ns1[x] is Some);
                    assert(live(ns0, x));
                    assert(kids(ns1, x).contains(kids(ns1, x)[j]));
                    let i = choose|i: int| 0 <= i < kids(ns0, x).len() && kids(ns0, x)[i] == kids(ns1, x)[j];
                    assert(rank(kids(ns0, x)[i] as int) < rank(x));
                }
            }
            assert(self.free_indices@.subrange(fr0.len() as int, fr0.len() as int) =~= Seq::<usize>::empty());
            assert(post_list(ns0, children_ids@.take(0), f) =~= Seq::<NodeId>::empty());
            assert(self.free_indices@ =~= fr0 + post_list(ns0, children_ids@.take(0), f));
            assert(children_ids@.subrange(0, children_ids@.len() as int) =~= children_ids@);
            assert(!kids(ns0, id as int).contains(id));
            assert(kids(ns1, id as int) == kids(ns0, id as int));
            assert(live(ns1, id as int));
            assert(detached(ns0, ns1, id, post_list(ns0, children_ids@.take(0), f))) by {
                assert forall|y: int| #![trigger ns1[y]] 0 <= y < ns0.len() && y != id implies {
                    if post_list(ns0, children_ids@.take(0), f).contains(y as NodeId) {
                        ns1[y] is None
                    } else if node_at(ns0, id as int).parent == Some(y as NodeId) && live(ns0, y) {
                        &&& ns1[y] is Some
                        &&& same_but_children(node_at(ns1, y), node_at(ns0, y))
                        &&& kids(ns1, y) == remove_first(kids(ns0, y), id)
                    } else {
                        ns1[y] == ns0[y]
                    }
                } by {
                    assert(!post_list(ns0, children_ids@.take(0), f).contains(y as NodeId));
                }
            }
            if tidy {
                assert(child_links_ok(ns1)) by {
                    assert forall|x: int, j: int| #![trigger kids(ns1, x)[j], live(ns1, x)]
                        live(ns1, x) && 0 <= j < kids(ns1, x).len() implies {
                            &&& live(ns1, kids(ns1, x)[j] as int)
                            &&& node_at(ns1, kids(ns1, x)[j] as int).parent == Some(x as NodeId)
                        } by {
                        assert(ns1[x] is Some);
                        assert(live(ns0, x));
                        assert(kids(ns1, x).contains(kids(ns1, x)[j]));
                        let i = choose|i: int| 0 <= i < kids(ns0, x).len() && kids(ns0, x)[i] == kids(ns1, x)[j];
                        assert(live(ns0, kids(ns0, x)[i] as int));
                        let cc = kids(ns0, x)[i] as int;
                        assert(ns1[cc] is Some);
                        assert(node_at(ns0, cc).parent == Some(x as NodeId));
                    }
                    assert forall|x: int| #![trigger live(ns1, x)] live(ns1, x) implies kids(ns1, x).no_duplicates() by {
                        assert(ns1[x] is Some);
                        assert(live(ns0, x));
                        if parent_id is Some && x == parent_id.unwrap() {
                            lemma_remove_first_nodup(kids(ns0, x), id);
                        }
                    }
                }
            }
        }
        proof {
            // Only `id` has left a list so far.
            let ns1 = self.nodes@;
            assert forall|z: int, w: NodeId| #![trigger kids(ns0, z).contains(w), live(ns1, z)]
                live(ns1, z) && kids(ns0, z).contains(w) implies kids(ns1, z).contains(w) || !live(ns1, w as int) || w == id by {
                assert(ns1[z] is Some);
                if parent_id is Some && z == parent_id.unwrap() && w != id {
                    lemma_remove_first_keeps(kids(ns0, z), id, w);
                }
            }
            assert forall|z: int| #![trigger kids(ns1, z)] live(ns1, z) implies kids(ns1, z) == drop_firsts(
                kids(ns0, z),
                gone_children(ns0, ns1, z).union(child_of(ns0, id, z)),
            ) by {
                assert(ns1[z] is Some);
                assert(gone_children(ns0, ns1, z) =~= Set::<NodeId>::empty());
                if parent_id is Some && z == parent_id.unwrap() {
                    assert(gone_children(ns0, ns1, z).union(child_of(ns0, id, z)) =~= set![id]);
                    lemma_remove_first_drops(kids(ns0, z), id);
                } else {
                    assert(gone_children(ns0, ns1, z).union(child_of(ns0, id, z)) =~= Set::<NodeId>::empty());
                    lemma_drop_firsts_none(kids(ns0, z));
                }
            }
        }
        let n = children_ids.len();
        let mut k: usize = 0;
        while k < n
            invariant
                0 <= k <= n,
                n == children_ids@.len(),
                ns0.len() <= usize::MAX,
                children_ids@ == kids(ns0, id as int),
                ranked_on(ns0, rank, s),
                s.contains(id),
                live(ns0, id as int),
                f == rank(id as int),
                parent_id == node_at(ns0, id as int).parent,
                tidy == child_links_ok(ns0),
                ranked_on(self.nodes@, rank, s),
                kept_from(ns0, fr0, self.nodes@, self.free_indices@),
                live(self.nodes@, id as int),
                forall|y: int| #![trigger self.nodes@[y]] live(ns0, y) && self.nodes@[y] is None ==> rank(y) < rank(id as int),
                forall|q: int|
                    #![trigger self.free_indices@[q]]
                    fr0.len() <= q < self.free_indices@.len() ==> live(ns0, self.free_indices@[q] as int)
                        && self.nodes@[self.free_indices@[q] as int] is None,
                self.free_indices@.subrange(fr0.len() as int, self.free_indices@.len() as int).no_duplicates(),
                forall|y: int|
                    #![trigger self.nodes@[y]]
                    live(ns0, y) && self.nodes@[y] is None ==> s.contains(y as NodeId) && post_of(ns0, id, f + 1).contains(
                        y as NodeId,
                    ) && self.free_indices@.subrange(fr0.len() as int, self.free_indices@.len() as int).contains(y as NodeId),
                forall|z: int, j: int|
                    #![trigger kids(ns0, z)[j], live(self.nodes@, z)]
                    live(ns0, z) && s.contains(z as NodeId) && !live(self.nodes@, z) && 0 <= j < kids(ns0, z).len() ==> !live(
                        self.nodes@,
                        kids(ns0, z)[j] as int,
                    ),
                forall|z: int, w: NodeId|
                    #![trigger kids(ns0, z).contains(w), live(self.nodes@, z)]
                    live(self.nodes@, z) && kids(ns0, z).contains(w) ==> kids(self.nodes@, z).contains(w) || !live(
                        self.nodes@,
                        w as int,
                    ) || w == id,
                forall|j: int| 0 <= j < k ==> !live(self.nodes@, #[trigger] children_ids@[j] as int),
                forall|z: int|
                    #![trigger kids(self.nodes@, z)]
                    live(self.nodes@, z) ==> kids(self.nodes@, z) == drop_firsts(
                        kids(ns0, z),
                        gone_children(ns0, self.nodes@, z).union(child_of(ns0, id, z)),
                    ),
                tidy ==> {
                    &&& child_links_ok(self.nodes@)
                    &&& self.free_indices@ == fr0 + post_list(ns0, children_ids@.take(k as int), f)
                    &&& live(self.nodes@, id as int)
                    &&& same_but_children(node_at(self.nodes@, id as int), node_at(ns0, id as int))
                    &&& kids(self.nodes@, id as int) == children_ids@.subrange(k as int, n as int)
                    &&& detached(ns0, self.nodes@, id, post_list(ns0, children_ids@.take(k as int), f))
                },
            decreases n - k,
        {
            let c = children_ids[k];
            let ghost nsk = self.nodes@;
            let ghost frk = self.free_indices@;
            let ghost freed = post_list(ns0, children_ids@.take(k as int), f);
            proof {
                assert(rank(kids(ns0, id as int)[k as int] as int) < rank(id as int));
                assert(s.contains(kids(ns0, id as int)[k as int]));
                if tidy {
                    assert(kids(ns0, id as int).contains(c));
                    // The subtree of `c` is still intact.
                    lemma_post_of_fuel(ns0, rank, s, c, (rank(c as int) + 1) as nat, f);
                    assert(kids_live(ns0)) by {
                        assert forall|x: int, j: int| #![trigger kids(ns0, x)[j], live(ns0, x)]
                            live(ns0, x) && 0 <= j < kids(ns0, x).len() implies live(ns0, kids(ns0, x)[j] as int) by {}
                    }
                    assert forall|y: NodeId| #![trigger post_of(ns0, c, f).contains(y)]
                        post_of(ns0, c, f).contains(y) implies !freed.contains(y) && y != id
                        && live(nsk, y as int) == live(ns0, y as int)
                        && (live(ns0, y as int) ==> kids(nsk, y as int) == kids(ns0, y as int)) by {
                        lemma_post_of_rank(ns0, rank, s, c, f, y);
                        if freed.contains(y) {
                            lemma_post_list_mem(ns0, children_ids@.take(k as int), f, y);
                            let j = choose|j: int| 0 <= j < children_ids@.take(k as int).len()
                                && #[trigger] post_of(ns0, children_ids@.take(k as int)[j], f).contains(y);
                            assert(children_ids@.take(k as int)[j] == children_ids@[j]);
                            assert(kids(ns0, id as int).no_duplicates());
                            assert(kids(ns0, id as int).contains(children_ids@[j]));
                            lemma_siblings_disjoint(ns0, rank, s, id, children_ids@[j], f, c, f, y);
                        }
                        if node_at(ns0, id as int).parent == Some(y) && live(ns0, y as int) {
                            if kids(ns0, y as int).contains(id) {
                                let i = choose|i: int| 0 <= i < kids(ns0, y as int).len() && kids(ns0, y as int)[i] == id;
                                assert(rank(kids(ns0, y as int)[i] as int) < rank(y as int));
                            }
                        }
                    }
                    assert(live(ns0, c as int)) by {
                        let j = k as int;
                        assert(kids(ns0, id as int)[j] == c);
                    }
                    lemma_post_of_root(ns0, c, f);
                    assert(post_of(ns0, c, f).contains(c));
                    assert(agree_on(ns0, nsk, post_of(ns0, c, f)));
                    lemma_frame_of(ns0, nsk, c, f);
                    lemma_post_of_fuel(nsk, rank, s, c, (rank(c as int) + 1) as nat, f);
                }
            }
            self.destroy_rec(c, Ghost(rank), Ghost(s));
            proof {
                let nsk1 = self.nodes@;
                let frk1 = self.free_indices@;
                // General bookkeeping.
                assert(frk1.subrange(0, fr0.len() as int) =~= frk.subrange(0, fr0.len() as int));
                assert forall|y: int| #![trigger nsk1[y]] 0 <= y < ns0.len() && nsk1[y] is Some implies {
                    &&& ns0[y] is Some
                    &&& same_but_children(node_at(nsk1, y), node_at(ns0, y))
                    &&& forall|cc: NodeId| kids(nsk1, y).contains(cc) ==> kids(ns0, y).contains(cc)
                } by {
                    assert(nsk[y] is Some);
                }
                // What is gone so far took its children along, and the lists of
                // what stays lost only what is gone.
                assert forall|y: int| #![trigger nsk1[y]] live(ns0, y) && nsk1[y] is None implies s.contains(y as NodeId)
                    && post_of(ns0, id, f + 1).contains(y as NodeId) && frk1.subrange(fr0.len() as int, frk1.len() as int).contains(
                    y as NodeId,
                ) by {
                    let tail1 = frk1.subrange(fr0.len() as int, frk1.len() as int);
                    if nsk[y] is Some {
                        assert(live(nsk, y));
                        // Freed by this child: below it, and appended now.
                        assert(post_of(nsk, c, rank(c as int) + 1).contains(y as NodeId));
                        assert forall|z: int| #![trigger nsk[z]] live(nsk, z) implies live(ns0, z) by {}
                        lemma_post_of_mono(ns0, nsk, c, (rank(c as int) + 1) as nat, y as NodeId);
                        lemma_post_of_fuel(ns0, rank, s, c, (rank(c as int) + 1) as nat, f);
                        lemma_post_of_child(ns0, id, k as int, (f + 1) as nat, y as NodeId);
                        let newk = frk1.subrange(frk.len() as int, frk1.len() as int);
                        let q = choose|q: int| 0 <= q < newk.len() && newk[q] == y as NodeId;
                        assert(tail1[q + frk.len() - fr0.len()] == newk[q]);
                    } else {
                        let tail0 = frk.subrange(fr0.len() as int, frk.len() as int);
                        assert(tail0.contains(y as NodeId));
                        let q = choose|q: int| 0 <= q < tail0.len() && tail0[q] == y as NodeId;
                        assert(frk1[q + fr0.len()] == frk1.subrange(0, frk.len() as int)[q + fr0.len()]);
                        assert(tail1[q] == tail0[q]);
                    }
                }
                assert forall|z: int, j: int| #![trigger kids(ns0, z)[j], live(nsk1, z)]
                    live(ns0, z) && s.contains(z as NodeId) && !live(nsk1, z) && 0 <= j < kids(ns0, z).len() implies !live(
                        nsk1,
                        kids(ns0, z)[j] as int,
                    ) by {
                    let w = kids(ns0, z)[j];
                    assert(kids(ns0, z).contains(w));
                    if live(nsk, z) {
                        assert(nsk1[z] is None);
                        assert(rank(z) <= rank(c as int));
                        if w == id {
                            assert(rank(kids(ns0, z)[j] as int) < rank(z));
                        }
                        if kids(nsk, z).contains(w) {
                            let j2 = choose|j2: int| 0 <= j2 < kids(nsk, z).len() && kids(nsk, z)[j2] == w;
                            assert(!live(nsk1, kids(nsk, z)[j2] as int));
                        } else {
                            assert(!live(nsk, w as int));
                            if live(nsk1, w as int) {
                                assert(nsk[w as int] is Some);
                            }
                        }
                    } else {
                        assert(!live(nsk, kids(ns0, z)[j] as int));
                        if live(nsk1, w as int) {
                            assert(nsk[w as int] is Some);
                        }
                    }
                }
                assert forall|z: int, w: NodeId| #![trigger kids(ns0, z).contains(w), live(nsk1, z)]
                    live(nsk1, z) && kids(ns0, z).contains(w) implies kids(nsk1, z).contains(w) || !live(nsk1, w as int) || w == id by {
                    assert(nsk[z] is Some);
                    assert(live(nsk, z));
                    if kids(nsk, z).contains(w) {
                        assert(kids(nsk1, z).contains(w) || !live(nsk1, w as int));
                    } else if !live(nsk, w as int) {
                        if live(nsk1, w as int) {
                            assert(nsk[w as int] is Some);
                        }
                    }
                }
                assert forall|j: int| 0 <= j < k + 1 implies !live(nsk1, #[trigger] children_ids@[j] as int) by {
                    let w = children_ids@[j];
                    if j < k {
                        assert(!live(nsk, w as int));
                    } else {
                        assert(w == c);
                    }
                    if live(nsk1, w as int) {
                        assert(nsk[w as int] is Some);
                    }
                }
                // What this child emptied and freed ranks below `id`.
                let ck = rank(c as int);
                assert(ck < rank(id as int));
                assert forall|y: int| #![trigger nsk1[y]] live(ns0, y) && nsk1[y] is None implies rank(y) < rank(id as int) by {
                    if nsk[y] is Some {
                        assert(live(nsk, y));
                    }
                }
                assert(live(nsk1, id as int)) by {
                    if nsk1[id as int] is None {
                        assert(live(nsk, id as int));
                    }
                }
                let newk = frk1.subrange(frk.len() as int, frk1.len() as int);
                assert forall|q: int| #![trigger frk1[q]] fr0.len() <= q < frk1.len() implies live(ns0, frk1[q] as int)
                    && nsk1[frk1[q] as int] is None by {
                    if q < frk.len() {
                        assert(frk1[q] == frk.subrange(0, frk.len() as int)[q]);
                        assert(frk[q] == frk1[q]);
                        assert(nsk[frk[q] as int] is None);
                        if nsk1[frk[q] as int] is Some {
                            assert(nsk[frk[q] as int] is Some);
                        }
                    } else {
                        assert(live(nsk, frk1[q] as int));
                        assert(nsk[frk1[q] as int] is Some);
                    }
                }
                assert(frk1.subrange(fr0.len() as int, frk1.len() as int).no_duplicates()) by {
                    let all = frk1.subrange(fr0.len() as int, frk1.len() as int);
                    let old_part = frk.subrange(fr0.len() as int, frk.len() as int);
                    assert forall|a: int, b: int| 0 <= a < all.len() && 0 <= b < all.len() && a != b implies all[a] != all[b] by {
                        let qa = a + fr0.len();
                        let qb = b + fr0.len();
                        assert(all[a] == frk1[qa] && all[b] == frk1[qb]);
                        if qa < frk.len() && qb < frk.len() {
                            assert(frk1[qa] == frk.subrange(0, frk.len() as int)[qa]);
                            assert(frk1[qb] == frk.subrange(0, frk.len() as int)[qb]);
                            assert(old_part[a] == frk[qa] && old_part[b] == frk[qb]);
                        } else if qa >= frk.len() && qb >= frk.len() {
                            assert(newk[qa - frk.len()] == frk1[qa] && newk[qb - frk.len()] == frk1[qb]);
                        } else if qa < frk.len() {
                            assert(frk1[qa] == frk.subrange(0, frk.len() as int)[qa]);
                            assert(nsk[frk[qa] as int] is None);
                            assert(live(nsk, frk1[qb] as int));
                        } else {
                            assert(frk1[qb] == frk.subrange(0, frk.len() as int)[qb]);
                            assert(nsk[frk[qb] as int] is None);
                            assert(live(nsk, frk1[qa] as int));
                        }
                    }
                }
                lemma_lists_after_child(ns0, nsk, nsk1, id);
                if tidy {
                    let pc = post_of(ns0, c, f);
                    let freed1 = post_list(ns0, children_ids@.take(k + 1), f);
                    lemma_post_list_take(ns0, children_ids@, k as int, f);
                    assert(frk1 == fr0 + freed1) by {
                        assert((fr0 + freed) + pc =~= fr0 + (freed + pc));
                    }
                    assert(node_at(nsk, c as int).parent == Some(id)) by {
                        let j = k as int;
                        assert(kids(ns0, id as int)[j] == c);
                        assert(node_at(ns0, kids(ns0, id as int)[j] as int).parent == Some(id));
                    }
                    assert(!pc.contains(id)) by {
                        if pc.contains(id) {
                            lemma_post_of_rank(ns0, rank, s, c, f, id);
                        }
                    }
                    assert(kids(nsk1, id as int) == children_ids@.subrange(k + 1, n as int)) by {
                        lemma_remove_first_head(children_ids@.subrange(k as int, n as int), c);
                        assert(children_ids@.subrange(k as int, n as int).subrange(1, (n - k) as int)
                            =~= children_ids@.subrange(k + 1, n as int));
                    }
                    assert(nsk1[id as int] is Some);
                    assert forall|y: int| #![trigger nsk1[y]] 0 <= y < ns0.len() && y != id implies {
                        if freed1.contains(y as NodeId) {
                            nsk1[y] is None
                        } else if node_at(ns0, id as int).parent == Some(y as NodeId) && live(ns0, y) {
                            &&& nsk1[y] is Some
                            &&& same_but_children(node_at(nsk1, y), node_at(ns0, y))
                            &&& kids(nsk1, y) == remove_first(kids(ns0, y), id)
                        } else {
                            nsk1[y] == ns0[y]
                        }
                    } by {
                        lemma_concat_contains(freed, pc, y as NodeId);
                    }
                }
            }
            k += 1;
        }
        proof {
            assert(children_ids@.take(n as int) =~= children_ids@);
        }
        let ghost nsn = self.nodes@;
        let ghost frn = self.free_indices@;
        self.nodes.set(id, None);
        self.free_indices.push(id);
        proof {
            let nsf = self.nodes@;
            let frf = self.free_indices@;
            assert(frf.subrange(0, fr0.len() as int) =~= fr0);
            assert(ranked_on(nsf, rank, s)) by {
                assert forall|x: int, j: int| #![trigger kids(nsf, x)[j], live(nsf, x)]
                    live(nsf, x) && s.contains(x as NodeId) && 0 <= j < kids(nsf, x).len() implies s.contains(kids(nsf, x)[j])
                    && rank(kids(nsf, x)[j] as int) < rank(x) by {
                    assert(nsf[x] == nsn[x]);
                    assert(live(nsn, x));
                    assert(rank(kids(nsn, x)[j] as int) < rank(x));
                }
            }
            // What is gone took its children along; lists lost only what is gone.
            assert forall|y: int| #![trigger nsf[y]] live(ns0, y) && nsf[y] is None implies s.contains(y as NodeId) && post_of(
                ns0,
                id,
                (f + 1) as nat,
            ).contains(y as NodeId) && frf.subrange(fr0.len() as int, frf.len() as int).contains(y as NodeId) by {
                let tailf = frf.subrange(fr0.len() as int, frf.len() as int);
                if y != id {
                    assert(nsn[y] is None);
                    let tailn = frn.subrange(fr0.len() as int, frn.len() as int);
                    let q = choose|q: int| 0 <= q < tailn.len() && tailn[q] == y as NodeId;
                    assert(tailf[q] == tailn[q]);
                } else {
                    lemma_post_of_root(ns0, id, (f + 1) as nat);
                    assert(tailf[tailf.len() - 1] == id);
                }
            }
            assert forall|z: int, j: int| #![trigger kids(ns0, z)[j], live(nsf, z)]
                live(ns0, z) && s.contains(z as NodeId) && !live(nsf, z) && 0 <= j < kids(ns0, z).len() implies !live(
                    nsf,
                    kids(ns0, z)[j] as int,
                ) by {
                let w = kids(ns0, z)[j];
                if z == id {
                    assert(children_ids@[j] == w);
                    assert(!live(nsn, children_ids@[j] as int));
                } else {
                    assert(!live(nsn, z));
                }
                assert(!live(nsn, w as int) || w == id);
            }
            assert forall|z: int, w: NodeId| #![trigger kids(ns0, z).contains(w), live(nsf, z)]
                live(nsf, z) && kids(ns0, z).contains(w) implies kids(nsf, z).contains(w) || !live(nsf, w as int) by {
                assert(z != id);
                assert(nsf[z] == nsn[z]);
                assert(live(nsn, z));
            }
            assert forall|z: int| #![trigger kids(nsf, z)] live(nsf, z) implies kids(nsf, z) == drop_firsts(
                kids(ns0, z),
                gone_children(ns0, nsf, z),
            ) by {
                assert(z != id);
                assert(nsf[z] == nsn[z]);
                assert(live(nsn, z));
                assert(kids(nsn, z) == drop_firsts(kids(ns0, z), gone_children(ns0, nsn, z).union(child_of(ns0, id, z))));
                assert(gone_children(ns0, nsn, z).union(child_of(ns0, id, z)) =~= gone_children(ns0, nsf, z)) by {
                    assert forall|x: NodeId| #[trigger] gone_children(ns0, nsf, z).contains(x) == gone_children(ns0, nsn, z).union(
                        child_of(ns0, id, z),
                    ).contains(x) by {
                        if x != id {
                            assert(nsf[x as int] == nsn[x as int] || x as int >= nsf.len());
                        }
                    }
                }
            }
            // What was emptied and freed.
            assert forall|y: int| #![trigger nsf[y]] live(ns0, y) && nsf[y] is None implies rank(y) <= rank(id as int) by {
                if y != id {
                    assert(nsn[y] is None);
                }
            }
            assert(frf == frn.push(id));
            assert forall|q: int| #![trigger frf[q]] fr0.len() <= q < frf.len() implies live(ns0, frf[q] as int)
                && nsf[frf[q] as int] is None by {
                if q < frn.len() {
                    assert(frf[q] == frn[q]);
                    assert(nsn[frn[q] as int] is None);
                }
            }
            assert(frf.subrange(fr0.len() as int, frf.len() as int).no_duplicates()) by {
                let all = frf.subrange(fr0.len() as int, frf.len() as int);
                let before = frn.subrange(fr0.len() as int, frn.len() as int);
                assert forall|a: int, b: int| 0 <= a < all.len() && 0 <= b < all.len() && a != b implies all[a] != all[b] by {
                    let qa = a + fr0.len();
                    let qb = b + fr0.len();
                    if qa < frn.len() && qb < frn.len() {
                        assert(all[a] == before[a] && all[b] == before[b]);
                        assert(before.no_duplicates());
                    } else if qa < frn.len() {
                        assert(all[b] == id);
                        assert(all[a] == frn[qa]);
                        assert(nsn[frn[qa] as int] is None);
                    } else {
                        assert(all[a] == id);
                        assert(all[b] == frn[qb]);
                        assert(nsn[frn[qb] as int] is None);
                    }
                }
            }
            if tidy {
                let freed = post_list(ns0, children_ids@, f);
                let pall = post_of(ns0, id, (f + 1) as nat);
                assert(pall == freed + seq![id]);
                assert(frf =~= fr0 + pall);
                assert forall|y: int| #![trigger nsf[y]] 0 <= y < ns0.len() implies {
                    if pall.contains(y as NodeId) {
                        nsf[y] is None
                    } else if live(ns0, id as int) && node_at(ns0, id as int).parent == Some(y as NodeId) && live(ns0, y) {
                        &&& nsf[y] is Some
                        &&& same_but_children(node_at(nsf, y), node_at(ns0, y))
                        &&& kids(nsf, y) == remove_first(kids(ns0, y), id)
                    } else {
                        nsf[y] == ns0[y]
                    }
                } by {
                    lemma_concat_contains(freed, seq![id], y as NodeId);
                    if y == id {
                        assert(seq![id][0] == id);
                    } else {
                        assert(!seq![id].contains(y as NodeId));
                    }
                }
                assert(child_links_ok(nsf)) by {
                    assert forall|x: int, j: int| #![trigger kids(nsf, x)[j], live(nsf, x)]
                        live(nsf, x) && 0 <= j < kids(nsf, x).len() implies {
                            &&& live(nsf, kids(nsf, x)[j] as int)
                            &&& node_at(nsf, kids(nsf, x)[j] as int).parent == Some(x as NodeId)
                        } by {
                        let cc = kids(nsf, x)[j];
                        assert(x != id);
                        assert(nsf[x] == nsn[x]);
                        assert(live(nsn, x));
                        assert(live(nsn, cc as int));
                        assert(node_at(nsn, cc as int).parent == Some(x as NodeId));
                        if cc == id {
                            assert(node_at(ns0, id as int).parent == Some(x as NodeId));
                            lemma_concat_contains(freed, seq![id], x as NodeId);
                            assert(live(ns0, x));
                            lemma_remove_first_nodup(kids(ns0, x), id);
                            assert(kids(nsf, x).contains(id));
                        }
                    }
                    assert forall|x: int| #![trigger live(nsf, x)] live(nsf, x) implies kids(nsf, x).no_duplicates() by {
                        assert(nsf[x] == nsn[x]);
                        assert(live(nsn, x));
                    }
                }
            }
        }
    }

    /// Destroys the node `id` and everything below it, freeing their slots for
    /// reuse: the node leaves its parent's children, and the freed ids are
    /// appended to the free list in post-order (children first, in the order
    /// of the children list), so that `id` itself is reused first. Only the
    /// links below `id` need be free of cycles.
    pub fn destroy_node(&mut self, id: NodeId)
        requires
            acyclic_from(old(self).nodes@, seq![id], false),
        ensures
            destroy_post(*old(self), *final(self), id),
    {
        let ghost ns = self.nodes@;
        // The arena's length fits in a `usize`.
        let len: usize = self.nodes.len();
        assert(ns.len() == len);
        let ghost (rank, s) = if acyclic(ns) {
            (choose|rank: spec_fn(int) -> nat| ranked(ns, rank), Set::<NodeId>::full())
        } else {
            choose|rank: spec_fn(int) -> nat, s: Set<NodeId>|
                ranked_links_on(ns, rank, s, false) && forall|i: int| 0 <= i < seq![id].len() ==> s.contains(#[trigger] seq![id][i])
        };
        proof {
            if acyclic(ns) {
                lemma_ranked_full(ns, rank);
            } else {
                assert(seq![id][0] == id);
                lemma_child_links_ranked_on(ns, rank, s);
            }
        }
        self.destroy_rec(id, Ghost(rank), Ghost(s));
        proof {
            if acyclic(ns) {
                lemma_ranked_full(self.nodes@, rank);
            }
            lemma_subtree_fuel(ns, rank, s, id, rank(id as int) + 1);
            if live(ns, id as int) {
                assert forall|y: NodeId| #[trigger] subtree(ns, id).contains(y) implies !live(self.nodes@, y as int)
                    && self.free_indices@.subrange(old(self).free_indices@.len() as int, self.free_indices@.len() as int).contains(y) by {
                    lemma_gone_below(ns, self.nodes@, rank, s, id, (rank(id as int) + 1) as nat, y);
                    lemma_post_of_rank(ns, rank, s, id, (rank(id as int) + 1) as nat, y);
                    assert(self.nodes@[y as int] is None);
                }
            }
            let ns2 = self.nodes@;
            assert forall|z: int| #![trigger kids(ns2, z)] live(ns2, z) implies kids(ns2, z) == drop_firsts(
                kids(ns, z),
                freed_children(ns, id, z),
            ) by {
                assert(gone_children(ns, ns2, z) =~= freed_children(ns, id, z)) by {
                    assert forall|x: NodeId| #[trigger] gone_children(ns, ns2, z).contains(x) == freed_children(ns, id, z).contains(x) by {
                        if subtree(ns, id).contains(x) {
                            lemma_post_of_rank(ns, rank, s, id, (rank(id as int) + 1) as nat, x);
                            assert(!live(ns2, x as int));
                        }
                        if live(ns, x as int) && !live(ns2, x as int) {
                            assert(ns2[x as int] is None);
                        }
                    }
                }
            }
            if free_ok(ns, old(self).free_indices@) {
                lemma_freed_keeps_free_ok(ns, old(self).free_indices@, self.nodes@, self.free_indices@, id);
            }
        }
    }
}

} // verus!
