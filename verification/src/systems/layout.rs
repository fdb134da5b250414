//! Keeping the layout tree in step with the scene graph.
//!
//! Every node of the scene has a node in a `taffy` layout tree (created with
//! the scene node's id as its context); a node whose style changed gets its
//! new style; the layout node of a removed scene node is removed; and every
//! layout node gets the children of its scene node (then its mask node) as
//! layout children. Computing the layout itself, and reading its results,
//! deals in floating-point sizes and happens outside this module.

use crate::director::{links_ranked_on, successors};
use crate::scene::{kids, live, node_at, NodeId, SceneGraph, SceneNode};
use crate::scene_check::acyclic_from;
use std::collections::HashMap;
use taffy::{Style, TaffyError, TaffyTree};
use vstd::prelude::*;

verus! {

/// `taffy`'s layout tree, carried through without looking inside.
#[verifier::external_type_specification]
#[verifier::external_body]
#[verifier::reject_recursive_types(NodeContext)]
pub struct ExTaffyTree<NodeContext>(TaffyTree<NodeContext>);

/// A node's layout style (a `taffy::Style`), carried through without looking
/// inside. (`Style` is generic over a bound of `taffy`'s, which a declaration
/// of the type itself cannot name here, so the style travels in this box.)
#[verifier::external_body]
pub struct NodeStyle(pub Style);

/// `taffy`'s error type.
#[verifier::external_type_specification]
#[verifier::external_body]
pub struct ExTaffyError(TaffyError);

/// The layout tree of a scene: each node's context is the scene node it
/// stands for.
pub type LayoutTree = TaffyTree<NodeId>;

/// A layout node as the tree holds it: its children, its parent, and its
/// context (the scene node it stands for).
pub type LayoutEntry = (Seq<u64>, Option<u64>, Option<NodeId>);

/// The nodes of a layout tree, by id (the `u64` form of `taffy::NodeId`).
pub uninterp spec fn layout_nodes(t: TaffyTree<NodeId>) -> Map<u64, LayoutEntry>;

/// The style that each node of a layout tree holds, by id.
pub uninterp spec fn layout_styles(t: TaffyTree<NodeId>) -> Map<u64, NodeStyle>;

/// Children and parents agree: every child is a node whose parent is the
/// listing node, no list names a child twice, and every recorded parent is a
/// node that lists the child.
pub open spec fn links_agree(m: Map<u64, LayoutEntry>) -> bool {
    &&& forall|k: u64| #[trigger] m.contains_key(k) ==> m[k].0.no_duplicates()
    &&& forall|k: u64, i: int|
        #![trigger m[k].0[i]]
        m.contains_key(k) && 0 <= i < m[k].0.len() ==> m.contains_key(m[k].0[i]) && m[m[k].0[i]].1 == Some(k)
    &&& forall|k: u64|
        #[trigger] m.contains_key(k) && m[k].1 is Some ==> m.contains_key(m[k].1.unwrap()) && m[m[k].1.unwrap()].0.contains(k)
}

/// The ids other than `x`.
pub open spec fn other_than(x: u64) -> spec_fn(u64) -> bool {
    |c: u64| c != x
}

/// The ids not in `cs`.
pub open spec fn not_in(cs: Seq<u64>) -> spec_fn(u64) -> bool {
    |c: u64| !cs.contains(c)
}

/// The tree `m` after `set_children(p, cs)`: `p`'s children are `cs`, each of
/// them leaves its previous parent's list and records `p`; `p`'s former
/// children that are not in `cs` have no parent.
pub open spec fn children_set(m: Map<u64, LayoutEntry>, p: u64, cs: Seq<u64>) -> Map<u64, LayoutEntry> {
    Map::new(
        |k: u64| m.contains_key(k),
        |k: u64|
            (
                if k == p {
                    cs
                } else {
                    m[k].0.filter(not_in(cs))
                },
                if cs.contains(k) {
                    Some(p)
                } else if m[p].0.contains(k) {
                    None
                } else {
                    m[k].1
                },
                m[k].2,
            ),
    )
}

/// The tree `m` after `remove(x)`: `x` is gone, its parent no longer lists
/// it, and its children have no parent.
pub open spec fn node_removed(m: Map<u64, LayoutEntry>, x: u64) -> Map<u64, LayoutEntry> {
    Map::new(
        |k: u64| m.contains_key(k) && k != x,
        |k: u64|
            (
                if m[x].1 == Some(k) {
                    m[k].0.filter(other_than(x))
                } else {
                    m[k].0
                },
                if m[x].0.contains(k) {
                    None
                } else {
                    m[k].1
                },
                m[k].2,
            ),
    )
}

/// A tree without nodes.
pub open spec fn no_layout_nodes() -> Map<u64, LayoutEntry> {
    Map::empty()
}

/// A tree without styles.
pub open spec fn no_layout_styles() -> Map<u64, NodeStyle> {
    Map::empty()
}

/// `TaffyTree::new`: an empty tree.
#[verifier::external_body]
fn layout_tree_new() -> (tree: LayoutTree)
    ensures
        layout_nodes(tree) == no_layout_nodes(),
        layout_styles(tree) == no_layout_styles(),
{
    TaffyTree::new()
}

/// `TaffyTree::total_node_count`: the number of nodes of the tree.
#[verifier::external_body]
fn layout_node_count(t: &LayoutTree) -> (count: usize)
    ensures
        count == layout_nodes(*t).dom().len(),
{
    t.total_node_count()
}

/// `TaffyTree::new_leaf_with_context`: a new node, unattached, without
/// children, holding `context` and `style`, with an id that names no node of
/// the tree. It always succeeds; the slot map under it panics only when it
/// already holds `u32::MAX - 1` nodes.
#[verifier::external_body]
fn layout_new_leaf(t: &mut LayoutTree, style: NodeStyle, context: NodeId) -> (r: Result<u64, TaffyError>)
    requires
        layout_nodes(*old(t)).dom().finite(),
        layout_nodes(*old(t)).dom().len() < u32::MAX - 1,
    ensures
        r is Ok,
        !layout_nodes(*old(t)).contains_key(r.unwrap()),
        layout_nodes(*final(t)) == layout_nodes(*old(t)).insert(
            r.unwrap(),
            (Seq::<u64>::empty(), None::<u64>, Some(context)),
        ),
        layout_styles(*final(t)) == layout_styles(*old(t)).insert(r.unwrap(), style),
{
    match t.new_leaf_with_context(style.0, context) {
        Ok(id) => Ok(u64::from(id)),
        Err(e) => Err(e),
    }
}

/// `TaffyTree::set_style`: makes `style` the style of a node of the tree
/// (and marks it and its ancestors for layout); children, parents, contexts
/// and the other nodes' styles stay. It always succeeds; it panics on an id that names no node.
#[verifier::external_body]
fn layout_set_style(t: &mut LayoutTree, id: u64, style: NodeStyle) -> (r: Result<(), TaffyError>)
    requires
        layout_nodes(*old(t)).contains_key(id),
        links_agree(layout_nodes(*old(t))),
    ensures
        r is Ok,
        layout_nodes(*final(t)) == layout_nodes(*old(t)),
        layout_styles(*final(t)) == layout_styles(*old(t)).insert(id, style),
{
    t.set_style(taffy::NodeId::from(id), style.0)
}

/// `TaffyTree::set_children`: makes `children` the children of `parent`.
/// It always succeeds; it panics on ids that name no node, and on a list
/// that names a child twice.
#[verifier::external_body]
fn layout_set_children(t: &mut LayoutTree, parent: u64, children: &Vec<u64>) -> (r: Result<(), TaffyError>)
    requires
        links_agree(layout_nodes(*old(t))),
        layout_nodes(*old(t)).contains_key(parent),
        forall|i: int| 0 <= i < children@.len() ==> layout_nodes(*old(t)).contains_key(#[trigger] children@[i]),
        children@.no_duplicates(),
    ensures
        r is Ok,
        layout_nodes(*final(t)) == children_set(layout_nodes(*old(t)), parent, children@),
        layout_styles(*final(t)) == layout_styles(*old(t)),
{
    let ids: Vec<taffy::NodeId> = children.iter().map(|c| taffy::NodeId::from(*c)).collect();
    t.set_children(taffy::NodeId::from(parent), &ids)
}

/// `TaffyTree::remove`: removes a node of the tree. It always succeeds; it
/// panics on an id that names no node.
#[verifier::external_body]
fn layout_remove(t: &mut LayoutTree, id: u64) -> (r: Result<u64, TaffyError>)
    requires
        links_agree(layout_nodes(*old(t))),
        layout_nodes(*old(t)).contains_key(id),
    ensures
        r is Ok,
        r.unwrap() == id,
        layout_nodes(*final(t)) == node_removed(layout_nodes(*old(t)), id),
        layout_styles(*final(t)) == layout_styles(*old(t)).remove(id),
{
    match t.remove(taffy::NodeId::from(id)) {
        Ok(n) => Ok(u64::from(n)),
        Err(e) => Err(e),
    }
}

/// What the layout of a scene element is computed from.
pub trait LayoutStyle {
    /// The element's layout style.
    fn layout_style(&self) -> NodeStyle;
}


/// The layout tree of a scene, and which layout node stands for which scene
/// node.
pub struct LayoutEngine {
    /// The layout tree; each node's context is the scene node it stands for.
    pub taffy: TaffyTree<NodeId>,
    /// The layout node of each scene node that has one.
    pub node_map: HashMap<NodeId, u64>,
}

/// A scene node after its layout node is in step: its style no longer needs
/// synchronising; everything else is as it was.
pub open spec fn synced_node<E>(before: SceneNode<E>, after: SceneNode<E>) -> bool {
    &&& after.element == before.element
    &&& after.children == before.children
    &&& after.parent == before.parent
    &&& after.mask_node == before.mask_node
    &&& after.z_index == before.z_index
    &&& !after.dirty_style
}

/// The style that the layout node of a scene node holds once `e` is in step
/// with it.
pub open spec fn style_of(e: LayoutEngine, k: int) -> NodeStyle {
    layout_styles(e.taffy)[e.node_map@[k as NodeId]]
}

/// Whether the layout node of the live scene node `k` of `s0` holds the right
/// style after a sync from `e0` to `e1`: where the node's style changed or it had
/// no layout node yet, the style that its element's `layout_style` returned;
/// otherwise the style it held.
pub open spec fn style_synced<E: LayoutStyle>(e0: LayoutEngine, e1: LayoutEngine, s0: Seq<Option<SceneNode<E>>>, k: int) -> bool {
    if node_at(s0, k).dirty_style || !e0.node_map@.contains_key(k as NodeId) {
        call_ensures(E::layout_style, (&node_at(s0, k).element,), style_of(e1, k))
    } else {
        style_of(e1, k) == style_of(e0, k)
    }
}

/// The element's layout style, as a call of `layout_style` through its
/// function value (so that what it returned can be named).
fn style_of_element<E: LayoutStyle>(e: &E) -> (r: NodeStyle)
    ensures
        call_ensures(E::layout_style, (e,), r),
{
    let f = E::layout_style;
    f(e)
}

/// The layout ids of the scene nodes `cs` that have layout nodes, in order.
pub open spec fn mapped_ids(nm: Map<NodeId, u64>, cs: Seq<NodeId>) -> Seq<u64>
    decreases cs.len(),
{
    if cs.len() == 0 {
        Seq::empty()
    } else if nm.contains_key(cs.last()) {
        mapped_ids(nm, cs.drop_last()).push(nm[cs.last()])
    } else {
        mapped_ids(nm, cs.drop_last())
    }
}

/// The layout children that the scene node `x` asks for: its children that
/// have layout nodes, then its mask node when it has one.
pub open spec fn wanted_children<E>(ns: Seq<Option<SceneNode<E>>>, nm: Map<NodeId, u64>, x: int) -> Seq<u64> {
    mapped_ids(nm, kids(ns, x)) + match node_at(ns, x).mask_node {
        Some(m) => if nm.contains_key(m) {
            seq![nm[m]]
        } else {
            Seq::<u64>::empty()
        },
        None => Seq::<u64>::empty(),
    }
}

/// The layout children of `x` once the nodes after `x` (up to `j`) took
/// theirs: each layout node is the child of the last scene node that asks
/// for it.
pub open spec fn kept_children<E>(ns: Seq<Option<SceneNode<E>>>, nm: Map<NodeId, u64>, x: int, j: int) -> Seq<u64> {
    wanted_children(ns, nm, x).filter(not_wanted_between(ns, nm, x, j))
}

/// The layout ids that no live scene node strictly between `x` and `j` asks
/// for.
pub open spec fn not_wanted_between<E>(ns: Seq<Option<SceneNode<E>>>, nm: Map<NodeId, u64>, x: int, j: int) -> spec_fn(
    u64,
) -> bool {
    |c: u64| forall|y: int| x < y < j && live(ns, y) ==> !#[trigger] wanted_children(ns, nm, y).contains(c)
}

impl LayoutEngine {
    /// The layout nodes are exactly the mapped ones, each holding the scene
    /// node it stands for, and the tree's links agree.
    pub open spec fn wf(self) -> bool {
        let m = layout_nodes(self.taffy);
        let nm = self.node_map@;
        &&& m.dom().finite()
        &&& links_agree(m)
        &&& layout_styles(self.taffy).dom() == m.dom()
        &&& forall|k: NodeId| #[trigger] nm.contains_key(k) ==> m.contains_key(nm[k]) && m[nm[k]].2 == Some(k)
        &&& forall|t: u64|
            #[trigger] m.contains_key(t) ==> m[t].2 is Some && nm.contains_key(m[t].2.unwrap()) && nm[m[t].2.unwrap()] == t
    }

    /// An engine with no layout nodes.
    pub fn new() -> (e: Self)
        ensures
            e.wf(),
            e.node_map@ == Map::<NodeId, u64>::empty(),
            layout_nodes(e.taffy) == no_layout_nodes(),
    {
        LayoutEngine { taffy: layout_tree_new(), node_map: HashMap::new() }
    }
}

/// `links_agree` survives adding a fresh node with no links.
proof fn lemma_agree_insert(m: Map<u64, LayoutEntry>, t: u64, ctx: NodeId)
    requires
        links_agree(m),
        !m.contains_key(t),
    ensures
        links_agree(m.insert(t, (Seq::<u64>::empty(), None::<u64>, Some(ctx)))),
{
    let m2 = m.insert(t, (Seq::<u64>::empty(), None::<u64>, Some(ctx)));
    assert forall|k: u64, i: int|
        #![trigger m2[k].0[i]]
        m2.contains_key(k) && 0 <= i < m2[k].0.len() implies m2.contains_key(m2[k].0[i]) && m2[m2[k].0[i]].1 == Some(k) by {
        assert(k != t);
        assert(m.contains_key(m[k].0[i]));
    }
    assert forall|k: u64|
        #[trigger] m2.contains_key(k) && m2[k].1 is Some implies m2.contains_key(m2[k].1.unwrap()) && m2[m2[k].1.unwrap()].0.contains(k) by {
        assert(k != t);
    }
}

/// `links_agree` survives removing a node.
proof fn lemma_agree_remove(m: Map<u64, LayoutEntry>, x: u64)
    requires
        links_agree(m),
        m.contains_key(x),
    ensures
        links_agree(node_removed(m, x)),
        node_removed(m, x).dom() == m.dom().remove(x),
{
    let m2 = node_removed(m, x);
    assert(m2.dom() =~= m.dom().remove(x));
    assert forall|k: u64| #[trigger] m2.contains_key(k) implies m2[k].0.no_duplicates() by {
        if m[x].1 == Some(k) {
            lemma_filter_nodup(m[k].0, other_than(x));
        }
    }
    assert forall|k: u64, i: int|
        #![trigger m2[k].0[i]]
        m2.contains_key(k) && 0 <= i < m2[k].0.len() implies m2.contains_key(m2[k].0[i]) && m2[m2[k].0[i]].1 == Some(k) by {
        let c = m2[k].0[i];
        if m[x].1 == Some(k) {
            lemma_filter_mem(m[k].0, other_than(x), c);
        } else {
            assert(m[k].0.contains(c));
        }
        let j = choose|j: int| 0 <= j < m[k].0.len() && m[k].0[j] == c;
        assert(m.contains_key(m[k].0[j]) && m[m[k].0[j]].1 == Some(k));
        assert(c != x);
        if m[x].0.contains(c) {
            let jj = choose|jj: int| 0 <= jj < m[x].0.len() && m[x].0[jj] == c;
            assert(m[m[x].0[jj]].1 == Some(x));
        }
    }
    assert forall|k: u64|
        #[trigger] m2.contains_key(k) && m2[k].1 is Some implies m2.contains_key(m2[k].1.unwrap()) && m2[m2[k].1.unwrap()].0.contains(k) by {
        let p = m[k].1.unwrap();
        assert(m.contains_key(p) && m[p].0.contains(k));
        if p == x {
            assert(m[x].0.contains(k));
        }
        if m[x].1 == Some(p) {
            assert(k != x);
            lemma_filter_keeps(m[p].0, other_than(x), k);
        }
    }
}

/// Filtering keeps an element that passes.
proof fn lemma_filter_keeps<A>(s: Seq<A>, p: spec_fn(A) -> bool, a: A)
    requires
        s.contains(a),
        p(a),
    ensures
        s.filter(p).contains(a),
{
    let i = choose|i: int| 0 <= i < s.len() && s[i] == a;
    s.lemma_filter_contains(p, i);
}

/// What a filter holds came from the sequence and passes.
proof fn lemma_filter_mem<A>(s: Seq<A>, p: spec_fn(A) -> bool, a: A)
    requires
        s.filter(p).contains(a),
    ensures
        s.contains(a),
        p(a),
    decreases s.len(),
{
    reveal(Seq::filter);
    if s.len() > 0 {
        let d = s.drop_last().filter(p);
        if p(s.last()) && a == s.last() {
            assert(s[s.len() - 1] == a);
        } else {
            if p(s.last()) {
                let i = choose|i: int| 0 <= i < s.filter(p).len() && s.filter(p)[i] == a;
                assert(i < d.len());
                assert(d[i] == a);
            }
            lemma_filter_mem(s.drop_last(), p, a);
            let j = choose|j: int| 0 <= j < s.drop_last().len() && s.drop_last()[j] == a;
            assert(s[j] == a);
        }
    }
}

/// Filtering keeps a list free of repeats.
proof fn lemma_filter_nodup<A>(s: Seq<A>, p: spec_fn(A) -> bool)
    requires
        s.no_duplicates(),
    ensures
        s.filter(p).no_duplicates(),
    decreases s.len(),
{
    reveal(Seq::filter);
    if s.len() > 0 {
        let d = s.drop_last();
        assert(d.no_duplicates()) by {
            assert forall|a: int, b: int| 0 <= a < d.len() && 0 <= b < d.len() && a != b implies d[a] != d[b] by {
                assert(d[a] == s[a] && d[b] == s[b]);
            }
        }
        lemma_filter_nodup(d, p);
        if p(s.last()) {
            let f = d.filter(p);
            assert forall|a: int, b: int| 0 <= a < f.len() + 1 && 0 <= b < f.len() + 1 && a != b implies f.push(
                s.last(),
            )[a] != f.push(s.last())[b] by {
                if a < f.len() && b < f.len() {
                } else if a < f.len() {
                    assert(f.contains(f[a]));
                    lemma_filter_mem(d, p, f[a]);
                    let j = choose|j: int| 0 <= j < d.len() && d[j] == f[a];
                    assert(s[j] == d[j]);
                    assert(s[s.len() - 1] == s.last());
                } else {
                    assert(f.contains(f[b]));
                    lemma_filter_mem(d, p, f[b]);
                    let j = choose|j: int| 0 <= j < d.len() && d[j] == f[b];
                    assert(s[j] == d[j]);
                    assert(s[s.len() - 1] == s.last());
                }
            }
        }
    }
}

impl LayoutEngine {
    /// Gives every scene node a layout node (creating one, with the node's
    /// style, where there is none), gives the layout nodes of nodes whose
    /// style changed the new style, and removes the layout nodes of removed
    /// scene nodes.
    fn sync_nodes<E: LayoutStyle>(&mut self, scene: &mut SceneGraph<E>)
        requires
            old(self).wf(),
            layout_nodes(old(self).taffy).dom().len() + old(scene).nodes@.len() < u32::MAX,
        ensures
            final(self).wf(),
            final(scene).free_indices@ == old(scene).free_indices@,
            final(scene).nodes@.len() == old(scene).nodes@.len(),
            forall|k: int|
                #![trigger final(scene).nodes@[k]]
                0 <= k < old(scene).nodes@.len() ==> {
                    &&& (final(scene).nodes@[k] is Some <==> old(scene).nodes@[k] is Some)
                    &&& old(scene).nodes@[k] is Some ==> synced_node(node_at(old(scene).nodes@, k), node_at(final(scene).nodes@, k))
                },
            forall|k: NodeId|
                #![trigger final(self).node_map@.contains_key(k)]
                (k < old(scene).nodes@.len() ==> (final(self).node_map@.contains_key(k) <==> live(old(scene).nodes@, k as int)))
                && (k >= old(scene).nodes@.len() ==> (final(self).node_map@.contains_key(k) <==> old(self).node_map@.contains_key(k)))
                && (old(self).node_map@.contains_key(k) && final(self).node_map@.contains_key(k) ==> final(self).node_map@[k] == old(self).node_map@[k]),
            forall|k: int|
                0 <= k < old(scene).nodes@.len() && live(old(scene).nodes@, k) ==> #[trigger] style_synced(*old(self), *final(self), old(scene).nodes@, k),
    {
        let n = scene.nodes.len();
        let ghost ns0 = scene.nodes@;
        let ghost nm0 = self.node_map@;
        let ghost m0 = layout_nodes(self.taffy);
        let mut i: usize = 0;
        while i < n
            invariant
                n == ns0.len(),
                i <= n,
                self.wf(),
                layout_nodes(self.taffy).dom().len() <= m0.dom().len() + i,
                m0.dom().len() + n < u32::MAX,
                scene.free_indices@ == old(scene).free_indices@,
                scene.nodes@.len() == n,
                ns0 == old(scene).nodes@,
                nm0 == old(self).node_map@,
                forall|k: int|
                    #![trigger scene.nodes@[k]]
                    0 <= k < n ==> {
                        &&& (scene.nodes@[k] is Some <==> ns0[k] is Some)
                        &&& k < i && ns0[k] is Some ==> synced_node(node_at(ns0, k), node_at(scene.nodes@, k))
                        &&& k >= i ==> scene.nodes@[k] == ns0[k]
                    },
                forall|k: NodeId|
                    #![trigger self.node_map@.contains_key(k)]
                    (k < i ==> (self.node_map@.contains_key(k) <==> live(ns0, k as int)))
                    && (k >= i ==> (self.node_map@.contains_key(k) <==> nm0.contains_key(k)))
                    && (nm0.contains_key(k) && self.node_map@.contains_key(k) ==> self.node_map@[k] == nm0[k]),
                forall|k: int|
                    0 <= k < i && live(ns0, k) ==> #[trigger] style_synced(*old(self), *self, ns0, k),
                forall|k: NodeId|
                    #![trigger nm0[k]]
                    k >= i && nm0.contains_key(k) ==> layout_styles(self.taffy)[nm0[k]] == layout_styles(old(self).taffy)[nm0[k]],
            decreases n - i,
        {
            let ghost m = layout_nodes(self.taffy);
            let ghost nm = self.node_map@;
            let ghost st = layout_styles(self.taffy);
            let ghost e_pre = *self;
            proof {
                assert forall|a: NodeId, b: NodeId| nm.contains_key(a) && nm.contains_key(b) && #[trigger] nm[a] == #[trigger] nm[b] implies a == b by {
                    assert(m[nm[a]].2 == Some(a));
                }
            }
            proof {
                assert(m.dom().finite());
            }
            match &mut scene.nodes[i] {
                Some(node) => {
                    let ghost el = node.element;
                    let ghost was_dirty = node.dirty_style;
                    proof {
                        assert(node_at(ns0, i as int).element == el && node_at(ns0, i as int).dirty_style == was_dirty);
                    }
                    let existing = self.node_map.get(&i);
                    let t = match existing {
                        Some(t) => {
                            proof {
                                assert(nm.contains_key(i as NodeId) && nm[i as NodeId] == *t);
                            }
                            *t
                        },
                        None => {
                            let style = style_of_element(&node.element);
                            let t = layout_new_leaf(&mut self.taffy, style, i).unwrap();
                            proof {
                                lemma_agree_insert(m, t, i);
                            }
                            self.node_map.insert(i, t);
                            proof {
                                let m2 = layout_nodes(self.taffy);
                                assert forall|t2: u64| #[trigger] m2.contains_key(t2) implies m2[t2].2 is Some
                                    && self.node_map@.contains_key(m2[t2].2.unwrap())
                                    && self.node_map@[m2[t2].2.unwrap()] == t2 by {
                                    if t2 != t {
                                        assert(m.contains_key(t2));
                                        assert(m2[t2].2.unwrap() != i) by {
                                            if m2[t2].2.unwrap() == i {
                                                assert(!nm.contains_key(i));
                                            }
                                        }
                                    }
                                }
                                assert forall|k: NodeId| #[trigger] self.node_map@.contains_key(k) implies m2.contains_key(
                                    self.node_map@[k],
                                ) && m2[self.node_map@[k]].2 == Some(k) by {
                                    if k != i {
                                        assert(nm.contains_key(k));
                                        assert(nm[k] != t);
                                    }
                                }
                            }
                            proof {
                                assert(!m.contains_key(t));
                                assert(call_ensures(E::layout_style, (&el,), layout_styles(self.taffy)[t]));
                            }
                            t
                        },
                    };
                    let ghost st1 = layout_styles(self.taffy);
                    proof {
                        if nm.contains_key(i as NodeId) {
                            assert(t == nm[i as NodeId]);
                            assert(st1 == st);
                        } else {
                            assert(!m.contains_key(t));
                            assert(call_ensures(E::layout_style, (&el,), st1[t]));
                        }
                    }
                    if node.dirty_style {
                        let style = style_of_element(&node.element);
                        layout_set_style(&mut self.taffy, t, style).unwrap();
                        node.dirty_style = false;
                    }
                    proof {
                        let m2 = layout_nodes(self.taffy);
                        let st2 = layout_styles(self.taffy);
                        assert(st2.dom() =~= m2.dom());
                        assert(self.node_map@.contains_key(i as NodeId) && self.node_map@[i as NodeId] == t);
                        if was_dirty {
                            assert(call_ensures(E::layout_style, (&el,), layout_styles(self.taffy)[t]));
                        } else {
                            assert(layout_styles(self.taffy) == st1);
                        }
                        assert(style_synced(*old(self), *self, ns0, i as int));
                        assert forall|k: int| 0 <= k < i + 1 && live(ns0, k) implies #[trigger] style_synced(*old(self), *self, ns0, k) by {
                            if k < i {
                                assert(style_synced(*old(self), e_pre, ns0, k));
                                assert(e_pre.node_map@.contains_key(k as NodeId));
                                assert(nm.contains_key(k as NodeId));
                                assert(m.contains_key(nm[k as NodeId]));
                                assert(self.node_map@[k as NodeId] == nm[k as NodeId]);
                                if nm.contains_key(i as NodeId) {
                                    assert(nm[k as NodeId] != nm[i as NodeId]);
                                }
                                assert(nm[k as NodeId] != t);
                            }
                        }
                        assert forall|k: NodeId| #![trigger nm0[k]] k >= i + 1 && nm0.contains_key(k) implies layout_styles(
                            self.taffy,
                        )[nm0[k]] == layout_styles(old(self).taffy)[nm0[k]] by {
                            assert(e_pre.node_map@.contains_key(k));
                            assert(nm.contains_key(k) && nm[k] == nm0[k]);
                            assert(m.contains_key(nm[k]));
                            if nm.contains_key(i as NodeId) {
                                assert(nm[k] != nm[i as NodeId]);
                            }
                            assert(nm0[k] != t);
                        }
                    }
                },
                None => {
                    let removed = self.node_map.remove(&i);
                    match removed {
                        Some(t) => {
                            proof {
                                lemma_agree_remove(m, t);
                            }
                            let _ = layout_remove(&mut self.taffy, t);
                            proof {
                                let m2 = layout_nodes(self.taffy);
                                assert(m2.dom().len() == m.dom().len() - 1);
                                assert forall|t2: u64| #[trigger] m2.contains_key(t2) implies m2[t2].2 is Some
                                    && self.node_map@.contains_key(m2[t2].2.unwrap())
                                    && self.node_map@[m2[t2].2.unwrap()] == t2 by {
                                    assert(m.contains_key(t2));
                                    assert(m2[t2].2 == m[t2].2);
                                }
                                assert forall|k: NodeId| #[trigger] self.node_map@.contains_key(k) implies m2.contains_key(
                                    self.node_map@[k],
                                ) && m2[self.node_map@[k]].2 == Some(k) by {
                                    assert(nm.contains_key(k));
                                    assert(nm[k] != t);
                                }
                            }
                        },
                        None => {},
                    }
                    proof {
                        let m2 = layout_nodes(self.taffy);
                        let st2 = layout_styles(self.taffy);
                        assert(st2.dom() =~= m2.dom());
                        assert forall|k: int| 0 <= k < i + 1 && live(ns0, k) implies #[trigger] style_synced(*old(self), *self, ns0, k) by {
                            assert(k != i);
                            assert(style_synced(*old(self), e_pre, ns0, k));
                            assert(e_pre.node_map@.contains_key(k as NodeId));
                            assert(nm.contains_key(k as NodeId));
                            assert(self.node_map@[k as NodeId] == nm[k as NodeId]);
                            if nm.contains_key(i as NodeId) {
                                assert(nm[k as NodeId] != nm[i as NodeId]);
                            }
                        }
                        assert forall|k: NodeId| #![trigger nm0[k]] k >= i + 1 && nm0.contains_key(k) implies layout_styles(
                            self.taffy,
                        )[nm0[k]] == layout_styles(old(self).taffy)[nm0[k]] by {
                            assert(e_pre.node_map@.contains_key(k));
                            assert(nm.contains_key(k) && nm[k] == nm0[k]);
                            if nm.contains_key(i as NodeId) {
                                assert(nm[k] != nm[i as NodeId]);
                            }
                        }
                    }
                },
            }
            i += 1;
        }
    }
}

/// `links_agree` survives `set_children` on ids of the tree without repeats.
proof fn lemma_agree_children_set(m: Map<u64, LayoutEntry>, p: u64, cs: Seq<u64>)
    requires
        links_agree(m),
        m.contains_key(p),
        forall|i: int| 0 <= i < cs.len() ==> m.contains_key(#[trigger] cs[i]),
        cs.no_duplicates(),
    ensures
        links_agree(children_set(m, p, cs)),
        children_set(m, p, cs).dom() == m.dom(),
        forall|k: u64| #[trigger] m.contains_key(k) ==> children_set(m, p, cs)[k].2 == m[k].2,
{
    let m2 = children_set(m, p, cs);
    assert(m2.dom() =~= m.dom());
    assert forall|k: u64| #[trigger] m2.contains_key(k) implies m2[k].0.no_duplicates() by {
        if k != p {
            lemma_filter_nodup(m[k].0, not_in(cs));
        }
    }
    assert forall|k: u64, i: int|
        #![trigger m2[k].0[i]]
        m2.contains_key(k) && 0 <= i < m2[k].0.len() implies m2.contains_key(m2[k].0[i]) && m2[m2[k].0[i]].1 == Some(k) by {
        let c = m2[k].0[i];
        if k == p {
            assert(cs.contains(c));
        } else {
            assert(m2[k].0.contains(c));
            lemma_filter_mem(m[k].0, not_in(cs), c);
            let j = choose|j: int| 0 <= j < m[k].0.len() && m[k].0[j] == c;
            assert(m.contains_key(m[k].0[j]) && m[m[k].0[j]].1 == Some(k));
            if m[p].0.contains(c) {
                let jj = choose|jj: int| 0 <= jj < m[p].0.len() && m[p].0[jj] == c;
                assert(m[m[p].0[jj]].1 == Some(p));
            }
        }
    }
    assert forall|k: u64|
        #[trigger] m2.contains_key(k) && m2[k].1 is Some implies m2.contains_key(m2[k].1.unwrap()) && m2[m2[k].1.unwrap()].0.contains(k) by {
        if cs.contains(k) {
        } else if m[p].0.contains(k) {
        } else {
            let q = m[k].1.unwrap();
            assert(m.contains_key(q) && m[q].0.contains(k));
            assert(q != p);
            lemma_filter_keeps(m[q].0, not_in(cs), k);
        }
    }
}

/// Filtering twice is filtering by both.
proof fn lemma_filter_filter<A>(s: Seq<A>, p: spec_fn(A) -> bool, q: spec_fn(A) -> bool)
    ensures
        s.filter(p).filter(q) == s.filter(|a: A| p(a) && q(a)),
    decreases s.len(),
{
    reveal(Seq::filter);
    if s.len() > 0 {
        lemma_filter_filter(s.drop_last(), p, q);
        if p(s.last()) {
            assert(s.filter(p).drop_last() =~= s.drop_last().filter(p));
        }
    }
}

/// Filtering by what every element passes changes nothing.
proof fn lemma_filter_all<A>(s: Seq<A>, p: spec_fn(A) -> bool)
    requires
        forall|i: int| 0 <= i < s.len() ==> p(#[trigger] s[i]),
    ensures
        s.filter(p) == s,
    decreases s.len(),
{
    reveal(Seq::filter);
    if s.len() > 0 {
        lemma_filter_all(s.drop_last(), p);
        assert(s.drop_last().push(s.last()) =~= s);
    }
}

/// What the mapped ids of `cs` hold.
proof fn lemma_mapped_ids_mem(nm: Map<NodeId, u64>, cs: Seq<NodeId>, t: u64)
    ensures
        mapped_ids(nm, cs).contains(t) <==> exists|c: NodeId| #[trigger] cs.contains(c) && nm.contains_key(c) && nm[c] == t,
    decreases cs.len(),
{
    if cs.len() > 0 {
        let d = cs.drop_last();
        lemma_mapped_ids_mem(nm, d, t);
        let r = mapped_ids(nm, d);
        if mapped_ids(nm, cs).contains(t) {
            if nm.contains_key(cs.last()) && t == nm[cs.last()] {
                assert(cs.contains(cs.last()) && cs[cs.len() - 1] == cs.last());
            } else {
                if nm.contains_key(cs.last()) {
                    let i = choose|i: int| 0 <= i < r.push(nm[cs.last()]).len() && r.push(nm[cs.last()])[i] == t;
                    assert(r[i] == t);
                }
                let c = choose|c: NodeId| #[trigger] d.contains(c) && nm.contains_key(c) && nm[c] == t;
                let i = choose|i: int| 0 <= i < d.len() && d[i] == c;
                assert(cs[i] == c);
                assert(cs.contains(c));
            }
        }
        if exists|c: NodeId| #[trigger] cs.contains(c) && nm.contains_key(c) && nm[c] == t {
            let c = choose|c: NodeId| #[trigger] cs.contains(c) && nm.contains_key(c) && nm[c] == t;
            let i = choose|i: int| 0 <= i < cs.len() && cs[i] == c;
            if i == cs.len() - 1 {
                assert(r.push(nm[cs.last()])[r.len() as int] == t);
            } else {
                assert(d[i] == c);
                assert(d.contains(c));
                assert(r.contains(t));
                if nm.contains_key(cs.last()) {
                    let k = choose|k: int| 0 <= k < r.len() && r[k] == t;
                    assert(r.push(nm[cs.last()])[k] == t);
                }
            }
        }
    }
}

/// The mapped ids of distinct nodes, under a one-to-one map, are distinct.
proof fn lemma_mapped_ids_nodup(nm: Map<NodeId, u64>, cs: Seq<NodeId>)
    requires
        cs.no_duplicates(),
        forall|a: NodeId, b: NodeId| nm.contains_key(a) && nm.contains_key(b) && #[trigger] nm[a] == #[trigger] nm[b] ==> a == b,
    ensures
        mapped_ids(nm, cs).no_duplicates(),
    decreases cs.len(),
{
    if cs.len() > 0 {
        let d = cs.drop_last();
        assert(d.no_duplicates()) by {
            assert forall|a: int, b: int| 0 <= a < d.len() && 0 <= b < d.len() && a != b implies d[a] != d[b] by {
                assert(d[a] == cs[a] && d[b] == cs[b]);
            }
        }
        lemma_mapped_ids_nodup(nm, d);
        let r = mapped_ids(nm, d);
        if nm.contains_key(cs.last()) {
            let t = nm[cs.last()];
            lemma_mapped_ids_mem(nm, d, t);
            if r.contains(t) {
                let c = choose|c: NodeId| #[trigger] d.contains(c) && nm.contains_key(c) && nm[c] == t;
                let i = choose|i: int| 0 <= i < d.len() && d[i] == c;
                assert(cs[i] == c && cs[cs.len() - 1] == cs.last());
            }
            assert forall|a: int, b: int| 0 <= a < r.len() + 1 && 0 <= b < r.len() + 1 && a != b implies r.push(t)[a]
                != r.push(t)[b] by {
                if a < r.len() && b < r.len() {
                } else if a < r.len() {
                    assert(r.contains(r[a]));
                } else {
                    assert(r.contains(r[b]));
                }
            }
        }
    }
}

impl LayoutEngine {
    /// Gives every layout node of a scene node the children its scene node
    /// asks for, in the order of the scene's ids.
    fn sync_children<E>(&mut self, scene: &SceneGraph<E>)
        requires
            old(self).wf(),
            forall|k: int| 0 <= k < scene.nodes@.len() && live(scene.nodes@, k) ==> old(self).node_map@.contains_key(k as NodeId),
            forall|k: int|
                #![trigger kids(scene.nodes@, k)]
                0 <= k < scene.nodes@.len() && live(scene.nodes@, k) ==> kids(scene.nodes@, k).no_duplicates() && (
                node_at(scene.nodes@, k).mask_node is Some ==> !kids(scene.nodes@, k).contains(
                    node_at(scene.nodes@, k).mask_node.unwrap(),
                )),
        ensures
            final(self).wf(),
            final(self).node_map@ == old(self).node_map@,
            layout_styles(final(self).taffy) == layout_styles(old(self).taffy),
            forall|x: int|
                #![trigger live(scene.nodes@, x)]
                0 <= x < scene.nodes@.len() && live(scene.nodes@, x) ==> layout_nodes(final(self).taffy)[final(self).node_map@[x as NodeId]].0
                    == kept_children(scene.nodes@, final(self).node_map@, x, scene.nodes@.len() as int),
    {
        let ghost ns = scene.nodes@;
        let ghost nm = self.node_map@;
        let n = scene.nodes.len();
        proof {
            assert forall|a: NodeId, b: NodeId| nm.contains_key(a) && nm.contains_key(b) && #[trigger] nm[a] == #[trigger] nm[b] implies a == b by {
                assert(layout_nodes(self.taffy)[nm[a]].2 == Some(a));
            }
        }
        let mut j: usize = 0;
        while j < n
            invariant
                n == ns.len(),
                ns == scene.nodes@,
                j <= n,
                self.wf(),
                self.node_map@ == nm,
                layout_styles(self.taffy) == layout_styles(old(self).taffy),
                forall|a: NodeId, b: NodeId| nm.contains_key(a) && nm.contains_key(b) && #[trigger] nm[a] == #[trigger] nm[b] ==> a == b,
                forall|k: int| 0 <= k < n && live(ns, k) ==> nm.contains_key(k as NodeId),
                forall|k: int|
                    #![trigger kids(ns, k)]
                    0 <= k < n && live(ns, k) ==> kids(ns, k).no_duplicates() && (node_at(ns, k).mask_node is Some
                        ==> !kids(ns, k).contains(node_at(ns, k).mask_node.unwrap())),
                forall|x: int|
                    0 <= x < j && live(ns, x) ==> #[trigger] layout_nodes(self.taffy)[nm[x as NodeId]].0 == kept_children(
                        ns,
                        nm,
                        x,
                        j as int,
                    ),
            decreases n - j,
        {
            let ghost m = layout_nodes(self.taffy);
            match &scene.nodes[j] {
                Some(node) => {
                    proof {
                        assert(live(ns, j as int));
                        assert(nm.contains_key(j as int as NodeId));
                    }
                    let tj = *self.node_map.get(&j).unwrap();
                    let cs = &node.children;
                    let mut list: Vec<u64> = Vec::new();
                    let mut q: usize = 0;
                    while q < cs.len()
                        invariant
                            q <= cs@.len(),
                            cs@ == kids(ns, j as int),
                            self.node_map@ == nm,
                            list@ == mapped_ids(nm, cs@.take(q as int)),
                        decreases cs@.len() - q,
                    {
                        let c = cs[q];
                        proof {
                            assert(cs@.take(q + 1).drop_last() =~= cs@.take(q as int));
                        }
                        match self.node_map.get(&c) {
                            Some(t) => {
                                list.push(*t);
                            },
                            None => {},
                        }
                        q += 1;
                    }
                    proof {
                        assert(cs@.take(cs@.len() as int) =~= cs@);
                    }
                    let ghost kl = list@;
                    match node.mask_node {
                        Some(mk) => match self.node_map.get(&mk) {
                            Some(t) => {
                                list.push(*t);
                            },
                            None => {},
                        },
                        None => {},
                    }
                    proof {
                        let w = wanted_children(ns, nm, j as int);
                        assert(list@ =~= w);
                        lemma_mapped_ids_nodup(nm, kids(ns, j as int));
                        assert forall|i: int| 0 <= i < w.len() implies m.contains_key(#[trigger] w[i]) by {
                            if i < kl.len() {
                                assert(kl.contains(kl[i]));
                                lemma_mapped_ids_mem(nm, kids(ns, j as int), kl[i]);
                            }
                        }
                        assert(w.no_duplicates()) by {
                            if w.len() > kl.len() {
                                let mk = node_at(ns, j as int).mask_node.unwrap();
                                let t = nm[mk];
                                lemma_mapped_ids_mem(nm, kids(ns, j as int), t);
                                assert forall|a: int, b: int| 0 <= a < w.len() && 0 <= b < w.len() && a != b implies w[a] != w[b] by {
                                    if a < kl.len() && b < kl.len() {
                                        assert(w[a] == kl[a] && w[b] == kl[b]);
                                    } else if a < kl.len() {
                                        assert(kl.contains(kl[a]));
                                    } else {
                                        assert(kl.contains(kl[b]));
                                    }
                                }
                            }
                        }
                        lemma_agree_children_set(m, tj, w);
                    }
                    layout_set_children(&mut self.taffy, tj, &list).unwrap();
                    proof {
                        let m2 = layout_nodes(self.taffy);
                        let w = wanted_children(ns, nm, j as int);
                        assert forall|t2: u64| #[trigger] m2.contains_key(t2) implies m2[t2].2 is Some && nm.contains_key(
                            m2[t2].2.unwrap(),
                        ) && nm[m2[t2].2.unwrap()] == t2 by {
                            assert(m.contains_key(t2));
                        }
                        assert forall|k: NodeId| #[trigger] nm.contains_key(k) implies m2.contains_key(nm[k]) && m2[nm[k]].2
                            == Some(k) by {
                            assert(m.contains_key(nm[k]));
                        }
                        assert forall|x: int|
                            0 <= x < j + 1 && live(ns, x) implies #[trigger] layout_nodes(self.taffy)[nm[x as NodeId]].0
                            == kept_children(ns, nm, x, j + 1) by {
                            if x == j {
                                lemma_filter_all(w, not_wanted_between(ns, nm, x, j + 1));
                            } else {
                                assert(nm[x as NodeId] != tj);
                                lemma_filter_filter(wanted_children(ns, nm, x), not_wanted_between(ns, nm, x, j as int), not_in(w));
                                let p1 = |a: u64| not_wanted_between(ns, nm, x, j as int)(a) && not_in(w)(a);
                                assert(p1 =~= not_wanted_between(ns, nm, x, j + 1)) by {
                                    assert forall|a: u64| #[trigger] p1(a) == not_wanted_between(ns, nm, x, j + 1)(a) by {
                                        if !p1(a) && not_wanted_between(ns, nm, x, j as int)(a) {
                                            assert(wanted_children(ns, nm, j as int).contains(a));
                                        }
                                    }
                                }
                            }
                        }
                    }
                },
                None => {
                    proof {
                        assert forall|x: int|
                            0 <= x < j + 1 && live(ns, x) implies #[trigger] layout_nodes(self.taffy)[nm[x as NodeId]].0
                            == kept_children(ns, nm, x, j + 1) by {
                            assert(not_wanted_between(ns, nm, x, j as int) =~= not_wanted_between(ns, nm, x, j + 1));
                        }
                    }
                },
            }
            j += 1;
        }
    }
}

/// What bringing the layout tree in step with a scene does: from the engine
/// `e0` and scene arena `s0` to `e1` and `s1`. The engine stays well-formed;
/// every scene node whose style needed synchronising no longer does (nothing
/// else about the scene changes); the scene's nodes (of the first `s0.len()`
/// ids) are exactly those with layout nodes, and a node that had one keeps
/// it; and every scene node's layout node has the layout children it asks
/// for, except those that a later scene node (by id) asks for too; and each
/// live scene node's layout node holds the style that `style_synced`
/// describes.
pub open spec fn in_step<E: LayoutStyle>(e0: LayoutEngine, e1: LayoutEngine, s0: Seq<Option<SceneNode<E>>>, s1: Seq<Option<SceneNode<E>>>) -> bool {
    &&& e1.wf()
    &&& s1.len() == s0.len()
    &&& forall|k: int|
        #![trigger s1[k]]
        0 <= k < s0.len() ==> {
            &&& (s1[k] is Some <==> s0[k] is Some)
            &&& s0[k] is Some ==> synced_node(node_at(s0, k), node_at(s1, k))
        }
    &&& forall|k: NodeId|
        #![trigger e1.node_map@.contains_key(k)]
        (k < s0.len() ==> (e1.node_map@.contains_key(k) <==> live(s0, k as int))) && (k >= s0.len() ==> (
        e1.node_map@.contains_key(k) <==> e0.node_map@.contains_key(k))) && (e0.node_map@.contains_key(k)
            && e1.node_map@.contains_key(k) ==> e1.node_map@[k] == e0.node_map@[k])
    &&& forall|x: int|
        #![trigger live(s1, x)]
        0 <= x < s1.len() && live(s1, x) ==> layout_nodes(e1.taffy)[e1.node_map@[x as NodeId]].0 == kept_children(
            s1,
            e1.node_map@,
            x,
            s1.len() as int,
        )
    &&& forall|x: int|
        0 <= x < s0.len() && live(s0, x) ==> #[trigger] style_synced(e0, e1, s0, x)
}

/// No scene node lists a child twice or also has it as its mask node (the
/// layout tree would be given a repeated child).
pub open spec fn children_distinct<E>(ns: Seq<Option<SceneNode<E>>>) -> bool {
    forall|k: int|
        #![trigger kids(ns, k)]
        0 <= k < ns.len() && live(ns, k) ==> kids(ns, k).no_duplicates() && (node_at(ns, k).mask_node is Some
            ==> !kids(ns, k).contains(node_at(ns, k).mask_node.unwrap()))
}

impl LayoutEngine {
    /// Brings the layout tree in step with the scene (before a frame's layout
    /// is computed): creates the layout nodes of new scene nodes, passes on
    /// changed styles, removes the layout nodes of removed scene nodes, and
    /// sets every layout node's children.
    pub fn sync<E: LayoutStyle>(&mut self, scene: &mut SceneGraph<E>)
        requires
            old(self).wf(),
            layout_nodes(old(self).taffy).dom().len() + old(scene).nodes@.len() < u32::MAX,
            children_distinct(old(scene).nodes@),
        ensures
            in_step(*old(self), *final(self), old(scene).nodes@, final(scene).nodes@),
            final(scene).free_indices@ == old(scene).free_indices@,
    {
        let ghost s0 = scene.nodes@;
        let ghost e0 = *self;
        self.sync_nodes(scene);
        proof {
            let s1 = scene.nodes@;
            assert forall|k: int| 0 <= k < s1.len() && live(s1, k) implies self.node_map@.contains_key(k as NodeId) by {
                assert(s1[k] is Some);
                assert(live(s0, k));
                assert(self.node_map@.contains_key(k as NodeId));
            }
            assert forall|k: int|
                #![trigger kids(s1, k)]
                0 <= k < s1.len() && live(s1, k) implies kids(s1, k).no_duplicates() && (node_at(s1, k).mask_node is Some
                    ==> !kids(s1, k).contains(node_at(s1, k).mask_node.unwrap())) by {
                assert(s1[k] is Some);
                assert(kids(s1, k) == kids(s0, k));
            }
        }
        let ghost e_mid = *self;
        self.sync_children(scene);
        proof {
            assert forall|x: int| 0 <= x < s0.len() && live(s0, x) implies #[trigger] style_synced(e0, *self, s0, x) by {
                assert(style_synced(e0, e_mid, s0, x));
                assert(style_of(*self, x) == style_of(e_mid, x));
            }
        }
    }

    /// Brings the layout tree in step with the scene as `sync` does when the
    /// tree has room for a node per scene slot (its slot map holds fewer than
    /// `u32::MAX` nodes), and says so; changes nothing and returns `false`
    /// when it has not.
    pub fn sync_checked<E: LayoutStyle>(&mut self, scene: &mut SceneGraph<E>) -> (r: bool)
        requires
            old(self).wf(),
            children_distinct(old(scene).nodes@),
        ensures
            r == (layout_nodes(old(self).taffy).dom().len() + old(scene).nodes@.len() < u32::MAX),
            r ==> in_step(*old(self), *final(self), old(scene).nodes@, final(scene).nodes@),
            !r ==> *final(self) == *old(self) && *final(scene) == *old(scene),
            final(scene).free_indices@ == old(scene).free_indices@,
    {
        let count = layout_node_count(&self.taffy);
        let n = scene.nodes.len();
        if count >= 0xffff_ffff || n >= 0xffff_ffff - count {
            return false;
        }
        self.sync(scene);
        true
    }
}

/// Whether `v` names some id twice.
fn has_repeat(v: &Vec<NodeId>) -> (r: bool)
    ensures
        r == !v@.no_duplicates(),
{
    let mut i: usize = 0;
    while i < v.len()
        invariant
            i <= v@.len(),
            forall|a: int, b: int| 0 <= a < i && 0 <= b < v@.len() && a != b ==> v@[a] != v@[b],
        decreases v@.len() - i,
    {
        let mut j: usize = 0;
        while j < v.len()
            invariant
                i < v@.len(),
                j <= v@.len(),
                forall|a: int, b: int| 0 <= a < i && 0 <= b < v@.len() && a != b ==> v@[a] != v@[b],
                forall|b: int| 0 <= b < j && b != i ==> v@[i as int] != v@[b],
            decreases v@.len() - j,
        {
            if j != i && v[i] == v[j] {
                return true;
            }
            j += 1;
        }
        i += 1;
    }
    false
}

/// Whether `v` holds `x`.
fn holds(v: &Vec<NodeId>, x: NodeId) -> (r: bool)
    ensures
        r == v@.contains(x),
{
    let mut i: usize = 0;
    while i < v.len()
        invariant
            i <= v@.len(),
            forall|a: int| 0 <= a < i ==> v@[a] != x,
        decreases v@.len() - i,
    {
        if v[i] == x {
            return true;
        }
        i += 1;
    }
    false
}

/// Whether no scene node lists a child twice or also has it as its mask
/// node (what `sync` needs of the scene).
pub fn children_are_distinct<E>(scene: &SceneGraph<E>) -> (r: bool)
    ensures
        r == children_distinct(scene.nodes@),
{
    let ghost ns = scene.nodes@;
    let mut k: usize = 0;
    while k < scene.nodes.len()
        invariant
            ns == scene.nodes@,
            k <= ns.len(),
            forall|y: int|
                #![trigger kids(ns, y)]
                0 <= y < k && live(ns, y) ==> kids(ns, y).no_duplicates() && (node_at(ns, y).mask_node is Some
                    ==> !kids(ns, y).contains(node_at(ns, y).mask_node.unwrap())),
        decreases ns.len() - k,
    {
        match &scene.nodes[k] {
            Some(node) => {
                if has_repeat(&node.children) {
                    assert(live(ns, k as int) && !kids(ns, k as int).no_duplicates());
                    return false;
                }
                match node.mask_node {
                    Some(m) => {
                        if holds(&node.children, m) {
                            assert(live(ns, k as int) && kids(ns, k as int).contains(m));
                            return false;
                        }
                    },
                    None => {},
                }
            },
            None => {},
        }
        k += 1;
    }
    true
}

/// Syncing an unchanged scene again changes nothing: the second sync keeps
/// every layout node and gives each the same children and the same style.
pub proof fn lemma_sync_again_changes_nothing<E: LayoutStyle>(
    e0: LayoutEngine,
    e1: LayoutEngine,
    e2: LayoutEngine,
    s0: Seq<Option<SceneNode<E>>>,
    s1: Seq<Option<SceneNode<E>>>,
    s2: Seq<Option<SceneNode<E>>>,
)
    requires
        in_step(e0, e1, s0, s1),
        in_step(e1, e2, s1, s2),
        s0.len() <= usize::MAX,
    ensures
        e2.node_map@ == e1.node_map@,
        forall|x: int|
            #![trigger live(s2, x)]
            0 <= x < s2.len() && live(s2, x) ==> layout_nodes(e2.taffy)[e2.node_map@[x as NodeId]].0 == layout_nodes(
                e1.taffy,
            )[e1.node_map@[x as NodeId]].0,
        forall|x: int| 0 <= x < s2.len() && live(s2, x) ==> #[trigger] style_of(e2, x) == style_of(e1, x),
{
    let nm1 = e1.node_map@;
    let nm2 = e2.node_map@;
    // The two syncs see the same live slots.
    assert forall|y: int| 0 <= y < s1.len() implies (live(s2, y) <==> live(s1, y)) && (live(s0, y) <==> live(s1, y)) by {
        assert(s2[y] is Some <==> s1[y] is Some);
        assert(s1[y] is Some <==> s0[y] is Some);
    }
    assert forall|k: NodeId| #[trigger] nm2.contains_key(k) <==> nm1.contains_key(k) by {
        if k < s1.len() {
            assert(live(s1, k as int) <==> live(s0, k as int));
        }
    }
    assert forall|k: NodeId| #[trigger] nm2.contains_key(k) implies nm2[k] == nm1[k] by {
        assert(nm1.contains_key(k));
    }
    assert(nm2 =~= nm1);
    assert forall|x: int| #![trigger live(s2, x)] 0 <= x < s2.len() && live(s2, x) implies layout_nodes(e2.taffy)[nm2[
        x as NodeId]].0 == layout_nodes(e1.taffy)[nm1[x as NodeId]].0 by {
        // Both are the children asked for by the same nodes.
        assert forall|y: int| #![trigger live(s2, y)] 0 <= y < s2.len() && live(s2, y) implies wanted_children(s2, nm2, y)
            == wanted_children(s1, nm1, y) by {
            assert(s2[y] is Some && s1[y] is Some);
        }
        assert(not_wanted_between(s2, nm2, x, s2.len() as int) =~= not_wanted_between(s1, nm1, x, s1.len() as int)) by {
            assert forall|c: u64| #[trigger] not_wanted_between(s2, nm2, x, s2.len() as int)(c) == not_wanted_between(
                s1,
                nm1,
                x,
                s1.len() as int,
            )(c) by {
                assert forall|y: int| x < y < s1.len() && live(s1, y) implies live(s2, y) by {}
            }
        }
    }
    assert forall|x: int| 0 <= x < s2.len() && live(s2, x) implies #[trigger] style_of(e2, x) == style_of(e1, x) by {
        assert(s2[x] is Some && s1[x] is Some && s0[x] is Some);
        assert(synced_node(node_at(s0, x), node_at(s1, x)));
        assert(live(s0, x));
        assert(e1.node_map@.contains_key(x as NodeId));
        assert(style_synced(e1, e2, s1, x));
    }
}

/// The nodes that receive their computed rectangles when the layout is read
/// back from `x` on, in order: `x` itself when it has a layout node, then
/// what each of its children leads to (in list order), then what its mask
/// node leads to; a node without a layout node ends its branch. `fuel`
/// bounds the depth.
pub open spec fn targets_of<E>(ns: Seq<Option<SceneNode<E>>>, nm: Map<NodeId, u64>, x: NodeId, fuel: nat) -> Seq<NodeId>
    decreases fuel, 0nat,
{
    if fuel == 0 || !nm.contains_key(x) {
        Seq::empty()
    } else {
        seq![x] + targets_list(ns, nm, successors(ns, x), (fuel - 1) as nat)
    }
}

/// What the nodes `cs` lead to, one after the other.
pub open spec fn targets_list<E>(ns: Seq<Option<SceneNode<E>>>, nm: Map<NodeId, u64>, cs: Seq<NodeId>, fuel: nat) -> Seq<NodeId>
    decreases fuel, cs.len() + 1,
{
    if cs.len() == 0 {
        Seq::empty()
    } else {
        targets_list(ns, nm, cs.drop_last(), fuel) + targets_of(ns, nm, cs.last(), fuel)
    }
}

/// A ranking of the links reachable from `root`, when no cycle of links is
/// reachable from it.
pub open spec fn root_rank<E>(ns: Seq<Option<SceneNode<E>>>, root: NodeId) -> spec_fn(int) -> nat {
    (choose|rank: spec_fn(int) -> nat, s: Set<NodeId>| links_ranked_on(ns, rank, s) && s.contains(root)).0
}

/// The nodes that receive their computed rectangles when the layout is read
/// back from `root` (for links that reach no cycle from it).
pub open spec fn layout_targets<E>(ns: Seq<Option<SceneNode<E>>>, nm: Map<NodeId, u64>, root: NodeId) -> Seq<NodeId> {
    targets_of(ns, nm, root, root_rank(ns, root)(root as int) + 1)
}

/// Fuel beyond a node's rank changes nothing.
proof fn lemma_targets_of_fuel<E>(
    ns: Seq<Option<SceneNode<E>>>,
    nm: Map<NodeId, u64>,
    rank: spec_fn(int) -> nat,
    s: Set<NodeId>,
    x: NodeId,
    f1: nat,
    f2: nat,
)
    requires
        links_ranked_on(ns, rank, s),
        s.contains(x),
        forall|k: NodeId| #[trigger] nm.contains_key(k) ==> live(ns, k as int),
        f1 > rank(x as int),
        f2 > rank(x as int),
    ensures
        targets_of(ns, nm, x, f1) == targets_of(ns, nm, x, f2),
    decreases rank(x as int) + 1, 0nat,
{
    if nm.contains_key(x) {
        lemma_targets_list_fuel(ns, nm, rank, s, x, successors(ns, x), (f1 - 1) as nat, (f2 - 1) as nat);
    }
}

/// The same for links out of a node `x` of the ranked set.
proof fn lemma_targets_list_fuel<E>(
    ns: Seq<Option<SceneNode<E>>>,
    nm: Map<NodeId, u64>,
    rank: spec_fn(int) -> nat,
    s: Set<NodeId>,
    x: NodeId,
    cs: Seq<NodeId>,
    f1: nat,
    f2: nat,
)
    requires
        links_ranked_on(ns, rank, s),
        s.contains(x),
        live(ns, x as int),
        forall|k: NodeId| #[trigger] nm.contains_key(k) ==> live(ns, k as int),
        forall|i: int| 0 <= i < cs.len() ==> #[trigger] successors(ns, x).contains(cs[i]),
        f1 >= rank(x as int),
        f2 >= rank(x as int),
    ensures
        targets_list(ns, nm, cs, f1) == targets_list(ns, nm, cs, f2),
    decreases rank(x as int), cs.len(),
{
    if cs.len() > 0 {
        let c = cs.last();
        assert(successors(ns, x).contains(cs[cs.len() - 1]));
        let j = choose|j: int| 0 <= j < successors(ns, x).len() && successors(ns, x)[j] == c;
        assert(s.contains(successors(ns, x)[j]) && rank(successors(ns, x)[j] as int) < rank(x as int));
        lemma_targets_of_fuel(ns, nm, rank, s, c, f1, f2);
        assert forall|i: int| 0 <= i < cs.drop_last().len() implies #[trigger] successors(ns, x).contains(cs.drop_last()[i]) by {
            assert(cs.drop_last()[i] == cs[i]);
        }
        lemma_targets_list_fuel(ns, nm, rank, s, x, cs.drop_last(), f1, f2);
    }
}

impl LayoutEngine {
    /// Appends to `out` the nodes that receive their rectangles from `x` on.
    fn collect_targets<E>(
        &self,
        scene: &SceneGraph<E>,
        x: NodeId,
        out: &mut Vec<NodeId>,
        Ghost(rank): Ghost<spec_fn(int) -> nat>,
        Ghost(s): Ghost<Set<NodeId>>,
    )
        requires
            links_ranked_on(scene.nodes@, rank, s),
            s.contains(x),
            forall|k: NodeId| #[trigger] self.node_map@.contains_key(k) ==> live(scene.nodes@, k as int),
        ensures
            final(out)@ == old(out)@ + targets_of(scene.nodes@, self.node_map@, x, rank(x as int) + 1),
        decreases rank(x as int),
    {
        let ghost ns = scene.nodes@;
        let ghost nm = self.node_map@;
        match self.node_map.get(&x) {
            None => {
                assert(old(out)@ + Seq::<NodeId>::empty() =~= old(out)@);
            },
            Some(_) => {
                let ghost o0 = out@;
                let ghost f: nat = rank(x as int);
                let ghost succ = successors(ns, x);
                assert(live(ns, x as int));
                out.push(x);
                let node = scene.nodes[x].as_ref().unwrap();
                let cs = &node.children;
                let mut j: usize = 0;
                proof {
                    assert(succ.take(0) =~= Seq::<NodeId>::empty());
                    assert(out@ =~= o0 + seq![x] + targets_list(ns, nm, succ.take(0), f));
                }
                while j < cs.len()
                    invariant
                        j <= cs@.len(),
                        cs@ == kids(ns, x as int),
                        ns == scene.nodes@,
                        nm == self.node_map@,
                        f == rank(x as int),
                        links_ranked_on(ns, rank, s),
                        s.contains(x),
                        live(ns, x as int),
                        forall|k: NodeId| #[trigger] nm.contains_key(k) ==> live(ns, k as int),
                        succ == successors(ns, x),
                        out@ == o0 + seq![x] + targets_list(ns, nm, succ.take(j as int), f),
                    decreases cs@.len() - j,
                {
                    let c = cs[j];
                    proof {
                        assert(succ[j as int] == c);
                        assert(s.contains(succ[j as int]) && rank(succ[j as int] as int) < rank(x as int));
                        lemma_targets_of_fuel(ns, nm, rank, s, c, f, rank(c as int) + 1);
                        assert(succ.take(j + 1).drop_last() =~= succ.take(j as int));
                        assert(succ.take(j + 1).last() == c);
                    }
                    self.collect_targets(scene, c, out, Ghost(rank), Ghost(s));
                    j += 1;
                    proof {
                        assert(out@ =~= o0 + seq![x] + targets_list(ns, nm, succ.take(j as int), f));
                    }
                }
                match node.mask_node {
                    Some(m) => {
                        let k: usize = cs.len();
                        proof {
                            assert(succ[k as int] == m);
                            assert(s.contains(succ[k as int]) && rank(succ[k as int] as int) < rank(x as int));
                            lemma_targets_of_fuel(ns, nm, rank, s, m, f, rank(m as int) + 1);
                            assert(succ.drop_last() =~= succ.take(k as int));
                            assert(succ.last() == m);
                        }
                        self.collect_targets(scene, m, out, Ghost(rank), Ghost(s));
                    },
                    None => {
                        proof {
                            assert(succ.take(cs@.len() as int) =~= succ);
                        }
                    },
                }
                proof {
                    assert(out@ =~= old(out)@ + targets_of(ns, nm, x, (f + 1) as nat));
                }
            },
        }
    }

    /// The nodes that receive their computed rectangles when the layout is
    /// read back from `root`, in order: `root` (when it has a layout node),
    /// then, branch by branch, its children in list order and its mask node;
    /// a node without a layout node ends its branch.
    pub fn layout_targets<E>(&self, scene: &SceneGraph<E>, root: NodeId) -> (r: Vec<NodeId>)
        requires
            acyclic_from(scene.nodes@, seq![root], true),
            forall|k: NodeId| #[trigger] self.node_map@.contains_key(k) ==> live(scene.nodes@, k as int),
        ensures
            r@ == layout_targets(scene.nodes@, self.node_map@, root),
    {
        let ghost ns = scene.nodes@;
        proof {
            let (rank0, s0) = choose|rank: spec_fn(int) -> nat, s: Set<NodeId>|
                crate::scene_check::ranked_links_on(ns, rank, s, true) && forall|i: int|
                    0 <= i < seq![root].len() ==> s.contains(#[trigger] seq![root][i]);
            assert(seq![root][0] == root);
            crate::scene_check::lemma_mask_links_ranked_on(ns, rank0, s0);
            assert(links_ranked_on(ns, rank0, s0) && s0.contains(root));
        }
        let ghost (rank, s) = choose|rank: spec_fn(int) -> nat, s: Set<NodeId>| links_ranked_on(ns, rank, s) && s.contains(root);
        let mut out: Vec<NodeId> = Vec::new();
        self.collect_targets(scene, root, &mut out, Ghost(rank), Ghost(s));
        assert(Seq::<NodeId>::empty() + targets_of(ns, self.node_map@, root, rank(root as int) + 1) =~= out@);
        out
    }
}

} // verus!
