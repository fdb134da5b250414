//! The order in which the renderer draws a node's children: the live
//! children, stably sorted by z-index, so that higher z-indices draw on top
//! and equal ones keep their list order.

use crate::scene::{live, node_at, NodeId, SceneGraph, SceneNode};
use vstd::prelude::*;

verus! {

/// A child to draw, with its z-index.
pub type ZEntry = (NodeId, i32);

/// Whether the entries are in non-decreasing z order.
pub open spec fn z_sorted(s: Seq<ZEntry>) -> bool {
    forall|i: int, j: int| 0 <= i < j < s.len() ==> s[i].1 <= s[j].1
}

/// The entries with z-index `k`, in their order in `s`.
pub open spec fn with_z(s: Seq<ZEntry>, k: i32) -> Seq<ZEntry> {
    s.filter(|e: ZEntry| e.1 == k)
}

/// `out` is `input` stably sorted by z-index: in z order, and with the
/// entries of each z-index in their order in `input`.
pub open spec fn stably_sorted_by_z(input: Seq<ZEntry>, out: Seq<ZEntry>) -> bool {
    &&& z_sorted(out)
    &&& forall|k: i32| #[trigger] with_z(out, k) == with_z(input, k)
}

/// The live children in `cs`, in list order, each with its z-index.
pub open spec fn z_entries<E>(ns: Seq<Option<SceneNode<E>>>, cs: Seq<NodeId>) -> Seq<ZEntry>
    decreases cs.len(),
{
    if cs.len() == 0 {
        Seq::empty()
    } else if live(ns, cs.last() as int) {
        z_entries(ns, cs.drop_last()).push((cs.last(), node_at(ns, cs.last() as int).z_index))
    } else {
        z_entries(ns, cs.drop_last())
    }
}

/// Filtering keeps nothing from entries of other z-indices.
proof fn lemma_with_z_none(s: Seq<ZEntry>, k: i32)
    requires
        forall|i: int| 0 <= i < s.len() ==> s[i].1 != k,
    ensures
        with_z(s, k) == Seq::<ZEntry>::empty(),
    decreases s.len(),
{
    reveal(Seq::filter);
    if s.len() > 0 {
        lemma_with_z_none(s.drop_last(), k);
    }
}

/// Filtering a sequence with one more entry.
proof fn lemma_with_z_push(s: Seq<ZEntry>, e: ZEntry, k: i32)
    ensures
        with_z(s.push(e), k) == if e.1 == k {
            with_z(s, k).push(e)
        } else {
            with_z(s, k)
        },
{
    reveal(Seq::filter);
    assert(s.push(e).drop_last() =~= s);
}

/// Sorts entries by z-index, keeping the order of equal z-indices.
pub fn sort_by_z(items: &Vec<ZEntry>) -> (r: Vec<ZEntry>)
    ensures
        stably_sorted_by_z(items@, r@),
{
    let mut out: Vec<ZEntry> = Vec::new();
    let mut i: usize = 0;
    proof {
        assert forall|k: i32| #[trigger] with_z(out@, k) == with_z(items@.take(0), k) by {
            reveal(Seq::filter);
            assert(items@.take(0) =~= Seq::<ZEntry>::empty());
        }
    }
    while i < items.len()
        invariant
            i <= items@.len(),
            z_sorted(out@),
            forall|k: i32| #[trigger] with_z(out@, k) == with_z(items@.take(i as int), k),
        decreases items@.len() - i,
    {
        let e = items[i];
        let mut pos: usize = 0;
        while pos < out.len() && out[pos].1 <= e.1
            invariant
                pos <= out@.len(),
                forall|j: int| 0 <= j < pos ==> out@[j].1 <= e.1,
            decreases out@.len() - pos,
        {
            pos += 1;
        }
        let ghost old_out = out@;
        proof {
            // Everything from `pos` on comes after `e`.
            assert forall|j: int| pos <= j < old_out.len() implies old_out[j].1 > e.1 by {
                assert(old_out[pos as int].1 > e.1);
                if j > pos {
                    assert(old_out[pos as int].1 <= old_out[j].1);
                }
            }
        }
        out.insert(pos, e);
        proof {
            let a = old_out.take(pos as int);
            let b = old_out.skip(pos as int);
            assert(old_out =~= a + b);
            assert(out@ =~= a.push(e) + b);
            assert(items@.take(i + 1) =~= items@.take(i as int).push(e));
            assert forall|k: i32| #[trigger] with_z(out@, k) == with_z(items@.take(i + 1), k) by {
                Seq::filter_distributes_over_add(a, b, |x: ZEntry| x.1 == k);
                Seq::filter_distributes_over_add(a.push(e), b, |x: ZEntry| x.1 == k);
                lemma_with_z_push(a, e, k);
                lemma_with_z_push(items@.take(i as int), e, k);
                assert(with_z(old_out, k) == with_z(items@.take(i as int), k));
                assert(with_z(old_out, k) == with_z(a, k) + with_z(b, k));
                assert(with_z(out@, k) == with_z(a.push(e), k) + with_z(b, k));
                if e.1 == k {
                    lemma_with_z_none(b, k);
                    assert(with_z(b, k) == Seq::<ZEntry>::empty());
                    assert(with_z(a, k) + with_z(b, k) =~= with_z(a, k));
                    assert(with_z(a, k).push(e) + with_z(b, k) =~= with_z(a, k).push(e));
                }
            }
            assert forall|x: int, y: int| 0 <= x < y < out@.len() implies out@[x].1 <= out@[y].1 by {
                if y < pos {
                } else if y == pos {
                } else if x < pos {
                    assert(out@[y] == old_out[y - 1]);
                    assert(old_out[y - 1].1 > e.1);
                } else if x == pos {
                    assert(out@[y] == old_out[y - 1]);
                } else {
                    assert(out@[x] == old_out[x - 1]);
                    assert(out@[y] == old_out[y - 1]);
                }
            }
        }
        i += 1;
    }
    proof {
        assert(items@.take(items@.len() as int) =~= items@);
    }
    out
}

impl<E> SceneGraph<E> {
    /// The children of `id` in the order they are drawn: its live children,
    /// stably sorted by z-index (nothing when `id` names no node).
    pub fn render_order(&self, id: NodeId) -> (r: Vec<ZEntry>)
        ensures
            self.is_live(id as int) ==> stably_sorted_by_z(
                z_entries(self.nodes@, node_at(self.nodes@, id as int).children@),
                r@,
            ),
            !self.is_live(id as int) ==> r@ == Seq::<ZEntry>::empty(),
    {
        let mut entries: Vec<ZEntry> = Vec::new();
        match self.get_node(id) {
            Some(node) => {
                let cs = &node.children;
                let mut k: usize = 0;
                while k < cs.len()
                    invariant
                        k <= cs@.len(),
                        entries@ == z_entries(self.nodes@, cs@.take(k as int)),
                    decreases cs@.len() - k,
                {
                    let c = cs[k];
                    proof {
                        assert(cs@.take(k + 1).drop_last() =~= cs@.take(k as int));
                    }
                    match self.get_node(c) {
                        Some(child) => {
                            entries.push((c, child.z_index));
                        },
                        None => {},
                    }
                    k += 1;
                }
                proof {
                    assert(cs@.take(cs@.len() as int) =~= cs@);
                }
                sort_by_z(&entries)
            },
            None => entries,
        }
    }
}

/// The entry a child is drawn with: its id and its z-index.
pub open spec fn draw_entry<E>(ns: Seq<Option<SceneNode<E>>>) -> spec_fn(NodeId) -> ZEntry {
    |c: NodeId| (c, node_at(ns, c as int).z_index)
}

/// Whether an id names a node of `ns` (as a predicate on ids).
pub open spec fn names_node<E>(ns: Seq<Option<SceneNode<E>>>) -> spec_fn(NodeId) -> bool {
    |c: NodeId| live(ns, c as int)
}

/// The entries of the children to draw: every child in `cs` that names a
/// node, in list order.
proof fn lemma_z_entries_are_live_children<E>(ns: Seq<Option<SceneNode<E>>>, cs: Seq<NodeId>)
    ensures
        z_entries(ns, cs) == cs.filter(names_node(ns)).map_values(draw_entry(ns)),
    decreases cs.len(),
{
    reveal(Seq::filter);
    if cs.len() > 0 {
        lemma_z_entries_are_live_children(ns, cs.drop_last());
        let f = cs.drop_last().filter(names_node(ns));
        if names_node(ns)(cs.last()) {
            assert(f.push(cs.last()).map_values(draw_entry(ns)) =~= f.map_values(draw_entry(ns)).push(
                draw_entry(ns)(cs.last()),
            ));
        }
    }
}

/// A filter that keeps `e` keeps every copy of it.
proof fn lemma_filter_keeps_count(s: Seq<ZEntry>, p: spec_fn(ZEntry) -> bool, e: ZEntry)
    requires
        p(e),
    ensures
        s.filter(p).to_multiset().count(e) == s.to_multiset().count(e),
    decreases s.len(),
{
    reveal(Seq::filter);
    broadcast use vstd::seq_lib::group_to_multiset_ensures;
    if s.len() == 0 {
        assert(s.filter(p) =~= s);
    } else {
        let d = s.drop_last();
        lemma_filter_keeps_count(d, p, e);
        assert(d.push(s.last()) =~= s);
    }
}

/// Sorting stably by z-index keeps every entry, as many times as it came.
proof fn lemma_sorted_keeps_entries(input: Seq<ZEntry>, out: Seq<ZEntry>)
    requires
        stably_sorted_by_z(input, out),
    ensures
        out.to_multiset() == input.to_multiset(),
{
    assert forall|e: ZEntry| out.to_multiset().count(e) == input.to_multiset().count(e) by {
        lemma_filter_keeps_count(out, |x: ZEntry| x.1 == e.1, e);
        lemma_filter_keeps_count(input, |x: ZEntry| x.1 == e.1, e);
        assert(with_z(out, e.1) == with_z(input, e.1));
    }
    assert(out.to_multiset() =~= input.to_multiset());
}

/// The renderer draws every child of a node that names a node, each once
/// per listing and with its own z-index, and nothing else; whatever else a
/// child holds (a mask node, say) plays no part. The children come in
/// non-decreasing z-index order.
pub proof fn lemma_render_order_draws_every_live_child<E>(g: SceneGraph<E>, id: NodeId, r: Seq<ZEntry>)
    requires
        g.is_live(id as int),
        stably_sorted_by_z(z_entries(g.nodes@, node_at(g.nodes@, id as int).children@), r),
    ensures
        r.to_multiset() == node_at(g.nodes@, id as int).children@.filter(names_node(g.nodes@)).map_values(
            draw_entry(g.nodes@),
        ).to_multiset(),
        forall|i: int, j: int| 0 <= i < j < r.len() ==> r[i].1 <= r[j].1,
{
    let cs = node_at(g.nodes@, id as int).children@;
    lemma_z_entries_are_live_children(g.nodes@, cs);
    lemma_sorted_keeps_entries(z_entries(g.nodes@, cs), r);
}

} // verus!
