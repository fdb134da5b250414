//! Lists of ids with first occurrences taken out, and lists with repeats
//! taken out: what destroying a subtree does to the children lists that
//! stay, and the order in which it frees nodes.

use crate::scene::{remove_first, NodeId};
use crate::scene_lemmas::lemma_remove_first_index;
use vstd::prelude::*;

verus! {

/// `s` without the first occurrence of each id of `xs` (an id of `xs` that
/// `s` does not hold changes nothing).
pub open spec fn drop_firsts(s: Seq<NodeId>, xs: Set<NodeId>) -> Seq<NodeId>
    decreases s.len(),
{
    if s.len() == 0 {
        s
    } else {
        let d = drop_firsts(s.drop_last(), xs);
        if xs.contains(s.last()) && !s.drop_last().contains(s.last()) {
            d
        } else {
            d.push(s.last())
        }
    }
}

/// `s` with every repeat taken out: each id stays where it first occurs.
pub open spec fn first_occurrences(s: Seq<NodeId>) -> Seq<NodeId>
    decreases s.len(),
{
    if s.len() == 0 {
        s
    } else {
        let d = first_occurrences(s.drop_last());
        if s.drop_last().contains(s.last()) {
            d
        } else {
            d.push(s.last())
        }
    }
}

/// Taking out ids that `s` does not hold changes nothing.
pub proof fn lemma_drop_firsts_absent(s: Seq<NodeId>, xs: Set<NodeId>)
    requires
        forall|i: int| 0 <= i < s.len() ==> !xs.contains(#[trigger] s[i]),
    ensures
        drop_firsts(s, xs) == s,
    decreases s.len(),
{
    if s.len() > 0 {
        assert forall|i: int| 0 <= i < s.drop_last().len() implies !xs.contains(#[trigger] s.drop_last()[i]) by {
            assert(s.drop_last()[i] == s[i]);
        }
        lemma_drop_firsts_absent(s.drop_last(), xs);
        assert(!xs.contains(s[s.len() - 1]));
        assert(s.drop_last().push(s.last()) =~= s);
    }
}

/// An id that is not taken out is held exactly when it was.
pub proof fn lemma_drop_firsts_contains(s: Seq<NodeId>, xs: Set<NodeId>, v: NodeId)
    requires
        !xs.contains(v),
    ensures
        drop_firsts(s, xs).contains(v) <==> s.contains(v),
    decreases s.len(),
{
    if s.len() > 0 {
        let d = s.drop_last();
        lemma_drop_firsts_contains(d, xs, v);
        let r = drop_firsts(d, xs);
        if s.contains(v) {
            let i = choose|i: int| 0 <= i < s.len() && s[i] == v;
            if i < d.len() {
                assert(d[i] == v);
            }
        }
        if r.push(s.last()).contains(v) && !r.contains(v) {
            assert(r.push(s.last())[r.len() as int] == s.last());
            let i = choose|i: int| 0 <= i < r.push(s.last()).len() && r.push(s.last())[i] == v;
            if i < r.len() {
                assert(r.push(s.last())[i] == r[i]);
            }
            assert(s[s.len() - 1] == v);
        }
        if r.contains(v) {
            let i = choose|i: int| 0 <= i < r.len() && r[i] == v;
            assert(r.push(s.last())[i] == v);
        }
        if d.contains(v) {
            let i = choose|i: int| 0 <= i < d.len() && d[i] == v;
            assert(s[i] == v);
        }
        if s.last() == v && !xs.contains(s.last()) {
            assert(r.push(s.last())[r.len() as int] == v);
        }
    }
}

/// Taking out the ids of `xs`, then those of a disjoint `ys`, takes out
/// those of both.
pub proof fn lemma_drop_firsts_twice(s: Seq<NodeId>, xs: Set<NodeId>, ys: Set<NodeId>)
    requires
        xs.disjoint(ys),
    ensures
        drop_firsts(drop_firsts(s, xs), ys) == drop_firsts(s, xs.union(ys)),
    decreases s.len(),
{
    if s.len() > 0 {
        let l = s.last();
        let d = s.drop_last();
        lemma_drop_firsts_twice(d, xs, ys);
        let a = drop_firsts(d, xs);
        if xs.contains(l) && !d.contains(l) {
        } else {
            assert(a.push(l).drop_last() =~= a);
            assert(a.push(l).last() == l);
            if ys.contains(l) {
                assert(!xs.contains(l));
                lemma_drop_firsts_contains(d, xs, l);
            }
        }
    }
}

/// Taking out the first occurrence of one id.
pub proof fn lemma_remove_first_drops(s: Seq<NodeId>, v: NodeId)
    ensures
        remove_first(s, v) == drop_firsts(s, set![v]),
    decreases s.len(),
{
    if !s.contains(v) {
        assert forall|i: int| 0 <= i < s.len() implies !set![v].contains(#[trigger] s[i]) by {
            if s[i] == v {
                assert(s.contains(v));
            }
        }
        lemma_drop_firsts_absent(s, set![v]);
    } else {
        let i = lemma_remove_first_index(s, v);
        let d = s.drop_last();
        if i == s.len() - 1 {
            assert forall|k: int| 0 <= k < d.len() implies !set![v].contains(#[trigger] d[k]) by {
                assert(d[k] == s[k]);
            }
            lemma_drop_firsts_absent(d, set![v]);
            if d.contains(v) {
                let k = choose|k: int| 0 <= k < d.len() && d[k] == v;
                assert(s[k] == v);
            }
            assert(s.remove(i) =~= d);
        } else {
            assert(d[i] == v);
            assert(d.contains(v));
            let j = lemma_remove_first_index(d, v);
            if j < i {
                assert(s[j] == v);
            }
            if i < j {
                assert(d[i] == v);
            }
            assert(j == i);
            lemma_remove_first_drops(d, v);
            assert(s.remove(i) =~= d.remove(i).push(s.last()));
        }
    }
}

/// Taking out no id changes nothing.
pub proof fn lemma_drop_firsts_none(s: Seq<NodeId>)
    ensures
        drop_firsts(s, Set::<NodeId>::empty()) == s,
{
    lemma_drop_firsts_absent(s, Set::<NodeId>::empty());
}

} // verus!
