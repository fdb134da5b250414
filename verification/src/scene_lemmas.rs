//! Facts about subtrees of the scene graph that the destroy operation and the
//! graph's laws rest on.

use crate::scene::{
    child_links_ok, kids, live, node_at, post_list, post_of, ranked_on, remove_first, subtree, same_but_children, NodeId,
    SceneNode,
};
use vstd::prelude::*;

verus! {

pub proof fn lemma_concat_contains<A>(a: Seq<A>, b: Seq<A>, y: A)
    ensures
        (a + b).contains(y) <==> (a.contains(y) || b.contains(y)),
{
    if (a + b).contains(y) {
        let i = choose|i: int| 0 <= i < (a + b).len() && (a + b)[i] == y;
        if i < a.len() {
            assert(a[i] == y);
        } else {
            assert(b[i - a.len()] == y);
        }
    }
    if a.contains(y) {
        let i = choose|i: int| 0 <= i < a.len() && a[i] == y;
        assert((a + b)[i] == y);
    }
    if b.contains(y) {
        let i = choose|i: int| 0 <= i < b.len() && b[i] == y;
        assert((a + b)[a.len() + i] == y);
    }
}

/// A node lies in the post-order of a list exactly when it lies in the
/// post-order of one of the list's nodes.
pub proof fn lemma_post_list_mem<E>(ns: Seq<Option<SceneNode<E>>>, cs: Seq<NodeId>, fuel: nat, y: NodeId)
    ensures
        post_list(ns, cs, fuel).contains(y) <==> exists|j: int|
            0 <= j < cs.len() && #[trigger] post_of(ns, cs[j], fuel).contains(y),
    decreases cs.len(),
{
    if cs.len() > 0 {
        let d = cs.drop_last();
        lemma_post_list_mem(ns, d, fuel, y);
        lemma_concat_contains(post_list(ns, d, fuel), post_of(ns, cs.last(), fuel), y);
        if post_list(ns, cs, fuel).contains(y) {
            if post_list(ns, d, fuel).contains(y) {
                let j = choose|j: int| 0 <= j < d.len() && #[trigger] post_of(ns, d[j], fuel).contains(y);
                assert(d[j] == cs[j]);
            } else {
                assert(post_of(ns, cs[cs.len() - 1], fuel).contains(y));
            }
        }
        if exists|j: int| 0 <= j < cs.len() && #[trigger] post_of(ns, cs[j], fuel).contains(y) {
            let j = choose|j: int| 0 <= j < cs.len() && #[trigger] post_of(ns, cs[j], fuel).contains(y);
            if j < cs.len() - 1 {
                assert(d[j] == cs[j]);
                assert(post_of(ns, d[j], fuel).contains(y));
            }
        }
    }
}

/// The post-order of a list that grows by one node grows by that node's
/// post-order.
pub proof fn lemma_post_list_take<E>(ns: Seq<Option<SceneNode<E>>>, cs: Seq<NodeId>, k: int, fuel: nat)
    requires
        0 <= k < cs.len(),
    ensures
        post_list(ns, cs.take(k + 1), fuel) == post_list(ns, cs.take(k), fuel) + post_of(ns, cs[k], fuel),
{
    assert(cs.take(k + 1).drop_last() =~= cs.take(k));
    assert(cs.take(k + 1).last() == cs[k]);
}

/// The root of a non-empty post-order belongs to it.
pub proof fn lemma_post_of_root<E>(ns: Seq<Option<SceneNode<E>>>, x: NodeId, fuel: nat)
    requires
        fuel > 0,
        live(ns, x as int),
    ensures
        post_of(ns, x, fuel).contains(x),
        post_of(ns, x, fuel).last() == x,
{
    let a = post_list(ns, kids(ns, x as int), (fuel - 1) as nat);
    lemma_concat_contains(a, seq![x], x);
    assert(seq![x][0] == x);
}

/// Every node of a post-order is live and of rank at most its root's.
pub proof fn lemma_post_of_rank<E>(
    ns: Seq<Option<SceneNode<E>>>,
    rank: spec_fn(int) -> nat,
    s: Set<NodeId>,
    x: NodeId,
    fuel: nat,
    y: NodeId,
)
    requires
        ranked_on(ns, rank, s),
        s.contains(x),
        post_of(ns, x, fuel).contains(y),
    ensures
        rank(y as int) <= rank(x as int),
        s.contains(y),
        live(ns, y as int),
        live(ns, x as int),
        fuel > 0,
    decreases fuel,
{
    let ks = kids(ns, x as int);
    let f = (fuel - 1) as nat;
    lemma_concat_contains(post_list(ns, ks, f), seq![x], y);
    if post_list(ns, ks, f).contains(y) {
        lemma_post_list_mem(ns, ks, f, y);
        let j = choose|j: int| 0 <= j < ks.len() && #[trigger] post_of(ns, ks[j], f).contains(y);
        assert(s.contains(kids(ns, x as int)[j]) && rank(kids(ns, x as int)[j] as int) < rank(x as int));
        lemma_post_of_rank(ns, rank, s, ks[j], f, y);
    } else {
        assert(seq![x].contains(y));
        assert(seq![x][0] == x);
    }
}

/// Every node in the post-order of a list is live and of rank below `bound`
/// when the list's nodes are.
pub proof fn lemma_post_list_rank<E>(
    ns: Seq<Option<SceneNode<E>>>,
    rank: spec_fn(int) -> nat,
    s: Set<NodeId>,
    cs: Seq<NodeId>,
    fuel: nat,
    bound: nat,
    y: NodeId,
)
    requires
        ranked_on(ns, rank, s),
        forall|j: int| 0 <= j < cs.len() ==> rank(#[trigger] cs[j] as int) < bound && s.contains(cs[j]),
        post_list(ns, cs, fuel).contains(y),
    ensures
        rank(y as int) < bound,
        s.contains(y),
        live(ns, y as int),
{
    lemma_post_list_mem(ns, cs, fuel, y);
    let j = choose|j: int| 0 <= j < cs.len() && #[trigger] post_of(ns, cs[j], fuel).contains(y);
    lemma_post_of_rank(ns, rank, s, cs[j], fuel, y);
}

/// Any fuel above the root's rank gives the same post-order.
pub proof fn lemma_post_of_fuel<E>(
    ns: Seq<Option<SceneNode<E>>>,
    rank: spec_fn(int) -> nat,
    s: Set<NodeId>,
    x: NodeId,
    f1: nat,
    f2: nat,
)
    requires
        ranked_on(ns, rank, s),
        s.contains(x),
        rank(x as int) < f1,
        rank(x as int) < f2,
    ensures
        post_of(ns, x, f1) == post_of(ns, x, f2),
    decreases f1, 0nat,
{
    if live(ns, x as int) {
        let ks = kids(ns, x as int);
        assert forall|j: int| 0 <= j < ks.len() implies rank(#[trigger] ks[j] as int) < (f1 - 1) as nat
            && rank(ks[j] as int) < (f2 - 1) as nat && s.contains(ks[j]) by {
            assert(rank(kids(ns, x as int)[j] as int) < rank(x as int));
        }
        lemma_post_list_fuel(ns, rank, s, ks, (f1 - 1) as nat, (f2 - 1) as nat);
    }
}

/// Any fuel above the ranks of a list's nodes gives the same post-order.
pub proof fn lemma_post_list_fuel<E>(
    ns: Seq<Option<SceneNode<E>>>,
    rank: spec_fn(int) -> nat,
    s: Set<NodeId>,
    cs: Seq<NodeId>,
    f1: nat,
    f2: nat,
)
    requires
        ranked_on(ns, rank, s),
        forall|j: int| 0 <= j < cs.len() ==> rank(#[trigger] cs[j] as int) < f1 && rank(cs[j] as int) < f2 && s.contains(cs[j]),
    ensures
        post_list(ns, cs, f1) == post_list(ns, cs, f2),
    decreases f1, cs.len() + 1,
{
    if cs.len() > 0 {
        let d = cs.drop_last();
        assert forall|j: int| 0 <= j < d.len() implies rank(#[trigger] d[j] as int) < f1 && rank(d[j] as int) < f2
            && s.contains(d[j]) by {
            assert(d[j] == cs[j]);
        }
        lemma_post_list_fuel(ns, rank, s, d, f1, f2);
        assert(cs.last() == cs[cs.len() - 1]);
        lemma_post_of_fuel(ns, rank, s, cs.last(), f1, f2);
    }
}

/// Two arenas agree on the liveness and children of the nodes in `s`.
pub open spec fn agree_on<E>(ns: Seq<Option<SceneNode<E>>>, ns2: Seq<Option<SceneNode<E>>>, s: Seq<NodeId>) -> bool {
    forall|y: NodeId|
        #![trigger s.contains(y)]
        s.contains(y) ==> live(ns, y as int) == live(ns2, y as int) && (live(ns, y as int) ==> kids(ns, y as int)
            == kids(ns2, y as int))
}

/// Listed children are live.
pub open spec fn kids_live<E>(ns: Seq<Option<SceneNode<E>>>) -> bool {
    forall|x: int, j: int|
        #![trigger kids(ns, x)[j], live(ns, x)]
        live(ns, x) && 0 <= j < kids(ns, x).len() ==> live(ns, kids(ns, x)[j] as int)
}

/// A post-order depends only on the nodes in it.
pub proof fn lemma_frame_of<E>(ns: Seq<Option<SceneNode<E>>>, ns2: Seq<Option<SceneNode<E>>>, x: NodeId, f: nat)
    requires
        kids_live(ns),
        agree_on(ns, ns2, post_of(ns, x, f)),
        f > 0 ==> live(ns, x as int) == live(ns2, x as int),
    ensures
        post_of(ns2, x, f) == post_of(ns, x, f),
    decreases f, 0nat,
{
    if f > 0 && live(ns, x as int) {
        let ks = kids(ns, x as int);
        let g = (f - 1) as nat;
        lemma_post_of_root(ns, x, f);
        assert(kids(ns2, x as int) == ks);
        let pl = post_list(ns, ks, g);
        assert forall|y: NodeId| pl.contains(y) implies post_of(ns, x, f).contains(y) by {
            lemma_concat_contains(pl, seq![x], y);
        }
        assert forall|j: int| g > 0 && 0 <= j < ks.len() implies live(ns, #[trigger] ks[j] as int) == live(ns2, ks[j] as int) by {
            assert(live(ns, kids(ns, x as int)[j] as int));
            lemma_post_of_root(ns, ks[j], g);
            lemma_post_list_mem(ns, ks, g, ks[j]);
            lemma_concat_contains(pl, seq![x], ks[j]);
        }
        lemma_frame_list(ns, ns2, ks, g);
    }
}

/// A list's post-order depends only on the nodes in it.
pub proof fn lemma_frame_list<E>(ns: Seq<Option<SceneNode<E>>>, ns2: Seq<Option<SceneNode<E>>>, cs: Seq<NodeId>, f: nat)
    requires
        kids_live(ns),
        agree_on(ns, ns2, post_list(ns, cs, f)),
        f > 0 ==> forall|j: int| 0 <= j < cs.len() ==> live(ns, #[trigger] cs[j] as int) == live(ns2, cs[j] as int),
    ensures
        post_list(ns2, cs, f) == post_list(ns, cs, f),
    decreases f, cs.len() + 1,
{
    if cs.len() > 0 {
        let d = cs.drop_last();
        let a = post_list(ns, d, f);
        let b = post_of(ns, cs.last(), f);
        assert forall|y: NodeId| a.contains(y) implies post_list(ns, cs, f).contains(y) by {
            lemma_concat_contains(a, b, y);
        }
        assert forall|y: NodeId| b.contains(y) implies post_list(ns, cs, f).contains(y) by {
            lemma_concat_contains(a, b, y);
        }
        assert forall|j: int| f > 0 && 0 <= j < d.len() implies live(ns, #[trigger] d[j] as int) == live(ns2, d[j] as int) by {
            assert(d[j] == cs[j]);
        }
        lemma_frame_list(ns, ns2, d, f);
        assert(cs.last() == cs[cs.len() - 1]);
        lemma_frame_of(ns, ns2, cs.last(), f);
    }
}

/// The subtree of a child lies in the subtree of its parent.
pub proof fn lemma_post_of_child<E>(ns: Seq<Option<SceneNode<E>>>, x: NodeId, j: int, f: nat, y: NodeId)
    requires
        live(ns, x as int),
        f > 0,
        0 <= j < kids(ns, x as int).len(),
        post_of(ns, kids(ns, x as int)[j], (f - 1) as nat).contains(y),
    ensures
        post_of(ns, x, f).contains(y),
{
    let ks = kids(ns, x as int);
    let g = (f - 1) as nat;
    lemma_post_list_mem(ns, ks, g, y);
    lemma_concat_contains(post_list(ns, ks, g), seq![x], y);
}

/// Every node of a subtree but its root is listed as a child by a node of
/// the subtree.
pub proof fn lemma_post_of_parent<E>(ns: Seq<Option<SceneNode<E>>>, x: NodeId, f: nat, y: NodeId)
    requires
        post_of(ns, x, f).contains(y),
        y != x,
    ensures
        exists|z: NodeId|
            #![trigger kids(ns, z as int).contains(y)]
            post_of(ns, x, f).contains(z) && live(ns, z as int) && kids(ns, z as int).contains(y),
    decreases f,
{
    let ks = kids(ns, x as int);
    let g = (f - 1) as nat;
    lemma_concat_contains(post_list(ns, ks, g), seq![x], y);
    assert(seq![x][0] == x);
    assert(post_list(ns, ks, g).contains(y));
    lemma_post_list_mem(ns, ks, g, y);
    let j = choose|j: int| 0 <= j < ks.len() && #[trigger] post_of(ns, ks[j], g).contains(y);
    if y == ks[j] {
        lemma_post_of_root(ns, x, f);
        assert(kids(ns, x as int)[j] == y);
        assert(kids(ns, x as int).contains(y));
    } else {
        lemma_post_of_parent(ns, ks[j], g, y);
        let z = choose|z: NodeId|
            #![trigger kids(ns, z as int).contains(y)]
            post_of(ns, ks[j], g).contains(z) && live(ns, z as int) && kids(ns, z as int).contains(y);
        lemma_post_of_child(ns, x, j, f, z);
    }
}

/// With unique parents, a node listed as a child by two live nodes is listed
/// by the same node twice.
pub proof fn lemma_unique_parent<E>(ns: Seq<Option<SceneNode<E>>>, p1: NodeId, p2: NodeId, c: NodeId)
    requires
        child_links_ok(ns),
        live(ns, p1 as int),
        live(ns, p2 as int),
        kids(ns, p1 as int).contains(c),
        kids(ns, p2 as int).contains(c),
    ensures
        p1 == p2,
{
    let j1 = choose|j: int| 0 <= j < kids(ns, p1 as int).len() && kids(ns, p1 as int)[j] == c;
    let j2 = choose|j: int| 0 <= j < kids(ns, p2 as int).len() && kids(ns, p2 as int)[j] == c;
    assert(node_at(ns, kids(ns, p1 as int)[j1] as int).parent == Some(p1));
    assert(node_at(ns, kids(ns, p2 as int)[j2] as int).parent == Some(p2));
}

/// Two subtrees that share a node are nested.
pub proof fn lemma_comparable<E>(ns: Seq<Option<SceneNode<E>>>, a: NodeId, fa: nat, b: NodeId, fb: nat, y: NodeId)
    requires
        child_links_ok(ns),
        post_of(ns, a, fa).contains(y),
        post_of(ns, b, fb).contains(y),
    ensures
        post_of(ns, b, fb).contains(a) || post_of(ns, a, fa).contains(b),
    decreases fa + fb,
{
    if y == a || y == b {
    } else {
        let ka = kids(ns, a as int);
        let kb = kids(ns, b as int);
        let ga = (fa - 1) as nat;
        let gb = (fb - 1) as nat;
        lemma_concat_contains(post_list(ns, ka, ga), seq![a], y);
        lemma_concat_contains(post_list(ns, kb, gb), seq![b], y);
        assert(seq![a][0] == a);
        assert(seq![b][0] == b);
        lemma_post_list_mem(ns, ka, ga, y);
        lemma_post_list_mem(ns, kb, gb, y);
        let ja = choose|j: int| 0 <= j < ka.len() && #[trigger] post_of(ns, ka[j], ga).contains(y);
        let jb = choose|j: int| 0 <= j < kb.len() && #[trigger] post_of(ns, kb[j], gb).contains(y);
        let ca = ka[ja];
        let cb = kb[jb];
        assert(ka.contains(ca));
        assert(kb.contains(cb));
        lemma_comparable(ns, ca, ga, cb, gb, y);
        if post_of(ns, cb, gb).contains(ca) {
            if ca == cb {
                lemma_unique_parent(ns, a, b, ca);
                lemma_post_of_root(ns, b, fb);
            } else {
                lemma_post_of_parent(ns, cb, gb, ca);
                let z = choose|z: NodeId|
                    #![trigger kids(ns, z as int).contains(ca)]
                    post_of(ns, cb, gb).contains(z) && live(ns, z as int) && kids(ns, z as int).contains(ca);
                lemma_unique_parent(ns, z, a, ca);
                lemma_post_of_child(ns, b, jb, fb, a);
            }
        } else {
            if ca == cb {
                lemma_unique_parent(ns, a, b, ca);
                lemma_post_of_root(ns, a, fa);
            } else {
                lemma_post_of_parent(ns, ca, ga, cb);
                let z = choose|z: NodeId|
                    #![trigger kids(ns, z as int).contains(cb)]
                    post_of(ns, ca, ga).contains(z) && live(ns, z as int) && kids(ns, z as int).contains(cb);
                lemma_unique_parent(ns, z, b, cb);
                lemma_post_of_child(ns, a, ja, fa, b);
            }
        }
    }
}

/// The subtrees of two different children of a node are disjoint.
pub proof fn lemma_siblings_disjoint<E>(
    ns: Seq<Option<SceneNode<E>>>,
    rank: spec_fn(int) -> nat,
    s: Set<NodeId>,
    p: NodeId,
    c1: NodeId,
    f1: nat,
    c2: NodeId,
    f2: nat,
    y: NodeId,
)
    requires
        ranked_on(ns, rank, s),
        s.contains(p),
        child_links_ok(ns),
        live(ns, p as int),
        kids(ns, p as int).contains(c1),
        kids(ns, p as int).contains(c2),
        c1 != c2,
        post_of(ns, c1, f1).contains(y),
    ensures
        !post_of(ns, c2, f2).contains(y),
{
    if post_of(ns, c2, f2).contains(y) {
        lemma_comparable(ns, c1, f1, c2, f2, y);
        let j1 = choose|j: int| 0 <= j < kids(ns, p as int).len() && kids(ns, p as int)[j] == c1;
        let j2 = choose|j: int| 0 <= j < kids(ns, p as int).len() && kids(ns, p as int)[j] == c2;
        assert(rank(kids(ns, p as int)[j1] as int) < rank(p as int));
        assert(rank(kids(ns, p as int)[j2] as int) < rank(p as int));
        if post_of(ns, c2, f2).contains(c1) {
            lemma_post_of_parent(ns, c2, f2, c1);
            let z = choose|z: NodeId|
                #![trigger kids(ns, z as int).contains(c1)]
                post_of(ns, c2, f2).contains(z) && live(ns, z as int) && kids(ns, z as int).contains(c1);
            lemma_unique_parent(ns, z, p, c1);
            lemma_post_of_rank(ns, rank, s, c2, f2, p);
        } else {
            lemma_post_of_parent(ns, c1, f1, c2);
            let z = choose|z: NodeId|
                #![trigger kids(ns, z as int).contains(c2)]
                post_of(ns, c1, f1).contains(z) && live(ns, z as int) && kids(ns, z as int).contains(c2);
            lemma_unique_parent(ns, z, p, c2);
            lemma_post_of_rank(ns, rank, s, c1, f1, p);
        }
    }
}

/// The first occurrence that `remove_first` removes.
pub proof fn lemma_remove_first_index(s: Seq<NodeId>, v: NodeId) -> (i: int)
    requires
        s.contains(v),
    ensures
        0 <= i < s.len(),
        s[i] == v,
        forall|j: int| 0 <= j < i ==> s[j] != v,
        remove_first(s, v) == s.remove(i),
{
    let k = choose|k: int| 0 <= k < s.len() && s[k] == v;
    lemma_first_exists(s, v, k);
    let i = choose|i: int| 0 <= i < s.len() && s[i] == v && forall|j: int| 0 <= j < i ==> s[j] != v;
    i
}

proof fn lemma_first_exists(s: Seq<NodeId>, v: NodeId, k: int)
    requires
        0 <= k < s.len(),
        s[k] == v,
    ensures
        exists|i: int| 0 <= i < s.len() && s[i] == v && forall|j: int| 0 <= j < i ==> s[j] != v,
    decreases k,
{
    if exists|j: int| 0 <= j < k && s[j] == v {
        let j = choose|j: int| 0 <= j < k && s[j] == v;
        lemma_first_exists(s, v, j);
    } else {
        assert(0 <= k < s.len() && s[k] == v && forall|j: int| 0 <= j < k ==> s[j] != v);
    }
}

/// Removing a value keeps only elements that were there.
pub proof fn lemma_remove_first_subset(s: Seq<NodeId>, v: NodeId, c: NodeId)
    requires
        remove_first(s, v).contains(c),
    ensures
        s.contains(c),
{
    if s.contains(v) {
        let i = lemma_remove_first_index(s, v);
        let r = s.remove(i);
        let k = choose|k: int| 0 <= k < r.len() && r[k] == c;
        if k < i {
            assert(s[k] == c);
        } else {
            assert(s[k + 1] == c);
        }
    }
}

/// Removing a value keeps the other elements.
pub proof fn lemma_remove_first_keeps(s: Seq<NodeId>, v: NodeId, c: NodeId)
    requires
        s.contains(c),
        c != v,
    ensures
        remove_first(s, v).contains(c),
{
    if s.contains(v) {
        let i = lemma_remove_first_index(s, v);
        let r = s.remove(i);
        let k = choose|k: int| 0 <= k < s.len() && s[k] == c;
        if k < i {
            assert(r[k] == c);
        } else {
            assert(k != i);
            assert(r[k - 1] == c);
        }
    }
}

/// Removing a value from a list without duplicates leaves none, and leaves
/// the value out.
pub proof fn lemma_remove_first_nodup(s: Seq<NodeId>, v: NodeId)
    requires
        s.no_duplicates(),
    ensures
        remove_first(s, v).no_duplicates(),
        !remove_first(s, v).contains(v),
{
    if s.contains(v) {
        let i = lemma_remove_first_index(s, v);
        let r = s.remove(i);
        assert forall|a: int, b: int| 0 <= a < r.len() && 0 <= b < r.len() && a != b implies r[a] != r[b] by {
            let sa = if a < i { a } else { a + 1 };
            let sb = if b < i { b } else { b + 1 };
            assert(r[a] == s[sa]);
            assert(r[b] == s[sb]);
        }
        if r.contains(v) {
            let k = choose|k: int| 0 <= k < r.len() && r[k] == v;
            let sk = if k < i { k } else { k + 1 };
            assert(s[sk] == v);
        }
    }
}

/// Removing the first element of a list that starts with it drops the head.
pub proof fn lemma_remove_first_head(s: Seq<NodeId>, v: NodeId)
    requires
        s.len() > 0,
        s[0] == v,
    ensures
        remove_first(s, v) == s.subrange(1, s.len() as int),
{
    assert(s.contains(v));
    let i = lemma_remove_first_index(s, v);
    assert(i == 0);
    assert(s.remove(0) =~= s.subrange(1, s.len() as int));
}

/// Concatenating two disjoint lists without duplicates gives none.
pub proof fn lemma_concat_nodup(a: Seq<NodeId>, b: Seq<NodeId>)
    requires
        a.no_duplicates(),
        b.no_duplicates(),
        forall|y: NodeId| a.contains(y) ==> !b.contains(y),
    ensures
        (a + b).no_duplicates(),
{
    let c = a + b;
    assert forall|i: int, j: int| 0 <= i < c.len() && 0 <= j < c.len() && i != j implies c[i] != c[j] by {
        if i < a.len() && j >= a.len() {
            assert(a.contains(c[i]));
            assert(b[j - a.len()] == c[j]);
            assert(b.contains(c[j]));
        } else if j < a.len() && i >= a.len() {
            assert(a.contains(c[j]));
            assert(b[i - a.len()] == c[i]);
            assert(b.contains(c[i]));
        } else if i < a.len() {
            assert(c[i] == a[i] && c[j] == a[j]);
        } else {
            assert(c[i] == b[i - a.len()] && c[j] == b[j - a.len()]);
        }
    }
}

/// A subtree names each node once.
pub proof fn lemma_post_of_nodup<E>(ns: Seq<Option<SceneNode<E>>>, rank: spec_fn(int) -> nat, s: Set<NodeId>, x: NodeId, f: nat)
    requires
        ranked_on(ns, rank, s),
        s.contains(x),
        child_links_ok(ns),
    ensures
        post_of(ns, x, f).no_duplicates(),
    decreases f, 0nat,
{
    if f > 0 && live(ns, x as int) {
        let ks = kids(ns, x as int);
        let g = (f - 1) as nat;
        assert forall|j: int| 0 <= j < ks.len() implies kids(ns, x as int).contains(#[trigger] ks[j]) by {}
        lemma_post_list_nodup(ns, rank, s, x, ks, g);
        assert forall|y: NodeId| post_list(ns, ks, g).contains(y) implies !seq![x].contains(y) by {
            assert forall|j: int| 0 <= j < ks.len() implies rank(#[trigger] ks[j] as int) < rank(x as int) && s.contains(ks[j]) by {
                assert(rank(kids(ns, x as int)[j] as int) < rank(x as int));
            }
            lemma_post_list_rank(ns, rank, s, ks, g, rank(x as int), y);
            if seq![x].contains(y) {
                assert(seq![x][0] == x);
            }
        }
        assert(seq![x].no_duplicates());
        lemma_concat_nodup(post_list(ns, ks, g), seq![x]);
    }
}

/// The subtrees of distinct children of one node name each node once.
pub proof fn lemma_post_list_nodup<E>(
    ns: Seq<Option<SceneNode<E>>>,
    rank: spec_fn(int) -> nat,
    s: Set<NodeId>,
    p: NodeId,
    cs: Seq<NodeId>,
    f: nat,
)
    requires
        ranked_on(ns, rank, s),
        s.contains(p),
        child_links_ok(ns),
        live(ns, p as int),
        cs.no_duplicates(),
        forall|j: int| 0 <= j < cs.len() ==> kids(ns, p as int).contains(#[trigger] cs[j]),
    ensures
        post_list(ns, cs, f).no_duplicates(),
    decreases f, cs.len() + 1,
{
    if cs.len() > 0 {
        let d = cs.drop_last();
        let l = cs.last();
        assert forall|j: int| 0 <= j < d.len() implies kids(ns, p as int).contains(#[trigger] d[j]) by {
            assert(d[j] == cs[j]);
        }
        assert(d.no_duplicates()) by {
            assert forall|i: int, j: int| 0 <= i < d.len() && 0 <= j < d.len() && i != j implies d[i] != d[j] by {
                assert(d[i] == cs[i] && d[j] == cs[j]);
            }
        }
        lemma_post_list_nodup(ns, rank, s, p, d, f);
        assert(kids(ns, p as int).contains(cs[cs.len() - 1]));
        let jl = choose|jl: int| 0 <= jl < kids(ns, p as int).len() && kids(ns, p as int)[jl] == l;
        assert(s.contains(kids(ns, p as int)[jl]));
        lemma_post_of_nodup(ns, rank, s, l, f);
        assert forall|y: NodeId| post_list(ns, d, f).contains(y) implies !post_of(ns, l, f).contains(y) by {
            lemma_post_list_mem(ns, d, f, y);
            let j = choose|j: int| 0 <= j < d.len() && #[trigger] post_of(ns, d[j], f).contains(y);
            assert(d[j] == cs[j]);
            assert(cs[j] != cs[cs.len() - 1]);
            lemma_siblings_disjoint(ns, rank, s, p, d[j], f, l, f, y);
        }
        lemma_concat_nodup(post_list(ns, d, f), post_of(ns, l, f));
    }
}

/// With enough fuel, a subtree holds the children of its nodes.
pub proof fn lemma_post_of_closed<E>(
    ns: Seq<Option<SceneNode<E>>>,
    rank: spec_fn(int) -> nat,
    s: Set<NodeId>,
    x: NodeId,
    f: nat,
    y: NodeId,
    k: NodeId,
)
    requires
        ranked_on(ns, rank, s),
        s.contains(x),
        kids_live(ns),
        f > rank(x as int),
        post_of(ns, x, f).contains(y),
        kids(ns, y as int).contains(k),
    ensures
        post_of(ns, x, f).contains(k),
    decreases f,
{
    let ks = kids(ns, x as int);
    let g = (f - 1) as nat;
    lemma_post_of_rank(ns, rank, s, x, f, y);
    if y == x {
        let j = choose|j: int| 0 <= j < ks.len() && ks[j] == k;
        assert(rank(kids(ns, x as int)[j] as int) < rank(x as int));
        assert(live(ns, kids(ns, x as int)[j] as int));
        lemma_post_of_root(ns, k, g);
        lemma_post_of_child(ns, x, j, f, k);
    } else {
        lemma_concat_contains(post_list(ns, ks, g), seq![x], y);
        assert(seq![x][0] == x);
        lemma_post_list_mem(ns, ks, g, y);
        let j = choose|j: int| 0 <= j < ks.len() && #[trigger] post_of(ns, ks[j], g).contains(y);
        assert(rank(kids(ns, x as int)[j] as int) < rank(x as int));
        lemma_post_of_closed(ns, rank, s, ks[j], g, y, k);
        lemma_post_of_child(ns, x, j, f, k);
    }
}

/// With any ranking of a set that holds `x`, fuel above `x`'s rank gives
/// its subtree.
pub proof fn lemma_subtree_fuel<E>(ns: Seq<Option<SceneNode<E>>>, rank: spec_fn(int) -> nat, s: Set<NodeId>, x: NodeId, f: nat)
    requires
        ranked_on(ns, rank, s),
        s.contains(x),
        f > rank(x as int),
    ensures
        subtree(ns, x) == post_of(ns, x, f),
{
    let (r2, s2) = choose|r: spec_fn(int) -> nat, t: Set<NodeId>| ranked_on(ns, r, t) && t.contains(x);
    assert(ranked_on(ns, r2, s2) && s2.contains(x));
    let big = (f + r2(x as int) + 1) as nat;
    lemma_post_of_fuel(ns, rank, s, x, f, big);
    lemma_post_of_fuel(ns, r2, s2, x, (r2(x as int) + 1) as nat, big);
}

} // verus!
