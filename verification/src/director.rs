//! The director's per-frame visit of the scene graph: from the roots of the
//! active scenes, every node reachable through child and mask links is
//! visited, each time with the local time of the root it was reached from.
//!
//! The visit runs on a stack: a node's children are pushed in list order and
//! its mask node after them, so the mask is visited first and the children
//! last-to-first. A node reached more than once is visited each time; the
//! last visit decides its local time.

use crate::scene::{kids, live, node_at, NodeId, SceneGraph, SceneNode};
use crate::scene_check::{acyclic_from, lemma_mask_links_ranked_on};
use vstd::prelude::*;

verus! {

/// The nodes that a visit of `x` pushes, in push order: its children, then
/// its mask node.
pub open spec fn successors<E>(ns: Seq<Option<SceneNode<E>>>, x: NodeId) -> Seq<NodeId> {
    match node_at(ns, x as int).mask_node {
        Some(m) => kids(ns, x as int).push(m),
        None => kids(ns, x as int),
    }
}

/// Every link (child or mask) goes from a node to one of strictly lower rank.
pub open spec fn links_ranked<E>(ns: Seq<Option<SceneNode<E>>>, rank: spec_fn(int) -> nat) -> bool {
    forall|x: NodeId, j: int|
        #![trigger successors(ns, x)[j]]
        live(ns, x as int) && 0 <= j < successors(ns, x).len() ==> rank(successors(ns, x)[j] as int) < rank(x as int)
}

/// The child and mask links contain no cycle.
pub open spec fn links_acyclic<E>(ns: Seq<Option<SceneNode<E>>>) -> bool {
    exists|rank: spec_fn(int) -> nat| links_ranked(ns, rank)
}

/// Every link out of a node of `s` leads into `s`, to a node of strictly
/// lower rank.
pub open spec fn links_ranked_on<E>(ns: Seq<Option<SceneNode<E>>>, rank: spec_fn(int) -> nat, s: Set<NodeId>) -> bool {
    forall|x: NodeId, j: int|
        #![trigger s.contains(x), successors(ns, x)[j]]
        s.contains(x) && live(ns, x as int) && 0 <= j < successors(ns, x).len() ==> s.contains(successors(ns, x)[j])
            && rank(successors(ns, x)[j] as int) < rank(x as int)
}

/// The set `s` holds the node of every root.
pub open spec fn holds_roots<T>(s: Set<NodeId>, roots: Seq<(NodeId, T)>) -> bool {
    forall|i: int| 0 <= i < roots.len() ==> s.contains(#[trigger] roots[i].0)
}

/// The nodes of a stack of roots.
pub open spec fn root_ids<T>(roots: Seq<(NodeId, T)>) -> Seq<NodeId> {
    roots.map_values(|r: (NodeId, T)| r.0)
}

/// The entries for the nodes `cs`, each with the payload `t`.
pub open spec fn with_payload<T>(cs: Seq<NodeId>, t: T) -> Seq<(NodeId, T)> {
    cs.map_values(|c: NodeId| (c, t))
}

/// The visits that popping `(x, t)` leads to: `x` itself (when it is a node),
/// then the visits of what it pushes, last pushed first. `fuel` bounds the
/// depth.
pub open spec fn visits_of<E, T>(ns: Seq<Option<SceneNode<E>>>, x: NodeId, t: T, fuel: nat) -> Seq<(NodeId, T)>
    decreases fuel, 0nat,
{
    if fuel == 0 || !live(ns, x as int) {
        Seq::empty()
    } else {
        seq![(x, t)] + visits_of_stack(ns, with_payload(successors(ns, x), t), (fuel - 1) as nat)
    }
}

/// The visits that a stack of entries leads to, top (last) entry first.
pub open spec fn visits_of_stack<E, T>(ns: Seq<Option<SceneNode<E>>>, st: Seq<(NodeId, T)>, fuel: nat) -> Seq<
    (NodeId, T),
>
    decreases fuel, st.len() + 1,
{
    if st.len() == 0 {
        Seq::empty()
    } else {
        visits_of(ns, st.last().0, st.last().1, fuel) + visits_of_stack(ns, st.drop_last(), fuel)
    }
}

/// The visits that a stack leads to when every entry gets enough fuel.
pub open spec fn visits_ranked<E, T>(ns: Seq<Option<SceneNode<E>>>, st: Seq<(NodeId, T)>, rank: spec_fn(int) -> nat) -> Seq<
    (NodeId, T),
>
    decreases st.len(),
{
    if st.len() == 0 {
        Seq::empty()
    } else {
        visits_of(ns, st.last().0, st.last().1, rank(st.last().0 as int) + 1) + visits_ranked(ns, st.drop_last(), rank)
    }
}

/// A ranking of the links reachable from `roots`, when no cycle of links is
/// reachable from them.
pub open spec fn roots_rank<E, T>(ns: Seq<Option<SceneNode<E>>>, roots: Seq<(NodeId, T)>) -> (spec_fn(int) -> nat, Set<NodeId>) {
    choose|rank: spec_fn(int) -> nat, s: Set<NodeId>| links_ranked_on(ns, rank, s) && holds_roots(s, roots)
}

/// The visits, in order, that the director makes from the stack of roots
/// `roots` (the last root is visited first).
pub open spec fn visits<E, T>(ns: Seq<Option<SceneNode<E>>>, roots: Seq<(NodeId, T)>) -> Seq<(NodeId, T)> {
    visits_ranked(ns, roots, roots_rank(ns, roots).0)
}

/// When no cycle of links is reachable from the roots, `roots_rank` ranks
/// them.
pub proof fn lemma_roots_rank<E, T>(ns: Seq<Option<SceneNode<E>>>, roots: Seq<(NodeId, T)>)
    requires
        acyclic_from(ns, root_ids(roots), true),
    ensures
        links_ranked_on(ns, roots_rank(ns, roots).0, roots_rank(ns, roots).1),
        holds_roots(roots_rank(ns, roots).1, roots),
{
    let (rank, s) = choose|rank: spec_fn(int) -> nat, s: Set<NodeId>|
        crate::scene_check::ranked_links_on(ns, rank, s, true) && forall|i: int|
            0 <= i < root_ids(roots).len() ==> s.contains(#[trigger] root_ids(roots)[i]);
    lemma_mask_links_ranked_on(ns, rank, s);
    assert forall|i: int| 0 <= i < roots.len() implies s.contains(#[trigger] roots[i].0) by {
        assert(root_ids(roots)[i] == roots[i].0);
    }
    assert(links_ranked_on(ns, rank, s) && holds_roots(s, roots));
}

/// Fuel beyond a node's rank changes nothing.
pub(crate) proof fn lemma_visits_of_fuel<E, T>(
    ns: Seq<Option<SceneNode<E>>>,
    rank: spec_fn(int) -> nat,
    s: Set<NodeId>,
    x: NodeId,
    t: T,
    f1: nat,
    f2: nat,
)
    requires
        links_ranked_on(ns, rank, s),
        s.contains(x),
        f1 > rank(x as int),
        f2 > rank(x as int),
    ensures
        visits_of(ns, x, t, f1) == visits_of(ns, x, t, f2),
    decreases rank(x as int) + 1, 0nat,
{
    if live(ns, x as int) {
        let st = with_payload(successors(ns, x), t);
        assert forall|i: int| 0 <= i < st.len() implies rank(#[trigger] st[i].0 as int) < rank(x as int) && s.contains(
            st[i].0,
        ) by {
            assert(st[i].0 == successors(ns, x)[i]);
        }
        lemma_visits_of_stack_fuel(ns, rank, s, st, (f1 - 1) as nat, (f2 - 1) as nat, rank(x as int));
    }
}

/// The same for a stack whose entries all rank below `b`.
pub(crate) proof fn lemma_visits_of_stack_fuel<E, T>(
    ns: Seq<Option<SceneNode<E>>>,
    rank: spec_fn(int) -> nat,
    s: Set<NodeId>,
    st: Seq<(NodeId, T)>,
    f1: nat,
    f2: nat,
    b: nat,
)
    requires
        links_ranked_on(ns, rank, s),
        forall|i: int| 0 <= i < st.len() ==> rank(#[trigger] st[i].0 as int) < b && s.contains(st[i].0),
        b <= f1,
        b <= f2,
    ensures
        visits_of_stack(ns, st, f1) == visits_of_stack(ns, st, f2),
        visits_of_stack(ns, st, f1) == visits_ranked(ns, st, rank),
    decreases b, st.len() + 1,
{
    if st.len() > 0 {
        let top = st.last();
        assert(rank(st[st.len() - 1].0 as int) < b && s.contains(st[st.len() - 1].0));
        lemma_visits_of_fuel(ns, rank, s, top.0, top.1, f1, f2);
        lemma_visits_of_fuel(ns, rank, s, top.0, top.1, f1, rank(top.0 as int) + 1);
        assert forall|i: int| 0 <= i < st.drop_last().len() implies rank(#[trigger] st.drop_last()[i].0 as int) < b
            && s.contains(st.drop_last()[i].0) by {
            assert(st.drop_last()[i] == st[i]);
        }
        lemma_visits_of_stack_fuel(ns, rank, s, st.drop_last(), f1, f2, b);
    }
}

/// Stacking `b` on top of `a` visits `b`'s entries first.
proof fn lemma_visits_ranked_concat<E, T>(
    ns: Seq<Option<SceneNode<E>>>,
    rank: spec_fn(int) -> nat,
    a: Seq<(NodeId, T)>,
    b: Seq<(NodeId, T)>,
)
    ensures
        visits_ranked(ns, a + b, rank) == visits_ranked(ns, b, rank) + visits_ranked(ns, a, rank),
    decreases b.len(),
{
    if b.len() == 0 {
        assert(a + b =~= a);
        assert(visits_ranked(ns, b, rank) + visits_ranked(ns, a, rank) =~= visits_ranked(ns, a, rank));
    } else {
        assert((a + b).drop_last() =~= a + b.drop_last());
        assert((a + b).last() == b.last());
        lemma_visits_ranked_concat(ns, rank, a, b.drop_last());
        let v = visits_of(ns, b.last().0, b.last().1, rank(b.last().0 as int) + 1);
        assert(v + (visits_ranked(ns, b.drop_last(), rank) + visits_ranked(ns, a, rank)) =~= (v
            + visits_ranked(ns, b.drop_last(), rank)) + visits_ranked(ns, a, rank));
    }
}

impl<E> SceneGraph<E> {
    /// Visits the graph from a stack of roots, each with a payload (the local
    /// time of its scene), and returns the visits in order: a node is visited
    /// when it is popped and names a node; it then pushes its children (in
    /// list order) and its mask node, with the same payload.
    pub fn visit_from<T: Copy>(&self, roots: &Vec<(NodeId, T)>) -> (r: Vec<(NodeId, T)>)
        requires
            acyclic_from(self.nodes@, root_ids(roots@), true),
        ensures
            r@ == visits(self.nodes@, roots@),
    {
        let ghost ns = self.nodes@;
        proof {
            lemma_roots_rank(ns, roots@);
        }
        let ghost rank = roots_rank(ns, roots@).0;
        let ghost s = roots_rank(ns, roots@).1;
        let ghost total = visits_ranked(ns, roots@, rank);
        let mut stack: Vec<(NodeId, T)> = Vec::new();
        let mut k: usize = 0;
        while k < roots.len()
            invariant
                k <= roots@.len(),
                stack@ == roots@.take(k as int),
            decreases roots@.len() - k,
        {
            stack.push(roots[k]);
            k += 1;
            proof {
                assert(stack@ =~= roots@.take(k as int));
            }
        }
        proof {
            assert(roots@.take(roots@.len() as int) =~= roots@);
            assert forall|i: int| 0 <= i < stack@.len() implies s.contains(#[trigger] stack@[i].0) by {
                assert(holds_roots(s, roots@));
                assert(stack@[i] == roots@[i]);
            }
        }
        let mut out: Vec<(NodeId, T)> = Vec::new();
        proof {
            assert(out@ + visits_ranked(ns, stack@, rank) =~= total);
        }
        while stack.len() > 0
            invariant
                self.nodes@ == ns,
                links_ranked_on(ns, rank, s),
                forall|i: int| 0 <= i < stack@.len() ==> s.contains(#[trigger] stack@[i].0),
                total == visits_ranked(ns, roots@, rank),
                out@ + visits_ranked(ns, stack@, rank) == total,
            decreases total.len() - out@.len(), stack@.len(),
        {
            let ghost st0 = stack@;
            let top = stack.pop().unwrap();
            proof {
                assert(st0.drop_last() =~= stack@);
                assert(top == st0.last());
            }
            let (id, t) = top;
            match self.get_node(id) {
                Some(node) => {
                    let ghost rest = stack@;
                    out.push((id, t));
                    let cs = &node.children;
                    let mut j: usize = 0;
                    while j < cs.len()
                        invariant
                            j <= cs@.len(),
                            cs@ == kids(ns, id as int),
                            stack@ == rest + with_payload(cs@.take(j as int), t),
                        decreases cs@.len() - j,
                    {
                        stack.push((cs[j], t));
                        j += 1;
                        proof {
                            assert(stack@ =~= rest + with_payload(cs@.take(j as int), t));
                        }
                    }
                    match node.mask_node {
                        Some(m) => {
                            stack.push((m, t));
                        },
                        None => {},
                    }
                    proof {
                        assert(cs@.take(cs@.len() as int) =~= cs@);
                        let pushed = with_payload(successors(ns, id), t);
                        assert(stack@ =~= rest + pushed);
                        assert(live(ns, id as int));
                        assert(s.contains(id)) by {
                            assert(st0[st0.len() - 1] == top);
                        }
                        assert forall|i: int| 0 <= i < pushed.len() implies rank(#[trigger] pushed[i].0 as int) < rank(
                            id as int,
                        ) && s.contains(pushed[i].0) by {
                            assert(pushed[i].0 == successors(ns, id)[i]);
                        }
                        lemma_visits_of_stack_fuel(ns, rank, s, pushed, rank(id as int), rank(id as int), rank(id as int));
                        assert forall|i: int| 0 <= i < stack@.len() implies s.contains(#[trigger] stack@[i].0) by {
                            if i < rest.len() {
                                assert(stack@[i] == rest[i]);
                                assert(rest[i] == st0[i]);
                            } else {
                                assert(stack@[i] == pushed[i - rest.len()]);
                            }
                        }
                        lemma_visits_ranked_concat(ns, rank, rest, pushed);
                        assert(visits_of(ns, id, t, rank(id as int) + 1) == seq![(id, t)] + visits_ranked(ns, pushed, rank));
                        assert(out@ + visits_ranked(ns, stack@, rank) =~= total);
                        assert(total.len() >= out@.len());
                    }
                },
                None => {
                    proof {
                        assert forall|i: int| 0 <= i < stack@.len() implies s.contains(#[trigger] stack@[i].0) by {
                            assert(stack@[i] == st0[i]);
                        }
                        assert(visits_of(ns, id, t, rank(id as int) + 1) == Seq::<(NodeId, T)>::empty());
                        assert(visits_ranked(ns, st0, rank) =~= visits_ranked(ns, stack@, rank));
                    }
                },
            }
        }
        proof {
            assert(out@ =~= total);
        }
        out
    }
}

} // verus!
