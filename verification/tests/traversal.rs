use director_core::scene::{retarget_roots, SceneGraph};
use director_core::systems::renderer::sort_by_z;

fn tree() -> (SceneGraph<&'static str>, [usize; 5]) {
    let mut g = SceneGraph::new();
    let root = g.add_node("root");
    let a = g.add_node("a");
    let b = g.add_node("b");
    let a1 = g.add_node("a1");
    let m = g.add_node("mask");
    g.add_child(root, a);
    g.add_child(root, b);
    g.add_child(a, a1);
    (g, [root, a, b, a1, m])
}

#[test]
fn visit_goes_depth_first_last_child_first() {
    let (g, [root, a, b, a1, _m]) = tree();
    let v = g.visit_from(&vec![(root, 7u32)]);
    assert_eq!(v, vec![(root, 7), (b, 7), (a, 7), (a1, 7)]);
}

#[test]
fn visit_follows_masks_before_children() {
    let (mut g, [root, a, b, a1, m]) = tree();
    g.get_node_mut(a).unwrap().mask_node = Some(m);
    let v = g.visit_from(&vec![(root, 1u8)]);
    assert_eq!(v, vec![(root, 1), (b, 1), (a, 1), (m, 1), (a1, 1)]);
}

#[test]
fn visit_takes_the_last_root_first_and_skips_missing_nodes() {
    let (g, [root, a, b, a1, m]) = tree();
    let v = g.visit_from(&vec![(a, 10i64), (99, 5), (m, 20)]);
    assert_eq!(v, vec![(m, 20), (a, 10), (a1, 10)]);
    let _ = (root, b);
}

#[test]
fn visit_of_a_node_reached_twice_lists_both_visits() {
    let (g, [root, a, _b, a1, _m]) = tree();
    let v = g.visit_from(&vec![(root, 1u8), (a, 2u8)]);
    // The later root is popped first; the earlier one reaches `a` again.
    assert_eq!(v[0], (a, 2));
    assert_eq!(v[1], (a1, 2));
    let last_a = v.iter().rev().find(|e| e.0 == a).unwrap();
    assert_eq!(last_a.1, 1);
    let _ = root;
}

#[test]
fn wrapping_a_child_moves_it_under_the_wrapper() {
    let (mut g, [root, a, b, a1, _m]) = tree();
    let w = g.wrap_node(a, "effect");
    assert_eq!(w, 5);
    assert_eq!(g.get_node(root).unwrap().children, vec![b, w]);
    assert_eq!(g.get_node(w).unwrap().children, vec![a]);
    assert_eq!(g.get_node(w).unwrap().parent, Some(root));
    assert_eq!(g.get_node(w).unwrap().element, "effect");
    assert_eq!(g.get_node(a).unwrap().parent, Some(w));
    assert_eq!(g.get_node(a).unwrap().children, vec![a1]);
}

#[test]
fn wrapping_a_root_and_retargeting_the_timeline() {
    let (mut g, [root, _a, _b, _a1, _m]) = tree();
    let w = g.wrap_node(root, "effect");
    assert_eq!(g.get_node(w).unwrap().parent, None);
    assert_eq!(g.get_node(root).unwrap().parent, Some(w));
    let mut roots = vec![root, 3, root];
    retarget_roots(&mut roots, root, w);
    assert_eq!(roots, vec![w, 3, w]);
}

#[test]
fn wrapping_reuses_a_freed_slot_and_missing_nodes_are_left_alone() {
    let (mut g, [root, a, _b, a1, _m]) = tree();
    g.destroy_node(a1);
    let w = g.wrap_node(a, "effect");
    assert_eq!(w, a1);
    assert_eq!(g.wrap_node(42, "x"), 42);
    assert_eq!(g.nodes.len(), 5);
    let _ = root;
}

#[test]
fn render_order_sorts_by_z_and_keeps_ties_in_list_order() {
    let mut g = SceneGraph::new();
    let root = g.add_node("root");
    let c: Vec<usize> = (0..5).map(|i| g.add_node(["p", "q", "r", "s", "t"][i])).collect();
    let zs = [2, -1, 2, 0, -1];
    for i in 0..5 {
        g.add_child(root, c[i]);
        g.get_node_mut(c[i]).unwrap().z_index = zs[i];
    }
    g.add_child(root, 77);
    let order = g.render_order(root);
    assert_eq!(order, vec![(c[1], -1), (c[4], -1), (c[3], 0), (c[0], 2), (c[2], 2)]);
    assert!(g.render_order(50).is_empty());
}

#[test]
fn sort_by_z_on_plain_entries() {
    assert_eq!(sort_by_z(&vec![]), vec![]);
    assert_eq!(sort_by_z(&vec![(4, 3), (1, 1), (9, 3), (2, 1)]), vec![(1, 1), (2, 1), (4, 3), (9, 3)]);
}

#[test]
fn cycle_check_on_trees_and_masks() {
    let (mut g, [root, a, b, a1, _m]) = tree();
    assert!(g.links_are_acyclic(false));
    assert!(g.links_are_acyclic(true));
    // A mask pointing back up makes a cycle only when masks count.
    g.get_node_mut(a1).unwrap().mask_node = Some(root);
    assert!(g.links_are_acyclic(false));
    assert!(!g.links_are_acyclic(true));
    // A mask naming no node is no link.
    g.get_node_mut(a1).unwrap().mask_node = Some(40);
    assert!(g.links_are_acyclic(true));
    // A child link back to an ancestor is a cycle either way.
    g.get_node_mut(b).unwrap().children.push(root);
    assert!(!g.links_are_acyclic(false));
    assert!(!g.links_are_acyclic(true));
    let _ = a;
}

#[test]
fn cycle_check_finds_self_links() {
    let mut g = SceneGraph::new();
    let x = g.add_node(0u8);
    assert!(g.links_are_acyclic(true));
    g.get_node_mut(x).unwrap().mask_node = Some(x);
    assert!(!g.links_are_acyclic(true));
    assert!(g.links_are_acyclic(false));
}

#[test]
fn cycle_check_from_roots_ignores_cycles_they_do_not_reach() {
    let (mut g, [root, a, b, a1, m]) = tree();
    // `m` masks itself: a cycle, but not one that `root` reaches.
    g.get_node_mut(m).unwrap().mask_node = Some(m);
    assert!(!g.links_are_acyclic(true));
    assert!(g.links_acyclic_from(&vec![root], true));
    assert!(!g.links_acyclic_from(&vec![root, m], true));
    assert!(g.links_acyclic_from(&vec![m], false));
    // The visit from `root` runs and never meets `m`.
    let v = g.visit_from(&vec![(root, 3u8)]);
    assert_eq!(v, vec![(root, 3), (b, 3), (a, 3), (a1, 3)]);
    // Once `a1` masks with `m`, the cycle is reached.
    g.get_node_mut(a1).unwrap().mask_node = Some(m);
    assert!(!g.links_acyclic_from(&vec![root], true));
    assert!(g.links_acyclic_from(&vec![root], false));
    // Roots that name no node reach nothing.
    assert!(g.links_acyclic_from(&vec![77], true));
    assert!(g.links_acyclic_from(&vec![], true));
}
