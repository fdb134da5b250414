use director_core::scene::{SceneGraph, SceneNode};

fn live_ids(g: &SceneGraph<&'static str>) -> Vec<usize> {
    let mut v = Vec::new();
    for (i, n) in g.nodes.iter().enumerate() {
        if n.is_some() {
            v.push(i);
        }
    }
    v
}

#[test]
fn new_graph_is_empty() {
    let g: SceneGraph<u8> = SceneGraph::new();
    assert!(g.nodes.is_empty());
    assert!(g.free_indices.is_empty());
}

#[test]
fn fresh_node_has_no_links() {
    let n = SceneNode::new(7u8);
    assert_eq!(n.element, 7);
    assert!(n.children.is_empty());
    assert_eq!(n.parent, None);
    assert_eq!(n.mask_node, None);
    assert_eq!(n.z_index, 0);
    assert!(n.dirty_style);
}

#[test]
fn add_node_appends_slots_in_order() {
    let mut g = SceneGraph::new();
    assert_eq!(g.add_node("a"), 0);
    assert_eq!(g.add_node("b"), 1);
    assert_eq!(g.add_node("c"), 2);
    assert_eq!(g.nodes.len(), 3);
}

#[test]
fn add_child_links_both_ways() {
    let mut g = SceneGraph::new();
    let root = g.add_node("root");
    let a = g.add_node("a");
    let b = g.add_node("b");
    g.add_child(root, a);
    g.add_child(root, b);
    assert_eq!(g.get_node(root).unwrap().children, vec![a, b]);
    assert_eq!(g.get_node(a).unwrap().parent, Some(root));
    assert_eq!(g.get_node(b).unwrap().parent, Some(root));
}

#[test]
fn add_child_with_missing_nodes_changes_only_the_live_side() {
    let mut g = SceneGraph::new();
    let root = g.add_node("root");
    g.add_child(root, 9);
    assert_eq!(g.get_node(root).unwrap().children, vec![9]);
    g.add_child(7, root);
    assert_eq!(g.get_node(root).unwrap().parent, Some(7));
    assert_eq!(g.nodes.len(), 1);
}

#[test]
fn remove_child_removes_first_occurrence_only() {
    let mut g = SceneGraph::new();
    let root = g.add_node("root");
    let a = g.add_node("a");
    let b = g.add_node("b");
    g.add_child(root, a);
    g.add_child(root, b);
    g.add_child(root, a);
    g.remove_child(root, a);
    assert_eq!(g.get_node(root).unwrap().children, vec![b, a]);
    // The child keeps its parent field.
    assert_eq!(g.get_node(a).unwrap().parent, Some(root));
}

#[test]
fn remove_then_add_child_restores_the_children() {
    let mut g = SceneGraph::new();
    let root = g.add_node("root");
    let a = g.add_node("a");
    g.add_child(root, a);
    let before = g.get_node(root).unwrap().children.clone();
    g.remove_child(root, a);
    assert!(g.get_node(root).unwrap().children.is_empty());
    g.add_child(root, a);
    assert_eq!(g.get_node(root).unwrap().children, before);
}

#[test]
fn destroy_node_frees_subtree_in_post_order() {
    let mut g = SceneGraph::new();
    let root = g.add_node("root");
    let a = g.add_node("a");
    let a1 = g.add_node("a1");
    let a2 = g.add_node("a2");
    let b = g.add_node("b");
    g.add_child(root, a);
    g.add_child(a, a1);
    g.add_child(a, a2);
    g.add_child(root, b);
    g.destroy_node(a);
    assert_eq!(g.free_indices, vec![a1, a2, a]);
    assert_eq!(live_ids(&g), vec![root, b]);
    assert_eq!(g.get_node(root).unwrap().children, vec![b]);
    assert!(g.get_node(a).is_none());
    assert!(g.get_node(a1).is_none());
}

#[test]
fn destroyed_slots_are_reused_last_freed_first() {
    let mut g = SceneGraph::new();
    let root = g.add_node("root");
    let a = g.add_node("a");
    let a1 = g.add_node("a1");
    g.add_child(root, a);
    g.add_child(a, a1);
    g.destroy_node(a);
    assert_eq!(g.add_node("x"), a);
    assert_eq!(g.add_node("y"), a1);
    assert_eq!(g.add_node("z"), 3);
    let x = g.get_node(a).unwrap();
    assert_eq!(x.element, "x");
    assert!(x.children.is_empty());
    assert_eq!(x.parent, None);
}

#[test]
fn destroy_missing_node_does_nothing() {
    let mut g = SceneGraph::new();
    let root = g.add_node("root");
    g.destroy_node(5);
    assert!(g.free_indices.is_empty());
    assert!(g.get_node(root).is_some());
}

#[test]
fn get_node_mut_changes_the_node() {
    let mut g = SceneGraph::new();
    let root = g.add_node("root");
    g.get_node_mut(root).unwrap().z_index = 3;
    assert_eq!(g.get_node(root).unwrap().z_index, 3);
    assert!(g.get_node_mut(4).is_none());
}

#[test]
fn destroy_node_needs_no_acyclicity_outside_its_subtree() {
    let mut g = SceneGraph::new();
    let root = g.add_node("root");
    let a = g.add_node("a");
    let x = g.add_node("x");
    let y = g.add_node("y");
    g.add_child(root, a);
    // `x` and `y` list each other: a cycle that `root` does not reach.
    g.get_node_mut(x).unwrap().children.push(y);
    g.get_node_mut(y).unwrap().children.push(x);
    assert!(!g.links_are_acyclic(false));
    assert!(g.links_acyclic_from(&vec![root], false));
    assert!(!g.links_acyclic_from(&vec![x], false));
    g.destroy_node(root);
    assert_eq!(g.free_indices, vec![a, root]);
    assert!(g.get_node(root).is_none() && g.get_node(a).is_none());
    assert_eq!(g.get_node(x).unwrap().children, vec![y]);
    assert_eq!(g.get_node(y).unwrap().children, vec![x]);
}

#[test]
fn destroy_node_frees_a_child_listed_twice_once() {
    let mut g = SceneGraph::new();
    let root = g.add_node("root");
    let a = g.add_node("a");
    g.add_child(root, a);
    g.get_node_mut(root).unwrap().children.push(a);
    g.destroy_node(root);
    assert_eq!(g.free_indices, vec![a, root]);
    assert!(g.get_node(root).is_none() && g.get_node(a).is_none());
}

#[test]
fn destroy_node_takes_each_freed_node_out_of_its_recorded_parent_once() {
    let mut g = SceneGraph::new();
    let root = g.add_node("root");
    let a = g.add_node("a");
    let other = g.add_node("other");
    g.add_child(root, a);
    // `other` lists `a` twice and is `a`'s recorded parent; `root` lists it too.
    g.get_node_mut(other).unwrap().children.push(a);
    g.get_node_mut(other).unwrap().children.push(a);
    g.get_node_mut(a).unwrap().parent = Some(other);
    g.destroy_node(root);
    assert_eq!(g.free_indices, vec![a, root]);
    assert_eq!(g.get_node(other).unwrap().children, vec![a]);
}
