use director_core::scene::SceneGraph;
use director_core::systems::layout::{children_are_distinct, LayoutEngine, LayoutStyle, NodeStyle};

struct El;

impl LayoutStyle for El {
    fn layout_style(&self) -> NodeStyle {
        NodeStyle(taffy::Style::default())
    }
}

fn children_of(e: &LayoutEngine, id: usize) -> Vec<u64> {
    let t = taffy::NodeId::from(e.node_map[&id]);
    e.taffy.children(t).unwrap().into_iter().map(u64::from).collect()
}

fn context_of(e: &LayoutEngine, id: usize) -> usize {
    let t = taffy::NodeId::from(e.node_map[&id]);
    *e.taffy.get_node_context(t).unwrap()
}

#[test]
fn sync_creates_a_layout_node_per_scene_node() {
    let mut g = SceneGraph::new();
    let root = g.add_node(El);
    let a = g.add_node(El);
    let b = g.add_node(El);
    g.add_child(root, a);
    g.add_child(root, b);
    let mut e = LayoutEngine::new();
    assert!(e.sync_checked(&mut g));
    assert_eq!(e.node_map.len(), 3);
    assert_eq!(e.taffy.total_node_count(), 3);
    for id in [root, a, b] {
        assert_eq!(context_of(&e, id), id);
        assert!(!g.get_node(id).unwrap().dirty_style);
    }
    assert_eq!(children_of(&e, root), vec![e.node_map[&a], e.node_map[&b]]);
    assert!(children_of(&e, a).is_empty());
}

#[test]
fn sync_removes_layout_nodes_of_removed_scene_nodes() {
    let mut g = SceneGraph::new();
    let root = g.add_node(El);
    let a = g.add_node(El);
    let b = g.add_node(El);
    g.add_child(root, a);
    g.add_child(root, b);
    let mut e = LayoutEngine::new();
    assert!(e.sync_checked(&mut g));
    let kept = e.node_map[&a];
    g.destroy_node(b);
    assert!(e.sync_checked(&mut g));
    assert!(!e.node_map.contains_key(&b));
    assert_eq!(e.node_map[&a], kept);
    assert_eq!(e.taffy.total_node_count(), 2);
    assert_eq!(children_of(&e, root), vec![kept]);
}

#[test]
fn a_later_mask_takes_the_layout_child() {
    let mut g = SceneGraph::new();
    let root = g.add_node(El);
    let a = g.add_node(El);
    let b = g.add_node(El);
    g.add_child(root, a);
    g.get_node_mut(b).unwrap().mask_node = Some(a);
    let mut e = LayoutEngine::new();
    assert!(e.sync_checked(&mut g));
    // `b` comes after `root`, and asks for `a` as well: it gets it.
    assert!(children_of(&e, root).is_empty());
    assert_eq!(children_of(&e, b), vec![e.node_map[&a]]);
}

#[test]
fn resync_keeps_the_tree() {
    let mut g = SceneGraph::new();
    let root = g.add_node(El);
    let a = g.add_node(El);
    g.add_child(root, a);
    let mut e = LayoutEngine::new();
    assert!(e.sync_checked(&mut g));
    let before = (e.node_map[&root], e.node_map[&a]);
    g.get_node_mut(a).unwrap().dirty_style = true;
    assert!(e.sync_checked(&mut g));
    assert_eq!((e.node_map[&root], e.node_map[&a]), before);
    assert_eq!(children_of(&e, root), vec![before.1]);
    assert!(!g.get_node(a).unwrap().dirty_style);
}

#[test]
fn repeated_layout_children_are_found() {
    let mut g = SceneGraph::new();
    let root = g.add_node(El);
    let a = g.add_node(El);
    g.add_child(root, a);
    assert!(children_are_distinct(&g));
    g.get_node_mut(root).unwrap().mask_node = Some(a);
    assert!(!children_are_distinct(&g));
    g.get_node_mut(root).unwrap().mask_node = None;
    g.get_node_mut(root).unwrap().children.push(a);
    assert!(!children_are_distinct(&g));
}

struct Square(f32);

impl LayoutStyle for Square {
    fn layout_style(&self) -> NodeStyle {
        NodeStyle(taffy::Style { size: taffy::Size::from_lengths(self.0, self.0), ..taffy::Style::default() })
    }
}

fn width_of(e: &LayoutEngine, id: usize) -> taffy::Dimension {
    let t = taffy::NodeId::from(e.node_map[&id]);
    e.taffy.style(t).unwrap().size.width
}

#[test]
fn sync_passes_changed_styles_and_keeps_the_others() {
    let mut g = SceneGraph::new();
    let a = g.add_node(Square(10.0));
    let b = g.add_node(Square(20.0));
    let mut e = LayoutEngine::new();
    assert!(e.sync_checked(&mut g));
    assert_eq!(width_of(&e, a), taffy::Dimension::length(10.0));
    assert_eq!(width_of(&e, b), taffy::Dimension::length(20.0));
    // A changed element whose style is not marked dirty keeps its old style.
    g.get_node_mut(a).unwrap().element = Square(30.0);
    g.get_node_mut(b).unwrap().element = Square(40.0);
    g.get_node_mut(b).unwrap().dirty_style = true;
    assert!(e.sync_checked(&mut g));
    assert_eq!(width_of(&e, a), taffy::Dimension::length(10.0));
    assert_eq!(width_of(&e, b), taffy::Dimension::length(40.0));
    assert!(!g.get_node(b).unwrap().dirty_style);
}

#[test]
fn layout_targets_go_node_first_then_children_then_mask() {
    let mut g = SceneGraph::new();
    let root = g.add_node(El);
    let a = g.add_node(El);
    let b = g.add_node(El);
    let a1 = g.add_node(El);
    let m = g.add_node(El);
    g.add_child(root, a);
    g.add_child(root, b);
    g.add_child(a, a1);
    g.get_node_mut(root).unwrap().mask_node = Some(m);
    let mut e = LayoutEngine::new();
    assert!(e.sync_checked(&mut g));
    assert_eq!(e.layout_targets(&g, root), vec![root, a, a1, b, m]);
    assert_eq!(e.layout_targets(&g, a), vec![a, a1]);
    // A node without a layout node ends its branch.
    assert_eq!(e.layout_targets(&g, 99), Vec::<usize>::new());
    assert!(e.node_map.remove(&a).is_some());
    assert_eq!(e.layout_targets(&g, root), vec![root, b, m]);
}
