use dromon::log_parser::ProfileNode;
use dromon::tabs::profiling::tree::{fit, short_name, strip_generics, tree_columns, CallTree};
use dromon::tabs::profiling::{ProfBlock, ProfilingState};

fn node(depth: usize, dur: u128, count: u32, name: &str) -> ProfileNode {
    ProfileNode { depth, dur_us: dur, count, name: name.to_string() }
}

/// root(0) > a(1) > a1(2), a2(2) ; root > b(1) ; other(0)
fn batch() -> Vec<ProfileNode> {
    vec![
        node(0, 100, 1, "root"),
        node(1, 60, 1, "a"),
        node(2, 20, 1, "a1"),
        node(2, 30, 1, "a2"),
        node(1, 40, 1, "b"),
        node(0, 500, 1, "other"),
    ]
}

#[test]
fn load_builds_parents_and_children() {
    let mut t = CallTree::new();
    t.load(batch());
    assert_eq!(t.len(), 6);
    assert_eq!(t.roots(), &vec![0, 5]);
    assert_eq!(t.node(0).parent, None);
    assert_eq!(t.node(0).children, vec![1, 4]);
    assert_eq!(t.node(1).children, vec![2, 3]);
    assert_eq!(t.node(3).parent, Some(1));
    assert_eq!(t.node(4).parent, Some(0));
    assert_eq!(t.node(5).parent, None);
    assert!(t.node(0).has_children());
    assert!(!t.node(2).has_children());
    assert_eq!(t.max_total(), 500);
    assert_eq!(t.visible(), vec![0, 1, 2, 3, 4, 5]);
    assert_eq!(t.cursor(), 0);
}

#[test]
fn empty_tree() {
    let mut t = CallTree::new();
    assert!(t.visible().is_empty());
    t.move_down();
    t.move_up();
    t.collapse();
    t.expand();
    t.toggle();
    assert_eq!(t.cursor(), 0);
    t.load(Vec::new());
    assert_eq!(t.len(), 0);
    assert_eq!(t.max_total(), 0);
}

#[test]
fn cursor_wraps_around() {
    let mut t = CallTree::new();
    t.load(batch());
    t.move_up();
    assert_eq!(t.cursor(), 5);
    t.move_down();
    assert_eq!(t.cursor(), 0);
    t.move_down();
    t.move_down();
    assert_eq!(t.cursor(), 2);
    t.move_up();
    assert_eq!(t.cursor(), 1);
}

#[test]
fn collapse_hides_subtree_then_goes_to_parent() {
    let mut t = CallTree::new();
    t.load(batch());
    t.move_down(); // on `a`
    t.collapse();
    assert!(t.node(1).collapsed);
    assert_eq!(t.visible(), vec![0, 1, 4, 5]);
    assert_eq!(t.cursor(), 1);
    // Already folded: `←` goes to the parent.
    t.collapse();
    assert_eq!(t.cursor(), 0);
    // A root without parent, unfolded with children: folds.
    t.collapse();
    assert_eq!(t.visible(), vec![0, 5]);
    // Folded root: nothing more.
    t.collapse();
    assert_eq!(t.cursor(), 0);
    assert_eq!(t.visible(), vec![0, 5]);
}

#[test]
fn expand_unfolds_then_goes_to_first_child() {
    let mut t = CallTree::new();
    t.load(batch());
    t.toggle(); // fold root
    assert_eq!(t.visible(), vec![0, 5]);
    t.expand(); // unfold
    assert_eq!(t.visible(), vec![0, 1, 2, 3, 4, 5]);
    assert_eq!(t.cursor(), 0);
    t.expand(); // first child
    assert_eq!(t.cursor(), 1);
    t.move_down(); // on a1, a leaf
    t.expand();
    assert_eq!(t.cursor(), 2);
}

#[test]
fn toggle_twice_restores_the_tree() {
    let mut t = CallTree::new();
    t.load(batch());
    t.move_down();
    t.toggle();
    assert_eq!(t.visible(), vec![0, 1, 4, 5]);
    t.toggle();
    assert_eq!(t.visible(), vec![0, 1, 2, 3, 4, 5]);
    assert_eq!(t.cursor(), 1);
    assert!(!t.node(1).collapsed);
}

#[test]
fn collapse_then_expand_restores_the_tree() {
    let mut t = CallTree::new();
    t.load(batch());
    t.collapse();
    t.expand();
    assert_eq!(t.visible(), vec![0, 1, 2, 3, 4, 5]);
    assert_eq!(t.cursor(), 0);
}

#[test]
fn down_then_up_comes_back() {
    let mut t = CallTree::new();
    t.load(batch());
    for _ in 0..7 {
        let c = t.cursor();
        t.move_down();
        t.move_up();
        assert_eq!(t.cursor(), c);
        t.move_down();
    }
}

#[test]
fn reload_keeps_folding_by_name_and_clamps_cursor() {
    let mut t = CallTree::new();
    t.load(batch());
    t.move_down();
    t.collapse(); // fold `a`
    t.move_down();
    t.move_down();
    assert_eq!(t.cursor(), 3); // on `other`
    // Same batch again: nothing moves.
    t.load(batch());
    assert!(t.node(1).collapsed);
    assert_eq!(t.visible(), vec![0, 1, 4, 5]);
    assert_eq!(t.cursor(), 3);
    // A smaller batch where `a` comes back folded; the cursor is clamped.
    t.load(vec![node(0, 5, 1, "a"), node(1, 5, 1, "z")]);
    assert!(t.node(0).collapsed);
    assert_eq!(t.visible(), vec![0]);
    assert_eq!(t.cursor(), 0);
}

#[test]
fn depth_jumps_attach_to_nearest_shallower_node() {
    let mut t = CallTree::new();
    t.load(vec![node(0, 1, 1, "r"), node(3, 1, 1, "deep"), node(1, 1, 1, "mid"), node(2, 1, 1, "leaf")]);
    assert_eq!(t.node(1).parent, Some(0));
    assert_eq!(t.node(2).parent, Some(0));
    assert_eq!(t.node(3).parent, Some(2));
    assert_eq!(t.node(0).children, vec![1, 2]);
}

#[test]
fn strip_generics_nested() {
    assert_eq!(strip_generics("Renderer<vulkan::Backend<A>>::new"), "Renderer::new");
    assert_eq!(strip_generics("a>b<c"), "ab");
    assert_eq!(strip_generics("plain"), "plain");
}

#[test]
fn short_name_keeps_two_segments() {
    assert_eq!(short_name("a::b::c::Foo::new"), "Foo::new");
    assert_eq!(short_name("Renderer<vulkan::Backend>::render"), "Renderer::render");
    assert_eq!(short_name("create terrain meshes"), "create terrain meshes");
    assert_eq!(short_name("x::y"), "x::y");
}

#[test]
fn fit_cuts_or_pads() {
    assert_eq!(fit("abcdef".to_string(), 4), "abc…");
    assert_eq!(fit("ab".to_string(), 4), "ab  ");
    assert_eq!(fit("abcd".to_string(), 4), "abcd");
    assert_eq!(fit("abc".to_string(), 0), "");
    assert_eq!(fit("µµµ".to_string(), 2), "µ…");
}

#[test]
fn labels() {
    let mut t = CallTree::new();
    t.load(vec![node(0, 1, 1, "app::Engine::new"), node(1, 1, 676, "mesh")]);
    assert_eq!(t.node(0).label(), "▾ Engine::new");
    assert_eq!(t.node(1).label(), "    mesh ×676");
    t.toggle();
    assert_eq!(t.node(0).label(), "▸ Engine::new");
}

#[test]
fn columns_follow_width() {
    let c = tree_columns(20);
    assert!(!c.show_dur);
    assert_eq!((c.bar_cells, c.name_w), (0, 20));
    let c = tree_columns(30);
    assert!(c.show_dur);
    assert_eq!((c.bar_cells, c.name_w), (0, 20));
    let c = tree_columns(40);
    assert_eq!((c.bar_cells, c.name_w), (10, 19));
    let c = tree_columns(200);
    assert_eq!((c.bar_cells, c.name_w), (40, 149));
}

#[test]
fn profiling_boxes_grid() {
    let mut p = ProfilingState::new();
    assert_eq!(p.selected(), ProfBlock::Initialize);
    p.block_up();
    assert_eq!(p.selected(), ProfBlock::Initialize);
    p.block_down();
    assert_eq!(p.selected(), ProfBlock::Frame);
    p.block_right();
    assert_eq!(p.selected(), ProfBlock::Gpu);
    p.block_right();
    assert_eq!(p.selected(), ProfBlock::Gpu);
    p.block_down();
    assert_eq!(p.selected(), ProfBlock::Gpu);
    p.block_left();
    assert_eq!(p.selected(), ProfBlock::Frame);
    p.move_up();
    assert_eq!(p.selected(), ProfBlock::Initialize);
    p.move_down();
    p.move_right();
    assert_eq!(p.selected(), ProfBlock::Gpu);
    p.move_left();
    assert_eq!(p.selected(), ProfBlock::Frame);
    assert!(!p.zoomed());
    p.toggle_zoom();
    assert!(p.zoomed());
    p.toggle_zoom();
    assert!(!p.zoomed());
}

#[test]
fn profiling_tree_keys_act_on_selected_box() {
    let mut p = ProfilingState::new();
    p.load_init(batch());
    p.load_frame(vec![node(0, 1, 1, "frame")]);
    p.load_gpu(vec![node(0, 1, 1, "gpu"), node(1, 1, 1, "pass")]);
    p.tree_down();
    assert_eq!(p.tree(ProfBlock::Initialize).cursor(), 1);
    p.tree_left();
    assert!(p.tree(ProfBlock::Initialize).node(1).collapsed);
    p.tree_right();
    assert!(!p.tree(ProfBlock::Initialize).node(1).collapsed);
    p.on_toggle();
    assert!(p.tree(ProfBlock::Initialize).node(1).collapsed);
    p.tree_up();
    assert_eq!(p.tree(ProfBlock::Initialize).cursor(), 0);
    p.block_down();
    p.block_right();
    p.on_toggle();
    assert!(p.tree(ProfBlock::Gpu).node(0).collapsed);
    assert_eq!(p.tree(ProfBlock::Frame).cursor(), 0);
    assert!(!p.tree(ProfBlock::Frame).node(0).collapsed);
}

fn walk(t: &CallTree, i: usize, out: &mut Vec<usize>) {
    out.push(i);
    if !t.node(i).collapsed {
        for &c in &t.node(i).children {
            walk(t, c, out);
        }
    }
}

fn prefix_walk(t: &CallTree) -> Vec<usize> {
    let mut out = Vec::new();
    for &r in t.roots() {
        walk(t, r, &mut out);
    }
    out
}

#[test]
fn visible_is_the_prefix_walk_of_the_children() {
    let depths = [0usize, 1, 2, 3, 2, 1, 4, 2, 0, 1, 1, 3, 0];
    let nodes: Vec<ProfileNode> = depths.iter().enumerate().map(|(i, &d)| node(d, i as u128, 1, &format!("n{i}"))).collect();
    let mut t = CallTree::new();
    t.load(nodes);
    assert_eq!(t.visible(), prefix_walk(&t));
    // Fold a few nodes through the cursor and compare again after each step.
    for step in 0..20 {
        if step % 3 == 0 {
            t.toggle();
        } else {
            t.move_down();
        }
        assert_eq!(t.visible(), prefix_walk(&t));
        assert!(t.cursor() < t.visible().len());
    }
}

#[test]
fn nested_folding_hides_through_any_ancestor() {
    let mut t = CallTree::new();
    t.load(batch());
    t.move_down(); // `a`
    t.toggle(); // fold `a`
    t.move_up(); // root
    t.toggle(); // fold root
    assert_eq!(t.visible(), vec![0, 5]);
    t.toggle(); // unfold root: `a` stays folded
    assert_eq!(t.visible(), vec![0, 1, 4, 5]);
}
