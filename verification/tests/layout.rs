use linux_cmd_dashboard::layout::{
    Direction, LayoutTree, PaneId, SplitOrientation, Workspace, LAYOUT_EXTENT,
};

/// A split-ratio change given as a fraction, in the thousandths the layout uses.
fn ratio_delta(fraction: f64) -> i32 {
    (fraction * 1000.0).round() as i32
}

/// A split ratio as a fraction.
fn ratio_fraction(thousandths: u32) -> f64 {
    thousandths as f64 / 1000.0
}

#[test]
fn split_focused_adds_new_pane_and_focuses_it() {
    let mut workspace = Workspace::new();

    let second = workspace.split_focused(SplitOrientation::Horizontal);

    assert_eq!(second, PaneId(2));
    assert_eq!(workspace.focused(), PaneId(2));
    assert_eq!(workspace.pane_ids(), vec![PaneId(1), PaneId(2)]);
    assert_eq!(
        workspace.neighbor(PaneId(1), Direction::Right),
        Some(PaneId(2))
    );
}

#[test]
fn close_focused_collapses_parent_split() {
    let mut workspace = Workspace::new();
    workspace.split_focused(SplitOrientation::Horizontal);

    assert_eq!(workspace.close_focused(), Some(PaneId(2)));

    assert_eq!(workspace.pane_ids(), vec![PaneId(1)]);
    assert_eq!(workspace.focused(), PaneId(1));
    assert_eq!(workspace.root(), &LayoutTree::Leaf(PaneId(1)));
}

#[test]
fn neighbor_uses_layout_rectangles() {
    let mut workspace = Workspace::new();
    let right = workspace.split_focused(SplitOrientation::Horizontal);
    workspace.focus(PaneId(1));
    let bottom_left = workspace.split_focused(SplitOrientation::Vertical);

    assert_eq!(
        workspace.neighbor(PaneId(1), Direction::Down),
        Some(bottom_left)
    );
    assert_eq!(workspace.neighbor(PaneId(1), Direction::Right), Some(right));
    assert_eq!(workspace.neighbor(right, Direction::Left), Some(PaneId(1)));
}

#[test]
fn move_focused_swaps_with_neighbor() {
    let mut workspace = Workspace::new();
    workspace.split_focused(SplitOrientation::Horizontal);

    assert_eq!(workspace.move_focused(Direction::Left), Some(PaneId(1)));

    assert_eq!(
        workspace.neighbor(PaneId(2), Direction::Right),
        Some(PaneId(1))
    );
    assert_eq!(workspace.focused(), PaneId(2));
}

#[test]
fn resize_changes_split_ratio() {
    let mut workspace = Workspace::new();
    workspace.split_focused(SplitOrientation::Horizontal);
    workspace.focus(PaneId(1));

    assert!(workspace.resize_focused(Direction::Right, ratio_delta(0.1)));

    match workspace.root() {
        LayoutTree::Split { ratio, .. } => {
            assert!((ratio_fraction(*ratio) - 0.6).abs() < f64::EPSILON)
        }
        other => panic!("expected split, got {other:?}"),
    }
}

#[test]
fn split_orientation_follows_direction() {
    assert_eq!(
        Direction::Left.split_orientation(),
        SplitOrientation::Horizontal
    );
    assert_eq!(
        Direction::Right.split_orientation(),
        SplitOrientation::Horizontal
    );
    assert_eq!(Direction::Up.split_orientation(), SplitOrientation::Vertical);
    assert_eq!(
        Direction::Down.split_orientation(),
        SplitOrientation::Vertical
    );
}

#[test]
fn new_and_default_workspaces_hold_one_focused_pane() {
    let workspace = Workspace::new();
    assert_eq!(workspace.pane_ids(), vec![PaneId(1)]);
    assert_eq!(workspace.focused(), PaneId(1));
    assert_eq!(workspace.root(), &LayoutTree::Leaf(PaneId(1)));
    assert!(workspace.can_allocate_pane());
    let default = Workspace::default();
    assert_eq!(default.root(), workspace.root());
    assert_eq!(default.focused(), workspace.focused());
}

#[test]
fn split_toward_left_and_up_puts_new_pane_first() {
    let mut workspace = Workspace::new();
    let left = workspace.split_focused_toward(Direction::Left);
    assert_eq!(left, PaneId(2));
    assert_eq!(workspace.pane_ids(), vec![PaneId(2), PaneId(1)]);
    assert_eq!(workspace.focused(), PaneId(2));
    match workspace.root() {
        LayoutTree::Split {
            orientation, ratio, ..
        } => {
            assert_eq!(*orientation, SplitOrientation::Horizontal);
            assert_eq!(*ratio, 500);
        }
        other => panic!("expected split, got {other:?}"),
    }

    let up = workspace.split_focused_toward(Direction::Up);
    assert_eq!(up, PaneId(3));
    assert_eq!(workspace.pane_ids(), vec![PaneId(3), PaneId(2), PaneId(1)]);
    assert_eq!(workspace.neighbor(PaneId(2), Direction::Up), Some(PaneId(3)));
}

#[test]
fn split_toward_right_and_down_puts_new_pane_second() {
    let mut workspace = Workspace::new();
    let right = workspace.split_focused_toward(Direction::Right);
    let below = workspace.split_focused_toward(Direction::Down);
    assert_eq!(workspace.pane_ids(), vec![PaneId(1), right, below]);
    assert_eq!(workspace.neighbor(right, Direction::Down), Some(below));
    assert_eq!(workspace.neighbor(below, Direction::Left), Some(PaneId(1)));
}

#[test]
fn closing_the_last_pane_is_refused() {
    let mut workspace = Workspace::new();
    assert_eq!(workspace.close_focused(), None);
    assert_eq!(workspace.pane_ids(), vec![PaneId(1)]);
    assert_eq!(workspace.focused(), PaneId(1));
}

#[test]
fn close_focuses_the_last_remaining_pane() {
    let mut workspace = Workspace::new();
    workspace.split_focused(SplitOrientation::Horizontal);
    workspace.split_focused(SplitOrientation::Vertical);
    workspace.focus(PaneId(1));
    assert_eq!(workspace.close_focused(), Some(PaneId(1)));
    assert_eq!(workspace.pane_ids(), vec![PaneId(2), PaneId(3)]);
    assert_eq!(workspace.focused(), PaneId(3));
}

#[test]
fn close_after_split_gives_back_the_layout() {
    let mut workspace = Workspace::new();
    workspace.split_focused(SplitOrientation::Horizontal);
    workspace.split_focused_toward(Direction::Up);
    workspace.focus(PaneId(1));
    workspace.resize_focused(Direction::Right, 120);
    let before = workspace.root().clone();

    workspace.split_focused_toward(Direction::Left);
    assert_ne!(workspace.root(), &before);
    assert_eq!(workspace.close_focused(), Some(PaneId(4)));
    assert_eq!(workspace.root(), &before);
}

#[test]
fn pane_identifiers_are_never_reused() {
    let mut workspace = Workspace::new();
    workspace.split_focused(SplitOrientation::Horizontal);
    workspace.close_focused();
    assert_eq!(
        workspace.split_focused(SplitOrientation::Horizontal),
        PaneId(3)
    );
}

#[test]
fn focus_accepts_only_panes_of_the_layout() {
    let mut workspace = Workspace::new();
    workspace.split_focused(SplitOrientation::Horizontal);
    assert!(!workspace.focus(PaneId(9)));
    assert_eq!(workspace.focused(), PaneId(2));
    assert!(workspace.focus(PaneId(1)));
    assert_eq!(workspace.focused(), PaneId(1));
}

#[test]
fn focus_neighbor_moves_focus_or_reports_none() {
    let mut workspace = Workspace::new();
    workspace.split_focused(SplitOrientation::Horizontal);
    assert_eq!(workspace.focus_neighbor(Direction::Right), None);
    assert_eq!(workspace.focused(), PaneId(2));
    assert_eq!(workspace.focus_neighbor(Direction::Left), Some(PaneId(1)));
    assert_eq!(workspace.focused(), PaneId(1));
    assert_eq!(workspace.focus_neighbor(Direction::Up), None);
    assert_eq!(workspace.focus_neighbor(Direction::Down), None);
}

#[test]
fn move_without_neighbor_changes_nothing() {
    let mut workspace = Workspace::new();
    workspace.split_focused(SplitOrientation::Vertical);
    let before = workspace.root().clone();
    assert_eq!(workspace.move_focused(Direction::Right), None);
    assert_eq!(workspace.root(), &before);
    assert_eq!(workspace.move_focused(Direction::Up), Some(PaneId(1)));
    assert_eq!(workspace.pane_ids(), vec![PaneId(2), PaneId(1)]);
    assert_eq!(workspace.focused(), PaneId(2));
}

#[test]
fn resize_clamps_the_ratio() {
    let mut workspace = Workspace::new();
    workspace.split_focused(SplitOrientation::Horizontal);
    workspace.focus(PaneId(1));
    assert!(workspace.resize_focused(Direction::Right, 1000));
    assert!(matches!(workspace.root(), LayoutTree::Split { ratio: 850, .. }));
    assert!(workspace.resize_focused(Direction::Left, 1000));
    assert!(matches!(workspace.root(), LayoutTree::Split { ratio: 150, .. }));
    workspace.focus(PaneId(2));
    assert!(workspace.resize_focused(Direction::Left, 50));
    assert!(matches!(workspace.root(), LayoutTree::Split { ratio: 200, .. }));
}

#[test]
fn resize_across_the_split_changes_nothing() {
    let mut workspace = Workspace::new();
    workspace.split_focused(SplitOrientation::Horizontal);
    let before = workspace.root().clone();
    assert!(workspace.resize_focused(Direction::Down, 100));
    assert_eq!(workspace.root(), &before);
}

#[test]
fn resize_moves_the_outermost_matching_split() {
    let mut workspace = Workspace::new();
    workspace.split_focused(SplitOrientation::Horizontal);
    workspace.split_focused(SplitOrientation::Vertical);
    workspace.split_focused(SplitOrientation::Horizontal);
    assert!(workspace.resize_focused(Direction::Left, 100));
    match workspace.root() {
        LayoutTree::Split { ratio, second, .. } => {
            assert_eq!(*ratio, 600);
            match second.as_ref() {
                LayoutTree::Split { ratio, second, .. } => {
                    assert_eq!(*ratio, 500);
                    assert!(matches!(second.as_ref(), LayoutTree::Split { ratio: 500, .. }));
                }
                other => panic!("expected split, got {other:?}"),
            }
        }
        other => panic!("expected split, got {other:?}"),
    }
}

#[test]
fn resize_back_and_forth_gives_back_the_layout() {
    let mut workspace = Workspace::new();
    workspace.split_focused(SplitOrientation::Horizontal);
    workspace.split_focused(SplitOrientation::Vertical);
    let before = workspace.root().clone();
    assert!(workspace.resize_focused(Direction::Up, 50));
    assert_ne!(workspace.root(), &before);
    assert!(workspace.resize_focused(Direction::Down, 50));
    assert_eq!(workspace.root(), &before);
}

#[test]
fn rectangles_tile_the_workspace() {
    let mut workspace = Workspace::new();
    workspace.split_focused(SplitOrientation::Horizontal);
    workspace.split_focused(SplitOrientation::Vertical);
    workspace.resize_focused(Direction::Down, 230);
    workspace.split_focused_toward(Direction::Left);
    let rects = workspace.rectangles();
    let ids: Vec<PaneId> = rects.iter().map(|(id, _)| *id).collect();
    assert_eq!(ids, workspace.pane_ids());
    // At this depth every side is a multiple of this unit.
    let unit: u128 = 100_000_000_000_000_000_000_000_000;
    let mut total: u128 = 0;
    for (_, rect) in &rects {
        assert!(rect.x + rect.w <= LAYOUT_EXTENT);
        assert!(rect.y + rect.h <= LAYOUT_EXTENT);
        assert_eq!(rect.w % unit, 0);
        assert_eq!(rect.h % unit, 0);
        total += (rect.w / unit) * (rect.h / unit);
    }
    assert_eq!(total, (LAYOUT_EXTENT / unit) * (LAYOUT_EXTENT / unit));
}

#[test]
fn deeply_nested_panes_keep_positive_sides() {
    let mut workspace = Workspace::new();
    for _ in 0..100 {
        workspace.split_focused(SplitOrientation::Horizontal);
    }
    for _ in 0..41 {
        workspace.split_focused(SplitOrientation::Vertical);
        workspace.resize_focused(Direction::Up, 1000);
    }
    let rects = workspace.rectangles();
    assert_eq!(rects.len(), 142);
    for (_, rect) in &rects {
        assert!(rect.w > 0 && rect.h > 0);
    }
}

#[test]
fn rectangles_follow_the_split_ratio() {
    let mut workspace = Workspace::new();
    workspace.split_focused(SplitOrientation::Horizontal);
    workspace.focus(PaneId(1));
    workspace.resize_focused(Direction::Right, 250);
    let rects = workspace.rectangles();
    assert_eq!(rects.len(), 2);
    let (first, left) = rects[0];
    let (second, right) = rects[1];
    assert_eq!((first, second), (PaneId(1), PaneId(2)));
    assert_eq!(left.x, 0);
    assert_eq!(left.w, LAYOUT_EXTENT / 1000 * 750);
    assert_eq!(right.x, left.w);
    assert_eq!(right.w, LAYOUT_EXTENT - left.w);
    assert_eq!(left.h, LAYOUT_EXTENT);
    assert_eq!(right.h, LAYOUT_EXTENT);
}

#[test]
fn neighbor_prefers_the_longest_shared_edge_then_the_smallest_identifier() {
    // 1 | 2
    //   |---
    //   | 3
    let mut workspace = Workspace::new();
    workspace.split_focused(SplitOrientation::Horizontal);
    workspace.split_focused(SplitOrientation::Vertical);
    assert_eq!(workspace.neighbor(PaneId(1), Direction::Right), Some(PaneId(2)));
    // Give pane 3 the longer shared edge with pane 1.
    workspace.focus(PaneId(2));
    workspace.resize_focused(Direction::Up, 200);
    assert_eq!(workspace.neighbor(PaneId(1), Direction::Right), Some(PaneId(3)));
    assert_eq!(workspace.neighbor(PaneId(3), Direction::Left), Some(PaneId(1)));
    assert_eq!(workspace.neighbor(PaneId(9), Direction::Left), None);
    assert_eq!(workspace.neighbor(PaneId(1), Direction::Left), None);
}

fn split_ratio(tree: &LayoutTree) -> u32 {
    match tree {
        LayoutTree::Split { ratio, .. } => *ratio,
        LayoutTree::Leaf(id) => panic!("expected a split, found pane {}", id.0),
    }
}

#[test]
fn set_split_ratio_changes_only_the_split_on_the_path() {
    let mut workspace = Workspace::new();
    workspace.split_focused(SplitOrientation::Horizontal);
    workspace.split_focused(SplitOrientation::Vertical);
    let panes = workspace.pane_ids();

    assert!(workspace.set_split_ratio(&[true], 300));
    match workspace.root() {
        LayoutTree::Split { ratio, second, .. } => {
            assert_eq!(*ratio, 500);
            assert_eq!(split_ratio(second), 300);
        }
        LayoutTree::Leaf(_) => panic!("expected a split"),
    }

    assert!(workspace.set_split_ratio(&[], 20));
    assert_eq!(split_ratio(workspace.root()), 150);
    assert!(workspace.set_split_ratio(&[], 999));
    assert_eq!(split_ratio(workspace.root()), 850);

    let before = workspace.root().clone();
    assert!(!workspace.set_split_ratio(&[false], 400));
    assert!(!workspace.set_split_ratio(&[true, true, false], 400));
    assert_eq!(workspace.root(), &before);
    assert_eq!(workspace.pane_ids(), panes);
}
