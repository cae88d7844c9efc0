use nanoui::dock::DockLocation;
use nanoui::geometry::{Color, Rect, Size};
use nanoui::view::{DrawRect, LinkError, ViewArena, ViewError};

const RED: Color = Color { r: 255, g: 0, b: 0, a: 255 };

#[test]
fn created_ids_are_pairwise_distinct() {
    let mut arena = ViewArena::new();
    let mut ids = Vec::new();
    for _ in 0..50 {
        ids.push(arena.create());
    }
    for i in 0..ids.len() {
        assert!(arena.resolves(ids[i]));
        for j in 0..i {
            assert_ne!(ids[i], ids[j]);
        }
    }
    assert_eq!(ids[0], 1);
    assert_eq!(ids[49], 50);
}

#[test]
fn created_view_has_default_attributes() {
    let mut arena = ViewArena::new();
    let v = arena.create();
    assert_eq!(arena.get_parent(v), None);
    assert_eq!(arena.get_window(v), None);
    assert!(arena.get_children(v).is_empty());
    assert_eq!(arena.get_size(v), Size::zero());
    assert_eq!(arena.get_rect(v), Rect::zero());
    assert_eq!(arena.get_dock_location(v), DockLocation::Left);
    assert_eq!(arena.get_background_color(v), Color::zero());
}

#[test]
fn add_child_links_both_ways() {
    let mut arena = ViewArena::new();
    let p = arena.create();
    let a = arena.create();
    let c = arena.create();
    assert_eq!(arena.add_child(p, a), Ok(()));
    assert_eq!(arena.add_child(p, c), Ok(()));
    assert_eq!(arena.get_parent(c), Some(p));
    let kids = arena.get_children(p);
    assert_eq!(kids, vec![a, c]);
    assert_eq!(kids.iter().filter(|k| **k == c).count(), 1);
    assert_eq!(*kids.last().unwrap(), c);
}

#[test]
fn add_child_reports_missing_ids() {
    let mut arena = ViewArena::new();
    let p = arena.create();
    assert_eq!(arena.add_child(p, 77), Err(LinkError::MissingChild));
    assert_eq!(arena.add_child(77, p), Err(LinkError::MissingParent));
    assert_eq!(arena.add_child(77, 78), Err(LinkError::MissingBoth));
    assert_eq!(arena.add_child(0, p), Err(LinkError::MissingParent));
    assert!(arena.get_children(p).is_empty());
    assert_eq!(arena.get_parent(p), None);
}

#[test]
fn add_child_refuses_second_parent_and_cycles() {
    let mut arena = ViewArena::new();
    let a = arena.create();
    let b = arena.create();
    let c = arena.create();
    assert_eq!(arena.add_child(a, a), Err(LinkError::Cycle));
    assert_eq!(arena.add_child(b, c), Ok(()));
    assert_eq!(arena.add_child(a, b), Ok(()));
    assert_eq!(arena.add_child(a, c), Err(LinkError::AlreadyAttached));
    assert_eq!(arena.add_child(c, a), Err(LinkError::Cycle));
    assert_eq!(arena.add_child(b, a), Err(LinkError::Cycle));
    assert_eq!(arena.get_children(a), vec![b]);
    assert_eq!(arena.get_children(b), vec![c]);
    assert!(arena.get_children(c).is_empty());
    assert_eq!(arena.get_parent(a), None);
}

#[test]
fn setters_and_getters_agree() {
    let mut arena = ViewArena::new();
    let v = arena.create();
    assert_eq!(arena.set_size(v, Size::new(12, 34)), Ok(()));
    assert_eq!(arena.set_dock_location(v, DockLocation::Bottom), Ok(()));
    assert_eq!(arena.set_background_color(v, RED), Ok(()));
    assert_eq!(arena.get_size(v), Size::new(12, 34));
    assert_eq!(arena.get_dock_location(v), DockLocation::Bottom);
    assert_eq!(arena.get_background_color(v), RED);
}

#[test]
fn missing_id_degrades_and_leaves_arena_usable() {
    let mut arena = ViewArena::new();
    let v = arena.create();
    assert!(!arena.resolves(9));
    assert_eq!(arena.get_size(9), Size::zero());
    assert_eq!(arena.get_dock_location(9), DockLocation::Left);
    assert_eq!(arena.get_rect(9), Rect::zero());
    assert_eq!(arena.get_parent(9), None);
    assert_eq!(arena.get_window(9), None);
    assert!(arena.get_children(9).is_empty());
    assert_eq!(arena.set_size(9, Size::new(1, 1)), Err(ViewError::NotFound));
    assert_eq!(arena.set_dock_location(9, DockLocation::Top), Err(ViewError::NotFound));
    assert_eq!(arena.set_background_color(9, RED), Err(ViewError::NotFound));
    assert_eq!(arena.set_window_down(9, Some(1)), Err(ViewError::NotFound));
    assert_eq!(arena.layout_down(9, Rect::new(0, 0, 5, 5)), Err(ViewError::NotFound));
    assert_eq!(arena.render_down(9), Err(ViewError::NotFound));
    assert_eq!(arena.get_size(v), Size::zero());
    let fresh = arena.create();
    assert_eq!(fresh, 2);
    assert!(arena.resolves(fresh));
}

#[test]
fn destroy_is_reported_and_changes_nothing() {
    let mut arena = ViewArena::new();
    let p = arena.create();
    let c = arena.create();
    assert_eq!(arena.add_child(p, c), Ok(()));
    assert_eq!(arena.destroy(p), Err(ViewError::NotImplemented));
    assert!(arena.resolves(p));
    assert_eq!(arena.get_children(p), vec![c]);
    assert_eq!(arena.get_parent(c), Some(p));
}

fn small_tree(arena: &mut ViewArena) -> (u64, u64, u64, u64, u64) {
    let root = arena.create();
    let a = arena.create();
    let b = arena.create();
    let a1 = arena.create();
    let loose = arena.create();
    assert_eq!(arena.add_child(root, a), Ok(()));
    assert_eq!(arena.add_child(root, b), Ok(()));
    assert_eq!(arena.add_child(a, a1), Ok(()));
    (root, a, b, a1, loose)
}

#[test]
fn window_reaches_every_descendant() {
    let mut arena = ViewArena::new();
    let (root, a, b, a1, loose) = small_tree(&mut arena);
    assert_eq!(arena.set_window_down(root, Some(42)), Ok(()));
    for v in [root, a, b, a1] {
        assert_eq!(arena.get_window(v), Some(42));
    }
    assert_eq!(arena.get_window(loose), None);
    assert_eq!(arena.set_window_down(a, Some(7)), Ok(()));
    assert_eq!(arena.get_window(root), Some(42));
    assert_eq!(arena.get_window(a), Some(7));
    assert_eq!(arena.get_window(a1), Some(7));
    assert_eq!(arena.get_window(b), Some(42));
    assert_eq!(arena.set_window_down(root, None), Ok(()));
    for v in [root, a, b, a1, loose] {
        assert_eq!(arena.get_window(v), None);
    }
}

#[test]
fn views_without_window_draw_nothing() {
    let mut arena = ViewArena::new();
    let (root, a, _b, a1, _loose) = small_tree(&mut arena);
    assert_eq!(arena.render_down(root), Ok(Vec::new()));
    assert_eq!(arena.set_window_down(a, Some(3)), Ok(()));
    assert_eq!(arena.set_background_color(a1, RED), Ok(()));
    let drawn = arena.render_down(root).unwrap();
    assert_eq!(
        drawn,
        vec![
            DrawRect { view: a, window: 3, rect: Rect::zero(), color: Color::zero() },
            DrawRect { view: a1, window: 3, rect: Rect::zero(), color: RED },
        ]
    );
}

#[test]
fn render_is_depth_first_in_child_order() {
    let mut arena = ViewArena::new();
    let (root, a, b, a1, _loose) = small_tree(&mut arena);
    assert_eq!(arena.set_window_down(root, Some(1)), Ok(()));
    assert_eq!(arena.layout_down(root, Rect::new(0, 0, 100, 100)), Ok(()));
    let order: Vec<u64> = arena.render_down(root).unwrap().iter().map(|d| d.view).collect();
    assert_eq!(order, vec![root, a, a1, b]);
}

#[test]
fn layout_docks_children_and_recurses() {
    let mut arena = ViewArena::new();
    let root = arena.create();
    let mut kids = Vec::new();
    for _ in 0..5 {
        let k = arena.create();
        assert_eq!(arena.add_child(root, k), Ok(()));
        kids.push(k);
    }
    let docks = [
        (DockLocation::Top, Size::new(0, 50)),
        (DockLocation::Left, Size::new(60, 0)),
        (DockLocation::Bottom, Size::new(0, 40)),
        (DockLocation::Right, Size::new(30, 0)),
        (DockLocation::Bottom, Size::new(1000, 1000)),
    ];
    for (k, (location, size)) in kids.iter().zip(docks.iter()) {
        assert_eq!(arena.set_dock_location(*k, *location), Ok(()));
        assert_eq!(arena.set_size(*k, *size), Ok(()));
    }
    let inner = arena.create();
    let inner_fill = arena.create();
    assert_eq!(arena.add_child(kids[4], inner), Ok(()));
    assert_eq!(arena.add_child(kids[4], inner_fill), Ok(()));
    assert_eq!(arena.set_dock_location(inner, DockLocation::Right), Ok(()));
    assert_eq!(arena.set_size(inner, Size::new(10, 0)), Ok(()));
    let loose = arena.create();

    assert_eq!(arena.layout_down(root, Rect::new(0, 0, 400, 300)), Ok(()));
    assert_eq!(arena.get_rect(root), Rect::new(0, 0, 400, 300));
    assert_eq!(arena.get_rect(kids[0]), Rect::new(0, 0, 400, 50));
    assert_eq!(arena.get_rect(kids[1]), Rect::new(0, 50, 60, 250));
    assert_eq!(arena.get_rect(kids[2]), Rect::new(60, 260, 340, 40));
    assert_eq!(arena.get_rect(kids[3]), Rect::new(370, 50, 30, 210));
    assert_eq!(arena.get_rect(kids[4]), Rect::new(60, 50, 310, 210));
    assert_eq!(arena.get_rect(inner), Rect::new(360, 50, 10, 210));
    assert_eq!(arena.get_rect(inner_fill), Rect::new(60, 50, 300, 210));
    assert_eq!(arena.get_rect(loose), Rect::zero());
    assert_eq!(arena.get_size(kids[0]), Size::new(0, 50));
}

#[test]
fn single_child_fills_its_parent() {
    let mut arena = ViewArena::new();
    let root = arena.create();
    let only = arena.create();
    assert_eq!(arena.add_child(root, only), Ok(()));
    assert_eq!(arena.set_dock_location(only, DockLocation::Top), Ok(()));
    assert_eq!(arena.set_size(only, Size::new(5, 5)), Ok(()));
    assert_eq!(arena.layout_down(root, Rect::new(3, 4, 50, 60)), Ok(()));
    assert_eq!(arena.get_rect(only), Rect::new(3, 4, 50, 60));
}
