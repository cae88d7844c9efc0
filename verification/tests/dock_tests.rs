use nanoui::dock::{dock_layout, dock_one, edges, fill, DockItem, DockLocation, Edges};
use nanoui::geometry::{sat_add, sat_sub, Color, Rect, Size};

fn item(location: DockLocation, width: i64, height: i64) -> DockItem {
    DockItem { location, size: Size::new(width, height) }
}

#[test]
fn five_children_consume_edges_in_order() {
    let items = vec![
        item(DockLocation::Top, 0, 50),
        item(DockLocation::Left, 60, 0),
        item(DockLocation::Bottom, 0, 40),
        item(DockLocation::Right, 30, 0),
        item(DockLocation::Top, 999, 999),
    ];
    let out = dock_layout(Rect::new(0, 0, 400, 300), &items);
    assert_eq!(out.len(), 5);
    assert_eq!(out[0], Rect::new(0, 0, 400, 50));
    assert_eq!(out[1], Rect::new(0, 50, 60, 250));
    assert_eq!(out[2], Rect::new(60, 260, 340, 40));
    assert_eq!(out[3], Rect::new(370, 50, 30, 210));
    assert_eq!(out[4], Rect::new(60, 50, 310, 210));
}

#[test]
fn only_child_fills_parent_whatever_its_edge() {
    let parent = Rect::new(7, -3, 120, 80);
    for location in [
        DockLocation::Top,
        DockLocation::Bottom,
        DockLocation::Left,
        DockLocation::Right,
    ] {
        let out = dock_layout(parent, &vec![item(location, 55, 66)]);
        assert_eq!(out, vec![parent]);
    }
}

#[test]
fn no_children_give_no_rectangles() {
    let out = dock_layout(Rect::new(0, 0, 10, 10), &Vec::new());
    assert!(out.is_empty());
}

#[test]
fn last_child_gets_what_predecessors_left() {
    let items = vec![
        item(DockLocation::Left, 10, 0),
        item(DockLocation::Right, 20, 0),
        item(DockLocation::Bottom, 5, 5),
    ];
    let out = dock_layout(Rect::new(100, 200, 300, 400), &items);
    assert_eq!(out[0], Rect::new(100, 200, 10, 400));
    assert_eq!(out[1], Rect::new(380, 200, 20, 400));
    assert_eq!(out[2], Rect::new(110, 200, 270, 400));
}

#[test]
fn oversized_request_leaves_negative_space() {
    let items = vec![item(DockLocation::Top, 0, 150), item(DockLocation::Left, 0, 0)];
    let out = dock_layout(Rect::new(0, 0, 100, 100), &items);
    assert_eq!(out[0], Rect::new(0, 0, 100, 150));
    assert_eq!(out[1], Rect::new(0, 150, 100, -50));
}

#[test]
fn dock_one_moves_one_edge() {
    let e = Edges { left: 0, top: 0, right: 100, bottom: 80 };
    let (r, rest) = dock_one(e, item(DockLocation::Bottom, 0, 30));
    assert_eq!(r, Rect::new(0, 50, 100, 30));
    assert_eq!(rest, Edges { left: 0, top: 0, right: 100, bottom: 50 });
    let (r, rest) = dock_one(e, item(DockLocation::Right, 25, 0));
    assert_eq!(r, Rect::new(75, 0, 25, 80));
    assert_eq!(rest, Edges { left: 0, top: 0, right: 75, bottom: 80 });
    let (r, rest) = dock_one(e, item(DockLocation::Top, 0, 30));
    assert_eq!(r, Rect::new(0, 0, 100, 30));
    assert_eq!(rest, Edges { left: 0, top: 30, right: 100, bottom: 80 });
    let (r, rest) = dock_one(e, item(DockLocation::Left, 25, 0));
    assert_eq!(r, Rect::new(0, 0, 25, 80));
    assert_eq!(rest, Edges { left: 25, top: 0, right: 100, bottom: 80 });
}

#[test]
fn edges_and_fill_round_trip() {
    let r = Rect::new(5, 6, 70, 80);
    assert_eq!(edges(r), Edges { left: 5, top: 6, right: 75, bottom: 86 });
    assert_eq!(fill(edges(r)), r);
}

#[test]
fn sums_saturate() {
    assert_eq!(sat_add(i64::MAX, 1), i64::MAX);
    assert_eq!(sat_add(i64::MIN, -1), i64::MIN);
    assert_eq!(sat_add(2, 3), 5);
    assert_eq!(sat_add(-2, -3), -5);
    assert_eq!(sat_sub(i64::MIN, 1), i64::MIN);
    assert_eq!(sat_sub(i64::MAX, -1), i64::MAX);
    assert_eq!(sat_sub(2, 3), -1);
    assert_eq!(sat_sub(0, i64::MIN), i64::MAX);
    assert_eq!(edges(Rect::new(i64::MAX, 0, 5, 5)).right, i64::MAX);
}

#[test]
fn zero_values() {
    assert_eq!(Size::zero(), Size::new(0, 0));
    assert_eq!(Rect::zero(), Rect::new(0, 0, 0, 0));
    assert_eq!(Color::zero(), Color { r: 0, g: 0, b: 0, a: 0 });
}
