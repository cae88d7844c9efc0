use nanoui::geometry::{Color, Point, Rect};
use nanoui::view::{DrawRect, ViewArena};
use nanoui::window::{DrawLabel, WindowArena, WindowError, DEFAULT_WINDOW_HEIGHT, DEFAULT_WINDOW_WIDTH};

fn label(window: u64) -> DrawLabel {
    DrawLabel {
        window,
        rect: Rect::new(10, 10, 250, 50),
        color: Color { r: 0, g: 255, b: 0, a: 255 },
    }
}

#[test]
fn window_takes_the_surface_identifier() {
    let mut windows = WindowArena::new();
    assert!(!windows.resolves(5));
    assert_eq!(windows.create(5), 5);
    assert!(windows.resolves(5));
    assert_eq!(windows.get_root_view(5), None);
    assert_eq!(windows.get_root_view(6), None);
    assert_eq!(DEFAULT_WINDOW_WIDTH, 800);
    assert_eq!(DEFAULT_WINDOW_HEIGHT, 600);
}

#[test]
fn window_destroy_is_reported() {
    let mut windows = WindowArena::new();
    windows.create(1);
    assert_eq!(windows.destroy(1), Err(WindowError::NotImplemented));
    assert!(windows.resolves(1));
}

#[test]
fn root_view_is_recorded_and_stamped() {
    let mut windows = WindowArena::new();
    let mut views = ViewArena::new();
    let w = windows.create(9);
    let root = views.create();
    let child = views.create();
    let loose = views.create();
    assert_eq!(views.add_child(root, child), Ok(()));
    assert_eq!(windows.set_root_view(&mut views, w, root), Ok(()));
    assert_eq!(windows.get_root_view(w), Some(root));
    assert_eq!(views.get_window(root), Some(w));
    assert_eq!(views.get_window(child), Some(w));
    assert_eq!(views.get_window(loose), None);
}

#[test]
fn replacing_the_root_keeps_old_links() {
    let mut windows = WindowArena::new();
    let mut views = ViewArena::new();
    let w = windows.create(2);
    let first = views.create();
    let second = views.create();
    assert_eq!(windows.set_root_view(&mut views, w, first), Ok(()));
    assert_eq!(windows.set_root_view(&mut views, w, second), Ok(()));
    assert_eq!(windows.get_root_view(w), Some(second));
    assert_eq!(views.get_window(first), Some(w));
    assert_eq!(views.get_window(second), Some(w));
}

#[test]
fn set_root_view_reports_what_is_missing() {
    let mut windows = WindowArena::new();
    let mut views = ViewArena::new();
    let w = windows.create(2);
    let v = views.create();
    assert_eq!(windows.set_root_view(&mut views, 3, v), Err(WindowError::WindowNotFound));
    assert_eq!(views.get_window(v), None);
    assert_eq!(windows.set_root_view(&mut views, w, 50), Err(WindowError::ViewNotFound));
    assert_eq!(windows.get_root_view(w), None);
    assert_eq!(windows.set_root_view(&mut views, 3, 50), Err(WindowError::BothNotFound));
    assert!(!windows.resolves(3));
    assert!(windows.resolves(w));
    assert_eq!(views.create(), 2);
}

#[test]
fn resize_lays_out_the_root() {
    let mut windows = WindowArena::new();
    let mut views = ViewArena::new();
    let w = windows.create(1);
    let bare = windows.create(4);
    let root = views.create();
    let child = views.create();
    assert_eq!(views.add_child(root, child), Ok(()));
    assert_eq!(windows.resize(&mut views, bare, Rect::new(0, 0, 9, 9)), Ok(()));
    assert_eq!(views.get_rect(root), Rect::zero());
    assert_eq!(windows.set_root_view(&mut views, w, root), Ok(()));
    assert_eq!(windows.resize(&mut views, w, Rect::new(0, 0, 640, 480)), Ok(()));
    assert_eq!(views.get_rect(root), Rect::new(0, 0, 640, 480));
    assert_eq!(views.get_rect(child), Rect::new(0, 0, 640, 480));
    assert_eq!(
        windows.resize(&mut views, 77, Rect::new(0, 0, 1, 1)),
        Err(WindowError::WindowNotFound)
    );
    assert_eq!(windows.set_root_view(&mut views, bare, 99), Err(WindowError::ViewNotFound));
    assert_eq!(windows.resize(&mut views, bare, Rect::new(0, 0, 1, 1)), Ok(()));
    let mut empty = ViewArena::new();
    assert_eq!(
        windows.resize(&mut empty, w, Rect::new(0, 0, 1, 1)),
        Err(WindowError::ViewNotFound)
    );
    assert_eq!(views.get_rect(root), Rect::new(0, 0, 640, 480));
}

#[test]
fn frame_is_tree_then_label() {
    let mut windows = WindowArena::new();
    let mut views = ViewArena::new();
    let w = windows.create(1);
    let root = views.create();
    assert_eq!(windows.set_root_view(&mut views, w, root), Ok(()));
    assert_eq!(windows.resize(&mut views, w, Rect::new(0, 0, 20, 10)), Ok(()));
    let (rects, text) = windows.render(&views, w);
    assert_eq!(
        rects,
        vec![DrawRect { view: root, window: w, rect: Rect::new(0, 0, 20, 10), color: Color::zero() }]
    );
    assert_eq!(text, label(w));
    let (rects, text) = windows.render(&views, 8);
    assert!(rects.is_empty());
    assert_eq!(text, label(8));
}

#[test]
fn pointer_events_change_nothing() {
    let mut windows = WindowArena::new();
    let w = windows.create(1);
    assert!(windows.mouse_move(w, Point { x: 3, y: 4 }));
    assert!(windows.mouse_click(w, Point { x: 3, y: 4 }));
    assert!(!windows.mouse_move(2, Point { x: 3, y: 4 }));
    assert!(!windows.mouse_click(2, Point { x: 3, y: 4 }));
    assert_eq!(windows.get_root_view(w), None);
}
