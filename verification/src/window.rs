//! The window arena: every window, held by the identifier of its surface,
//! and the callbacks that lay out and render the view tree it shows.

use vstd::prelude::*;
use std::collections::HashMap;
use crate::geometry::{Color, Point, Rect, Size, rect_at};
use crate::view::{DrawRect, ViewArena, ViewError, ViewModel};

verus! {

broadcast use vstd::std_specs::hash::group_hash_axioms;

/// The width that a new window's surface is asked for.
pub const DEFAULT_WINDOW_WIDTH: i64 = 800;

/// The height that a new window's surface is asked for.
pub const DEFAULT_WINDOW_HEIGHT: i64 = 600;

/// One window as the arena stores it.
pub struct WindowObject {
    pub id: u64,
    pub title: String,
    pub size: Size,
    pub mouse_pos: Point,
    pub system_window: u64,
    pub root_view: Option<u64>,
}

/// Why an operation on a window did not do all of its work.
#[derive(Clone, Copy, Debug, PartialEq, Eq, Structural)]
pub enum WindowError {
    /// The identifier names no window of the arena.
    WindowNotFound,
    /// The window is there, the view is not.
    ViewNotFound,
    /// Neither the window nor the view is there.
    BothNotFound,
    /// The operation is reserved and changes nothing.
    NotImplemented,
}

/// A label to be drawn on a window's surface.
#[derive(Clone, Copy, Debug, PartialEq, Eq, Structural)]
pub struct DrawLabel {
    pub window: u64,
    pub rect: Rect,
    pub color: Color,
}

/// What a window holds, as mathematical data.
pub ghost struct WindowModel {
    pub id: u64,
    pub title: Seq<char>,
    pub size: Size,
    pub pointer: Point,
    pub surface: u64,
    pub root_view: Option<u64>,
}

/// The windows, by identifier.
pub struct WindowArena {
    windows: HashMap<u64, WindowObject>,
}

/// The label that follows the view tree in every frame of `window`.
pub open spec fn frame_label(window: u64) -> DrawLabel {
    DrawLabel {
        window,
        rect: rect_at(10, 10, 250, 50),
        color: Color { r: 0, g: 255, b: 0, a: 255 },
    }
}

/// The model of a stored window.
pub open spec fn window_model(w: WindowObject) -> WindowModel {
    WindowModel {
        id: w.id,
        title: w.title@,
        size: w.size,
        pointer: w.mouse_pos,
        surface: w.system_window,
        root_view: w.root_view,
    }
}

/// The model of the window that was just created for `surface`: it has the
/// surface's identifier, an empty title, the default size and no root view.
pub open spec fn fresh_window(surface: u64) -> WindowModel {
    WindowModel {
        id: surface,
        title: Seq::empty(),
        size: Size { width: DEFAULT_WINDOW_WIDTH, height: DEFAULT_WINDOW_HEIGHT },
        pointer: Point { x: 0, y: 0 },
        surface,
        root_view: None,
    }
}

/// What `set_root_view` answers, by whether the window and the view resolve.
pub open spec fn root_outcome(has_window: bool, has_view: bool) -> Result<(), WindowError> {
    if has_window && has_view {
        Ok(())
    } else if has_window {
        Err(WindowError::ViewNotFound)
    } else if has_view {
        Err(WindowError::WindowNotFound)
    } else {
        Err(WindowError::BothNotFound)
    }
}

impl View for WindowArena {
    type V = Map<u64, WindowModel>;

    closed spec fn view(&self) -> Map<u64, WindowModel> {
        Map::new(
            |id: u64| self.windows@.contains_key(id),
            |id: u64| window_model(self.windows@[id]),
        )
    }
}

impl WindowArena {
    /// Whether `id` names a window of the arena.
    pub open spec fn contains(&self, id: u64) -> bool {
        self@.contains_key(id)
    }

    /// The root view of window `id`.
    pub open spec fn root_of(&self, id: u64) -> Option<u64> {
        self@[id].root_view
    }

    /// An arena without windows.
    pub fn new() -> (arena: WindowArena)
        ensures
            arena@ == Map::<u64, WindowModel>::empty(),
    {
        let arena = WindowArena { windows: HashMap::new() };
        assert(arena@ =~= Map::<u64, WindowModel>::empty());
        arena
    }

    /// Whether `id` names a window of the arena.
    pub fn resolves(&self, id: u64) -> (b: bool)
        ensures
            b == self.contains(id),
    {
        self.windows.contains_key(&id)
    }

    /// The root view of `id`; `None` where it has none or `id` does not resolve.
    pub fn get_root_view(&self, id: u64) -> (root: Option<u64>)
        ensures
            root == if self.contains(id) {
                self.root_of(id)
            } else {
                None
            },
    {
        match self.windows.get(&id) {
            Some(w) => w.root_view,
            None => None,
        }
    }

    /// Records a window for the surface `surface`, with the default size and
    /// no root view, under the surface's own identifier. A window recorded
    /// earlier under that identifier is replaced.
    pub fn create(&mut self, surface: u64) -> (id: u64)
        ensures
            id == surface,
            final(self)@ == old(self)@.insert(id, fresh_window(surface)),
    {
        let window = WindowObject {
            id: surface,
            title: String::new(),
            size: Size { width: DEFAULT_WINDOW_WIDTH, height: DEFAULT_WINDOW_HEIGHT },
            mouse_pos: Point { x: 0, y: 0 },
            system_window: surface,
            root_view: None,
        };
        self.windows.insert(surface, window);
        assert(self@ =~= old(self)@.insert(surface, fresh_window(surface)));
        surface
    }

    /// Reserved: destroying a window is not provided. Nothing changes, and
    /// the answer says so.
    pub fn destroy(&mut self, id: u64) -> (res: Result<(), WindowError>)
        ensures
            *final(self) == *old(self),
            res == Err::<(), WindowError>(WindowError::NotImplemented),
    {
        Err(WindowError::NotImplemented)
    }

    /// Makes `view` the root of `window` and stamps `window` on `view` and
    /// everything below it. Both must resolve; otherwise nothing changes,
    /// in either arena. The subtree of an earlier root keeps its window
    /// links.
    pub fn set_root_view(&mut self, views: &mut ViewArena, window: u64, view: u64) -> (res: Result<
        (),
        WindowError,
    >)
        requires
            old(views).wf(),
        ensures
            res == root_outcome(old(self).contains(window), old(views).contains(view)),
            final(views).wf(),
            final(views).shape() == old(views).shape(),
            final(views).count() == old(views).count(),
            final(views)@.dom() == old(views)@.dom(),
            res is Err ==> *final(self) == *old(self) && *final(views) == *old(views),
            res is Ok ==> final(self)@ == old(self)@.insert(
                window,
                WindowModel { root_view: Some(view), ..old(self)@[window] },
            ),
            res is Ok ==> forall|x: u64|
                old(views).contains(x) ==> #[trigger] final(views)@[x] == if old(views).in_subtree(
                    view,
                    x,
                ) {
                    ViewModel { window: Some(window), ..old(views)@[x] }
                } else {
                    old(views)@[x]
                },
    {
        let has_window = self.windows.contains_key(&window);
        let has_view = views.resolves(view);
        if !has_window && !has_view {
            return Err(WindowError::BothNotFound);
        }
        if !has_window {
            return Err(WindowError::WindowNotFound);
        }
        if !has_view {
            return Err(WindowError::ViewNotFound);
        }
        match self.windows.remove(&window) {
            Some(found) => {
                let mut object = found;
                object.root_view = Some(view);
                self.windows.insert(window, object);
            },
            None => {},
        }
        assert(self@ =~= old(self)@.insert(
            window,
            WindowModel { root_view: Some(view), ..old(self)@[window] },
        ));
        let stamped = views.set_window_down(view, Some(window));
        Ok(())
    }

    /// The surface of `window` has the rectangle `rect`: lays out the
    /// window's view tree in it. A window without a root view lays out
    /// nothing.
    pub fn resize(&self, views: &mut ViewArena, window: u64, rect: Rect) -> (res: Result<
        (),
        WindowError,
    >)
        requires
            old(views).wf(),
        ensures
            final(views).wf(),
            final(views).shape() == old(views).shape(),
            final(views).count() == old(views).count(),
            !self.contains(window) ==> res == Err::<(), WindowError>(WindowError::WindowNotFound)
                && *final(views) == *old(views),
            self.contains(window) && self.root_of(window) is None ==> res is Ok && *final(views)
                == *old(views),
            self.contains(window) && self.root_of(window) is Some && !old(views).contains(
                self.root_of(window)->0,
            ) ==> res == Err::<(), WindowError>(WindowError::ViewNotFound) && *final(views) == *old(
                views,
            ),
            self.contains(window) && self.root_of(window) is Some && old(views).contains(
                self.root_of(window)->0,
            ) ==> {
                let root = self.root_of(window)->0;
                &&& res is Ok
                &&& final(views)@.dom() == old(views)@.dom()
                &&& final(views)@[root].rect == rect
                &&& forall|x: u64|
                    old(views).contains(x) ==> #[trigger] final(views)@[x] == (ViewModel {
                        rect: if old(views).in_subtree(root, x) {
                            final(views)@[x].rect
                        } else {
                            old(views)@[x].rect
                        },
                        ..old(views)@[x]
                    })
                &&& forall|p: u64, j: int|
                    old(views).contains(p) && old(views).in_subtree(root, p) && 0 <= j < old(
                        views,
                    )@[p].children.len() ==> final(views)@[#[trigger] old(
                        views,
                    )@[p].children[j]].rect == crate::dock::dock_rect(
                        final(views)@[p].rect,
                        old(views).dock_items(p),
                        j,
                    )
            },
    {
        if !self.resolves(window) {
            return Err(WindowError::WindowNotFound);
        }
        match self.get_root_view(window) {
            None => Ok(()),
            Some(root) => match views.layout_down(root, rect) {
                Ok(()) => Ok(()),
                Err(_) => Err(WindowError::ViewNotFound),
            },
        }
    }

    /// The draw commands of one frame of `window`.
    pub open spec fn frame(&self, views: &ViewArena, window: u64) -> Seq<DrawRect> {
        if self.contains(window) && self.root_of(window) is Some && views.contains(
            self.root_of(window)->0,
        ) {
            views.scene(self.root_of(window)->0)
        } else {
            Seq::empty()
        }
    }

    /// One frame of `window`: the draw commands of its view tree, depth
    /// first, and the label that follows them. A window that does not
    /// resolve, or has no root view, draws the label alone.
    pub fn render(&self, views: &ViewArena, window: u64) -> (out: (Vec<DrawRect>, DrawLabel))
        requires
            views.wf(),
        ensures
            out.0@ == self.frame(views, window),
            out.1 == frame_label(window),
    {
        let label = DrawLabel {
            window,
            rect: Rect::new(10, 10, 250, 50),
            color: Color { r: 0, g: 255, b: 0, a: 255 },
        };
        let rects: Vec<DrawRect> = match self.get_root_view(window) {
            Some(root) => match views.render_down(root) {
                Ok(list) => list,
                Err(_) => Vec::new(),
            },
            None => Vec::new(),
        };
        (rects, label)
    }

    /// The pointer moved over `window`. Accepted; changes nothing.
    pub fn mouse_move(&self, window: u64, point: Point) -> (known: bool)
        ensures
            known == self.contains(window),
    {
        self.resolves(window)
    }

    /// The pointer clicked in `window`. Accepted; changes nothing.
    pub fn mouse_click(&self, window: u64, point: Point) -> (known: bool)
        ensures
            known == self.contains(window),
    {
        self.resolves(window)
    }
}

} // verus!
