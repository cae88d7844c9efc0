//! Docking layout: a rectangle is shared out among an ordered list of
//! children. Each child but the last takes a strip along one edge of what is
//! left; the last takes all that remains.

use vstd::prelude::*;
use crate::geometry::{Point, Rect, Size, sat, sat_add, sat_sub, rect_at};

verus! {

/// The edge against which a child claims space.
#[derive(Clone, Copy, Debug, PartialEq, Eq, Structural)]
pub enum DockLocation {
    Top,
    Bottom,
    Left,
    Right,
}

/// What the layout reads of one child: its edge and the size it asks for.
#[derive(Clone, Copy, Debug, PartialEq, Eq, Structural)]
pub struct DockItem {
    pub location: DockLocation,
    pub size: Size,
}

/// The four edges of the space that is still free.
#[derive(Clone, Copy, Debug, PartialEq, Eq, Structural)]
pub struct Edges {
    pub left: i64,
    pub top: i64,
    pub right: i64,
    pub bottom: i64,
}

/// The edges of a rectangle.
pub open spec fn edges_of(r: Rect) -> Edges {
    Edges {
        left: r.origin.x,
        top: r.origin.y,
        right: sat(r.origin.x + r.size.width),
        bottom: sat(r.origin.y + r.size.height),
    }
}

/// The rectangle that spans the free space.
pub open spec fn span(e: Edges) -> Rect {
    rect_at(e.left, e.top, sat(e.right - e.left), sat(e.bottom - e.top))
}

/// The strip that a child docked as `item` takes from the free space `e`.
pub open spec fn strip(e: Edges, item: DockItem) -> Rect {
    let full = span(e);
    match item.location {
        DockLocation::Top => rect_at(e.left, e.top, full.size.width, item.size.height),
        DockLocation::Bottom => rect_at(
            e.left,
            sat(e.bottom - item.size.height),
            full.size.width,
            item.size.height,
        ),
        DockLocation::Left => rect_at(e.left, e.top, item.size.width, full.size.height),
        DockLocation::Right => rect_at(
            sat(e.right - item.size.width),
            e.top,
            item.size.width,
            full.size.height,
        ),
    }
}

/// The free space that is left of `e` once a child docked as `item` has taken its strip.
pub open spec fn consume(e: Edges, item: DockItem) -> Edges {
    match item.location {
        DockLocation::Top => Edges { top: sat(e.top + item.size.height), ..e },
        DockLocation::Bottom => Edges { bottom: sat(e.bottom - item.size.height), ..e },
        DockLocation::Left => Edges { left: sat(e.left + item.size.width), ..e },
        DockLocation::Right => Edges { right: sat(e.right - item.size.width), ..e },
    }
}

/// The free space after the first `n` of `items` have taken their strips, in order.
pub open spec fn remaining(e: Edges, items: Seq<DockItem>, n: int) -> Edges
    decreases n,
{
    if n <= 0 {
        e
    } else {
        consume(remaining(e, items, n - 1), items[n - 1])
    }
}

/// The rectangle of child `i` of `items` inside `parent`: its strip, or, for
/// the last child, all that its predecessors left.
pub open spec fn dock_rect(parent: Rect, items: Seq<DockItem>, i: int) -> Rect {
    let free = remaining(edges_of(parent), items, i);
    if i == items.len() - 1 {
        span(free)
    } else {
        strip(free, items[i])
    }
}

/// The edges of `r`.
pub fn edges(r: Rect) -> (e: Edges)
    ensures
        e == edges_of(r),
{
    Edges {
        left: r.origin.x,
        top: r.origin.y,
        right: sat_add(r.origin.x, r.size.width),
        bottom: sat_add(r.origin.y, r.size.height),
    }
}

/// The rectangle spanned by `e`.
pub fn fill(e: Edges) -> (r: Rect)
    ensures
        r == span(e),
{
    Rect {
        origin: Point { x: e.left, y: e.top },
        size: Size { width: sat_sub(e.right, e.left), height: sat_sub(e.bottom, e.top) },
    }
}

/// Docks one child: returns its strip and the free space it leaves.
pub fn dock_one(e: Edges, item: DockItem) -> (out: (Rect, Edges))
    ensures
        out.0 == strip(e, item),
        out.1 == consume(e, item),
{
    let width: i64 = sat_sub(e.right, e.left);
    let height: i64 = sat_sub(e.bottom, e.top);
    match item.location {
        DockLocation::Top => {
            let r = Rect {
                origin: Point { x: e.left, y: e.top },
                size: Size { width, height: item.size.height },
            };
            (r, Edges { left: e.left, top: sat_add(e.top, item.size.height), right: e.right, bottom: e.bottom })
        },
        DockLocation::Bottom => {
            let edge: i64 = sat_sub(e.bottom, item.size.height);
            let r = Rect {
                origin: Point { x: e.left, y: edge },
                size: Size { width, height: item.size.height },
            };
            (r, Edges { left: e.left, top: e.top, right: e.right, bottom: edge })
        },
        DockLocation::Left => {
            let r = Rect {
                origin: Point { x: e.left, y: e.top },
                size: Size { width: item.size.width, height },
            };
            (r, Edges { left: sat_add(e.left, item.size.width), top: e.top, right: e.right, bottom: e.bottom })
        },
        DockLocation::Right => {
            let edge: i64 = sat_sub(e.right, item.size.width);
            let r = Rect {
                origin: Point { x: edge, y: e.top },
                size: Size { width: item.size.width, height },
            };
            (r, Edges { left: e.left, top: e.top, right: edge, bottom: e.bottom })
        },
    }
}

/// Shares `parent` out among `items`: the result holds one rectangle per
/// child, in the children's order.
pub fn dock_layout(parent: Rect, items: &Vec<DockItem>) -> (out: Vec<Rect>)
    ensures
        out@.len() == items@.len(),
        forall|i: int| 0 <= i < items@.len() ==> out@[i] == dock_rect(parent, items@, i),
{
    let mut out: Vec<Rect> = Vec::new();
    let mut free = edges(parent);
    let n: usize = items.len();
    let mut i: usize = 0;
    while i < n
        invariant
            n == items@.len(),
            i <= n,
            out@.len() == i,
            i < n ==> free == remaining(edges_of(parent), items@, i as int),
            forall|j: int| 0 <= j < i ==> out@[j] == dock_rect(parent, items@, j),
        decreases n - i,
    {
        if i == n - 1 {
            out.push(fill(free));
        } else {
            let (r, rest) = dock_one(free, items[i]);
            out.push(r);
            free = rest;
        }
        i = i + 1;
    }
    out
}

/// The last child gets the parent's rectangle less what its predecessors
/// took, whatever its own edge and size.
pub proof fn lemma_last_child_fills(parent: Rect, items: Seq<DockItem>)
    requires
        items.len() > 0,
    ensures
        dock_rect(parent, items, items.len() - 1) == span(
            remaining(edges_of(parent), items, items.len() - 1),
        ),
{
}

/// An only child gets the parent's rectangle itself, whatever its edge and
/// size, provided the parent's far edges lie in the coordinate range.
pub proof fn lemma_only_child_fills(parent: Rect, item: DockItem)
    requires
        i64::MIN <= parent.origin.x + parent.size.width <= i64::MAX,
        i64::MIN <= parent.origin.y + parent.size.height <= i64::MAX,
    ensures
        dock_rect(parent, seq![item], 0) == parent,
{
}

/// Whether `v` is small enough for the five-child layout below to stay
/// clear of saturation.
pub open spec fn small(v: i64) -> bool {
    -0x1000_0000_0000_0000 <= v <= 0x1000_0000_0000_0000
}

/// Children docked top, left, bottom and right, followed by a fifth, in a
/// rectangle of width `w` and height `h` at the origin: each of the four
/// takes its strip from what its predecessors left, and the fifth gets the
/// interior, whatever its own edge and size.
pub proof fn lemma_four_edges_then_fill(
    w: i64,
    h: i64,
    h1: i64,
    w1: i64,
    h2: i64,
    w2: i64,
    last: DockItem,
    other: Size,
)
    requires
        small(w),
        small(h),
        small(h1),
        small(w1),
        small(h2),
        small(w2),
    ensures
        ({
            let items = seq![
                DockItem { location: DockLocation::Top, size: Size { width: other.width, height: h1 } },
                DockItem { location: DockLocation::Left, size: Size { width: w1, height: other.height } },
                DockItem { location: DockLocation::Bottom, size: Size { width: other.width, height: h2 } },
                DockItem { location: DockLocation::Right, size: Size { width: w2, height: other.height } },
                last,
            ];
            let parent = rect_at(0, 0, w, h);
            &&& dock_rect(parent, items, 0) == rect_at(0, 0, w, h1)
            &&& dock_rect(parent, items, 1) == rect_at(0, h1, w1, (h - h1) as i64)
            &&& dock_rect(parent, items, 2) == rect_at(w1, (h - h2) as i64, (w - w1) as i64, h2)
            &&& dock_rect(parent, items, 3) == rect_at(
                (w - w2) as i64,
                h1,
                w2,
                (h - h1 - h2) as i64,
            )
            &&& dock_rect(parent, items, 4) == rect_at(
                w1,
                h1,
                (w - w1 - w2) as i64,
                (h - h1 - h2) as i64,
            )
        }),
{
    reveal_with_fuel(remaining, 5);
}

/// What `item` takes from the free space: its height where it docks at the
/// top or the bottom, its width where it docks at the left or the right.
pub open spec fn extent(item: DockItem) -> int {
    match item.location {
        DockLocation::Top => item.size.height as int,
        DockLocation::Bottom => item.size.height as int,
        DockLocation::Left => item.size.width as int,
        DockLocation::Right => item.size.width as int,
    }
}

/// The sum of what those of the first `n` of `items` take that dock at `location`.
pub open spec fn taken(items: Seq<DockItem>, n: int, location: DockLocation) -> int
    decreases n,
{
    if n <= 0 {
        0
    } else if items[n - 1].location == location {
        taken(items, n - 1, location) + extent(items[n - 1])
    } else {
        taken(items, n - 1, location)
    }
}

/// Whether `v` lies in the coordinate range.
pub open spec fn in_range(v: int) -> bool {
    i64::MIN <= v <= i64::MAX
}

/// Whether the four edges of `parent`, each moved by what the first `m` of
/// `items` take at it, lie in the coordinate range.
pub open spec fn sums_fit(parent: Rect, items: Seq<DockItem>, m: int) -> bool {
    &&& in_range(parent.origin.x + taken(items, m, DockLocation::Left))
    &&& in_range(parent.origin.y + taken(items, m, DockLocation::Top))
    &&& in_range(parent.origin.x + parent.size.width - taken(items, m, DockLocation::Right))
    &&& in_range(parent.origin.y + parent.size.height - taken(items, m, DockLocation::Bottom))
}

/// Where no edge leaves the coordinate range on the way, the free space
/// after the first `n` children is the parent's, each edge moved inwards by
/// the sum of what the children docked at it took.
pub proof fn lemma_remaining_by_sums(parent: Rect, items: Seq<DockItem>, n: int)
    requires
        0 <= n <= items.len(),
        forall|m: int| 0 <= m <= n ==> #[trigger] sums_fit(parent, items, m),
    ensures
        remaining(edges_of(parent), items, n).left == parent.origin.x + taken(
            items,
            n,
            DockLocation::Left,
        ),
        remaining(edges_of(parent), items, n).top == parent.origin.y + taken(
            items,
            n,
            DockLocation::Top,
        ),
        remaining(edges_of(parent), items, n).right == parent.origin.x + parent.size.width
            - taken(items, n, DockLocation::Right),
        remaining(edges_of(parent), items, n).bottom == parent.origin.y + parent.size.height
            - taken(items, n, DockLocation::Bottom),
    decreases n,
{
    assert(sums_fit(parent, items, n));
    if n > 0 {
        assert(sums_fit(parent, items, n - 1));
        lemma_remaining_by_sums(parent, items, n - 1);
    }
}

/// Where nothing leaves the coordinate range, the last child's rectangle is
/// the parent's, moved in from the left and the top by the widths and
/// heights that its predecessors took there, and narrowed and shortened by
/// all that they took, whatever the last child's own edge and size.
pub proof fn lemma_last_child_by_sums(parent: Rect, items: Seq<DockItem>)
    requires
        items.len() > 0,
        forall|m: int| 0 <= m <= items.len() - 1 ==> #[trigger] sums_fit(parent, items, m),
        in_range(
            parent.size.width - taken(items, items.len() - 1, DockLocation::Left) - taken(
                items,
                items.len() - 1,
                DockLocation::Right,
            ),
        ),
        in_range(
            parent.size.height - taken(items, items.len() - 1, DockLocation::Top) - taken(
                items,
                items.len() - 1,
                DockLocation::Bottom,
            ),
        ),
    ensures
        ({
            let n = items.len() - 1;
            let last = dock_rect(parent, items, n);
            &&& last.origin.x == parent.origin.x + taken(items, n, DockLocation::Left)
            &&& last.origin.y == parent.origin.y + taken(items, n, DockLocation::Top)
            &&& last.size.width == parent.size.width - taken(items, n, DockLocation::Left) - taken(
                items,
                n,
                DockLocation::Right,
            )
            &&& last.size.height == parent.size.height - taken(items, n, DockLocation::Top)
                - taken(items, n, DockLocation::Bottom)
        }),
{
    lemma_remaining_by_sums(parent, items, items.len() - 1);
}

} // verus!
