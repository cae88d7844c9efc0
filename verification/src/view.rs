//! The view arena: every view of the scene graph, held by identifier, with
//! the links between views and the traversals that stamp windows, lay out
//! and render.

use vstd::prelude::*;
use crate::geometry::{Color, Rect, Size, zero_color, zero_rect, zero_size};
use crate::dock::{DockItem, DockLocation, dock_layout, dock_rect};

verus! {

/// One view as the arena stores it.
pub struct ViewObject {
    pub id: u64,
    pub window: Option<u64>,
    pub parent: Option<u64>,
    pub children: Vec<u64>,
    pub requested_size: Size,
    pub dock_location: DockLocation,
    pub background_color: Color,
    pub calculated_rect: Rect,
}

/// What a view holds, as mathematical data.
pub ghost struct ViewModel {
    pub id: u64,
    pub window: Option<u64>,
    pub parent: Option<u64>,
    pub children: Seq<u64>,
    pub size: Size,
    pub dock: DockLocation,
    pub color: Color,
    pub rect: Rect,
}

/// Why an operation on a view did nothing.
#[derive(Clone, Copy, Debug, PartialEq, Eq, Structural)]
pub enum ViewError {
    /// The identifier names no view of the arena.
    NotFound,
    /// The operation is reserved and changes nothing.
    NotImplemented,
}

/// Why `add_child` linked nothing.
#[derive(Clone, Copy, Debug, PartialEq, Eq, Structural)]
pub enum LinkError {
    /// The parent resolves, the child does not.
    MissingChild,
    /// The child resolves, the parent does not.
    MissingParent,
    /// Neither identifier resolves.
    MissingBoth,
    /// The child already has a parent.
    AlreadyAttached,
    /// The parent is the child itself or lies below it.
    Cycle,
}

/// A rectangle to be filled with a colour on a window's surface, for one view.
#[derive(Clone, Copy, Debug, PartialEq, Eq, Structural)]
pub struct DrawRect {
    pub view: u64,
    pub window: u64,
    pub rect: Rect,
    pub color: Color,
}

/// The arena of views. Identifiers are handed out from 1 upwards and never
/// removed, so the views stand in a vector, the view `id` at position
/// `id - 1`, and a field of a view is changed in place.
pub struct ViewArena {
    nodes: Vec<ViewObject>,
    depth: Ghost<Seq<nat>>,
    bound: Ghost<nat>,
}

/// The model of the view that was just created under `id`.
pub open spec fn fresh_model(id: u64) -> ViewModel {
    ViewModel {
        id,
        window: None,
        parent: None,
        children: Seq::empty(),
        size: zero_size(),
        dock: DockLocation::Left,
        color: zero_color(),
        rect: zero_rect(),
    }
}

/// The model of a stored view.
pub open spec fn model_of(v: ViewObject) -> ViewModel {
    ViewModel {
        id: v.id,
        window: v.window,
        parent: v.parent,
        children: v.children@,
        size: v.requested_size,
        dock: v.dock_location,
        color: v.background_color,
        rect: v.calculated_rect,
    }
}

/// Every parent link names a stored view of smaller depth.
pub open spec fn ranked(links: Seq<Option<u64>>, depth: Seq<nat>) -> bool {
    &&& links.len() == depth.len()
    &&& forall|i: int|
        0 <= i < links.len() && (#[trigger] links[i]) is Some ==> 1 <= links[i]->0 <= links.len()
            && depth[links[i]->0 - 1] < depth[i]
}

/// Whether `x` is `root` or is reached from `root` by parent links read upwards from `x`.
pub open spec fn descends(links: Seq<Option<u64>>, depth: Seq<nat>, root: u64, x: u64) -> bool
    decreases
        (if ranked(links, depth) && 1 <= x <= links.len() {
            depth[x - 1]
        } else {
            0
        }),
{
    if !(ranked(links, depth) && 1 <= x <= links.len()) {
        x == root
    } else if x == root {
        true
    } else {
        match links[x - 1] {
            Some(p) => descends(links, depth, root, p),
            None => false,
        }
    }
}

impl Default for ViewObject {
    fn default() -> (v: ViewObject)
        ensures
            v.id == 0,
            model_of(v) == fresh_model(0),
    {
        ViewObject {
            id: 0,
            window: None,
            parent: None,
            children: Vec::new(),
            requested_size: Size::zero(),
            dock_location: DockLocation::Left,
            background_color: Color::zero(),
            calculated_rect: Rect::zero(),
        }
    }
}

impl View for ViewArena {
    type V = Map<u64, ViewModel>;

    closed spec fn view(&self) -> Map<u64, ViewModel> {
        Map::new(
            |id: u64| 1 <= id <= self.nodes@.len(),
            |id: u64| model_of(self.nodes@[id - 1]),
        )
    }
}

impl ViewArena {
    /// The number of views created so far.
    pub closed spec fn count(&self) -> nat {
        self.nodes@.len()
    }

    /// Whether `id` names a view of the arena.
    pub open spec fn contains(&self, id: u64) -> bool {
        self@.contains_key(id)
    }

    /// The parent link of every view, by position.
    pub closed spec fn links(&self) -> Seq<Option<u64>> {
        Seq::new(self.nodes@.len(), |i: int| self.nodes@[i].parent)
    }

    /// Whether `x` is `root` or one of its descendants.
    pub closed spec fn in_subtree(&self, root: u64, x: u64) -> bool {
        descends(self.links(), self.depth@, root, x)
    }

    /// The arena's invariant: identifiers are positions, parent and child
    /// links agree, no view is listed twice, and the links form a forest.
    pub closed spec fn wf(&self) -> bool {
        &&& ranked(self.links(), self.depth@)
        &&& forall|i: int| 0 <= i < self.nodes@.len() ==> (#[trigger] self.nodes@[i]).id == i + 1
        &&& forall|i: int| 0 <= i < self.depth@.len() ==> #[trigger] self.depth@[i] < self.bound@
        &&& forall|x: u64|
            self.has(x) && (#[trigger] self.par(x)) is Some ==> self.has(self.par(x)->0)
                && self.kids(self.par(x)->0).contains(x)
        &&& forall|x: u64, j: int|
            self.has(x) && 0 <= j < self.kids(x).len() ==> self.has(#[trigger] self.kids(x)[j])
                && self.par(self.kids(x)[j]) == Some(x)
        &&& forall|x: u64, j: int, k: int|
            self.has(x) && 0 <= j < k < self.kids(x).len() ==> #[trigger] self.kids(x)[j]
                != #[trigger] self.kids(x)[k]
    }

    spec fn has(&self, x: u64) -> bool {
        1 <= x <= self.nodes@.len()
    }

    spec fn par(&self, x: u64) -> Option<u64> {
        self.nodes@[x - 1].parent
    }

    spec fn kids(&self, x: u64) -> Seq<u64> {
        self.nodes@[x - 1].children@
    }

    /// The view is the stored views, keyed by identifier.
    proof fn lemma_view(&self)
        ensures
            forall|x: u64| self.has(x) <==> #[trigger] self@.contains_key(x),
            forall|x: u64| self.has(x) ==> #[trigger] self@[x] == model_of(self.nodes@[x - 1]),
            self.links().len() == self.nodes@.len(),
            forall|i: int| 0 <= i < self.nodes@.len() ==> #[trigger] self.links()[i] == self.nodes@[i].parent,
    {
    }

    /// An arena that differs from a well-formed one in no link is well-formed
    /// and has its shape.
    proof fn lemma_same_links(&self, other: &Self)
        requires
            other.wf(),
            self.nodes@.len() == other.nodes@.len(),
            self.depth@ == other.depth@,
            self.bound@ == other.bound@,
            forall|i: int|
                0 <= i < self.nodes@.len() ==> (#[trigger] self.nodes@[i]).id == other.nodes@[i].id
                    && self.nodes@[i].parent == other.nodes@[i].parent
                    && self.nodes@[i].children@ == other.nodes@[i].children@,
        ensures
            self.wf(),
            self.shape() == other.shape(),
    {
        assert(self.links() =~= other.links());
        assert forall|x: u64| self.has(x) implies #[trigger] self.par(x) == other.par(x) by {
            assert(self.nodes@[x - 1].parent == other.nodes@[x - 1].parent);
        }
        assert forall|x: u64| self.has(x) implies #[trigger] self.kids(x) == other.kids(x) by {
            assert(self.nodes@[x - 1].children@ == other.nodes@[x - 1].children@);
        }
        assert forall|x: u64, j: int| self.has(x) && 0 <= j < self.kids(x).len() implies self.has(
            #[trigger] self.kids(x)[j],
        ) && self.par(self.kids(x)[j]) == Some(x) by {
            assert(other.par(other.kids(x)[j]) == Some(x));
        }
        assert forall|x: u64, j: int, k: int|
            self.has(x) && 0 <= j < k < self.kids(x).len() implies #[trigger] self.kids(x)[j]
            != #[trigger] self.kids(x)[k] by {
            assert(other.kids(x)[j] != other.kids(x)[k]);
        }
    }

    /// The position of `id` in the store, where it resolves.
    fn slot(&self, id: u64) -> (r: Option<usize>)
        ensures
            r is Some <==> self.contains(id),
            r is Some <==> self.has(id),
            r is Some ==> r->0 == id - 1 && self@[id] == model_of(self.nodes@[id - 1]),
    {
        proof {
            self.lemma_view();
        }
        if id >= 1 && id <= self.nodes.len() as u64 {
            Some((id - 1) as usize)
        } else {
            None
        }
    }

    /// An empty arena.
    pub fn new() -> (arena: ViewArena)
        ensures
            arena.wf(),
            arena.count() == 0,
            arena@ == Map::<u64, ViewModel>::empty(),
    {
        let arena = ViewArena { nodes: Vec::new(), depth: Ghost(Seq::empty()), bound: Ghost(0) };
        assert(arena@ =~= Map::<u64, ViewModel>::empty());
        arena
    }

    /// Whether `id` names a view of the arena.
    pub fn resolves(&self, id: u64) -> (b: bool)
        ensures
            b == self.contains(id),
    {
        self.slot(id).is_some()
    }

    /// Creates a view with default attributes and returns its identifier,
    /// which no earlier view has.
    pub fn create(&mut self) -> (id: u64)
        requires
            old(self).wf(),
        ensures
            final(self).wf(),
            id == old(self).count() + 1,
            !old(self).contains(id),
            final(self).count() == old(self).count() + 1,
            final(self)@ == old(self)@.insert(id, fresh_model(id)),
    {
        self.nodes.push(ViewObject::default());
        let n: usize = self.nodes.len();
        let id: u64 = n as u64;
        self.nodes[n - 1].id = id;
        self.depth = Ghost(self.depth@.push(0));
        self.bound = Ghost(self.bound@ + 1);
        proof {
            assert(self@ =~= old(self)@.insert(id, fresh_model(id)));
            assert(self.links() =~= old(self).links().push(None));
            assert forall|x: u64| old(self).has(x) implies #[trigger] self.par(x) == old(self).par(x)
                && self.kids(x) == old(self).kids(x) by {
                assert(self.nodes@[x - 1] == old(self).nodes@[x - 1]);
            }
            assert(self.kids(id) =~= Seq::<u64>::empty());
            assert forall|x: u64, j: int| self.has(x) && 0 <= j < self.kids(x).len() implies self.has(
                #[trigger] self.kids(x)[j],
            ) && self.par(self.kids(x)[j]) == Some(x) by {
                assert(old(self).par(old(self).kids(x)[j]) == Some(x));
            }
            assert forall|x: u64, j: int, k: int|
                self.has(x) && 0 <= j < k < self.kids(x).len() implies #[trigger] self.kids(x)[j]
                != #[trigger] self.kids(x)[k] by {
                assert(old(self).kids(x)[j] != old(self).kids(x)[k]);
            }
        }
        id
    }

    /// The shape of the forest: what decides which view lies below which.
    pub closed spec fn shape(&self) -> (Seq<Option<u64>>, Seq<nat>, nat) {
        (self.links(), self.depth@, self.bound@)
    }

    /// What `add_child(parent, child)` answers on this arena.
    pub open spec fn link_outcome(&self, parent: u64, child: u64) -> Result<(), LinkError> {
        if !self.contains(parent) && !self.contains(child) {
            Err(LinkError::MissingBoth)
        } else if !self.contains(parent) {
            Err(LinkError::MissingParent)
        } else if !self.contains(child) {
            Err(LinkError::MissingChild)
        } else if self@[child].parent is Some {
            Err(LinkError::AlreadyAttached)
        } else if self.in_subtree(child, parent) {
            Err(LinkError::Cycle)
        } else {
            Ok(())
        }
    }

    /// Reserved: destroying a view is not provided. Nothing changes, and the
    /// answer says so.
    pub fn destroy(&mut self, id: u64) -> (res: Result<(), ViewError>)
        ensures
            *final(self) == *old(self),
            res == Err::<(), ViewError>(ViewError::NotImplemented),
    {
        Err(ViewError::NotImplemented)
    }

    /// Makes `child` the last child of `parent`. Both must resolve, the child
    /// must have no parent yet, and the parent must not lie in the child's
    /// subtree; otherwise nothing changes.
    pub fn add_child(&mut self, parent: u64, child: u64) -> (res: Result<(), LinkError>)
        requires
            old(self).wf(),
        ensures
            final(self).wf(),
            final(self).count() == old(self).count(),
            res == old(self).link_outcome(parent, child),
            res is Err ==> *final(self) == *old(self),
            res is Ok ==> parent != child && !old(self)@[parent].children.contains(child)
                && final(self)@ == old(self)@.insert(
                child,
                ViewModel { parent: Some(parent), ..old(self)@[child] },
            ).insert(
                parent,
                ViewModel {
                    children: old(self)@[parent].children.push(child),
                    ..old(self)@[parent]
                },
            ),
    {
        let pslot = self.slot(parent);
        let cslot = self.slot(child);
        if pslot.is_none() && cslot.is_none() {
            return Err(LinkError::MissingBoth);
        }
        if pslot.is_none() {
            return Err(LinkError::MissingParent);
        }
        if cslot.is_none() {
            return Err(LinkError::MissingChild);
        }
        let ci: usize = cslot.unwrap();
        let pi: usize = pslot.unwrap();
        if self.nodes[ci].parent.is_some() {
            return Err(LinkError::AlreadyAttached);
        }
        proof {
            self.lemma_view();
        }
        let mut cur: u64 = parent;
        let mut found: bool = cur == child;
        let mut top: bool = false;
        while !found && !top
            invariant
                self.wf(),
                self.has(cur),
                found ==> self.in_subtree(child, parent),
                top ==> !self.in_subtree(child, parent),
                !found && !top ==> cur != child && self.in_subtree(child, parent)
                    == self.in_subtree(child, cur),
            decreases
                (if found || top {
                    0
                } else {
                    self.depth@[cur - 1] + 1
                }),
        {
            proof {
                self.lemma_view();
            }
            let up = self.get_parent(cur);
            assert(self.links()[cur - 1] == self.nodes@[cur - 1].parent);
            assert(self.links()[cur - 1] == up);
            assert(ranked(self.links(), self.depth@));
            match up {
                Some(q) => {
                    assert(self.links()[cur - 1] is Some);
                    assert(1 <= q <= self.links().len());
                    assert(self.in_subtree(child, cur) == self.in_subtree(child, q));
                    assert(self.in_subtree(child, child));
                    cur = q;
                    found = cur == child;
                },
                None => {
                    top = true;
                },
            }
        }
        if found {
            return Err(LinkError::Cycle);
        }
        let ghost links = self.links();
        let ghost depth = self.depth@;
        let ghost shift = depth[parent - 1] + 1;
        self.nodes[ci].parent = Some(parent);
        self.nodes[pi].children.push(child);
        self.depth = Ghost(
            Seq::new(
                depth.len(),
                |i: int|
                    if descends(links, depth, child, (i + 1) as u64) {
                        depth[i] + shift
                    } else {
                        depth[i]
                    },
            ),
        );
        self.bound = Ghost(old(self).bound@ + old(self).bound@ + 1);
        proof {
            old(self).lemma_view();
            self.lemma_view();
            let before = old(self)@;
            let kids = old(self).kids(parent);
            assert(!kids.contains(child)) by {
                if kids.contains(child) {
                    let j = choose|j: int| 0 <= j < kids.len() && kids[j] == child;
                    assert(old(self).par(old(self).kids(parent)[j]) == Some(parent));
                }
            }
            assert(self.kids(parent) == kids.push(child));
            assert(self@ =~= before.insert(
                child,
                ViewModel { parent: Some(parent), ..before[child] },
            ).insert(parent, ViewModel { children: kids.push(child), ..before[parent] }));
            assert(self.links() =~= links.update(child - 1, Some(parent)));
            assert forall|i: int|
                0 <= i < self.links().len() && (#[trigger] self.links()[i]) is Some implies 1
                <= self.links()[i]->0 <= self.links().len() && self.depth@[self.links()[i]->0 - 1]
                < self.depth@[i] by {
                if i == child - 1 {
                    assert(descends(links, depth, child, child));
                    assert(!descends(links, depth, child, parent));
                } else {
                    assert(links[i] is Some);
                    let q = links[i]->0;
                    assert(descends(links, depth, child, (i + 1) as u64) == descends(
                        links,
                        depth,
                        child,
                        q,
                    ));
                }
            }
            assert forall|x: u64| self.has(x) && (#[trigger] self.par(x)) is Some implies self.has(
                self.par(x)->0,
            ) && self.kids(self.par(x)->0).contains(x) by {
                if x == child {
                    assert(kids.push(child)[kids.len() as int] == child);
                } else {
                    assert(old(self).par(x) is Some);
                    let q = old(self).par(x)->0;
                    assert(old(self).kids(q).contains(x));
                    if q == parent {
                        let j = choose|j: int| 0 <= j < kids.len() && kids[j] == x;
                        assert(kids.push(child)[j] == x);
                    } else {
                        assert(self.kids(q) == old(self).kids(q));
                    }
                }
            }
            assert forall|x: u64, j: int| self.has(x) && 0 <= j < self.kids(x).len() implies self.has(
                #[trigger] self.kids(x)[j],
            ) && self.par(self.kids(x)[j]) == Some(x) by {
                if x == parent && j == kids.len() {
                } else {
                    assert(old(self).kids(x)[j] == self.kids(x)[j]);
                    assert(old(self).par(old(self).kids(x)[j]) == Some(x));
                }
            }
            assert forall|x: u64, j: int, k: int|
                self.has(x) && 0 <= j < k < self.kids(x).len() implies #[trigger] self.kids(x)[j]
                != #[trigger] self.kids(x)[k] by {
                if x == parent && k == kids.len() {
                    assert(kids[j] == self.kids(x)[j]);
                    assert(kids.contains(kids[j]));
                } else {
                    assert(old(self).kids(x)[j] == self.kids(x)[j]);
                    assert(old(self).kids(x)[k] == self.kids(x)[k]);
                }
            }
            assert forall|i: int| 0 <= i < self.depth@.len() implies #[trigger] self.depth@[i]
                < self.bound@ by {
                assert(depth[i] < old(self).bound@);
                assert(depth[parent - 1] < old(self).bound@);
            }
        }
        Ok(())
    }

    /// Sets the colour that `id` is painted with.
    pub fn set_background_color(&mut self, id: u64, color: Color) -> (res: Result<(), ViewError>)
        requires
            old(self).wf(),
        ensures
            final(self).wf(),
            final(self).shape() == old(self).shape(),
            final(self).count() == old(self).count(),
            old(self).contains(id) ==> res is Ok && final(self)@ == old(self)@.insert(
                id,
                ViewModel { color, ..old(self)@[id] },
            ),
            !old(self).contains(id) ==> res == Err::<(), ViewError>(ViewError::NotFound)
                && *final(self) == *old(self),
    {
        let i: usize = match self.slot(id) {
            Some(i) => i,
            None => {
                return Err(ViewError::NotFound);
            },
        };
        self.nodes[i].background_color = color;
        proof {
            old(self).lemma_view();
            self.lemma_view();
            self.lemma_same_links(old(self));
            assert(self@ =~= old(self)@.insert(id, ViewModel { color, ..old(self)@[id] }));
            assert(self.links() =~= old(self).links());
        }
        Ok(())
    }

    /// Sets the edge against which `id` docks.
    pub fn set_dock_location(&mut self, id: u64, location: DockLocation) -> (res: Result<
        (),
        ViewError,
    >)
        requires
            old(self).wf(),
        ensures
            final(self).wf(),
            final(self).shape() == old(self).shape(),
            final(self).count() == old(self).count(),
            old(self).contains(id) ==> res is Ok && final(self)@ == old(self)@.insert(
                id,
                ViewModel { dock: location, ..old(self)@[id] },
            ),
            !old(self).contains(id) ==> res == Err::<(), ViewError>(ViewError::NotFound)
                && *final(self) == *old(self),
    {
        let i: usize = match self.slot(id) {
            Some(i) => i,
            None => {
                return Err(ViewError::NotFound);
            },
        };
        self.nodes[i].dock_location = location;
        proof {
            old(self).lemma_view();
            self.lemma_view();
            self.lemma_same_links(old(self));
            assert(self@ =~= old(self)@.insert(id, ViewModel { dock: location, ..old(self)@[id] }));
            assert(self.links() =~= old(self).links());
        }
        Ok(())
    }

    /// Sets the size that `id` asks for when docked.
    pub fn set_size(&mut self, id: u64, size: Size) -> (res: Result<(), ViewError>)
        requires
            old(self).wf(),
        ensures
            final(self).wf(),
            final(self).shape() == old(self).shape(),
            final(self).count() == old(self).count(),
            old(self).contains(id) ==> res is Ok && final(self)@ == old(self)@.insert(
                id,
                ViewModel { size, ..old(self)@[id] },
            ),
            !old(self).contains(id) ==> res == Err::<(), ViewError>(ViewError::NotFound)
                && *final(self) == *old(self),
    {
        let i: usize = match self.slot(id) {
            Some(i) => i,
            None => {
                return Err(ViewError::NotFound);
            },
        };
        self.nodes[i].requested_size = size;
        proof {
            old(self).lemma_view();
            self.lemma_view();
            self.lemma_same_links(old(self));
            assert(self@ =~= old(self)@.insert(id, ViewModel { size, ..old(self)@[id] }));
            assert(self.links() =~= old(self).links());
        }
        Ok(())
    }

    /// The edge against which `id` docks; `Left` where `id` does not resolve.
    pub fn get_dock_location(&self, id: u64) -> (location: DockLocation)
        ensures
            location == if self.contains(id) {
                self@[id].dock
            } else {
                DockLocation::Left
            },
    {
        match self.slot(id) {
            Some(i) => self.nodes[i].dock_location,
            None => DockLocation::Left,
        }
    }

    /// The size that `id` asks for; the zero size where `id` does not resolve.
    pub fn get_size(&self, id: u64) -> (size: Size)
        ensures
            size == if self.contains(id) {
                self@[id].size
            } else {
                zero_size()
            },
    {
        match self.slot(id) {
            Some(i) => self.nodes[i].requested_size,
            None => Size::zero(),
        }
    }

    /// The rectangle that the last layout gave `id`; the zero rectangle where
    /// `id` does not resolve.
    pub fn get_rect(&self, id: u64) -> (rect: Rect)
        ensures
            rect == if self.contains(id) {
                self@[id].rect
            } else {
                zero_rect()
            },
    {
        match self.slot(id) {
            Some(i) => self.nodes[i].calculated_rect,
            None => Rect::zero(),
        }
    }

    /// The colour of `id`; the zero colour where `id` does not resolve.
    pub fn get_background_color(&self, id: u64) -> (color: Color)
        ensures
            color == if self.contains(id) {
                self@[id].color
            } else {
                zero_color()
            },
    {
        match self.slot(id) {
            Some(i) => self.nodes[i].background_color,
            None => Color::zero(),
        }
    }

    /// The parent of `id`; `None` where it has none or `id` does not resolve.
    pub fn get_parent(&self, id: u64) -> (parent: Option<u64>)
        ensures
            parent == if self.contains(id) {
                self@[id].parent
            } else {
                None
            },
    {
        match self.slot(id) {
            Some(i) => self.nodes[i].parent,
            None => None,
        }
    }

    /// The window that shows `id`; `None` where none does or `id` does not resolve.
    pub fn get_window(&self, id: u64) -> (window: Option<u64>)
        ensures
            window == if self.contains(id) {
                self@[id].window
            } else {
                None
            },
    {
        match self.slot(id) {
            Some(i) => self.nodes[i].window,
            None => None,
        }
    }

    /// The children of `id`, in order; none where `id` does not resolve.
    pub fn get_children(&self, id: u64) -> (children: Vec<u64>)
        ensures
            children@ == if self.contains(id) {
                self@[id].children
            } else {
                Seq::<u64>::empty()
            },
    {
        match self.slot(id) {
            Some(i) => {
                let kids = self.nodes[i].children.clone();
                assert(kids@ =~= self@[id].children);
                kids
            },
            None => Vec::new(),
        }
    }

    /// Whether `x` lies in the subtree of one of the first `k` children of `p`.
    pub closed spec fn below_first(&self, p: u64, k: int, x: u64) -> bool {
        exists|j: int|
            0 <= j < k && j < self.kids(p).len() && #[trigger] self.in_subtree(self.kids(p)[j], x)
    }

    /// A subtree is its root together with the subtrees of the root's children.
    proof fn lemma_subtree_split(&self, p: u64, x: u64)
        requires
            self.wf(),
            self.has(p),
            self.has(x),
        ensures
            self.in_subtree(p, x) <==> (x == p || self.below_first(p, self.kids(p).len() as int, x)),
        decreases self.depth@[x - 1],
    {
        self.lemma_view();
        let n = self.kids(p).len() as int;
        assert(self.links()[x - 1] == self.par(x));
        if x == p {
        } else {
            match self.par(x) {
                None => {
                    assert forall|j: int| 0 <= j < n implies !(#[trigger] self.in_subtree(
                        self.kids(p)[j],
                        x,
                    )) by {
                        assert(self.par(self.kids(p)[j]) == Some(p));
                    }
                },
                Some(q) => {
                    assert(self.has(q));
                    self.lemma_subtree_split(p, q);
                    assert(self.in_subtree(p, x) == self.in_subtree(p, q));
                    if self.in_subtree(p, q) {
                        if q == p {
                            assert(self.kids(p).contains(x));
                            let j = choose|j: int| 0 <= j < n && self.kids(p)[j] == x;
                            assert(self.in_subtree(self.kids(p)[j], x));
                        } else {
                            let j = choose|j: int|
                                0 <= j < n && j < self.kids(p).len() && #[trigger] self.in_subtree(
                                    self.kids(p)[j],
                                    q,
                                );
                            assert(self.in_subtree(self.kids(p)[j], x));
                        }
                    }
                    if self.below_first(p, n, x) {
                        let j = choose|j: int|
                            0 <= j < n && j < self.kids(p).len() && #[trigger] self.in_subtree(
                                self.kids(p)[j],
                                x,
                            );
                        let c = self.kids(p)[j];
                        assert(self.par(c) == Some(p));
                        if x != c {
                            assert(self.in_subtree(c, q));
                        }
                    }
                },
            }
        }
    }

    /// Child `k` of `id`.
    fn child_at(&self, id: u64, k: usize) -> (c: u64)
        requires
            self.wf(),
            self.has(id),
            k < self.kids(id).len(),
        ensures
            c == self.kids(id)[k as int],
            self.has(c),
            self.depth@[id - 1] < self.depth@[c - 1] < self.bound@,
    {
        proof {
            self.lemma_view();
        }
        let i: usize = self.slot(id).unwrap();
        let c = self.nodes[i].children[k];
        assert(self.par(self.kids(id)[k as int]) == Some(id));
        assert(self.links()[c - 1] == self.par(c));
        assert(self.links()[c - 1] is Some);
        c
    }

    /// The number of children of `id`.
    fn child_count(&self, id: u64) -> (n: usize)
        requires
            self.has(id),
        ensures
            n == self.kids(id).len(),
    {
        let i: usize = self.slot(id).unwrap();
        self.nodes[i].children.len()
    }

    /// Sets the window link in the subtree of `id`, which resolves.
    fn stamp(&mut self, id: u64, window: Option<u64>)
        requires
            old(self).wf(),
            old(self).has(id),
        ensures
            final(self).wf(),
            final(self).shape() == old(self).shape(),
            final(self).count() == old(self).count(),
            final(self).nodes@.len() == old(self).nodes@.len(),
            forall|x: u64|
                old(self).has(x) ==> #[trigger] final(self)@[x] == if old(self).in_subtree(id, x) {
                    ViewModel { window, ..old(self)@[x] }
                } else {
                    old(self)@[x]
                },
        decreases old(self).bound@ - old(self).depth@[id - 1],
    {
        let i: usize = self.slot(id).unwrap();
        self.nodes[i].window = window;
        proof {
            old(self).lemma_view();
            self.lemma_view();
            self.lemma_same_links(old(self));
            assert(self.kids(id) == old(self).kids(id));
            assert forall|x: u64| old(self).has(x) implies #[trigger] self@[x] == if x == id {
                ViewModel { window, ..old(self)@[x] }
            } else {
                old(self)@[x]
            } by {
                assert(self@[x] == model_of(self.nodes@[x - 1]));
            }
        }
        let n: usize = self.child_count(id);
        let mut k: usize = 0;
        while k < n
            invariant
                self.wf(),
                old(self).wf(),
                self.has(id),
                self.shape() == old(self).shape(),
                self.nodes@.len() == old(self).nodes@.len(),
                self.kids(id) == old(self).kids(id),
                n == self.kids(id).len(),
                k <= n,
                forall|x: u64|
                    old(self).has(x) ==> #[trigger] self@[x] == if x == id || old(self).below_first(
                        id,
                        k as int,
                        x,
                    ) {
                        ViewModel { window, ..old(self)@[x] }
                    } else {
                        old(self)@[x]
                    },
            decreases n - k,
        {
            let c = self.child_at(id, k);
            let ghost mid = *self;
            self.stamp(c, window);
            proof {
                mid.lemma_view();
                self.lemma_view();
                assert(self.kids(id) == mid.kids(id)) by {
                    assert(self@[id].children == mid@[id].children);
                }
                assert forall|x: u64| old(self).has(x) implies #[trigger] self@[x] == if x == id
                    || old(self).below_first(id, k + 1, x) {
                    ViewModel { window, ..old(self)@[x] }
                } else {
                    old(self)@[x]
                } by {
                    assert(mid.in_subtree(c, x) == old(self).in_subtree(old(self).kids(id)[k as int], x));
                    if old(self).below_first(id, k + 1, x) {
                        let j = choose|j: int|
                            0 <= j < k + 1 && j < old(self).kids(id).len() && #[trigger] old(
                                self,
                            ).in_subtree(old(self).kids(id)[j], x);
                        if j < k {
                            assert(old(self).below_first(id, k as int, x));
                        }
                    }
                }
            }
            k = k + 1;
        }
        proof {
            assert forall|x: u64| old(self).has(x) implies #[trigger] self@[x] == if old(
                self,
            ).in_subtree(id, x) {
                ViewModel { window, ..old(self)@[x] }
            } else {
                old(self)@[x]
            } by {
                old(self).lemma_subtree_split(id, x);
            }
        }
    }

    /// Sets the window link of `id` and of every view below it to `window`,
    /// whatever they held before. Nothing else changes.
    pub fn set_window_down(&mut self, id: u64, window: Option<u64>) -> (res: Result<(), ViewError>)
        requires
            old(self).wf(),
        ensures
            final(self).wf(),
            final(self).shape() == old(self).shape(),
            final(self).count() == old(self).count(),
            final(self)@.dom() == old(self)@.dom(),
            old(self).contains(id) ==> res is Ok && forall|x: u64|
                old(self).contains(x) ==> #[trigger] final(self)@[x] == if old(self).in_subtree(
                    id,
                    x,
                ) {
                    ViewModel { window, ..old(self)@[x] }
                } else {
                    old(self)@[x]
                },
            !old(self).contains(id) ==> res == Err::<(), ViewError>(ViewError::NotFound)
                && *final(self) == *old(self),
    {
        if self.slot(id).is_none() {
            return Err(ViewError::NotFound);
        }
        self.stamp(id, window);
        proof {
            old(self).lemma_view();
            self.lemma_view();
            assert(self@.dom() =~= old(self)@.dom());
        }
        Ok(())
    }

    /// What the layout reads of the children of `p`, in their order.
    pub open spec fn dock_items(&self, p: u64) -> Seq<DockItem> {
        Seq::new(
            self@[p].children.len(),
            |j: int|
                DockItem {
                    location: self@[self@[p].children[j]].dock,
                    size: self@[self@[p].children[j]].size,
                },
        )
    }

    /// A view lies no higher in the forest than the root of a subtree that holds it.
    proof fn lemma_depth(&self, root: u64, x: u64)
        requires
            self.wf(),
            self.has(root),
            self.has(x),
            self.in_subtree(root, x),
        ensures
            self.depth@[root - 1] <= self.depth@[x - 1],
        decreases self.depth@[x - 1],
    {
        self.lemma_view();
        assert(self.links()[x - 1] == self.par(x));
        if x != root {
            self.lemma_depth(root, self.par(x)->0);
        }
    }

    /// The dock items of the children of `id`.
    fn collect_items(&self, id: u64) -> (items: Vec<DockItem>)
        requires
            self.wf(),
            self.has(id),
        ensures
            items@ == self.dock_items(id),
    {
        let n: usize = self.child_count(id);
        let mut items: Vec<DockItem> = Vec::new();
        let mut k: usize = 0;
        proof {
            self.lemma_view();
        }
        while k < n
            invariant
                self.wf(),
                self.has(id),
                n == self.kids(id).len(),
                self.kids(id) == self@[id].children,
                k <= n,
                items@.len() == k,
                forall|j: int| 0 <= j < k ==> items@[j] == self.dock_items(id)[j],
            decreases n - k,
        {
            let c = self.child_at(id, k);
            let item = DockItem { location: self.get_dock_location(c), size: self.get_size(c) };
            proof {
                self.lemma_view();
            }
            items.push(item);
            k = k + 1;
        }
        assert(items@ =~= self.dock_items(id));
        items
    }

    /// One step of the layout of the children of `id`: what holds once the
    /// first `k` children are laid out still holds, of one child more, once
    /// child `k` is laid out.
    #[verifier::rlimit(50)]
    proof fn lemma_arrange_step(
        pre: &Self,
        mid: &Self,
        post: &Self,
        id: u64,
        k: int,
        rects: Seq<Rect>,
        rect: Rect,
    )
        requires
            pre.wf(),
            mid.wf(),
            post.wf(),
            pre.has(id),
            mid.shape() == pre.shape(),
            post.shape() == mid.shape(),
            mid.nodes@.len() == pre.nodes@.len(),
            post.nodes@.len() == mid.nodes@.len(),
            0 <= k < pre.kids(id).len(),
            pre.kids(id) == pre@[id].children,
            mid.kids(id) == pre.kids(id),
            rects.len() == pre.kids(id).len(),
            forall|x: u64|
                pre.has(x) ==> #[trigger] mid@[x] == (ViewModel { rect: mid@[x].rect, ..pre@[x] }),
            forall|x: u64|
                pre.has(x) && x != id && !pre.below_first(id, k, x) ==> #[trigger] mid@[x]
                    == pre@[x],
            mid@[id].rect == rect,
            forall|j: int| 0 <= j < k ==> mid@[#[trigger] pre@[id].children[j]].rect == rects[j],
            forall|p: u64, j: int|
                pre.has(p) && pre.below_first(id, k, p) && 0 <= j < pre@[p].children.len()
                    ==> mid@[#[trigger] pre@[p].children[j]].rect == dock_rect(
                    mid@[p].rect,
                    pre.dock_items(p),
                    j,
                ),
            forall|x: u64|
                mid.has(x) ==> #[trigger] post@[x] == (ViewModel {
                    rect: post@[x].rect,
                    ..mid@[x]
                }),
            forall|x: u64|
                mid.has(x) && !mid.in_subtree(pre.kids(id)[k], x) ==> #[trigger] post@[x]
                    == mid@[x],
            post@[pre.kids(id)[k]].rect == rects[k],
            forall|p: u64, j: int|
                mid.has(p) && mid.in_subtree(pre.kids(id)[k], p) && 0 <= j
                    < mid@[p].children.len() ==> post@[#[trigger] mid@[p].children[j]].rect
                    == dock_rect(post@[p].rect, mid.dock_items(p), j),
        ensures
            forall|x: u64|
                pre.has(x) ==> #[trigger] post@[x] == (ViewModel {
                    rect: post@[x].rect,
                    ..pre@[x]
                }),
            forall|x: u64|
                pre.has(x) && x != id && !pre.below_first(id, k + 1, x) ==> #[trigger] post@[x]
                    == pre@[x],
            post@[id].rect == rect,
            forall|j: int|
                0 <= j < k + 1 ==> post@[#[trigger] pre@[id].children[j]].rect == rects[j],
            forall|p: u64, j: int|
                pre.has(p) && pre.below_first(id, k + 1, p) && 0 <= j < pre@[p].children.len()
                    ==> post@[#[trigger] pre@[p].children[j]].rect == dock_rect(
                    post@[p].rect,
                    pre.dock_items(p),
                    j,
                ),
    {
        let c = pre.kids(id)[k];
        pre.lemma_view();
        assert(pre.par(pre.kids(id)[k]) == Some(id));
        assert(pre.has(c));
        assert(pre.links()[c - 1] == pre.par(c));
        assert(pre.depth@[id - 1] < pre.depth@[c - 1]);
        pre.lemma_view();
        mid.lemma_view();
        post.lemma_view();
        assert(!pre.in_subtree(c, id)) by {
            if pre.in_subtree(c, id) {
                pre.lemma_depth(c, id);
            }
        }
        assert forall|x: u64| pre.has(x) implies mid.in_subtree(c, x) == pre.in_subtree(
            c,
            x,
        ) by {}
        assert forall|x: u64| pre.has(x) implies #[trigger] post@[x] == (ViewModel {
            rect: post@[x].rect,
            ..pre@[x]
        }) by {
            assert(mid@[x] == (ViewModel { rect: mid@[x].rect, ..pre@[x] }));
        }
        assert forall|x: u64|
            pre.has(x) && x != id && !pre.below_first(id, k + 1, x) implies #[trigger] post@[x]
            == pre@[x] by {
            if pre.in_subtree(pre.kids(id)[k], x) {
                assert(pre.below_first(id, k + 1, x));
            }
            if pre.below_first(id, k, x) {
                let j = choose|j: int|
                    0 <= j < k && j < pre.kids(id).len() && #[trigger] pre.in_subtree(
                        pre.kids(id)[j],
                        x,
                    );
                assert(pre.below_first(id, k + 1, x));
            }
            assert(mid@[x] == pre@[x]);
        }
        assert forall|j: int| 0 <= j < k + 1 implies post@[#[trigger] pre@[id].children[j]].rect
            == rects[j] by {
            let cj = pre@[id].children[j];
            if j < k {
                assert(pre.kids(id)[j] != pre.kids(id)[k]);
                assert(pre.par(pre.kids(id)[j]) == Some(id));
                assert(pre.has(cj));
                assert(pre.links()[cj - 1] == pre.par(cj));
                assert(!pre.in_subtree(c, cj));
                assert(post@[cj] == mid@[cj]);
            }
        }
        assert forall|p: u64, j: int|
            pre.has(p) && pre.below_first(id, k + 1, p) && 0 <= j
                < pre@[p].children.len() implies post@[#[trigger] pre@[p].children[j]].rect
            == dock_rect(post@[p].rect, pre.dock_items(p), j) by {
            let x = pre@[p].children[j];
            assert(pre.kids(p)[j] == x);
            assert(pre.has(x) && pre.par(x) == Some(p));
            assert(pre.links()[x - 1] == pre.par(x));
            assert(mid@[p].children == pre@[p].children);
            assert(mid.dock_items(p) =~= pre.dock_items(p)) by {
                assert forall|m: int| 0 <= m < pre.kids(p).len() implies pre.has(
                    #[trigger] pre.kids(p)[m],
                ) by {}
            }
            if pre.in_subtree(c, p) {
                assert(mid.in_subtree(c, p));
                assert(post@[mid@[p].children[j]].rect == dock_rect(
                    post@[p].rect,
                    mid.dock_items(p),
                    j,
                ));
            } else {
                let w = choose|w: int|
                    0 <= w < k + 1 && w < pre.kids(id).len() && #[trigger] pre.in_subtree(
                        pre.kids(id)[w],
                        p,
                    );
                assert(w < k);
                assert(pre.below_first(id, k, p));
                assert(post@[p] == mid@[p]);
                if x == c {
                    assert(p == id);
                    pre.lemma_depth(pre.kids(id)[w], id);
                    assert(pre.par(pre.kids(id)[w]) == Some(id));
                    assert(pre.links()[pre.kids(id)[w] - 1] == pre.par(pre.kids(id)[w]));
                    assert(false);
                }
                assert(!pre.in_subtree(c, x));
                assert(post@[x] == mid@[x]);
            }
        }
    }

    /// Lays out the subtree of `id`, which resolves, in `rect`.
    #[verifier::rlimit(50)]
    fn arrange(&mut self, id: u64, rect: Rect)
        requires
            old(self).wf(),
            old(self).has(id),
        ensures
            final(self).wf(),
            final(self).shape() == old(self).shape(),
            final(self).count() == old(self).count(),
            final(self).nodes@.len() == old(self).nodes@.len(),
            forall|x: u64|
                old(self).has(x) ==> #[trigger] final(self)@[x] == (ViewModel {
                    rect: final(self)@[x].rect,
                    ..old(self)@[x]
                }),
            forall|x: u64|
                old(self).has(x) && !old(self).in_subtree(id, x) ==> #[trigger] final(self)@[x]
                    == old(self)@[x],
            final(self)@[id].rect == rect,
            forall|p: u64, j: int|
                old(self).has(p) && old(self).in_subtree(id, p) && 0 <= j < old(
                    self,
                )@[p].children.len() ==> final(self)@[#[trigger] old(self)@[p].children[j]].rect
                    == dock_rect(final(self)@[p].rect, old(self).dock_items(p), j),
        decreases old(self).bound@ - old(self).depth@[id - 1],
    {
        let i: usize = self.slot(id).unwrap();
        self.nodes[i].calculated_rect = rect;
        proof {
            old(self).lemma_view();
            self.lemma_view();
            self.lemma_same_links(old(self));
            assert(self.kids(id) == old(self).kids(id));
            assert forall|x: u64| old(self).has(x) implies #[trigger] self@[x] == if x == id {
                ViewModel { rect, ..old(self)@[x] }
            } else {
                old(self)@[x]
            } by {
                assert(self@[x] == model_of(self.nodes@[x - 1]));
            }
            assert(self.dock_items(id) =~= old(self).dock_items(id)) by {
                assert forall|j: int| 0 <= j < old(self).kids(id).len() implies old(self).has(
                    #[trigger] old(self).kids(id)[j],
                ) by {}
            }
        }
        let n: usize = self.child_count(id);
        let items = self.collect_items(id);
        let rects = dock_layout(rect, &items);
        let mut k: usize = 0;
        while k < n
            invariant
                self.wf(),
                old(self).wf(),
                self.has(id),
                old(self).has(id),
                self.shape() == old(self).shape(),
                self.nodes@.len() == old(self).nodes@.len(),
                n == old(self).kids(id).len(),
                old(self).kids(id) == old(self)@[id].children,
                k <= n,
                rects@.len() == n,
                forall|j: int|
                    0 <= j < n ==> #[trigger] rects@[j] == dock_rect(
                        rect,
                        old(self).dock_items(id),
                        j,
                    ),
                forall|x: u64|
                    old(self).has(x) ==> #[trigger] self@[x] == (ViewModel {
                        rect: self@[x].rect,
                        ..old(self)@[x]
                    }),
                forall|x: u64|
                    old(self).has(x) && x != id && !old(self).below_first(id, k as int, x)
                        ==> #[trigger] self@[x] == old(self)@[x],
                self@[id].rect == rect,
                forall|j: int|
                    0 <= j < k ==> self@[#[trigger] old(self)@[id].children[j]].rect == rects@[j],
                forall|p: u64, j: int|
                    old(self).has(p) && old(self).below_first(id, k as int, p) && 0 <= j < old(
                        self,
                    )@[p].children.len() ==> self@[#[trigger] old(self)@[p].children[j]].rect
                        == dock_rect(self@[p].rect, old(self).dock_items(p), j),
            decreases n - k,
        {
            proof {
                self.lemma_view();
                assert(self.kids(id) == old(self).kids(id)) by {
                    assert(self@[id].children == old(self)@[id].children);
                }
            }
            let c = self.child_at(id, k);
            let ghost mid = *self;
            self.arrange(c, rects[k]);
            proof {
                Self::lemma_arrange_step(old(self), &mid, self, id, k as int, rects@, rect);
            }
            k = k + 1;
        }
        proof {
            let pre = old(self);
            pre.lemma_view();
            self.lemma_view();
            assert forall|x: u64| pre.has(x) && !pre.in_subtree(id, x) implies #[trigger] self@[x]
                == pre@[x] by {
                pre.lemma_subtree_split(id, x);
            }
            assert forall|p: u64, j: int|
                pre.has(p) && pre.in_subtree(id, p) && 0 <= j
                    < pre@[p].children.len() implies self@[#[trigger] pre@[p].children[j]].rect
                == dock_rect(self@[p].rect, pre.dock_items(p), j) by {
                pre.lemma_subtree_split(id, p);
            }
        }
    }

    /// Gives `id` the rectangle `rect` and shares the rectangle of every view
    /// in its subtree out among that view's children by docking. Only
    /// rectangles change, and only in the subtree of `id`.
    pub fn layout_down(&mut self, id: u64, rect: Rect) -> (res: Result<(), ViewError>)
        requires
            old(self).wf(),
        ensures
            final(self).wf(),
            final(self).shape() == old(self).shape(),
            final(self).count() == old(self).count(),
            final(self)@.dom() == old(self)@.dom(),
            !old(self).contains(id) ==> res == Err::<(), ViewError>(ViewError::NotFound)
                && *final(self) == *old(self),
            old(self).contains(id) ==> res is Ok && final(self)@[id].rect == rect,
            old(self).contains(id) ==> forall|x: u64|
                old(self).contains(x) ==> #[trigger] final(self)@[x] == (ViewModel {
                    rect: if old(self).in_subtree(id, x) {
                        final(self)@[x].rect
                    } else {
                        old(self)@[x].rect
                    },
                    ..old(self)@[x]
                }),
            old(self).contains(id) ==> forall|p: u64, j: int|
                old(self).contains(p) && old(self).in_subtree(id, p) && 0 <= j < old(
                    self,
                )@[p].children.len() ==> final(self)@[#[trigger] old(self)@[p].children[j]].rect
                    == dock_rect(final(self)@[p].rect, old(self).dock_items(p), j),
    {
        if self.slot(id).is_none() {
            return Err(ViewError::NotFound);
        }
        self.arrange(id, rect);
        proof {
            old(self).lemma_view();
            self.lemma_view();
            assert(self@.dom() =~= old(self)@.dom());
        }
        Ok(())
    }

    /// How far `id` lies above the bound on depths; what recursion down the
    /// forest decreases.
    pub closed spec fn room(&self, id: u64) -> int {
        if self.wf() && self.has(id) {
            self.bound@ - self.depth@[id - 1]
        } else {
            0
        }
    }

    /// What `id` itself draws: its rectangle in its colour on its window, or
    /// nothing where it has no window.
    pub open spec fn own_draw(&self, id: u64) -> Seq<DrawRect> {
        match self@[id].window {
            Some(w) => seq![
                DrawRect { view: id, window: w, rect: self@[id].rect, color: self@[id].color },
            ],
            None => Seq::empty(),
        }
    }

    /// What the subtree of `id` draws, depth first: the view, then its
    /// children in order, each with its own subtree.
    pub closed spec fn scene(&self, id: u64) -> Seq<DrawRect>
        decreases self.room(id), 1int, 0int,
    {
        if self.wf() && self.has(id) {
            self.own_draw(id) + self.scene_first(id, self.kids(id).len() as int)
        } else {
            Seq::empty()
        }
    }

    /// What the subtrees of the first `k` children of `id` draw, in order.
    pub closed spec fn scene_first(&self, id: u64, k: int) -> Seq<DrawRect>
        decreases self.room(id), 0int, k,
    {
        if self.wf() && self.has(id) && 0 < k <= self.kids(id).len() && self.room(
            self.kids(id)[k - 1],
        ) < self.room(id) {
            self.scene_first(id, k - 1) + self.scene(self.kids(id)[k - 1])
        } else {
            Seq::empty()
        }
    }

    /// A child has less room below it than its parent.
    proof fn lemma_room(&self, id: u64, j: int)
        requires
            self.wf(),
            self.has(id),
            0 <= j < self.kids(id).len(),
        ensures
            self.has(self.kids(id)[j]),
            0 < self.room(self.kids(id)[j]) < self.room(id),
    {
        self.lemma_view();
        let c = self.kids(id)[j];
        assert(self.par(c) == Some(id));
        assert(self.links()[c - 1] == self.par(c));
    }

    /// The scene of a view is what it draws itself, then the scenes of its children.
    pub proof fn lemma_scene_unfold(&self, id: u64)
        requires
            self.wf(),
            self.contains(id),
        ensures
            self.scene(id) == self.own_draw(id) + self.scene_first(
                id,
                self@[id].children.len() as int,
            ),
            self.scene_first(id, 0) == Seq::<DrawRect>::empty(),
            forall|k: int|
                0 < k <= self@[id].children.len() ==> #[trigger] self.scene_first(id, k)
                    == self.scene_first(id, k - 1) + self.scene(self@[id].children[k - 1]),
    {
        self.lemma_view();
        assert forall|k: int| 0 < k <= self@[id].children.len() implies #[trigger] self.scene_first(
            id,
            k,
        ) == self.scene_first(id, k - 1) + self.scene(self@[id].children[k - 1]) by {
            self.lemma_room(id, k - 1);
        }
    }

    /// Every command of a scene draws a view of the arena that has a window,
    /// on that window, with the view's rectangle and colour: a view without
    /// a window draws nothing, whichever of its ancestors is rendered.
    pub proof fn lemma_scene_inert(&self, id: u64)
        requires
            self.wf(),
            self.contains(id),
        ensures
            forall|i: int|
                0 <= i < self.scene(id).len() ==> {
                    let cmd = #[trigger] self.scene(id)[i];
                    &&& self.contains(cmd.view)
                    &&& self.in_subtree(id, cmd.view)
                    &&& self@[cmd.view].window == Some(cmd.window)
                    &&& cmd.rect == self@[cmd.view].rect
                    &&& cmd.color == self@[cmd.view].color
                },
        decreases self.room(id), 1int, 0int,
    {
        self.lemma_view();
        self.lemma_scene_first_inert(id, self.kids(id).len() as int);
        assert(self.in_subtree(id, id));
    }

    /// The same of the scenes of the first `k` children of `id`; none of
    /// their commands draws `id` itself.
    proof fn lemma_scene_first_inert(&self, id: u64, k: int)
        requires
            self.wf(),
            self.has(id),
            0 <= k <= self.kids(id).len(),
        ensures
            forall|i: int|
                0 <= i < self.scene_first(id, k).len() ==> {
                    let cmd = #[trigger] self.scene_first(id, k)[i];
                    &&& self.contains(cmd.view)
                    &&& self.in_subtree(id, cmd.view)
                    &&& cmd.view != id
                    &&& self@[cmd.view].window == Some(cmd.window)
                    &&& cmd.rect == self@[cmd.view].rect
                    &&& cmd.color == self@[cmd.view].color
                },
        decreases self.room(id), 0int, k,
    {
        self.lemma_view();
        if k > 0 {
            let c = self.kids(id)[k - 1];
            assert(self.par(c) == Some(id));
            self.lemma_room(id, k - 1);
            self.lemma_scene_first_inert(id, k - 1);
            self.lemma_scene_inert(c);
            assert forall|i: int| 0 <= i < self.scene_first(id, k).len() implies {
                let cmd = #[trigger] self.scene_first(id, k)[i];
                &&& self.contains(cmd.view)
                &&& self.in_subtree(id, cmd.view)
                &&& cmd.view != id
                &&& self@[cmd.view].window == Some(cmd.window)
                &&& cmd.rect == self@[cmd.view].rect
                &&& cmd.color == self@[cmd.view].color
            } by {
                let head = self.scene_first(id, k - 1);
                let cmd = self.scene_first(id, k)[i];
                if i >= head.len() {
                    assert(cmd == self.scene(c)[i - head.len()]);
                    assert(self.in_subtree(c, cmd.view));
                    self.lemma_subtree_split(id, cmd.view);
                    if cmd.view == id {
                        self.lemma_depth(c, id);
                    }
                } else {
                    assert(cmd == head[i]);
                }
            }
        }
    }

    /// Appends the scene of `id`, which resolves, to `out`.
    fn paint(&self, id: u64, out: &mut Vec<DrawRect>)
        requires
            self.wf(),
            self.has(id),
        ensures
            final(out)@ == old(out)@ + self.scene(id),
        decreases self.room(id),
    {
        proof {
            self.lemma_view();
        }
        match self.get_window(id) {
            Some(w) => {
                out.push(
                    DrawRect {
                        view: id,
                        window: w,
                        rect: self.get_rect(id),
                        color: self.get_background_color(id),
                    },
                );
            },
            None => {},
        }
        assert(out@ =~= old(out)@ + self.own_draw(id));
        let n: usize = self.child_count(id);
        let mut k: usize = 0;
        while k < n
            invariant
                self.wf(),
                self.has(id),
                n == self.kids(id).len(),
                k <= n,
                out@ == old(out)@ + self.own_draw(id) + self.scene_first(id, k as int),
            decreases n - k,
        {
            let c = self.child_at(id, k);
            self.paint(c, out);
            proof {
                self.lemma_room(id, k as int);
                assert(self.scene_first(id, k + 1) == self.scene_first(id, k as int) + self.scene(
                    c,
                ));
                assert(out@ =~= old(out)@ + self.own_draw(id) + self.scene_first(id, k + 1));
            }
            k = k + 1;
        }
        assert(out@ =~= old(out)@ + self.scene(id));
    }

    /// The draw commands of the subtree of `id`, depth first. A view that has
    /// no window contributes none.
    pub fn render_down(&self, id: u64) -> (res: Result<Vec<DrawRect>, ViewError>)
        requires
            self.wf(),
        ensures
            self.contains(id) ==> res is Ok && res->Ok_0@ == self.scene(id),
            !self.contains(id) ==> res == Err::<Vec<DrawRect>, ViewError>(ViewError::NotFound),
    {
        if self.slot(id).is_none() {
            return Err(ViewError::NotFound);
        }
        let mut out: Vec<DrawRect> = Vec::new();
        self.paint(id, &mut out);
        assert(out@ =~= self.scene(id));
        Ok(out)
    }

    /// In a well-formed arena parent and child links agree: a child names a
    /// view whose parent is the view that lists it, a view with a parent is
    /// listed by that parent, and no view is listed twice by one parent.
    pub proof fn lemma_links_agree(&self)
        requires
            self.wf(),
        ensures
            forall|p: u64, j: int|
                self.contains(p) && 0 <= j < self@[p].children.len() ==> self.contains(
                    #[trigger] self@[p].children[j],
                ) && self@[self@[p].children[j]].parent == Some(p),
            forall|x: u64|
                self.contains(x) && (#[trigger] self@[x].parent) is Some ==> self.contains(
                    self@[x].parent->0,
                ) && self@[self@[x].parent->0].children.contains(x),
            forall|p: u64, j: int, k: int|
                self.contains(p) && 0 <= j < k < self@[p].children.len()
                    ==> #[trigger] self@[p].children[j] != #[trigger] self@[p].children[k],
    {
        self.lemma_view();
        assert forall|p: u64, j: int|
            self.contains(p) && 0 <= j < self@[p].children.len() implies self.contains(
            #[trigger] self@[p].children[j],
        ) && self@[self@[p].children[j]].parent == Some(p) by {
            assert(self.par(self.kids(p)[j]) == Some(p));
        }
        assert forall|x: u64|
            self.contains(x) && (#[trigger] self@[x].parent) is Some implies self.contains(
            self@[x].parent->0,
        ) && self@[self@[x].parent->0].children.contains(x) by {
            assert(self.par(x) is Some);
        }
        assert forall|p: u64, j: int, k: int|
            self.contains(p) && 0 <= j < k < self@[p].children.len() implies #[trigger] self@[p].children[j]
            != #[trigger] self@[p].children[k] by {
            assert(self.kids(p)[j] != self.kids(p)[k]);
        }
    }

    /// A view lies in the subtree of `root` exactly if it is `root` or its
    /// parent lies in that subtree.
    pub proof fn lemma_subtree_unfold(&self, root: u64, x: u64)
        requires
            self.wf(),
            self.contains(x),
        ensures
            self.in_subtree(root, x) <==> (x == root || (self@[x].parent is Some
                && self.in_subtree(root, self@[x].parent->0))),
    {
        self.lemma_view();
        assert(self.links()[x - 1] == self.par(x));
    }

    /// Every child of a view of a subtree lies in that subtree, so a subtree
    /// holds all that child links reach from its root.
    pub proof fn lemma_subtree_closed(&self, root: u64, p: u64, j: int)
        requires
            self.wf(),
            self.contains(p),
            self.in_subtree(root, p),
            0 <= j < self@[p].children.len(),
        ensures
            self.contains(self@[p].children[j]),
            self.in_subtree(root, self@[p].children[j]),
    {
        self.lemma_view();
        let c = self.kids(p)[j];
        assert(self.par(c) == Some(p));
        assert(self.links()[c - 1] == self.par(c));
    }

    /// Arenas of one shape have the same subtrees.
    pub proof fn lemma_same_shape(&self, other: &Self)
        requires
            self.shape() == other.shape(),
        ensures
            forall|root: u64, x: u64| self.in_subtree(root, x) == other.in_subtree(root, x),
    {
    }

    /// The identifiers of an arena are the numbers from 1 to its count.
    pub proof fn lemma_ids_dense(&self)
        ensures
            forall|id: u64| #[trigger] self.contains(id) <==> 1 <= id <= self.count(),
    {
        self.lemma_view();
    }

    /// Every view of a well-formed arena records the identifier it is held under.
    pub proof fn lemma_ids_recorded(&self)
        requires
            self.wf(),
        ensures
            forall|id: u64| self.contains(id) ==> (#[trigger] self@[id]).id == id,
    {
        self.lemma_view();
        assert forall|id: u64| self.contains(id) implies (#[trigger] self@[id]).id == id by {
            assert(self.nodes@[id - 1].id == id);
        }
    }

    /// Identifiers never repeat: no operation lowers the count, and `create`
    /// answers the count plus one, so the identifier that `create` answers
    /// on `later`, an arena reached from `earlier` by a `create` followed by
    /// any operations, differs from the one it answered on `earlier`, and
    /// that one still resolves.
    pub proof fn lemma_ids_never_repeat(earlier: &Self, later: &Self)
        requires
            earlier.count() + 1 <= later.count(),
        ensures
            earlier.count() + 1 != later.count() + 1,
            forall|id: u64| earlier.contains(id) ==> later.contains(id),
            forall|id: u64| id == earlier.count() + 1 ==> later.contains(id),
    {
        earlier.lemma_view();
        later.lemma_view();
    }
}

} // verus!
