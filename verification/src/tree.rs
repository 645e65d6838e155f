//! The dock tree's node types and the structural spec functions over them.
//!
//! A `DockTable` is a split container laying out an ordered list of child
//! cells along one fixed orientation; a `DockGroup` is a tab strip plus a
//! content pane holding an ordered list of dock identifiers; a `DockCell`
//! is either of the two. Docks themselves live in the registry and are
//! referenced from groups by identifier only, so a dock can exist outside
//! any group (as it does while it is dragged).

use vstd::prelude::*;

use crate::geometry::Rectangle;

verus! {

/// Gap between sibling cells of a table, along the table's orientation.
pub const PADDING: i32 = 5;

/// Height of a group's tab strip.
pub const TAB_STRIP_HEIGHT: i32 = 20;

/// Horizontal gap between neighbouring tabs in a strip.
pub const TAB_GAP: i32 = 8;

/// Chrome added to a label's measured width to obtain its tab's width.
pub const TAB_EXTRA_WIDTH: i32 = 16;

/// Width of the band near a content-rect edge that turns a drop into a
/// split or a sibling slot.
pub const DROP_MARGIN: i32 = 20;

/// Offset of the first tab from the left edge of its strip.
pub const TAB_START_OFFSET: i32 = 5;

/// Largest magnitude accepted for coordinates handed to the engine.
pub const MAX_COORD: i32 = 100_000;

/// Largest number of cells a tree may hold for a layout pass.
pub const MAX_CELLS: usize = 1024;

/// Bound on every stored extent that a layout pass relies on.
pub const DIM_BOUND: i32 = 200_000;

/// A single tabbed panel. Its tab width is fixed at construction from the
/// label's measured width; the suppress-draw flag hides its normal tab
/// while a drag session shows a floating copy instead.
pub struct Dock {
    pub id: u32,
    pub label: String,
    pub tab_rect: Rectangle,
    pub is_selected: bool,
    pub dont_draw: bool,
}

/// A tab strip plus a content pane holding an ordered set of docks.
pub struct DockGroup {
    pub id: u32,
    pub tabs_rect: Rectangle,
    pub docks_rect: Rectangle,
    pub dock_ids: Vec<u32>,
}

/// A split container holding an ordered list of child cells, laid out
/// along one fixed orientation.
pub struct DockTable {
    pub id: u32,
    pub vertical_align: bool,
    pub rect: Rectangle,
    pub dock_cells: Vec<DockCell>,
}

/// The two node variants of the dock tree.
pub enum DockCell {
    Table(DockTable),
    Group(DockGroup),
}

/// Where a released drag should realize a new group: as a fresh sibling
/// slot of an existing table, or by first wrapping a group in a new table
/// (a split; `index` 0 places the new slot before the group, 1 after it).
#[derive(Debug, PartialEq, Eq, Structural)]
pub enum NewDockCellPosition {
    NeedNewTable { group_id: u32, index: usize },
    TableExists { table_id: u32, index: usize },
}

impl Dock {
    /// The value `Dock::new` constructs.
    pub open spec fn new_spec(id: u32, label: String, label_width: i32) -> Dock {
        Dock {
            id,
            label,
            tab_rect: Rectangle {
                x: 0i32,
                y: 0i32,
                width: (label_width + TAB_EXTRA_WIDTH) as i32,
                height: TAB_STRIP_HEIGHT,
            },
            is_selected: true,
            dont_draw: false,
        }
    }

    /// A new dock; its tab width is the label's measured width plus the
    /// fixed chrome, its tab height the strip height, and both are fixed
    /// from then on.
    pub fn new(id: u32, label: String, label_width: i32) -> (r: Dock)
        requires
            0 <= label_width <= MAX_COORD,
        ensures
            r.id == id,
            r.label == label,
            r.tab_rect == (Rectangle {
                x: 0i32,
                y: 0i32,
                width: (label_width + TAB_EXTRA_WIDTH) as i32,
                height: TAB_STRIP_HEIGHT,
            }),
            r.is_selected,
            !r.dont_draw,
    {
        Dock {
            id,
            label,
            tab_rect: Rectangle::new_with_values(0, 0, label_width + TAB_EXTRA_WIDTH,
                TAB_STRIP_HEIGHT),
            is_selected: true,
            dont_draw: false,
        }
    }

    pub fn set_tab_position(&mut self, x: i32, y: i32)
        ensures
            *final(self) == (Dock {
                tab_rect: Rectangle {
                    x,
                    y,
                    width: old(self).tab_rect.width,
                    height: old(self).tab_rect.height,
                },
                ..*old(self)
            }),
    {
        self.tab_rect.x = x;
        self.tab_rect.y = y;
    }

    pub fn set_tab_dimensions(&mut self, width: i32, height: i32)
        ensures
            *final(self) == (Dock {
                tab_rect: Rectangle {
                    x: old(self).tab_rect.x,
                    y: old(self).tab_rect.y,
                    width,
                    height,
                },
                ..*old(self)
            }),
    {
        self.tab_rect.width = width;
        self.tab_rect.height = height;
    }

    /// Suppresses (or restores) the dock's normal rendering while a drag
    /// session shows a floating copy instead.
    pub fn set_dont_draw(&mut self, dont_draw: bool)
        ensures
            *final(self) == (Dock { dont_draw, ..*old(self) }),
    {
        self.dont_draw = dont_draw;
    }

    pub fn get_tab_width(&self) -> (r: i32)
        ensures
            r == self.tab_rect.width,
    {
        self.tab_rect.width
    }
}

impl DockGroup {
    /// Whether the group is freshly constructed: empty, with zeroed
    /// rectangles, under the given identifier.
    pub open spec fn is_fresh(self, id: u32) -> bool {
        &&& self.id == id
        &&& self.tabs_rect == (Rectangle { x: 0i32, y: 0i32, width: 0i32, height: 0i32 })
        &&& self.docks_rect == (Rectangle { x: 0i32, y: 0i32, width: 0i32, height: 0i32 })
        &&& self.dock_ids@ == Seq::<u32>::empty()
    }

    /// A new, empty, detached group.
    pub fn new(id: u32) -> (r: DockGroup)
        ensures
            r.id == id,
            r.tabs_rect == (Rectangle { x: 0i32, y: 0i32, width: 0i32, height: 0i32 }),
            r.docks_rect == (Rectangle { x: 0i32, y: 0i32, width: 0i32, height: 0i32 }),
            r.dock_ids@ == Seq::<u32>::empty(),
    {
        DockGroup { id, tabs_rect: Rectangle::new(), docks_rect: Rectangle::new(), dock_ids: Vec::new() }
    }

    /// Appends a dock to the group's tab order.
    pub fn add_dock(&mut self, dock_id: u32)
        ensures
            *final(self) == (DockGroup { dock_ids: final(self).dock_ids, ..*old(self) }),
            final(self).dock_ids@ == old(self).dock_ids@.push(dock_id),
    {
        self.dock_ids.push(dock_id);
    }

    /// Removes the first occurrence of the dock from the group's tab
    /// order and returns its former index; a dock that is not a member
    /// leaves the group unchanged.
    pub fn remove_dock(&mut self, dock_id: u32) -> (r: Option<usize>)
        ensures
            *final(self) == (DockGroup { dock_ids: final(self).dock_ids, ..*old(self) }),
            r is None ==> {
                &&& final(self).dock_ids@ == old(self).dock_ids@
                &&& forall|j: int|
                    0 <= j < old(self).dock_ids@.len() ==> old(self).dock_ids@[j] != dock_id
            },
            r matches Some(m) ==> {
                &&& 0 <= m < old(self).dock_ids@.len()
                &&& old(self).dock_ids@[m as int] == dock_id
                &&& forall|j: int| 0 <= j < m ==> old(self).dock_ids@[j] != dock_id
                &&& final(self).dock_ids@ == old(self).dock_ids@.remove(m as int)
            },
    {
        let mut i: usize = 0;
        while i < self.dock_ids.len()
            invariant
                0 <= i <= self.dock_ids@.len(),
                *self == (DockGroup { dock_ids: self.dock_ids, ..*old(self) }),
                self.dock_ids@ == old(self).dock_ids@,
                forall|j: int| 0 <= j < i ==> old(self).dock_ids@[j] != dock_id,
            decreases self.dock_ids@.len() - i,
        {
            if self.dock_ids[i] == dock_id {
                self.dock_ids.remove(i);
                return Some(i);
            }
            i = i + 1;
        }
        None
    }

    pub fn get_tabs_rect(&self) -> (r: Rectangle)
        ensures
            r == self.tabs_rect,
    {
        self.tabs_rect
    }
}

impl DockTable {
    /// A new, empty, detached table with the given orientation.
    pub fn new(id: u32, vertical_align: bool) -> (r: DockTable)
        ensures
            r.id == id,
            r.vertical_align == vertical_align,
            r.rect == (Rectangle { x: 0i32, y: 0i32, width: 0i32, height: 0i32 }),
            r.dock_cells@ == Seq::<DockCell>::empty(),
    {
        DockTable { id, vertical_align, rect: Rectangle::new(), dock_cells: Vec::new() }
    }

    /// Appends a cell to the table.
    pub fn add_dock_cell(&mut self, cell: DockCell)
        ensures
            *final(self) == (DockTable { dock_cells: final(self).dock_cells, ..*old(self) }),
            final(self).dock_cells@ == old(self).dock_cells@.push(cell),
    {
        self.dock_cells.push(cell);
    }

    /// Inserts a cell, clamping the index to the current length.
    pub fn insert_dock_cell(&mut self, cell: DockCell, index: usize)
        ensures
            *final(self) == (DockTable { dock_cells: final(self).dock_cells, ..*old(self) }),
            final(self).dock_cells@ == old(self).dock_cells@.insert(
                if index <= old(self).dock_cells@.len() {
                    index as int
                } else {
                    old(self).dock_cells@.len() as int
                },
                cell,
            ),
    {
        let index = if index > self.dock_cells.len() {
            self.dock_cells.len()
        } else {
            index
        };
        self.dock_cells.insert(index, cell);
    }

    /// Removes the cell with the given identifier and returns its former
    /// index, or `None` when no cell carries that identifier.
    pub fn remove_dock_cell(&mut self, id: u32) -> (r: Option<usize>)
        ensures
            *final(self) == (DockTable { dock_cells: final(self).dock_cells, ..*old(self) }),
            r is None ==> {
                &&& final(self).dock_cells@ == old(self).dock_cells@
                &&& forall|j: int|
                    0 <= j < old(self).dock_cells@.len() ==> old(self).dock_cells@[j].spec_id()
                        != id
            },
            r matches Some(ix) ==> {
                &&& 0 <= ix < old(self).dock_cells@.len()
                &&& old(self).dock_cells@[ix as int].spec_id() == id
                &&& forall|j: int| 0 <= j < ix ==> old(self).dock_cells@[j].spec_id() != id
                &&& final(self).dock_cells@ == old(self).dock_cells@.remove(ix as int)
            },
    {
        let mut i: usize = 0;
        while i < self.dock_cells.len()
            invariant
                0 <= i <= self.dock_cells@.len(),
                *self == (DockTable { dock_cells: self.dock_cells, ..*old(self) }),
                self.dock_cells@ == old(self).dock_cells@,
                forall|j: int| 0 <= j < i ==> old(self).dock_cells@[j].spec_id() != id,
            decreases self.dock_cells@.len() - i,
        {
            if self.dock_cells[i].id() == id {
                self.dock_cells.remove(i);
                return Some(i);
            }
            i = i + 1;
        }
        None
    }
}

impl DockCell {
    /// The identifier of the cell's node.
    pub open spec fn spec_id(self) -> u32 {
        match self {
            DockCell::Table(t) => t.id,
            DockCell::Group(g) => g.id,
        }
    }

    pub fn id(&self) -> (r: u32)
        ensures
            r == self.spec_id(),
    {
        match self {
            DockCell::Table(t) => t.id,
            DockCell::Group(g) => g.id,
        }
    }
}

/// Number of nodes (tables and groups) in the cell's subtree.
pub open spec fn cell_count(c: DockCell) -> nat
    decreases c,
{
    match c {
        DockCell::Group(_) => 1,
        DockCell::Table(t) => 1 + cell_count_seq(t.dock_cells@),
    }
}

/// Number of nodes in all the cells of a sequence together.
pub open spec fn cell_count_seq(s: Seq<DockCell>) -> nat
    decreases s,
{
    if s.len() == 0 {
        0
    } else {
        cell_count(s.first()) + cell_count_seq(s.drop_first())
    }
}

/// The groups of the subtree, in depth-first order.
pub open spec fn groups_of_cell(c: DockCell) -> Seq<DockGroup>
    decreases c,
{
    match c {
        DockCell::Group(g) => seq![g],
        DockCell::Table(t) => groups_of_cells(t.dock_cells@),
    }
}

/// The groups of a sequence of cells, in depth-first order.
pub open spec fn groups_of_cells(s: Seq<DockCell>) -> Seq<DockGroup>
    decreases s,
{
    if s.len() == 0 {
        Seq::empty()
    } else {
        groups_of_cell(s.first()) + groups_of_cells(s.drop_first())
    }
}

} // verus!
