//! The drag session: a pointer-down on a tab spawns a `MoveDock`, which
//! mediates the following pointer events into registry mutations.
//!
//! The session is in one of two states: floating (no valid drop target
//! under the pointer; `tabs_rect` is empty) or docked-preview (the dock
//! is provisionally the last tab of a hovered group whose tab-strip
//! rectangle is captured in `tabs_rect`). Releasing the button ends the
//! session, realizing a placement if the pointer rests over one.

use vstd::prelude::*;

use crate::geometry::Rectangle;
use crate::hit::{spec_dock_at_cell, spec_dock_at_ids, spec_group_at_cell, spec_group_decision,
    spec_position_query_cell, spec_position_query_cells};
use crate::layout::{group_counts_within, lemma_cell_count_at_least_one,
    lemma_cell_count_seq_index, spec_find_dock};
use crate::registry::{add_dock_rel, added_dock_rel, cell_has_group, cell_has_parent_of_group,
    cell_has_table, cell_is_group_with_id, created_group_rel, docks_with_flag, has_direct_group,
    lemma_add_rel_counts, lemma_counts_within_mono, lemma_remove_rel_counts, moved_dock_rel,
    pool_can_alloc2, remove_rel, removed_dock_rel, spec_tabs_rect_of_dock, Docks};
use crate::tree::{cell_count, cell_count_seq, Dock, DockCell, DockTable, NewDockCellPosition,
    MAX_CELLS};

verus! {

/// A pointer event as the session consumes it: a motion to a position,
/// or the release of the dragging button.
#[derive(Debug, PartialEq, Eq, Structural)]
pub enum PointerEvent {
    Moved { x: i32, y: i32 },
    LeftReleased,
}

/// A placement decision a table's subtree yields names nodes of that
/// subtree: the table of a sibling slot is in the tree, and the group of
/// a split has its parent table in the tree.
pub proof fn lemma_position_query_valid(t: DockTable, x: int, y: int)
    ensures
        spec_position_query_cell(DockCell::Table(t), x, y, false, 0, 0) matches Some(p)
            ==> match p {
            NewDockCellPosition::NeedNewTable { group_id, .. } => cell_has_parent_of_group(
                DockCell::Table(t),
                group_id,
            ),
            NewDockCellPosition::TableExists { table_id, .. } => cell_has_table(
                DockCell::Table(t),
                table_id,
            ),
        },
    decreases cell_count_seq(t.dock_cells@), 1nat, 0nat,
{
    if t.rect.spec_contains(x, y) {
        lemma_position_query_cells_valid(t.dock_cells@, x, y, t.vertical_align, t.id, 0, t);
    }
}

/// The per-child version of the statement above: answers either name the
/// asking table itself, a group directly among the cells, or nodes of
/// one of the cells' subtrees.
proof fn lemma_position_query_cells_valid(
    s: Seq<DockCell>,
    x: int,
    y: int,
    vertical: bool,
    table_id: u32,
    index0: usize,
    t: DockTable,
)
    requires
        t.dock_cells@.len() >= s.len(),
        forall|j: int|
            0 <= j < s.len() ==> s[j] == t.dock_cells@[t.dock_cells@.len() - s.len() + j],
    ensures
        spec_position_query_cells(s, x, y, vertical, table_id, index0) matches Some(p) ==> match p {
            NewDockCellPosition::NeedNewTable { group_id, .. } => has_direct_group(
                t.dock_cells@,
                group_id,
            ) || exists|j: int|
                0 <= j < t.dock_cells@.len() && cell_has_parent_of_group(
                    #[trigger] t.dock_cells@[j],
                    group_id,
                ),
            NewDockCellPosition::TableExists { table_id: tid, .. } => tid == table_id || exists|
                j: int,
            |
                0 <= j < t.dock_cells@.len() && cell_has_table(#[trigger] t.dock_cells@[j], tid),
        },
    decreases cell_count_seq(t.dock_cells@), 0nat, s.len(),
{
    if s.len() > 0 {
        let ghost jfirst = t.dock_cells@.len() - s.len();
        assert(s.first() == t.dock_cells@[jfirst]);
        lemma_cell_count_seq_index(t.dock_cells@, jfirst);
        match spec_position_query_cell(s.first(), x, y, vertical, table_id, index0) {
            Some(p) => {
                match s.first() {
                    DockCell::Group(g) => {
                        // a group decides for itself: either a slot in the
                        // asking table, or a split of this very group
                        assert(spec_group_decision(g, x, y, vertical, table_id, index0) == Some(p));
                        match p {
                            NewDockCellPosition::NeedNewTable { group_id, .. } => {
                                assert(cell_is_group_with_id(t.dock_cells@[jfirst], group_id));
                                assert(has_direct_group(t.dock_cells@, group_id));
                            },
                            NewDockCellPosition::TableExists { table_id: tid, .. } => {
                                assert(tid == table_id);
                            },
                        }
                    },
                    DockCell::Table(sub) => {
                        lemma_position_query_valid_inner(sub, x, y, vertical, table_id, index0);
                        match p {
                            NewDockCellPosition::NeedNewTable { group_id, .. } => {
                                assert(cell_has_parent_of_group(t.dock_cells@[jfirst], group_id));
                            },
                            NewDockCellPosition::TableExists { table_id: tid, .. } => {
                                assert(cell_has_table(t.dock_cells@[jfirst], tid));
                            },
                        }
                    },
                }
            },
            None => {
                assert(forall|j: int|
                    0 <= j < s.drop_first().len() ==> s.drop_first()[j] == s[j + 1]);
                lemma_position_query_cells_valid(
                    s.drop_first(),
                    x,
                    y,
                    vertical,
                    table_id,
                    (index0 + 1) as usize,
                    t,
                );
            },
        }
    }
}

/// The statement of `lemma_position_query_valid` for a table asked with
/// arbitrary parent parameters, which its answer ignores.
proof fn lemma_position_query_valid_inner(
    t: DockTable,
    x: int,
    y: int,
    pv: bool,
    pid: u32,
    index: usize,
)
    ensures
        spec_position_query_cell(DockCell::Table(t), x, y, pv, pid, index) matches Some(p)
            ==> match p {
            NewDockCellPosition::NeedNewTable { group_id, .. } => cell_has_parent_of_group(
                DockCell::Table(t),
                group_id,
            ),
            NewDockCellPosition::TableExists { table_id, .. } => cell_has_table(
                DockCell::Table(t),
                table_id,
            ),
        },
    decreases cell_count_seq(t.dock_cells@), 1nat, 0nat,
{
    if t.rect.spec_contains(x, y) {
        lemma_position_query_cells_valid(t.dock_cells@, x, y, t.vertical_align, t.id, 0, t);
    }
}

/// A dock the tab hit-test yields is known to the registry.
pub proof fn lemma_dock_at_found(c: DockCell, docks: Seq<Dock>, x: int, y: int)
    ensures
        spec_dock_at_cell(c, docks, x, y) matches Some(id) ==> spec_find_dock(docks, id) is Some,
    decreases cell_count(c), 0nat,
{
    match c {
        DockCell::Group(g) => {
            if g.tabs_rect.spec_contains(x, y) {
                lemma_dock_at_ids_found(g.dock_ids@, docks, x, y);
            }
        },
        DockCell::Table(t) => {
            if t.rect.spec_contains(x, y) {
                lemma_dock_at_cells_found(t.dock_cells@, docks, x, y);
            }
        },
    }
}

/// As above, over a tab strip.
proof fn lemma_dock_at_ids_found(ids: Seq<u32>, docks: Seq<Dock>, x: int, y: int)
    ensures
        spec_dock_at_ids(ids, docks, x, y) matches Some(id) ==> spec_find_dock(docks, id) is Some,
    decreases ids.len(),
{
    if ids.len() > 0 {
        match spec_find_dock(docks, ids.first()) {
            Some(d) => {
                if !d.tab_rect.spec_contains(x, y) {
                    lemma_dock_at_ids_found(ids.drop_first(), docks, x, y);
                }
            },
            None => {
                lemma_dock_at_ids_found(ids.drop_first(), docks, x, y);
            },
        }
    }
}

/// As above, over a sequence of cells.
proof fn lemma_dock_at_cells_found(s: Seq<DockCell>, docks: Seq<Dock>, x: int, y: int)
    ensures
        crate::hit::spec_dock_at_cells(s, docks, x, y) matches Some(id) ==> spec_find_dock(
            docks,
            id,
        ) is Some,
    decreases cell_count_seq(s), 1nat,
{
    if s.len() > 0 {
        proof_first_cell_count(s);
        match spec_dock_at_cell(s.first(), docks, x, y) {
            Some(_) => {
                lemma_dock_at_found(s.first(), docks, x, y);
            },
            None => {
                lemma_dock_at_cells_found(s.drop_first(), docks, x, y);
            },
        }
    }
}

impl Docks {
    /// A pointer-down over a dock's tab opens a drag session for that
    /// dock; a press anywhere else starts nothing.
    pub fn create_event_listener(&mut self, x: i32, y: i32) -> (r: Option<MoveDock>)
        ensures
            r is Some <==> spec_dock_at_cell(
                DockCell::Table(old(self).dock_table_root),
                old(self).docks@,
                x as int,
                y as int,
            ) is Some,
            r is None ==> *final(self) == *old(self),
            r matches Some(s) ==> {
                &&& Some(s.dock_id) == spec_dock_at_cell(
                    DockCell::Table(old(self).dock_table_root),
                    old(self).docks@,
                    x as int,
                    y as int,
                )
                &&& s.mouse_x == x
                &&& s.mouse_y == y
                &&& s.tabs_rect == crate::registry::spec_tabs_rect_of_dock(
                    DockCell::Table(old(self).dock_table_root),
                    s.dock_id,
                )
                &&& *final(self) == (Docks { docks: final(self).docks, ..*old(self) })
                &&& docks_with_flag(old(self).docks@, final(self).docks@, s.dock_id, true)
            },
    {
        match self.get_dock_at_position(x, y) {
            Some(dock_id) => Some(MoveDock::new(self, dock_id, x, y)),
            None => None,
        }
    }
}

/// The head of a cell sequence counts at least one node toward the
/// sequence's total.
proof fn proof_first_cell_count(s: Seq<DockCell>)
    requires
        s.len() > 0,
    ensures
        cell_count_seq(s) == cell_count(s.first()) + cell_count_seq(s.drop_first()),
        cell_count(s.first()) >= 1,
{
    lemma_cell_count_at_least_one(s.first());
}

/// A marker naming the two registry states a motion event passes
/// through: after the possible detach, and after the possible re-dock.
/// It guides the prover to the right instantiation and carries no
/// meaning of its own.
pub open spec fn session_step(reg1: Docks, reg2: Docks) -> bool {
    true
}

/// The group a floating session would dock to at the given pointer
/// position: the registry's strip hit-test, gated by its own rectangle.
pub open spec fn hover_group(d: Docks, x: int, y: int) -> Option<u32> {
    if d.rect.spec_contains(x, y) {
        spec_group_at_cell(DockCell::Table(d.dock_table_root), x, y)
    } else {
        None
    }
}

/// The placement the release of a session at the given pointer position
/// realizes, if any: the registry's placement query, gated by its own
/// rectangle.
pub open spec fn release_query(d: Docks, x: int, y: int) -> Option<NewDockCellPosition> {
    if d.rect.spec_contains(x, y) {
        spec_position_query_cell(DockCell::Table(d.dock_table_root), x, y, false, 0, 0)
    } else {
        None
    }
}

/// An ephemeral drag session: the dragged dock, the last pointer
/// position, and the captured tab-strip rectangle of the hovered group
/// (present exactly while the session is in its docked-preview state).
pub struct MoveDock {
    pub dock_id: u32,
    pub mouse_x: i32,
    pub mouse_y: i32,
    pub tabs_rect: Option<Rectangle>,
}

impl MoveDock {
    /// Opens a session for a pointer-down on the dock's tab: captures
    /// the strip of the group currently holding the dock and suppresses
    /// the dock's normal rendering, which the session's floating visual
    /// replaces until release.
    pub fn new(docks: &mut Docks, dock_id: u32, mouse_x: i32, mouse_y: i32) -> (r: MoveDock)
        ensures
            r.dock_id == dock_id,
            r.mouse_x == mouse_x,
            r.mouse_y == mouse_y,
            r.tabs_rect == crate::registry::spec_tabs_rect_of_dock(
                DockCell::Table(old(docks).dock_table_root),
                dock_id,
            ),
            *final(docks) == (Docks { docks: final(docks).docks, ..*old(docks) }),
            docks_with_flag(old(docks).docks@, final(docks).docks@, dock_id, true),
    {
        let tabs_rect = docks.get_dock_tabs_rect(dock_id);
        docks.set_dock_dont_draw(dock_id, true);
        MoveDock { dock_id, mouse_x, mouse_y, tabs_rect }
    }

    /// Consumes one pointer event; yields true when the session is over.
    ///
    /// On motion: leaving the captured strip detaches the dock (the tree
    /// collapses as needed) and the session floats; floating over a
    /// group's strip adds the dock to that group as its last tab and the
    /// session docks to it; while docked, the tab is live-reordered to
    /// follow the pointer. On release: the dock's rendering is restored
    /// and a placement under the last pointer position, if any, is
    /// realized as a fresh group that receives the dock.
    pub fn handle_event(&mut self, docks: &mut Docks, event: PointerEvent) -> (r: bool)
        requires
            pool_can_alloc2(old(docks).index_pool),
            group_counts_within(DockCell::Table(old(docks).dock_table_root), MAX_CELLS as int - 1),
        ensures
            final(self).dock_id == old(self).dock_id,
            r == (event == PointerEvent::LeftReleased),
            event matches PointerEvent::Moved { x, y } ==> final(self).mouse_x == x
                && final(self).mouse_y == y,
            event matches PointerEvent::Moved { x, y } ==> exists|reg1: Docks, reg2: Docks|
                {
                    let dock_id = old(self).dock_id;
                    let detach = old(self).tabs_rect matches Some(tr) && !tr.spec_contains(
                        x as int,
                        y as int,
                    );
                    let t1 = if detach {
                        None
                    } else {
                        old(self).tabs_rect
                    };
                    let hover = if t1 is None {
                        hover_group(reg1, x as int, y as int)
                    } else {
                        None::<u32>
                    };
                    let t2 = if hover is Some {
                        spec_tabs_rect_of_dock(DockCell::Table(reg2.dock_table_root), dock_id)
                    } else {
                        t1
                    };
                    &&& #[trigger] session_step(reg1, reg2)
                    &&& (detach ==> removed_dock_rel(*old(docks), reg1, dock_id))
                    &&& (!detach ==> reg1 == *old(docks))
                    &&& (hover matches Some(gid) ==> added_dock_rel(reg1, reg2, gid, dock_id))
                    &&& (hover is None ==> reg2 == reg1)
                    &&& final(self).tabs_rect == t2
                    &&& (t2 is Some ==> moved_dock_rel(reg2, *final(docks), dock_id, x as int))
                    &&& (t2 is None ==> *final(docks) == reg2)
                },
            event == PointerEvent::LeftReleased ==> *final(self) == *old(self),
            event == PointerEvent::LeftReleased ==> release_query(
                *old(docks),
                old(self).mouse_x as int,
                old(self).mouse_y as int,
            ) is None ==> {
                &&& *final(docks) == (Docks { docks: final(docks).docks, ..*old(docks) })
                &&& docks_with_flag(
                    old(docks).docks@,
                    final(docks).docks@,
                    old(self).dock_id,
                    false,
                )
            },
            event == PointerEvent::LeftReleased ==> (release_query(
                *old(docks),
                old(self).mouse_x as int,
                old(self).mouse_y as int,
            ) matches Some(pos) ==> exists|mid: Docks, mid2: Docks, gid: u32|
                {
                    &&& mid == (Docks { docks: mid.docks, ..*old(docks) })
                    &&& docks_with_flag(old(docks).docks@, mid.docks@, old(self).dock_id, false)
                    &&& #[trigger] created_group_rel(mid, mid2, pos, gid)
                    &&& (cell_has_group(DockCell::Table(mid2.dock_table_root), gid) ==> {
                        &&& *final(docks) == (Docks {
                            dock_table_root: final(docks).dock_table_root,
                            ..mid2
                        })
                        &&& add_dock_rel(
                            DockCell::Table(mid2.dock_table_root),
                            DockCell::Table(final(docks).dock_table_root),
                            gid,
                            old(self).dock_id,
                        )
                    })
                    &&& (!cell_has_group(DockCell::Table(mid2.dock_table_root), gid)
                        ==> *final(docks) == mid2)
                }),
    {
        match event {
            PointerEvent::Moved { x, y } => {
                let ghost root0 = docks.dock_table_root;
                let mut detached = false;
                match &self.tabs_rect {
                    Some(tr) => {
                        if !tr.contains(x, y) {
                            docks.remove_dock_from_group(self.dock_id);
                            detached = true;
                        }
                    },
                    None => {},
                }
                proof {
                    if docks.dock_table_root != root0 {
                        let (c0, ds0) = choose|c: bool, ds: Seq<u32>|
                            #[trigger] remove_rel(
                                root0,
                                docks.dock_table_root,
                                old(self).dock_id,
                                c,
                                ds,
                            );
                        lemma_remove_rel_counts(
                            root0,
                            docks.dock_table_root,
                            old(self).dock_id,
                            c0,
                            ds0,
                            MAX_CELLS as int - 1,
                        );
                    }
                    assert(group_counts_within(
                        DockCell::Table(docks.dock_table_root),
                        MAX_CELLS as int - 1,
                    ));
                }
                if detached {
                    self.tabs_rect = None;
                }
                let ghost reg1 = *docks;
                let ghost root1 = docks.dock_table_root;
                if self.tabs_rect.is_none() {
                    match docks.get_dock_group_at_position(x, y) {
                        Some(group_id) => {
                            docks.add_dock_to_group(group_id, self.dock_id);
                            proof {
                                if docks.dock_table_root != root1 {
                                    lemma_add_rel_counts(
                                        DockCell::Table(root1),
                                        DockCell::Table(docks.dock_table_root),
                                        group_id,
                                        old(self).dock_id,
                                        MAX_CELLS as int - 1,
                                    );
                                } else {
                                    lemma_counts_within_mono(
                                        DockCell::Table(root1),
                                        MAX_CELLS as int - 1,
                                        MAX_CELLS as int,
                                    );
                                }
                            }
                            self.tabs_rect = docks.get_dock_tabs_rect(self.dock_id);
                        },
                        None => {},
                    }
                }
                proof {
                    if group_counts_within(
                        DockCell::Table(docks.dock_table_root),
                        MAX_CELLS as int - 1,
                    ) {
                        lemma_counts_within_mono(
                            DockCell::Table(docks.dock_table_root),
                            MAX_CELLS as int - 1,
                            MAX_CELLS as int,
                        );
                    }
                    assert(group_counts_within(
                        DockCell::Table(docks.dock_table_root),
                        MAX_CELLS as int,
                    ));
                }
                let ghost reg2 = *docks;
                if self.tabs_rect.is_some() {
                    docks.move_dock_to_position(self.dock_id, x);
                }
                self.mouse_x = x;
                self.mouse_y = y;
                proof {
                    assert(session_step(reg1, reg2));
                }
                false
            },
            PointerEvent::LeftReleased => {
                docks.set_dock_dont_draw(self.dock_id, false);
                let ghost mid = *docks;
                proof {
                    assert(mid.rect == old(docks).rect);
                    assert(mid.dock_table_root == old(docks).dock_table_root);
                }
                match docks.get_new_dock_cell_position(self.mouse_x, self.mouse_y) {
                    Some(cell_position) => {
                        proof {
                            lemma_position_query_valid(
                                docks.dock_table_root,
                                self.mouse_x as int,
                                self.mouse_y as int,
                            );
                        }
                        match docks.create_group_from_cell_position(cell_position) {
                            Some(new_group_id) => {
                                let ghost mid2 = *docks;
                                docks.add_dock_to_group(new_group_id, self.dock_id);
                                proof {
                                    assert(created_group_rel(mid, mid2, cell_position, new_group_id));
                                }
                            },
                            None => {},
                        }
                    },
                    None => {},
                }
                true
            },
        }
    }
}

} // verus!
