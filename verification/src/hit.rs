//! Hit-testing over the dock tree, and the placement decision that a
//! released drag is resolved with.
//!
//! All queries are depth-first: a table forwards a query to its children
//! in order once the point lies in its own rectangle, and the first
//! non-empty answer wins.

use vstd::prelude::*;

use crate::layout::spec_find_dock;
use crate::layout::find_dock_index;
use crate::tree::{Dock, DockCell, DockGroup, DockTable, NewDockCellPosition};
use crate::tree::{cell_count, cell_count_seq, DROP_MARGIN};
use crate::layout::{lemma_cell_count_at_least_one, lemma_cell_count_seq_ge_len,
    lemma_cell_count_seq_index};

verus! {

/// The dock whose tab lies under the point, among the strip's docks in
/// order; a dock reference the registry does not know is skipped.
pub open spec fn spec_dock_at_ids(ids: Seq<u32>, docks: Seq<Dock>, x: int, y: int) -> Option<u32>
    decreases ids.len(),
{
    if ids.len() == 0 {
        None
    } else {
        match spec_find_dock(docks, ids.first()) {
            Some(d) => if d.tab_rect.spec_contains(x, y) {
                Some(ids.first())
            } else {
                spec_dock_at_ids(ids.drop_first(), docks, x, y)
            },
            None => spec_dock_at_ids(ids.drop_first(), docks, x, y),
        }
    }
}

/// A group answers a dock query only inside its tab strip, with the
/// first of its tabs under the point.
pub open spec fn spec_dock_at_group(g: DockGroup, docks: Seq<Dock>, x: int, y: int) -> Option<
    u32,
> {
    if g.tabs_rect.spec_contains(x, y) {
        spec_dock_at_ids(g.dock_ids@, docks, x, y)
    } else {
        None
    }
}

/// The dock under the point, depth-first.
pub open spec fn spec_dock_at_cell(c: DockCell, docks: Seq<Dock>, x: int, y: int) -> Option<u32>
    decreases c,
{
    match c {
        DockCell::Group(g) => spec_dock_at_group(g, docks, x, y),
        DockCell::Table(t) => if t.rect.spec_contains(x, y) {
            spec_dock_at_cells(t.dock_cells@, docks, x, y)
        } else {
            None
        },
    }
}

/// The first non-empty answer among the cells, in order.
pub open spec fn spec_dock_at_cells(s: Seq<DockCell>, docks: Seq<Dock>, x: int, y: int) -> Option<
    u32,
>
    decreases s,
{
    if s.len() == 0 {
        None
    } else {
        match spec_dock_at_cell(s.first(), docks, x, y) {
            Some(id) => Some(id),
            None => spec_dock_at_cells(s.drop_first(), docks, x, y),
        }
    }
}

/// The group whose tab strip lies under the point, depth-first.
pub open spec fn spec_group_at_cell(c: DockCell, x: int, y: int) -> Option<u32>
    decreases c,
{
    match c {
        DockCell::Group(g) => if g.tabs_rect.spec_contains(x, y) {
            Some(g.id)
        } else {
            None
        },
        DockCell::Table(t) => if t.rect.spec_contains(x, y) {
            spec_group_at_cells(t.dock_cells@, x, y)
        } else {
            None
        },
    }
}

/// The first non-empty answer among the cells, in order.
pub open spec fn spec_group_at_cells(s: Seq<DockCell>, x: int, y: int) -> Option<u32>
    decreases s,
{
    if s.len() == 0 {
        None
    } else {
        match spec_group_at_cell(s.first(), x, y) {
            Some(id) => Some(id),
            None => spec_group_at_cells(s.drop_first(), x, y),
        }
    }
}

/// The placement decision a group makes for a point in its content area,
/// knowing its parent table's orientation and identifier and its own
/// index among the parent's children.
///
/// Four flags say whether the point lies within the drop margin of each
/// content-rect edge, checked in the fixed order top, bottom, left,
/// right; the first match wins. Under a vertical parent the top and
/// bottom edges attach a sibling slot above or below (`TableExists`) and
/// the left and right edges split the group (`NeedNewTable`); under a
/// horizontal parent the roles swap.
pub open spec fn spec_group_decision(
    g: DockGroup,
    x: int,
    y: int,
    parent_vertical: bool,
    parent_id: u32,
    index: usize,
) -> Option<NewDockCellPosition> {
    if !g.docks_rect.spec_contains(x, y) {
        None
    } else {
        let m = DROP_MARGIN as int;
        let left = x - g.docks_rect.x <= m;
        let right = g.docks_rect.x + g.docks_rect.width - x <= m;
        let top = y + g.docks_rect.y <= m;
        let bottom = -(g.docks_rect.y as int) + g.docks_rect.height - y <= m;
        if parent_vertical {
            if top {
                Some(NewDockCellPosition::TableExists { table_id: parent_id, index })
            } else if bottom {
                Some(
                    NewDockCellPosition::TableExists {
                        table_id: parent_id,
                        index: (index + 1) as usize,
                    },
                )
            } else if left {
                Some(NewDockCellPosition::NeedNewTable { group_id: g.id, index: 0 })
            } else if right {
                Some(NewDockCellPosition::NeedNewTable { group_id: g.id, index: 1 })
            } else {
                None
            }
        } else {
            if top {
                Some(NewDockCellPosition::NeedNewTable { group_id: g.id, index: 0 })
            } else if bottom {
                Some(NewDockCellPosition::NeedNewTable { group_id: g.id, index: 1 })
            } else if left {
                Some(NewDockCellPosition::TableExists { table_id: parent_id, index })
            } else if right {
                Some(
                    NewDockCellPosition::TableExists {
                        table_id: parent_id,
                        index: (index + 1) as usize,
                    },
                )
            } else {
                None
            }
        }
    }
}

/// The placement decision for a point, depth-first: a table forwards the
/// query to its children with its own orientation and identifier.
pub open spec fn spec_position_query_cell(
    c: DockCell,
    x: int,
    y: int,
    parent_vertical: bool,
    parent_id: u32,
    index: usize,
) -> Option<NewDockCellPosition>
    decreases c,
{
    match c {
        DockCell::Group(g) => spec_group_decision(g, x, y, parent_vertical, parent_id, index),
        DockCell::Table(t) => if t.rect.spec_contains(x, y) {
            spec_position_query_cells(t.dock_cells@, x, y, t.vertical_align, t.id, 0)
        } else {
            None
        },
    }
}

/// The first non-empty answer among the cells, each asked with its own
/// index.
pub open spec fn spec_position_query_cells(
    s: Seq<DockCell>,
    x: int,
    y: int,
    vertical: bool,
    table_id: u32,
    index0: usize,
) -> Option<NewDockCellPosition>
    decreases s,
{
    if s.len() == 0 {
        None
    } else {
        match spec_position_query_cell(s.first(), x, y, vertical, table_id, index0) {
            Some(p) => Some(p),
            None => spec_position_query_cells(
                s.drop_first(),
                x,
                y,
                vertical,
                table_id,
                (index0 + 1) as usize,
            ),
        }
    }
}

/// The dock whose tab lies under the point within this group, if any.
pub fn get_dock_at_position_group(g: &DockGroup, x: i32, y: i32, docks: &Vec<Dock>) -> (r: Option<
    u32,
>)
    ensures
        r == spec_dock_at_group(*g, docks@, x as int, y as int),
{
    if !g.tabs_rect.contains(x, y) {
        return None;
    }
    let ghost ids = g.dock_ids@;
    proof {
        assert(ids.subrange(0, ids.len() as int) =~= ids);
    }
    let mut m: usize = 0;
    #[verifier::loop_isolation(false)]
    while m < g.dock_ids.len()
        invariant
            0 <= m <= ids.len(),
            ids == g.dock_ids@,
            spec_dock_at_ids(ids, docks@, x as int, y as int) == spec_dock_at_ids(
                ids.subrange(m as int, ids.len() as int),
                docks@,
                x as int,
                y as int,
            ),
        decreases ids.len() - m,
    {
        let ghost rest = ids.subrange(m as int, ids.len() as int);
        proof {
            assert(rest.first() == ids[m as int]);
            assert(rest.drop_first() =~= ids.subrange(m as int + 1, ids.len() as int));
        }
        let id = g.dock_ids[m];
        match find_dock_index(docks, id) {
            Some(k) => {
                if docks[k].tab_rect.contains(x, y) {
                    return Some(id);
                }
            },
            None => {},
        }
        m = m + 1;
    }
    proof {
        assert(ids.subrange(ids.len() as int, ids.len() as int) =~= Seq::<u32>::empty());
    }
    None
}

/// The dock whose tab lies under the point, anywhere in the subtree.
pub fn get_dock_at_position_cell(c: &DockCell, x: i32, y: i32, docks: &Vec<Dock>) -> (r: Option<
    u32,
>)
    ensures
        r == spec_dock_at_cell(*c, docks@, x as int, y as int),
    decreases cell_count(*c), 0nat,
{
    match c {
        DockCell::Group(g) => get_dock_at_position_group(g, x, y, docks),
        DockCell::Table(t) => {
            proof {
                lemma_cell_count_at_least_one(*c);
            }
            get_dock_at_position_table(t, x, y, docks)
        },
    }
}

/// The dock whose tab lies under the point, within this table's subtree.
pub fn get_dock_at_position_table(t: &DockTable, x: i32, y: i32, docks: &Vec<Dock>) -> (r: Option<
    u32,
>)
    ensures
        r == spec_dock_at_cell(DockCell::Table(*t), docks@, x as int, y as int),
    decreases cell_count_seq(t.dock_cells@), 1nat,
{
    if !t.rect.contains(x, y) {
        return None;
    }
    let ghost s0 = t.dock_cells@;
    proof {
        assert(s0.subrange(0, s0.len() as int) =~= s0);
    }
    let mut i: usize = 0;
    #[verifier::loop_isolation(false)]
    while i < t.dock_cells.len()
        invariant
            0 <= i <= s0.len(),
            s0 == t.dock_cells@,
            spec_dock_at_cells(s0, docks@, x as int, y as int) == spec_dock_at_cells(
                s0.subrange(i as int, s0.len() as int),
                docks@,
                x as int,
                y as int,
            ),
        decreases s0.len() - i,
    {
        let ghost rest = s0.subrange(i as int, s0.len() as int);
        proof {
            assert(rest.first() == s0[i as int]);
            assert(rest.drop_first() =~= s0.subrange(i as int + 1, s0.len() as int));
            lemma_cell_count_seq_index(s0, i as int);
        }
        let r = get_dock_at_position_cell(&t.dock_cells[i], x, y, docks);
        if r.is_some() {
            return r;
        }
        i = i + 1;
    }
    proof {
        assert(s0.subrange(s0.len() as int, s0.len() as int) =~= Seq::<DockCell>::empty());
    }
    None
}

/// The group whose tab strip lies under the point, anywhere in the
/// subtree.
pub fn get_dock_group_at_position_cell(c: &DockCell, x: i32, y: i32) -> (r: Option<u32>)
    ensures
        r == spec_group_at_cell(*c, x as int, y as int),
    decreases cell_count(*c), 0nat,
{
    match c {
        DockCell::Group(g) => {
            if g.tabs_rect.contains(x, y) {
                Some(g.id)
            } else {
                None
            }
        },
        DockCell::Table(t) => {
            proof {
                lemma_cell_count_at_least_one(*c);
            }
            get_dock_group_at_position_table(t, x, y)
        },
    }
}

/// The group whose tab strip lies under the point, within this table's
/// subtree.
pub fn get_dock_group_at_position_table(t: &DockTable, x: i32, y: i32) -> (r: Option<u32>)
    ensures
        r == spec_group_at_cell(DockCell::Table(*t), x as int, y as int),
    decreases cell_count_seq(t.dock_cells@), 1nat,
{
    if !t.rect.contains(x, y) {
        return None;
    }
    let ghost s0 = t.dock_cells@;
    proof {
        assert(s0.subrange(0, s0.len() as int) =~= s0);
    }
    let mut i: usize = 0;
    #[verifier::loop_isolation(false)]
    while i < t.dock_cells.len()
        invariant
            0 <= i <= s0.len(),
            s0 == t.dock_cells@,
            spec_group_at_cells(s0, x as int, y as int) == spec_group_at_cells(
                s0.subrange(i as int, s0.len() as int),
                x as int,
                y as int,
            ),
        decreases s0.len() - i,
    {
        let ghost rest = s0.subrange(i as int, s0.len() as int);
        proof {
            assert(rest.first() == s0[i as int]);
            assert(rest.drop_first() =~= s0.subrange(i as int + 1, s0.len() as int));
            lemma_cell_count_seq_index(s0, i as int);
        }
        let r = get_dock_group_at_position_cell(&t.dock_cells[i], x, y);
        if r.is_some() {
            return r;
        }
        i = i + 1;
    }
    proof {
        assert(s0.subrange(s0.len() as int, s0.len() as int) =~= Seq::<DockCell>::empty());
    }
    None
}

/// The placement decision a group makes for a point in its content area.
pub fn get_new_dock_cell_position_group(
    g: &DockGroup,
    x: i32,
    y: i32,
    parent_vertical: bool,
    parent_id: u32,
    index: usize,
) -> (r: Option<NewDockCellPosition>)
    requires
        index < usize::MAX,
    ensures
        r == spec_group_decision(*g, x as int, y as int, parent_vertical, parent_id, index),
{
    if !g.docks_rect.contains(x, y) {
        return None;
    }
    let m = DROP_MARGIN as i64;
    let drx = g.docks_rect.x as i64;
    let dry = g.docks_rect.y as i64;
    let drw = g.docks_rect.width as i64;
    let drh = g.docks_rect.height as i64;
    let left = (x as i64) - drx <= m;
    let right = drx + drw - (x as i64) <= m;
    let top = (y as i64) + dry <= m;
    let bottom = -dry + drh - (y as i64) <= m;
    if parent_vertical {
        if top {
            Some(NewDockCellPosition::TableExists { table_id: parent_id, index })
        } else if bottom {
            Some(NewDockCellPosition::TableExists { table_id: parent_id, index: index + 1 })
        } else if left {
            Some(NewDockCellPosition::NeedNewTable { group_id: g.id, index: 0 })
        } else if right {
            Some(NewDockCellPosition::NeedNewTable { group_id: g.id, index: 1 })
        } else {
            None
        }
    } else {
        if top {
            Some(NewDockCellPosition::NeedNewTable { group_id: g.id, index: 0 })
        } else if bottom {
            Some(NewDockCellPosition::NeedNewTable { group_id: g.id, index: 1 })
        } else if left {
            Some(NewDockCellPosition::TableExists { table_id: parent_id, index })
        } else if right {
            Some(NewDockCellPosition::TableExists { table_id: parent_id, index: index + 1 })
        } else {
            None
        }
    }
}

/// The placement decision for a point, anywhere in the subtree.
pub fn get_new_dock_cell_position_cell(
    c: &DockCell,
    x: i32,
    y: i32,
    parent_vertical: bool,
    parent_id: u32,
    index: usize,
) -> (r: Option<NewDockCellPosition>)
    requires
        index < usize::MAX,
    ensures
        r == spec_position_query_cell(*c, x as int, y as int, parent_vertical, parent_id, index),
    decreases cell_count(*c), 0nat,
{
    match c {
        DockCell::Group(g) => get_new_dock_cell_position_group(
            g,
            x,
            y,
            parent_vertical,
            parent_id,
            index,
        ),
        DockCell::Table(t) => {
            proof {
                lemma_cell_count_at_least_one(*c);
            }
            get_new_dock_cell_position_table(t, x, y)
        },
    }
}

/// The placement decision for a point, within this table's subtree; the
/// children are asked with this table's orientation and identifier.
pub fn get_new_dock_cell_position_table(t: &DockTable, x: i32, y: i32) -> (r: Option<
    NewDockCellPosition,
>)
    ensures
        r == spec_position_query_cell(DockCell::Table(*t), x as int, y as int, false, 0, 0),
    decreases cell_count_seq(t.dock_cells@), 1nat,
{
    if !t.rect.contains(x, y) {
        return None;
    }
    let ghost s0 = t.dock_cells@;
    proof {
        lemma_cell_count_seq_ge_len(s0);
        assert(s0.subrange(0, s0.len() as int) =~= s0);
    }
    let mut i: usize = 0;
    #[verifier::loop_isolation(false)]
    while i < t.dock_cells.len()
        invariant
            0 <= i <= s0.len(),
            s0 == t.dock_cells@,
            spec_position_query_cells(s0, x as int, y as int, t.vertical_align, t.id, 0)
                == spec_position_query_cells(
                s0.subrange(i as int, s0.len() as int),
                x as int,
                y as int,
                t.vertical_align,
                t.id,
                i,
            ),
        decreases s0.len() - i,
    {
        let ghost rest = s0.subrange(i as int, s0.len() as int);
        proof {
            assert(rest.first() == s0[i as int]);
            assert(rest.drop_first() =~= s0.subrange(i as int + 1, s0.len() as int));
            lemma_cell_count_seq_index(s0, i as int);
        }
        let r = get_new_dock_cell_position_cell(
            &t.dock_cells[i],
            x,
            y,
            t.vertical_align,
            t.id,
            i,
        );
        if r.is_some() {
            return r;
        }
        i = i + 1;
    }
    proof {
        assert(s0.subrange(s0.len() as int, s0.len() as int) =~= Seq::<DockCell>::empty());
    }
    None
}

} // verus!
