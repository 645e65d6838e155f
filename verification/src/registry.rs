//! The dock registry: it owns the identifier pool, the root table and
//! the docks, and carries the tree-restructuring algorithms.
//!
//! Tables and groups are owned by the tree itself, so cross-references
//! between cells need no stored parent identifiers: a node's parent is
//! wherever the node sits. Docks, which can exist outside any group
//! while they are dragged, live in the registry and are referenced from
//! groups by identifier; which group holds a dock is likewise read off
//! the tree rather than stored.

use vstd::prelude::*;

use crate::geometry::Rectangle;
use crate::index_pool::{min_recycled_at, IndexPool};
use crate::tree::{Dock, DockCell, DockGroup, DockTable, NewDockCellPosition};
use crate::tree::{cell_count, cell_count_seq, MAX_CELLS, MAX_COORD, TAB_GAP, TAB_START_OFFSET};
use crate::layout::{cell_dims_bounded, dims_applied, dims_input_ok, docks_repositioned,
    docks_tabs_ok, group_counts_ok, group_counts_within, pos_applied, pos_input_ok,
    set_dimensions_table, set_position_table};
use crate::layout::{cell_mentions_dock, lemma_cell_count_at_least_one, lemma_cell_count_seq_index};
use crate::layout::{find_dock_index, spec_find_dock};
use crate::hit::{spec_dock_at_cell, spec_group_at_cell, spec_position_query_cell};
use crate::hit::{get_dock_at_position_table, get_dock_group_at_position_table,
    get_new_dock_cell_position_table};

verus! {

/// The pool can hand out one more identifier.
pub open spec fn pool_can_alloc(p: IndexPool) -> bool {
    p.recycled@.len() > 0 || p.next_index < u32::MAX
}

/// The pool can hand out two more identifiers.
pub open spec fn pool_can_alloc2(p: IndexPool) -> bool {
    ||| p.recycled@.len() >= 2
    ||| (p.recycled@.len() == 1 && p.next_index < u32::MAX)
    ||| p.next_index < u32::MAX - 1
}

/// Relates a pool before an allocation to the pool after it and the
/// identifier handed out: the smallest recycled one if any existed,
/// else the next never-issued integer.
pub open spec fn pool_alloc_rel(p0: IndexPool, p1: IndexPool, id: u32) -> bool {
    if p0.recycled@.len() > 0 {
        exists|m: int|
            {
                &&& #[trigger] min_recycled_at(p0.recycled@, m)
                &&& id == p0.recycled@[m]
                &&& p1.recycled@ == p0.recycled@.remove(m)
                &&& p1.next_index == p0.next_index
            }
    } else {
        &&& id == p0.next_index
        &&& p1.recycled@ == p0.recycled@
        &&& p1.next_index == p0.next_index + 1
    }
}

/// Whether the subtree holds a group with the identifier.
pub open spec fn cell_has_group(c: DockCell, group_id: u32) -> bool
    decreases c,
{
    match c {
        DockCell::Group(g) => g.id == group_id,
        DockCell::Table(t) => exists|i: int|
            0 <= i < t.dock_cells@.len() && cell_has_group(#[trigger] t.dock_cells@[i], group_id),
    }
}

/// Whether the subtree holds a table with the identifier.
pub open spec fn cell_has_table(c: DockCell, table_id: u32) -> bool
    decreases c,
{
    match c {
        DockCell::Group(_) => false,
        DockCell::Table(t) => t.id == table_id || exists|i: int|
            0 <= i < t.dock_cells@.len() && cell_has_table(#[trigger] t.dock_cells@[i], table_id),
    }
}

/// The tab-strip rectangle of the first group (depth-first) that lists
/// the dock, if any group does.
pub open spec fn spec_tabs_rect_of_dock(c: DockCell, dock_id: u32) -> Option<Rectangle>
    decreases c,
{
    match c {
        DockCell::Group(g) => if g.dock_ids@.contains(dock_id) {
            Some(g.tabs_rect)
        } else {
            None
        },
        DockCell::Table(t) => spec_tabs_rect_of_dock_cells(t.dock_cells@, dock_id),
    }
}

/// The first non-empty answer among the cells, in order.
pub open spec fn spec_tabs_rect_of_dock_cells(s: Seq<DockCell>, dock_id: u32) -> Option<Rectangle>
    decreases s,
{
    if s.len() == 0 {
        None
    } else {
        match spec_tabs_rect_of_dock(s.first(), dock_id) {
            Some(r) => Some(r),
            None => spec_tabs_rect_of_dock_cells(s.drop_first(), dock_id),
        }
    }
}

/// Relates a tree before `add_dock_to_group` to the tree after it: on
/// the path to the first group (depth-first) carrying the identifier,
/// everything is kept except that group's dock list, which gains the
/// dock at its end.
pub open spec fn add_dock_rel(a: DockCell, b: DockCell, group_id: u32, dock_id: u32) -> bool
    decreases a,
{
    match a {
        DockCell::Group(ga) => {
            &&& ga.id == group_id
            &&& b matches DockCell::Group(gb)
            &&& gb == (DockGroup { dock_ids: gb.dock_ids, ..ga })
            &&& gb.dock_ids@ == ga.dock_ids@.push(dock_id)
        },
        DockCell::Table(ta) => {
            &&& b matches DockCell::Table(tb)
            &&& tb == (DockTable { dock_cells: tb.dock_cells, ..ta })
            &&& exists|i: int|
                {
                    &&& 0 <= i < ta.dock_cells@.len()
                    &&& (forall|j: int|
                        0 <= j < i ==> !cell_has_group(#[trigger] ta.dock_cells@[j], group_id))
                    &&& add_dock_rel(#[trigger] ta.dock_cells@[i], tb.dock_cells@[i], group_id, dock_id)
                    &&& tb.dock_cells@ == ta.dock_cells@.update(i, tb.dock_cells@[i])
                }
        },
    }
}

/// Whether the cell is a group carrying the identifier.
pub open spec fn cell_is_group_with_id(c: DockCell, group_id: u32) -> bool {
    c matches DockCell::Group(g) && g.id == group_id
}

/// Whether one of the cells is a group carrying the identifier.
pub open spec fn has_direct_group(s: Seq<DockCell>, group_id: u32) -> bool {
    exists|i: int| 0 <= i < s.len() && cell_is_group_with_id(#[trigger] s[i], group_id)
}

/// Whether some table of the subtree has a direct child group carrying
/// the identifier.
pub open spec fn cell_has_parent_of_group(c: DockCell, group_id: u32) -> bool
    decreases c,
{
    match c {
        DockCell::Group(_) => false,
        DockCell::Table(t) => has_direct_group(t.dock_cells@, group_id) || exists|i: int|
            0 <= i < t.dock_cells@.len() && cell_has_parent_of_group(
                #[trigger] t.dock_cells@[i],
                group_id,
            ),
    }
}

/// Relates a tree before `replace_group_by_table` to the tree after it:
/// in the first table (depth-first) having a direct child group with the
/// identifier, that child is replaced, at its index, by a new table of
/// the opposite orientation holding the group as its sole child.
pub open spec fn replace_rel(a: DockCell, b: DockCell, group_id: u32, new_table_id: u32) -> bool
    decreases a,
{
    match a {
        DockCell::Group(_) => false,
        DockCell::Table(ta) => {
            &&& b matches DockCell::Table(tb)
            &&& tb == (DockTable { dock_cells: tb.dock_cells, ..ta })
            &&& if has_direct_group(ta.dock_cells@, group_id) {
                exists|i: int|
                    {
                        &&& 0 <= i < ta.dock_cells@.len()
                        &&& (forall|j: int|
                            0 <= j < i ==> !cell_is_group_with_id(
                                #[trigger] ta.dock_cells@[j],
                                group_id,
                            ))
                        &&& cell_is_group_with_id(#[trigger] ta.dock_cells@[i], group_id)
                        &&& tb.dock_cells@ == ta.dock_cells@.update(i, tb.dock_cells@[i])
                        &&& tb.dock_cells@[i] matches DockCell::Table(nt)
                        &&& nt.id == new_table_id
                        &&& nt.vertical_align == !ta.vertical_align
                        &&& nt.rect == (Rectangle { x: 0i32, y: 0i32, width: 0i32, height: 0i32 })
                        &&& nt.dock_cells@ =~= seq![ta.dock_cells@[i]]
                    }
            } else {
                exists|i: int|
                    {
                        &&& 0 <= i < ta.dock_cells@.len()
                        &&& (forall|j: int|
                            0 <= j < i ==> !cell_has_parent_of_group(
                                #[trigger] ta.dock_cells@[j],
                                group_id,
                            ))
                        &&& replace_rel(
                            #[trigger] ta.dock_cells@[i],
                            tb.dock_cells@[i],
                            group_id,
                            new_table_id,
                        )
                        &&& tb.dock_cells@ == ta.dock_cells@.update(i, tb.dock_cells@[i])
                    }
            }
        },
    }
}

/// Relates a tree before an insertion to the tree after it: the first
/// table (depth-first, a table before its children) carrying the
/// identifier gains the cell at the index, clamped to its length.
pub open spec fn insert_rel(
    a: DockCell,
    b: DockCell,
    table_id: u32,
    cell: DockCell,
    index: usize,
) -> bool
    decreases a,
{
    match a {
        DockCell::Group(_) => false,
        DockCell::Table(ta) => {
            &&& b matches DockCell::Table(tb)
            &&& tb == (DockTable { dock_cells: tb.dock_cells, ..ta })
            &&& if ta.id == table_id {
                tb.dock_cells@ == ta.dock_cells@.insert(
                    if index <= ta.dock_cells@.len() {
                        index as int
                    } else {
                        ta.dock_cells@.len() as int
                    },
                    cell,
                )
            } else {
                exists|i: int|
                    {
                        &&& 0 <= i < ta.dock_cells@.len()
                        &&& (forall|j: int|
                            0 <= j < i ==> !cell_has_table(#[trigger] ta.dock_cells@[j], table_id))
                        &&& insert_rel(
                            #[trigger] ta.dock_cells@[i],
                            tb.dock_cells@[i],
                            table_id,
                            cell,
                            index,
                        )
                        &&& tb.dock_cells@ == ta.dock_cells@.update(i, tb.dock_cells@[i])
                    }
            }
        },
    }
}

/// A replacement leaves the new table in the tree.
proof fn lemma_replace_gives_table(a: DockCell, b: DockCell, group_id: u32, new_table_id: u32)
    requires
        replace_rel(a, b, group_id, new_table_id),
    ensures
        cell_has_table(b, new_table_id),
    decreases a,
{
    match a {
        DockCell::Group(_) => {},
        DockCell::Table(ta) => {
            let tb = b->Table_0;
            if has_direct_group(ta.dock_cells@, group_id) {
                let i = choose|i: int|
                    {
                        &&& 0 <= i < ta.dock_cells@.len()
                        &&& (forall|j: int|
                            0 <= j < i ==> !cell_is_group_with_id(
                                #[trigger] ta.dock_cells@[j],
                                group_id,
                            ))
                        &&& cell_is_group_with_id(#[trigger] ta.dock_cells@[i], group_id)
                        &&& tb.dock_cells@ == ta.dock_cells@.update(i, tb.dock_cells@[i])
                        &&& tb.dock_cells@[i] matches DockCell::Table(nt)
                        &&& nt.id == new_table_id
                        &&& nt.vertical_align == !ta.vertical_align
                        &&& nt.rect == (Rectangle { x: 0i32, y: 0i32, width: 0i32, height: 0i32 })
                        &&& nt.dock_cells@ =~= seq![ta.dock_cells@[i]]
                    };
                assert(cell_has_table(tb.dock_cells@[i], new_table_id));
            } else {
                let i = choose|i: int|
                    {
                        &&& 0 <= i < ta.dock_cells@.len()
                        &&& (forall|j: int|
                            0 <= j < i ==> !cell_has_parent_of_group(
                                #[trigger] ta.dock_cells@[j],
                                group_id,
                            ))
                        &&& replace_rel(
                            #[trigger] ta.dock_cells@[i],
                            tb.dock_cells@[i],
                            group_id,
                            new_table_id,
                        )
                        &&& tb.dock_cells@ == ta.dock_cells@.update(i, tb.dock_cells@[i])
                    };
                lemma_replace_gives_table(ta.dock_cells@[i], tb.dock_cells@[i], group_id,
                    new_table_id);
            }
        },
    }
}

/// An insertion leaves the inserted group in the tree.
pub proof fn lemma_insert_gives_group(
    a: DockCell,
    b: DockCell,
    table_id: u32,
    gcell: DockCell,
    index: usize,
    gid: u32,
)
    requires
        insert_rel(a, b, table_id, gcell, index),
        cell_is_group_with_id(gcell, gid),
    ensures
        cell_has_group(b, gid),
    decreases a,
{
    match a {
        DockCell::Group(_) => {},
        DockCell::Table(ta) => {
            let tb = b->Table_0;
            if ta.id == table_id {
                let at = if index <= ta.dock_cells@.len() {
                    index as int
                } else {
                    ta.dock_cells@.len() as int
                };
                assert(tb.dock_cells@[at] == gcell);
                assert(cell_has_group(tb.dock_cells@[at], gid));
            } else {
                let i = choose|i: int|
                    {
                        &&& 0 <= i < ta.dock_cells@.len()
                        &&& (forall|j: int|
                            0 <= j < i ==> !cell_has_table(#[trigger] ta.dock_cells@[j], table_id))
                        &&& insert_rel(
                            #[trigger] ta.dock_cells@[i],
                            tb.dock_cells@[i],
                            table_id,
                            gcell,
                            index,
                        )
                        &&& tb.dock_cells@ == ta.dock_cells@.update(i, tb.dock_cells@[i])
                    };
                lemma_insert_gives_group(
                    ta.dock_cells@[i],
                    tb.dock_cells@[i],
                    table_id,
                    gcell,
                    index,
                    gid,
                );
            }
        },
    }
}

/// Whether some table of the subtree has a direct child group carrying
/// the identifier.
pub fn cell_has_parent_of_group_exec(c: &DockCell, group_id: u32) -> (r: bool)
    ensures
        r == cell_has_parent_of_group(*c, group_id),
    decreases cell_count(*c), 1nat,
{
    match c {
        DockCell::Group(_) => false,
        DockCell::Table(t) => {
            let ghost s0 = t.dock_cells@;
            let mut i: usize = 0;
            #[verifier::loop_isolation(false)]
            while i < t.dock_cells.len()
                invariant
                    0 <= i <= s0.len(),
                    forall|j: int| 0 <= j < i ==> !cell_is_group_with_id(#[trigger] s0[j], group_id),
                decreases s0.len() - i,
            {
                if is_group_with_id_exec(&t.dock_cells[i], group_id) {
                    return true;
                }
                i = i + 1;
            }
            proof {
                assert(!has_direct_group(s0, group_id));
            }
            let mut i: usize = 0;
            #[verifier::loop_isolation(false)]
            while i < t.dock_cells.len()
                invariant
                    0 <= i <= s0.len(),
                    forall|j: int| 0 <= j < i ==> !cell_has_parent_of_group(#[trigger] s0[j], group_id),
                decreases s0.len() - i,
            {
                proof {
                    lemma_cell_count_seq_index(s0, i as int);
                }
                if cell_has_parent_of_group_exec(&t.dock_cells[i], group_id) {
                    return true;
                }
                i = i + 1;
            }
            false
        },
    }
}

/// Whether the cell is a group carrying the identifier.
fn is_group_with_id_exec(c: &DockCell, group_id: u32) -> (r: bool)
    ensures
        r == cell_is_group_with_id(*c, group_id),
{
    match c {
        DockCell::Group(g) => g.id == group_id,
        DockCell::Table(_) => false,
    }
}

/// Wraps the first direct child group carrying the identifier, in the
/// first table having one, in a new table of the opposite orientation.
fn replace_group_in_table(t: DockTable, group_id: u32, pool: &mut IndexPool) -> (r: (
    DockTable,
    Option<u32>,
))
    requires
        pool_can_alloc(*old(pool)),
    ensures
        r.1 is Some <==> cell_has_parent_of_group(DockCell::Table(t), group_id),
        r.1 matches Some(ntid) ==> {
            &&& replace_rel(DockCell::Table(t), DockCell::Table(r.0), group_id, ntid)
            &&& pool_alloc_rel(*old(pool), *final(pool), ntid)
        },
        r.1 is None ==> r.0 == t && *final(pool) == *old(pool),
    decreases cell_count_seq(t.dock_cells@),
{
    let ghost t0 = t;
    let ghost s0 = t.dock_cells@;
    let mut i: usize = 0;
    #[verifier::loop_isolation(false)]
    while i < t.dock_cells.len()
        invariant
            t == t0,
            *pool == *old(pool),
            0 <= i <= s0.len(),
            forall|j: int| 0 <= j < i ==> !cell_is_group_with_id(#[trigger] s0[j], group_id),
        decreases s0.len() - i,
    {
        if is_group_with_id_exec(&t.dock_cells[i], group_id) {
            let mut t = t;
            let group_cell = t.dock_cells.remove(i);
            let new_table_id = pool.get_index();
            let mut nt = DockTable::new(new_table_id, !t.vertical_align);
            nt.add_dock_cell(group_cell);
            t.dock_cells.insert(i, DockCell::Table(nt));
            proof {
                assert(t.dock_cells@ =~= s0.update(i as int, t.dock_cells@[i as int]));
                assert(has_direct_group(s0, group_id));
                assert(replace_rel(
                    DockCell::Table(t0),
                    DockCell::Table(t),
                    group_id,
                    new_table_id,
                ));
                assert(cell_has_parent_of_group(DockCell::Table(t0), group_id));
            }
            return (t, Some(new_table_id));
        }
        i = i + 1;
    }
    proof {
        assert(!has_direct_group(s0, group_id));
    }
    let mut i: usize = 0;
    #[verifier::loop_isolation(false)]
    while i < t.dock_cells.len()
        invariant
            t == t0,
            *pool == *old(pool),
            0 <= i <= s0.len(),
            forall|j: int| 0 <= j < i ==> !cell_has_parent_of_group(#[trigger] s0[j], group_id),
        decreases s0.len() - i,
    {
        proof {
            lemma_cell_count_seq_index(s0, i as int);
        }
        if cell_has_parent_of_group_exec(&t.dock_cells[i], group_id) {
            let mut t = t;
            let child = t.dock_cells.remove(i);
            match child {
                DockCell::Table(sub) => {
                    let (sub2, res) = replace_group_in_table(sub, group_id, pool);
                    proof {
                        assert(res is Some);
                    }
                    t.dock_cells.insert(i, DockCell::Table(sub2));
                    proof {
                        assert(t.dock_cells@ =~= s0.update(i as int, t.dock_cells@[i as int]));
                        assert(replace_rel(
                            DockCell::Table(t0),
                            DockCell::Table(t),
                            group_id,
                            res->0,
                        ));
                        assert(cell_has_parent_of_group(DockCell::Table(t0), group_id));
                    }
                    return (t, res);
                },
                DockCell::Group(g) => {
                    proof {
                        assert(false);
                    }
                    t.dock_cells.insert(i, DockCell::Group(g));
                    return (t, None);
                },
            }
        }
        i = i + 1;
    }
    proof {
        assert(!cell_has_parent_of_group(DockCell::Table(t0), group_id));
    }
    (t, None)
}

/// Inserts the cell into the first table (depth-first) carrying the
/// identifier, clamping the index to that table's length.
fn insert_cell_in_table(t: DockTable, table_id: u32, cell: DockCell, index: usize) -> (r: (
    DockTable,
    bool,
))
    ensures
        r.1 == cell_has_table(DockCell::Table(t), table_id),
        r.1 ==> insert_rel(DockCell::Table(t), DockCell::Table(r.0), table_id, cell, index),
        !r.1 ==> r.0 == t,
    decreases cell_count_seq(t.dock_cells@),
{
    let ghost t0 = t;
    let ghost s0 = t.dock_cells@;
    if t.id == table_id {
        let mut t = t;
        t.insert_dock_cell(cell, index);
        proof {
            assert(insert_rel(DockCell::Table(t0), DockCell::Table(t), table_id, cell, index));
        }
        return (t, true);
    }
    let mut i: usize = 0;
    #[verifier::loop_isolation(false)]
    while i < t.dock_cells.len()
        invariant
            t == t0,
            0 <= i <= s0.len(),
            forall|j: int| 0 <= j < i ==> !cell_has_table(#[trigger] s0[j], table_id),
        decreases s0.len() - i,
    {
        proof {
            lemma_cell_count_seq_index(s0, i as int);
        }
        if cell_has_table_exec(&t.dock_cells[i], table_id) {
            let mut t = t;
            let child = t.dock_cells.remove(i);
            match child {
                DockCell::Table(sub) => {
                    let (sub2, found) = insert_cell_in_table(sub, table_id, cell, index);
                    proof {
                        assert(found);
                    }
                    t.dock_cells.insert(i, DockCell::Table(sub2));
                    proof {
                        assert(t.dock_cells@ =~= s0.update(i as int, t.dock_cells@[i as int]));
                        assert(insert_rel(
                            DockCell::Table(t0),
                            DockCell::Table(t),
                            table_id,
                            cell,
                            index,
                        ));
                        assert(cell_has_table(DockCell::Table(t0), table_id));
                    }
                    return (t, true);
                },
                DockCell::Group(g) => {
                    proof {
                        assert(false);
                    }
                    t.dock_cells.insert(i, DockCell::Group(g));
                    return (t, false);
                },
            }
        }
        i = i + 1;
    }
    proof {
        assert(!cell_has_table(DockCell::Table(t0), table_id));
    }
    (t, false)
}

/// The pool after the call extends the pool before it: the counter is
/// unchanged and the recycled identifiers before the call are still
/// there, in order, possibly followed by newly recycled ones.
pub open spec fn pool_extended(p0: IndexPool, p1: IndexPool) -> bool {
    &&& p1.next_index == p0.next_index
    &&& p1.recycled@.len() >= p0.recycled@.len()
    &&& p1.recycled@.subrange(0, p0.recycled@.len() as int) == p0.recycled@
}

/// Extension of pools is transitive.
proof fn lemma_pool_extended_trans(p0: IndexPool, p1: IndexPool, p2: IndexPool)
    requires
        pool_extended(p0, p1),
        pool_extended(p1, p2),
    ensures
        pool_extended(p0, p2),
{
    assert(p2.recycled@.subrange(0, p0.recycled@.len() as int) =~= p2.recycled@.subrange(
        0,
        p1.recycled@.len() as int,
    ).subrange(0, p0.recycled@.len() as int));
}

/// Relates a table before `remove_dock_from_group` reaches it to the
/// table after it, on the path to the first group (depth-first) that
/// lists the dock.
///
/// In that group the dock's first occurrence is removed; a group left
/// empty is deleted from its parent table. `collapsing` reports that the
/// caller one level up must inspect this table in turn: a collapsing
/// child table left without children is deleted, one left with a single
/// child is replaced by that child (the collapse), and one left with two
/// or more children ends the collapse.
/// The pool's recycled list after handing back the identifiers in
/// order: each joins the list iff it lies below the high-water mark.
pub open spec fn recycle_all(recycled: Seq<u32>, ids: Seq<u32>, next: u32) -> Seq<u32>
    decreases ids.len(),
{
    if ids.len() == 0 {
        recycled
    } else {
        recycle_all(
            if ids.first() < next {
                recycled.push(ids.first())
            } else {
                recycled
            },
            ids.drop_first(),
            next,
        )
    }
}

/// Handing back no identifiers changes nothing.
proof fn lemma_recycle_all_empty(recycled: Seq<u32>, next: u32)
    ensures
        recycle_all(recycled, Seq::<u32>::empty(), next) == recycled,
{
}

/// Handing back one identifier pushes it iff it is below the mark.
pub proof fn lemma_recycle_all_one(recycled: Seq<u32>, id: u32, next: u32)
    ensures
        recycle_all(recycled, seq![id], next) == if id < next {
            recycled.push(id)
        } else {
            recycled
        },
{
    assert(seq![id].first() == id);
    assert(seq![id].drop_first() =~= Seq::<u32>::empty());
    lemma_recycle_all_empty(
        if id < next {
            recycled.push(id)
        } else {
            recycled
        },
        next,
    );
}

/// Handing back one more identifier at the end extends the result by
/// that identifier iff it is below the mark.
proof fn lemma_recycle_all_snoc(recycled: Seq<u32>, ids: Seq<u32>, id: u32, next: u32)
    ensures
        recycle_all(recycled, ids.push(id), next) == if id < next {
            recycle_all(recycled, ids, next).push(id)
        } else {
            recycle_all(recycled, ids, next)
        },
    decreases ids.len(),
{
    if ids.len() == 0 {
        assert(ids.push(id) =~= seq![id]);
        lemma_recycle_all_one(recycled, id, next);
        lemma_recycle_all_empty(recycled, next);
    } else {
        assert(ids.push(id).first() == ids.first());
        assert(ids.push(id).drop_first() =~= ids.drop_first().push(id));
        lemma_recycle_all_snoc(
            if ids.first() < next {
                recycled.push(ids.first())
            } else {
                recycled
            },
            ids.drop_first(),
            id,
            next,
        );
    }
}

pub open spec fn first_removed(old_ids: Seq<u32>, new_ids: Seq<u32>, dock_id: u32) -> bool {
    exists|m: int|
        {
            &&& 0 <= m < old_ids.len()
            &&& (#[trigger] old_ids[m]) == dock_id
            &&& (forall|mp: int| 0 <= mp < m ==> old_ids[mp] != dock_id)
            &&& new_ids == old_ids.remove(m)
        }
}

/// A marker naming a collapse witness: the transformed child table, its
/// collapse flag, the identifiers its pass deleted, and the child's own
/// removal index. It guides the prover to the right instantiation and
/// carries no meaning of its own.
pub open spec fn removal_witness(sub2: DockTable, csub: bool, ds2: Seq<u32>, i2: int) -> bool {
    true
}

pub open spec fn remove_rel_at(
    a: DockTable,
    b: DockTable,
    dock_id: u32,
    collapsing: bool,
    deleted: Seq<u32>,
    i: int,
) -> bool
    decreases a,
{
    &&& 0 <= i < a.dock_cells@.len()
    &&& (forall|j: int| 0 <= j < i ==> !cell_mentions_dock(#[trigger] a.dock_cells@[j], dock_id))
    &&& cell_mentions_dock(a.dock_cells@[i], dock_id)
    &&& match a.dock_cells@[i] {
        DockCell::Group(ga) => if ga.dock_ids@.len() > 1 {
            &&& !collapsing
            &&& deleted =~= Seq::<u32>::empty()
            &&& b.dock_cells@.len() == a.dock_cells@.len()
            &&& b.dock_cells@[i] matches DockCell::Group(gb)
            &&& gb == (DockGroup { dock_ids: gb.dock_ids, ..ga })
            &&& first_removed(ga.dock_ids@, gb.dock_ids@, dock_id)
            &&& b.dock_cells@ == a.dock_cells@.update(i, b.dock_cells@[i])
        } else {
            &&& collapsing
            &&& ga.dock_ids@ =~= seq![dock_id]
            &&& deleted =~= seq![ga.id]
            &&& b.dock_cells@ == a.dock_cells@.remove(i)
        },
        DockCell::Table(sub) => exists|sub2: DockTable, csub: bool, ds2: Seq<u32>, i2: int|
            {
                &&& #[trigger] removal_witness(sub2, csub, ds2, i2)
                &&& remove_rel_at(sub, sub2, dock_id, csub, ds2, i2)
                &&& sub2 == (DockTable { dock_cells: sub2.dock_cells, ..sub })
                &&& if !csub || sub2.dock_cells@.len() >= 2 {
                    &&& !collapsing
                    &&& deleted == ds2
                    &&& b.dock_cells@.len() == a.dock_cells@.len()
                    &&& b.dock_cells@[i] == DockCell::Table(sub2)
                    &&& b.dock_cells@ == a.dock_cells@.update(i, b.dock_cells@[i])
                } else if sub2.dock_cells@.len() == 1 {
                    &&& collapsing
                    &&& deleted =~= ds2.push(sub2.id)
                    &&& b.dock_cells@ == a.dock_cells@.update(i, sub2.dock_cells@[0])
                } else {
                    &&& collapsing
                    &&& deleted =~= ds2.push(sub2.id)
                    &&& b.dock_cells@ == a.dock_cells@.remove(i)
                }
            },
    }
}

pub open spec fn remove_rel(
    a: DockTable,
    b: DockTable,
    dock_id: u32,
    collapsing: bool,
    deleted: Seq<u32>,
) -> bool {
    &&& b == (DockTable { dock_cells: b.dock_cells, ..a })
    &&& exists|i: int| #[trigger] remove_rel_at(a, b, dock_id, collapsing, deleted, i)
}

/// Packages the table-child case of `remove_rel_at` from the facts the
/// removal code has at hand.
proof fn lemma_remove_rel_table_child(
    a: DockTable,
    b: DockTable,
    dock_id: u32,
    collapsing: bool,
    i: int,
    sub: DockTable,
    sub2: DockTable,
    csub: bool,
    ds2: Seq<u32>,
    deleted: Seq<u32>,
)
    requires
        0 <= i < a.dock_cells@.len(),
        forall|j: int| 0 <= j < i ==> !cell_mentions_dock(#[trigger] a.dock_cells@[j], dock_id),
        cell_mentions_dock(a.dock_cells@[i], dock_id),
        a.dock_cells@[i] == DockCell::Table(sub),
        remove_rel(sub, sub2, dock_id, csub, ds2),
        if !csub || sub2.dock_cells@.len() >= 2 {
            &&& !collapsing
            &&& deleted == ds2
            &&& b.dock_cells@.len() == a.dock_cells@.len()
            &&& b.dock_cells@[i] == DockCell::Table(sub2)
            &&& b.dock_cells@ == a.dock_cells@.update(i, b.dock_cells@[i])
        } else if sub2.dock_cells@.len() == 1 {
            &&& collapsing
            &&& deleted =~= ds2.push(sub2.id)
            &&& b.dock_cells@ == a.dock_cells@.update(i, sub2.dock_cells@[0])
        } else {
            &&& collapsing
            &&& deleted =~= ds2.push(sub2.id)
            &&& b.dock_cells@ == a.dock_cells@.remove(i)
        },
    ensures
        remove_rel_at(a, b, dock_id, collapsing, deleted, i),
{
    assert(a.dock_cells@[i]->Table_0 == sub);
    let i2c = choose|i2: int| #[trigger] remove_rel_at(sub, sub2, dock_id, csub, ds2, i2);
    assert(remove_rel_at(sub, sub2, dock_id, csub, ds2, i2c));
    assert(removal_witness(sub2, csub, ds2, i2c));
    assert(exists|s2: DockTable, c2: bool, d2: Seq<u32>, i2: int|
        {
            &&& #[trigger] removal_witness(s2, c2, d2, i2)
            &&& remove_rel_at(sub, s2, dock_id, c2, d2, i2)
            &&& s2 == (DockTable { dock_cells: s2.dock_cells, ..sub })
            &&& if !c2 || s2.dock_cells@.len() >= 2 {
                &&& !collapsing
                &&& deleted == d2
                &&& b.dock_cells@.len() == a.dock_cells@.len()
                &&& b.dock_cells@[i] == DockCell::Table(s2)
                &&& b.dock_cells@ == a.dock_cells@.update(i, b.dock_cells@[i])
            } else if s2.dock_cells@.len() == 1 {
                &&& collapsing
                &&& deleted =~= d2.push(s2.id)
                &&& b.dock_cells@ == a.dock_cells@.update(i, s2.dock_cells@[0])
            } else {
                &&& collapsing
                &&& deleted =~= d2.push(s2.id)
                &&& b.dock_cells@ == a.dock_cells@.remove(i)
            }
        });
}

/// Whether some group of the subtree lists the dock.
pub fn cell_mentions_dock_exec(c: &DockCell, dock_id: u32) -> (r: bool)
    ensures
        r == cell_mentions_dock(*c, dock_id),
    decreases cell_count(*c),
{
    match c {
        DockCell::Group(g) => {
            let mut m: usize = 0;
            #[verifier::loop_isolation(false)]
            while m < g.dock_ids.len()
                invariant
                    0 <= m <= g.dock_ids@.len(),
                    forall|j: int| 0 <= j < m ==> g.dock_ids@[j] != dock_id,
                decreases g.dock_ids@.len() - m,
            {
                if g.dock_ids[m] == dock_id {
                    return true;
                }
                m = m + 1;
            }
            proof {
                assert(!g.dock_ids@.contains(dock_id));
            }
            false
        },
        DockCell::Table(t) => {
            let ghost s0 = t.dock_cells@;
            let mut i: usize = 0;
            #[verifier::loop_isolation(false)]
            while i < t.dock_cells.len()
                invariant
                    0 <= i <= s0.len(),
                    forall|j: int| 0 <= j < i ==> !cell_mentions_dock(#[trigger] s0[j], dock_id),
                decreases s0.len() - i,
            {
                proof {
                    lemma_cell_count_seq_index(s0, i as int);
                }
                if cell_mentions_dock_exec(&t.dock_cells[i], dock_id) {
                    return true;
                }
                i = i + 1;
            }
            false
        },
    }
}

/// Removes the dock from the first group (depth-first) in the table's
/// subtree that lists it, deleting the group if it empties and
/// collapsing degenerate tables on the way back up; the identifiers of
/// deleted nodes go back to the pool.
fn remove_dock_in_table(t: DockTable, dock_id: u32, pool: &mut IndexPool) -> (r: (
    DockTable,
    bool,
    bool,
    Ghost<Seq<u32>>,
))
    ensures
        r.1 == cell_mentions_dock(DockCell::Table(t), dock_id),
        r.1 ==> {
            &&& remove_rel(t, r.0, dock_id, r.2, r.3@)
            &&& final(pool).next_index == old(pool).next_index
            &&& final(pool).recycled@ == recycle_all(
                old(pool).recycled@,
                r.3@,
                old(pool).next_index,
            )
            &&& pool_extended(*old(pool), *final(pool))
        },
        !r.1 ==> r.0 == t && *final(pool) == *old(pool) && !r.2,
    decreases cell_count_seq(t.dock_cells@),
{
    let ghost t0 = t;
    let ghost s0 = t.dock_cells@;
    let mut i: usize = 0;
    #[verifier::loop_isolation(false)]
    while i < t.dock_cells.len()
        invariant
            t == t0,
            *pool == *old(pool),
            0 <= i <= s0.len(),
            forall|j: int| 0 <= j < i ==> !cell_mentions_dock(#[trigger] s0[j], dock_id),
        decreases s0.len() - i,
    {
        proof {
            lemma_cell_count_seq_index(s0, i as int);
        }
        if cell_mentions_dock_exec(&t.dock_cells[i], dock_id) {
            let mut t = t;
            let child = t.dock_cells.remove(i);
            match child {
                DockCell::Group(g) => {
                    let ghost g0 = g;
                    let mut g = g;
                    let removed_at = g.remove_dock(dock_id);
                    proof {
                        assert(removed_at is Some);
                        assert(s0[i as int] == DockCell::Group(g0));
                    }
                    if g.dock_ids.len() == 0 {
                        pool.recycle_index(g.id);
                        proof {
                            assert(g0.dock_ids@ =~= seq![dock_id]);
                            assert(t.dock_cells@ =~= s0.remove(i as int));
                            assert(pool.recycled@.subrange(0, old(pool).recycled@.len() as int)
                                =~= old(pool).recycled@);
                            lemma_recycle_all_one(
                                old(pool).recycled@,
                                g0.id,
                                old(pool).next_index,
                            );
                            assert(remove_rel_at(t0, t, dock_id, true, seq![g0.id], i as int));
                            assert(remove_rel(t0, t, dock_id, true, seq![g0.id]));
                            assert(cell_mentions_dock(t0.dock_cells@[i as int], dock_id));
                            assert(DockCell::Table(t0) matches DockCell::Table(tx) && tx == t0);
                            assert(cell_mentions_dock(DockCell::Table(t0), dock_id));
                        }
                        let ghost dsg: Seq<u32> = seq![g0.id];
                        return (t, true, true, Ghost(dsg));
                    } else {
                        t.dock_cells.insert(i, DockCell::Group(g));
                        proof {
                            assert(first_removed(g0.dock_ids@, g.dock_ids@, dock_id));
                            assert(t.dock_cells@ =~= s0.update(i as int, t.dock_cells@[i as int]));
                            assert(t.dock_cells@[i as int] matches DockCell::Group(gb2)
                                && gb2 == (DockGroup { dock_ids: gb2.dock_ids, ..g0 })
                                && first_removed(g0.dock_ids@, gb2.dock_ids@, dock_id));
                            assert(t0.dock_cells@[i as int] == DockCell::Group(g0));
                            assert(t0.dock_cells@[i as int]->Group_0 == g0);
                            assert(pool.recycled@.subrange(0, old(pool).recycled@.len() as int)
                                =~= old(pool).recycled@);
                            lemma_recycle_all_empty(old(pool).recycled@, old(pool).next_index);
                            assert(remove_rel_at(
                                t0,
                                t,
                                dock_id,
                                false,
                                Seq::<u32>::empty(),
                                i as int,
                            ));
                            assert(remove_rel(t0, t, dock_id, false, Seq::<u32>::empty()));
                            assert(DockCell::Table(t0) matches DockCell::Table(tx) && tx == t0);
                            assert(cell_mentions_dock(DockCell::Table(t0), dock_id));
                        }
                        let ghost dsg: Seq<u32> = Seq::<u32>::empty();
                        return (t, true, false, Ghost(dsg));
                    }
                },
                DockCell::Table(sub) => {
                    let ghost sub0 = sub;
                    let (sub2, found, csub, ds2) = remove_dock_in_table(sub, dock_id, pool);
                    let ghost pmid = *pool;
                    let ghost sub2g = sub2;
                    proof {
                        assert(found);
                    }
                    if !csub || sub2.dock_cells.len() >= 2 {
                        t.dock_cells.insert(i, DockCell::Table(sub2));
                        proof {
                            assert(s0[i as int] == DockCell::Table(sub0));
                            assert(t0.dock_cells@[i as int] == DockCell::Table(sub0));
                            assert(t0.dock_cells@[i as int]->Table_0 == sub0);
                            assert(remove_rel(sub0, sub2g, dock_id, csub, ds2@));
                            assert(t.dock_cells@ =~= s0.update(i as int, t.dock_cells@[i as int]));
                            assert(t.dock_cells@[i as int] == DockCell::Table(sub2g));
                            lemma_remove_rel_table_child(t0, t, dock_id, false, i as int, sub0,
                                sub2g, csub, ds2@, ds2@);
                            assert(remove_rel_at(t0, t, dock_id, false, ds2@, i as int));
                            assert(remove_rel(t0, t, dock_id, false, ds2@));
                            assert(DockCell::Table(t0) matches DockCell::Table(tx) && tx == t0);
                            assert(cell_mentions_dock(DockCell::Table(t0), dock_id));
                        }
                        return (t, true, false, ds2);
                    } else if sub2.dock_cells.len() == 1 {
                        let mut sub2 = sub2;
                        let only = sub2.dock_cells.remove(0);
                        pool.recycle_index(sub2.id);
                        t.dock_cells.insert(i, only);
                        proof {
                            assert(only == sub2g.dock_cells@[0]);
                            assert(pool.recycled@.subrange(0, pmid.recycled@.len() as int)
                                =~= pmid.recycled@);
                            lemma_pool_extended_trans(*old(pool), pmid, *pool);
                            lemma_recycle_all_snoc(
                                old(pool).recycled@,
                                ds2@,
                                sub2g.id,
                                old(pool).next_index,
                            );
                            assert(t0.dock_cells@[i as int] == DockCell::Table(sub0));
                            assert(t0.dock_cells@[i as int]->Table_0 == sub0);
                            assert(remove_rel(sub0, sub2g, dock_id, csub, ds2@));
                            assert(t.dock_cells@ =~= s0.update(i as int, t.dock_cells@[i as int]));
                            lemma_remove_rel_table_child(t0, t, dock_id, true, i as int, sub0,
                                sub2g, csub, ds2@, ds2@.push(sub2g.id));
                            assert(remove_rel_at(
                                t0,
                                t,
                                dock_id,
                                true,
                                ds2@.push(sub2g.id),
                                i as int,
                            ));
                            assert(remove_rel(t0, t, dock_id, true, ds2@.push(sub2g.id)));
                            assert(DockCell::Table(t0) matches DockCell::Table(tx) && tx == t0);
                            assert(cell_mentions_dock(DockCell::Table(t0), dock_id));
                        }
                        let ghost dsg: Seq<u32> = ds2@.push(sub2g.id);
                        return (t, true, true, Ghost(dsg));
                    } else {
                        pool.recycle_index(sub2.id);
                        proof {
                            assert(pool.recycled@.subrange(0, pmid.recycled@.len() as int)
                                =~= pmid.recycled@);
                            lemma_pool_extended_trans(*old(pool), pmid, *pool);
                            lemma_recycle_all_snoc(
                                old(pool).recycled@,
                                ds2@,
                                sub2g.id,
                                old(pool).next_index,
                            );
                            assert(t0.dock_cells@[i as int] == DockCell::Table(sub0));
                            assert(t0.dock_cells@[i as int]->Table_0 == sub0);
                            assert(remove_rel(sub0, sub2g, dock_id, csub, ds2@));
                            assert(t.dock_cells@ =~= s0.remove(i as int));
                            lemma_remove_rel_table_child(t0, t, dock_id, true, i as int, sub0,
                                sub2g, csub, ds2@, ds2@.push(sub2g.id));
                            assert(remove_rel_at(
                                t0,
                                t,
                                dock_id,
                                true,
                                ds2@.push(sub2g.id),
                                i as int,
                            ));
                            assert(remove_rel(t0, t, dock_id, true, ds2@.push(sub2g.id)));
                            assert(DockCell::Table(t0) matches DockCell::Table(tx) && tx == t0);
                            assert(cell_mentions_dock(DockCell::Table(t0), dock_id));
                        }
                        let ghost dsg: Seq<u32> = ds2@.push(sub2g.id);
                        return (t, true, true, Ghost(dsg));
                    }
                },
            }
        }
        i = i + 1;
    }
    proof {
        assert(!cell_mentions_dock(DockCell::Table(t0), dock_id));
    }
    let ghost dsg: Seq<u32> = Seq::<u32>::empty();
    (t, false, false, Ghost(dsg))
}

/// The last position at which the strip lists the dock, if any.
pub open spec fn last_index_of(ids: Seq<u32>, dock_id: u32) -> Option<int>
    decreases ids.len(),
{
    if ids.len() == 0 {
        None
    } else {
        match last_index_of(ids.drop_first(), dock_id) {
            Some(k) => Some(k + 1),
            None => if ids.first() == dock_id {
                Some(0)
            } else {
                None
            },
        }
    }
}

/// The insertion slot `move_dock_to_position` picks for the pointer:
/// walking the strip left to right, the first slot whose projected right
/// edge (the running right edge plus the dragged tab's own width) passes
/// the pointer; the running edge advances by each other tab's width plus
/// the gap, and the slot index counts only the other tabs. A dock
/// reference the registry does not know is skipped.
pub open spec fn scan_new_index(
    ids: Seq<u32>,
    docks: Seq<Dock>,
    dock_id: u32,
    x: int,
    drag_width: int,
    right_x: int,
    cur: int,
) -> Option<int>
    decreases ids.len(),
{
    if ids.len() == 0 {
        None
    } else {
        match spec_find_dock(docks, ids.first()) {
            None => scan_new_index(ids.drop_first(), docks, dock_id, x, drag_width, right_x, cur),
            Some(d) => if x < right_x + drag_width {
                Some(cur)
            } else if ids.first() == dock_id {
                scan_new_index(ids.drop_first(), docks, dock_id, x, drag_width, right_x, cur)
            } else {
                scan_new_index(
                    ids.drop_first(),
                    docks,
                    dock_id,
                    x,
                    drag_width,
                    right_x + d.tab_rect.width + TAB_GAP as int,
                    cur + 1,
                )
            },
        }
    }
}

/// The strip after `move_dock_to_position`: the dragged tab spliced from
/// its old slot to the picked one; with no pick, the last slot.
pub open spec fn spec_moved_ids(g: DockGroup, docks: Seq<Dock>, dock_id: u32, x: int, drag_width: int) -> Seq<u32> {
    let new_index = match scan_new_index(
        g.dock_ids@,
        docks,
        dock_id,
        x,
        drag_width,
        g.tabs_rect.x + TAB_START_OFFSET as int,
        0,
    ) {
        Some(n) => n,
        None => g.dock_ids@.len() as int - 1,
    };
    match last_index_of(g.dock_ids@, dock_id) {
        Some(old_index) => if old_index == new_index {
            g.dock_ids@
        } else {
            g.dock_ids@.remove(old_index).insert(new_index, dock_id)
        },
        None => g.dock_ids@,
    }
}

/// Relates a tree before `move_dock_to_position` to the tree after it:
/// on the path to the first group (depth-first) listing the dock,
/// everything is kept except that group's tab order, which is respliced
/// around the pointer.
pub open spec fn move_rel(
    a: DockCell,
    b: DockCell,
    dock_id: u32,
    x: int,
    drag_width: int,
    docks: Seq<Dock>,
) -> bool
    decreases a,
{
    match a {
        DockCell::Group(ga) => {
            &&& ga.dock_ids@.contains(dock_id)
            &&& b matches DockCell::Group(gb)
            &&& gb == (DockGroup { dock_ids: gb.dock_ids, ..ga })
            &&& gb.dock_ids@ == spec_moved_ids(ga, docks, dock_id, x, drag_width)
        },
        DockCell::Table(ta) => {
            &&& b matches DockCell::Table(tb)
            &&& tb == (DockTable { dock_cells: tb.dock_cells, ..ta })
            &&& exists|i: int|
                {
                    &&& 0 <= i < ta.dock_cells@.len()
                    &&& (forall|j: int|
                        0 <= j < i ==> !cell_mentions_dock(#[trigger] ta.dock_cells@[j], dock_id))
                    &&& move_rel(
                        #[trigger] ta.dock_cells@[i],
                        tb.dock_cells@[i],
                        dock_id,
                        x,
                        drag_width,
                        docks,
                    )
                    &&& tb.dock_cells@ == ta.dock_cells@.update(i, tb.dock_cells@[i])
                }
        },
    }
}

/// A slot characterized from the right is what the backward reading of
/// the strip yields.
proof fn lemma_last_index_at(ids: Seq<u32>, dock_id: u32, k: int)
    requires
        0 <= k < ids.len(),
        ids[k] == dock_id,
        forall|j: int| k < j < ids.len() ==> ids[j] != dock_id,
    ensures
        last_index_of(ids, dock_id) == Some(k),
    decreases ids.len(),
{
    if k == 0 {
        assert(ids[0] == ids.first());
        assert(forall|j: int|
            0 <= j < ids.drop_first().len() ==> ids.drop_first()[j] == ids[j + 1]);
        lemma_last_index_none(ids.drop_first(), dock_id);
    } else {
        assert(forall|j: int|
            0 <= j < ids.drop_first().len() ==> ids.drop_first()[j] == ids[j + 1]);
        lemma_last_index_at(ids.drop_first(), dock_id, k - 1);
    }
}

/// A strip without the dock yields no slot.
proof fn lemma_last_index_none(ids: Seq<u32>, dock_id: u32)
    requires
        forall|j: int| 0 <= j < ids.len() ==> ids[j] != dock_id,
    ensures
        last_index_of(ids, dock_id) is None,
    decreases ids.len(),
{
    if ids.len() > 0 {
        assert(ids[0] == ids.first());
        assert(forall|j: int|
            0 <= j < ids.drop_first().len() ==> ids.drop_first()[j] == ids[j + 1]);
        lemma_last_index_none(ids.drop_first(), dock_id);
    }
}

/// Resplices the strip of the first group (depth-first) listing the
/// dock, around the pointer's x coordinate.
fn move_dock_in_cell(c: DockCell, dock_id: u32, x: i32, drag_width: i32, docks: &Vec<Dock>) -> (r:
    (DockCell, bool))
    requires
        group_counts_ok(c),
    ensures
        r.1 == cell_mentions_dock(c, dock_id),
        r.1 ==> move_rel(c, r.0, dock_id, x as int, drag_width as int, docks@),
        !r.1 ==> r.0 == c,
    decreases cell_count(c),
{
    match c {
        DockCell::Group(g) => {
            let ghost g0 = g;
            let ghost ids = g.dock_ids@;
            let n = g.dock_ids.len();
            // backward scan for the dragged tab's current slot
            let mut old_index_opt: Option<usize> = None;
            let mut m: usize = n;
            #[verifier::loop_isolation(false)]
            while m > 0 && old_index_opt.is_none()
                invariant
                    0 <= m <= n,
                    old_index_opt is None ==> forall|j: int| m <= j < n ==> ids[j] != dock_id,
                    old_index_opt matches Some(v) ==> {
                        &&& v < n
                        &&& ids[v as int] == dock_id
                        &&& last_index_of(ids, dock_id) == Some(v as int)
                    },
                decreases m,
            {
                m = m - 1;
                if g.dock_ids[m] == dock_id {
                    proof {
                        lemma_last_index_at(ids, dock_id, m as int);
                    }
                    old_index_opt = Some(m);
                }
            }
            match old_index_opt {
                None => {
                    proof {
                        lemma_last_index_none(ids, dock_id);
                        assert(!ids.contains(dock_id));
                    }
                    (DockCell::Group(g), false)
                },
                Some(old_index) => {
                    proof {
                        assert(ids.contains(dock_id));
                    }
                    // forward scan for the new slot
                    let mut right_x: i64 = (g.tabs_rect.x as i64) + (TAB_START_OFFSET as i64);
                    let mut cur: usize = 0;
                    let mut new_index_opt: Option<usize> = None;
                    let mut k: usize = 0;
                    proof {
                        assert(ids.subrange(0, ids.len() as int) =~= ids);
                    }
                    #[verifier::loop_isolation(false)]
                    while k < n
                        invariant
                            0 <= k <= n,
                            cur <= k,
                            (g.tabs_rect.x as int) + TAB_START_OFFSET as int - 2_200_000_000
                                * (k as int) <= right_x <= (g.tabs_rect.x as int)
                                + TAB_START_OFFSET as int + 2_200_000_000 * (k as int),
                            new_index_opt is None ==> scan_new_index(
                                ids,
                                docks@,
                                dock_id,
                                x as int,
                                drag_width as int,
                                (g.tabs_rect.x as int) + TAB_START_OFFSET as int,
                                0,
                            ) == scan_new_index(
                                ids.subrange(k as int, ids.len() as int),
                                docks@,
                                dock_id,
                                x as int,
                                drag_width as int,
                                right_x as int,
                                cur as int,
                            ),
                            new_index_opt matches Some(nv) ==> scan_new_index(
                                ids,
                                docks@,
                                dock_id,
                                x as int,
                                drag_width as int,
                                (g.tabs_rect.x as int) + TAB_START_OFFSET as int,
                                0,
                            ) == Some(nv as int) && nv < n,
                        decreases n - k,
                    {
                        let ghost rest = ids.subrange(k as int, ids.len() as int);
                        proof {
                            assert(rest.first() == ids[k as int]);
                            assert(rest.drop_first() =~= ids.subrange(
                                k as int + 1,
                                ids.len() as int,
                            ));
                        }
                        if new_index_opt.is_none() {
                            let id_k = g.dock_ids[k];
                            match find_dock_index(docks, id_k) {
                                Some(di) => {
                                    let w = docks[di].tab_rect.width;
                                    if (x as i64) < right_x + (drag_width as i64) {
                                        new_index_opt = Some(cur);
                                        proof {
                                            assert(cur < n);
                                        }
                                    } else if id_k != dock_id {
                                        right_x = right_x + (w as i64) + (TAB_GAP as i64);
                                        cur = cur + 1;
                                    }
                                },
                                None => {},
                            }
                        }
                        k = k + 1;
                    }
                    proof {
                        if new_index_opt is None {
                            assert(ids.subrange(ids.len() as int, ids.len() as int)
                                =~= Seq::<u32>::empty());
                        }
                    }
                    let new_index: usize = match new_index_opt {
                        Some(nv) => nv,
                        None => n - 1,
                    };
                    if old_index != new_index {
                        let mut g = g;
                        g.dock_ids.remove(old_index);
                        g.dock_ids.insert(new_index, dock_id);
                        proof {
                            assert(g.dock_ids@ == spec_moved_ids(
                                g0,
                                docks@,
                                dock_id,
                                x as int,
                                drag_width as int,
                            ));
                            assert(move_rel(
                                DockCell::Group(g0),
                                DockCell::Group(g),
                                dock_id,
                                x as int,
                                drag_width as int,
                                docks@,
                            ));
                        }
                        (DockCell::Group(g), true)
                    } else {
                        proof {
                            assert(g.dock_ids@ == spec_moved_ids(
                                g0,
                                docks@,
                                dock_id,
                                x as int,
                                drag_width as int,
                            ));
                        }
                        (DockCell::Group(g), true)
                    }
                },
            }
        },
        DockCell::Table(t) => {
            let ghost t0 = t;
            let ghost s0 = t.dock_cells@;
            let mut i: usize = 0;
            #[verifier::loop_isolation(false)]
            while i < t.dock_cells.len()
                invariant
                    t == t0,
                    0 <= i <= s0.len(),
                    forall|j: int| 0 <= j < i ==> !cell_mentions_dock(#[trigger] s0[j], dock_id),
                decreases s0.len() - i,
            {
                proof {
                    lemma_cell_count_seq_index(s0, i as int);
                }
                if cell_mentions_dock_exec(&t.dock_cells[i], dock_id) {
                    let mut t = t;
                    let child = t.dock_cells.remove(i);
                    let (child2, found) = move_dock_in_cell(child, dock_id, x, drag_width, docks);
                    proof {
                        assert(found);
                    }
                    t.dock_cells.insert(i, child2);
                    proof {
                        assert(t.dock_cells@ =~= s0.update(i as int, t.dock_cells@[i as int]));
                        assert(move_rel(
                            DockCell::Table(t0),
                            DockCell::Table(t),
                            dock_id,
                            x as int,
                            drag_width as int,
                            docks@,
                        ));
                        assert(cell_mentions_dock(DockCell::Table(t0), dock_id));
                    }
                    return (DockCell::Table(t), true);
                }
                i = i + 1;
            }
            proof {
                assert(!cell_mentions_dock(DockCell::Table(t0), dock_id));
            }
            (DockCell::Table(t), false)
        },
    }
}

/// Whether the subtree holds a group with the identifier.
pub fn cell_has_group_exec(c: &DockCell, group_id: u32) -> (r: bool)
    ensures
        r == cell_has_group(*c, group_id),
    decreases cell_count(*c),
{
    match c {
        DockCell::Group(g) => g.id == group_id,
        DockCell::Table(t) => {
            let ghost s0 = t.dock_cells@;
            let mut i: usize = 0;
            #[verifier::loop_isolation(false)]
            while i < t.dock_cells.len()
                invariant
                    0 <= i <= s0.len(),
                    forall|j: int| 0 <= j < i ==> !cell_has_group(#[trigger] s0[j], group_id),
                decreases s0.len() - i,
            {
                proof {
                    lemma_cell_count_seq_index(s0, i as int);
                }
                if cell_has_group_exec(&t.dock_cells[i], group_id) {
                    return true;
                }
                i = i + 1;
            }
            false
        },
    }
}

/// Whether the subtree holds a table with the identifier.
pub fn cell_has_table_exec(c: &DockCell, table_id: u32) -> (r: bool)
    ensures
        r == cell_has_table(*c, table_id),
    decreases cell_count(*c),
{
    match c {
        DockCell::Group(_) => false,
        DockCell::Table(t) => {
            if t.id == table_id {
                return true;
            }
            let ghost s0 = t.dock_cells@;
            let mut i: usize = 0;
            #[verifier::loop_isolation(false)]
            while i < t.dock_cells.len()
                invariant
                    0 <= i <= s0.len(),
                    forall|j: int| 0 <= j < i ==> !cell_has_table(#[trigger] s0[j], table_id),
                decreases s0.len() - i,
            {
                proof {
                    lemma_cell_count_seq_index(s0, i as int);
                }
                if cell_has_table_exec(&t.dock_cells[i], table_id) {
                    return true;
                }
                i = i + 1;
            }
            false
        },
    }
}

/// Appends the dock to the first group (depth-first) carrying the
/// identifier; an absent group leaves the cell untouched.
fn add_dock_in_cell(c: DockCell, group_id: u32, dock_id: u32) -> (r: (DockCell, bool))
    ensures
        r.1 == cell_has_group(c, group_id),
        r.1 ==> add_dock_rel(c, r.0, group_id, dock_id),
        !r.1 ==> r.0 == c,
    decreases cell_count(c),
{
    match c {
        DockCell::Group(g) => {
            if g.id == group_id {
                let mut g = g;
                g.add_dock(dock_id);
                (DockCell::Group(g), true)
            } else {
                (DockCell::Group(g), false)
            }
        },
        DockCell::Table(t) => {
            let ghost t0 = t;
            let ghost s0 = t.dock_cells@;
            let mut i: usize = 0;
            #[verifier::loop_isolation(false)]
            while i < t.dock_cells.len()
                invariant
                    t == t0,
                    0 <= i <= s0.len(),
                    forall|j: int| 0 <= j < i ==> !cell_has_group(#[trigger] s0[j], group_id),
                decreases s0.len() - i,
            {
                proof {
                    lemma_cell_count_seq_index(s0, i as int);
                }
                if cell_has_group_exec(&t.dock_cells[i], group_id) {
                    let mut t = t;
                    let child = t.dock_cells.remove(i);
                    let (child2, found) = add_dock_in_cell(child, group_id, dock_id);
                    t.dock_cells.insert(i, child2);
                    proof {
                        assert(found);
                        assert(t.dock_cells@ =~= s0.update(i as int, child2));
                        assert(add_dock_rel(
                            DockCell::Table(t0),
                            DockCell::Table(t),
                            group_id,
                            dock_id,
                        ));
                        assert(cell_has_group(DockCell::Table(t0), group_id));
                    }
                    return (DockCell::Table(t), true);
                }
                i = i + 1;
            }
            proof {
                assert(!cell_has_group(DockCell::Table(t0), group_id));
            }
            (DockCell::Table(t), false)
        },
    }
}

/// The registry's docks with the suppress-draw flag of every dock
/// carrying the identifier set to the given value, everything else kept.
pub open spec fn docks_with_flag(a: Seq<Dock>, b: Seq<Dock>, dock_id: u32, flag: bool) -> bool {
    &&& a.len() == b.len()
    &&& forall|k: int|
        0 <= k < a.len() ==> b[k] == if a[k].id == dock_id {
            Dock { dont_draw: flag, ..a[k] }
        } else {
            (#[trigger] a[k])
        }
}

/// Relates a registry before `remove_dock_from_group` to the registry
/// after it: nothing changes unless some group lists the dock; when one
/// does, the tree undergoes a removal pass and the pool keeps its
/// counter while gaining exactly the deleted nodes' identifiers, in
/// deletion order (the emptied group first, then each collapsed table
/// on the way up).
pub open spec fn removed_dock_rel(pre: Docks, post: Docks, dock_id: u32) -> bool {
    &&& (!cell_mentions_dock(DockCell::Table(pre.dock_table_root), dock_id) ==> post == pre)
    &&& (cell_mentions_dock(DockCell::Table(pre.dock_table_root), dock_id) ==> {
        &&& post == (Docks {
            index_pool: post.index_pool,
            dock_table_root: post.dock_table_root,
            ..pre
        })
        &&& exists|c: bool, ds: Seq<u32>|
            {
                &&& #[trigger] remove_rel(pre.dock_table_root, post.dock_table_root, dock_id, c, ds)
                &&& post.index_pool.recycled@ == recycle_all(
                    pre.index_pool.recycled@,
                    ds,
                    pre.index_pool.next_index,
                )
            }
        &&& post.index_pool.next_index == pre.index_pool.next_index
        &&& pool_extended(pre.index_pool, post.index_pool)
    })
}

/// Relates a registry before `add_dock_to_group` to the registry after
/// it: the first group carrying the identifier gains the dock at the end
/// of its tab order; with no such group nothing changes.
pub open spec fn added_dock_rel(pre: Docks, post: Docks, group_id: u32, dock_id: u32) -> bool {
    &&& (cell_has_group(DockCell::Table(pre.dock_table_root), group_id) ==> {
        &&& post == (Docks { dock_table_root: post.dock_table_root, ..pre })
        &&& add_dock_rel(
            DockCell::Table(pre.dock_table_root),
            DockCell::Table(post.dock_table_root),
            group_id,
            dock_id,
        )
    })
    &&& (!cell_has_group(DockCell::Table(pre.dock_table_root), group_id) ==> post == pre)
}

/// Relates a registry before `move_dock_to_position` to the registry
/// after it: the first group listing the dock resplices its tab order
/// around the pointer; an unknown or unlisted dock changes nothing.
pub open spec fn moved_dock_rel(pre: Docks, post: Docks, dock_id: u32, x: int) -> bool {
    &&& (spec_find_dock(pre.docks@, dock_id) is None ==> post == pre)
    &&& (!cell_mentions_dock(DockCell::Table(pre.dock_table_root), dock_id) ==> post == pre)
    &&& (spec_find_dock(pre.docks@, dock_id) matches Some(d) ==> cell_mentions_dock(
        DockCell::Table(pre.dock_table_root),
        dock_id,
    ) ==> {
        &&& post == (Docks { dock_table_root: post.dock_table_root, ..pre })
        &&& move_rel(
            DockCell::Table(pre.dock_table_root),
            DockCell::Table(post.dock_table_root),
            dock_id,
            x,
            d.tab_rect.width as int,
            pre.docks@,
        )
    })
}

/// A group-size bound widens monotonically.
pub proof fn lemma_counts_within_mono(c: DockCell, b1: int, b2: int)
    requires
        b1 <= b2,
        group_counts_within(c, b1),
    ensures
        group_counts_within(c, b2),
    decreases c,
{
    match c {
        DockCell::Group(_) => {},
        DockCell::Table(t) => {
            assert forall|i: int|
                0 <= i < t.dock_cells@.len() implies group_counts_within(
                #[trigger] t.dock_cells@[i],
                b2,
            ) by {
                lemma_counts_within_mono(t.dock_cells@[i], b1, b2);
            }
        },
    }
}

/// Adding a dock to one group grows group sizes by at most one.
pub proof fn lemma_add_rel_counts(a: DockCell, b: DockCell, gid: u32, did: u32, bound: int)
    requires
        add_dock_rel(a, b, gid, did),
        group_counts_within(a, bound),
    ensures
        group_counts_within(b, bound + 1),
    decreases a,
{
    match a {
        DockCell::Group(_) => {},
        DockCell::Table(ta) => {
            let tb = b->Table_0;
            let i = choose|i: int|
                {
                    &&& 0 <= i < ta.dock_cells@.len()
                    &&& (forall|j: int|
                        0 <= j < i ==> !cell_has_group(#[trigger] ta.dock_cells@[j], gid))
                    &&& add_dock_rel(#[trigger] ta.dock_cells@[i], tb.dock_cells@[i], gid, did)
                    &&& tb.dock_cells@ == ta.dock_cells@.update(i, tb.dock_cells@[i])
                };
            lemma_add_rel_counts(ta.dock_cells@[i], tb.dock_cells@[i], gid, did, bound);
            assert forall|j: int|
                0 <= j < tb.dock_cells@.len() implies group_counts_within(
                #[trigger] tb.dock_cells@[j],
                bound + 1,
            ) by {
                if j != i {
                    lemma_counts_within_mono(ta.dock_cells@[j], bound, bound + 1);
                }
            }
        },
    }
}

/// A removal pass never grows any group.
pub proof fn lemma_remove_rel_counts(
    a: DockTable,
    b: DockTable,
    did: u32,
    c: bool,
    ds: Seq<u32>,
    bound: int,
)
    requires
        remove_rel(a, b, did, c, ds),
        group_counts_within(DockCell::Table(a), bound),
    ensures
        group_counts_within(DockCell::Table(b), bound),
    decreases a,
{
    assert(DockCell::Table(a) matches DockCell::Table(ax) && ax == a);
    assert(DockCell::Table(b) matches DockCell::Table(bx) && bx == b);
    let i = choose|i: int| #[trigger] remove_rel_at(a, b, did, c, ds, i);
    assert(remove_rel_at(a, b, did, c, ds, i));
    assert(group_counts_within(a.dock_cells@[i], bound));
    match a.dock_cells@[i] {
        DockCell::Group(ga) => {
            assert forall|j: int|
                0 <= j < b.dock_cells@.len() implies group_counts_within(
                #[trigger] b.dock_cells@[j],
                bound,
            ) by {}
        },
        DockCell::Table(sub) => {
            let (sub2, csub, ds2, i2) = choose|sub2: DockTable, csub: bool, ds2: Seq<u32>, i2: int|
                {
                    &&& #[trigger] removal_witness(sub2, csub, ds2, i2)
                    &&& remove_rel_at(sub, sub2, did, csub, ds2, i2)
                    &&& sub2 == (DockTable { dock_cells: sub2.dock_cells, ..sub })
                    &&& if !csub || sub2.dock_cells@.len() >= 2 {
                        &&& !c
                        &&& ds == ds2
                        &&& b.dock_cells@.len() == a.dock_cells@.len()
                        &&& b.dock_cells@[i] == DockCell::Table(sub2)
                        &&& b.dock_cells@ == a.dock_cells@.update(i, b.dock_cells@[i])
                    } else if sub2.dock_cells@.len() == 1 {
                        &&& c
                        &&& ds =~= ds2.push(sub2.id)
                        &&& b.dock_cells@ == a.dock_cells@.update(i, sub2.dock_cells@[0])
                    } else {
                        &&& c
                        &&& ds =~= ds2.push(sub2.id)
                        &&& b.dock_cells@ == a.dock_cells@.remove(i)
                    }
                };
            assert(remove_rel(sub, sub2, did, csub, ds2));
            lemma_remove_rel_counts(sub, sub2, did, csub, ds2, bound);
            assert forall|j: int|
                0 <= j < b.dock_cells@.len() implies group_counts_within(
                #[trigger] b.dock_cells@[j],
                bound,
            ) by {
                if csub && sub2.dock_cells@.len() == 1 && j == i {
                    assert(DockCell::Table(sub2) matches DockCell::Table(sx) && sx == sub2);
                    assert(group_counts_within(DockCell::Table(sub2), bound));
                    assert(group_counts_within(sub2.dock_cells@[0], bound));
                }
            }
        },
    }
}

/// The dock registry; see the module description. Created once per
/// dockable area, with the root table as the sole entry point for
/// layout and hit-testing.
pub struct Docks {
    pub rect: Rectangle,
    pub index_pool: IndexPool,
    pub dock_table_root: DockTable,
    pub docks: Vec<Dock>,
}

/// Relates a registry before `create_group_from_cell_position` to the
/// registry after it and the fresh group's identifier: for a split the
/// target group is first wrapped in a new table under one fresh
/// identifier and a fresh empty group lands beside it; for a sibling
/// slot the fresh empty group lands directly in the named table.
pub open spec fn created_group_rel(
    pre: Docks,
    post: Docks,
    cell_position: NewDockCellPosition,
    r: u32,
) -> bool {
    &&& post == (Docks {
        index_pool: post.index_pool,
        dock_table_root: post.dock_table_root,
        ..pre
    })
    &&& match cell_position {
        NewDockCellPosition::NeedNewTable { group_id, index } => exists|
            mid: DockTable,
            ntid: u32,
            p1: IndexPool,
            gcell: DockCell,
        |
            {
                &&& #[trigger] replace_rel(
                    DockCell::Table(pre.dock_table_root),
                    DockCell::Table(mid),
                    group_id,
                    ntid,
                )
                &&& #[trigger] pool_alloc_rel(pre.index_pool, p1, ntid)
                &&& pool_alloc_rel(p1, post.index_pool, r)
                &&& gcell matches DockCell::Group(g) && g.is_fresh(r)
                &&& #[trigger] insert_rel(
                    DockCell::Table(mid),
                    DockCell::Table(post.dock_table_root),
                    ntid,
                    gcell,
                    index,
                )
            },
        NewDockCellPosition::TableExists { table_id, index } => exists|gcell: DockCell|
            {
                &&& pool_alloc_rel(pre.index_pool, post.index_pool, r)
                &&& gcell matches DockCell::Group(g) && g.is_fresh(r)
                &&& #[trigger] insert_rel(
                    DockCell::Table(pre.dock_table_root),
                    DockCell::Table(post.dock_table_root),
                    table_id,
                    gcell,
                    index,
                )
            },
    }
}

impl Docks {
    /// A fresh registry: its root table takes the first identifier and
    /// lays its children out horizontally.
    pub fn new() -> (r: Docks)
        ensures
            r.rect == (Rectangle { x: 0i32, y: 0i32, width: 0i32, height: 0i32 }),
            r.index_pool.recycled@ == Seq::<u32>::empty(),
            r.index_pool.next_index == 1,
            r.dock_table_root.id == 0,
            !r.dock_table_root.vertical_align,
            r.dock_table_root.dock_cells@ == Seq::<DockCell>::empty(),
            r.docks@ == Seq::<Dock>::empty(),
    {
        let mut index_pool = IndexPool::new();
        let root_index = index_pool.get_index();
        Docks {
            rect: Rectangle::new(),
            index_pool,
            dock_table_root: DockTable::new(root_index, false),
            docks: Vec::new(),
        }
    }

    /// A new, empty, detached table under a fresh identifier; the caller
    /// owns it until it is attached to the tree.
    pub fn create_dock_table(&mut self, vertical_align: bool) -> (t: DockTable)
        requires
            pool_can_alloc(old(self).index_pool),
        ensures
            *final(self) == (Docks { index_pool: final(self).index_pool, ..*old(self) }),
            pool_alloc_rel(old(self).index_pool, final(self).index_pool, t.id),
            t.vertical_align == vertical_align,
            t.rect == (Rectangle { x: 0i32, y: 0i32, width: 0i32, height: 0i32 }),
            t.dock_cells@ == Seq::<DockCell>::empty(),
    {
        let id = self.index_pool.get_index();
        DockTable::new(id, vertical_align)
    }

    /// A new, empty, detached group under a fresh identifier; the caller
    /// owns it until it is attached to the tree.
    pub fn create_dock_group(&mut self) -> (g: DockGroup)
        requires
            pool_can_alloc(old(self).index_pool),
        ensures
            *final(self) == (Docks { index_pool: final(self).index_pool, ..*old(self) }),
            pool_alloc_rel(old(self).index_pool, final(self).index_pool, g.id),
            g.tabs_rect == (Rectangle { x: 0i32, y: 0i32, width: 0i32, height: 0i32 }),
            g.docks_rect == (Rectangle { x: 0i32, y: 0i32, width: 0i32, height: 0i32 }),
            g.dock_ids@ == Seq::<u32>::empty(),
    {
        let id = self.index_pool.get_index();
        DockGroup::new(id)
    }

    /// A new dock under a fresh identifier, registered with the registry
    /// and belonging to no group yet. The label's width must be measured
    /// by the caller's text machinery; the tab is that wide plus the
    /// fixed chrome.
    pub fn create_dock(&mut self, label: String, label_width: i32) -> (id: u32)
        requires
            pool_can_alloc(old(self).index_pool),
            0 <= label_width <= MAX_COORD,
        ensures
            *final(self) == (Docks {
                index_pool: final(self).index_pool,
                docks: final(self).docks,
                ..*old(self)
            }),
            pool_alloc_rel(old(self).index_pool, final(self).index_pool, id),
            final(self).docks@ == old(self).docks@.push(Dock::new_spec(id, label, label_width)),
    {
        let id = self.index_pool.get_index();
        let d = Dock::new(id, label, label_width);
        self.docks.push(d);
        id
    }

    /// Appends the dock to the first group (depth-first) in the tree
    /// carrying the identifier; with no such group the registry is left
    /// unchanged.
    pub fn add_dock_to_group(&mut self, group_id: u32, dock_id: u32) -> (found: bool)
        ensures
            found == cell_has_group(DockCell::Table(old(self).dock_table_root), group_id),
            added_dock_rel(*old(self), *final(self), group_id, dock_id),
    {
        let mut tmp = DockTable::new(0, false);
        core::mem::swap(&mut self.dock_table_root, &mut tmp);
        let (c, found) = add_dock_in_cell(DockCell::Table(tmp), group_id, dock_id);
        match c {
            DockCell::Table(t) => {
                self.dock_table_root = t;
            },
            DockCell::Group(_) => {
                proof {
                    assert(false);
                }
            },
        }
        found
    }

    /// Finds the table among whose direct children the group stands, removes
    /// the group, wraps it as the sole child of a new table whose
    /// orientation is the opposite of that parent's, and inserts the new
    /// table at the vacated index. Yields the new table's identifier, or
    /// nothing when no table in the tree has such a child.
    pub fn replace_group_by_table(&mut self, group_id: u32) -> (r: Option<u32>)
        requires
            pool_can_alloc(old(self).index_pool),
        ensures
            r is Some <==> cell_has_parent_of_group(
                DockCell::Table(old(self).dock_table_root),
                group_id,
            ),
            r matches Some(ntid) ==> {
                &&& *final(self) == (Docks {
                    index_pool: final(self).index_pool,
                    dock_table_root: final(self).dock_table_root,
                    ..*old(self)
                })
                &&& replace_rel(
                    DockCell::Table(old(self).dock_table_root),
                    DockCell::Table(final(self).dock_table_root),
                    group_id,
                    ntid,
                )
                &&& pool_alloc_rel(old(self).index_pool, final(self).index_pool, ntid)
            },
            r is None ==> *final(self) == *old(self),
    {
        let mut tmp = DockTable::new(0, false);
        core::mem::swap(&mut self.dock_table_root, &mut tmp);
        let (t, r) = replace_group_in_table(tmp, group_id, &mut self.index_pool);
        self.dock_table_root = t;
        r
    }

    /// Realizes a placement decision: for `NeedNewTable` the target group
    /// is first wrapped in a new table and a fresh empty group is
    /// inserted beside it (before it for index 0, after it for 1); for
    /// `TableExists` a fresh empty group is inserted directly into the
    /// named table. Yields the new group's identifier; a placement that
    /// names a node the tree no longer holds (a drag session can outlive
    /// it) is benign and yields nothing, with the registry unchanged.
    pub fn create_group_from_cell_position(&mut self, cell_position: NewDockCellPosition) -> (r:
        Option<u32>)
        requires
            match cell_position {
                NewDockCellPosition::NeedNewTable { .. } => pool_can_alloc2(old(self).index_pool),
                NewDockCellPosition::TableExists { .. } => pool_can_alloc(old(self).index_pool),
            },
        ensures
            r is Some <==> match cell_position {
                NewDockCellPosition::NeedNewTable { group_id, .. } => cell_has_parent_of_group(
                    DockCell::Table(old(self).dock_table_root),
                    group_id,
                ),
                NewDockCellPosition::TableExists { table_id, .. } => cell_has_table(
                    DockCell::Table(old(self).dock_table_root),
                    table_id,
                ),
            },
            r matches Some(gid) ==> created_group_rel(*old(self), *final(self), cell_position, gid),
            r is None ==> *final(self) == *old(self),
    {
        match cell_position {
            NewDockCellPosition::NeedNewTable { group_id, index } => {
                let new_table_id = match self.replace_group_by_table(group_id) {
                    Some(id) => id,
                    None => {
                        return None;
                    },
                };
                let ghost mid = self.dock_table_root;
                let ghost p1 = self.index_pool;
                let g = self.create_dock_group();
                let result = g.id;
                proof {
                    lemma_replace_gives_table(
                        DockCell::Table(old(self).dock_table_root),
                        DockCell::Table(mid),
                        group_id,
                        new_table_id,
                    );
                }
                let mut tmp = DockTable::new(0, false);
                core::mem::swap(&mut self.dock_table_root, &mut tmp);
                let (t, found) = insert_cell_in_table(
                    tmp,
                    new_table_id,
                    DockCell::Group(g),
                    index,
                );
                proof {
                    assert(found);
                }
                self.dock_table_root = t;
                Some(result)
            },
            NewDockCellPosition::TableExists { table_id, index } => {
                if !self.root_has_table(table_id) {
                    return None;
                }
                let g = self.create_dock_group();
                let result = g.id;
                let mut tmp = DockTable::new(0, false);
                core::mem::swap(&mut self.dock_table_root, &mut tmp);
                let (t, found) = insert_cell_in_table(tmp, table_id, DockCell::Group(g), index);
                proof {
                    assert(found);
                }
                self.dock_table_root = t;
                Some(result)
            },
        }
    }

    /// Removes the dock from the group holding it. A group left empty is
    /// deleted from its parent table, and the tree collapses upward: a
    /// table left with no children is deleted, one left with a single
    /// child is replaced by that child, level by level, stopping at the
    /// root or at a table keeping two or more children. Deleted nodes'
    /// identifiers go back to the pool. A dock no group lists leaves the
    /// registry unchanged.
    pub fn remove_dock_from_group(&mut self, dock_id: u32)
        ensures
            removed_dock_rel(*old(self), *final(self), dock_id),
    {
        let mut tmp = DockTable::new(0, false);
        core::mem::swap(&mut self.dock_table_root, &mut tmp);
        let (t, _found, _collapsing, _deleted) = remove_dock_in_table(
            tmp,
            dock_id,
            &mut self.index_pool,
        );
        self.dock_table_root = t;
    }

    /// Reorders the dragged dock's tab within its group, splicing it to
    /// the slot whose projected right edge first passes the pointer's x
    /// coordinate; with no such slot, to the last. A dock the registry
    /// does not know, or one no group lists, leaves the registry
    /// unchanged.
    pub fn move_dock_to_position(&mut self, dock_id: u32, x: i32)
        requires
            group_counts_ok(DockCell::Table(old(self).dock_table_root)),
        ensures
            moved_dock_rel(*old(self), *final(self), dock_id, x as int),
    {
        let drag_width = match find_dock_index(&self.docks, dock_id) {
            Some(k) => self.docks[k].tab_rect.width,
            None => {
                return ;
            },
        };
        let mut tmp = DockTable::new(0, false);
        core::mem::swap(&mut self.dock_table_root, &mut tmp);
        let (c, _found) = move_dock_in_cell(
            DockCell::Table(tmp),
            dock_id,
            x,
            drag_width,
            &self.docks,
        );
        match c {
            DockCell::Table(t) => {
                self.dock_table_root = t;
            },
            DockCell::Group(_) => {
                proof {
                    assert(false);
                }
            },
        }
    }

    /// Whether the tree holds a table with the identifier.
    pub fn root_has_table(&self, table_id: u32) -> (r: bool)
        ensures
            r == cell_has_table(DockCell::Table(self.dock_table_root), table_id),
    {
        if self.dock_table_root.id == table_id {
            return true;
        }
        let t = &self.dock_table_root;
        let ghost s0 = t.dock_cells@;
        let mut i: usize = 0;
        #[verifier::loop_isolation(false)]
        while i < t.dock_cells.len()
            invariant
                0 <= i <= s0.len(),
                forall|j: int| 0 <= j < i ==> !cell_has_table(#[trigger] s0[j], table_id),
            decreases s0.len() - i,
        {
            if cell_has_table_exec(&t.dock_cells[i], table_id) {
                proof {
                    assert(DockCell::Table(self.dock_table_root) matches DockCell::Table(tx)
                        && tx == self.dock_table_root);
                }
                return true;
            }
            i = i + 1;
        }
        proof {
            assert(DockCell::Table(self.dock_table_root) matches DockCell::Table(tx)
                && tx == self.dock_table_root);
        }
        false
    }

    /// Whether the tree holds a group with the identifier.
    pub fn root_has_group(&self, group_id: u32) -> (r: bool)
        ensures
            r == cell_has_group(DockCell::Table(self.dock_table_root), group_id),
    {
        let t = &self.dock_table_root;
        let ghost s0 = t.dock_cells@;
        let mut i: usize = 0;
        #[verifier::loop_isolation(false)]
        while i < t.dock_cells.len()
            invariant
                0 <= i <= s0.len(),
                forall|j: int| 0 <= j < i ==> !cell_has_group(#[trigger] s0[j], group_id),
            decreases s0.len() - i,
        {
            if cell_has_group_exec(&t.dock_cells[i], group_id) {
                proof {
                    assert(DockCell::Table(self.dock_table_root) matches DockCell::Table(tx)
                        && tx == self.dock_table_root);
                }
                return true;
            }
            i = i + 1;
        }
        proof {
            assert(DockCell::Table(self.dock_table_root) matches DockCell::Table(tx)
                && tx == self.dock_table_root);
        }
        false
    }

    /// Returns a table's identifier to the pool, but only when the tree
    /// no longer holds the table; a live identifier is left alone.
    pub fn delete_table(&mut self, id: u32)
        ensures
            cell_has_table(DockCell::Table(old(self).dock_table_root), id) ==> *final(self)
                == *old(self),
            !cell_has_table(DockCell::Table(old(self).dock_table_root), id) ==> {
                &&& *final(self) == (Docks { index_pool: final(self).index_pool, ..*old(self) })
                &&& final(self).index_pool.next_index == old(self).index_pool.next_index
                &&& id < old(self).index_pool.next_index ==> final(self).index_pool.recycled@
                    == old(self).index_pool.recycled@.push(id)
                &&& id >= old(self).index_pool.next_index ==> final(self).index_pool.recycled@
                    == old(self).index_pool.recycled@
            },
    {
        if !self.root_has_table(id) {
            self.index_pool.recycle_index(id);
        }
    }

    /// Returns a group's identifier to the pool, but only when the tree
    /// no longer holds the group; a live identifier is left alone.
    pub fn delete_group(&mut self, id: u32)
        ensures
            cell_has_group(DockCell::Table(old(self).dock_table_root), id) ==> *final(self)
                == *old(self),
            !cell_has_group(DockCell::Table(old(self).dock_table_root), id) ==> {
                &&& *final(self) == (Docks { index_pool: final(self).index_pool, ..*old(self) })
                &&& final(self).index_pool.next_index == old(self).index_pool.next_index
                &&& id < old(self).index_pool.next_index ==> final(self).index_pool.recycled@
                    == old(self).index_pool.recycled@.push(id)
                &&& id >= old(self).index_pool.next_index ==> final(self).index_pool.recycled@
                    == old(self).index_pool.recycled@
            },
    {
        if !self.root_has_group(id) {
            self.index_pool.recycle_index(id);
        }
    }

    /// Deletes a dock: detaches it from its group first (collapsing the
    /// tree as `remove_dock_from_group` does), then removes it from the
    /// registry and hands its identifier back to the pool iff it was
    /// registered. An unknown identifier leaves the registry's docks
    /// unchanged.
    pub fn delete_dock(&mut self, id: u32)
        ensures
            final(self).rect == old(self).rect,
            final(self).index_pool.next_index == old(self).index_pool.next_index,
            pool_extended(old(self).index_pool, final(self).index_pool),
            exists|mid: Docks|
                {
                    &&& #[trigger] removed_dock_rel(*old(self), mid, id)
                    &&& final(self).dock_table_root == mid.dock_table_root
                    &&& (forall|k: int| 0 <= k < mid.docks@.len() ==> mid.docks@[k].id != id)
                        ==> {
                        &&& final(self).docks@ == mid.docks@
                        &&& final(self).index_pool == mid.index_pool
                    }
                    &&& forall|k: int|
                        {
                            &&& 0 <= k < mid.docks@.len()
                            &&& mid.docks@[k].id == id
                            &&& forall|j: int| 0 <= j < k ==> mid.docks@[j].id != id
                        } ==> {
                            &&& final(self).docks@ == mid.docks@.remove(k)
                            &&& final(self).index_pool.next_index == mid.index_pool.next_index
                            &&& id < mid.index_pool.next_index ==> final(self).index_pool.recycled@
                                == mid.index_pool.recycled@.push(id)
                            &&& id >= mid.index_pool.next_index
                                ==> final(self).index_pool.recycled@ == mid.index_pool.recycled@
                        }
                },
    {
        let ghost pool0 = self.index_pool;
        self.remove_dock_from_group(id);
        proof {
            if self.index_pool == pool0 {
                assert(self.index_pool.recycled@.subrange(0, pool0.recycled@.len() as int)
                    =~= pool0.recycled@);
            }
            assert(pool_extended(pool0, self.index_pool));
        }
        let ghost mid = *self;
        let ghost pool1 = self.index_pool;
        let mut k: usize = 0;
        #[verifier::loop_isolation(false)]
        while k < self.docks.len()
            invariant
                0 <= k <= self.docks@.len(),
                *self == mid,
                forall|j: int| 0 <= j < k ==> mid.docks@[j].id != id,
            decreases self.docks@.len() - k,
        {
            if self.docks[k].id == id {
                self.docks.remove(k);
                self.index_pool.recycle_index(id);
                proof {
                    assert(self.index_pool.recycled@.subrange(0, pool1.recycled@.len() as int)
                        =~= pool1.recycled@);
                    lemma_pool_extended_trans(pool0, pool1, self.index_pool);
                }
                return ;
            }
            k = k + 1;
        }
    }

    /// Sets the suppress-draw flag of every registered dock carrying the
    /// identifier (at most one, when identifiers are unique).
    pub fn set_dock_dont_draw(&mut self, dock_id: u32, dont_draw: bool)
        ensures
            *final(self) == (Docks { docks: final(self).docks, ..*old(self) }),
            docks_with_flag(old(self).docks@, final(self).docks@, dock_id, dont_draw),
    {
        let ghost docks0 = self.docks@;
        let mut k: usize = 0;
        #[verifier::loop_isolation(false)]
        while k < self.docks.len()
            invariant
                0 <= k <= docks0.len(),
                self.docks@.len() == docks0.len(),
                *self == (Docks { docks: self.docks, ..*old(self) }),
                forall|j: int|
                    0 <= j < docks0.len() ==> self.docks@[j] == if j < k && docks0[j].id == dock_id {
                        Dock { dont_draw, ..docks0[j] }
                    } else {
                        (#[trigger] docks0[j])
                    },
            decreases docks0.len() - k,
        {
            let ghost pre = self.docks@;
            if self.docks[k].id == dock_id {
                let mut d = self.docks.remove(k);
                d.set_dont_draw(dont_draw);
                self.docks.insert(k, d);
                proof {
                    assert(self.docks@ =~= pre.update(k as int, self.docks@[k as int]));
                }
            }
            k = k + 1;
        }
    }

    /// The tab-strip rectangle of the group holding the dock, or nothing
    /// when no group in the tree lists it.
    pub fn get_dock_tabs_rect(&self, dock_id: u32) -> (r: Option<Rectangle>)
        ensures
            r == spec_tabs_rect_of_dock(DockCell::Table(self.dock_table_root), dock_id),
    {
        tabs_rect_of_dock_in_cell_table(&self.dock_table_root, dock_id)
    }

    /// The group whose tab strip lies under the point, if the point lies
    /// in the registry's own rectangle at all.
    pub fn get_dock_group_at_position(&self, x: i32, y: i32) -> (r: Option<u32>)
        ensures
            r == if self.rect.spec_contains(x as int, y as int) {
                spec_group_at_cell(DockCell::Table(self.dock_table_root), x as int, y as int)
            } else {
                None::<u32>
            },
    {
        if self.rect.contains(x, y) {
            get_dock_group_at_position_table(&self.dock_table_root, x, y)
        } else {
            None
        }
    }

    /// The dock whose tab lies under the point, if any.
    pub fn get_dock_at_position(&self, x: i32, y: i32) -> (r: Option<u32>)
        ensures
            r == spec_dock_at_cell(
                DockCell::Table(self.dock_table_root),
                self.docks@,
                x as int,
                y as int,
            ),
    {
        get_dock_at_position_table(&self.dock_table_root, x, y, &self.docks)
    }

    /// The placement decision for the point, if the point lies in the
    /// registry's own rectangle at all.
    pub fn get_new_dock_cell_position(&self, x: i32, y: i32) -> (r: Option<NewDockCellPosition>)
        ensures
            r == if self.rect.spec_contains(x as int, y as int) {
                spec_position_query_cell(
                    DockCell::Table(self.dock_table_root),
                    x as int,
                    y as int,
                    false,
                    0,
                    0,
                )
            } else {
                None::<NewDockCellPosition>
            },
    {
        if self.rect.contains(x, y) {
            get_new_dock_cell_position_table(&self.dock_table_root, x, y)
        } else {
            None
        }
    }

    /// Builds a small demonstration layout under the root: a vertical
    /// table of two single-dock groups, a single group, and a vertical
    /// table of two groups of which the second holds two docks. Label
    /// widths stand in for measured text extents.
    pub fn add_test_docks(&mut self)
        requires
            old(self).index_pool.recycled@.len() == 0,
            old(self).index_pool.next_index <= u32::MAX - 13,
        ensures
            final(self).rect == old(self).rect,
            final(self).index_pool.recycled@ == old(self).index_pool.recycled@,
            final(self).index_pool.next_index == old(self).index_pool.next_index + 13,
            final(self).docks@.len() == old(self).docks@.len() + 6,
            forall|k: int|
                0 <= k < old(self).docks@.len() ==> final(self).docks@[k] == old(self).docks@[k],
            forall|k: int|
                0 <= k < 6 ==> (#[trigger] final(self).docks@[old(self).docks@.len() + k]).id
                    == old(self).index_pool.next_index + k,
            final(self).dock_table_root == (DockTable {
                dock_cells: final(self).dock_table_root.dock_cells,
                ..old(self).dock_table_root
            }),
            final(self).dock_table_root.dock_cells@.len()
                == old(self).dock_table_root.dock_cells@.len() + 3,
            forall|k: int|
                0 <= k < old(self).dock_table_root.dock_cells@.len()
                    ==> final(self).dock_table_root.dock_cells@[k]
                    == old(self).dock_table_root.dock_cells@[k],
            ({
                let n = old(self).index_pool.next_index;
                let len0 = old(self).dock_table_root.dock_cells@.len() as int;
                let cells = final(self).dock_table_root.dock_cells@;
                &&& cells[len0] matches DockCell::Table(left)
                &&& left.id == n + 6
                &&& left.vertical_align
                &&& left.dock_cells@.len() == 2
                &&& left.dock_cells@[0] matches DockCell::Group(g1) && g1.id == n + 7
                    && g1.dock_ids@ =~= seq![(n + 0) as u32]
                &&& left.dock_cells@[1] matches DockCell::Group(g2) && g2.id == n + 8
                    && g2.dock_ids@ =~= seq![(n + 1) as u32]
                &&& cells[len0 + 1] matches DockCell::Group(mid) && mid.id == n + 9
                    && mid.dock_ids@ =~= seq![(n + 2) as u32]
                &&& cells[len0 + 2] matches DockCell::Table(right)
                &&& right.id == n + 10
                &&& right.vertical_align
                &&& right.dock_cells@.len() == 2
                &&& right.dock_cells@[0] matches DockCell::Group(g3) && g3.id == n + 11
                    && g3.dock_ids@ =~= seq![(n + 3) as u32]
                &&& right.dock_cells@[1] matches DockCell::Group(g4) && g4.id == n + 12
                    && g4.dock_ids@ =~= seq![(n + 4) as u32, (n + 5) as u32]
            }),
    {
        let dock1 = self.create_dock("Tools".to_string(), 40);
        let dock2 = self.create_dock("Tools2".to_string(), 48);
        let dock3 = self.create_dock("View".to_string(), 32);
        let dock4 = self.create_dock("Properties".to_string(), 80);
        let dock5 = self.create_dock("Dock5".to_string(), 40);
        let dock6 = self.create_dock("Dock6".to_string(), 40);

        let mut d_table_left = self.create_dock_table(true);
        let mut d1_left = self.create_dock_group();
        d1_left.add_dock(dock1);
        let mut d2_left = self.create_dock_group();
        d2_left.add_dock(dock2);
        d_table_left.add_dock_cell(DockCell::Group(d1_left));
        d_table_left.add_dock_cell(DockCell::Group(d2_left));

        let mut d_middle = self.create_dock_group();
        d_middle.add_dock(dock3);

        let mut d_table_right = self.create_dock_table(true);
        let mut d1_right = self.create_dock_group();
        d1_right.add_dock(dock4);
        let mut d2_right = self.create_dock_group();
        d2_right.add_dock(dock5);
        d2_right.add_dock(dock6);
        d_table_right.add_dock_cell(DockCell::Group(d1_right));
        d_table_right.add_dock_cell(DockCell::Group(d2_right));

        self.dock_table_root.add_dock_cell(DockCell::Table(d_table_left));
        self.dock_table_root.add_dock_cell(DockCell::Group(d_middle));
        self.dock_table_root.add_dock_cell(DockCell::Table(d_table_right));
    }

    /// Whether the tree holds at most `bound` nodes — the tree-size
    /// precondition of the layout passes, checked executably.
    pub fn tree_count_at_most(&self, bound: usize) -> (r: bool)
        ensures
            r == (cell_count(DockCell::Table(self.dock_table_root)) <= bound as nat),
    {
        crate::layout::table_count_upto(&self.dock_table_root, bound).is_some()
    }

    /// Whether every group of the tree holds at most `bound` dock
    /// references — the session's headroom precondition, checked
    /// executably.
    pub fn group_counts_at_most(&self, bound: usize) -> (r: bool)
        ensures
            r == group_counts_within(DockCell::Table(self.dock_table_root), bound as int),
    {
        let t = &self.dock_table_root;
        let ghost s0 = t.dock_cells@;
        let mut i: usize = 0;
        #[verifier::loop_isolation(false)]
        while i < t.dock_cells.len()
            invariant
                0 <= i <= s0.len(),
                forall|j: int| 0 <= j < i ==> group_counts_within(#[trigger] s0[j], bound as int),
            decreases s0.len() - i,
        {
            if !crate::layout::group_counts_within_exec(&t.dock_cells[i], bound) {
                proof {
                    assert(DockCell::Table(self.dock_table_root) matches DockCell::Table(tx)
                        && tx == self.dock_table_root);
                }
                return false;
            }
            i = i + 1;
        }
        proof {
            assert(DockCell::Table(self.dock_table_root) matches DockCell::Table(tx)
                && tx == self.dock_table_root);
        }
        true
    }

    /// Whether the stored geometry satisfies what `set_position`
    /// requires beyond coordinate bounds: every extent within
    /// `DIM_BOUND`, every group within the dock-count budget, and every
    /// registered tab width nonnegative and bounded.
    pub fn layout_geometry_ok(&self) -> (r: bool)
        ensures
            r == {
                &&& cell_dims_bounded(DockCell::Table(self.dock_table_root))
                &&& group_counts_ok(DockCell::Table(self.dock_table_root))
                &&& docks_tabs_ok(self.docks@)
            },
    {
        let t = &self.dock_table_root;
        if !(-crate::tree::DIM_BOUND <= t.rect.width && t.rect.width <= crate::tree::DIM_BOUND
            && -crate::tree::DIM_BOUND <= t.rect.height
            && t.rect.height <= crate::tree::DIM_BOUND) {
            proof {
                assert(DockCell::Table(self.dock_table_root) matches DockCell::Table(tx)
                    && tx == self.dock_table_root);
            }
            return false;
        }
        let ghost s0 = t.dock_cells@;
        let mut dims_ok = true;
        let mut counts_ok = true;
        let mut i: usize = 0;
        #[verifier::loop_isolation(false)]
        while i < t.dock_cells.len()
            invariant
                0 <= i <= s0.len(),
                dims_ok == forall|j: int| 0 <= j < i ==> cell_dims_bounded(#[trigger] s0[j]),
                counts_ok == forall|j: int|
                    0 <= j < i ==> group_counts_within(#[trigger] s0[j], MAX_CELLS as int),
            decreases s0.len() - i,
        {
            let child = &t.dock_cells[i];
            let d = crate::layout::cell_dims_bounded_exec(child);
            let c = crate::layout::group_counts_within_exec(child, MAX_CELLS);
            dims_ok = dims_ok && d;
            counts_ok = counts_ok && c;
            i = i + 1;
        }
        let tabs = crate::layout::docks_tabs_ok_exec(&self.docks);
        proof {
            assert(DockCell::Table(self.dock_table_root) matches DockCell::Table(tx)
                && tx == self.dock_table_root);
        }
        dims_ok && counts_ok && tabs
    }

    /// Stores the position and lays the whole tree out below it.
    pub fn set_position(&mut self, x: i32, y: i32)
        requires
            pos_input_ok(x as int, y as int, cell_count(DockCell::Table(old(self).dock_table_root))),
            cell_dims_bounded(DockCell::Table(old(self).dock_table_root)),
            group_counts_ok(DockCell::Table(old(self).dock_table_root)),
            docks_tabs_ok(old(self).docks@),
        ensures
            final(self).rect == (Rectangle { x, y, ..old(self).rect }),
            final(self).index_pool == old(self).index_pool,
            pos_applied(
                DockCell::Table(old(self).dock_table_root),
                DockCell::Table(final(self).dock_table_root),
                x as int,
                y as int,
            ),
            docks_repositioned(old(self).docks@, final(self).docks@),
            forall|k: int|
                0 <= k < old(self).docks@.len() && !cell_mentions_dock(
                    DockCell::Table(old(self).dock_table_root),
                    (#[trigger] old(self).docks@[k]).id,
                ) ==> final(self).docks@[k] == old(self).docks@[k],
            forall|k: int|
                crate::layout::tab_unique(
                    DockCell::Table(old(self).dock_table_root),
                    old(self).docks@,
                    k,
                ) ==> #[trigger] crate::layout::tab_placed(
                    DockCell::Table(final(self).dock_table_root),
                    old(self).docks@,
                    final(self).docks@,
                    k,
                ),
    {
        self.rect.x = x;
        self.rect.y = y;
        let mut tmp = DockTable::new(0, false);
        core::mem::swap(&mut self.dock_table_root, &mut tmp);
        let t = set_position_table(tmp, x, y, &mut self.docks);
        self.dock_table_root = t;
    }

    /// Stores the size and divides it among the whole tree below.
    pub fn set_dimensions(&mut self, width: i32, height: i32)
        requires
            dims_input_ok(
                width as int,
                height as int,
                cell_count(DockCell::Table(old(self).dock_table_root)),
            ),
        ensures
            final(self).rect == (Rectangle { width, height, ..old(self).rect }),
            final(self).index_pool == old(self).index_pool,
            final(self).docks == old(self).docks,
            dims_applied(
                DockCell::Table(old(self).dock_table_root),
                DockCell::Table(final(self).dock_table_root),
                width as int,
                height as int,
            ),
            cell_dims_bounded(DockCell::Table(final(self).dock_table_root)),
    {
        self.rect.width = width;
        self.rect.height = height;
        let mut tmp = DockTable::new(0, false);
        core::mem::swap(&mut self.dock_table_root, &mut tmp);
        let t = set_dimensions_table(tmp, width, height);
        self.dock_table_root = t;
    }
}

/// The tab-strip rectangle of the first group (depth-first) in the
/// table's subtree that lists the dock, if any.
fn tabs_rect_of_dock_in_cell_table(t: &DockTable, dock_id: u32) -> (r: Option<Rectangle>)
    ensures
        r == spec_tabs_rect_of_dock(DockCell::Table(*t), dock_id),
    decreases cell_count_seq(t.dock_cells@), 1nat,
{
    let ghost s0 = t.dock_cells@;
    proof {
        assert(s0.subrange(0, s0.len() as int) =~= s0);
    }
    let mut i: usize = 0;
    #[verifier::loop_isolation(false)]
    while i < t.dock_cells.len()
        invariant
            0 <= i <= s0.len(),
            spec_tabs_rect_of_dock_cells(s0, dock_id) == spec_tabs_rect_of_dock_cells(
                s0.subrange(i as int, s0.len() as int),
                dock_id,
            ),
        decreases s0.len() - i,
    {
        let ghost rest = s0.subrange(i as int, s0.len() as int);
        proof {
            assert(rest.first() == s0[i as int]);
            assert(rest.drop_first() =~= s0.subrange(i as int + 1, s0.len() as int));
            lemma_cell_count_seq_index(s0, i as int);
        }
        let r = tabs_rect_of_dock_in_cell(&t.dock_cells[i], dock_id);
        if r.is_some() {
            return r;
        }
        i = i + 1;
    }
    proof {
        assert(s0.subrange(s0.len() as int, s0.len() as int) =~= Seq::<DockCell>::empty());
    }
    None
}

/// The tab-strip rectangle of the first group (depth-first) in the
/// subtree that lists the dock, if any.
fn tabs_rect_of_dock_in_cell(c: &DockCell, dock_id: u32) -> (r: Option<Rectangle>)
    ensures
        r == spec_tabs_rect_of_dock(*c, dock_id),
    decreases cell_count(*c), 0nat,
{
    match c {
        DockCell::Group(g) => {
            let mut m: usize = 0;
            #[verifier::loop_isolation(false)]
            while m < g.dock_ids.len()
                invariant
                    0 <= m <= g.dock_ids@.len(),
                    forall|j: int| 0 <= j < m ==> g.dock_ids@[j] != dock_id,
                decreases g.dock_ids@.len() - m,
            {
                if g.dock_ids[m] == dock_id {
                    return Some(g.get_tabs_rect());
                }
                m = m + 1;
            }
            proof {
                assert(!g.dock_ids@.contains(dock_id));
            }
            None
        },
        DockCell::Table(t) => {
            proof {
                lemma_cell_count_at_least_one(*c);
            }
            tabs_rect_of_dock_in_cell_table(t, dock_id)
        },
    }
}

} // verus!
