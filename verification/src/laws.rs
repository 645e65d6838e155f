//! The engine's structural laws, proved once and for all over the
//! relations that the registry's operations establish.

use vstd::prelude::*;

use crate::tree::{DockCell, DockGroup, DockTable};
use crate::layout::{dims_applied, spec_child_h, spec_child_w};
use crate::layout::cell_mentions_dock;
use crate::layout::spec_find_dock;
use crate::index_pool::min_recycled_at;
use crate::registry::{add_dock_rel, added_dock_rel, cell_has_group, cell_is_group_with_id,
    created_group_rel, insert_rel, last_index_of, lemma_insert_gives_group, lemma_recycle_all_one,
    pool_alloc_rel, recycle_all, removal_witness, remove_rel, remove_rel_at, removed_dock_rel,
    scan_new_index, spec_moved_ids, Docks};
use crate::tree::NewDockCellPosition;
use crate::tree::Dock;

verus! {

/// No table of the subtree has exactly one child.
pub open spec fn cells_no_single(c: DockCell) -> bool
    decreases c,
{
    match c {
        DockCell::Group(_) => true,
        DockCell::Table(t) => t.dock_cells@.len() != 1 && forall|i: int|
            0 <= i < t.dock_cells@.len() ==> cells_no_single(#[trigger] t.dock_cells@[i]),
    }
}

/// Every group of the subtree holds at least one dock.
pub open spec fn cells_groups_nonempty(c: DockCell) -> bool
    decreases c,
{
    match c {
        DockCell::Group(g) => g.dock_ids@.len() >= 1,
        DockCell::Table(t) => forall|i: int|
            0 <= i < t.dock_cells@.len() ==> cells_groups_nonempty(#[trigger] t.dock_cells@[i]),
    }
}

/// A removal pass that does not report a collapse keeps the table's
/// child count.
proof fn lemma_remove_rel_keeps_len(a: DockTable, b: DockTable, dock_id: u32, ds: Seq<u32>)
    requires
        remove_rel(a, b, dock_id, false, ds),
    ensures
        b.dock_cells@.len() == a.dock_cells@.len(),
{
    let i = choose|i: int| #[trigger] remove_rel_at(a, b, dock_id, false, ds, i);
    assert(remove_rel_at(a, b, dock_id, false, ds, i));
}

/// After a removal pass, no reachable table below the given one has
/// exactly one child, provided none had one before. (The table the pass
/// starts from — the root — is itself exempt: with no parent to splice
/// into, it may legitimately be left with a single child.)
pub proof fn lemma_remove_preserves_no_single(
    a: DockTable,
    b: DockTable,
    dock_id: u32,
    c: bool,
    ds: Seq<u32>,
)
    requires
        remove_rel(a, b, dock_id, c, ds),
        forall|i: int|
            0 <= i < a.dock_cells@.len() ==> cells_no_single(#[trigger] a.dock_cells@[i]),
    ensures
        forall|i: int|
            0 <= i < b.dock_cells@.len() ==> cells_no_single(#[trigger] b.dock_cells@[i]),
    decreases a,
{
    let i = choose|i: int| #[trigger] remove_rel_at(a, b, dock_id, c, ds, i);
    assert(remove_rel_at(a, b, dock_id, c, ds, i));
    match a.dock_cells@[i] {
        DockCell::Group(_) => {
            assert forall|j: int|
                0 <= j < b.dock_cells@.len() implies cells_no_single(
                #[trigger] b.dock_cells@[j],
            ) by {}
        },
        DockCell::Table(sub) => {
            let (sub2, csub, ds2, i2) = choose|
                sub2: DockTable,
                csub: bool,
                ds2: Seq<u32>,
                i2: int,
            |
                {
                    &&& #[trigger] removal_witness(sub2, csub, ds2, i2)
                    &&& remove_rel_at(sub, sub2, dock_id, csub, ds2, i2)
                    &&& sub2 == (DockTable { dock_cells: sub2.dock_cells, ..sub })
                    &&& if !csub || sub2.dock_cells@.len() >= 2 {
                        &&& !c
                        &&& ds == ds2
                        &&& b.dock_cells@.len() == a.dock_cells@.len()
                        &&& b.dock_cells@[i] == DockCell::Table(sub2)
                        &&& b.dock_cells@ == a.dock_cells@.update(i, b.dock_cells@[i])
                    } else if sub2.dock_cells@.len() == 1 {
                        &&& c
                        &&& ds =~= ds2.push(sub2.id)
                        &&& b.dock_cells@ == a.dock_cells@.update(i, sub2.dock_cells@[0])
                    } else {
                        &&& c
                        &&& ds =~= ds2.push(sub2.id)
                        &&& b.dock_cells@ == a.dock_cells@.remove(i)
                    }
                };
            assert(remove_rel(sub, sub2, dock_id, csub, ds2));
            assert(cells_no_single(a.dock_cells@[i]));
            assert(DockCell::Table(sub) matches DockCell::Table(sx) && sx == sub);
            lemma_remove_preserves_no_single(sub, sub2, dock_id, csub, ds2);
            if !csub {
                lemma_remove_rel_keeps_len(sub, sub2, dock_id, ds2);
            }
            assert forall|j: int|
                0 <= j < b.dock_cells@.len() implies cells_no_single(
                #[trigger] b.dock_cells@[j],
            ) by {
                if (!csub || sub2.dock_cells@.len() >= 2) && j == i {
                    assert(DockCell::Table(sub2) matches DockCell::Table(s2x) && s2x == sub2);
                    assert(cells_no_single(DockCell::Table(sub2)));
                }
            }
        },
    }
}

/// After a removal pass, every group below still holds at least one
/// dock, provided every group did before: the group that loses its last
/// dock is deleted rather than kept empty.
pub proof fn lemma_remove_preserves_groups_nonempty(
    a: DockTable,
    b: DockTable,
    dock_id: u32,
    c: bool,
    ds: Seq<u32>,
)
    requires
        remove_rel(a, b, dock_id, c, ds),
        forall|i: int|
            0 <= i < a.dock_cells@.len() ==> cells_groups_nonempty(#[trigger] a.dock_cells@[i]),
    ensures
        forall|i: int|
            0 <= i < b.dock_cells@.len() ==> cells_groups_nonempty(#[trigger] b.dock_cells@[i]),
    decreases a,
{
    let i = choose|i: int| #[trigger] remove_rel_at(a, b, dock_id, c, ds, i);
    assert(remove_rel_at(a, b, dock_id, c, ds, i));
    match a.dock_cells@[i] {
        DockCell::Group(_) => {
            assert forall|j: int|
                0 <= j < b.dock_cells@.len() implies cells_groups_nonempty(
                #[trigger] b.dock_cells@[j],
            ) by {}
        },
        DockCell::Table(sub) => {
            let (sub2, csub, ds2, i2) = choose|
                sub2: DockTable,
                csub: bool,
                ds2: Seq<u32>,
                i2: int,
            |
                {
                    &&& #[trigger] removal_witness(sub2, csub, ds2, i2)
                    &&& remove_rel_at(sub, sub2, dock_id, csub, ds2, i2)
                    &&& sub2 == (DockTable { dock_cells: sub2.dock_cells, ..sub })
                    &&& if !csub || sub2.dock_cells@.len() >= 2 {
                        &&& !c
                        &&& ds == ds2
                        &&& b.dock_cells@.len() == a.dock_cells@.len()
                        &&& b.dock_cells@[i] == DockCell::Table(sub2)
                        &&& b.dock_cells@ == a.dock_cells@.update(i, b.dock_cells@[i])
                    } else if sub2.dock_cells@.len() == 1 {
                        &&& c
                        &&& ds =~= ds2.push(sub2.id)
                        &&& b.dock_cells@ == a.dock_cells@.update(i, sub2.dock_cells@[0])
                    } else {
                        &&& c
                        &&& ds =~= ds2.push(sub2.id)
                        &&& b.dock_cells@ == a.dock_cells@.remove(i)
                    }
                };
            assert(remove_rel(sub, sub2, dock_id, csub, ds2));
            assert(cells_groups_nonempty(a.dock_cells@[i]));
            assert(DockCell::Table(sub) matches DockCell::Table(sx) && sx == sub);
            lemma_remove_preserves_groups_nonempty(sub, sub2, dock_id, csub, ds2);
            assert forall|j: int|
                0 <= j < b.dock_cells@.len() implies cells_groups_nonempty(
                #[trigger] b.dock_cells@[j],
            ) by {
                if (!csub || sub2.dock_cells@.len() >= 2) && j == i {
                    assert(DockCell::Table(sub2) matches DockCell::Table(s2x) && s2x == sub2);
                    assert(cells_groups_nonempty(DockCell::Table(sub2)));
                }
            }
        },
    }
}

/// Appending a dock to a strip keeps the relative order of the docks
/// already there: the strip restricted to the others is unchanged.
pub proof fn lemma_add_preserves_others(ids: Seq<u32>, dock_id: u32)
    ensures
        ({
            let p = |i: u32| i != dock_id;
            ids.push(dock_id).filter(p) == ids.filter(p)
        }),
{
    reveal(Seq::filter);
    assert(ids.push(dock_id).drop_last() =~= ids);
}

/// Removing an occurrence of a dock from a strip keeps the relative
/// order of the others: the strip restricted to them is unchanged.
pub proof fn lemma_remove_preserves_others(ids: Seq<u32>, m: int, dock_id: u32)
    requires
        0 <= m < ids.len(),
        ids[m] == dock_id,
    ensures
        ({
            let p = |i: u32| i != dock_id;
            ids.remove(m).filter(p) == ids.filter(p)
        }),
    decreases ids.len(),
{
    reveal(Seq::filter);
    if m == ids.len() - 1 {
        assert(ids.remove(m) =~= ids.drop_last());
    } else {
        assert(ids.remove(m).drop_last() =~= ids.drop_last().remove(m));
        assert(ids.remove(m).last() == ids.last());
        assert(ids.drop_last()[m] == ids[m]);
        lemma_remove_preserves_others(ids.drop_last(), m, dock_id);
    }
}

/// Inserting a dock anywhere in a strip leaves the strip restricted to
/// the other docks unchanged.
proof fn lemma_insert_preserves_others(ids: Seq<u32>, n: int, dock_id: u32)
    requires
        0 <= n <= ids.len(),
    ensures
        ({
            let p = |i: u32| i != dock_id;
            ids.insert(n, dock_id).filter(p) == ids.filter(p)
        }),
    decreases ids.len(),
{
    reveal(Seq::filter);
    if n == ids.len() {
        assert(ids.insert(n, dock_id).drop_last() =~= ids);
    } else {
        assert(ids.insert(n, dock_id).drop_last() =~= ids.drop_last().insert(n, dock_id));
        assert(ids.insert(n, dock_id).last() == ids.last());
        lemma_insert_preserves_others(ids.drop_last(), n, dock_id);
    }
}

/// Resplicing a dock's tab to a new slot keeps the relative order of the
/// others: the strip restricted to them is unchanged.
pub proof fn lemma_resplice_preserves_others(ids: Seq<u32>, m: int, n: int, dock_id: u32)
    requires
        0 <= m < ids.len(),
        ids[m] == dock_id,
        0 <= n <= ids.len() - 1,
    ensures
        ({
            let p = |i: u32| i != dock_id;
            ids.remove(m).insert(n, dock_id).filter(p) == ids.filter(p)
        }),
{
    lemma_insert_preserves_others(ids.remove(m), n, dock_id);
    lemma_remove_preserves_others(ids, m, dock_id);
}

/// A slot the backward reading yields lies in the strip and holds the
/// dock.
proof fn lemma_last_index_sound(ids: Seq<u32>, dock_id: u32)
    ensures
        last_index_of(ids, dock_id) matches Some(m) ==> 0 <= m < ids.len() && ids[m] == dock_id,
    decreases ids.len(),
{
    if ids.len() > 0 {
        assert(ids[0] == ids.first());
        lemma_last_index_sound(ids.drop_first(), dock_id);
        assert(forall|j: int|
            0 <= j < ids.drop_first().len() ==> ids.drop_first()[j] == ids[j + 1]);
    }
}

/// A strip whose backward reading finds no slot does not list the dock.
proof fn lemma_no_last_index_means_absent(ids: Seq<u32>, dock_id: u32)
    requires
        last_index_of(ids, dock_id) is None,
    ensures
        !ids.contains(dock_id),
    decreases ids.len(),
{
    if ids.len() > 0 {
        assert(ids[0] == ids.first());
        lemma_no_last_index_means_absent(ids.drop_first(), dock_id);
        if ids.contains(dock_id) {
            let j = choose|j: int| 0 <= j < ids.len() && ids[j] == dock_id;
            if j > 0 {
                assert(ids.drop_first()[j - 1] == dock_id);
                assert(ids.drop_first().contains(dock_id));
            }
            assert(false);
        }
    }
}

/// The slot the forward scan picks lies within the strip: it counts only
/// tabs ahead of some entry of the strip.
proof fn lemma_scan_new_index_bound(
    ids: Seq<u32>,
    docks: Seq<Dock>,
    dock_id: u32,
    x: int,
    drag_width: int,
    right_x: int,
    cur: int,
)
    ensures
        scan_new_index(ids, docks, dock_id, x, drag_width, right_x, cur) matches Some(n) ==> cur
            <= n <= cur + ids.len() - 1,
    decreases ids.len(),
{
    if ids.len() > 0 {
        match spec_find_dock(docks, ids.first()) {
            None => {
                lemma_scan_new_index_bound(
                    ids.drop_first(),
                    docks,
                    dock_id,
                    x,
                    drag_width,
                    right_x,
                    cur,
                );
            },
            Some(d) => {
                if x < right_x + drag_width {
                } else if ids.first() == dock_id {
                    lemma_scan_new_index_bound(
                        ids.drop_first(),
                        docks,
                        dock_id,
                        x,
                        drag_width,
                        right_x,
                        cur,
                    );
                } else {
                    lemma_scan_new_index_bound(
                        ids.drop_first(),
                        docks,
                        dock_id,
                        x,
                        drag_width,
                        right_x + d.tab_rect.width + crate::tree::TAB_GAP as int,
                        cur + 1,
                    );
                }
            },
        }
    }
}

/// Resplicing a dock around the pointer keeps the relative order of the
/// other docks in its strip, wherever the pointer lies.
pub proof fn lemma_move_preserves_others(
    g: DockGroup,
    docks: Seq<Dock>,
    dock_id: u32,
    x: int,
    drag_width: int,
)
    requires
        g.dock_ids@.contains(dock_id),
    ensures
        ({
            let p = |i: u32| i != dock_id;
            spec_moved_ids(g, docks, dock_id, x, drag_width).filter(p) == g.dock_ids@.filter(p)
        }),
{
    let ids = g.dock_ids@;
    match last_index_of(ids, dock_id) {
        None => {
            lemma_no_last_index_means_absent(ids, dock_id);
        },
        Some(m) => {
            lemma_last_index_sound(ids, dock_id);
            lemma_scan_new_index_bound(
                ids,
                docks,
                dock_id,
                x,
                drag_width,
                g.tabs_rect.x + crate::tree::TAB_START_OFFSET as int,
                0,
            );
            let n = match scan_new_index(
                ids,
                docks,
                dock_id,
                x,
                drag_width,
                g.tabs_rect.x + crate::tree::TAB_START_OFFSET as int,
                0,
            ) {
                Some(n) => n,
                None => ids.len() as int - 1,
            };
            if m != n {
                lemma_resplice_preserves_others(ids, m, n, dock_id);
            }
        },
    }
}

/// The public removal operation, applied to a registry whose tree has no
/// single-child table below the root and no empty group, leaves it so:
/// the collapse repairs every table it touches, and the emptied group is
/// deleted rather than kept. (The root itself may be left with a single
/// child: it has no parent to splice into.)
pub proof fn lemma_registry_remove_keeps_invariants(pre: Docks, post: Docks, dock_id: u32)
    requires
        removed_dock_rel(pre, post, dock_id),
        forall|i: int|
            0 <= i < pre.dock_table_root.dock_cells@.len() ==> cells_no_single(
                #[trigger] pre.dock_table_root.dock_cells@[i],
            ),
        forall|i: int|
            0 <= i < pre.dock_table_root.dock_cells@.len() ==> cells_groups_nonempty(
                #[trigger] pre.dock_table_root.dock_cells@[i],
            ),
    ensures
        forall|i: int|
            0 <= i < post.dock_table_root.dock_cells@.len() ==> cells_no_single(
                #[trigger] post.dock_table_root.dock_cells@[i],
            ),
        forall|i: int|
            0 <= i < post.dock_table_root.dock_cells@.len() ==> cells_groups_nonempty(
                #[trigger] post.dock_table_root.dock_cells@[i],
            ),
{
    if cell_mentions_dock(DockCell::Table(pre.dock_table_root), dock_id) {
        let (c, ds) = choose|c: bool, ds: Seq<u32>|
            #[trigger] remove_rel(pre.dock_table_root, post.dock_table_root, dock_id, c, ds);
        lemma_remove_preserves_no_single(
            pre.dock_table_root,
            post.dock_table_root,
            dock_id,
            c,
            ds,
        );
        lemma_remove_preserves_groups_nonempty(
            pre.dock_table_root,
            post.dock_table_root,
            dock_id,
            c,
            ds,
        );
    }
}

/// A round trip at the root: a root table holds two groups, the second
/// of which holds a single dock; removing that dock (which deletes its
/// group), then realizing a sibling slot after the survivor and handing
/// the dock to the fresh group, restores a tree of the original shape —
/// the surviving group untouched, and beside it a group with the
/// original's membership. (The fresh group's identifier and rectangles
/// may differ from the deleted one's; and the restriction to a
/// single-dock group is essential: removing a dock from a group that
/// keeps other docks and re-adding it through a placement would create
/// an extra group instead.)
pub proof fn lemma_root_round_trip(
    a: DockTable,
    b: DockTable,
    b2: DockTable,
    bf: DockTable,
    ga: DockGroup,
    gb: DockGroup,
    dock_id: u32,
    c: bool,
    ds: Seq<u32>,
    gcell: DockCell,
    new_gid: u32,
)
    requires
        a.dock_cells@ =~= seq![DockCell::Group(ga), DockCell::Group(gb)],
        !ga.dock_ids@.contains(dock_id),
        gb.dock_ids@ =~= seq![dock_id],
        remove_rel(a, b, dock_id, c, ds),
        insert_rel(DockCell::Table(b), DockCell::Table(b2), b.id, gcell, 1),
        gcell matches DockCell::Group(g) && g.is_fresh(new_gid),
        new_gid != ga.id,
        add_dock_rel(DockCell::Table(b2), DockCell::Table(bf), new_gid, dock_id),
    ensures
        bf.id == a.id,
        bf.vertical_align == a.vertical_align,
        bf.dock_cells@.len() == 2,
        bf.dock_cells@[0] == DockCell::Group(ga),
        bf.dock_cells@[1] matches DockCell::Group(g2) && g2.id == new_gid && g2.dock_ids@
            =~= gb.dock_ids@,
{
    // the removal hits the second child: the first does not list the dock
    let i = choose|i: int| #[trigger] remove_rel_at(a, b, dock_id, c, ds, i);
    assert(remove_rel_at(a, b, dock_id, c, ds, i));
    assert(a.dock_cells@[0] == DockCell::Group(ga) && a.dock_cells@[1] == DockCell::Group(gb));
    assert(!cell_mentions_dock(a.dock_cells@[0], dock_id));
    assert(cell_mentions_dock(a.dock_cells@[i], dock_id));
    assert(i == 1);
    assert(b.dock_cells@ =~= seq![DockCell::Group(ga)]);
    // the fresh group lands after the survivor, directly in the root
    let tb2 = DockCell::Table(b2)->Table_0;
    assert(tb2 == b2);
    assert(b2.dock_cells@ =~= seq![DockCell::Group(ga), gcell]);
    // the dock joins the fresh group, not the survivor
    let tbf = DockCell::Table(bf)->Table_0;
    assert(tbf == bf);
    let j = choose|j: int|
        {
            &&& 0 <= j < b2.dock_cells@.len()
            &&& (forall|k: int|
                0 <= k < j ==> !cell_has_group(#[trigger] b2.dock_cells@[k], new_gid))
            &&& add_dock_rel(#[trigger] b2.dock_cells@[j], bf.dock_cells@[j], new_gid, dock_id)
            &&& bf.dock_cells@ == b2.dock_cells@.update(j, bf.dock_cells@[j])
        };
    assert(add_dock_rel(b2.dock_cells@[j], bf.dock_cells@[j], new_gid, dock_id));
    if j == 0 {
        assert(b2.dock_cells@[0] == DockCell::Group(ga));
        assert(false);
    }
    assert(j == 1);
    assert(bf.dock_cells@[1] matches DockCell::Group(g2) && g2.id == new_gid && g2.dock_ids@
        =~= seq![dock_id]);
}

/// The registry-level round trip: with the root holding two groups, the
/// second of which holds only the dragged dock, removing that dock and
/// then realizing the sibling slot after the survivor and handing the
/// dock to the fresh group restores the original shape. Because the
/// removal contract names the recycled identifiers, the fresh group's
/// distinctness from the survivor is derived here, not assumed: the
/// pool can only hand out its recycled identifiers (now the deleted
/// group's) or the counter's next, never the survivor's.
pub proof fn lemma_registry_round_trip(
    pre: Docks,
    mid: Docks,
    mid2: Docks,
    fin: Docks,
    ga: DockGroup,
    gb: DockGroup,
    dock_id: u32,
    new_gid: u32,
)
    requires
        pre.dock_table_root.dock_cells@ =~= seq![DockCell::Group(ga), DockCell::Group(gb)],
        !ga.dock_ids@.contains(dock_id),
        gb.dock_ids@ =~= seq![dock_id],
        ga.id != gb.id,
        ga.id < pre.index_pool.next_index,
        !pre.index_pool.recycled@.contains(ga.id),
        removed_dock_rel(pre, mid, dock_id),
        created_group_rel(
            mid,
            mid2,
            NewDockCellPosition::TableExists { table_id: pre.dock_table_root.id, index: 1 },
            new_gid,
        ),
        added_dock_rel(mid2, fin, new_gid, dock_id),
    ensures
        fin.dock_table_root.id == pre.dock_table_root.id,
        fin.dock_table_root.vertical_align == pre.dock_table_root.vertical_align,
        fin.dock_table_root.dock_cells@.len() == 2,
        fin.dock_table_root.dock_cells@[0] == DockCell::Group(ga),
        fin.dock_table_root.dock_cells@[1] matches DockCell::Group(g2) && g2.id == new_gid
            && g2.dock_ids@ =~= gb.dock_ids@,
        new_gid != ga.id,
{
    let a = pre.dock_table_root;
    // the dock is mentioned, by the second group alone
    assert(a.dock_cells@[1] == DockCell::Group(gb));
    assert(gb.dock_ids@[0] == dock_id);
    assert(gb.dock_ids@.contains(dock_id));
    assert(cell_mentions_dock(a.dock_cells@[1], dock_id));
    assert(DockCell::Table(a) matches DockCell::Table(ax) && ax == a);
    assert(cell_mentions_dock(DockCell::Table(a), dock_id));
    let (c, ds) = choose|c: bool, ds: Seq<u32>|
        {
            &&& #[trigger] remove_rel(pre.dock_table_root, mid.dock_table_root, dock_id, c, ds)
            &&& mid.index_pool.recycled@ == recycle_all(
                pre.index_pool.recycled@,
                ds,
                pre.index_pool.next_index,
            )
        };
    assert(remove_rel(a, mid.dock_table_root, dock_id, c, ds));
    // the removal hit the second child and deleted exactly its group
    let i = choose|i: int| #[trigger] remove_rel_at(a, mid.dock_table_root, dock_id, c, ds, i);
    assert(remove_rel_at(a, mid.dock_table_root, dock_id, c, ds, i));
    assert(!cell_mentions_dock(a.dock_cells@[0], dock_id));
    assert(i == 1);
    assert(ds =~= seq![gb.id]);
    // the pool now holds the deleted identifier and nothing of the survivor
    let next = pre.index_pool.next_index;
    lemma_recycle_all_one(pre.index_pool.recycled@, gb.id, next);
    let gcell = choose|gcell: DockCell|
        {
            &&& pool_alloc_rel(mid.index_pool, mid2.index_pool, new_gid)
            &&& gcell matches DockCell::Group(g) && g.is_fresh(new_gid)
            &&& #[trigger] insert_rel(
                DockCell::Table(mid.dock_table_root),
                DockCell::Table(mid2.dock_table_root),
                pre.dock_table_root.id,
                gcell,
                1,
            )
        };
    assert(pool_alloc_rel(mid.index_pool, mid2.index_pool, new_gid));
    if mid.index_pool.recycled@.len() > 0 {
        let m = choose|m: int|
            {
                &&& #[trigger] min_recycled_at(mid.index_pool.recycled@, m)
                &&& new_gid == mid.index_pool.recycled@[m]
            };
        if new_gid == ga.id {
            if gb.id < next {
                // the pool is the old one plus the deleted identifier
                if m < pre.index_pool.recycled@.len() {
                    assert(mid.index_pool.recycled@[m] == pre.index_pool.recycled@[m]);
                    assert(pre.index_pool.recycled@.contains(ga.id));
                } else {
                    assert(mid.index_pool.recycled@[m] == gb.id);
                }
            } else {
                assert(mid.index_pool.recycled@[m] == pre.index_pool.recycled@[m]);
                assert(pre.index_pool.recycled@.contains(ga.id));
            }
            assert(false);
        }
    } else {
        assert(new_gid == mid.index_pool.next_index);
        assert(mid.index_pool.next_index == next);
        assert(new_gid != ga.id);
    }
    // the fresh group is in the tree, so the dock lands in it
    assert(gcell matches DockCell::Group(gx) && cell_is_group_with_id(gcell, new_gid));
    lemma_insert_gives_group(
        DockCell::Table(mid.dock_table_root),
        DockCell::Table(mid2.dock_table_root),
        pre.dock_table_root.id,
        gcell,
        1,
        new_gid,
    );
    assert(add_dock_rel(
        DockCell::Table(mid2.dock_table_root),
        DockCell::Table(fin.dock_table_root),
        new_gid,
        dock_id,
    ));
    lemma_root_round_trip(
        pre.dock_table_root,
        mid.dock_table_root,
        mid2.dock_table_root,
        fin.dock_table_root,
        ga,
        gb,
        dock_id,
        c,
        ds,
        gcell,
        new_gid,
    );
}

/// Deep sameness of two cells: every identifier, orientation, rectangle
/// and membership list coincides, component for component.
pub open spec fn cell_same(a: DockCell, b: DockCell) -> bool
    decreases a,
{
    match a {
        DockCell::Group(ga) => b == DockCell::Group(ga),
        DockCell::Table(ta) => {
            &&& b matches DockCell::Table(tb)
            &&& tb.id == ta.id
            &&& tb.vertical_align == ta.vertical_align
            &&& tb.rect == ta.rect
            &&& tb.dock_cells@.len() == ta.dock_cells@.len()
            &&& forall|i: int|
                0 <= i < ta.dock_cells@.len() ==> cell_same(
                    #[trigger] ta.dock_cells@[i],
                    tb.dock_cells@[i],
                )
        },
    }
}

/// Sizing is idempotent: running `set_dimensions` twice with identical
/// arguments yields, component for component, the tree the first run
/// produced — in particular identical child rectangles both times.
pub proof fn lemma_set_dimensions_idempotent(a: DockCell, b: DockCell, c: DockCell, w: int, h: int)
    requires
        dims_applied(a, b, w, h),
        dims_applied(b, c, w, h),
    ensures
        cell_same(b, c),
    decreases a,
{
    match a {
        DockCell::Group(_) => {},
        DockCell::Table(ta) => {
            let tb = b->Table_0;
            let tc = c->Table_0;
            let n = ta.dock_cells@.len() as int;
            assert(tb.dock_cells@.len() == n && tc.dock_cells@.len() == n);
            let cw = spec_child_w(ta.vertical_align, n, w);
            let ch = spec_child_h(ta.vertical_align, n, h);
            assert(spec_child_w(tb.vertical_align, n, w) == cw);
            assert(spec_child_h(tb.vertical_align, n, h) == ch);
            assert forall|i: int| 0 <= i < n implies cell_same(
                #[trigger] tb.dock_cells@[i],
                tc.dock_cells@[i],
            ) by {
                assert(dims_applied(ta.dock_cells@[i], tb.dock_cells@[i], cw, ch));
                assert(dims_applied(tb.dock_cells@[i], tc.dock_cells@[i], cw, ch));
                lemma_set_dimensions_idempotent(
                    ta.dock_cells@[i],
                    tb.dock_cells@[i],
                    tc.dock_cells@[i],
                    cw,
                    ch,
                );
            }
        },
    }
}

} // verus!
