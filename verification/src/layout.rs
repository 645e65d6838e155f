//! The layout pass over the dock tree.
//!
//! Dimensions propagate top-down: a table divides its extent along its
//! orientation evenly among its children (truncating division, after
//! subtracting the fixed padding between neighbours; residual units are
//! dropped), and passes the orthogonal extent through unchanged. A group
//! splits its extent into a fixed-height tab strip and the remaining
//! content area. Positions then propagate top-down in a second pass,
//! offsetting each child by its predecessors' extents plus padding.
//!
//! All arithmetic is performed in 64 bits and proved to stay within the
//! 32-bit fields, under coordinate and tree-size bounds stated in the
//! preconditions.

use vstd::prelude::*;

use vstd::arithmetic::div_mod::lemma_div_nonincreasing;
use vstd::arithmetic::div_mod::lemma_multiply_divide_lt;

use crate::geometry::Rectangle;
use crate::tree::{Dock, DockCell, DockGroup, DockTable};
use crate::tree::{cell_count, cell_count_seq};
use crate::tree::{DIM_BOUND, MAX_CELLS, MAX_COORD, PADDING, TAB_GAP, TAB_START_OFFSET,
    TAB_STRIP_HEIGHT};

verus! {

/// Truncating (round-toward-zero) integer division, as the `/` operator
/// of the execution platform computes it for a positive divisor.
pub open spec fn spec_div_trunc(a: int, b: int) -> int
    recommends
        b >= 1,
{
    if a >= 0 {
        a / b
    } else {
        -((-a) / b)
    }
}

/// The extent each child of an `n`-child table receives out of a total
/// extent along the orientation axis: the total minus the padding between
/// neighbours, divided evenly, residual units dropped.
pub open spec fn spec_child_extent(total: int, n: int) -> int
    recommends
        n >= 1,
{
    spec_div_trunc(total - (n - 1) * (PADDING as int), n)
}

/// The extent handed to a table's children across the width axis.
pub open spec fn spec_child_w(vertical: bool, n: int, w: int) -> int {
    if vertical {
        w
    } else {
        spec_child_extent(w, n)
    }
}

/// The extent handed to a table's children across the height axis.
pub open spec fn spec_child_h(vertical: bool, n: int, h: int) -> int {
    if vertical {
        spec_child_extent(h, n)
    } else {
        h
    }
}

/// A rectangle with its position kept and its dimensions replaced.
pub open spec fn rect_with_dims(r: Rectangle, w: int, h: int) -> Rectangle {
    Rectangle { x: r.x, y: r.y, width: w as i32, height: h as i32 }
}

/// What `set_dimensions` leaves of a group: the extent split into a
/// fixed-height tab strip and the remaining content area; positions and
/// membership untouched.
pub open spec fn group_with_dims(g: DockGroup, w: int, h: int) -> DockGroup {
    DockGroup {
        id: g.id,
        tabs_rect: rect_with_dims(g.tabs_rect, w, TAB_STRIP_HEIGHT as int),
        docks_rect: rect_with_dims(g.docks_rect, w, h - TAB_STRIP_HEIGHT as int),
        dock_ids: g.dock_ids,
    }
}

/// Relates a cell before a `set_dimensions` pass with extents `(w, h)` to
/// the cell after it: identifiers, orientations, positions and membership
/// are kept; every stored extent is recomputed from the pass's inputs and
/// the tree's structure alone.
pub open spec fn dims_applied(a: DockCell, b: DockCell, w: int, h: int) -> bool
    decreases a,
{
    match a {
        DockCell::Group(ga) => b == DockCell::Group(group_with_dims(ga, w, h)),
        DockCell::Table(ta) => {
            let n = ta.dock_cells@.len() as int;
            &&& b matches DockCell::Table(tb)
            &&& tb.id == ta.id
            &&& tb.vertical_align == ta.vertical_align
            &&& tb.rect == rect_with_dims(ta.rect, w, h)
            &&& tb.dock_cells@.len() == n
            &&& forall|i: int|
                0 <= i < n ==> dims_applied(
                    #[trigger] ta.dock_cells@[i],
                    tb.dock_cells@[i],
                    spec_child_w(ta.vertical_align, n, w),
                    spec_child_h(ta.vertical_align, n, h),
                )
        },
    }
}

/// Bounds on the extents a layout pass accepts for a subtree of the given
/// node count; the slack grows as the count shrinks, because each level
/// of the division can move an extent by at most the padding.
pub open spec fn dims_input_ok(w: int, h: int, count: nat) -> bool {
    let lim = MAX_COORD as int + (PADDING as int) * (MAX_CELLS as int - count as int);
    &&& count <= MAX_CELLS as int
    &&& -lim <= w <= lim
    &&& -lim <= h <= lim
}

/// Every extent stored in the subtree lies within `DIM_BOUND`.
pub open spec fn cell_dims_bounded(c: DockCell) -> bool
    decreases c,
{
    match c {
        DockCell::Group(g) => {
            &&& -DIM_BOUND <= g.tabs_rect.width <= DIM_BOUND
            &&& -DIM_BOUND <= g.tabs_rect.height <= DIM_BOUND
            &&& -DIM_BOUND <= g.docks_rect.width <= DIM_BOUND
            &&& -DIM_BOUND <= g.docks_rect.height <= DIM_BOUND
        },
        DockCell::Table(t) => {
            &&& -DIM_BOUND <= t.rect.width <= DIM_BOUND
            &&& -DIM_BOUND <= t.rect.height <= DIM_BOUND
            &&& forall|i: int|
                0 <= i < t.dock_cells@.len() ==> cell_dims_bounded(#[trigger] t.dock_cells@[i])
        },
    }
}

/// Truncating division on 64-bit integers, for a positive divisor.
fn div_trunc(a: i64, b: i64) -> (r: i64)
    requires
        b >= 1,
        -0x4000_0000_0000_0000 <= a <= 0x4000_0000_0000_0000,
    ensures
        r == spec_div_trunc(a as int, b as int),
{
    if a >= 0 {
        let q = (a as u64) / (b as u64);
        proof {
            lemma_div_nonincreasing(a as int, b as int);
        }
        q as i64
    } else {
        let m = ((-a) as u64) / (b as u64);
        proof {
            lemma_div_nonincreasing(-(a as int), b as int);
        }
        -(m as i64)
    }
}

/// The divided extent moves by at most the padding beyond the input
/// bound, whatever the child count.
proof fn lemma_child_extent_bound(total: int, n: int, lim: int)
    requires
        n >= 1,
        lim >= 0,
        -lim <= total <= lim,
    ensures
        -(lim + PADDING as int) <= spec_child_extent(total, n) <= lim + PADDING as int,
{
    let p = PADDING as int;
    let num = total - (n - 1) * p;
    assert(num < n * (lim + p) && -num < n * (lim + p)) by (nonlinear_arith)
        requires
            n >= 1,
            lim >= 0,
            p == 5,
            -lim <= total <= lim,
            num == total - (n - 1) * p,
    ;
    if num >= 0 {
        lemma_multiply_divide_lt(num, n, lim + p);
    } else {
        lemma_multiply_divide_lt(-num, n, lim + p);
    }
}

/// A single cell holds at least one node.
pub proof fn lemma_cell_count_at_least_one(c: DockCell)
    ensures
        cell_count(c) >= 1,
{
}

/// A sequence of cells holds at least `i` nodes ahead of its `i`-th cell.
pub proof fn lemma_cell_count_seq_index(s: Seq<DockCell>, i: int)
    requires
        0 <= i < s.len(),
    ensures
        cell_count_seq(s) >= i + cell_count(s[i]),
    decreases i,
{
    if i == 0 {
        assert(s[0] == s.first());
    } else {
        lemma_cell_count_at_least_one(s.first());
        lemma_cell_count_seq_index(s.drop_first(), i - 1);
        assert(s.drop_first()[i - 1] == s[i]);
    }
}

/// A sequence of cells holds at least as many nodes as it has cells.
pub proof fn lemma_cell_count_seq_ge_len(s: Seq<DockCell>)
    ensures
        cell_count_seq(s) >= s.len(),
    decreases s.len(),
{
    if s.len() > 0 {
        lemma_cell_count_at_least_one(s.first());
        lemma_cell_count_seq_ge_len(s.drop_first());
    }
}

/// Sequences whose cells hold equal node counts pointwise hold equal node
/// counts in total.
pub proof fn lemma_cell_count_seq_pointwise(sa: Seq<DockCell>, sb: Seq<DockCell>)
    requires
        sa.len() == sb.len(),
        forall|i: int| 0 <= i < sa.len() ==> cell_count(#[trigger] sa[i]) == cell_count(sb[i]),
    ensures
        cell_count_seq(sa) == cell_count_seq(sb),
    decreases sa.len(),
{
    if sa.len() > 0 {
        assert(sa[0] == sa.first() && sb[0] == sb.first());
        assert(forall|i: int|
            0 <= i < sa.drop_first().len() ==> cell_count(#[trigger] sa.drop_first()[i])
                == cell_count(sb.drop_first()[i])) by {
            assert(forall|i: int|
                0 <= i < sa.drop_first().len() ==> sa.drop_first()[i] == sa[i + 1]
                    && sb.drop_first()[i] == sb[i + 1]);
        }
        lemma_cell_count_seq_pointwise(sa.drop_first(), sb.drop_first());
    }
}

/// Applies a `set_dimensions` pass to one cell, returning the new cell.
pub fn set_dimensions_cell(c: DockCell, width: i32, height: i32) -> (r: DockCell)
    requires
        dims_input_ok(width as int, height as int, cell_count(c)),
    ensures
        dims_applied(c, r, width as int, height as int),
        cell_count(r) == cell_count(c),
        cell_dims_bounded(r),
    decreases cell_count(c), 0nat,
{
    match c {
        DockCell::Table(t) => {
            proof {
                lemma_cell_count_at_least_one(DockCell::Table(t));
            }
            DockCell::Table(set_dimensions_table(t, width, height))
        },
        DockCell::Group(g) => DockCell::Group(set_dimensions_group(g, width, height)),
    }
}

/// Applies a `set_dimensions` pass to a group: the extent is split into
/// the fixed-height tab strip and the remaining content area.
pub fn set_dimensions_group(g: DockGroup, width: i32, height: i32) -> (r: DockGroup)
    requires
        dims_input_ok(width as int, height as int, 1),
    ensures
        r == group_with_dims(g, width as int, height as int),
        cell_dims_bounded(DockCell::Group(r)),
{
    let mut g = g;
    g.tabs_rect.width = width;
    g.tabs_rect.height = TAB_STRIP_HEIGHT;
    g.docks_rect.width = width;
    g.docks_rect.height = ((height as i64) - (TAB_STRIP_HEIGHT as i64)) as i32;
    g
}

/// Applies a `set_dimensions` pass to a table: it stores the extents and
/// divides the extent along its orientation evenly among its children.
pub fn set_dimensions_table(t: DockTable, width: i32, height: i32) -> (r: DockTable)
    requires
        dims_input_ok(width as int, height as int, cell_count(DockCell::Table(t))),
    ensures
        dims_applied(
            DockCell::Table(t),
            DockCell::Table(r),
            width as int,
            height as int,
        ),
        cell_count(DockCell::Table(r)) == cell_count(DockCell::Table(t)),
        cell_dims_bounded(DockCell::Table(r)),
    decreases cell_count_seq(t.dock_cells@), 1nat,
{
    let ghost t0 = t;
    let ghost s0 = t.dock_cells@;
    let mut t = t;
    t.rect.width = width;
    t.rect.height = height;
    let n = t.dock_cells.len();
    proof {
        lemma_cell_count_seq_ge_len(s0);
        assert(cell_count(DockCell::Table(t0)) == 1 + cell_count_seq(s0));
        assert(s0.len() <= cell_count_seq(s0) <= MAX_CELLS as int - 1);
        assert(n < MAX_CELLS);
    }
    if n > 0 {
        let total: i64 = if t.vertical_align {
            height as i64
        } else {
            width as i64
        };
        proof {
            assert(PADDING == 5i32);
            assert(((n as i64) - 1) * (PADDING as i64) == ((n as i64) - 1) * 5) by (nonlinear_arith)
                requires
                    PADDING == 5i32,
            ;
        }
        let per64 = div_trunc(total - ((n as i64) - 1) * (PADDING as i64), n as i64);
        proof {
            lemma_child_extent_bound(
                total as int,
                n as int,
                MAX_COORD as int + (PADDING as int) * (MAX_CELLS as int - cell_count(
                    DockCell::Table(t),
                ) as int),
            );
        }
        let per = per64 as i32;
        let child_w: i32 = if t.vertical_align {
            width
        } else {
            per
        };
        let child_h: i32 = if t.vertical_align {
            per
        } else {
            height
        };
        assert(child_w as int == spec_child_w(t.vertical_align, n as int, width as int));
        assert(child_h as int == spec_child_h(t.vertical_align, n as int, height as int));
        let mut out: Vec<DockCell> = Vec::new();
        #[verifier::loop_isolation(false)]
        while t.dock_cells.len() > 0
            invariant
                t.id == t0.id,
                t.vertical_align == t0.vertical_align,
                t.rect == rect_with_dims(t0.rect, width as int, height as int),
                out@.len() + t.dock_cells@.len() == s0.len(),
                t.dock_cells@ == s0.subrange(out@.len() as int, s0.len() as int),
                forall|i: int|
                    0 <= i < out@.len() ==> dims_applied(
                        s0[i],
                        #[trigger] out@[i],
                        child_w as int,
                        child_h as int,
                    ),
                forall|i: int|
                    0 <= i < out@.len() ==> cell_count(#[trigger] out@[i]) == cell_count(s0[i]),
                forall|i: int| 0 <= i < out@.len() ==> cell_dims_bounded(#[trigger] out@[i]),
            decreases t.dock_cells@.len(),
        {
            let ghost done = out@.len() as int;
            let child = t.dock_cells.remove(0);
            proof {
                assert(child == s0[done]);
                lemma_cell_count_seq_index(s0, done);
                assert(t.dock_cells@ == s0.subrange(done + 1, s0.len() as int));
            }
            let child2 = set_dimensions_cell(child, child_w, child_h);
            out.push(child2);
        }
        proof {
            assert(out@.len() == s0.len());
            lemma_cell_count_seq_pointwise(s0, out@);
        }
        t.dock_cells = out;
        proof {
            let nn = t0.dock_cells@.len() as int;
            let cw = spec_child_w(t0.vertical_align, nn, width as int);
            let ch = spec_child_h(t0.vertical_align, nn, height as int);
            assert(cw == child_w as int && ch == child_h as int);
            assert forall|i: int| 0 <= i < nn implies dims_applied(
                #[trigger] t0.dock_cells@[i],
                t.dock_cells@[i],
                cw,
                ch,
            ) by {
                assert(dims_applied(s0[i], out@[i], child_w as int, child_h as int));
            }
            assert(t.id == t0.id);
            assert(t.vertical_align == t0.vertical_align);
            assert(t.dock_cells@.len() == nn);
            assert(t.rect == rect_with_dims(t0.rect, width as int, height as int));
            assert(dims_applied(
                DockCell::Table(t0),
                DockCell::Table(t),
                width as int,
                height as int,
            ));
            assert(cell_dims_bounded(DockCell::Table(t)));
        }
    }
    t
}

/// The extent a child cell reports to its parent along the parent's
/// orientation axis: a table its own extent, a group its tab strip plus
/// its content area.
pub open spec fn cell_extent(c: DockCell, vertical: bool) -> int {
    match c {
        DockCell::Table(t) => if vertical {
            t.rect.height as int
        } else {
            t.rect.width as int
        },
        DockCell::Group(g) => if vertical {
            g.tabs_rect.height as int + g.docks_rect.height as int
        } else {
            g.tabs_rect.width as int
        },
    }
}

/// Offset of the `i`-th child of a table from the table's position along
/// the orientation axis: the extents of the children ahead of it, plus
/// the padding after each.
pub open spec fn offset_sum(s: Seq<DockCell>, i: int, vertical: bool) -> int
    decreases i,
{
    if i <= 0 {
        0
    } else {
        offset_sum(s, i - 1, vertical) + cell_extent(s[i - 1], vertical) + PADDING as int
    }
}

/// A rectangle with its dimensions kept and its position replaced.
pub open spec fn rect_with_pos(r: Rectangle, x: int, y: int) -> Rectangle {
    Rectangle { x: x as i32, y: y as i32, width: r.width, height: r.height }
}

/// What `set_position` leaves of a group: the tab strip at the given
/// position, the content area one strip height below it in screen space.
pub open spec fn group_with_pos(g: DockGroup, x: int, y: int) -> DockGroup {
    DockGroup {
        id: g.id,
        tabs_rect: rect_with_pos(g.tabs_rect, x, y),
        docks_rect: rect_with_pos(g.docks_rect, x, y - TAB_STRIP_HEIGHT as int),
        dock_ids: g.dock_ids,
    }
}

/// The x coordinate handed to the `i`-th child of a table at `x`.
pub open spec fn child_pos_x(t: DockTable, x: int, i: int) -> int {
    if t.vertical_align {
        x
    } else {
        x + offset_sum(t.dock_cells@, i, false)
    }
}

/// The y coordinate handed to the `i`-th child of a table at `y`:
/// vertical stacking offsets downward in screen space.
pub open spec fn child_pos_y(t: DockTable, y: int, i: int) -> int {
    if t.vertical_align {
        y - offset_sum(t.dock_cells@, i, true)
    } else {
        y
    }
}

/// Relates a cell before a `set_position` pass rooted at `(x, y)` to the
/// cell after it: identifiers, orientations, extents and membership are
/// kept; every stored position is recomputed from the pass's input, the
/// tree's structure and the stored extents alone.
pub open spec fn pos_applied(a: DockCell, b: DockCell, x: int, y: int) -> bool
    decreases a,
{
    match a {
        DockCell::Group(ga) => b == DockCell::Group(group_with_pos(ga, x, y)),
        DockCell::Table(ta) => {
            let n = ta.dock_cells@.len() as int;
            &&& b matches DockCell::Table(tb)
            &&& tb.id == ta.id
            &&& tb.vertical_align == ta.vertical_align
            &&& tb.rect == rect_with_pos(ta.rect, x, y)
            &&& tb.dock_cells@.len() == n
            &&& forall|i: int|
                0 <= i < n ==> pos_applied(
                    #[trigger] ta.dock_cells@[i],
                    tb.dock_cells@[i],
                    child_pos_x(ta, x, i),
                    child_pos_y(ta, y, i),
                )
        },
    }
}

/// Bounds on the position a layout pass accepts for a subtree of the
/// given node count; the slack grows as the count shrinks, because each
/// level of offsetting can move a position by at most an extent plus the
/// padding, and extents are bounded.
pub open spec fn pos_input_ok(x: int, y: int, count: nat) -> bool {
    let lim = 500_000_000 - 400_005 * count as int;
    &&& count <= MAX_CELLS as int
    &&& -lim <= x <= lim
    &&& -lim <= y <= lim
}

/// Every group in the subtree holds at most `bound` dock references.
pub open spec fn group_counts_within(c: DockCell, bound: int) -> bool
    decreases c,
{
    match c {
        DockCell::Group(g) => g.dock_ids@.len() <= bound,
        DockCell::Table(t) => forall|i: int|
            0 <= i < t.dock_cells@.len() ==> group_counts_within(#[trigger] t.dock_cells@[i], bound),
    }
}

/// Every group in the subtree holds at most `MAX_CELLS` dock references.
pub open spec fn group_counts_ok(c: DockCell) -> bool {
    group_counts_within(c, MAX_CELLS as int)
}

/// Whether some group of the subtree lists the dock.
pub open spec fn cell_mentions_dock(c: DockCell, dock_id: u32) -> bool
    decreases c,
{
    match c {
        DockCell::Group(g) => g.dock_ids@.contains(dock_id),
        DockCell::Table(t) => exists|i: int|
            0 <= i < t.dock_cells@.len() && cell_mentions_dock(#[trigger] t.dock_cells@[i], dock_id),
    }
}

/// Every tab width in the registry is nonnegative and bounded.
pub open spec fn docks_tabs_ok(docks: Seq<Dock>) -> bool {
    forall|k: int|
        0 <= k < docks.len() ==> 0 <= (#[trigger] docks[k]).tab_rect.width <= DIM_BOUND
}

/// The second dock is the first with at most its tab position changed.
pub open spec fn dock_pos_only_changed(a: Dock, b: Dock) -> bool {
    b == (Dock {
        tab_rect: Rectangle {
            x: b.tab_rect.x,
            y: b.tab_rect.y,
            width: a.tab_rect.width,
            height: a.tab_rect.height,
        },
        ..a
    })
}

/// The registry after a layout pass: same docks in the same order, each
/// with at most its tab position changed.
pub open spec fn docks_repositioned(a: Seq<Dock>, b: Seq<Dock>) -> bool {
    &&& a.len() == b.len()
    &&& forall|k: int| 0 <= k < a.len() ==> dock_pos_only_changed(a[k], #[trigger] b[k])
}

/// The first dock of the registry carrying the identifier, if any.
pub open spec fn spec_find_dock(docks: Seq<Dock>, id: u32) -> Option<Dock>
    decreases docks.len(),
{
    if docks.len() == 0 {
        None
    } else if docks.first().id == id {
        Some(docks.first())
    } else {
        spec_find_dock(docks.drop_first(), id)
    }
}

/// Offset of the `m`-th tab of a strip from the strip's first tab slot:
/// the widths of the tabs ahead of it whose docks the registry knows,
/// plus the gap after each.
pub open spec fn tabs_prefix(ids: Seq<u32>, docks: Seq<Dock>, m: int) -> int
    decreases m,
{
    if m <= 0 {
        0
    } else {
        tabs_prefix(ids, docks, m - 1) + match spec_find_dock(docks, ids[m - 1]) {
            Some(d) => d.tab_rect.width as int + TAB_GAP as int,
            None => 0,
        }
    }
}

/// A dock found at a first-occurrence index is what the find yields.
proof fn lemma_find_dock_at(docks: Seq<Dock>, id: u32, k: int)
    requires
        0 <= k < docks.len(),
        docks[k].id == id,
        forall|j: int| 0 <= j < k ==> docks[j].id != id,
    ensures
        spec_find_dock(docks, id) == Some(docks[k]),
    decreases k,
{
    if k == 0 {
        assert(docks[0] == docks.first());
    } else {
        assert(docks[0] == docks.first());
        lemma_find_dock_at(docks.drop_first(), id, k - 1);
        assert(docks.drop_first()[k - 1] == docks[k]);
    }
}

/// Absence of the identifier makes the find yield nothing.
proof fn lemma_find_dock_none(docks: Seq<Dock>, id: u32)
    requires
        forall|j: int| 0 <= j < docks.len() ==> docks[j].id != id,
    ensures
        spec_find_dock(docks, id) is None,
    decreases docks.len(),
{
    if docks.len() > 0 {
        assert(docks[0] == docks.first());
        lemma_find_dock_none(docks.drop_first(), id);
    }
}

/// Repositioning docks moves what a find yields by at most its tab
/// position.
proof fn lemma_find_dock_repositioned(a: Seq<Dock>, b: Seq<Dock>, id: u32)
    requires
        docks_repositioned(a, b),
    ensures
        spec_find_dock(a, id) is None <==> spec_find_dock(b, id) is None,
        spec_find_dock(a, id) matches Some(da) ==> spec_find_dock(b, id) matches Some(db)
            && dock_pos_only_changed(da, db),
    decreases a.len(),
{
    if a.len() > 0 {
        assert(a[0] == a.first() && b[0] == b.first());
        if a.first().id == id {
        } else {
            assert(forall|k: int|
                0 <= k < a.drop_first().len() ==> a.drop_first()[k] == a[k + 1]
                    && b.drop_first()[k] == b[k + 1]);
            lemma_find_dock_repositioned(a.drop_first(), b.drop_first(), id);
        }
    }
}

/// Repositioning keeps every tab-strip offset, because it keeps every
/// width and every identifier.
proof fn lemma_tabs_prefix_repositioned(ids: Seq<u32>, a: Seq<Dock>, b: Seq<Dock>, m: int)
    requires
        docks_repositioned(a, b),
        m <= ids.len(),
    ensures
        tabs_prefix(ids, a, m) == tabs_prefix(ids, b, m),
    decreases m,
{
    if m > 0 {
        lemma_tabs_prefix_repositioned(ids, a, b, m - 1);
        lemma_find_dock_repositioned(a, b, ids[m - 1]);
    }
}

/// Offsets over bounded tab widths are bounded.
proof fn lemma_tabs_prefix_bound(ids: Seq<u32>, docks: Seq<Dock>, m: int)
    requires
        docks_tabs_ok(docks),
        0 <= m,
    ensures
        0 <= tabs_prefix(ids, docks, m) <= m * (DIM_BOUND as int + TAB_GAP as int),
    decreases m,
{
    if m > 0 {
        lemma_tabs_prefix_bound(ids, docks, m - 1);
        match spec_find_dock(docks, ids[m - 1]) {
            Some(d) => {
                lemma_find_dock_width(docks, ids[m - 1]);
            },
            None => {},
        }
    }
}

/// What a find yields came out of the registry, so its width obeys the
/// registry's bounds.
proof fn lemma_find_dock_width(docks: Seq<Dock>, id: u32)
    requires
        docks_tabs_ok(docks),
    ensures
        spec_find_dock(docks, id) matches Some(d) ==> 0 <= d.tab_rect.width <= DIM_BOUND,
    decreases docks.len(),
{
    if docks.len() > 0 {
        assert(docks[0] == docks.first());
        if docks.first().id == id {
        } else {
            assert(forall|k: int|
                0 <= k < docks.drop_first().len() ==> docks.drop_first()[k] == docks[k + 1]);
            lemma_find_dock_width(docks.drop_first(), id);
        }
    }
}

/// Offsets over bounded extents are bounded.
proof fn lemma_offset_sum_bound(s: Seq<DockCell>, i: int, vertical: bool)
    requires
        0 <= i <= s.len(),
        forall|j: int| 0 <= j < s.len() ==> cell_dims_bounded(#[trigger] s[j]),
    ensures
        -(i * 400_005) <= offset_sum(s, i, vertical) <= i * 400_005,
    decreases i,
{
    if i > 0 {
        lemma_offset_sum_bound(s, i - 1, vertical);
        assert(cell_dims_bounded(s[i - 1]));
        assert(DIM_BOUND == 200_000i32 && PADDING == 5i32);
        assert(-400_000 <= cell_extent(s[i - 1], vertical) <= 400_000);
    }
}

/// Replaces the dock at an index with the same dock at a new tab
/// position.
fn reposition_dock(docks: &mut Vec<Dock>, k: usize, x: i32, y: i32)
    requires
        k < old(docks)@.len(),
    ensures
        final(docks)@ == old(docks)@.update(
            k as int,
            Dock {
                tab_rect: Rectangle {
                    x,
                    y,
                    width: old(docks)@[k as int].tab_rect.width,
                    height: old(docks)@[k as int].tab_rect.height,
                },
                ..old(docks)@[k as int]
            },
        ),
{
    let mut d = docks.remove(k);
    d.set_tab_position(x, y);
    docks.insert(k, d);
    proof {
        assert(docks@ =~= old(docks)@.update(
            k as int,
            Dock {
                tab_rect: Rectangle {
                    x,
                    y,
                    width: old(docks)@[k as int].tab_rect.width,
                    height: old(docks)@[k as int].tab_rect.height,
                },
                ..old(docks)@[k as int]
            },
        ));
    }
}

/// Repositioning is transitive.
proof fn lemma_repositioned_trans(a: Seq<Dock>, b: Seq<Dock>, c: Seq<Dock>)
    requires
        docks_repositioned(a, b),
        docks_repositioned(b, c),
    ensures
        docks_repositioned(a, c),
{
}

/// A find is unmoved by replacing a dock that keeps its identifier, for
/// queries about any other identifier.
proof fn lemma_find_dock_update_other(docks: Seq<Dock>, k: int, d: Dock, id: u32)
    requires
        0 <= k < docks.len(),
        d.id == docks[k].id,
        id != docks[k].id,
    ensures
        spec_find_dock(docks.update(k, d), id) == spec_find_dock(docks, id),
    decreases k,
{
    let u = docks.update(k, d);
    assert(docks[0] == docks.first() && u[0] == u.first());
    if k == 0 {
        assert(u.drop_first() =~= docks.drop_first());
    } else {
        assert(u.drop_first() =~= docks.drop_first().update(k - 1, d));
        lemma_find_dock_update_other(docks.drop_first(), k - 1, d, id);
    }
}

/// Applies a `set_position` pass to a group: the tab strip lands at the
/// given position, the content area one strip height below it in screen
/// space, and the tabs are laid left-to-right, each offset by the prior
/// tabs' widths plus the gap; a dock reference the registry does not
/// know is skipped.
/// The side condition under which a dock's tab position is pinned at
/// the tree level: the registry lists the dock's identifier only at
/// index `k`, and at most one strip entry of the subtree carries it.
pub open spec fn tab_unique(c: DockCell, docks0: Seq<Dock>, k: int) -> bool {
    &&& 0 <= k < docks0.len()
    &&& dock_listings(c, docks0[k].id) <= 1
    &&& forall|k2: int|
        0 <= k2 < docks0.len() && (#[trigger] docks0[k2]).id == docks0[k].id ==> k2 == k
}

/// Where a position pass leaves the tab of the dock at registry index
/// `k`: if some group of the laid-out subtree lists it, its tab sits in
/// that group's strip at the first-tab inset plus the widths (and gaps)
/// of the tabs ahead of it.
pub open spec fn tab_placed(b: DockCell, docks0: Seq<Dock>, docks1: Seq<Dock>, k: int) -> bool {
    match spec_group_of_dock(b, docks0[k].id) {
        Some(g) => forall|m: int|
            0 <= m < g.dock_ids@.len() && (#[trigger] g.dock_ids@[m]) == docks0[k].id ==> {
                &&& docks1[k].tab_rect.x as int == g.tabs_rect.x + TAB_START_OFFSET as int
                    + tabs_prefix(g.dock_ids@, docks0, m)
                &&& docks1[k].tab_rect.y == g.tabs_rect.y
            },
        None => true,
    }
}

/// A placement statement may swap its width source for a repositioned
/// registry with the same identifier at `k`: widths and identifiers are
/// what the statement reads, and both are kept.
proof fn lemma_tab_placed_docks0_shift(
    b: DockCell,
    d0: Seq<Dock>,
    d0b: Seq<Dock>,
    d1: Seq<Dock>,
    k: int,
)
    requires
        0 <= k < d0.len(),
        docks_repositioned(d0, d0b),
        tab_placed(b, d0b, d1, k),
    ensures
        tab_placed(b, d0, d1, k),
{
    assert(d0b[k].id == d0[k].id);
    match spec_group_of_dock(b, d0[k].id) {
        Some(g) => {
            assert forall|m: int|
                0 <= m < g.dock_ids@.len() && (#[trigger] g.dock_ids@[m]) == d0[k].id implies {
                &&& d1[k].tab_rect.x as int == g.tabs_rect.x + TAB_START_OFFSET as int
                    + tabs_prefix(g.dock_ids@, d0, m)
                &&& d1[k].tab_rect.y == g.tabs_rect.y
            } by {
                lemma_tabs_prefix_repositioned(g.dock_ids@, d0, d0b, m);
            }
        },
        None => {},
    }
}

/// A placement statement only reads the positioned registry at `k`.
proof fn lemma_tab_placed_docks1_stable(
    b: DockCell,
    d0: Seq<Dock>,
    d1a: Seq<Dock>,
    d1b: Seq<Dock>,
    k: int,
)
    requires
        0 <= k < d0.len(),
        0 <= k < d1a.len(),
        0 <= k < d1b.len(),
        d1a[k] == d1b[k],
        tab_placed(b, d0, d1a, k),
    ensures
        tab_placed(b, d0, d1b, k),
{
}

pub fn set_position_group(g: DockGroup, x: i32, y: i32, docks: &mut Vec<Dock>) -> (r: DockGroup)
    requires
        -600_000_000 <= x <= 600_000_000,
        -600_000_000 <= y <= 600_000_000,
        g.dock_ids@.len() <= MAX_CELLS,
        docks_tabs_ok(old(docks)@),
    ensures
        r == group_with_pos(g, x as int, y as int),
        docks_repositioned(old(docks)@, final(docks)@),
        forall|k: int|
            0 <= k < old(docks)@.len() && !g.dock_ids@.contains((#[trigger] old(docks)@[k]).id)
                ==> final(docks)@[k] == old(docks)@[k],
        forall|m: int|
            {
                &&& 0 <= m < g.dock_ids@.len()
                &&& (forall|m2: int|
                    0 <= m2 < g.dock_ids@.len() && m2 != m ==> g.dock_ids@[m2] != g.dock_ids@[m])
            } ==> (#[trigger] spec_find_dock(final(docks)@, g.dock_ids@[m]) matches Some(d) ==> {
                &&& d.tab_rect.x as int == x + TAB_START_OFFSET + tabs_prefix(
                    g.dock_ids@,
                    old(docks)@,
                    m,
                )
                &&& d.tab_rect.y == y
            }),
        forall|k: int|
            tab_unique(DockCell::Group(g), old(docks)@, k) ==> #[trigger] tab_placed(
                DockCell::Group(r),
                old(docks)@,
                final(docks)@,
                k,
            ),
{
    let ghost g0 = g;
    let ghost docks0 = docks@;
    let mut g = g;
    g.tabs_rect.x = x;
    g.tabs_rect.y = y;
    g.docks_rect.x = x;
    g.docks_rect.y = ((y as i64) - (TAB_STRIP_HEIGHT as i64)) as i32;
    let ghost gfixed = g;
    let ghost ids = g.dock_ids@;
    let mut offx: i64 = TAB_START_OFFSET as i64;
    let mut m: usize = 0;
    proof {
        assert(DIM_BOUND == 200_000i32 && TAB_GAP == 8i32 && TAB_START_OFFSET == 5i32);
    }
    while m < g.dock_ids.len()
        invariant
            g == gfixed,
            -600_000_000 <= x <= 600_000_000,
            -600_000_000 <= y <= 600_000_000,
            ids == g.dock_ids@,
            ids.len() <= MAX_CELLS,
            0 <= m <= ids.len(),
            docks_tabs_ok(docks0),
            docks_repositioned(docks0, docks@),
            forall|k: int|
                0 <= k < docks0.len() && !ids.contains((#[trigger] docks0[k]).id) ==> docks@[k]
                    == docks0[k],
            offx == TAB_START_OFFSET as int + tabs_prefix(ids, docks0, m as int),
            TAB_START_OFFSET as int <= offx <= TAB_START_OFFSET as int + (m as int) * 200_008,
            forall|mp: int|
                {
                    &&& 0 <= mp < m
                    &&& (forall|m2: int| 0 <= m2 < ids.len() && m2 != mp ==> ids[m2] != ids[mp])
                } ==> (#[trigger] spec_find_dock(docks@, ids[mp]) matches Some(d) ==> {
                    &&& d.tab_rect.x as int == x + TAB_START_OFFSET + tabs_prefix(ids, docks0, mp)
                    &&& d.tab_rect.y == y
                }),
        decreases ids.len() - m,
    {
        let ghost docks_pre = docks@;
        let id = g.dock_ids[m];
        match find_dock_index(docks, id) {
            Some(k) => {
                let width = docks[k].tab_rect.width;
                proof {
                    assert(dock_pos_only_changed(docks0[k as int], docks@[k as int]));
                    assert(0 <= width <= DIM_BOUND);
                    lemma_tabs_prefix_bound(ids, docks0, m as int);
                }
                let tab_x = ((x as i64) + offx) as i32;
                reposition_dock(docks, k, tab_x, y);
                proof {
                    let ghost knew = docks@[k as int];
                    assert(docks_repositioned(docks_pre, docks@));
                    lemma_repositioned_trans(docks0, docks_pre, docks@);
                    // the freshly placed tab is what a find on its identifier yields
                    assert forall|j: int| 0 <= j < k implies docks@[j].id != id by {
                        assert(dock_pos_only_changed(docks_pre[j], docks@[j]));
                    }
                    lemma_find_dock_at(docks@, id, k as int);
                    // finds about other identifiers are unmoved
                    assert forall|mp: int|
                        {
                            &&& 0 <= mp < m + 1
                            &&& (forall|m2: int|
                                0 <= m2 < ids.len() && m2 != mp ==> ids[m2] != ids[mp])
                        } implies (#[trigger] spec_find_dock(docks@, ids[mp]) matches Some(d)
                        ==> {
                        &&& d.tab_rect.x as int == x + TAB_START_OFFSET + tabs_prefix(
                            ids,
                            docks0,
                            mp,
                        )
                        &&& d.tab_rect.y == y
                    }) by {
                        if mp < m {
                            assert(ids[mp] != id);
                            lemma_find_dock_update_other(docks_pre, k as int, knew, ids[mp]);
                        } else {
                            assert(spec_find_dock(docks@, id) == Some(knew));
                        }
                    }
                    // the running offset stays the spec's prefix sum
                    lemma_find_dock_repositioned(docks0, docks_pre, id);
                    assert(spec_find_dock(docks0, id) matches Some(d0) && d0.tab_rect.width
                        == width);
                }
                offx = offx + (width as i64) + (TAB_GAP as i64);
            },
            None => {
                proof {
                    lemma_find_dock_repositioned(docks0, docks_pre, id);
                    assert(spec_find_dock(docks0, id) is None);
                }
            },
        }
        m = m + 1;
    }
    proof {
        assert forall|k: int| tab_unique(DockCell::Group(g0), docks0, k) implies tab_placed(
            DockCell::Group(g),
            docks0,
            docks@,
            k,
        ) by {
            let id = docks0[k].id;
            assert(DockCell::Group(g0) matches DockCell::Group(gx) && gx == g0);
            assert(DockCell::Group(g) matches DockCell::Group(gy) && gy == g);
            if g.dock_ids@.contains(id) {
                assert(spec_group_of_dock(DockCell::Group(g), id) == Some(g));
                assert forall|mm: int|
                    0 <= mm < g.dock_ids@.len() && (#[trigger] g.dock_ids@[mm]) == id implies {
                    &&& docks@[k].tab_rect.x as int == g.tabs_rect.x + TAB_START_OFFSET as int
                        + tabs_prefix(g.dock_ids@, docks0, mm)
                    &&& docks@[k].tab_rect.y == g.tabs_rect.y
                } by {
                    assert(count_in(g0.dock_ids@, id) <= 1);
                    assert forall|m2: int|
                        0 <= m2 < ids.len() && m2 != mm implies ids[m2] != ids[mm] by {
                        if ids[m2] == id {
                            if m2 < mm {
                                lemma_count_in_two(ids, id, m2, mm);
                            } else {
                                lemma_count_in_two(ids, id, mm, m2);
                            }
                        }
                    }
                    assert forall|j: int| 0 <= j < k implies docks@[j].id != id by {
                        assert(dock_pos_only_changed(docks0[j], docks@[j]));
                    }
                    assert(dock_pos_only_changed(docks0[k as int], docks@[k as int]));
                    lemma_find_dock_at(docks@, id, k);
                    assert(spec_find_dock(docks@, ids[mm]) == Some(docks@[k]));
                }
            } else {
                assert(spec_group_of_dock(DockCell::Group(g), id) is None);
            }
        }
    }
    g
}

/// Applies a `set_position` pass to one cell, returning the new cell.
pub fn set_position_cell(c: DockCell, x: i32, y: i32, docks: &mut Vec<Dock>) -> (r: DockCell)
    requires
        pos_input_ok(x as int, y as int, cell_count(c)),
        cell_dims_bounded(c),
        group_counts_ok(c),
        docks_tabs_ok(old(docks)@),
    ensures
        pos_applied(c, r, x as int, y as int),
        docks_repositioned(old(docks)@, final(docks)@),
        forall|k: int|
            0 <= k < old(docks)@.len() && !cell_mentions_dock(c, (#[trigger] old(docks)@[k]).id)
                ==> final(docks)@[k] == old(docks)@[k],
        forall|k: int|
            tab_unique(c, old(docks)@, k) ==> #[trigger] tab_placed(
                r,
                old(docks)@,
                final(docks)@,
                k,
            ),
    decreases cell_count(c), 0nat,
{
    match c {
        DockCell::Table(t) => {
            proof {
                lemma_cell_count_at_least_one(DockCell::Table(t));
            }
            let r = set_position_table(t, x, y, docks);
            proof {
                assert(DockCell::Table(t) matches DockCell::Table(tx) && tx == t);
                assert(DockCell::Table(r) matches DockCell::Table(rx) && rx == r);
            }
            DockCell::Table(r)
        },
        DockCell::Group(g) => {
            let r = set_position_group(g, x, y, docks);
            proof {
                assert(DockCell::Group(g) matches DockCell::Group(gx) && gx == g);
                assert(DockCell::Group(r) matches DockCell::Group(rx) && rx == r);
            }
            DockCell::Group(r)
        },
    }
}

/// Applies a `set_position` pass to a table: it stores the position and
/// places each child sequentially along the orientation axis, offsetting
/// by each prior child's extent plus the fixed padding; the orthogonal
/// coordinate passes through unchanged.
pub fn set_position_table(t: DockTable, x: i32, y: i32, docks: &mut Vec<Dock>) -> (r: DockTable)
    requires
        pos_input_ok(x as int, y as int, cell_count(DockCell::Table(t))),
        cell_dims_bounded(DockCell::Table(t)),
        group_counts_ok(DockCell::Table(t)),
        docks_tabs_ok(old(docks)@),
    ensures
        pos_applied(DockCell::Table(t), DockCell::Table(r), x as int, y as int),
        docks_repositioned(old(docks)@, final(docks)@),
        forall|k: int|
            0 <= k < old(docks)@.len() && !cell_mentions_dock(
                DockCell::Table(t),
                (#[trigger] old(docks)@[k]).id,
            ) ==> final(docks)@[k] == old(docks)@[k],
        forall|k: int|
            tab_unique(DockCell::Table(t), old(docks)@, k) ==> #[trigger] tab_placed(
                DockCell::Table(r),
                old(docks)@,
                final(docks)@,
                k,
            ),
    decreases cell_count_seq(t.dock_cells@), 1nat,
{
    let ghost t0 = t;
    let ghost s0 = t.dock_cells@;
    let ghost docks0 = docks@;
    let mut t = t;
    t.rect.x = x;
    t.rect.y = y;
    proof {
        lemma_cell_count_seq_ge_len(s0);
        assert(cell_count(DockCell::Table(t0)) == 1 + cell_count_seq(s0));
        assert(s0.len() <= cell_count_seq(s0) <= MAX_CELLS as int - 1);
    }
    let mut offset: i64 = 0;
    let mut out: Vec<DockCell> = Vec::new();
    #[verifier::loop_isolation(false)]
    while t.dock_cells.len() > 0
        invariant
            t.id == t0.id,
            t.vertical_align == t0.vertical_align,
            t.rect == rect_with_pos(t0.rect, x as int, y as int),
            out@.len() + t.dock_cells@.len() == s0.len(),
            t.dock_cells@ == s0.subrange(out@.len() as int, s0.len() as int),
            offset == offset_sum(s0, out@.len() as int, t0.vertical_align),
            -((out@.len() as int) * 400_005) <= offset <= (out@.len() as int) * 400_005,
            forall|i: int|
                0 <= i < out@.len() ==> pos_applied(
                    s0[i],
                    #[trigger] out@[i],
                    child_pos_x(t0, x as int, i),
                    child_pos_y(t0, y as int, i),
                ),
            docks_repositioned(docks0, docks@),
            forall|k: int|
                0 <= k < docks0.len() && !cell_mentions_dock(
                    DockCell::Table(t0),
                    (#[trigger] docks0[k]).id,
                ) ==> docks@[k] == docks0[k],
            forall|k: int, j: int|
                {
                    &&& tab_unique(DockCell::Table(t0), docks0, k)
                    &&& 0 <= j < out@.len()
                    &&& cell_mentions_dock(s0[j], docks0[k].id)
                } ==> #[trigger] tab_placed(out@[j], docks0, docks@, k),
        decreases t.dock_cells@.len(),
    {
        let ghost done = out@.len() as int;
        let ghost docks_pre = docks@;
        let child = t.dock_cells.remove(0);
        proof {
            assert(child == s0[done]);
            lemma_cell_count_seq_index(s0, done);
            assert(t.dock_cells@ == s0.subrange(done + 1, s0.len() as int));
            assert(cell_dims_bounded(child) && group_counts_ok(child));
            assert(DIM_BOUND == 200_000i32 && PADDING == 5i32);
        }
        let cpx: i32 = if t.vertical_align {
            x
        } else {
            ((x as i64) + offset) as i32
        };
        let cpy: i32 = if t.vertical_align {
            ((y as i64) - offset) as i32
        } else {
            y
        };
        proof {
            assert(cpx as int == child_pos_x(t0, x as int, done));
            assert(cpy as int == child_pos_y(t0, y as int, done));
            assert(pos_input_ok(cpx as int, cpy as int, cell_count(child)));
        }
        let ext = cell_extent_exec(&child, t.vertical_align);
        let child2 = set_position_cell(child, cpx, cpy, docks);
        proof {
            lemma_repositioned_trans(docks0, docks_pre, docks@);
            assert forall|k: int|
                0 <= k < docks0.len() && !cell_mentions_dock(
                    DockCell::Table(t0),
                    (#[trigger] docks0[k]).id,
                ) implies docks@[k] == docks0[k] by {
                assert(dock_pos_only_changed(docks0[k], docks_pre[k]));
                assert(docks_pre[k].id == docks0[k].id);
                assert(!cell_mentions_dock(child, docks0[k].id));
            }
            assert(DockCell::Table(t0) matches DockCell::Table(t0x) && t0x == t0);
            assert forall|k: int, j: int|
                {
                    &&& tab_unique(DockCell::Table(t0), docks0, k)
                    &&& 0 <= j < out@.len() + 1
                    &&& cell_mentions_dock(s0[j], docks0[k].id)
                } implies #[trigger] tab_placed(out@.push(child2)[j], docks0, docks@, k) by {
                let id = docks0[k].id;
                lemma_dock_listings_seq_index(s0, id, j);
                lemma_listings_mentions(s0[j], id);
                if j < out@.len() {
                    // an earlier child carries the placement; this pass
                    // cannot have touched the dock, whose only strip
                    // entry lies in that earlier subtree
                    assert(out@.push(child2)[j] == out@[j]);
                    assert(tab_placed(out@[j], docks0, docks_pre, k));
                    lemma_dock_listings_seq_two(s0, id, j, done);
                    lemma_listings_mentions(s0[done], id);
                    assert(!cell_mentions_dock(child, id));
                    assert(docks_pre[k].id == id);
                    assert(docks@[k] == docks_pre[k]);
                    lemma_tab_placed_docks1_stable(out@[j], docks0, docks_pre, docks@, k);
                } else {
                    // the placement comes from this pass's own call
                    assert(out@.push(child2)[j] == child2);
                    assert(docks_pre[k].id == id);
                    assert forall|k2: int|
                        0 <= k2 < docks_pre.len() && (#[trigger] docks_pre[k2]).id
                            == docks_pre[k].id implies k2 == k by {
                        assert(dock_pos_only_changed(docks0[k2], docks_pre[k2]));
                    }
                    assert(tab_unique(child, docks_pre, k));
                    assert(tab_placed(child2, docks_pre, docks@, k));
                    lemma_tab_placed_docks0_shift(child2, docks0, docks_pre, docks@, k);
                }
            }
        }
        offset = offset + ext + (PADDING as i64);
        out.push(child2);
    }
    proof {
        assert(out@.len() == s0.len());
    }
    t.dock_cells = out;
    proof {
        let nn = t0.dock_cells@.len() as int;
        assert forall|i: int| 0 <= i < nn implies pos_applied(
            #[trigger] t0.dock_cells@[i],
            t.dock_cells@[i],
            child_pos_x(t0, x as int, i),
            child_pos_y(t0, y as int, i),
        ) by {}
        assert(pos_applied(DockCell::Table(t0), DockCell::Table(t), x as int, y as int));
        assert(DockCell::Table(t0) matches DockCell::Table(t0x) && t0x == t0);
        assert(DockCell::Table(t) matches DockCell::Table(tx2) && tx2 == t);
        assert forall|k: int| tab_unique(DockCell::Table(t0), docks0, k) implies tab_placed(
            DockCell::Table(t),
            docks0,
            docks@,
            k,
        ) by {
            let id = docks0[k].id;
            lemma_listings_mentions(DockCell::Table(t0), id);
            if dock_listings(DockCell::Table(t0), id) == 0 {
                // no strip of the subtree lists the dock, before or after
                lemma_pos_applied_preserves_mentions(
                    DockCell::Table(t0),
                    DockCell::Table(t),
                    x as int,
                    y as int,
                    id,
                );
                lemma_group_of_absent(DockCell::Table(t), id);
            } else {
                // exactly one strip entry, inside exactly one child
                lemma_listings_seq_nonzero(s0, id);
                let j = choose|j: int|
                    0 <= j < s0.len() && dock_listings(#[trigger] s0[j], id) >= 1;
                lemma_listings_mentions(s0[j], id);
                assert forall|l: int| 0 <= l < nn && l != j implies !cell_mentions_dock(
                    #[trigger] s0[l],
                    id,
                ) by {
                    if cell_mentions_dock(s0[l], id) {
                        lemma_listings_mentions(s0[l], id);
                        if l < j {
                            lemma_dock_listings_seq_two(s0, id, l, j);
                        } else {
                            lemma_dock_listings_seq_two(s0, id, j, l);
                        }
                    }
                }
                assert forall|l: int| 0 <= l < j implies spec_group_of_dock(
                    #[trigger] t.dock_cells@[l],
                    id,
                ) is None by {
                    lemma_pos_applied_preserves_mentions(
                        s0[l],
                        t.dock_cells@[l],
                        child_pos_x(t0, x as int, l),
                        child_pos_y(t0, y as int, l),
                        id,
                    );
                    lemma_group_of_absent(t.dock_cells@[l], id);
                }
                lemma_pos_applied_preserves_mentions(
                    s0[j],
                    t.dock_cells@[j],
                    child_pos_x(t0, x as int, j),
                    child_pos_y(t0, y as int, j),
                    id,
                );
                lemma_group_of_present(t.dock_cells@[j], id);
                lemma_group_of_cells_first(t.dock_cells@, id, j);
                assert(tab_placed(t.dock_cells@[j], docks0, docks@, k));
                assert(spec_group_of_dock(DockCell::Table(t), id) == spec_group_of_dock(
                    t.dock_cells@[j],
                    id,
                ));
            }
        }
    }
    t
}

/// The extent a cell reports to its parent along the given axis.
fn cell_extent_exec(c: &DockCell, vertical: bool) -> (e: i64)
    requires
        cell_dims_bounded(*c),
    ensures
        e == cell_extent(*c, vertical),
        -400_000 <= e <= 400_000,
{
    proof {
        assert(DIM_BOUND == 200_000i32);
    }
    match c {
        DockCell::Table(t) => if vertical {
            t.rect.height as i64
        } else {
            t.rect.width as i64
        },
        DockCell::Group(g) => if vertical {
            (g.tabs_rect.height as i64) + (g.docks_rect.height as i64)
        } else {
            g.tabs_rect.width as i64
        },
    }
}

/// How often a strip lists the identifier.
pub open spec fn count_in(ids: Seq<u32>, id: u32) -> nat
    decreases ids.len(),
{
    if ids.len() == 0 {
        0
    } else {
        (if ids.first() == id {
            1nat
        } else {
            0nat
        }) + count_in(ids.drop_first(), id)
    }
}

/// A strip with an occurrence counts it.
proof fn lemma_count_in_at(ids: Seq<u32>, id: u32, m: int)
    requires
        0 <= m < ids.len(),
        ids[m] == id,
    ensures
        count_in(ids, id) >= 1,
    decreases m,
{
    if m == 0 {
        assert(ids[0] == ids.first());
    } else {
        assert(ids.drop_first()[m - 1] == ids[m]);
        lemma_count_in_at(ids.drop_first(), id, m - 1);
    }
}

/// A strip with two distinct occurrences counts at least two.
proof fn lemma_count_in_two(ids: Seq<u32>, id: u32, m: int, m2: int)
    requires
        0 <= m < m2 < ids.len(),
        ids[m] == id,
        ids[m2] == id,
    ensures
        count_in(ids, id) >= 2,
    decreases m,
{
    if m == 0 {
        assert(ids[0] == ids.first());
        assert(ids.drop_first()[m2 - 1] == ids[m2]);
        lemma_count_in_at(ids.drop_first(), id, m2 - 1);
    } else {
        assert(ids.drop_first()[m - 1] == ids[m]);
        assert(ids.drop_first()[m2 - 1] == ids[m2]);
        lemma_count_in_two(ids.drop_first(), id, m - 1, m2 - 1);
    }
}

/// A strip that counts no occurrence has none.
proof fn lemma_count_in_zero(ids: Seq<u32>, id: u32)
    requires
        count_in(ids, id) == 0,
    ensures
        forall|m: int| 0 <= m < ids.len() ==> ids[m] != id,
    decreases ids.len(),
{
    if ids.len() > 0 {
        assert(ids[0] == ids.first());
        lemma_count_in_zero(ids.drop_first(), id);
        assert forall|m: int| 0 <= m < ids.len() implies ids[m] != id by {
            if m > 0 {
                assert(ids.drop_first()[m - 1] == ids[m]);
            }
        }
    }
}

/// How many strip entries across the subtree list the identifier.
pub open spec fn dock_listings(c: DockCell, dock_id: u32) -> nat
    decreases c,
{
    match c {
        DockCell::Group(g) => count_in(g.dock_ids@, dock_id),
        DockCell::Table(t) => dock_listings_seq(t.dock_cells@, dock_id),
    }
}

/// The subtree listing count summed over a sequence of cells.
pub open spec fn dock_listings_seq(s: Seq<DockCell>, dock_id: u32) -> nat
    decreases s,
{
    if s.len() == 0 {
        0
    } else {
        dock_listings(s.first(), dock_id) + dock_listings_seq(s.drop_first(), dock_id)
    }
}

/// A sequence lists the identifier at least as often as any one cell.
proof fn lemma_dock_listings_seq_index(s: Seq<DockCell>, dock_id: u32, i: int)
    requires
        0 <= i < s.len(),
    ensures
        dock_listings_seq(s, dock_id) >= dock_listings(s[i], dock_id),
    decreases i,
{
    if i == 0 {
        assert(s[0] == s.first());
    } else {
        assert(s.drop_first()[i - 1] == s[i]);
        lemma_dock_listings_seq_index(s.drop_first(), dock_id, i - 1);
    }
}

/// A sequence lists the identifier at least as often as any two
/// distinct cells together.
proof fn lemma_dock_listings_seq_two(s: Seq<DockCell>, dock_id: u32, i: int, i2: int)
    requires
        0 <= i < i2 < s.len(),
    ensures
        dock_listings_seq(s, dock_id) >= dock_listings(s[i], dock_id) + dock_listings(
            s[i2],
            dock_id,
        ),
    decreases i,
{
    if i == 0 {
        assert(s[0] == s.first());
        assert(s.drop_first()[i2 - 1] == s[i2]);
        lemma_dock_listings_seq_index(s.drop_first(), dock_id, i2 - 1);
    } else {
        assert(s.drop_first()[i - 1] == s[i]);
        assert(s.drop_first()[i2 - 1] == s[i2]);
        lemma_dock_listings_seq_two(s.drop_first(), dock_id, i - 1, i2 - 1);
    }
}

/// A subtree lists the identifier at least once iff some group of it
/// does.
proof fn lemma_listings_mentions(c: DockCell, dock_id: u32)
    ensures
        (dock_listings(c, dock_id) >= 1) == cell_mentions_dock(c, dock_id),
    decreases c,
{
    match c {
        DockCell::Group(g) => {
            if g.dock_ids@.contains(dock_id) {
                let m = choose|m: int| 0 <= m < g.dock_ids@.len() && g.dock_ids@[m] == dock_id;
                lemma_count_in_at(g.dock_ids@, dock_id, m);
            }
            if count_in(g.dock_ids@, dock_id) >= 1 {
                if !g.dock_ids@.contains(dock_id) {
                    assert(forall|m: int|
                        0 <= m < g.dock_ids@.len() ==> g.dock_ids@[m] != dock_id);
                    lemma_count_in_none(g.dock_ids@, dock_id);
                }
            }
        },
        DockCell::Table(t) => {
            let s = t.dock_cells@;
            if cell_mentions_dock(c, dock_id) {
                let i = choose|i: int|
                    0 <= i < s.len() && cell_mentions_dock(#[trigger] s[i], dock_id);
                lemma_listings_mentions(s[i], dock_id);
                lemma_dock_listings_seq_index(s, dock_id, i);
            }
            if dock_listings(c, dock_id) >= 1 {
                lemma_listings_seq_nonzero(s, dock_id);
                if !cell_mentions_dock(c, dock_id) {
                    let i = choose|i: int|
                        0 <= i < s.len() && dock_listings(#[trigger] s[i], dock_id) >= 1;
                    lemma_listings_mentions(s[i], dock_id);
                }
            }
        },
    }
}

/// A strip that lists nothing counts nothing.
proof fn lemma_count_in_none(ids: Seq<u32>, id: u32)
    requires
        forall|m: int| 0 <= m < ids.len() ==> ids[m] != id,
    ensures
        count_in(ids, id) == 0,
    decreases ids.len(),
{
    if ids.len() > 0 {
        assert(ids[0] == ids.first());
        assert(forall|m: int| 0 <= m < ids.drop_first().len() ==> ids.drop_first()[m] == ids[m + 1]);
        lemma_count_in_none(ids.drop_first(), id);
    }
}

/// A sequence with a nonzero listing count has a cell with one.
proof fn lemma_listings_seq_nonzero(s: Seq<DockCell>, dock_id: u32)
    requires
        dock_listings_seq(s, dock_id) >= 1,
    ensures
        exists|i: int| 0 <= i < s.len() && dock_listings(#[trigger] s[i], dock_id) >= 1,
    decreases s.len(),
{
    if s.len() > 0 {
        if dock_listings(s.first(), dock_id) >= 1 {
            assert(s[0] == s.first());
            assert(dock_listings(s[0], dock_id) >= 1);
        } else {
            lemma_listings_seq_nonzero(s.drop_first(), dock_id);
            let i = choose|i: int|
                0 <= i < s.drop_first().len() && dock_listings(
                    #[trigger] s.drop_first()[i],
                    dock_id,
                ) >= 1;
            assert(s.drop_first()[i] == s[i + 1]);
            assert(dock_listings(s[i + 1], dock_id) >= 1);
        }
    }
}

/// The first group (depth-first) of the subtree that lists the dock.
pub open spec fn spec_group_of_dock(c: DockCell, dock_id: u32) -> Option<DockGroup>
    decreases c,
{
    match c {
        DockCell::Group(g) => if g.dock_ids@.contains(dock_id) {
            Some(g)
        } else {
            None
        },
        DockCell::Table(t) => spec_group_of_dock_cells(t.dock_cells@, dock_id),
    }
}

/// The first non-empty answer among the cells, in order.
pub open spec fn spec_group_of_dock_cells(s: Seq<DockCell>, dock_id: u32) -> Option<DockGroup>
    decreases s,
{
    if s.len() == 0 {
        None
    } else {
        match spec_group_of_dock(s.first(), dock_id) {
            Some(g) => Some(g),
            None => spec_group_of_dock_cells(s.drop_first(), dock_id),
        }
    }
}

/// A subtree with no group listing the dock answers nothing.
proof fn lemma_group_of_absent(c: DockCell, dock_id: u32)
    requires
        !cell_mentions_dock(c, dock_id),
    ensures
        spec_group_of_dock(c, dock_id) is None,
    decreases cell_count(c), 0nat,
{
    match c {
        DockCell::Group(_) => {},
        DockCell::Table(t) => {
            lemma_group_of_cells_absent(t.dock_cells@, dock_id, t);
        },
    }
}

/// As above, over a table's cells.
proof fn lemma_group_of_cells_absent(s: Seq<DockCell>, dock_id: u32, t: DockTable)
    requires
        t.dock_cells@.len() >= s.len(),
        forall|j: int|
            0 <= j < s.len() ==> s[j] == t.dock_cells@[t.dock_cells@.len() - s.len() + j],
        !cell_mentions_dock(DockCell::Table(t), dock_id),
    ensures
        spec_group_of_dock_cells(s, dock_id) is None,
    decreases cell_count_seq(t.dock_cells@), s.len(),
{
    if s.len() > 0 {
        let ghost jfirst = t.dock_cells@.len() - s.len();
        assert(s.first() == t.dock_cells@[jfirst]);
        assert(DockCell::Table(t) matches DockCell::Table(tx) && tx == t);
        assert(!cell_mentions_dock(t.dock_cells@[jfirst], dock_id));
        lemma_cell_count_seq_index(t.dock_cells@, jfirst);
        lemma_group_of_absent(s.first(), dock_id);
        assert(forall|j: int| 0 <= j < s.drop_first().len() ==> s.drop_first()[j] == s[j + 1]);
        lemma_group_of_cells_absent(s.drop_first(), dock_id, t);
    }
}

/// A subtree with a group listing the dock answers one.
proof fn lemma_group_of_present(c: DockCell, dock_id: u32)
    requires
        cell_mentions_dock(c, dock_id),
    ensures
        spec_group_of_dock(c, dock_id) is Some,
    decreases cell_count(c), 0nat,
{
    match c {
        DockCell::Group(_) => {},
        DockCell::Table(t) => {
            assert(DockCell::Table(t) matches DockCell::Table(tx) && tx == t);
            lemma_group_of_cells_present(t.dock_cells@, dock_id);
        },
    }
}

/// As above, over a sequence with some mentioning cell.
proof fn lemma_group_of_cells_present(s: Seq<DockCell>, dock_id: u32)
    requires
        exists|i: int| 0 <= i < s.len() && cell_mentions_dock(#[trigger] s[i], dock_id),
    ensures
        spec_group_of_dock_cells(s, dock_id) is Some,
    decreases cell_count_seq(s), 1nat,
{
    let i = choose|i: int| 0 <= i < s.len() && cell_mentions_dock(#[trigger] s[i], dock_id);
    proof_first_count(s);
    match spec_group_of_dock(s.first(), dock_id) {
        Some(_) => {},
        None => {
            if i == 0 {
                assert(s[0] == s.first());
                lemma_group_of_present(s.first(), dock_id);
            } else {
                assert(s.drop_first()[i - 1] == s[i]);
                lemma_group_of_cells_present(s.drop_first(), dock_id);
            }
        },
    }
}

/// The head of a cell sequence counts at least one node toward the
/// sequence's total.
proof fn proof_first_count(s: Seq<DockCell>)
    requires
        s.len() > 0,
    ensures
        cell_count_seq(s) == cell_count(s.first()) + cell_count_seq(s.drop_first()),
        cell_count(s.first()) >= 1,
{
    lemma_cell_count_at_least_one(s.first());
}

/// The first answer of a cell sequence comes from its first cell whose
/// subtree has one, once the cells ahead of it have none.
proof fn lemma_group_of_cells_first(s: Seq<DockCell>, dock_id: u32, j: int)
    requires
        0 <= j < s.len(),
        forall|l: int| 0 <= l < j ==> spec_group_of_dock(#[trigger] s[l], dock_id) is None,
        spec_group_of_dock(s[j], dock_id) is Some,
    ensures
        spec_group_of_dock_cells(s, dock_id) == spec_group_of_dock(s[j], dock_id),
    decreases j,
{
    assert(s[0] == s.first());
    if j == 0 {
    } else {
        assert(forall|l: int| 0 <= l < s.drop_first().len() ==> s.drop_first()[l] == s[l + 1]);
        lemma_group_of_cells_first(s.drop_first(), dock_id, j - 1);
    }
}

/// A position pass keeps every group's membership, so it keeps which
/// docks a subtree mentions.
proof fn lemma_pos_applied_preserves_mentions(a: DockCell, b: DockCell, x: int, y: int, id: u32)
    requires
        pos_applied(a, b, x, y),
    ensures
        cell_mentions_dock(b, id) == cell_mentions_dock(a, id),
    decreases a,
{
    match a {
        DockCell::Group(_) => {},
        DockCell::Table(ta) => {
            let tb = b->Table_0;
            assert forall|i: int| 0 <= i < ta.dock_cells@.len() implies cell_mentions_dock(
                tb.dock_cells@[i],
                id,
            ) == cell_mentions_dock(#[trigger] ta.dock_cells@[i], id) by {
                assert(pos_applied(
                    ta.dock_cells@[i],
                    tb.dock_cells@[i],
                    child_pos_x(ta, x, i),
                    child_pos_y(ta, y, i),
                ));
                lemma_pos_applied_preserves_mentions(
                    ta.dock_cells@[i],
                    tb.dock_cells@[i],
                    child_pos_x(ta, x, i),
                    child_pos_y(ta, y, i),
                    id,
                );
            }
            if cell_mentions_dock(a, id) {
                let i = choose|i: int|
                    0 <= i < ta.dock_cells@.len() && cell_mentions_dock(
                        #[trigger] ta.dock_cells@[i],
                        id,
                    );
                assert(cell_mentions_dock(tb.dock_cells@[i], id));
            }
            if cell_mentions_dock(b, id) {
                let i = choose|i: int|
                    0 <= i < tb.dock_cells@.len() && cell_mentions_dock(
                        #[trigger] tb.dock_cells@[i],
                        id,
                    );
                assert(cell_mentions_dock(ta.dock_cells@[i], id));
            }
        },
    }
}

/// A sequence extended by one cell counts that cell's nodes on top.
proof fn lemma_cell_count_seq_snoc(s: Seq<DockCell>, c: DockCell)
    ensures
        cell_count_seq(s.push(c)) == cell_count_seq(s) + cell_count(c),
    decreases s.len(),
{
    if s.len() == 0 {
        assert(s.push(c).drop_first() =~= Seq::<DockCell>::empty());
        assert(s.push(c).first() == c);
        assert(cell_count_seq(Seq::<DockCell>::empty()) == 0);
        assert(s =~= Seq::<DockCell>::empty());
    } else {
        assert(s.push(c).first() == s.first());
        assert(s.push(c).drop_first() =~= s.drop_first().push(c));
        lemma_cell_count_seq_snoc(s.drop_first(), c);
    }
}

/// A sequence's node count splits at any position.
proof fn lemma_cell_count_seq_split(s: Seq<DockCell>, i: int)
    requires
        0 <= i <= s.len(),
    ensures
        cell_count_seq(s) == cell_count_seq(s.subrange(0, i)) + cell_count_seq(
            s.subrange(i, s.len() as int),
        ),
    decreases i,
{
    if i == 0 {
        assert(s.subrange(0, 0) =~= Seq::<DockCell>::empty());
        assert(s.subrange(0, s.len() as int) =~= s);
    } else {
        lemma_cell_count_seq_split(s, i - 1);
        assert(s.subrange(0, i) =~= s.subrange(0, i - 1).push(s[i - 1]));
        lemma_cell_count_seq_snoc(s.subrange(0, i - 1), s[i - 1]);
        assert(s.subrange(i - 1, s.len() as int).first() == s[i - 1]);
        assert(s.subrange(i - 1, s.len() as int).drop_first() =~= s.subrange(i, s.len() as int));
    }
}

/// Counts the nodes of a subtree up to a cap: the exact count when it
/// fits, nothing when the subtree is larger. Callers use it to establish
/// the layout passes' tree-size bounds without ghost arithmetic.
pub fn cell_count_upto(c: &DockCell, cap: usize) -> (r: Option<usize>)
    ensures
        r matches Some(n) ==> n == cell_count(*c) && n <= cap,
        r is None ==> cell_count(*c) > cap,
    decreases cell_count(*c), 0nat,
{
    match c {
        DockCell::Group(_) => {
            if cap >= 1 {
                Some(1)
            } else {
                None
            }
        },
        DockCell::Table(t) => {
            proof {
                lemma_cell_count_at_least_one(*c);
            }
            table_count_upto(t, cap)
        },
    }
}

/// The table form of the bounded count.
pub fn table_count_upto(t: &DockTable, cap: usize) -> (r: Option<usize>)
    ensures
        r matches Some(n) ==> n == cell_count(DockCell::Table(*t)) && n <= cap,
        r is None ==> cell_count(DockCell::Table(*t)) > cap,
    decreases cell_count_seq(t.dock_cells@), 1nat,
{
    if cap < 1 {
        proof {
            lemma_cell_count_at_least_one(DockCell::Table(*t));
        }
        return None;
    }
    let ghost s0 = t.dock_cells@;
    let mut acc: usize = 1;
    let mut i: usize = 0;
    #[verifier::loop_isolation(false)]
    while i < t.dock_cells.len()
        invariant
            0 <= i <= s0.len(),
            1 <= acc <= cap,
            acc == 1 + cell_count_seq(s0.subrange(0, i as int)),
        decreases s0.len() - i,
    {
        proof {
            lemma_cell_count_seq_index(s0, i as int);
            lemma_cell_count_seq_split(s0, i as int);
            assert(s0.subrange(i as int, s0.len() as int).first() == s0[i as int]);
            assert(s0.subrange(i as int, s0.len() as int).drop_first() =~= s0.subrange(
                i as int + 1,
                s0.len() as int,
            ));
        }
        let child = &t.dock_cells[i];
        match cell_count_upto(child, cap - acc) {
            Some(n) => {
                acc = acc + n;
                proof {
                    assert(s0.subrange(0, i as int + 1) =~= s0.subrange(0, i as int).push(
                        s0[i as int],
                    ));
                    lemma_cell_count_seq_snoc(s0.subrange(0, i as int), s0[i as int]);
                }
            },
            None => {
                proof {
                    assert(cell_count_seq(s0) >= cell_count_seq(s0.subrange(0, i as int))
                        + cell_count(s0[i as int]));
                }
                return None;
            },
        }
        i = i + 1;
    }
    proof {
        assert(s0.subrange(0, s0.len() as int) =~= s0);
    }
    Some(acc)
}

/// Whether every group of the subtree holds at most `bound` dock
/// references; the executable form of the layout passes' group bound.
pub fn group_counts_within_exec(c: &DockCell, bound: usize) -> (r: bool)
    ensures
        r == group_counts_within(*c, bound as int),
    decreases cell_count(*c),
{
    match c {
        DockCell::Group(g) => g.dock_ids.len() <= bound,
        DockCell::Table(t) => {
            let ghost s0 = t.dock_cells@;
            let mut i: usize = 0;
            #[verifier::loop_isolation(false)]
            while i < t.dock_cells.len()
                invariant
                    0 <= i <= s0.len(),
                    forall|j: int|
                        0 <= j < i ==> group_counts_within(#[trigger] s0[j], bound as int),
                decreases s0.len() - i,
            {
                proof {
                    lemma_cell_count_seq_index(s0, i as int);
                }
                if !group_counts_within_exec(&t.dock_cells[i], bound) {
                    return false;
                }
                i = i + 1;
            }
            true
        },
    }
}

/// Whether every stored extent of the subtree lies within `DIM_BOUND`;
/// the executable form of the position pass's geometry bound.
pub fn cell_dims_bounded_exec(c: &DockCell) -> (r: bool)
    ensures
        r == cell_dims_bounded(*c),
    decreases cell_count(*c),
{
    match c {
        DockCell::Group(g) => {
            -DIM_BOUND <= g.tabs_rect.width && g.tabs_rect.width <= DIM_BOUND && -DIM_BOUND
                <= g.tabs_rect.height && g.tabs_rect.height <= DIM_BOUND && -DIM_BOUND
                <= g.docks_rect.width && g.docks_rect.width <= DIM_BOUND && -DIM_BOUND
                <= g.docks_rect.height && g.docks_rect.height <= DIM_BOUND
        },
        DockCell::Table(t) => {
            if !(-DIM_BOUND <= t.rect.width && t.rect.width <= DIM_BOUND && -DIM_BOUND
                <= t.rect.height && t.rect.height <= DIM_BOUND) {
                return false;
            }
            let ghost s0 = t.dock_cells@;
            let mut i: usize = 0;
            #[verifier::loop_isolation(false)]
            while i < t.dock_cells.len()
                invariant
                    0 <= i <= s0.len(),
                    forall|j: int| 0 <= j < i ==> cell_dims_bounded(#[trigger] s0[j]),
                decreases s0.len() - i,
            {
                proof {
                    lemma_cell_count_seq_index(s0, i as int);
                }
                if !cell_dims_bounded_exec(&t.dock_cells[i]) {
                    return false;
                }
                i = i + 1;
            }
            true
        },
    }
}

/// Whether every registered tab width is nonnegative and bounded; the
/// executable form of the position pass's registry bound.
pub fn docks_tabs_ok_exec(docks: &Vec<Dock>) -> (r: bool)
    ensures
        r == docks_tabs_ok(docks@),
{
    let mut k: usize = 0;
    #[verifier::loop_isolation(false)]
    while k < docks.len()
        invariant
            0 <= k <= docks@.len(),
            forall|j: int|
                0 <= j < k ==> 0 <= (#[trigger] docks@[j]).tab_rect.width <= DIM_BOUND,
        decreases docks@.len() - k,
    {
        if !(0 <= docks[k].tab_rect.width && docks[k].tab_rect.width <= DIM_BOUND) {
            return false;
        }
        k = k + 1;
    }
    true
}

/// Finds the first dock of the registry carrying the identifier.
pub fn find_dock_index(docks: &Vec<Dock>, id: u32) -> (r: Option<usize>)
    ensures
        r is None ==> spec_find_dock(docks@, id) is None,
        r matches Some(k) ==> {
            &&& 0 <= k < docks@.len()
            &&& docks@[k as int].id == id
            &&& forall|j: int| 0 <= j < k ==> docks@[j].id != id
            &&& spec_find_dock(docks@, id) == Some(docks@[k as int])
        },
{
    let mut k: usize = 0;
    while k < docks.len()
        invariant
            0 <= k <= docks@.len(),
            forall|j: int| 0 <= j < k ==> docks@[j].id != id,
        decreases docks@.len() - k,
    {
        if docks[k].id == id {
            proof {
                lemma_find_dock_at(docks@, id, k as int);
            }
            return Some(k);
        }
        k = k + 1;
    }
    proof {
        lemma_find_dock_none(docks@, id);
    }
    None
}

} // verus!
