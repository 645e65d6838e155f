use docks::geometry::Rectangle;
use docks::index_pool::IndexPool;
use docks::layout::{set_dimensions_cell, set_dimensions_table, set_position_table};
use docks::hit::get_new_dock_cell_position_group;
use docks::registry::Docks;
use docks::session::PointerEvent;
use docks::tree::{Dock, DockCell, DockGroup, DockTable, NewDockCellPosition};

fn group_ids(cell: &DockCell) -> &Vec<u32> {
    match cell {
        DockCell::Group(g) => &g.dock_ids,
        DockCell::Table(_) => panic!("expected a group"),
    }
}

fn as_table(cell: &DockCell) -> &DockTable {
    match cell {
        DockCell::Table(t) => t,
        DockCell::Group(_) => panic!("expected a table"),
    }
}

#[test]
fn rectangle_contains_uses_inverted_y() {
    let r = Rectangle::new_with_values(10, 5, 20, 30);
    // x within [10, 30), y within [-5, 25)
    assert!(r.contains(10, -5));
    assert!(r.contains(29, 24));
    assert!(!r.contains(30, 0));
    assert!(!r.contains(9, 0));
    assert!(!r.contains(15, -6));
    assert!(!r.contains(15, 25));
}

#[test]
fn rectangle_new_is_zeroed() {
    let r = Rectangle::new();
    assert_eq!((r.x, r.y, r.width, r.height), (0, 0, 0, 0));
}

#[test]
fn index_pool_allocates_and_recycles() {
    // Scenario: allocate 0, 1, 2; recycle 1; allocate 1 again; then 3.
    let mut pool = IndexPool::new();
    assert_eq!(pool.get_index(), 0);
    assert_eq!(pool.get_index(), 1);
    assert_eq!(pool.get_index(), 2);
    pool.recycle_index(1);
    assert_eq!(pool.get_index(), 1);
    assert_eq!(pool.get_index(), 3);
}

#[test]
fn index_pool_prefers_the_smallest_recycled() {
    let mut pool = IndexPool::new();
    assert_eq!(pool.get_index(), 0);
    assert_eq!(pool.get_index(), 1);
    assert_eq!(pool.get_index(), 2);
    pool.recycle_index(2);
    pool.recycle_index(1);
    assert_eq!(pool.get_index(), 1);
    assert_eq!(pool.get_index(), 2);
    assert_eq!(pool.get_index(), 3);
}

#[test]
fn index_pool_ignores_foreign_identifiers() {
    let mut pool = IndexPool::new();
    pool.recycle_index(99);
    assert_eq!(pool.get_index(), 0);
}

#[test]
fn dock_tab_width_is_label_width_plus_chrome() {
    let d = Dock::new(7, "A".to_string(), 24);
    assert_eq!(d.tab_rect.width, 40);
    assert_eq!(d.tab_rect.height, 20);
    assert!(d.is_selected);
    assert!(!d.dont_draw);
}

#[test]
fn vertical_table_divides_height_evenly() {
    // Scenario: vertical table, size (100, 210), 3 equal children,
    // padding 5: each child gets (210 - 2*5) / 3 = 66 of height, full width.
    let mut t = DockTable::new(1, true);
    t.add_dock_cell(DockCell::Table(DockTable::new(2, false)));
    t.add_dock_cell(DockCell::Table(DockTable::new(3, false)));
    t.add_dock_cell(DockCell::Table(DockTable::new(4, false)));
    let t = set_dimensions_table(t, 100, 210);
    assert_eq!(t.rect.width, 100);
    assert_eq!(t.rect.height, 210);
    for cell in &t.dock_cells {
        let c = as_table(cell);
        assert_eq!(c.rect.width, 100);
        assert_eq!(c.rect.height, 66);
    }
}

#[test]
fn group_splits_extent_into_strip_and_content() {
    let g = DockGroup::new(5);
    let c = set_dimensions_cell(DockCell::Group(g), 100, 66);
    match c {
        DockCell::Group(g) => {
            assert_eq!((g.tabs_rect.width, g.tabs_rect.height), (100, 20));
            assert_eq!((g.docks_rect.width, g.docks_rect.height), (100, 46));
        }
        _ => panic!("expected a group"),
    }
}

#[test]
fn sizing_twice_gives_identical_rects() {
    // Idempotence: a second pass with the same arguments changes nothing.
    let mut t = DockTable::new(1, true);
    t.add_dock_cell(DockCell::Group(DockGroup::new(2)));
    t.add_dock_cell(DockCell::Group(DockGroup::new(3)));
    let once = set_dimensions_table(t, 137, 211);
    let twice = set_dimensions_table(once, 137, 211);
    assert_eq!(twice.rect.width, 137);
    assert_eq!(twice.rect.height, 211);
    for cell in &twice.dock_cells {
        match cell {
            DockCell::Group(g) => {
                assert_eq!((g.tabs_rect.width, g.tabs_rect.height), (137, 20));
                // (211 - 5) / 2 = 103 of extent, minus the strip
                assert_eq!((g.docks_rect.width, g.docks_rect.height), (137, 83));
            }
            _ => panic!("expected groups"),
        }
    }
}

#[test]
fn vertical_table_stacks_children_downward() {
    let mut docks = Docks::new();
    let mut t = docks.create_dock_table(true);
    t.add_dock_cell(DockCell::Table(DockTable::new(100, false)));
    t.add_dock_cell(DockCell::Table(DockTable::new(101, false)));
    let t = set_dimensions_table(t, 100, 205);
    // each child is (205 - 5) / 2 = 100 tall
    let t = set_position_table(t, 10, 20, &mut docks.docks);
    let c0 = as_table(&t.dock_cells[0]);
    let c1 = as_table(&t.dock_cells[1]);
    assert_eq!((c0.rect.x, c0.rect.y), (10, 20));
    // offset by the first child's extent plus padding, downward in screen
    // space (the stored y decreases)
    assert_eq!((c1.rect.x, c1.rect.y), (10, 20 - 105));
}

#[test]
fn group_lays_tabs_left_to_right() {
    let mut docks = Docks::new();
    let a = docks.create_dock("A".to_string(), 24); // tab width 40
    let b = docks.create_dock("B".to_string(), 24); // tab width 40
    let mut g = docks.create_dock_group();
    g.add_dock(a);
    g.add_dock(b);
    docks.dock_table_root.add_dock_cell(DockCell::Group(g));
    docks.set_dimensions(200, 100);
    docks.set_position(0, 0);
    let da = docks.docks.iter().find(|d| d.id == a).unwrap();
    let db = docks.docks.iter().find(|d| d.id == b).unwrap();
    assert_eq!((da.tab_rect.x, da.tab_rect.y), (5, 0));
    assert_eq!((db.tab_rect.x, db.tab_rect.y), (5 + 40 + 8, 0));
}

#[test]
fn left_margin_under_vertical_parent_splits_group() {
    // Scenario: content rect at origin (0,0), size (200, 100); the pointer
    // at (5, 50) lies within the left drop margin (5 <= 20); under a
    // vertically aligned parent that splits the group, slot before it.
    let mut g = DockGroup::new(9);
    g.docks_rect = Rectangle::new_with_values(0, 0, 200, 100);
    let r = get_new_dock_cell_position_group(&g, 5, 50, true, 4, 0);
    assert_eq!(r, Some(NewDockCellPosition::NeedNewTable { group_id: 9, index: 0 }));
}

#[test]
fn top_margin_under_vertical_parent_attaches_above() {
    let mut g = DockGroup::new(9);
    g.docks_rect = Rectangle::new_with_values(0, -20, 200, 100);
    // y + docks_rect.y = 25 - 20 = 5 <= 20: the top flag wins first
    let r = get_new_dock_cell_position_group(&g, 100, 25, true, 4, 2);
    assert_eq!(r, Some(NewDockCellPosition::TableExists { table_id: 4, index: 2 }));
}

#[test]
fn bottom_margin_under_horizontal_parent_splits_after() {
    let mut g = DockGroup::new(9);
    g.docks_rect = Rectangle::new_with_values(0, 0, 200, 100);
    // bottom: -0 + 100 - y <= 20 for y >= 80
    let r = get_new_dock_cell_position_group(&g, 100, 85, false, 4, 2);
    assert_eq!(r, Some(NewDockCellPosition::NeedNewTable { group_id: 9, index: 1 }));
}

#[test]
fn pointer_outside_content_rect_gives_no_placement() {
    let mut g = DockGroup::new(9);
    g.docks_rect = Rectangle::new_with_values(0, 0, 200, 100);
    assert_eq!(get_new_dock_cell_position_group(&g, 250, 50, true, 4, 0), None);
}

#[test]
fn pointer_in_the_middle_gives_no_placement() {
    let mut g = DockGroup::new(9);
    g.docks_rect = Rectangle::new_with_values(0, 0, 200, 100);
    assert_eq!(get_new_dock_cell_position_group(&g, 100, 50, true, 4, 0), None);
}

#[test]
fn move_dock_reorders_before_a_wider_neighbour() {
    // Scenario: docks "A" and "B" share a group; moving B to half of A's
    // width reorders B before A.
    let mut docks = Docks::new();
    let a = docks.create_dock("A".to_string(), 24); // tab width 40
    let b = docks.create_dock("B".to_string(), 24);
    let mut g = docks.create_dock_group();
    g.add_dock(a);
    g.add_dock(b);
    docks.dock_table_root.add_dock_cell(DockCell::Group(g));
    docks.move_dock_to_position(b, 20);
    assert_eq!(group_ids(&docks.dock_table_root.dock_cells[0]), &vec![b, a]);
}

#[test]
fn move_dock_far_right_keeps_last_slot() {
    let mut docks = Docks::new();
    let a = docks.create_dock("A".to_string(), 24);
    let b = docks.create_dock("B".to_string(), 24);
    let mut g = docks.create_dock_group();
    g.add_dock(a);
    g.add_dock(b);
    docks.dock_table_root.add_dock_cell(DockCell::Group(g));
    docks.move_dock_to_position(b, 1000);
    assert_eq!(group_ids(&docks.dock_table_root.dock_cells[0]), &vec![a, b]);
}

#[test]
fn emptying_a_group_collapses_two_levels() {
    // Scenario: a table with exactly two children loses one child's group;
    // the group is deleted, the surviving child is spliced into the
    // grandparent at the vacated index, the table is deleted; and the
    // collapse repeats one level further when the grandparent also drops
    // to a single child.
    let mut docks = Docks::new();
    let d1 = docks.create_dock("One".to_string(), 24);
    let d2 = docks.create_dock("Two".to_string(), 24);
    let d4 = docks.create_dock("Four".to_string(), 24);
    let mut g1 = docks.create_dock_group();
    g1.add_dock(d1);
    let g1_id = g1.id;
    let mut g2 = docks.create_dock_group();
    g2.add_dock(d2);
    let g2_id = g2.id;
    let mut g4 = docks.create_dock_group();
    g4.add_dock(d4);
    let g4_id = g4.id;
    let mut tb = docks.create_dock_table(true);
    let tb_id = tb.id;
    tb.add_dock_cell(DockCell::Group(g1));
    tb.add_dock_cell(DockCell::Group(g2));
    let mut ta = docks.create_dock_table(false);
    let ta_id = ta.id;
    ta.add_dock_cell(DockCell::Table(tb));
    docks.dock_table_root.add_dock_cell(DockCell::Table(ta));
    docks.dock_table_root.add_dock_cell(DockCell::Group(g4));

    docks.remove_dock_from_group(d1);

    // both the emptied group's table and its degenerate parent are gone:
    // the surviving group was spliced to the top, beside the other group
    assert_eq!(docks.dock_table_root.dock_cells.len(), 2);
    assert_eq!(group_ids(&docks.dock_table_root.dock_cells[0]), &vec![d2]);
    assert_eq!(group_ids(&docks.dock_table_root.dock_cells[1]), &vec![d4]);
    match &docks.dock_table_root.dock_cells[0] {
        DockCell::Group(g) => assert_eq!(g.id, g2_id),
        _ => panic!("expected the spliced group"),
    }
    match &docks.dock_table_root.dock_cells[1] {
        DockCell::Group(g) => assert_eq!(g.id, g4_id),
        _ => panic!("expected the untouched group"),
    }
    // exactly the deleted nodes' identifiers went back to the pool, in
    // deletion order: the emptied group, then each collapsed table upward
    assert_eq!(docks.index_pool.recycled, vec![g1_id, tb_id, ta_id]);
}

#[test]
fn removal_from_a_bigger_group_touches_nothing_else() {
    let mut docks = Docks::new();
    let d1 = docks.create_dock("One".to_string(), 24);
    let d2 = docks.create_dock("Two".to_string(), 24);
    let d3 = docks.create_dock("Three".to_string(), 24);
    let mut g = docks.create_dock_group();
    g.add_dock(d1);
    g.add_dock(d2);
    g.add_dock(d3);
    docks.dock_table_root.add_dock_cell(DockCell::Group(g));
    docks.remove_dock_from_group(d2);
    // the relative order of the others is preserved
    assert_eq!(group_ids(&docks.dock_table_root.dock_cells[0]), &vec![d1, d3]);
    assert_eq!(docks.index_pool.recycled.len(), 0);
}

#[test]
fn remove_unknown_dock_is_a_no_op() {
    let mut docks = Docks::new();
    let d1 = docks.create_dock("One".to_string(), 24);
    let mut g = docks.create_dock_group();
    g.add_dock(d1);
    docks.dock_table_root.add_dock_cell(DockCell::Group(g));
    docks.remove_dock_from_group(4242);
    assert_eq!(docks.dock_table_root.dock_cells.len(), 1);
    assert_eq!(group_ids(&docks.dock_table_root.dock_cells[0]), &vec![d1]);
}

#[test]
fn round_trip_restores_an_isomorphic_tree() {
    // Removing a dock whose group holds only it, then re-adding it via the
    // placement-creation path at the old spot, restores a tree of the same
    // shape (the intermediate group's identifier may differ).
    let mut docks = Docks::new();
    let da = docks.create_dock("A".to_string(), 24);
    let db = docks.create_dock("B".to_string(), 24);
    let mut ga = docks.create_dock_group();
    ga.add_dock(da);
    let mut gb = docks.create_dock_group();
    gb.add_dock(db);
    docks.dock_table_root.add_dock_cell(DockCell::Group(ga));
    docks.dock_table_root.add_dock_cell(DockCell::Group(gb));
    docks.set_dimensions(200, 100);
    docks.set_position(0, 0);

    docks.remove_dock_from_group(db);
    assert_eq!(docks.dock_table_root.dock_cells.len(), 1);

    // lay out the shrunken tree, then drop just inside the right margin
    docks.set_dimensions(200, 100);
    docks.set_position(0, 0);
    let pos = docks.get_new_dock_cell_position(185, 50).expect("a placement");
    assert_eq!(pos, NewDockCellPosition::TableExists { table_id: 0, index: 1 });
    let new_group = docks.create_group_from_cell_position(pos).expect("the slot names the root");
    docks.add_dock_to_group(new_group, db);

    assert_eq!(docks.dock_table_root.dock_cells.len(), 2);
    assert_eq!(group_ids(&docks.dock_table_root.dock_cells[0]), &vec![da]);
    assert_eq!(group_ids(&docks.dock_table_root.dock_cells[1]), &vec![db]);
}

#[test]
fn replace_group_by_table_wraps_with_opposite_orientation() {
    let mut docks = Docks::new();
    let d1 = docks.create_dock("One".to_string(), 24);
    let mut g = docks.create_dock_group();
    let g_id = g.id;
    g.add_dock(d1);
    docks.dock_table_root.add_dock_cell(DockCell::Group(g));
    let new_table_id = docks.replace_group_by_table(g_id).expect("the group has a parent");
    let wrapper = as_table(&docks.dock_table_root.dock_cells[0]);
    assert_eq!(wrapper.id, new_table_id);
    // the root is horizontal, so the split is vertical
    assert!(wrapper.vertical_align);
    assert_eq!(wrapper.dock_cells.len(), 1);
    assert_eq!(group_ids(&wrapper.dock_cells[0]), &vec![d1]);
}

#[test]
fn replace_group_without_parent_gives_nothing() {
    let mut docks = Docks::new();
    assert_eq!(docks.replace_group_by_table(77), None);
}

#[test]
fn create_group_from_split_inserts_beside_the_group() {
    let mut docks = Docks::new();
    let d1 = docks.create_dock("One".to_string(), 24);
    let mut g = docks.create_dock_group();
    let g_id = g.id;
    g.add_dock(d1);
    docks.dock_table_root.add_dock_cell(DockCell::Group(g));
    let new_group = docks
        .create_group_from_cell_position(NewDockCellPosition::NeedNewTable {
            group_id: g_id,
            index: 0,
        })
        .expect("the group is in the tree");
    let wrapper = as_table(&docks.dock_table_root.dock_cells[0]);
    assert_eq!(wrapper.dock_cells.len(), 2);
    match &wrapper.dock_cells[0] {
        DockCell::Group(ng) => {
            assert_eq!(ng.id, new_group);
            assert!(ng.dock_ids.is_empty());
        }
        _ => panic!("expected the fresh group first"),
    }
    assert_eq!(group_ids(&wrapper.dock_cells[1]), &vec![d1]);
}

#[test]
fn stale_placement_is_a_benign_no_op() {
    // a drag session can outlive the nodes its placement decision names;
    // realizing such a placement does nothing
    let mut docks = Docks::new();
    let d1 = docks.create_dock("One".to_string(), 24);
    let mut g = docks.create_dock_group();
    g.add_dock(d1);
    docks.dock_table_root.add_dock_cell(DockCell::Group(g));
    let r = docks.create_group_from_cell_position(NewDockCellPosition::TableExists {
        table_id: 999,
        index: 0,
    });
    assert_eq!(r, None);
    let r = docks.create_group_from_cell_position(NewDockCellPosition::NeedNewTable {
        group_id: 999,
        index: 0,
    });
    assert_eq!(r, None);
    assert_eq!(docks.dock_table_root.dock_cells.len(), 1);
    assert!(docks.index_pool.recycled.is_empty());
    assert_eq!(docks.index_pool.next_index, 3);
}

#[test]
fn delete_dock_detaches_recycles_and_forgets() {
    let mut docks = Docks::new();
    let d1 = docks.create_dock("One".to_string(), 24);
    let d2 = docks.create_dock("Two".to_string(), 24);
    let mut g = docks.create_dock_group();
    g.add_dock(d1);
    g.add_dock(d2);
    docks.dock_table_root.add_dock_cell(DockCell::Group(g));
    docks.delete_dock(d1);
    assert!(docks.docks.iter().all(|d| d.id != d1));
    assert_eq!(group_ids(&docks.dock_table_root.dock_cells[0]), &vec![d2]);
    // the group kept another dock, so only the dock's own id was freed
    assert_eq!(docks.index_pool.recycled, vec![d1]);
}

#[test]
fn delete_table_spares_live_identifiers() {
    let mut docks = Docks::new();
    let t = docks.create_dock_table(true);
    let t_id = t.id;
    docks.dock_table_root.add_dock_cell(DockCell::Table(t));
    docks.delete_table(t_id);
    assert!(!docks.index_pool.recycled.contains(&t_id));
    docks.delete_table(9); // never issued: ignored
    assert!(docks.index_pool.recycled.is_empty());
}

#[test]
fn move_unknown_dock_is_a_no_op() {
    let mut docks = Docks::new();
    let a = docks.create_dock("A".to_string(), 24);
    let mut g = docks.create_dock_group();
    g.add_dock(a);
    docks.dock_table_root.add_dock_cell(DockCell::Group(g));
    docks.move_dock_to_position(777, 0);
    assert_eq!(group_ids(&docks.dock_table_root.dock_cells[0]), &vec![a]);
}

#[test]
fn delete_group_recycles_only_dead_identifiers() {
    let mut docks = Docks::new();
    let g = docks.create_dock_group();
    let g_id = g.id;
    docks.dock_table_root.add_dock_cell(DockCell::Group(g));
    docks.delete_group(g_id); // live in the tree: left alone
    assert!(docks.index_pool.recycled.is_empty());
    let g2 = docks.create_dock_group();
    let g2_id = g2.id;
    drop(g2); // never attached
    docks.delete_group(g2_id);
    assert_eq!(docks.index_pool.recycled, vec![g2_id]);
}

#[test]
fn add_dock_to_missing_group_changes_nothing() {
    let mut docks = Docks::new();
    let a = docks.create_dock("A".to_string(), 24);
    assert!(!docks.add_dock_to_group(555, a));
    assert!(docks.dock_table_root.dock_cells.is_empty());
}

#[test]
fn add_test_docks_builds_the_demonstration_layout() {
    let mut docks = Docks::new();
    docks.add_test_docks();
    assert_eq!(docks.docks.len(), 6);
    assert_eq!(docks.dock_table_root.dock_cells.len(), 3);
    let left = as_table(&docks.dock_table_root.dock_cells[0]);
    assert!(left.vertical_align);
    assert_eq!(left.dock_cells.len(), 2);
    assert_eq!(group_ids(&docks.dock_table_root.dock_cells[1]).len(), 1);
    let right = as_table(&docks.dock_table_root.dock_cells[2]);
    assert_eq!(group_ids(&right.dock_cells[1]).len(), 2);
    assert_eq!(docks.docks[0].label, "Tools");
    assert_eq!(docks.docks[3].label, "Properties");
}

#[test]
fn hit_testing_finds_tab_group_and_dock() {
    let mut docks = Docks::new();
    let a = docks.create_dock("A".to_string(), 24); // tab width 40
    let mut g = docks.create_dock_group();
    let g_id = g.id;
    g.add_dock(a);
    docks.dock_table_root.add_dock_cell(DockCell::Group(g));
    docks.set_dimensions(200, 100);
    docks.set_position(0, 0);
    // the tab sits at x in [5, 45), y in [0, 20) of the inverted axis
    assert_eq!(docks.get_dock_at_position(10, 5), Some(a));
    assert_eq!(docks.get_dock_at_position(100, 5), None);
    assert_eq!(docks.get_dock_group_at_position(100, 5), Some(g_id));
    assert_eq!(docks.get_dock_group_at_position(100, 50), None);
}

#[test]
fn get_dock_tabs_rect_reports_the_holding_group() {
    let mut docks = Docks::new();
    let a = docks.create_dock("A".to_string(), 24);
    let mut g = docks.create_dock_group();
    g.add_dock(a);
    docks.dock_table_root.add_dock_cell(DockCell::Group(g));
    docks.set_dimensions(200, 100);
    docks.set_position(0, 0);
    let r = docks.get_dock_tabs_rect(a).expect("the dock has a group");
    assert_eq!((r.x, r.y, r.width, r.height), (0, 0, 200, 20));
    assert_eq!(docks.get_dock_tabs_rect(999), None);
}

#[test]
fn drag_session_detaches_redocks_and_realizes_a_placement() {
    let mut docks = Docks::new();
    let a = docks.create_dock("A".to_string(), 24);
    let b = docks.create_dock("B".to_string(), 24);
    let mut ga = docks.create_dock_group();
    ga.add_dock(a);
    let mut gb = docks.create_dock_group();
    gb.add_dock(b);
    docks.dock_table_root.add_dock_cell(DockCell::Group(ga));
    docks.dock_table_root.add_dock_cell(DockCell::Group(gb));
    docks.set_dimensions(400, 100);
    docks.set_position(0, 0);
    // the two groups sit side by side, each 197 wide; press on tab "A"
    let mut session = docks.create_event_listener(10, 5).expect("a tab under the pointer");
    assert_eq!(session.dock_id, a);
    assert!(docks.docks.iter().find(|d| d.id == a).unwrap().dont_draw);
    // drag into the second group's strip: "A" leaves its group (which
    // collapses away), joins the hovered group, and is live-reordered to
    // the slot under the pointer
    let done = session.handle_event(&mut docks, PointerEvent::Moved { x: 210, y: 5 });
    assert!(!done);
    assert_eq!(docks.dock_table_root.dock_cells.len(), 1);
    assert_eq!(group_ids(&docks.dock_table_root.dock_cells[0]), &vec![a, b]);
    // release in the middle of nowhere: the session just ends
    let done = session.handle_event(&mut docks, PointerEvent::LeftReleased);
    assert!(done);
    assert!(!docks.docks.iter().find(|d| d.id == a).unwrap().dont_draw);
}
