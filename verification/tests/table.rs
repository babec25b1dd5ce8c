use open_task::table::{Column, RowId, RowModel, Table, TreeStep};

/// Rows keyed by a number; ids are the number times 1000.
fn nums(vals: &[u32]) -> RowModel {
    forest_model(&vals.iter().map(|&v| (v, None)).collect::<Vec<_>>(), &[], None)
}

/// Rows keyed by a number with ids equal to it, listing only even numbers.
fn hide_odd(vals: &[u32]) -> RowModel {
    let n = vals.len();
    RowModel {
        ids: vals.iter().map(|&v| RowId(u64::from(v))).collect(),
        visible: vals.iter().map(|&v| v % 2 == 0).collect(),
        parent: vec![None; n],
        keys: vals.iter().map(|&v| vec![vec![u64::from(v)]]).collect(),
        sibling_keys: vals.iter().map(|&v| vec![vec![u64::from(v)]]).collect(),
    }
}

/// A small forest. Row: (value, parent). Ids are the value times 1000; hidden
/// rows are listed in `hidden`; siblings order by `subtree` when given.
fn forest_model(rows: &[(u32, Option<usize>)], hidden: &[usize], subtree: Option<&[u32]>) -> RowModel {
    let n = rows.len();
    RowModel {
        ids: rows.iter().map(|r| RowId(u64::from(r.0) * 1000)).collect(),
        visible: (0..n).map(|i| !hidden.contains(&i)).collect(),
        parent: rows.iter().map(|r| r.1).collect(),
        keys: rows.iter().map(|r| vec![vec![u64::from(r.0)]]).collect(),
        sibling_keys: (0..n)
            .map(|i| vec![vec![u64::from(subtree.map_or(rows[i].0, |s| s[i]))]])
            .collect(),
    }
}

fn id(m: &RowModel, row: usize) -> RowId {
    m.ids[row]
}

fn table() -> Table {
    Table::new(vec![Column::number("n")], 0)
}

// 4(7)      <- root
// 0(5)      <- root
// ├─ 2(9)
// │  └─ 3(2)
// └─ 1(1)
fn forest() -> RowModel {
    forest_model(&[(5, None), (1, Some(0)), (9, Some(0)), (2, Some(2)), (7, None)], &[], None)
}

fn tree_table() -> Table {
    let mut t = table();
    t.set_tree(true, &forest());
    t
}

fn depths(t: &Table) -> Vec<u16> {
    t.meta().iter().map(|m| m.0).collect()
}

#[test]
fn sorts_descending_by_default_for_numeric_and_flips_on_reclick() {
    let src = nums(&[3, 1, 2]);
    let mut t = table();
    t.ensure_order(&src);
    assert_eq!(t.order(), &[0, 2, 1]);
    t.set_sort(0);
    t.ensure_order(&src);
    assert_eq!(t.order(), &[1, 2, 0]);
}

#[test]
fn selection_follows_id_not_position() {
    let mut src = nums(&[3, 1, 2]);
    let mut t = table();
    t.move_selection(&src, 1);
    assert_eq!(t.selected, Some(RowId(3000)));
    // Data changes: 3 is now the smallest. Selection must still be "3".
    src = nums(&[3, 10, 20]);
    t.invalidate_order();
    t.ensure_order(&src);
    assert_eq!(t.selected, Some(RowId(3000)));
    assert_eq!(t.order(), &[2, 1, 0]);
}

#[test]
fn hidden_rows_are_excluded_from_order() {
    let src = hide_odd(&[1, 2, 3, 4, 5, 6]);
    let mut t = table();
    t.ensure_order(&src);
    assert_eq!(t.order(), &[5, 3, 1]);
    // Same length, different contents, no invalidate: the order is reused. A
    // length change rebuilds.
    let src = hide_odd(&[2, 4]);
    t.ensure_order(&src);
    assert_eq!(t.order(), &[1, 0]);
}

#[test]
fn tree_order_is_preorder_with_siblings_sorted() {
    let src = forest();
    let mut t = tree_table();
    t.ensure_order(&src);
    // Descending by value: roots 4(7) then 0(5); 0's children 2(9) then 1(1).
    assert_eq!(t.order(), &[4, 0, 2, 3, 1]);
    assert_eq!(depths(&t), vec![0, 0, 1, 2, 1]);
    let kids: Vec<bool> = t.meta().iter().map(|m| m.1).collect();
    assert_eq!(kids, vec![false, true, true, false, false]);

    // Ascending flips siblings at every level but keeps the hierarchy.
    t.set_sort(0);
    t.ensure_order(&src);
    assert_eq!(t.order(), &[0, 1, 2, 3, 4]);
}

#[test]
fn siblings_order_by_subtree_comparison() {
    // Own values put 4(7) above 0(5); subtree totals (0's branch sums to 17) put
    // 0 first. Children of 0 keep their own order here since they got the same
    // subtree weights as values.
    let src = forest_model(
        &[(5, None), (1, Some(0)), (9, Some(0)), (2, Some(2)), (7, None)],
        &[],
        Some(&[17, 1, 11, 2, 7]),
    );
    let mut t = table();
    t.set_tree(true, &src);
    t.ensure_order(&src);
    assert_eq!(t.order(), &[0, 2, 3, 1, 4]);
    // The list order is unaffected by the subtree comparison.
    t.set_tree(false, &src);
    t.ensure_order(&src);
    assert_eq!(t.order(), &[2, 4, 0, 3, 1]);
}

#[test]
fn collapsing_hides_descendants_and_expanding_restores_them() {
    let src = forest();
    let mut t = tree_table();
    t.ensure_order(&src);
    assert!(t.toggle_expanded(1, &src), "row 0 has children");
    t.ensure_order(&src);
    assert_eq!(t.order(), &[4, 0]);
    assert!(!t.toggle_expanded(0, &src), "row 4 is a leaf");
    assert!(t.toggle_expanded(1, &src));
    t.ensure_order(&src);
    assert_eq!(t.order(), &[4, 0, 2, 3, 1]);
}

#[test]
fn missing_self_and_hidden_parents_make_roots() {
    let src = forest_model(&[(1, Some(99)), (2, Some(1)), (3, Some(0)), (4, Some(3))], &[0], None);
    let mut t = table();
    t.set_tree(true, &src);
    t.ensure_order(&src);
    // Row 0 is hidden, so row 3 (its child) is a root; row 1 points at itself;
    // row 2's parent is out of range. Everyone is a root, sorted descending.
    assert_eq!(t.order(), &[3, 2, 1]);
    assert_eq!(depths(&t), vec![0, 0, 0]);
}

#[test]
fn a_parent_cycle_loses_no_rows() {
    let src = forest_model(&[(1, Some(1)), (2, Some(0)), (3, None)], &[], None);
    let mut t = table();
    t.set_tree(true, &src);
    t.ensure_order(&src);
    assert_eq!(t.order().len(), 3);
    assert_eq!(t.order()[0], 2, "the real root comes first");
}

#[test]
fn reveal_expands_every_ancestor_of_the_selection() {
    let src = forest();
    let mut t = tree_table();
    t.ensure_order(&src);
    t.toggle_expanded(2, &src); // collapse 2
    t.toggle_expanded(1, &src); // collapse 0
    t.ensure_order(&src);
    assert_eq!(t.order(), &[4, 0]);
    t.selected = Some(id(&src, 3));
    assert!(t.reveal_selected(&src).is_some());
    assert_eq!(t.order(), &[4, 0, 2, 3, 1]);
    assert!((0..5).all(|r| !t.is_collapsed(id(&src, r))));
}

#[test]
fn switching_modes_keeps_the_selection() {
    let src = forest();
    let mut t = table();
    t.ensure_order(&src);
    t.selected = Some(id(&src, 3));
    t.set_tree(true, &src);
    assert_eq!(t.selected, Some(id(&src, 3)));
    assert_eq!(t.selected_pos(&src), Some(3));
    t.set_tree(false, &src);
    assert_eq!(t.selected, Some(id(&src, 3)));
    assert_eq!(t.order(), &[2, 4, 0, 3, 1]);
    assert_eq!(t.selected_pos(&src), Some(3));
}

#[test]
fn left_and_right_walk_the_hierarchy() {
    let src = forest();
    let mut t = tree_table();
    t.ensure_order(&src);
    t.selected = Some(id(&src, 2));

    // Left on an expanded parent collapses it.
    assert_eq!(t.collapse_or_parent(&src), TreeStep::Toggled);
    t.ensure_order(&src);
    assert_eq!(t.order(), &[4, 0, 2, 1]);
    assert_eq!(t.selected, Some(id(&src, 2)));
    // Left again moves to the parent.
    assert_eq!(t.collapse_or_parent(&src), TreeStep::Moved(1));
    assert_eq!(t.selected, Some(id(&src, 0)));
    // Right on an expanded parent moves to the first child.
    assert_eq!(t.expand_or_child(&src), TreeStep::Moved(2));
    assert_eq!(t.selected, Some(id(&src, 2)));
    // Right on a collapsed parent expands it.
    assert_eq!(t.expand_or_child(&src), TreeStep::Toggled);
    t.ensure_order(&src);
    assert_eq!(t.order(), &[4, 0, 2, 3, 1]);
    // Right on a leaf does nothing.
    t.selected = Some(id(&src, 3));
    assert_eq!(t.expand_or_child(&src), TreeStep::Ignored);
    // Left on a root leaf does nothing.
    t.selected = Some(id(&src, 4));
    assert_eq!(t.collapse_or_parent(&src), TreeStep::Ignored);
    // Neither does anything in list mode.
    t.set_tree(false, &src);
    assert_eq!(t.collapse_or_parent(&src), TreeStep::Ignored);
    assert_eq!(t.expand_or_child(&src), TreeStep::Ignored);
}

#[test]
fn active_block_is_the_selected_rows_siblings() {
    let src = forest();
    let mut t = tree_table();
    t.ensure_order(&src);
    t.selected = Some(id(&src, 3));
    // Row 3 is the only child of 2, at depth 2: guide level 1, positions 3..4.
    assert_eq!(t.active_block(&src), Some((1, 3, 4)));
    t.selected = Some(id(&src, 1));
    // Row 1 is a child of 0 at depth 1: level 0, spanning 0's whole subtree.
    assert_eq!(t.active_block(&src), Some((0, 2, 5)));
    t.selected = Some(id(&src, 4));
    assert_eq!(t.active_block(&src), None);
}

#[test]
fn new_table_starts_in_the_default_direction() {
    let t = Table::new(vec![Column::text("Name"), Column::number("PID")], 1);
    assert!(t.sort_desc);
    let t = Table::new(vec![Column::text("Name"), Column::number("PID")], 0);
    assert!(!t.sort_desc);
    let t = Table::new(vec![Column::text("Name")], 5);
    assert!(!t.sort_desc);
    assert!(!t.tree());
}

#[test]
fn set_sort_ignores_unknown_columns_and_uses_column_defaults() {
    let mut t = Table::new(vec![Column::text("Name"), Column::number("PID")], 0);
    t.set_sort(7);
    assert_eq!((t.sort_col, t.sort_desc), (0, false));
    t.set_sort(1);
    assert_eq!((t.sort_col, t.sort_desc), (1, true));
    t.set_sort(0);
    assert_eq!((t.sort_col, t.sort_desc), (0, false));
    t.set_sort(0);
    assert_eq!((t.sort_col, t.sort_desc), (0, true));
}

#[test]
fn equal_keys_order_by_id() {
    // Equal values: ties break on ascending id in either direction.
    let src = RowModel {
        ids: vec![RowId(30), RowId(10), RowId(20)],
        visible: vec![true; 3],
        parent: vec![None; 3],
        keys: vec![vec![vec![5]]; 3],
        sibling_keys: vec![vec![vec![5]]; 3],
    };
    let mut t = table();
    t.ensure_order(&src);
    assert_eq!(t.order(), &[1, 2, 0]);
    t.set_sort(0);
    t.ensure_order(&src);
    assert_eq!(t.order(), &[1, 2, 0]);
}

#[test]
fn keys_compare_lexicographically() {
    // Names as character codes: "ab" < "abc" < "b".
    let src = RowModel {
        ids: vec![RowId(1), RowId(2), RowId(3)],
        visible: vec![true; 3],
        parent: vec![None; 3],
        keys: vec![vec![vec![98]], vec![vec![97, 98, 99]], vec![vec![97, 98]]],
        sibling_keys: vec![vec![]; 3],
    };
    let mut t = Table::new(vec![Column::text("Name")], 0);
    t.ensure_order(&src);
    assert_eq!(t.order(), &[2, 1, 0]);
}

#[test]
fn move_selection_clamps_and_select_end_picks_the_ends() {
    let src = nums(&[3, 1, 2, 5, 4]);
    let mut t = table();
    // Nothing selected: any step selects the first row.
    assert_eq!(t.move_selection(&src, -1), Some(0));
    assert_eq!(t.selected, Some(RowId(5000)));
    assert_eq!(t.move_selection(&src, 2), Some(2));
    assert_eq!(t.selected, Some(RowId(3000)));
    assert_eq!(t.move_selection(&src, -10), Some(0));
    assert_eq!(t.selected, Some(RowId(5000)));
    assert_eq!(t.move_selection(&src, 100), Some(4));
    assert_eq!(t.select_end(&src, true), Some(0));
    assert_eq!(t.selected, Some(RowId(5000)));
    assert_eq!(t.select_end(&src, false), Some(4));
    assert_eq!(t.selected, Some(RowId(1000)));
    let empty = nums(&[]);
    assert_eq!(t.move_selection(&empty, 1), None);
    assert_eq!(t.select_end(&empty, true), None);
    assert_eq!(t.row_at(0), None);
}

#[test]
fn reveal_without_a_listed_selection_reports_nothing() {
    let src = forest();
    let mut t = tree_table();
    assert_eq!(t.reveal_selected(&src), None);
    t.selected = Some(RowId(424242));
    assert_eq!(t.reveal_selected(&src), None);
    t.selected = Some(id(&src, 3));
    assert_eq!(t.reveal_selected(&src), Some(3));
    assert_eq!(t.row_at(3), Some(3));
}

#[test]
fn tree_order_lists_each_visible_row_once() {
    // 0 ─ 1 ─ 2, a cycle 3 ⇄ 4 with 5 hanging off it, and a hidden 6 with child 7.
    let src = forest_model(
        &[
            (10, None),
            (11, Some(0)),
            (12, Some(1)),
            (13, Some(4)),
            (14, Some(3)),
            (15, Some(3)),
            (16, None),
            (17, Some(6)),
        ],
        &[6],
        None,
    );
    let mut t = table();
    t.set_tree(true, &src);
    t.ensure_order(&src);
    let mut seen = t.order().to_vec();
    seen.sort_unstable();
    assert_eq!(seen, vec![0, 1, 2, 3, 4, 5, 7]);
    // Collapsing a branch drops exactly its descendants.
    let pos = t.order().iter().position(|&r| r == 0).unwrap();
    assert!(t.toggle_expanded(pos, &src));
    t.ensure_order(&src);
    let mut seen = t.order().to_vec();
    seen.sort_unstable();
    assert_eq!(seen, vec![0, 3, 4, 5, 7]);
}

#[test]
fn each_listed_row_is_followed_by_exactly_its_subtree() {
    // Two roots with nested children, plus a parent cycle (rows 7, 8) and a
    // row hanging off it (row 9).
    let rows = [
        (10, None),
        (3, Some(0)),
        (8, Some(0)),
        (6, Some(2)),
        (4, Some(2)),
        (1, Some(4)),
        (20, None),
        (5, Some(8)),
        (2, Some(7)),
        (9, Some(7)),
        (7, Some(6)),
    ];
    let src = forest_model(&rows, &[], None);
    let mut t = table();
    t.set_tree(true, &src);
    t.ensure_order(&src);
    let order = t.order().to_vec();
    let depth = depths(&t);
    assert_eq!(order.len(), rows.len());
    let below = |y: usize, x: usize| {
        let mut at = y;
        for _ in 0..rows.len() {
            match rows[at].1 {
                Some(p) if p == x => return true,
                Some(p) => at = p,
                None => return false,
            }
        }
        false
    };
    // The rows every walk from a root reaches: all but the cycle and its hanger-on.
    let walked = order.len() - 3;
    for i in 0..walked {
        let end = (i + 1..order.len()).find(|&j| depth[j] <= depth[i]).unwrap_or(order.len());
        for j in 0..walked {
            let inside = i < j && j < end;
            assert_eq!(below(order[j], order[i]), inside, "rows at {i} and {j}");
        }
    }
    // The rows on and under the cycle come last, flat.
    assert!(order[walked..].iter().all(|&r| [7, 8, 9].contains(&r)));
    assert!(depth[walked..].iter().all(|&d| d == 0));
}
