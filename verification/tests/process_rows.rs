use open_task::model::{Bytes, ProcessKey};
use open_task::process_rows::{
    row_id, ProcessRow, ProcessRows, ProcessTree, COL_CPU, COL_DISK_READ, COL_HANDLES, COL_MEMORY,
    COL_NAME, COL_PID, COL_THREADS,
};
use open_task::table::RowId;

/// A process with a fixed birth stamp of 1; `parent` is a PID with the same
/// convention, so `Some(0)` is the idle pseudo-process.
fn proc(pid: u32, parent: Option<u32>) -> ProcessRow {
    ProcessRow {
        key: ProcessKey::new(pid, 1),
        parent: parent.map(|p| ProcessKey::new(p, 1)),
        name: format!("p{pid}.exe"),
        private_bytes: Bytes(1),
        working_set: Bytes(1),
        disk_read: Bytes(0),
        disk_write: Bytes(0),
        threads: 1,
        handles: 1,
    }
}

fn tree_of(procs: &[ProcessRow]) -> ProcessTree {
    let mut t = ProcessTree::new();
    t.rebuild(procs);
    t
}

/// CPU usage in thousandths of a percent, the fixed point the tree folds it in.
fn milli(cpu: f32) -> u64 {
    (cpu * 1000.0).round() as u64
}

#[test]
fn row_ids_distinguish_pid_reuse() {
    assert_ne!(
        row_id(ProcessKey::new(100, 1)),
        row_id(ProcessKey::new(100, 2))
    );
}

#[test]
fn rollups_fold_descendants_into_ancestors() {
    // 1 ─ 2 ─ 3, and 4 alone.
    let procs = vec![proc(1, None), proc(2, Some(1)), proc(3, Some(2)), proc(4, None)];
    let cpu = [1.0f32, 2.0, 4.0, 8.0];
    let t = tree_of(&procs);
    assert_eq!(t.parent(0), None);
    assert_eq!(t.parent(1), Some(0));
    assert_eq!(t.parent(2), Some(1));
    assert_eq!(t.parent(3), None);
    let totals = t.subtree_totals(&cpu.iter().map(|&c| milli(c)).collect::<Vec<_>>());
    assert_eq!(totals[0], milli(7.0));
    assert_eq!(t.rollup(0).descendants, 2);
    assert_eq!(totals[1], milli(6.0));
    assert_eq!(t.rollup(1).descendants, 1);
    assert_eq!(t.rollup(2).descendants, 0);
    assert_eq!(t.rollup(0).threads, 3);
    assert_eq!(totals[3], milli(8.0));
}

#[test]
fn exited_parent_leaves_an_orphan_root() {
    let procs = vec![proc(1, Some(99)), proc(2, Some(1))];
    let t = tree_of(&procs);
    assert_eq!(t.parent(0), None);
    assert_eq!(t.parent(1), Some(0));
}

#[test]
fn parent_with_a_different_birth_is_a_stranger() {
    // PID 1 was recycled: the child names (1, birth 7), the live one is (1, 1).
    let mut child = proc(2, None);
    child.parent = Some(ProcessKey::new(1, 7));
    let procs = vec![proc(1, None), child];
    let t = tree_of(&procs);
    assert_eq!(t.parent(1), None);
}

#[test]
fn a_cycle_is_broken_without_hanging() {
    let procs = vec![proc(1, Some(2)), proc(2, Some(1)), proc(3, Some(1))];
    let cpu = [1.0f32, 2.0, 4.0];
    let t = tree_of(&procs);
    // Exactly one of the two became a root; the third hangs off PID 1 either way.
    let roots = (0..2).filter(|&i| t.parent(i).is_none()).count();
    assert_eq!(roots, 1);
    assert_eq!(t.parent(2), Some(0));
    // Whichever root it is, its rollup covers all three.
    let root = (0..2).find(|&i| t.parent(i).is_none()).unwrap();
    let totals = t.subtree_totals(&cpu.iter().map(|&c| milli(c)).collect::<Vec<_>>());
    assert_eq!(totals[root], milli(7.0));
    assert_eq!(t.rollup(root).descendants, 2);
}

#[test]
fn a_longer_cycle_is_cut_at_one_row_only() {
    let procs = vec![proc(1, Some(2)), proc(2, Some(3)), proc(3, Some(1)), proc(4, Some(3))];
    let t = tree_of(&procs);
    let roots: Vec<usize> = (0..3).filter(|&i| t.parent(i).is_none()).collect();
    assert_eq!(roots.len(), 1);
    assert_eq!(t.parent(3), Some(2));
    assert_eq!(t.rollup(roots[0]).descendants, 3);
}

#[test]
fn ancestry_reads_root_first_and_skips_the_idle_process() {
    let procs = vec![proc(0, None), proc(4, Some(0)), proc(9, Some(4))];
    let t = tree_of(&procs);
    let rows = ProcessRows { procs: &procs, tree: &t };
    let mut out = String::new();
    let mut chain = Vec::new();
    rows.ancestry(2, &mut out, &mut chain);
    assert_eq!(out, "p4.exe › p9.exe");
    assert_eq!(rows.listed(), 2);
}

#[test]
fn collapsed_cells_show_subtree_totals_and_descendant_count() {
    let procs = vec![proc(1, None), proc(2, Some(1)), proc(3, Some(2))];
    let cpu = [1.0f32, 2.0, 4.0];
    let t = tree_of(&procs);
    let rows = ProcessRows { procs: &procs, tree: &t };
    let own: Vec<u64> = cpu.iter().map(|&c| milli(c)).collect();
    let totals = t.subtree_totals(&own);
    let mut s = String::from("stale");
    // CPU text is a percentage the caller formats; the library hands over the
    // values: the row's own and its subtree's.
    assert!(!rows.cell(0, COL_CPU, &mut s));
    assert_eq!(s, "");
    assert_eq!(own[0], milli(1.0));
    assert!(!rows.cell_collapsed(0, COL_CPU, &mut s));
    assert_eq!(totals[0], milli(7.0));
    assert!(rows.cell_collapsed(0, COL_NAME, &mut s));
    assert_eq!(s, "p1.exe (2)");
    assert!(rows.cell_collapsed(0, COL_PID, &mut s));
    assert_eq!(s, "1", "identity columns never aggregate");
    let m = rows.model(&own, &totals);
    assert!(m.sibling_keys[0][COL_CPU] > m.sibling_keys[2][COL_CPU]);
    assert!(m.keys[0][COL_CPU] < m.keys[2][COL_CPU]);
}

#[test]
fn cells_format_each_column() {
    let mut p = proc(42, None);
    p.private_bytes = Bytes(1536);
    p.working_set = Bytes(512);
    p.threads = 12;
    p.handles = 345;
    let procs = vec![p];
    let t = tree_of(&procs);
    let rows = ProcessRows { procs: &procs, tree: &t };
    let mut s = String::new();
    assert!(rows.cell(0, COL_NAME, &mut s));
    assert_eq!(s, "p42.exe");
    assert!(rows.cell(0, COL_PID, &mut s));
    assert_eq!(s, "42");
    assert!(rows.cell(0, COL_MEMORY, &mut s));
    assert_eq!(s, "1.50 KB");
    assert!(rows.cell(0, 4, &mut s));
    assert_eq!(s, "512 B");
    assert!(!rows.cell(0, COL_DISK_READ, &mut s));
    assert!(rows.cell(0, COL_THREADS, &mut s));
    assert_eq!(s, "12");
    assert!(rows.cell(0, COL_HANDLES, &mut s));
    assert_eq!(s, "345");
    assert!(rows.cell(0, 99, &mut s));
    assert_eq!(s, "");
}

#[test]
fn collapsed_memory_and_counts_are_subtree_totals() {
    let procs = vec![proc(1, None), proc(2, Some(1)), proc(3, Some(1))];
    let t = tree_of(&procs);
    let rows = ProcessRows { procs: &procs, tree: &t };
    let mut s = String::new();
    assert!(rows.cell_collapsed(0, COL_MEMORY, &mut s));
    assert_eq!(s, "3 B");
    assert!(rows.cell_collapsed(0, COL_THREADS, &mut s));
    assert_eq!(s, "3");
    assert!(rows.cell_collapsed(0, COL_HANDLES, &mut s));
    assert_eq!(s, "3");
}

#[test]
fn rows_are_found_by_id_and_idle_is_not_listed() {
    let procs = vec![proc(0, None), proc(4, None), proc(9, Some(4))];
    let t = tree_of(&procs);
    let rows = ProcessRows { procs: &procs, tree: &t };
    assert_eq!(rows.row_of(row_id(ProcessKey::new(9, 1))), Some(2));
    assert_eq!(rows.row_of(RowId(123456789)), None);
    assert!(!rows.visible(0));
    assert!(rows.visible(1));
    assert_eq!(rows.id(1), row_id(ProcessKey::new(4, 1)));
}

#[test]
fn the_model_keys_names_case_insensitively() {
    let mut a = proc(1, None);
    a.name = "Zeta.exe".to_string();
    let mut b = proc(2, None);
    b.name = "alpha.exe".to_string();
    let procs = vec![a, b];
    let t = tree_of(&procs);
    let rows = ProcessRows { procs: &procs, tree: &t };
    let m = rows.model(&[0, 0], &[0, 0]);
    assert_eq!(m.ids.len(), 2);
    assert!(m.keys[1][COL_NAME] < m.keys[0][COL_NAME]);
    assert_eq!(m.keys[0][COL_NAME][0], u64::from(b'z'));
    assert_eq!(m.keys[0][COL_PID], vec![1]);
    assert_eq!(m.parent, vec![None, None]);
    assert_eq!(m.visible, vec![true, true]);
}

#[test]
fn every_row_reaches_a_root_and_counts_the_rows_below_it() {
    // A chain, a fork, a self-parent, a cycle hanging over a row, and an orphan.
    let procs = vec![
        proc(1, None),
        proc(2, Some(1)),
        proc(3, Some(2)),
        proc(4, Some(2)),
        proc(5, Some(5)),
        proc(6, Some(7)),
        proc(7, Some(6)),
        proc(8, Some(7)),
        proc(9, Some(99)),
    ];
    let t = tree_of(&procs);
    let n = procs.len();
    for i in 0..n {
        let mut at = i;
        let mut steps = 0;
        while let Some(p) = t.parent(at) {
            at = p;
            steps += 1;
            assert!(steps < n, "row {i} does not reach a root");
        }
        assert_eq!(steps, t.depth(i) as usize);
    }
    let below = |x: usize| {
        (0..n)
            .filter(|&y| {
                let mut at = y;
                while let Some(p) = t.parent(at) {
                    if p == x {
                        return true;
                    }
                    at = p;
                }
                false
            })
            .count()
    };
    for x in 0..n {
        assert_eq!(t.rollup(x).descendants as usize, below(x), "row {x}");
    }
    assert_eq!(t.rollup(0).descendants, 3);
    assert_eq!(t.rollup(4).descendants, 0);
}
