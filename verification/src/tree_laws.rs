//! What the process tree's shape and rollups mean when read as a forest:
//! climbing parent links from any row reaches a root within the row count, and
//! a row's descendant count is the number of rows below it.
use vstd::prelude::*;
use crate::process_rows::{children_sum, is_forest, min_int, rollup_matches, subtree_sum, zeros, ProcessRow, ProcessTree};

verus! {

/// Follow parent links `k` times from `y` (-1 once past a root).
pub open spec fn par_iter(par: Seq<int>, y: int, k: nat) -> int
    decreases k,
{
    if k == 0 {
        y
    } else {
        let p = par_iter(par, y, (k - 1) as nat);
        if p < 0 || p >= par.len() {
            -1
        } else {
            par[p]
        }
    }
}

/// Row `y` lies strictly below row `x`.
pub open spec fn is_below(par: Seq<int>, x: int, y: int) -> bool {
    exists|k: nat| k >= 1 && #[trigger] par_iter(par, y, k) == x
}

/// The rows strictly below `x`.
pub open spec fn descendants(par: Seq<int>, x: int) -> Set<int> {
    Set::new(|y: int| 0 <= y < par.len() && is_below(par, x, y))
}

/// `c` and the rows below it.
spec fn reach(par: Seq<int>, c: int) -> Set<int> {
    Set::new(|y: int| 0 <= y < par.len() && exists|k: nat| #[trigger] par_iter(par, y, k) == c)
}

/// The ancestor of `y` one level below `x`.
spec fn child_toward(par: Seq<int>, dep: Seq<int>, x: int, y: int) -> int {
    par_iter(par, y, (dep[y] - dep[x] - 1) as nat)
}

/// The rows below `x` that hang off one of `x`'s children numbered below `j`.
spec fn below_children(par: Seq<int>, dep: Seq<int>, x: int, j: int) -> Set<int> {
    Set::new(|y: int| 0 <= y < par.len() && is_below(par, x, y) && child_toward(par, dep, x, y) < j)
}

proof fn lemma_walk_up(par: Seq<int>, dep: Seq<int>, y: int, k: nat)
    requires
        is_forest(par, dep),
        0 <= y < par.len(),
    ensures
        k <= dep[y] ==> 0 <= par_iter(par, y, k) < par.len() && dep[par_iter(par, y, k)] == dep[y] - k,
        k > dep[y] ==> par_iter(par, y, k) == -1,
    decreases k,
{
    if k > 0 {
        let k1 = (k - 1) as nat;
        lemma_walk_up(par, dep, y, k1);
        let p = par_iter(par, y, k1);
        if k1 <= dep[y] {
            assert((par[p] == -1 && dep[p] == 0) || (0 <= par[p] < par.len() && dep[p] == dep[par[p]] + 1));
            assert(0 <= dep[par[p]] || par[p] == -1);
        }
    }
}

/// Climbing from a row reaches an ancestor `x` only after exactly as many steps
/// as their depths differ.
proof fn lemma_ancestor_depth(par: Seq<int>, dep: Seq<int>, y: int, k: nat, x: int)
    requires
        is_forest(par, dep),
        0 <= y < par.len(),
        0 <= x < par.len(),
        par_iter(par, y, k) == x,
    ensures
        k <= dep[y],
        dep[x] == dep[y] - k,
{
    lemma_walk_up(par, dep, y, k);
}

/// In a forest, following parent links from any row reaches a root after
/// exactly its depth in steps, and its depth is below the row count: every row
/// reaches a root within `n` steps.
pub proof fn lemma_forest_reaches_root(par: Seq<int>, dep: Seq<int>, y: int)
    requires
        is_forest(par, dep),
        0 <= y < par.len(),
    ensures
        dep[y] < par.len(),
        forall|k: nat| k <= dep[y] ==> 0 <= #[trigger] par_iter(par, y, k) < par.len(),
        par[par_iter(par, y, dep[y] as nat)] == -1,
{
    assert forall|k: nat| k <= dep[y] implies 0 <= #[trigger] par_iter(par, y, k) < par.len() by {
        lemma_walk_up(par, dep, y, k);
    }
    lemma_walk_up(par, dep, y, dep[y] as nat);
    let r = par_iter(par, y, dep[y] as nat);
    assert((par[r] == -1 && dep[r] == 0) || (0 <= par[r] < par.len() && dep[r] == dep[par[r]] + 1));
    if par[r] != -1 {
        assert(0 <= dep[par[r]]);
    }
}

proof fn lemma_sets_finite(par: Seq<int>, dep: Seq<int>, x: int, j: int)
    ensures
        descendants(par, x).finite(),
        reach(par, x).finite(),
        below_children(par, dep, x, j).finite(),
{
    vstd::set_lib::lemma_int_range(0, par.len() as int);
    let all = vstd::set_lib::set_int_range(0, par.len() as int);
    assert(descendants(par, x).subset_of(all));
    assert(reach(par, x).subset_of(all));
    assert(below_children(par, dep, x, j).subset_of(all));
    vstd::set_lib::lemma_set_subset_finite(all, descendants(par, x));
    vstd::set_lib::lemma_set_subset_finite(all, reach(par, x));
    vstd::set_lib::lemma_set_subset_finite(all, below_children(par, dep, x, j));
}

/// A row and the rows below it, with the row itself not among them.
proof fn lemma_reach(par: Seq<int>, dep: Seq<int>, c: int)
    requires
        is_forest(par, dep),
        0 <= c < par.len(),
    ensures
        reach(par, c) == descendants(par, c).insert(c),
        !descendants(par, c).contains(c),
{
    assert(par_iter(par, c, 0) == c);
    assert forall|y: int| #[trigger] reach(par, c).contains(y) <==> descendants(par, c).insert(c).contains(y) by {
        if reach(par, c).contains(y) {
            let k = choose|k: nat| #[trigger] par_iter(par, y, k) == c;
            if k >= 1 {
                assert(is_below(par, c, y));
            }
        }
        if descendants(par, c).contains(y) {
            let k = choose|k: nat| k >= 1 && #[trigger] par_iter(par, y, k) == c;
            assert(reach(par, c).contains(y));
        }
    }
    assert(reach(par, c) =~= descendants(par, c).insert(c));
    if descendants(par, c).contains(c) {
        let k = choose|k: nat| k >= 1 && #[trigger] par_iter(par, c, k) == c;
        lemma_ancestor_depth(par, dep, c, k, c);
    }
}

/// Adding child `j` of `x` adds `j` and the rows below it, which no earlier
/// child's rows share.
proof fn lemma_below_children_step(par: Seq<int>, dep: Seq<int>, x: int, j: int)
    requires
        is_forest(par, dep),
        0 <= x < par.len(),
        0 <= j < par.len(),
    ensures
        par[j] == x ==> below_children(par, dep, x, j + 1) == below_children(par, dep, x, j) + reach(par, j)
            && below_children(par, dep, x, j).disjoint(reach(par, j)),
        par[j] != x ==> below_children(par, dep, x, j + 1) == below_children(par, dep, x, j),
{
    let s0 = below_children(par, dep, x, j);
    let s1 = below_children(par, dep, x, j + 1);
    // A row below `x` hangs off the child `child_toward`, one climb short of `x`.
    assert forall|y: int| 0 <= y < par.len() && #[trigger] is_below(par, x, y) implies {
        let k = (dep[y] - dep[x]) as nat;
        &&& k >= 1
        &&& 0 <= child_toward(par, dep, x, y) < par.len()
        &&& par[child_toward(par, dep, x, y)] == x
        &&& par_iter(par, y, (k - 1) as nat) == child_toward(par, dep, x, y)
    } by {
        let k = choose|k: nat| k >= 1 && #[trigger] par_iter(par, y, k) == x;
        lemma_ancestor_depth(par, dep, y, k, x);
        lemma_walk_up(par, dep, y, (k - 1) as nat);
        assert(par_iter(par, y, k) == par[par_iter(par, y, (k - 1) as nat)]);
    }
    // A row reached from child `j` of `x` lies below `x` and hangs off `j`.
    assert forall|y: int| par[j] == x && #[trigger] reach(par, j).contains(y) implies is_below(par, x, y)
        && child_toward(par, dep, x, y) == j by {
        let k0 = choose|k: nat| #[trigger] par_iter(par, y, k) == j;
        lemma_ancestor_depth(par, dep, y, k0, j);
        assert((par[j] == -1 && dep[j] == 0) || (0 <= par[j] < par.len() && dep[j] == dep[par[j]] + 1));
        assert(par_iter(par, y, (k0 + 1) as nat) == par[j]);
        assert(is_below(par, x, y));
    }
    if par[j] == x {
        assert forall|y: int| #[trigger] s1.contains(y) <==> (s0 + reach(par, j)).contains(y) by {
            if s1.contains(y) && !s0.contains(y) {
                let k = (dep[y] - dep[x]) as nat;
                assert(par_iter(par, y, (k - 1) as nat) == j);
                assert(reach(par, j).contains(y));
            }
        }
        assert(s1 =~= s0 + reach(par, j));
    } else {
        assert forall|y: int| #[trigger] s1.contains(y) <==> s0.contains(y) by {
            if s1.contains(y) {
                assert(par[child_toward(par, dep, x, y)] == x);
            }
        }
        assert(s1 =~= s0);
    }
}

proof fn lemma_children_count(par: Seq<int>, dep: Seq<int>, x: int, j: int)
    requires
        is_forest(par, dep),
        0 <= x < par.len(),
        0 <= j <= par.len(),
    ensures
        below_children(par, dep, x, j).len() == children_sum(par, dep, zeros(par.len()), 1, x, j),
    decreases par.len() - dep[x], j,
{
    lemma_sets_finite(par, dep, x, j);
    if j == 0 {
        assert forall|y: int| !#[trigger] below_children(par, dep, x, 0).contains(y) by {
            if below_children(par, dep, x, 0).contains(y) {
                let k = choose|k: nat| k >= 1 && #[trigger] par_iter(par, y, k) == x;
                lemma_ancestor_depth(par, dep, y, k, x);
                lemma_walk_up(par, dep, y, (dep[y] - dep[x] - 1) as nat);
            }
        }
        assert(below_children(par, dep, x, 0) =~= Set::empty());
    } else {
        lemma_children_count(par, dep, x, j - 1);
        lemma_below_children_step(par, dep, x, j - 1);
        lemma_sets_finite(par, dep, x, j - 1);
        if par[j - 1] == x {
            assert(dep[j - 1] == dep[x] + 1);
            lemma_descendant_count(par, dep, j - 1);
            lemma_reach(par, dep, j - 1);
            lemma_sets_finite(par, dep, j - 1, 0);
            vstd::set_lib::lemma_set_disjoint_lens(below_children(par, dep, x, j - 1), reach(par, j - 1));
        }
    }
}

/// A row's descendant count in subtree sums (nothing of its own, one for each
/// row below) is the number of rows strictly below it.
pub proof fn lemma_descendant_count(par: Seq<int>, dep: Seq<int>, x: int)
    requires
        is_forest(par, dep),
        0 <= x < par.len(),
    ensures
        descendants(par, x).finite(),
        descendants(par, x).len() == subtree_sum(par, dep, zeros(par.len()), 1, x),
    decreases par.len() - dep[x], par.len() + 1,
{
    lemma_sets_finite(par, dep, x, par.len() as int);
    lemma_children_count(par, dep, x, par.len() as int);
    assert forall|y: int| #[trigger] descendants(par, x).contains(y) <==> below_children(
        par,
        dep,
        x,
        par.len() as int,
    ).contains(y) by {
        if descendants(par, x).contains(y) {
            let k = choose|k: nat| k >= 1 && #[trigger] par_iter(par, y, k) == x;
            lemma_ancestor_depth(par, dep, y, k, x);
            lemma_walk_up(par, dep, y, (dep[y] - dep[x] - 1) as nat);
        }
    }
    assert(descendants(par, x) =~= below_children(par, dep, x, par.len() as int));
}

/// After a rebuild, each row's rollup counts the rows strictly below it (up to
/// the field's range).
pub proof fn lemma_rollup_counts_descendants(procs: Seq<ProcessRow>, t: ProcessTree, i: int)
    requires
        is_forest(t.parents(), t.depths()),
        t.parents().len() == procs.len(),
        0 <= i < procs.len(),
        rollup_matches(procs, t.parents(), t.depths(), i, t.rollups()[i]),
    ensures
        t.rollups()[i].descendants as int == min_int(descendants(t.parents(), i).len() as int, u32::MAX as int),
{
    lemma_descendant_count(t.parents(), t.depths(), i);
}

} // verus!
