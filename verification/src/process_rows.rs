//! The process table's rows: identity, parentage and subtree rollups.
//!
//! [`ProcessTree`] is rebuilt once per snapshot. It turns each process's parent
//! identity into an index into the snapshot's process list, breaks any cycle a
//! malformed parent chain could form, and folds every process's usage into its
//! ancestors so that a collapsed branch can be shown as one row that still adds up.
use std::collections::HashMap;
use vstd::prelude::*;
use crate::model::{Bytes, ProcessKey};
use crate::format::{bytes_text, dec};
use crate::shell::lower;
use crate::table::{RowId, RowModel};
use vstd::std_specs::iter::IteratorSpec;

verus! {

broadcast use vstd::std_specs::hash::group_hash_axioms;

/// Parent slot of a root.
pub const NONE: u32 = 0xFFFF_FFFF;
/// Depth of a node not yet reached.
const UNKNOWN: u32 = 0xFFFF_FFFF;
/// Depth of a node on the walk currently in progress.
const VISITING: u32 = 0xFFFF_FFFE;

/// The largest list length the tree accepts; indices and depths stay below the
/// reserved slot values.
pub const MAX_PROCS: usize = 0xFFFF_FFF0;

/// What the process tree reads of one process in a snapshot.
#[derive(Debug, Clone)]
pub struct ProcessRow {
    pub key: ProcessKey,
    /// The parent's identity, as the probe resolved it.
    pub parent: Option<ProcessKey>,
    pub name: String,
    pub private_bytes: Bytes,
    pub working_set: Bytes,
    pub disk_read: Bytes,
    pub disk_write: Bytes,
    pub threads: u32,
    pub handles: u32,
}

/// A table row id for a process: the PID mixed with the birth stamp rotated by 32
/// bits, so that two processes sharing a PID get different ids.
pub open spec fn spec_row_id(key: ProcessKey) -> u64 {
    (key.pid as u64) ^ ((key.birth.0 << 32u64) | (key.birth.0 >> 32u64))
}

pub fn row_id(key: ProcessKey) -> (r: RowId)
    ensures
        r.0 == spec_row_id(key),
{
    let b = key.birth.0;
    RowId((key.pid as u64) ^ ((b << 32) | (b >> 32)))
}

/// Two processes with the same PID but different birth stamps get different row
/// ids: a recycled PID never inherits another process's selection or collapse
/// state.
pub proof fn lemma_row_ids_distinguish_pid_reuse(a: ProcessKey, b: ProcessKey)
    requires
        a.pid == b.pid,
        a.birth != b.birth,
    ensures
        spec_row_id(a) != spec_row_id(b),
{
    let p = a.pid as u64;
    let x = a.birth.0;
    let y = b.birth.0;
    assert(x != y);
    assert(x != y ==> (p ^ ((x << 32u64) | (x >> 32u64))) != (p ^ ((y << 32u64) | (y >> 32u64))))
        by (bit_vector);
}

/// The index of the last process in `procs` whose key is `k`, or -1.
pub open spec fn last_index(procs: Seq<ProcessRow>, k: ProcessKey) -> int
    decreases procs.len(),
{
    if procs.len() == 0 {
        -1
    } else if procs.last().key == k {
        procs.len() - 1
    } else {
        last_index(procs.drop_last(), k)
    }
}

/// The index of row `i`'s parent as the snapshot names it, or -1 when it names
/// none, names a process not in the snapshot, or names the row itself.
pub open spec fn link(procs: Seq<ProcessRow>, i: int) -> int {
    match procs[i].parent {
        Some(k) => {
            let j = last_index(procs, k);
            if j == i {
                -1
            } else {
                j
            }
        },
        None => -1,
    }
}

/// Follow `link` `k` times from `i` (-1 once a root is passed).
pub open spec fn link_iter(procs: Seq<ProcessRow>, i: int, k: nat) -> int
    decreases k,
{
    if k == 0 {
        i
    } else {
        let p = link_iter(procs, i, (k - 1) as nat);
        if p < 0 {
            -1
        } else {
            link(procs, p)
        }
    }
}

/// Row `i` lies on a cycle of parent links.
pub open spec fn on_link_cycle(procs: Seq<ProcessRow>, i: int) -> bool {
    exists|k: nat| k >= 1 && #[trigger] link_iter(procs, i, k) == i
}

/// An integer key that two process identities share only if they are equal.
pub open spec fn key_code(k: ProcessKey) -> int {
    (k.pid as int) * 0x1_0000_0000_0000_0000 + (k.birth.0 as int)
}

pub(crate) fn key_code_exec(k: ProcessKey) -> (r: u128)
    ensures
        r == key_code(k),
{
    assert((k.pid as int) * 0x1_0000_0000_0000_0000 + (k.birth.0 as int) < 0x1_0000_0000_0000_0000_0000_0000) by (nonlinear_arith)
        requires
            k.pid < 0x1_0000_0000,
            k.birth.0 < 0x1_0000_0000_0000_0000,
    ;
    (k.pid as u128) * 0x1_0000_0000_0000_0000u128 + (k.birth.0 as u128)
}

pub(crate) proof fn lemma_key_code_injective(a: ProcessKey, b: ProcessKey)
    ensures
        key_code(a) == key_code(b) ==> a == b,
{
    if key_code(a) == key_code(b) {
        assert(a.pid == b.pid && a.birth.0 == b.birth.0) by (nonlinear_arith)
            requires
                (a.pid as int) * 0x1_0000_0000_0000_0000 + (a.birth.0 as int) == (b.pid as int)
                    * 0x1_0000_0000_0000_0000 + (b.birth.0 as int),
                a.birth.0 < 0x1_0000_0000_0000_0000,
                b.birth.0 < 0x1_0000_0000_0000_0000,
        ;
    }
}

/// The parent slot code of a link: `NONE` for -1, else the index.
pub open spec fn code_of(l: int) -> u32 {
    if l < 0 {
        NONE
    } else {
        l as u32
    }
}

spec fn is_final(d: u32) -> bool {
    d < VISITING
}

/// Number of reached (final) depths.
spec fn n_final(d: Seq<u32>) -> nat
    decreases d.len(),
{
    if d.len() == 0 {
        0
    } else {
        n_final(d.drop_last()) + (if is_final(d.last()) {
            1nat
        } else {
            0nat
        })
    }
}

/// Number of depths not yet reached.
spec fn n_unknown(d: Seq<u32>) -> nat
    decreases d.len(),
{
    if d.len() == 0 {
        0
    } else {
        n_unknown(d.drop_last()) + (if d.last() == UNKNOWN {
            1nat
        } else {
            0nat
        })
    }
}

proof fn lemma_counts_update(d: Seq<u32>, i: int, v: u32)
    requires
        0 <= i < d.len(),
    ensures
        n_final(d.update(i, v)) == n_final(d) - (if is_final(d[i]) {
            1int
        } else {
            0int
        }) + (if is_final(v) {
            1int
        } else {
            0int
        }),
        n_unknown(d.update(i, v)) == n_unknown(d) - (if d[i] == UNKNOWN {
            1int
        } else {
            0int
        }) + (if v == UNKNOWN {
            1int
        } else {
            0int
        }),
        n_final(d) <= d.len(),
    decreases d.len(),
{
    let u = d.update(i, v);
    if i == d.len() - 1 {
        assert(u.drop_last() =~= d.drop_last());
    } else {
        lemma_counts_update(d.drop_last(), i, v);
        assert(u.drop_last() =~= d.drop_last().update(i, v));
    }
    lemma_n_final_bound(d);
}

proof fn lemma_n_final_bound(d: Seq<u32>)
    ensures
        n_final(d) <= d.len(),
    decreases d.len(),
{
    if d.len() > 0 {
        lemma_n_final_bound(d.drop_last());
    }
}

/// Sums over a process and everything below it.
#[derive(Debug, Clone, Copy, PartialEq, Eq, Structural, Default)]
pub struct Rollup {
    pub private_bytes: u64,
    pub working_set: u64,
    pub disk_read: u64,
    pub disk_write: u64,
    pub threads: u32,
    pub handles: u32,
    /// Processes below this one, at any depth.
    pub descendants: u32,
}

/// Parent indices, depths and subtree rollups for one snapshot's process list.
#[derive(Debug)]
pub struct ProcessTree {
    /// Parent's index in the process list, or `NONE` for a root.
    parent: Vec<u32>,
    depth: Vec<u32>,
    rollup: Vec<Rollup>,
    index: HashMap<u128, u32>,
    stack: Vec<u32>,
}

/// The invariant of the depth walk between two starting points: reached nodes
/// form a consistent forest; unreached nodes still carry their snapshot link; a
/// link was only ever cut on a cycle.
spec fn walk_inv(procs: Seq<ProcessRow>, parent: Seq<u32>, depth: Seq<u32>) -> bool {
    let n = procs.len();
    &&& parent.len() == n
    &&& depth.len() == n
    &&& forall|i: int| 0 <= i < n ==> #[trigger] depth[i] != VISITING
    &&& forall|i: int| 0 <= i < n && depth[i] == UNKNOWN ==> #[trigger] parent[i] == code_of(link(procs, i))
    &&& forall|i: int| 0 <= i < n ==> parent_ok(procs, parent, i)
    &&& forall|i: int| 0 <= i < n && is_final(depth[i]) ==> final_ok(parent, depth, i)
    &&& forall|i: int| 0 <= i < n ==> cut_ok(procs, parent, depth, i)
}

/// A row `x` that kept its snapshot link and has been reached.
spec fn kept_link(procs: Seq<ProcessRow>, parent: Seq<u32>, depth: Seq<u32>, x: int) -> bool {
    &&& 0 <= x < parent.len()
    &&& parent[x] == code_of(link(procs, x))
    &&& is_final(depth[x])
}

/// If row `i` was cut (it names a parent in the snapshot but holds none), every
/// other row on its cycle kept its link: a cycle is cut once.
spec fn cut_ok(procs: Seq<ProcessRow>, parent: Seq<u32>, depth: Seq<u32>, i: int) -> bool {
    parent[i] == NONE && link(procs, i) >= 0 ==> forall|k: nat|
        #[trigger] link_iter(procs, i, k) != i ==> kept_link(procs, parent, depth, link_iter(procs, i, k))
}

/// Along a walk whose last row links back to `path[m]`, every row reached from
/// `path[m]` lies on the walk at or after `m`.
proof fn lemma_cycle_on_path(procs: Seq<ProcessRow>, path: Seq<int>, m: int, k: nat) -> (t: int)
    requires
        chain(procs, path),
        0 <= m < path.len(),
        forall|u: int| 0 <= u < path.len() ==> path[u] >= 0,
        link(procs, path.last()) == path[m],
    ensures
        m <= t < path.len(),
        link_iter(procs, path[m], k) == path[t],
    decreases k,
{
    if k == 0 {
        m
    } else {
        let t0 = lemma_cycle_on_path(procs, path, m, (k - 1) as nat);
        if t0 + 1 < path.len() {
            assert(link(procs, path[t0]) == path[t0 + 1]);
            t0 + 1
        } else {
            m
        }
    }
}

/// A change that leaves row `i`'s slot alone and touches only an unreached row
/// `j` keeps the cut rule at `i`.
proof fn lemma_cut_ok_frame(
    procs: Seq<ProcessRow>,
    p0: Seq<u32>,
    d0: Seq<u32>,
    p1: Seq<u32>,
    d1: Seq<u32>,
    i: int,
    j: int,
)
    requires
        cut_ok(procs, p0, d0, i),
        p1.len() == p0.len(),
        d1.len() == d0.len(),
        d0.len() == p0.len(),
        p1[i] == p0[i],
        forall|x: int| 0 <= x < p0.len() && x != j ==> #[trigger] p1[x] == p0[x] && d1[x] == d0[x],
        !is_final(d0[j]),
    ensures
        cut_ok(procs, p1, d1, i),
{
    if p1[i] == NONE && link(procs, i) >= 0 {
        assert forall|k: nat| #[trigger] link_iter(procs, i, k) != i implies kept_link(
            procs,
            p1,
            d1,
            link_iter(procs, i, k),
        ) by {
            let x = link_iter(procs, i, k);
            assert(kept_link(procs, p0, d0, x));
            assert(p1[x] == p0[x]);
        }
    }
}

/// Row `i`'s parent slot is its snapshot link, or a cut made on a cycle.
spec fn parent_ok(procs: Seq<ProcessRow>, parent: Seq<u32>, i: int) -> bool {
    ||| parent[i] == code_of(link(procs, i))
    ||| (parent[i] == NONE && on_link_cycle(procs, i))
}

/// Reached row `i` sits one level below its reached parent, or is a root at depth 0;
/// depths stay below the number of reached rows.
spec fn final_ok(parent: Seq<u32>, depth: Seq<u32>, i: int) -> bool {
    &&& depth[i] < n_final(depth)
    &&& if parent[i] == NONE {
        depth[i] == 0
    } else {
        &&& (parent[i] as int) < parent.len()
        &&& is_final(depth[parent[i] as int])
        &&& depth[i] == depth[parent[i] as int] + 1
    }
}

/// Consecutive links along a walk.
spec fn chain(procs: Seq<ProcessRow>, path: Seq<int>) -> bool {
    forall|t: int| 0 <= t < path.len() - 1 ==> link(procs, #[trigger] path[t]) == path[t + 1]
}

proof fn lemma_chain_iter(procs: Seq<ProcessRow>, path: Seq<int>, m: int, t: int)
    requires
        chain(procs, path),
        0 <= m <= t < path.len(),
        forall|u: int| 0 <= u < path.len() ==> path[u] >= 0,
    ensures
        link_iter(procs, path[m], (t - m) as nat) == path[t],
    decreases t - m,
{
    if t > m {
        lemma_chain_iter(procs, path, m, t - 1);
        assert(link(procs, path[t - 1]) == path[t]);
    }
}

/// Walk up from `start` until a reached node or a root, then unwind assigning
/// depths. Meeting a node already on the way up means the chain is a cycle; that
/// node becomes a root.
fn resolve_depth(
    Ghost(procs): Ghost<Seq<ProcessRow>>,
    parent: &mut Vec<u32>,
    depth: &mut Vec<u32>,
    stack: &mut Vec<u32>,
    start: usize,
)
    requires
        walk_inv(procs, old(parent)@, old(depth)@),
        start < procs.len(),
        procs.len() < MAX_PROCS,
        forall|i: int| 0 <= i < procs.len() ==> -1 <= #[trigger] link(procs, i) < procs.len(),
    ensures
        walk_inv(procs, final(parent)@, final(depth)@),
        is_final(final(depth)@[start as int]),
        forall|i: int|
            0 <= i < procs.len() && is_final(old(depth)@[i]) ==> #[trigger] final(depth)@[i]
                == old(depth)@[i] && final(parent)@[i] == old(parent)@[i],
{
    let ghost n = procs.len() as int;
    stack.clear();
    let mut j: usize = start;
    let ghost mut path: Seq<int> = Seq::empty();
    // 0: ended on a root; 1: ended on a cycle; 2: ended on a reached node.
    let ghost mut how: int = 0;
    let ghost old_parent = parent@;
    let ghost old_depth = depth@;
    loop
        invariant_except_break
            parent@.len() == n,
            depth@.len() == n,
            0 <= j < n,
            procs.len() == n,
            n < MAX_PROCS,
            forall|i: int| 0 <= i < n ==> -1 <= #[trigger] link(procs, i) < n,
            old_depth.len() == n,
            old_parent.len() == n,
            stack@.len() == path.len(),
            forall|t: int| 0 <= t < path.len() ==> #[trigger] stack@[t] as int == path[t],
            forall|t: int| 0 <= t < path.len() ==> 0 <= #[trigger] path[t] < n,
            forall|i: int| 0 <= i < n ==> (depth@[i] == VISITING <==> path.contains(i)),
            chain(procs, path),
            path.len() > 0 ==> link(procs, path.last()) == j as int,
            path.len() == 0 ==> j == start,
            path.len() > 0 ==> path[0] == start,
            forall|i: int|
                0 <= i < n && (depth@[i] == UNKNOWN || depth@[i] == VISITING) ==> #[trigger] parent@[i]
                    == code_of(link(procs, i)),
            forall|i: int| 0 <= i < n ==> parent_ok(procs, parent@, i),
            forall|i: int| 0 <= i < n && is_final(depth@[i]) ==> final_ok(parent@, depth@, i),
            forall|i: int| 0 <= i < n ==> cut_ok(procs, parent@, depth@, i),
            forall|i: int|
                0 <= i < n && is_final(old_depth[i]) ==> #[trigger] depth@[i] == old_depth[i]
                    && parent@[i] == old_parent[i],
            forall|i: int| 0 <= i < n && is_final(depth@[i]) ==> is_final(old_depth[i]),
        ensures
            parent@.len() == n,
            depth@.len() == n,
            stack@.len() == path.len(),
            forall|t: int| 0 <= t < path.len() ==> #[trigger] stack@[t] as int == path[t],
            forall|t: int| 0 <= t < path.len() ==> 0 <= #[trigger] path[t] < n,
            chain(procs, path),
            path.len() == 0 ==> j == start && is_final(depth@[start as int]),
            path.len() > 0 ==> path[0] == start,
            0 <= j < n,
            is_final(depth@[j as int]),
            how == 0 ==> path.len() > 0 && j as int == path.last() && parent@[j as int] == NONE,
            how == 1 ==> path.len() > 0 && link(procs, path.last()) == j as int && path.contains(j as int),
            how == 2 ==> path.len() > 0 ==> link(procs, path.last()) == j as int,
            how == 2 ==> !path.contains(j as int),
            how == 0 || how == 1 || how == 2,
            forall|i: int| 0 <= i < n ==> (depth@[i] == VISITING <==> (path.contains(i) && i != j as int)),
            forall|i: int|
                0 <= i < n && (depth@[i] == UNKNOWN || depth@[i] == VISITING) ==> #[trigger] parent@[i]
                    == code_of(link(procs, i)),
            forall|i: int| 0 <= i < n ==> parent_ok(procs, parent@, i),
            forall|i: int| 0 <= i < n && is_final(depth@[i]) ==> final_ok(parent@, depth@, i),
            forall|i: int|
                0 <= i < n && is_final(old_depth[i]) ==> #[trigger] depth@[i] == old_depth[i]
                    && parent@[i] == old_parent[i],
            forall|i: int| 0 <= i < n && is_final(depth@[i]) && i != j as int ==> is_final(old_depth[i]),
            forall|i: int| 0 <= i < n && (how != 1 || i != j as int) ==> cut_ok(procs, parent@, depth@, i),
            how == 1 ==> parent@[j as int] == NONE,
        decreases n_unknown(depth@),
    {
        let d = depth[j];
        if d == UNKNOWN {
            let ghost d_prev = depth@;
            proof {
                lemma_counts_update(depth@, j as int, VISITING);
            }
            depth.set(j, VISITING);
            proof {
                assert forall|i: int| 0 <= i < n && is_final(depth@[i]) implies final_ok(parent@, depth@, i) by {
                    assert(is_final(d_prev[i]));
                    assert(final_ok(parent@, d_prev, i));
                }
                assert forall|i: int| 0 <= i < n implies cut_ok(procs, parent@, depth@, i) by {
                    lemma_cut_ok_frame(procs, parent@, d_prev, parent@, depth@, i, j as int);
                }
            }
            stack.push(j as u32);
            proof {
                let old_path = path;
                path = path.push(j as int);
                assert(chain(procs, path));
                assert forall|i: int| #[trigger] path.contains(i) == (old_path.contains(i) || i == j as int) by {
                    if old_path.contains(i) {
                        let t = choose|t: int| 0 <= t < old_path.len() && old_path[t] == i;
                        assert(path[t] == i);
                    }
                    if i == j as int {
                        assert(path[path.len() - 1] == i);
                    }
                    if path.contains(i) && i != j as int {
                        let t = choose|t: int| 0 <= t < path.len() && path[t] == i;
                        assert(old_path[t] == i);
                    }
                }
            }
            let p = parent[j];
            if p == NONE {
                let ghost d0 = depth@;
                proof {
                    lemma_counts_update(depth@, j as int, 0);
                }
                depth.set(j, 0);
                proof {
                    how = 0;
                    assert forall|i: int| 0 <= i < n && is_final(depth@[i]) implies final_ok(parent@, depth@, i) by {
                        if i != j as int {
                            assert(is_final(d0[i]));
                            assert(final_ok(parent@, d0, i));
                        }
                    }
                    assert forall|i: int| 0 <= i < n implies cut_ok(procs, parent@, depth@, i) by {
                        lemma_cut_ok_frame(procs, parent@, d0, parent@, depth@, i, j as int);
                    }
                }
                break;
            }
            j = p as usize;
        } else if d == VISITING {
            proof {
                assert(path.contains(j as int));
                let m = choose|m: int| 0 <= m < path.len() && path[m] == j as int;
                lemma_chain_iter(procs, path, m, path.len() - 1);
                let k = (path.len() - m) as nat;
                assert(link_iter(procs, path[m], (k - 1) as nat) == path.last());
                assert(link_iter(procs, path[m], k) == link(procs, path.last()));
                assert(link_iter(procs, j as int, k) == j as int);
                assert(on_link_cycle(procs, j as int));
                lemma_counts_update(depth@, j as int, 0);
                how = 1;
            }
            let ghost p0 = parent@;
            let ghost d0 = depth@;
            parent.set(j, NONE);
            depth.set(j, 0);
            proof {
                assert forall|i: int| 0 <= i < n implies parent_ok(procs, parent@, i) by {
                    if i != j as int {
                        assert(parent_ok(procs, p0, i));
                    }
                }
                assert forall|i: int| 0 <= i < n && is_final(depth@[i]) implies final_ok(parent@, depth@, i) by {
                    if i != j as int {
                        assert(is_final(d0[i]));
                        assert(final_ok(p0, d0, i));
                    }
                }
                assert forall|i: int| 0 <= i < n && i != j as int implies cut_ok(procs, parent@, depth@, i) by {
                    lemma_cut_ok_frame(procs, p0, d0, parent@, depth@, i, j as int);
                }
            }
            break;
        } else {
            proof {
                how = 2;
            }
            break;
        }
    }
    let ghost jend = j as int;
    let ghost p1 = parent@;
    let ghost d1 = depth@;
    proof {
        assert forall|t: int| 0 <= t < path.len() && path[t] != jend implies #[trigger] p1[path[t]]
            == code_of(link(procs, path[t])) by {
            assert(path.contains(path[t]));
            assert(depth@[path[t]] == VISITING);
        }
        lemma_n_final_bound(depth@);
        assert forall|i: int| 0 <= i < n && depth@[i] == VISITING implies exists|t: int|
            0 <= t < stack@.len() && #[trigger] path[t] == i by {
            assert(path.contains(i));
            let t = choose|t: int| 0 <= t < path.len() && path[t] == i;
            assert(path[t] == i);
        }
        assert forall|t: int| 0 <= t < path.len() implies depth@[#[trigger] path[t]] != UNKNOWN by {
            assert(path.contains(path[t]));
        }
    }
    while stack.len() > 0
        invariant
            parent@.len() == n,
            depth@.len() == n,
            procs.len() == n,
            n < MAX_PROCS,
            old_depth.len() == n,
            old_parent.len() == n,
            forall|i: int| 0 <= i < n ==> -1 <= #[trigger] link(procs, i) < n,
            stack@.len() <= path.len(),
            forall|t: int| 0 <= t < stack@.len() ==> #[trigger] stack@[t] as int == path[t],
            forall|t: int| 0 <= t < path.len() ==> 0 <= #[trigger] path[t] < n,
            chain(procs, path),
            path.len() == 0 ==> start as int == jend,
            path.len() > 0 ==> path[0] == start,
            0 <= jend < n,
            is_final(depth@[jend]),
            how == 0 ==> path.len() > 0 && jend == path.last(),
            how != 0 ==> path.len() > 0 ==> link(procs, path.last()) == jend,
            forall|i: int|
                0 <= i < n && depth@[i] == VISITING ==> exists|t: int|
                    0 <= t < stack@.len() && #[trigger] path[t] == i,
            forall|t: int| stack@.len() <= t < path.len() ==> is_final(depth@[#[trigger] path[t]]),
            forall|t: int| 0 <= t < path.len() ==> depth@[#[trigger] path[t]] != UNKNOWN,
            forall|i: int|
                0 <= i < n && (depth@[i] == UNKNOWN || depth@[i] == VISITING) ==> #[trigger] parent@[i]
                    == code_of(link(procs, i)),
            forall|i: int| 0 <= i < n ==> parent_ok(procs, parent@, i),
            forall|i: int| 0 <= i < n && is_final(depth@[i]) ==> final_ok(parent@, depth@, i),
            forall|i: int|
                0 <= i < n && is_final(old_depth[i]) ==> #[trigger] depth@[i] == old_depth[i]
                    && parent@[i] == old_parent[i],
            n_final(depth@) <= n,
            parent@ == p1,
            forall|i: int| 0 <= i < n && is_final(d1[i]) ==> #[trigger] depth@[i] == d1[i],
            forall|i: int| 0 <= i < n && (how != 1 || i != jend) ==> cut_ok(procs, parent@, depth@, i),
        decreases stack@.len(),
    {
        let t = stack.len() - 1;
        let popped = stack.pop();
        let k = match popped {
            Some(k) => k as usize,
            None => 0,
        };
        assert(k as int == path[t as int]);
        if depth[k] == VISITING {
            let p = parent[k];
            proof {
                assert(parent@[k as int] == code_of(link(procs, k as int)));
                if t + 1 < path.len() {
                    assert(link(procs, path[t as int]) == path[t + 1]);
                    assert(is_final(depth@[path[t + 1]]));
                    assert(p as int == path[t + 1]);
                } else {
                    assert(how != 0);
                    assert(p as int == jend);
                }
                assert(p != NONE);
                assert(is_final(depth@[p as int]));
                assert(final_ok(parent@, depth@, p as int));
                assert(depth@[p as int] < n_final(depth@));
            }
            let nd = if p == NONE {
                0
            } else {
                depth[p as usize] + 1
            };
            let ghost d0 = depth@;
            proof {
                lemma_counts_update(depth@, k as int, nd);
            }
            depth.set(k, nd);
            proof {
                assert forall|i: int| 0 <= i < n && (how != 1 || i != jend) implies cut_ok(
                    procs,
                    parent@,
                    depth@,
                    i,
                ) by {
                    lemma_cut_ok_frame(procs, parent@, d0, parent@, depth@, i, k as int);
                }
                lemma_n_final_bound(depth@);
                assert forall|i: int| 0 <= i < n && is_final(depth@[i]) implies final_ok(parent@, depth@, i) by {
                    if i != k as int {
                        assert(is_final(d0[i]));
                        assert(final_ok(parent@, d0, i));
                    } else {
                        assert(p as int != k as int);
                        assert(depth@[p as int] == d0[p as int]);
                    }
                }
                assert forall|i: int| 0 <= i < n && depth@[i] == VISITING implies exists|u: int|
                    0 <= u < stack@.len() && #[trigger] path[u] == i by {
                    let u = choose|u: int| 0 <= u < t + 1 && #[trigger] path[u] == i;
                    assert(u != t);
                }
            }
        } else {
            proof {
                assert forall|i: int| 0 <= i < n && depth@[i] == VISITING implies exists|u: int|
                    0 <= u < stack@.len() && #[trigger] path[u] == i by {
                    let u = choose|u: int| 0 <= u < t + 1 && #[trigger] path[u] == i;
                    assert(u != t);
                }
            }
        }
    }
    proof {
        if path.len() > 0 {
            assert(is_final(depth@[path[0]]));
        }
        if how == 1 {
            let m = choose|m: int| 0 <= m < path.len() && path[m] == jend;
            assert forall|k: nat| #[trigger] link_iter(procs, jend, k) != jend implies kept_link(
                procs,
                parent@,
                depth@,
                link_iter(procs, jend, k),
            ) by {
                let t = lemma_cycle_on_path(procs, path, m, k);
                assert(p1[path[t]] == code_of(link(procs, path[t])));
                assert(is_final(depth@[path[t]]));
            }
            assert(cut_ok(procs, parent@, depth@, jend));
        }
    }
}

proof fn lemma_last_index_range(procs: Seq<ProcessRow>, k: ProcessKey)
    ensures
        -1 <= last_index(procs, k) < procs.len(),
        last_index(procs, k) >= 0 ==> procs[last_index(procs, k)].key == k,
    decreases procs.len(),
{
    if procs.len() > 0 {
        lemma_last_index_range(procs.drop_last(), k);
    }
}

proof fn lemma_link_range(procs: Seq<ProcessRow>)
    ensures
        forall|i: int| 0 <= i < procs.len() ==> -1 <= #[trigger] link(procs, i) < procs.len(),
{
    assert forall|i: int| 0 <= i < procs.len() implies -1 <= #[trigger] link(procs, i) < procs.len() by {
        if let Some(k) = procs[i].parent {
            lemma_last_index_range(procs, k);
        }
    }
}

/// Map each row's parent identity to the row index holding it (the last such
/// row), or `NONE`.
fn resolve_links(procs: &[ProcessRow], index: &mut HashMap<u128, u32>, parent: &mut Vec<u32>)
    requires
        procs@.len() < MAX_PROCS,
    ensures
        final(parent)@.len() == procs@.len(),
        forall|i: int| 0 <= i < procs@.len() ==> #[trigger] final(parent)@[i] == code_of(link(procs@, i)),
{
    let n = procs.len();
    index.clear();
    let mut i: usize = 0;
    while i < n
        invariant
            n == procs@.len(),
            n < MAX_PROCS,
            i <= n,
            forall|k: ProcessKey|
                #![trigger key_code(k)]
                (index@.contains_key(key_code(k) as u128) <==> last_index(procs@.take(i as int), k) >= 0)
                    && (index@.contains_key(key_code(k) as u128) ==> index@[key_code(k) as u128] as int
                    == last_index(procs@.take(i as int), k)),
        decreases n - i,
    {
        let code = key_code_exec(procs[i].key);
        let ghost before = index@;
        index.insert(code, i as u32);
        proof {
            assert forall|k: ProcessKey| #![trigger key_code(k)]
                (index@.contains_key(key_code(k) as u128) <==> last_index(procs@.take(i + 1), k) >= 0)
                    && (index@.contains_key(key_code(k) as u128) ==> index@[key_code(k) as u128] as int
                    == last_index(procs@.take(i + 1), k)) by {
                assert(procs@.take(i + 1).drop_last() =~= procs@.take(i as int));
                lemma_key_code_injective(k, procs@[i as int].key);
                assert(0 <= key_code(k) < 0x1_0000_0000_0000_0000_0000_0000) by (nonlinear_arith)
                    requires
                        k.pid < 0x1_0000_0000,
                        k.birth.0 < 0x1_0000_0000_0000_0000,
                        key_code(k) == (k.pid as int) * 0x1_0000_0000_0000_0000 + (k.birth.0 as int),
                ;
            }
        }
        i = i + 1;
    }
    proof {
        assert(procs@.take(n as int) =~= procs@);
    }
    parent.clear();
    let mut i: usize = 0;
    while i < n
        invariant
            n == procs@.len(),
            n < MAX_PROCS,
            i <= n,
            parent@.len() == i,
            forall|k: ProcessKey|
                #![trigger key_code(k)]
                (index@.contains_key(key_code(k) as u128) <==> last_index(procs@, k) >= 0)
                    && (index@.contains_key(key_code(k) as u128) ==> index@[key_code(k) as u128] as int
                    == last_index(procs@, k)),
            forall|t: int| 0 <= t < i ==> #[trigger] parent@[t] == code_of(link(procs@, t)),
        decreases n - i,
    {
        let slot = match &procs[i].parent {
            Some(k) => {
                let code = key_code_exec(*k);
                proof {
                    let kk = *k;
                    assert(index@.contains_key(key_code(kk) as u128) ==> index@[key_code(kk) as u128] as int
                        == last_index(procs@, kk));
                    lemma_last_index_range(procs@, kk);
                }
                match index.get(&code) {
                    Some(pi) => {
                        if *pi as usize != i {
                            *pi
                        } else {
                            NONE
                        }
                    },
                    None => NONE,
                }
            },
            None => NONE,
        };
        parent.push(slot);
        i = i + 1;
    }
}

/// Parent links as integers, -1 for a root.
pub open spec fn parents_of(parent: Seq<u32>) -> Seq<int> {
    parent.map_values(|v: u32| if v == NONE { -1int } else { v as int })
}

pub open spec fn ints_of(v: Seq<u32>) -> Seq<int> {
    v.map_values(|x: u32| x as int)
}

pub open spec fn ints_of64(v: Seq<u64>) -> Seq<int> {
    v.map_values(|x: u64| x as int)
}

/// A forest given by parent links and depths: every parent is -1 (a root, at
/// depth 0) or another node exactly one level up, and depths stay below the node
/// count.
pub open spec fn is_forest(par: Seq<int>, depth: Seq<int>) -> bool {
    &&& par.len() == depth.len()
    &&& forall|i: int| 0 <= i < par.len() ==> 0 <= #[trigger] depth[i] < par.len()
    &&& forall|i: int|
        0 <= i < par.len() ==> (#[trigger] par[i] == -1 && depth[i] == 0) || (0 <= par[i] < par.len()
            && depth[i] == depth[par[i]] + 1)
}

/// The total of `own` over the subtree rooted at `x`, with `bonus` added once per
/// node below `x`.
pub open spec fn subtree_sum(par: Seq<int>, depth: Seq<int>, own: Seq<int>, bonus: int, x: int) -> int
    decreases par.len() - depth[x], par.len() + 1,
    when is_forest(par, depth) && 0 <= x < par.len()
{
    own[x] + children_sum(par, depth, own, bonus, x, par.len() as int)
}

/// The subtree totals (each plus `bonus`) of `x`'s children among the first `j`
/// nodes.
pub open spec fn children_sum(
    par: Seq<int>,
    depth: Seq<int>,
    own: Seq<int>,
    bonus: int,
    x: int,
    j: int,
) -> int
    decreases par.len() - depth[x], j,
    when is_forest(par, depth) && 0 <= x < par.len() && 0 <= j <= par.len()
{
    if j <= 0 {
        0
    } else {
        children_sum(par, depth, own, bonus, x, j - 1) + (if par[j - 1] == x {
            subtree_sum(par, depth, own, bonus, j - 1) + bonus
        } else {
            0
        })
    }
}

proof fn lemma_no_children_sum(par: Seq<int>, depth: Seq<int>, own: Seq<int>, bonus: int, x: int, j: int)
    requires
        is_forest(par, depth),
        0 <= x < par.len(),
        0 <= j <= par.len(),
        forall|c: int| 0 <= c < j ==> #[trigger] par[c] != x,
    ensures
        children_sum(par, depth, own, bonus, x, j) == 0,
    decreases j,
{
    if j > 0 {
        lemma_no_children_sum(par, depth, own, bonus, x, j - 1);
    }
}

pub open spec fn min_int(a: int, b: int) -> int {
    if a <= b {
        a
    } else {
        b
    }
}

fn sat_add(a: u64, b: u64, max: u64) -> (r: u64)
    requires
        a <= max,
        b <= max,
    ensures
        r == min_int(a + b, max as int),
{
    if b > max - a {
        max
    } else {
        a + b
    }
}

/// Fold every node's value into its ancestors, deepest level first, saturating at
/// `max` and adding `bonus` once per folded node.
fn fold_sums(parent: &Vec<u32>, depth: &Vec<u32>, own: Vec<u64>, max: u64, bonus: u64) -> (r: Vec<u64>)
    requires
        is_forest(parents_of(parent@), ints_of(depth@)),
        own@.len() == parent@.len(),
        bonus <= max,
        forall|i: int| 0 <= i < own@.len() ==> own@[i] <= max,
    ensures
        r@.len() == parent@.len(),
        forall|i: int|
            0 <= i < parent@.len() ==> #[trigger] r@[i] as int == min_int(
                subtree_sum(parents_of(parent@), ints_of(depth@), ints_of64(own@), bonus as int, i),
                max as int,
            ),
{
    let n = parent.len();
    let ghost par = parents_of(parent@);
    let ghost dep = ints_of(depth@);
    let ghost ow = ints_of64(own@);
    let mut maxd: u32 = 0;
    let mut i: usize = 0;
    while i < n
        invariant
            n == parent@.len(),
            depth@.len() == n,
            i <= n,
            forall|t: int| 0 <= t < i ==> depth@[t] <= maxd,
        decreases n - i,
    {
        if depth[i] > maxd {
            maxd = depth[i];
        }
        i = i + 1;
    }
    let mut r = own;
    proof {
        assert forall|x: int| 0 <= x < n && dep[x] >= maxd implies r@[x] as int == min_int(
            subtree_sum(par, dep, ow, bonus as int, x),
            max as int,
        ) by {
            assert forall|c: int| 0 <= c < n implies #[trigger] par[c] != x by {
                if par[c] == x {
                    assert(dep[c] == dep[x] + 1);
                }
            }
            lemma_no_children_sum(par, dep, ow, bonus as int, x, n as int);
        }
    }
    let mut level: u32 = maxd;
    while level > 0
        invariant
            n == parent@.len(),
            depth@.len() == n,
            r@.len() == n,
            par == parents_of(parent@),
            dep == ints_of(depth@),
            ow == ints_of64(own@),
            own@.len() == n,
            is_forest(par, dep),
            bonus <= max,
            forall|x: int| 0 <= x < n ==> own@[x] <= max,
            forall|x: int|
                0 <= x < n && dep[x] >= level ==> #[trigger] r@[x] as int == min_int(
                    subtree_sum(par, dep, ow, bonus as int, x),
                    max as int,
                ),
            forall|x: int| 0 <= x < n && dep[x] < level ==> #[trigger] r@[x] == own@[x],
        decreases level,
    {
        let mut j: usize = 0;
        while j < n
            invariant
                n == parent@.len(),
                depth@.len() == n,
                r@.len() == n,
                par == parents_of(parent@),
                dep == ints_of(depth@),
                ow == ints_of64(own@),
                own@.len() == n,
                is_forest(par, dep),
                bonus <= max,
                level >= 1,
                j <= n,
                forall|x: int| 0 <= x < n ==> own@[x] <= max,
                forall|x: int|
                    0 <= x < n && dep[x] >= level ==> #[trigger] r@[x] as int == min_int(
                        subtree_sum(par, dep, ow, bonus as int, x),
                        max as int,
                    ),
                forall|x: int|
                    0 <= x < n && dep[x] == level - 1 ==> #[trigger] r@[x] as int == min_int(
                        ow[x] + children_sum(par, dep, ow, bonus as int, x, j as int),
                        max as int,
                    ),
                forall|x: int| 0 <= x < n && dep[x] < level - 1 ==> #[trigger] r@[x] == own@[x],
            decreases n - j,
        {
            if depth[j] == level {
                let p = parent[j] as usize;
                proof {
                    assert(par[j as int] != -1);
                    assert(dep[p as int] == level - 1);
                }
                let a = r[p];
                let b = r[j];
                let s1 = sat_add(a, b, max);
                let s2 = sat_add(s1, bonus, max);
                r.set(p, s2);
            }
            j = j + 1;
        }
        level = level - 1;
    }
    r
}

pub open spec fn own_private_bytes(procs: Seq<ProcessRow>) -> Seq<int> {
    procs.map_values(|p: ProcessRow| p.private_bytes.0 as int)
}

pub open spec fn own_working_set(procs: Seq<ProcessRow>) -> Seq<int> {
    procs.map_values(|p: ProcessRow| p.working_set.0 as int)
}

pub open spec fn own_disk_read(procs: Seq<ProcessRow>) -> Seq<int> {
    procs.map_values(|p: ProcessRow| p.disk_read.0 as int)
}

pub open spec fn own_disk_write(procs: Seq<ProcessRow>) -> Seq<int> {
    procs.map_values(|p: ProcessRow| p.disk_write.0 as int)
}

pub open spec fn own_threads(procs: Seq<ProcessRow>) -> Seq<int> {
    procs.map_values(|p: ProcessRow| p.threads as int)
}

pub open spec fn own_handles(procs: Seq<ProcessRow>) -> Seq<int> {
    procs.map_values(|p: ProcessRow| p.handles as int)
}

pub open spec fn zeros(n: nat) -> Seq<int> {
    Seq::new(n, |i: int| 0int)
}

/// What `rollup` holds for row `x` of a tree with links `par` and depths `dep`
/// over `procs`: each field is the subtree total, saturated at the field's range;
/// `descendants` counts the nodes below `x`.
pub open spec fn rollup_matches(
    procs: Seq<ProcessRow>,
    par: Seq<int>,
    dep: Seq<int>,
    x: int,
    r: Rollup,
) -> bool {
    &&& r.private_bytes as int == min_int(
        subtree_sum(par, dep, own_private_bytes(procs), 0, x),
        u64::MAX as int,
    )
    &&& r.working_set as int == min_int(
        subtree_sum(par, dep, own_working_set(procs), 0, x),
        u64::MAX as int,
    )
    &&& r.disk_read as int == min_int(subtree_sum(par, dep, own_disk_read(procs), 0, x), u64::MAX as int)
    &&& r.disk_write as int == min_int(
        subtree_sum(par, dep, own_disk_write(procs), 0, x),
        u64::MAX as int,
    )
    &&& r.threads as int == min_int(subtree_sum(par, dep, own_threads(procs), 0, x), u32::MAX as int)
    &&& r.handles as int == min_int(subtree_sum(par, dep, own_handles(procs), 0, x), u32::MAX as int)
    &&& r.descendants as int == min_int(
        subtree_sum(par, dep, zeros(procs.len()), 1, x),
        u32::MAX as int,
    )
}

/// Following kept links from `i` for `k` steps stays in range and climbs one
/// level per step.
proof fn lemma_kept_walk(procs: Seq<ProcessRow>, par: Seq<int>, dep: Seq<int>, i: int, k: nat)
    requires
        is_forest(par, dep),
        par.len() == procs.len(),
        0 <= i < par.len(),
        forall|x: int| 0 <= x < par.len() ==> #[trigger] par[x] == link(procs, x) || par[x] == -1,
        forall|u: nat| u < k ==> par[#[trigger] link_iter(procs, i, u)] != -1,
    ensures
        0 <= link_iter(procs, i, k) < par.len(),
        dep[link_iter(procs, i, k)] == dep[i] - k,
    decreases k,
{
    if k > 0 {
        let k1 = (k - 1) as nat;
        lemma_kept_walk(procs, par, dep, i, k1);
        let x = link_iter(procs, i, k1);
        assert(par[x] != -1);
        assert(par[x] == link(procs, x));
    }
}

/// Walking the cycle through `i` (of length `cyc`) from step `k`, where no
/// earlier step met a cut, some step meets one.
proof fn lemma_first_cut(procs: Seq<ProcessRow>, par: Seq<int>, dep: Seq<int>, i: int, cyc: nat, k: nat)
    requires
        is_forest(par, dep),
        par.len() == procs.len(),
        0 <= i < par.len(),
        forall|x: int| 0 <= x < par.len() ==> #[trigger] par[x] == link(procs, x) || par[x] == -1,
        cyc >= 1,
        link_iter(procs, i, cyc) == i,
        k <= cyc,
        forall|u: nat| u < k ==> par[#[trigger] link_iter(procs, i, u)] != -1,
    ensures
        exists|c: nat|
            0 <= #[trigger] link_iter(procs, i, c) < par.len() && par[link_iter(procs, i, c)] == -1,
    decreases cyc - k,
{
    lemma_kept_walk(procs, par, dep, i, k);
    let x = link_iter(procs, i, k);
    if k < cyc && par[x] != -1 {
        assert(forall|u: nat| u < k + 1 ==> par[#[trigger] link_iter(procs, i, u)] != -1);
        lemma_first_cut(procs, par, dep, i, cyc, k + 1);
    } else if k == cyc && par[x] != -1 {
        assert(dep[i] == dep[i] - cyc);
    }
}

/// In a forest whose links are the snapshot's links or cuts, every cycle of
/// snapshot links holds a cut row.
pub proof fn lemma_cycle_holds_a_cut(procs: Seq<ProcessRow>, par: Seq<int>, dep: Seq<int>, i: int)
    requires
        is_forest(par, dep),
        par.len() == procs.len(),
        0 <= i < par.len(),
        forall|x: int| 0 <= x < par.len() ==> #[trigger] par[x] == link(procs, x) || par[x] == -1,
        on_link_cycle(procs, i),
    ensures
        exists|c: nat|
            0 <= #[trigger] link_iter(procs, i, c) < par.len() && par[link_iter(procs, i, c)] == -1,
{
    let cyc = choose|cyc: nat| cyc >= 1 && #[trigger] link_iter(procs, i, cyc) == i;
    lemma_first_cut(procs, par, dep, i, cyc, 0);
}

impl ProcessTree {
    /// Parent of each row as an index, -1 for a root.
    pub closed spec fn parents(&self) -> Seq<int> {
        parents_of(self.parent@)
    }

    /// Depth of each row below its root.
    pub closed spec fn depths(&self) -> Seq<int> {
        ints_of(self.depth@)
    }

    /// Subtree rollup of each row.
    pub closed spec fn rollups(&self) -> Seq<Rollup> {
        self.rollup@
    }

    /// An empty tree, for an empty process list.
    pub fn new() -> (t: ProcessTree)
        ensures
            t.parents() == Seq::<int>::empty(),
            t.depths() == Seq::<int>::empty(),
            t.rollups() == Seq::<Rollup>::empty(),
    {
        let t = ProcessTree {
            parent: Vec::new(),
            depth: Vec::new(),
            rollup: Vec::new(),
            index: HashMap::new(),
            stack: Vec::new(),
        };
        proof {
            assert(t.parents() =~= Seq::<int>::empty());
            assert(t.depths() =~= Seq::<int>::empty());
        }
        t
    }

    /// Recompute for a new process list: parent indices, depths with every parent
    /// cycle broken at exactly one of its rows, and subtree rollups.
    pub fn rebuild(&mut self, procs: &[ProcessRow])
        requires
            procs@.len() < MAX_PROCS,
        ensures
            final(self).parents().len() == procs@.len(),
            final(self).rollups().len() == procs@.len(),
            is_forest(final(self).parents(), final(self).depths()),
            forall|i: int|
                0 <= i < procs@.len() ==> #[trigger] final(self).parents()[i] == link(procs@, i) || (
                final(self).parents()[i] == -1 && on_link_cycle(procs@, i)),
            forall|i: int|
                0 <= i < procs@.len() && on_link_cycle(procs@, i) ==> exists|c: nat|
                    0 <= #[trigger] link_iter(procs@, i, c) < procs@.len() && final(self).parents()[link_iter(
                        procs@,
                        i,
                        c,
                    )] == -1,
            forall|i: int, k: nat|
                0 <= i < procs@.len() && final(self).parents()[i] == -1 && link(procs@, i) >= 0
                    && #[trigger] link_iter(procs@, i, k) != i ==> 0 <= link_iter(procs@, i, k)
                    < procs@.len() && final(self).parents()[link_iter(procs@, i, k)] == link(
                    procs@,
                    link_iter(procs@, i, k),
                ),
            forall|i: int|
                0 <= i < procs@.len() && (procs@[i].parent is None || last_index(
                    procs@,
                    procs@[i].parent->0,
                ) == -1) ==> #[trigger] final(self).parents()[i] == -1,
            forall|i: int|
                0 <= i < procs@.len() ==> rollup_matches(
                    procs@,
                    final(self).parents(),
                    final(self).depths(),
                    i,
                    #[trigger] final(self).rollups()[i],
                ),
    {
        let n = procs.len();
        resolve_links(procs, &mut self.index, &mut self.parent);
        proof {
            lemma_link_range(procs@);
        }
        self.depth.clear();
        let mut i: usize = 0;
        while i < n
            invariant
                n == procs@.len(),
                i <= n,
                self.depth@.len() == i,
                forall|t: int| 0 <= t < i ==> self.depth@[t] == UNKNOWN,
                self.parent@.len() == n,
                forall|t: int| 0 <= t < n ==> #[trigger] self.parent@[t] == code_of(link(procs@, t)),
            decreases n - i,
        {
            self.depth.push(UNKNOWN);
            i = i + 1;
        }
        proof {
            assert forall|t: int| 0 <= t < n implies parent_ok(procs@, self.parent@, t) by {
                assert(self.parent@[t] == code_of(link(procs@, t)));
            }
        }
        let mut i: usize = 0;
        while i < n
            invariant
                n == procs@.len(),
                n < MAX_PROCS,
                i <= n,
                forall|t: int| 0 <= t < n ==> -1 <= #[trigger] link(procs@, t) < n,
                walk_inv(procs@, self.parent@, self.depth@),
                forall|t: int| 0 <= t < i ==> is_final(#[trigger] self.depth@[t]),
            decreases n - i,
        {
            resolve_depth(Ghost(procs@), &mut self.parent, &mut self.depth, &mut self.stack, i);
            i = i + 1;
        }
        proof {
            let par = parents_of(self.parent@);
            let dep = ints_of(self.depth@);
            lemma_n_final_bound(self.depth@);
            assert forall|t: int| 0 <= t < n implies (#[trigger] par[t] == -1 && dep[t] == 0) || (0
                <= par[t] < n && dep[t] == dep[par[t]] + 1) by {
                assert(final_ok(self.parent@, self.depth@, t));
            }
            assert forall|t: int| 0 <= t < n implies 0 <= #[trigger] dep[t] < n by {
                assert(final_ok(self.parent@, self.depth@, t));
            }
            assert(is_forest(par, dep));
            assert forall|t: int| 0 <= t < n implies #[trigger] par[t] == link(procs@, t) || (par[t]
                == -1 && on_link_cycle(procs@, t)) by {
                assert(parent_ok(procs@, self.parent@, t));
            }
            assert forall|t: int| 0 <= t < n && on_link_cycle(procs@, t) implies exists|c: nat|
                0 <= #[trigger] link_iter(procs@, t, c) < n && par[link_iter(procs@, t, c)] == -1 by {
                lemma_cycle_holds_a_cut(procs@, par, dep, t);
            }
            assert forall|t: int, k: nat|
                0 <= t < n && par[t] == -1 && link(procs@, t) >= 0 && #[trigger] link_iter(procs@, t, k)
                    != t implies 0 <= link_iter(procs@, t, k) < n && par[link_iter(procs@, t, k)]
                == link(procs@, link_iter(procs@, t, k)) by {
                assert(cut_ok(procs@, self.parent@, self.depth@, t));
                let x = link_iter(procs@, t, k);
                assert(kept_link(procs@, self.parent@, self.depth@, x));
            }
        }
        let ghost par0 = self.parent@;
        let ghost dep0 = self.depth@;
        let mut pb: Vec<u64> = Vec::new();
        let mut ws: Vec<u64> = Vec::new();
        let mut dr: Vec<u64> = Vec::new();
        let mut dw: Vec<u64> = Vec::new();
        let mut th: Vec<u64> = Vec::new();
        let mut hd: Vec<u64> = Vec::new();
        let mut zs: Vec<u64> = Vec::new();
        let mut i: usize = 0;
        while i < n
            invariant
                n == procs@.len(),
                i <= n,
                pb@.len() == i && ws@.len() == i && dr@.len() == i && dw@.len() == i,
                th@.len() == i && hd@.len() == i && zs@.len() == i,
                self.parent@ == par0,
                self.depth@ == dep0,
                forall|t: int| 0 <= t < i ==> #[trigger] pb@[t] == procs@[t].private_bytes.0,
                forall|t: int| 0 <= t < i ==> #[trigger] ws@[t] == procs@[t].working_set.0,
                forall|t: int| 0 <= t < i ==> #[trigger] dr@[t] == procs@[t].disk_read.0,
                forall|t: int| 0 <= t < i ==> #[trigger] dw@[t] == procs@[t].disk_write.0,
                forall|t: int| 0 <= t < i ==> #[trigger] th@[t] == procs@[t].threads,
                forall|t: int| 0 <= t < i ==> #[trigger] hd@[t] == procs@[t].handles,
                forall|t: int| 0 <= t < i ==> #[trigger] zs@[t] == 0,
            decreases n - i,
        {
            let p = &procs[i];
            pb.push(p.private_bytes.0);
            ws.push(p.working_set.0);
            dr.push(p.disk_read.0);
            dw.push(p.disk_write.0);
            th.push(p.threads as u64);
            hd.push(p.handles as u64);
            zs.push(0);
            i = i + 1;
        }
        proof {
            assert(ints_of64(pb@) =~= own_private_bytes(procs@));
            assert(ints_of64(ws@) =~= own_working_set(procs@));
            assert(ints_of64(dr@) =~= own_disk_read(procs@));
            assert(ints_of64(dw@) =~= own_disk_write(procs@));
            assert(ints_of64(th@) =~= own_threads(procs@));
            assert(ints_of64(hd@) =~= own_handles(procs@));
            assert(ints_of64(zs@) =~= zeros(n as nat));
        }
        let max32 = 0xFFFF_FFFFu64;
        let r_pb = fold_sums(&self.parent, &self.depth, pb, u64::MAX, 0);
        let r_ws = fold_sums(&self.parent, &self.depth, ws, u64::MAX, 0);
        let r_dr = fold_sums(&self.parent, &self.depth, dr, u64::MAX, 0);
        let r_dw = fold_sums(&self.parent, &self.depth, dw, u64::MAX, 0);
        let r_th = fold_sums(&self.parent, &self.depth, th, max32, 0);
        let r_hd = fold_sums(&self.parent, &self.depth, hd, max32, 0);
        let r_zs = fold_sums(&self.parent, &self.depth, zs, max32, 1);
        self.rollup.clear();
        let mut i: usize = 0;
        while i < n
            invariant
                n == procs@.len(),
                i <= n,
                self.parent@.len() == n,
                r_pb@.len() == n && r_ws@.len() == n && r_dr@.len() == n && r_dw@.len() == n,
                r_th@.len() == n && r_hd@.len() == n && r_zs@.len() == n,
                self.rollup@.len() == i,
                self.parent@ == par0,
                self.depth@ == dep0,
                forall|t: int| 0 <= t < n ==> #[trigger] r_th@[t] <= max32,
                forall|t: int| 0 <= t < n ==> #[trigger] r_hd@[t] <= max32,
                forall|t: int| 0 <= t < n ==> #[trigger] r_zs@[t] <= max32,
                max32 == 0xFFFF_FFFFu64,
                forall|t: int|
                    0 <= t < i ==> {
                        let r = #[trigger] self.rollup@[t];
                        &&& r.private_bytes == r_pb@[t]
                        &&& r.working_set == r_ws@[t]
                        &&& r.disk_read == r_dr@[t]
                        &&& r.disk_write == r_dw@[t]
                        &&& r.threads as u64 == r_th@[t]
                        &&& r.handles as u64 == r_hd@[t]
                        &&& r.descendants as u64 == r_zs@[t]
                    },
            decreases n - i,
        {
            self.rollup.push(
                Rollup {
                    private_bytes: r_pb[i],
                    working_set: r_ws[i],
                    disk_read: r_dr[i],
                    disk_write: r_dw[i],
                    threads: r_th[i] as u32,
                    handles: r_hd[i] as u32,
                    descendants: r_zs[i] as u32,
                },
            );
            i = i + 1;
        }
    }
}

impl ProcessTree {
    /// Parent row of `row`, if it has one.
    pub fn parent(&self, row: usize) -> (r: Option<usize>)
        ensures
            r == (if row < self.parents().len() && self.parents()[row as int] != -1 {
                Some(self.parents()[row as int] as usize)
            } else {
                None::<usize>
            }),
    {
        if row < self.parent.len() {
            let p = self.parent[row];
            if p != NONE {
                return Some(p as usize);
            }
        }
        None
    }

    /// Subtree rollup of `row`; all zero for a row not in the tree.
    pub fn rollup(&self, row: usize) -> (r: Rollup)
        ensures
            r == (if row < self.rollups().len() {
                self.rollups()[row as int]
            } else {
                Rollup {
                    private_bytes: 0,
                    working_set: 0,
                    disk_read: 0,
                    disk_write: 0,
                    threads: 0,
                    handles: 0,
                    descendants: 0,
                }
            }),
    {
        if row < self.rollup.len() {
            self.rollup[row]
        } else {
            Rollup {
                private_bytes: 0,
                working_set: 0,
                disk_read: 0,
                disk_write: 0,
                threads: 0,
                handles: 0,
                descendants: 0,
            }
        }
    }

    /// Depth of `row` below its root; zero for a row not in the tree.
    pub fn depth(&self, row: usize) -> (r: u32)
        ensures
            r == (if row < self.depths().len() {
                self.depths()[row as int]
            } else {
                0
            }),
    {
        if row < self.depth.len() {
            self.depth[row]
        } else {
            0
        }
    }

    /// Fold per-row values into subtree totals over this tree, saturating at
    /// `u64::MAX`: for quantities the rollups do not carry, such as CPU usage
    /// in fixed point.
    pub fn subtree_totals(&self, own: &[u64]) -> (r: Vec<u64>)
        requires
            is_forest(self.parents(), self.depths()),
            own@.len() == self.parents().len(),
        ensures
            r@.len() == own@.len(),
            forall|i: int|
                0 <= i < own@.len() ==> #[trigger] r@[i] as int == min_int(
                    subtree_sum(self.parents(), self.depths(), ints_of64(own@), 0, i),
                    u64::MAX as int,
                ),
    {
        let mut v: Vec<u64> = Vec::new();
        let mut i: usize = 0;
        while i < own.len()
            invariant
                i <= own@.len(),
                v@ == own@.take(i as int),
            decreases own@.len() - i,
        {
            v.push(own[i]);
            i = i + 1;
        }
        proof {
            assert(v@ =~= own@);
        }
        fold_sums(&self.parent, &self.depth, v, u64::MAX, 0)
    }

    /// Number of rows the tree was built for.
    pub fn len(&self) -> (r: usize)
        ensures
            r == self.parents().len(),
    {
        self.parent.len()
    }
}

/// The key a name sorts by: its characters, ASCII letters lower-cased, as code
/// points.
pub open spec fn name_key(s: Seq<char>) -> Seq<u64> {
    lower(s).map_values(|c: char| c as u64)
}

fn name_key_exec(s: &str) -> (r: Vec<u64>)
    ensures
        r@ == name_key(s@),
{
    broadcast use vstd::string::axiom_spec_iter, vstd::string::next_postcondition;

    let mut it = s.chars();
    let mut r: Vec<u64> = Vec::new();
    let ghost all = s@;
    proof {
        assert(it.remaining() == all);
        assert(all.skip(0) =~= all);
    }
    loop
        invariant
            all == s@,
            r@.len() <= all.len(),
            it.remaining() == all.skip(r@.len() as int),
            r@ == name_key(all).take(r@.len() as int),
            it.obeys_prophetic_iter_laws(),
        decreases all.len() - r@.len(),
    {
        let ghost before = it.remaining();
        match it.next() {
            None => {
                proof {
                    assert(r@.len() == all.len());
                    assert(name_key(all).take(r@.len() as int) =~= name_key(all));
                }
                return r;
            },
            Some(c) => {
                proof {
                    assert(before.len() > 0);
                    assert(c == all[r@.len() as int]);
                    assert(all.skip(r@.len() as int + 1) =~= before.drop_first());
                }
                let lc = if 'A' <= c && c <= 'Z' {
                    ((c as u32) + 32) as u64
                } else {
                    c as u64
                };
                proof {
                    assert(lc == name_key(all)[r@.len() as int]);
                }
                r.push(lc);
                proof {
                    assert(r@ =~= name_key(all).take(r@.len() as int));
                }
            },
        }
    }
}

/// Process table columns, in display order.
pub const COL_NAME: usize = 0;
pub const COL_PID: usize = 1;
pub const COL_CPU: usize = 2;
pub const COL_MEMORY: usize = 3;
pub const COL_WORKING_SET: usize = 4;
pub const COL_DISK_READ: usize = 5;
pub const COL_DISK_WRITE: usize = 6;
pub const COL_THREADS: usize = 7;
pub const COL_HANDLES: usize = 8;

/// Whether the table lists a process. PID 0 is the kernel's idle accounting, not
/// a process; its "CPU" is the machine's idle time.
pub open spec fn listed_proc(p: ProcessRow) -> bool {
    p.key.pid != 0
}

/// The separator between the names of an ancestry chain.
pub open spec fn chain_sep() -> Seq<char> {
    seq![' ', '\u{203a}', ' ']
}

/// Names joined by [`chain_sep`].
pub open spec fn join_names(s: Seq<Seq<char>>) -> Seq<char>
    decreases s.len(),
{
    if s.len() == 0 {
        Seq::empty()
    } else if s.len() == 1 {
        s[0]
    } else {
        join_names(s.drop_last()) + chain_sep() + s.last()
    }
}

/// What a cell shows for a process in its own right; `None` for the columns
/// whose text depends on the sampling interval or a percentage (CPU and disk
/// rates), which the caller formats.
pub open spec fn cell_text(p: ProcessRow, col: int) -> Option<Seq<char>> {
    if col == COL_NAME {
        Some(p.name@)
    } else if col == COL_PID {
        Some(dec(p.key.pid as nat))
    } else if col == COL_CPU || col == COL_DISK_READ || col == COL_DISK_WRITE {
        None
    } else if col == COL_MEMORY {
        Some(bytes_text(p.private_bytes.0 as nat))
    } else if col == COL_WORKING_SET {
        Some(bytes_text(p.working_set.0 as nat))
    } else if col == COL_THREADS {
        Some(dec(p.threads as nat))
    } else if col == COL_HANDLES {
        Some(dec(p.handles as nat))
    } else {
        Some(Seq::empty())
    }
}

/// What a cell shows for a collapsed process: subtree totals, and the name with
/// the number of processes folded under it.
pub open spec fn collapsed_text(p: ProcessRow, r: Rollup, col: int) -> Option<Seq<char>> {
    if col == COL_NAME {
        Some(p.name@ + seq![' ', '('] + dec(r.descendants as nat) + seq![')'])
    } else if col == COL_CPU || col == COL_DISK_READ || col == COL_DISK_WRITE {
        None
    } else if col == COL_MEMORY {
        Some(bytes_text(r.private_bytes as nat))
    } else if col == COL_WORKING_SET {
        Some(bytes_text(r.working_set as nat))
    } else if col == COL_THREADS {
        Some(dec(r.threads as nat))
    } else if col == COL_HANDLES {
        Some(dec(r.handles as nat))
    } else {
        cell_text(p, col)
    }
}

/// The ascending sort key of a process for a column; `cpu` orders the CPU column.
pub open spec fn row_key(p: ProcessRow, cpu: u64, col: int) -> Seq<u64> {
    if col == COL_NAME {
        name_key(p.name@)
    } else if col == COL_PID {
        seq![p.key.pid as u64]
    } else if col == COL_CPU {
        seq![cpu]
    } else if col == COL_MEMORY {
        seq![p.private_bytes.0]
    } else if col == COL_WORKING_SET {
        seq![p.working_set.0]
    } else if col == COL_DISK_READ {
        seq![p.disk_read.0]
    } else if col == COL_DISK_WRITE {
        seq![p.disk_write.0]
    } else if col == COL_THREADS {
        seq![p.threads as u64]
    } else if col == COL_HANDLES {
        seq![p.handles as u64]
    } else {
        Seq::empty()
    }
}

/// The key that orders sibling processes in tree mode: subtree totals, so that
/// collapsing or expanding a node never reorders its siblings; `cpu` orders the
/// CPU column by subtree total.
pub open spec fn subtree_key(p: ProcessRow, r: Rollup, cpu: u64, col: int) -> Seq<u64> {
    if col == COL_CPU {
        seq![cpu]
    } else if col == COL_MEMORY {
        seq![r.private_bytes]
    } else if col == COL_WORKING_SET {
        seq![r.working_set]
    } else if col == COL_DISK_READ {
        seq![r.disk_read]
    } else if col == COL_DISK_WRITE {
        seq![r.disk_write]
    } else if col == COL_THREADS {
        seq![r.threads as u64]
    } else if col == COL_HANDLES {
        seq![r.handles as u64]
    } else {
        row_key(p, 0, col)
    }
}

/// A snapshot's process list with its tree, as the process table's rows.
pub struct ProcessRows<'a> {
    pub procs: &'a [ProcessRow],
    pub tree: &'a ProcessTree,
}

impl<'a> ProcessRows<'a> {
    pub open spec fn n(&self) -> nat {
        self.procs@.len()
    }

    /// Parent of row `r` by the tree, -1 for none.
    pub open spec fn par(&self, r: int) -> int {
        if 0 <= r < self.tree.parents().len() {
            self.tree.parents()[r]
        } else {
            -1
        }
    }

    /// The next row up an ancestry chain: the parent, if it is a listed row.
    pub open spec fn chain_step(&self, r: int) -> int {
        let p = self.par(r);
        if 0 <= p < self.n() && listed_proc(self.procs@[p]) {
            p
        } else {
            -1
        }
    }

    /// Row `r` and up to `k - 1` of its listed ancestors, nearest first.
    pub open spec fn chain(&self, r: int, k: nat) -> Seq<int>
        decreases k,
    {
        if k == 0 {
            Seq::empty()
        } else {
            seq![r] + (if self.chain_step(r) >= 0 {
                self.chain(self.chain_step(r), (k - 1) as nat)
            } else {
                Seq::empty()
            })
        }
    }

    /// The number of listed rows among the first `k`.
    pub open spec fn listed_upto(&self, k: int) -> nat
        decreases k,
    {
        if k <= 0 {
            0
        } else {
            self.listed_upto(k - 1) + (if listed_proc(self.procs@[k - 1]) {
                1nat
            } else {
                0nat
            })
        }
    }

    /// The first row at or after `i` whose table id is `id`, or -1.
    pub open spec fn row_from(&self, id: u64, i: int) -> int
        decreases self.n() - i,
    {
        if i < 0 || i >= self.n() {
            -1
        } else if spec_row_id(self.procs@[i].key) == id {
            i
        } else {
            self.row_from(id, i + 1)
        }
    }

    /// Whether the table lists `row`.
    pub fn visible(&self, row: usize) -> (r: bool)
        requires
            row < self.n(),
        ensures
            r == listed_proc(self.procs@[row as int]),
    {
        self.procs[row].key.pid != 0
    }

    /// Table id of `row`.
    pub fn id(&self, row: usize) -> (r: RowId)
        requires
            row < self.n(),
        ensures
            r.0 == spec_row_id(self.procs@[row as int].key),
    {
        row_id(self.procs[row].key)
    }

    /// Root-first chain of ancestor names ending in the row itself, e.g.
    /// `wininit.exe › services.exe › svchost.exe`. `chain` is caller-owned
    /// scratch; it is left holding the rows, nearest first.
    pub fn ancestry(&self, row: usize, out: &mut String, chain: &mut Vec<u32>)
        requires
            row < self.n(),
            self.n() < MAX_PROCS,
        ensures
            final(chain)@.len() == self.chain(row as int, self.n()).len(),
            forall|i: int| 0 <= i < final(chain)@.len() ==> #[trigger] final(chain)@[i] as int == self.chain(row as int, self.n())[i],
            final(out)@ == join_names(self.chain(row as int, self.n()).reverse().map_values(|r: int| self.procs@[r].name@)),
    {
        *out = String::new();
        chain.clear();
        let n = self.procs.len();
        let ghost full = self.chain(row as int, n as nat);
        let mut r = row;
        let mut i: usize = 0;
        let mut done = false;
        proof {
            assert(full =~= Seq::<int>::empty() + self.chain(row as int, n as nat));
        }
        while i < n && !done
            invariant
                n == self.n(),
                n < MAX_PROCS,
                i <= n,
                r < n,
                full == self.chain(row as int, n as nat),
                chain@.len() == i,
                forall|t: int| 0 <= t < i ==> #[trigger] chain@[t] < n,
                !done ==> full == usizes32(chain@) + self.chain(r as int, (n - i) as nat),
                done ==> full == usizes32(chain@),
                done ==> i >= 1,
            decreases (n - i) * 2 + (if done {
                0int
            } else {
                1int
            }),
        {
            chain.push(r as u32);
            let step = match self.tree.parent(r) {
                Some(p) => if p < n && self.procs[p].key.pid != 0 {
                    Some(p)
                } else {
                    None
                },
                None => None,
            };
            proof {
                assert(usizes32(chain@) =~= usizes32(chain@.drop_last()).push(r as int));
            }
            match step {
                Some(p) => {
                    proof {
                        assert(self.chain_step(r as int) == p as int);
                        assert(usizes32(chain@) + self.chain(p as int, (n - i - 1) as nat) =~= usizes32(
                            chain@.drop_last(),
                        ) + self.chain(r as int, (n - i) as nat));
                    }
                    r = p;
                },
                None => {
                    proof {
                        assert(self.chain_step(r as int) == -1);
                        assert(usizes32(chain@) =~= usizes32(chain@.drop_last()) + self.chain(r as int, (n - i) as nat));
                    }
                    done = true;
                },
            }
            i = i + 1;
        }
        proof {
            if !done {
                assert(self.chain(r as int, 0) =~= Seq::<int>::empty());
                assert(full =~= usizes32(chain@));
            }
        }
        let ghost names = full.reverse().map_values(|x: int| self.procs@[x].name@);
        let len = chain.len();
        let mut j: usize = len;
        proof {
            assert(names.take(0) =~= Seq::<Seq<char>>::empty());
        }
        while j > 0
            invariant
                n == self.n(),
                len == chain@.len(),
                j <= len,
                full == usizes32(chain@),
                forall|t: int| 0 <= t < len ==> #[trigger] chain@[t] < n,
                names == full.reverse().map_values(|x: int| self.procs@[x].name@),
                out@ == join_names(names.take((len - j) as int)),
            decreases j,
        {
            let k = len - j;
            if j < len {
                out.append(" \u{203a} ");
                proof {
                    reveal_strlit(" \u{203a} ");
                }
            }
            let x = chain[j - 1] as usize;
            out.append(self.procs[x].name.as_str());
            proof {
                assert(names[k as int] == self.procs@[x as int].name@);
                assert(names.take(k + 1).drop_last() =~= names.take(k as int));
                if k == 0 {
                    assert(out@ =~= join_names(names.take(k + 1)));
                } else {
                    assert(out@ =~= join_names(names.take(k + 1)));
                }
            }
            j = j - 1;
        }
        proof {
            assert(names.take(len as int) =~= names);
        }
    }

    /// Row index of a process by table id, if it is in this snapshot.
    pub fn row_of(&self, id: RowId) -> (r: Option<usize>)
        ensures
            r == (if self.row_from(id.0, 0) < 0 {
                None
            } else {
                Some(self.row_from(id.0, 0) as usize)
            }),
    {
        let n = self.procs.len();
        let mut i: usize = 0;
        while i < n
            invariant
                n == self.n(),
                i <= n,
                self.row_from(id.0, 0) == self.row_from(id.0, i as int),
            decreases n - i,
        {
            if row_id(self.procs[i].key).0 == id.0 {
                return Some(i);
            }
            i = i + 1;
        }
        None
    }

    /// Number of rows the table lists.
    pub fn listed(&self) -> (r: usize)
        ensures
            r == self.listed_upto(self.n() as int),
    {
        let n = self.procs.len();
        let mut c: usize = 0;
        let mut i: usize = 0;
        while i < n
            invariant
                n == self.n(),
                i <= n,
                c == self.listed_upto(i as int),
                c <= i,
            decreases n - i,
        {
            if self.procs[i].key.pid != 0 {
                c = c + 1;
            }
            i = i + 1;
        }
        c
    }

    /// Write the text of a cell. Returns false, leaving `out` empty, for the
    /// CPU and disk columns, whose text is a percentage or a rate over the
    /// sampling interval.
    pub fn cell(&self, row: usize, col: usize, out: &mut String) -> (r: bool)
        requires
            row < self.n(),
        ensures
            r == cell_text(self.procs@[row as int], col as int) is Some,
            final(out)@ == (match cell_text(self.procs@[row as int], col as int) {
                Some(t) => t,
                None => Seq::empty(),
            }),
    {
        let p = &self.procs[row];
        if col == COL_NAME {
            *out = String::new();
            out.append(p.name.as_str());
            true
        } else if col == COL_PID {
            crate::format::count(out, p.key.pid);
            true
        } else if col == COL_CPU || col == COL_DISK_READ || col == COL_DISK_WRITE {
            *out = String::new();
            false
        } else if col == COL_MEMORY {
            crate::format::bytes(out, p.private_bytes);
            true
        } else if col == COL_WORKING_SET {
            crate::format::bytes(out, p.working_set);
            true
        } else if col == COL_THREADS {
            crate::format::count(out, p.threads);
            true
        } else if col == COL_HANDLES {
            crate::format::count(out, p.handles);
            true
        } else {
            *out = String::new();
            true
        }
    }

    /// Write the text of a cell of a collapsed row: subtree totals, so that
    /// collapsing a branch folds its usage into the visible row. Returns false,
    /// leaving `out` empty, for the CPU and disk columns.
    pub fn cell_collapsed(&self, row: usize, col: usize, out: &mut String) -> (r: bool)
        requires
            row < self.n(),
        ensures
            ({
                let ro = if row < self.tree.rollups().len() {
                    self.tree.rollups()[row as int]
                } else {
                    Rollup {
                        private_bytes: 0,
                        working_set: 0,
                        disk_read: 0,
                        disk_write: 0,
                        threads: 0,
                        handles: 0,
                        descendants: 0,
                    }
                };
                &&& r == collapsed_text(self.procs@[row as int], ro, col as int) is Some
                &&& final(out)@ == (match collapsed_text(self.procs@[row as int], ro, col as int) {
                    Some(t) => t,
                    None => Seq::empty(),
                })
            }),
    {
        let ro = self.tree.rollup(row);
        let p = &self.procs[row];
        if col == COL_NAME {
            let mut num = String::new();
            crate::format::count(&mut num, ro.descendants);
            *out = String::new();
            out.append(p.name.as_str());
            out.append(" (");
            out.append(num.as_str());
            out.append(")");
            proof {
                reveal_strlit(" (");
                reveal_strlit(")");
            }
            true
        } else if col == COL_CPU || col == COL_DISK_READ || col == COL_DISK_WRITE {
            *out = String::new();
            false
        } else if col == COL_MEMORY {
            crate::format::bytes(out, Bytes(ro.private_bytes));
            true
        } else if col == COL_WORKING_SET {
            crate::format::bytes(out, Bytes(ro.working_set));
            true
        } else if col == COL_THREADS {
            crate::format::count(out, ro.threads);
            true
        } else if col == COL_HANDLES {
            crate::format::count(out, ro.handles);
            true
        } else {
            self.cell(row, col, out)
        }
    }

    /// What the table reads of these rows: ids, visibility, tree parents, and
    /// per column the sort key and the sibling key. `cpu` and `cpu_subtree` give
    /// each row's position in the CPU order, of its own usage and of its
    /// subtree's.
    pub fn model(&self, cpu: &[u64], cpu_subtree: &[u64]) -> (m: RowModel)
        requires
            cpu@.len() == self.n(),
            cpu_subtree@.len() == self.n(),
        ensures
            m.wf(),
            m.n() == self.n(),
            forall|r: int| 0 <= r < m.n() ==> #[trigger] m.id(r) == spec_row_id(self.procs@[r].key),
            forall|r: int| 0 <= r < m.n() ==> #[trigger] m.is_visible(r) == listed_proc(self.procs@[r]),
            forall|r: int|
                0 <= r < m.n() ==> #[trigger] m.parent@[r] == (if self.par(r) >= 0 {
                    Some(self.par(r) as usize)
                } else {
                    None
                }),
            forall|r: int, col: int|
                0 <= r < m.n() ==> #[trigger] m.key(r, col, false) == row_key(self.procs@[r], cpu@[r], col),
            forall|r: int, col: int|
                0 <= r < m.n() ==> #[trigger] m.key(r, col, true) == subtree_key(
                    self.procs@[r],
                    if r < self.tree.rollups().len() {
                        self.tree.rollups()[r]
                    } else {
                        Rollup {
                            private_bytes: 0,
                            working_set: 0,
                            disk_read: 0,
                            disk_write: 0,
                            threads: 0,
                            handles: 0,
                            descendants: 0,
                        }
                    },
                    cpu_subtree@[r],
                    col,
                ),
    {
        let n = self.procs.len();
        let mut m = RowModel {
            ids: Vec::new(),
            visible: Vec::new(),
            parent: Vec::new(),
            keys: Vec::new(),
            sibling_keys: Vec::new(),
        };
        let mut i: usize = 0;
        while i < n
            invariant
                n == self.n(),
                cpu@.len() == n,
                cpu_subtree@.len() == n,
                i <= n,
                m.wf(),
                m.n() == i,
                forall|r: int| 0 <= r < i ==> #[trigger] m.id(r) == spec_row_id(self.procs@[r].key),
                forall|r: int| 0 <= r < i ==> #[trigger] m.is_visible(r) == listed_proc(self.procs@[r]),
                forall|r: int|
                    0 <= r < i ==> #[trigger] m.parent@[r] == (if self.par(r) >= 0 {
                        Some(self.par(r) as usize)
                    } else {
                        None
                    }),
                forall|r: int, col: int|
                    0 <= r < i ==> #[trigger] m.key(r, col, false) == row_key(self.procs@[r], cpu@[r], col),
                forall|r: int, col: int|
                    0 <= r < i ==> #[trigger] m.key(r, col, true) == subtree_key(
                        self.procs@[r],
                        if r < self.tree.rollups().len() {
                            self.tree.rollups()[r]
                        } else {
                            Rollup {
                                private_bytes: 0,
                                working_set: 0,
                                disk_read: 0,
                                disk_write: 0,
                                threads: 0,
                                handles: 0,
                                descendants: 0,
                            }
                        },
                        cpu_subtree@[r],
                        col,
                    ),
            decreases n - i,
        {
            let p = &self.procs[i];
            let ro = self.tree.rollup(i);
            let name = name_key_exec(p.name.as_str());
            let keys: Vec<Vec<u64>> = vec![
                name.clone(),
                vec![p.key.pid as u64],
                vec![cpu[i]],
                vec![p.private_bytes.0],
                vec![p.working_set.0],
                vec![p.disk_read.0],
                vec![p.disk_write.0],
                vec![p.threads as u64],
                vec![p.handles as u64],
            ];
            let sib: Vec<Vec<u64>> = vec![
                name,
                vec![p.key.pid as u64],
                vec![cpu_subtree[i]],
                vec![ro.private_bytes],
                vec![ro.working_set],
                vec![ro.disk_read],
                vec![ro.disk_write],
                vec![ro.threads as u64],
                vec![ro.handles as u64],
            ];
            let ghost m0 = m;
            m.ids.push(row_id(p.key));
            m.visible.push(p.key.pid != 0);
            m.parent.push(self.tree.parent(i));
            m.keys.push(keys);
            m.sibling_keys.push(sib);
            proof {
                assert forall|r: int| 0 <= r < i + 1 implies #[trigger] m.id(r) == spec_row_id(self.procs@[r].key) by {
                    if r < i {
                        assert(m.ids@[r] == m0.ids@[r]);
                        assert(m0.id(r) == spec_row_id(self.procs@[r].key));
                    }
                }
                assert forall|r: int| 0 <= r < i + 1 implies #[trigger] m.is_visible(r) == listed_proc(self.procs@[r]) by {
                    if r < i {
                        assert(m.visible@[r] == m0.visible@[r]);
                        assert(m0.is_visible(r) == listed_proc(self.procs@[r]));
                    }
                }
                assert forall|r: int, col: int| 0 <= r < i + 1 implies #[trigger] m.key(r, col, false) == row_key(
                    self.procs@[r],
                    cpu@[r],
                    col,
                ) by {
                    if r < i {
                        assert(m.keys@[r] == m0.keys@[r]);
                        assert(m.key(r, col, false) == m0.key(r, col, false));
                    } else {
                        assert(m.keys@[r]@.len() == 9);
                    }
                }
                assert forall|r: int, col: int| 0 <= r < i + 1 implies #[trigger] m.key(r, col, true) == subtree_key(
                    self.procs@[r],
                    if r < self.tree.rollups().len() {
                        self.tree.rollups()[r]
                    } else {
                        Rollup {
                            private_bytes: 0,
                            working_set: 0,
                            disk_read: 0,
                            disk_write: 0,
                            threads: 0,
                            handles: 0,
                            descendants: 0,
                        }
                    },
                    cpu_subtree@[r],
                    col,
                ) by {
                    if r < i {
                        assert(m.sibling_keys@[r] == m0.sibling_keys@[r]);
                        assert(m.key(r, col, true) == m0.key(r, col, true));
                    } else {
                        assert(m.sibling_keys@[r]@.len() == 9);
                    }
                }
            }
            i = i + 1;
        }
        m
    }
}

pub open spec fn usizes32(s: Seq<u32>) -> Seq<int> {
    s.map_values(|x: u32| x as int)
}

/// For a collapsed row, every summed column shows the total over the row's
/// subtree (saturated at the field's range), not the row's own value, and the
/// name carries the number of rows below it: given the rollup `r` a rebuild
/// computed for row `x` of `procs`.
pub proof fn lemma_collapsed_cells_show_subtree_totals(
    procs: Seq<ProcessRow>,
    par: Seq<int>,
    dep: Seq<int>,
    x: int,
    r: Rollup,
)
    requires
        0 <= x < procs.len(),
        rollup_matches(procs, par, dep, x, r),
    ensures
        collapsed_text(procs[x], r, COL_MEMORY as int) == Some(
            bytes_text(min_int(subtree_sum(par, dep, own_private_bytes(procs), 0, x), u64::MAX as int) as nat),
        ),
        collapsed_text(procs[x], r, COL_WORKING_SET as int) == Some(
            bytes_text(min_int(subtree_sum(par, dep, own_working_set(procs), 0, x), u64::MAX as int) as nat),
        ),
        collapsed_text(procs[x], r, COL_THREADS as int) == Some(
            dec(min_int(subtree_sum(par, dep, own_threads(procs), 0, x), u32::MAX as int) as nat),
        ),
        collapsed_text(procs[x], r, COL_HANDLES as int) == Some(
            dec(min_int(subtree_sum(par, dep, own_handles(procs), 0, x), u32::MAX as int) as nat),
        ),
        collapsed_text(procs[x], r, COL_NAME as int) == Some(
            procs[x].name@ + seq![' ', '('] + dec(
                min_int(subtree_sum(par, dep, zeros(procs.len()), 1, x), u32::MAX as int) as nat,
            ) + seq![')'],
        ),
{
}

/// In tree mode siblings are ordered by their subtree totals: the sibling key
/// of each summed column is the total over the row's subtree (saturated at the
/// field's range), so that a busy branch rises above a busy leaf.
pub proof fn lemma_sibling_keys_are_subtree_totals(
    procs: Seq<ProcessRow>,
    par: Seq<int>,
    dep: Seq<int>,
    x: int,
    r: Rollup,
    cpu: u64,
)
    requires
        0 <= x < procs.len(),
        rollup_matches(procs, par, dep, x, r),
    ensures
        subtree_key(procs[x], r, cpu, COL_MEMORY as int) == seq![
            min_int(subtree_sum(par, dep, own_private_bytes(procs), 0, x), u64::MAX as int) as u64,
        ],
        subtree_key(procs[x], r, cpu, COL_WORKING_SET as int) == seq![
            min_int(subtree_sum(par, dep, own_working_set(procs), 0, x), u64::MAX as int) as u64,
        ],
        subtree_key(procs[x], r, cpu, COL_DISK_READ as int) == seq![
            min_int(subtree_sum(par, dep, own_disk_read(procs), 0, x), u64::MAX as int) as u64,
        ],
        subtree_key(procs[x], r, cpu, COL_DISK_WRITE as int) == seq![
            min_int(subtree_sum(par, dep, own_disk_write(procs), 0, x), u64::MAX as int) as u64,
        ],
        subtree_key(procs[x], r, cpu, COL_THREADS as int) == seq![
            min_int(subtree_sum(par, dep, own_threads(procs), 0, x), u32::MAX as int) as u64,
        ],
        subtree_key(procs[x], r, cpu, COL_HANDLES as int) == seq![
            min_int(subtree_sum(par, dep, own_handles(procs), 0, x), u32::MAX as int) as u64,
        ],
{
}

/// The name sort key lower-cases every ASCII capital and keeps every other
/// character's code: one entry per character.
pub proof fn lemma_name_key_folds_ascii_case(s: Seq<char>)
    ensures
        name_key(s).len() == s.len(),
        forall|i: int|
            0 <= i < s.len() ==> #[trigger] name_key(s)[i] == if 65 <= (s[i] as u32) <= 90 {
                s[i] as u32 as int + 32
            } else {
                s[i] as u32 as int
            },
{
    assert forall|i: int| 0 <= i < s.len() implies #[trigger] name_key(s)[i] == if 65 <= (s[i] as u32) <= 90 {
        s[i] as u32 as int + 32
    } else {
        s[i] as u32 as int
    } by {
        let c = s[i];
        assert(lower(s)[i] == crate::shell::ascii_lower(c));
    }
}

/// Names that differ only in the case of ASCII letters get the same sort key,
/// so the name column orders case-insensitively.
pub proof fn lemma_name_key_ignores_ascii_case(s: Seq<char>, t: Seq<char>)
    requires
        s.len() == t.len(),
        forall|i: int|
            0 <= i < s.len() ==> #[trigger] s[i] == t[i] || (65 <= (s[i] as u32) <= 90 && t[i] as u32 == s[i] as u32
                + 32) || (65 <= (t[i] as u32) <= 90 && s[i] as u32 == t[i] as u32 + 32),
    ensures
        name_key(s) == name_key(t),
{
    lemma_name_key_folds_ascii_case(s);
    lemma_name_key_folds_ascii_case(t);
    assert forall|i: int| 0 <= i < s.len() implies #[trigger] name_key(s)[i] == name_key(t)[i] by {
        assert(s[i] == t[i] || (65 <= (s[i] as u32) <= 90 && t[i] as u32 == s[i] as u32 + 32) || (65 <= (
        t[i] as u32) <= 90 && s[i] as u32 == t[i] as u32 + 32));
    }
    assert(name_key(s) =~= name_key(t));
}

/// A row with nothing below it shows the same summed cells collapsed as
/// expanded: its subtree is itself.
pub proof fn lemma_leaf_collapsed_cells_match_its_cells(
    procs: Seq<ProcessRow>,
    par: Seq<int>,
    dep: Seq<int>,
    x: int,
    r: Rollup,
    col: int,
)
    requires
        is_forest(par, dep),
        par.len() == procs.len(),
        0 <= x < procs.len(),
        rollup_matches(procs, par, dep, x, r),
        forall|c: int| 0 <= c < par.len() ==> #[trigger] par[c] != x,
        col != COL_NAME,
    ensures
        collapsed_text(procs[x], r, col) == cell_text(procs[x], col),
{
    let n = par.len() as int;
    lemma_no_children_sum(par, dep, own_private_bytes(procs), 0, x, n);
    lemma_no_children_sum(par, dep, own_working_set(procs), 0, x, n);
    lemma_no_children_sum(par, dep, own_threads(procs), 0, x, n);
    lemma_no_children_sum(par, dep, own_handles(procs), 0, x, n);
}

/// Identity columns never aggregate: a collapsed row shows its own PID, and
/// columns past the known ones stay as they are.
pub proof fn lemma_identity_columns_never_aggregate(p: ProcessRow, r: Rollup, col: int)
    requires
        col == COL_PID || col > COL_HANDLES,
    ensures
        collapsed_text(p, r, col) == cell_text(p, col),
{
}

/// In list mode every column sorts by the row's own value: the name
/// case-folded, the PID, the CPU figure given, and each size or count as the
/// process reports it.
pub proof fn lemma_list_keys_are_own_values(p: ProcessRow, cpu: u64)
    ensures
        row_key(p, cpu, COL_NAME as int) == name_key(p.name@),
        row_key(p, cpu, COL_PID as int) == seq![p.key.pid as u64],
        row_key(p, cpu, COL_CPU as int) == seq![cpu],
        row_key(p, cpu, COL_MEMORY as int) == seq![p.private_bytes.0],
        row_key(p, cpu, COL_WORKING_SET as int) == seq![p.working_set.0],
        row_key(p, cpu, COL_DISK_READ as int) == seq![p.disk_read.0],
        row_key(p, cpu, COL_DISK_WRITE as int) == seq![p.disk_write.0],
        row_key(p, cpu, COL_THREADS as int) == seq![p.threads as u64],
        row_key(p, cpu, COL_HANDLES as int) == seq![p.handles as u64],
{
}

} // verus!
