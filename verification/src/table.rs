//! Row ordering, selection and collapse state of the virtualized table.
//!
//! The table knows nothing about processes. A [`RowModel`] supplies each row's
//! stable id, visibility, parent (for tree mode) and, per column, a sort key and a
//! sibling key; the table owns sort state, selection and collapse state, and
//! builds the display order: a sorted list of the visible rows, or in tree mode a
//! pre-order walk of the hierarchy with every node's children sorted.
//!
//! Selection is by [`RowId`], not position, so it survives re-sorting and rows
//! appearing or vanishing between samples. Collapse state is keyed the same way.
use std::collections::HashSet;
use vstd::prelude::*;
use vstd::multiset::Multiset;

verus! {

broadcast use vstd::std_specs::hash::group_hash_axioms;

/// Stable identity of a row across frames.
#[derive(Debug, Clone, Copy, PartialEq, Eq, Structural, Hash)]
pub struct RowId(pub u64);

/// What is under a point.
#[derive(Debug, Clone, Copy, PartialEq, Eq, Structural)]
pub enum Hit {
    Header(usize),
    /// Position in the current display order.
    Row(usize),
    /// The expand/collapse box of a row that has children (tree mode only).
    Expander(usize),
    Nothing,
}

/// Three-way lexicographic comparison of two keys: -1, 0 or 1.
pub open spec fn lex_compare(a: Seq<u64>, b: Seq<u64>) -> int
    decreases a.len(),
{
    if a.len() == 0 {
        if b.len() == 0 {
            0
        } else {
            -1
        }
    } else if b.len() == 0 {
        1
    } else if a[0] < b[0] {
        -1
    } else if a[0] > b[0] {
        1
    } else {
        lex_compare(a.drop_first(), b.drop_first())
    }
}

/// What the table reads of its rows.
#[derive(Debug, Clone)]
pub struct RowModel {
    /// Stable identity of each row.
    pub ids: Vec<RowId>,
    /// Whether a row is listed at all.
    pub visible: Vec<bool>,
    /// Parent row, for tree mode. A row is a root when this is `None`, out of
    /// range, the row itself, or a hidden row.
    pub parent: Vec<Option<usize>>,
    /// Per row, per column: the ascending sort key, compared lexicographically.
    pub keys: Vec<Vec<Vec<u64>>>,
    /// Per row, per column: the key that orders siblings in tree mode.
    pub sibling_keys: Vec<Vec<Vec<u64>>>,
}

impl RowModel {
    pub open spec fn n(&self) -> nat {
        self.ids@.len()
    }

    /// All per-row lists have one entry per row.
    pub open spec fn wf(&self) -> bool {
        &&& self.visible@.len() == self.n()
        &&& self.parent@.len() == self.n()
        &&& self.keys@.len() == self.n()
        &&& self.sibling_keys@.len() == self.n()
    }

    pub open spec fn id(&self, r: int) -> u64 {
        self.ids@[r].0
    }

    pub open spec fn is_visible(&self, r: int) -> bool {
        self.visible@[r]
    }

    /// Row `r`'s key for column `col` (empty where none is given); siblings use
    /// `sibling_keys` when `sib` is set.
    pub open spec fn key(&self, r: int, col: int, sib: bool) -> Seq<u64> {
        let ks = if sib {
            self.sibling_keys@[r]@
        } else {
            self.keys@[r]@
        };
        if 0 <= col < ks.len() {
            ks[col]@
        } else {
            Seq::empty()
        }
    }
}

/// Row `a` may come before row `b`: its key is smaller in the sort direction, or
/// the keys tie and its id is smaller, or the ids tie too and it is not a later
/// row of the source.
pub open spec fn order_le(m: RowModel, col: int, desc: bool, sib: bool, a: int, b: int) -> bool {
    let c = if desc {
        lex_compare(m.key(b, col, sib), m.key(a, col, sib))
    } else {
        lex_compare(m.key(a, col, sib), m.key(b, col, sib))
    };
    c < 0 || (c == 0 && (m.id(a) < m.id(b) || (m.id(a) == m.id(b) && a <= b)))
}

/// Insert `x` into `s` after the last element from the right that may come
/// before it.
pub open spec fn insert_sorted(m: RowModel, col: int, desc: bool, sib: bool, s: Seq<int>, x: int) -> Seq<int>
    decreases s.len(),
{
    if s.len() == 0 {
        seq![x]
    } else if order_le(m, col, desc, sib, s.last(), x) {
        s.push(x)
    } else {
        insert_sorted(m, col, desc, sib, s.drop_last(), x).push(s.last())
    }
}

/// Stable insertion sort of `s` by `order_le`.
pub open spec fn sort_rows(m: RowModel, col: int, desc: bool, sib: bool, s: Seq<int>) -> Seq<int>
    decreases s.len(),
{
    if s.len() == 0 {
        s
    } else {
        insert_sorted(m, col, desc, sib, sort_rows(m, col, desc, sib, s.drop_last()), s.last())
    }
}

/// The visible rows among the first `k`, in index order.
pub open spec fn visible_rows(m: RowModel, k: int) -> Seq<int>
    decreases k,
{
    if k <= 0 {
        Seq::empty()
    } else {
        visible_rows(m, k - 1) + (if m.is_visible(k - 1) {
            seq![k - 1]
        } else {
            Seq::empty()
        })
    }
}

/// The display order in list mode.
pub open spec fn flat_order(m: RowModel, col: int, desc: bool) -> Seq<int> {
    sort_rows(m, col, desc, false, visible_rows(m, m.n() as int))
}

pub open spec fn usizes(s: Seq<usize>) -> Seq<int> {
    s.map_values(|x: usize| x as int)
}

fn lex_compare_exec(a: &Vec<u64>, b: &Vec<u64>) -> (r: i8)
    ensures
        r == lex_compare(a@, b@),
{
    let mut i: usize = 0;
    proof {
        assert(a@.skip(0) =~= a@);
        assert(b@.skip(0) =~= b@);
    }
    while i < a.len() && i < b.len()
        invariant
            i <= a@.len(),
            i <= b@.len(),
            lex_compare(a@, b@) == lex_compare(a@.skip(i as int), b@.skip(i as int)),
        decreases a@.len() - i,
    {
        if a[i] < b[i] {
            return -1;
        }
        if a[i] > b[i] {
            return 1;
        }
        proof {
            assert(a@.skip(i as int).drop_first() =~= a@.skip(i + 1));
            assert(b@.skip(i as int).drop_first() =~= b@.skip(i + 1));
        }
        i = i + 1;
    }
    if i < a.len() {
        1
    } else if i < b.len() {
        -1
    } else {
        0
    }
}

fn key_compare(m: &RowModel, col: usize, sib: bool, a: usize, b: usize) -> (r: i8)
    requires
        m.wf(),
        a < m.n(),
        b < m.n(),
    ensures
        r == lex_compare(m.key(a as int, col as int, sib), m.key(b as int, col as int, sib)),
{
    let ka = if sib {
        &m.sibling_keys[a]
    } else {
        &m.keys[a]
    };
    let kb = if sib {
        &m.sibling_keys[b]
    } else {
        &m.keys[b]
    };
    let empty: Vec<u64> = Vec::new();
    let x = if col < ka.len() {
        &ka[col]
    } else {
        &empty
    };
    let y = if col < kb.len() {
        &kb[col]
    } else {
        &empty
    };
    lex_compare_exec(x, y)
}

fn order_le_exec(m: &RowModel, col: usize, desc: bool, sib: bool, a: usize, b: usize) -> (r: bool)
    requires
        m.wf(),
        a < m.n(),
        b < m.n(),
    ensures
        r == order_le(*m, col as int, desc, sib, a as int, b as int),
{
    let c = if desc {
        key_compare(m, col, sib, b, a)
    } else {
        key_compare(m, col, sib, a, b)
    };
    c < 0 || (c == 0 && (m.ids[a].0 < m.ids[b].0 || (m.ids[a].0 == m.ids[b].0 && a <= b)))
}

/// Merge two lists sorted by `order_le` into one.
fn merge_rows(m: &RowModel, col: usize, desc: bool, sib: bool, a: &Vec<usize>, b: &Vec<usize>) -> (r: Vec<usize>)
    requires
        m.wf(),
        forall|i: int| 0 <= i < a@.len() ==> #[trigger] a@[i] < m.n(),
        forall|i: int| 0 <= i < b@.len() ==> #[trigger] b@[i] < m.n(),
        sorted_by(*m, col as int, desc, sib, usizes(a@)),
        sorted_by(*m, col as int, desc, sib, usizes(b@)),
    ensures
        sorted_by(*m, col as int, desc, sib, usizes(r@)),
        usizes(r@).to_multiset() == usizes(a@).to_multiset().add(usizes(b@).to_multiset()),
        forall|i: int| 0 <= i < r@.len() ==> #[trigger] r@[i] < m.n(),
{
    broadcast use vstd::seq_lib::group_to_multiset_ensures, vstd::multiset::group_multiset_axioms;

    let ghost cc = col as int;
    let mut r: Vec<usize> = Vec::new();
    let mut i: usize = 0;
    let mut j: usize = 0;
    proof {
        assert(usizes(r@) =~= Seq::<int>::empty());
        assert(usizes(a@.take(0)) =~= Seq::<int>::empty());
        assert(usizes(b@.take(0)) =~= Seq::<int>::empty());
    }
    while i < a.len() || j < b.len()
        invariant
            m.wf(),
            cc == col as int,
            i <= a@.len(),
            j <= b@.len(),
            forall|t: int| 0 <= t < a@.len() ==> #[trigger] a@[t] < m.n(),
            forall|t: int| 0 <= t < b@.len() ==> #[trigger] b@[t] < m.n(),
            forall|t: int| 0 <= t < r@.len() ==> #[trigger] r@[t] < m.n(),
            sorted_by(*m, cc, desc, sib, usizes(a@)),
            sorted_by(*m, cc, desc, sib, usizes(b@)),
            sorted_by(*m, cc, desc, sib, usizes(r@)),
            usizes(r@).to_multiset() == usizes(a@.take(i as int)).to_multiset().add(
                usizes(b@.take(j as int)).to_multiset(),
            ),
            forall|t: int|
                0 <= t < r@.len() ==> (i < a@.len() ==> order_le(*m, cc, desc, sib, #[trigger] r@[t] as int, a@[i as int] as int))
                    && (j < b@.len() ==> order_le(*m, cc, desc, sib, r@[t] as int, b@[j as int] as int)),
        decreases a@.len() + b@.len() - i - j,
    {
        let take_a = if i == a.len() {
            false
        } else if j == b.len() {
            true
        } else {
            order_le_exec(m, col, desc, sib, a[i], b[j])
        };
        let ghost r0 = r@;
        if take_a {
            let x = a[i];
            proof {
                if j < b@.len() {
                    if !order_le(*m, cc, desc, sib, x as int, b@[j as int] as int) {
                        assert(false);
                    }
                }
            }
            r.push(x);
            proof {
                assert(usizes(r@) =~= usizes(r0).push(x as int));
                assert(usizes(a@.take(i + 1)) =~= usizes(a@.take(i as int)).push(x as int));
                vstd::seq_lib::to_multiset_build(usizes(r0), x as int);
                vstd::seq_lib::to_multiset_build(usizes(a@.take(i as int)), x as int);
                assert(usizes(r@).to_multiset() =~= usizes(a@.take(i + 1)).to_multiset().add(
                    usizes(b@.take(j as int)).to_multiset(),
                ));
                assert forall|t: int, u: int| 0 <= t < u < usizes(r@).len() implies order_le(
                    *m,
                    cc,
                    desc,
                    sib,
                    #[trigger] usizes(r@)[t],
                    #[trigger] usizes(r@)[u],
                ) by {
                    if u < r0.len() {
                        assert(usizes(r0)[t] == usizes(r@)[t] && usizes(r0)[u] == usizes(r@)[u]);
                    } else {
                        assert(usizes(r@)[t] == r@[t] as int);
                    }
                }
                assert forall|t: int| 0 <= t < r@.len() implies (i + 1 < a@.len() ==> order_le(
                    *m,
                    cc,
                    desc,
                    sib,
                    #[trigger] r@[t] as int,
                    a@[i + 1] as int,
                )) && (j < b@.len() ==> order_le(*m, cc, desc, sib, r@[t] as int, b@[j as int] as int)) by {
                    if i + 1 < a@.len() {
                        assert(order_le(*m, cc, desc, sib, usizes(a@)[i as int], usizes(a@)[i + 1]));
                        if t < r0.len() {
                            lemma_order_le_trans(*m, cc, desc, sib, r@[t] as int, x as int, a@[i + 1] as int);
                        }
                    }
                    if t == r0.len() {
                        lemma_order_le_refl(*m, cc, desc, sib, x as int);
                    }
                }
            }
            i = i + 1;
        } else {
            let y = b[j];
            proof {
                if i < a@.len() {
                    lemma_order_le_total(*m, cc, desc, sib, a@[i as int] as int, y as int);
                }
            }
            r.push(y);
            proof {
                assert(usizes(r@) =~= usizes(r0).push(y as int));
                assert(usizes(b@.take(j + 1)) =~= usizes(b@.take(j as int)).push(y as int));
                vstd::seq_lib::to_multiset_build(usizes(r0), y as int);
                vstd::seq_lib::to_multiset_build(usizes(b@.take(j as int)), y as int);
                assert(usizes(r@).to_multiset() =~= usizes(a@.take(i as int)).to_multiset().add(
                    usizes(b@.take(j + 1)).to_multiset(),
                ));
                assert forall|t: int, u: int| 0 <= t < u < usizes(r@).len() implies order_le(
                    *m,
                    cc,
                    desc,
                    sib,
                    #[trigger] usizes(r@)[t],
                    #[trigger] usizes(r@)[u],
                ) by {
                    if u < r0.len() {
                        assert(usizes(r0)[t] == usizes(r@)[t] && usizes(r0)[u] == usizes(r@)[u]);
                    } else {
                        assert(usizes(r@)[t] == r@[t] as int);
                    }
                }
                assert forall|t: int| 0 <= t < r@.len() implies (i < a@.len() ==> order_le(
                    *m,
                    cc,
                    desc,
                    sib,
                    #[trigger] r@[t] as int,
                    a@[i as int] as int,
                )) && (j + 1 < b@.len() ==> order_le(*m, cc, desc, sib, r@[t] as int, b@[j + 1] as int)) by {
                    if j + 1 < b@.len() {
                        assert(order_le(*m, cc, desc, sib, usizes(b@)[j as int], usizes(b@)[j + 1]));
                        if t < r0.len() {
                            lemma_order_le_trans(*m, cc, desc, sib, r@[t] as int, y as int, b@[j + 1] as int);
                        }
                    }
                    if t == r0.len() {
                        lemma_order_le_refl(*m, cc, desc, sib, y as int);
                    }
                }
            }
            j = j + 1;
        }
    }
    proof {
        assert(a@.take(a@.len() as int) =~= a@);
        assert(b@.take(b@.len() as int) =~= b@);
    }
    r
}

/// Sort `src[lo..hi]` by `order_le`, merging sorted halves.
fn sort_range(m: &RowModel, col: usize, desc: bool, sib: bool, src: &Vec<usize>, lo: usize, hi: usize) -> (r: Vec<usize>)
    requires
        m.wf(),
        lo <= hi <= src@.len(),
        forall|i: int| 0 <= i < src@.len() ==> #[trigger] src@[i] < m.n(),
    ensures
        sorted_by(*m, col as int, desc, sib, usizes(r@)),
        usizes(r@).to_multiset() == usizes(src@.subrange(lo as int, hi as int)).to_multiset(),
        forall|i: int| 0 <= i < r@.len() ==> #[trigger] r@[i] < m.n(),
    decreases hi - lo,
{
    broadcast use vstd::seq_lib::group_to_multiset_ensures;

    if hi - lo <= 1 {
        let mut r: Vec<usize> = Vec::new();
        if hi > lo {
            r.push(src[lo]);
        }
        proof {
            assert(usizes(r@) =~= usizes(src@.subrange(lo as int, hi as int)));
        }
        r
    } else {
        let mid = lo + (hi - lo) / 2;
        let a = sort_range(m, col, desc, sib, src, lo, mid);
        let b = sort_range(m, col, desc, sib, src, mid, hi);
        let r = merge_rows(m, col, desc, sib, &a, &b);
        proof {
            let whole = usizes(src@.subrange(lo as int, hi as int));
            let left = usizes(src@.subrange(lo as int, mid as int));
            let right = usizes(src@.subrange(mid as int, hi as int));
            assert(whole =~= left + right);
            vstd::seq_lib::lemma_multiset_commutative(left, right);
        }
        r
    }
}

/// Sort `src` by `order_le`.
fn sort_into(m: &RowModel, col: usize, desc: bool, sib: bool, src: &Vec<usize>) -> (r: Vec<usize>)
    requires
        m.wf(),
        forall|i: int| 0 <= i < src@.len() ==> #[trigger] src@[i] < m.n(),
    ensures
        usizes(r@) == sort_rows(*m, col as int, desc, sib, usizes(src@)),
        forall|i: int| 0 <= i < r@.len() ==> #[trigger] r@[i] < m.n(),
{
    let r = sort_range(m, col, desc, sib, src, 0, src.len());
    proof {
        let s = usizes(src@);
        assert(src@.subrange(0, src@.len() as int) =~= src@);
        lemma_sort_rows_sorted(*m, col as int, desc, sib, s);
        lemma_sort_rows_multiset(*m, col as int, desc, sib, s);
        lemma_sorted_unique(*m, col as int, desc, sib, usizes(r@), sort_rows(*m, col as int, desc, sib, s));
    }
    r
}

/// The visible rows, in index order.
fn visible_row_list(m: &RowModel) -> (r: Vec<usize>)
    requires
        m.wf(),
    ensures
        usizes(r@) == visible_rows(*m, m.n() as int),
        forall|i: int| 0 <= i < r@.len() ==> #[trigger] r@[i] < m.n(),
{
    let mut r: Vec<usize> = Vec::new();
    let mut i: usize = 0;
    while i < m.ids.len()
        invariant
            m.wf(),
            i <= m.n(),
            usizes(r@) == visible_rows(*m, i as int),
            forall|t: int| 0 <= t < r@.len() ==> #[trigger] r@[t] < i,
        decreases m.n() - i,
    {
        if m.visible[i] {
            r.push(i);
            proof {
                assert(usizes(r@) =~= visible_rows(*m, i as int) + seq![i as int]);
            }
        } else {
            proof {
                assert(visible_rows(*m, i + 1) =~= visible_rows(*m, i as int));
            }
        }
        i = i + 1;
    }
    r
}

/// Row `r`'s parent in tree mode, -1 for a root: the given parent, unless it is
/// missing, out of range, the row itself, or hidden.
pub open spec fn tree_parent(m: RowModel, r: int) -> int {
    match m.parent@[r] {
        Some(p) => if (p as int) < m.n() && p as int != r && m.is_visible(p as int) {
            p as int
        } else {
            -1
        },
        None => -1,
    }
}

/// The visible rows among the first `k` whose tree parent is `x` (-1: the
/// roots), in index order.
pub open spec fn kids_upto(m: RowModel, x: int, k: int) -> Seq<int>
    decreases k,
{
    if k <= 0 {
        Seq::empty()
    } else {
        kids_upto(m, x, k - 1) + (if m.is_visible(k - 1) && tree_parent(m, k - 1) == x {
            seq![k - 1]
        } else {
            Seq::empty()
        })
    }
}

/// The children of `x` (-1: the roots) in sibling order.
pub open spec fn kids(m: RowModel, col: int, desc: bool, x: int) -> Seq<int> {
    sort_rows(m, col, desc, true, kids_upto(m, x, m.n() as int))
}

/// One level deeper, saturating at the depth counter's range.
pub open spec fn deeper(d: int) -> int {
    if d < 65535 {
        d + 1
    } else {
        65535
    }
}

/// The display entries `(row, depth, has children)` of the subtree at `x`, listed
/// at depth `d`: the row itself, then, unless it is collapsed, its children's
/// subtrees in sibling order. `fuel` bounds the depth of the walk.
pub open spec fn walk(
    m: RowModel,
    col: int,
    desc: bool,
    collapsed: Set<u64>,
    x: int,
    d: int,
    fuel: nat,
) -> Seq<(int, int, bool)>
    decreases fuel, 0nat,
{
    if fuel == 0 {
        Seq::empty()
    } else {
        let ks = kids(m, col, desc, x);
        seq![(x, d, ks.len() > 0)] + (if collapsed.contains(m.id(x)) {
            Seq::empty()
        } else {
            walk_list(m, col, desc, collapsed, ks, deeper(d), (fuel - 1) as nat)
        })
    }
}

/// The walks of the subtrees at `xs`, one after another.
pub open spec fn walk_list(
    m: RowModel,
    col: int,
    desc: bool,
    collapsed: Set<u64>,
    xs: Seq<int>,
    d: int,
    fuel: nat,
) -> Seq<(int, int, bool)>
    decreases fuel, xs.len(),
{
    if xs.len() == 0 {
        Seq::empty()
    } else {
        walk_list(m, col, desc, collapsed, xs.drop_last(), d, fuel) + walk(
            m,
            col,
            desc,
            collapsed,
            xs.last(),
            d,
            fuel,
        )
    }
}

/// Per-position tree facts, parallel to the display order.
#[derive(Debug, Clone, Copy, Default, PartialEq, Eq, Structural)]
pub struct RowMeta {
    pub depth: u16,
    pub has_children: bool,
}

/// The display entries an order and its meta describe.
pub open spec fn entries(order: Seq<usize>, meta: Seq<RowMeta>) -> Seq<(int, int, bool)> {
    Seq::new(order.len(), |i: int| (order[i] as int, meta[i].depth as int, meta[i].has_children))
}

/// Tree parent slot of row `r`: the parent index, or `n` for a root.
fn tree_parent_slot(m: &RowModel, r: usize) -> (s: usize)
    requires
        m.wf(),
        r < m.n(),
    ensures
        s == (if tree_parent(*m, r as int) == -1 {
            m.n() as int
        } else {
            tree_parent(*m, r as int)
        }),
{
    let n = m.ids.len();
    match m.parent[r] {
        Some(p) => if p < n && p != r && m.visible[p] {
            p
        } else {
            n
        },
        None => n,
    }
}

/// Sorted children lists: slot `x` holds `kids(x)`, slot `n` the roots.
spec fn kid_lists_ok(m: RowModel, col: int, desc: bool, kl: Seq<Vec<usize>>) -> bool {
    &&& kl.len() == m.n() + 1
    &&& forall|x: int|
        0 <= x <= m.n() ==> usizes(#[trigger] kl[x]@) == kids(
            m,
            col,
            desc,
            if x == m.n() {
                -1
            } else {
                x
            },
        )
    &&& forall|x: int, i: int| 0 <= x <= m.n() && 0 <= i < kl[x]@.len() ==> #[trigger] kl[x]@[i] < m.n()
}

fn kid_lists(m: &RowModel, col: usize, desc: bool) -> (kl: Vec<Vec<usize>>)
    requires
        m.wf(),
        m.n() < usize::MAX,
    ensures
        kid_lists_ok(*m, col as int, desc, kl@),
{
    let n = m.ids.len();
    let mut raw: Vec<Vec<usize>> = Vec::new();
    let mut x: usize = 0;
    while x <= n
        invariant
            n == m.n(),
            n < usize::MAX,
            x <= n + 1,
            raw@.len() == x,
            forall|y: int| 0 <= y < x ==> #[trigger] raw@[y]@ == Seq::<usize>::empty(),
        decreases n + 1 - x,
    {
        raw.push(Vec::new());
        x = x + 1;
    }
    let mut r: usize = 0;
    while r < n
        invariant
            m.wf(),
            n == m.n(),
            r <= n,
            raw@.len() == n + 1,
            forall|y: int|
                0 <= y <= n ==> usizes(#[trigger] raw@[y]@) == kids_upto(
                    *m,
                    if y == n {
                        -1
                    } else {
                        y
                    },
                    r as int,
                ),
            forall|y: int, i: int| 0 <= y <= n && 0 <= i < raw@[y]@.len() ==> #[trigger] raw@[y]@[i] < r,
        decreases n - r,
    {
        if m.visible[r] {
            let slot = tree_parent_slot(m, r);
            let ghost before = raw@;
            raw[slot].push(r);
            proof {
                assert forall|y: int| 0 <= y <= n implies usizes(#[trigger] raw@[y]@) == kids_upto(
                    *m,
                    if y == n {
                        -1
                    } else {
                        y
                    },
                    r + 1,
                ) by {
                    if y == slot as int {
                        assert(usizes(raw@[y]@) =~= usizes(before[y]@).push(r as int));
                    }
                }
            }
        } else {
            proof {
                assert forall|y: int| 0 <= y <= n implies usizes(#[trigger] raw@[y]@) == kids_upto(
                    *m,
                    if y == n {
                        -1
                    } else {
                        y
                    },
                    r + 1,
                ) by {
                    assert(kids_upto(*m, if y == n { -1 } else { y }, r + 1) =~= kids_upto(
                        *m,
                        if y == n { -1 } else { y },
                        r as int,
                    ));
                }
            }
        }
        r = r + 1;
    }
    let mut kl: Vec<Vec<usize>> = Vec::new();
    let mut x: usize = 0;
    while x <= n
        invariant
            m.wf(),
            n == m.n(),
            n < usize::MAX,
            x <= n + 1,
            raw@.len() == n + 1,
            kl@.len() == x,
            forall|y: int|
                0 <= y <= n ==> usizes(#[trigger] raw@[y]@) == kids_upto(
                    *m,
                    if y == n {
                        -1
                    } else {
                        y
                    },
                    n as int,
                ),
            forall|y: int, i: int| 0 <= y <= n && 0 <= i < raw@[y]@.len() ==> #[trigger] raw@[y]@[i] < n,
            forall|y: int|
                0 <= y < x ==> usizes(#[trigger] kl@[y]@) == kids(
                    *m,
                    col as int,
                    desc,
                    if y == n {
                        -1
                    } else {
                        y
                    },
                ),
            forall|y: int, i: int| 0 <= y < x && 0 <= i < kl@[y]@.len() ==> #[trigger] kl@[y]@[i] < n,
        decreases n + 1 - x,
    {
        let sorted = sort_into(m, col, desc, true, &raw[x]);
        kl.push(sorted);
        x = x + 1;
    }
    kl
}

/// The rows of the subtree at `x` that a walk with budget `fuel` reaches, whether
/// listed or folded away under a collapsed ancestor.
pub open spec fn reach(m: RowModel, col: int, desc: bool, x: int, fuel: nat) -> Set<int>
    decreases fuel, 0nat,
{
    if fuel == 0 {
        Set::empty()
    } else {
        set![x].union(reach_list(m, col, desc, kids(m, col, desc, x), (fuel - 1) as nat))
    }
}

/// The rows reached from the subtrees at `xs`.
pub open spec fn reach_list(m: RowModel, col: int, desc: bool, xs: Seq<int>, fuel: nat) -> Set<int>
    decreases fuel, xs.len(),
{
    if xs.len() == 0 {
        Set::empty()
    } else {
        reach_list(m, col, desc, xs.drop_last(), fuel).union(reach(m, col, desc, xs.last(), fuel))
    }
}

/// Saturating step one level down.
fn deeper_exec(d: u16) -> (r: u16)
    ensures
        r == deeper(d as int),
{
    if d < 65535 {
        d + 1
    } else {
        65535
    }
}

/// Walk the subtree at `x`: list it (unless `hidden`) and mark every row it
/// reaches in `visited`.
fn walk_into(
    m: &RowModel,
    col: usize,
    desc: bool,
    kl: &Vec<Vec<usize>>,
    collapsed: &HashSet<u64>,
    x: usize,
    d: u16,
    fuel: usize,
    hidden: bool,
    order: &mut Vec<usize>,
    meta: &mut Vec<RowMeta>,
    visited: &mut Vec<bool>,
)
    requires
        m.wf(),
        kid_lists_ok(*m, col as int, desc, kl@),
        x < m.n(),
        old(order)@.len() == old(meta)@.len(),
        old(visited)@.len() == m.n(),
        forall|i: int| 0 <= i < old(order)@.len() ==> #[trigger] old(order)@[i] < m.n(),
    ensures
        final(order)@.len() == final(meta)@.len(),
        forall|i: int| 0 <= i < final(order)@.len() ==> #[trigger] final(order)@[i] < m.n(),
        final(visited)@.len() == m.n(),
        hidden ==> final(order)@ == old(order)@ && final(meta)@ == old(meta)@,
        !hidden ==> entries(final(order)@, final(meta)@) == entries(old(order)@, old(meta)@) + walk(
            *m,
            col as int,
            desc,
            collapsed@,
            x as int,
            d as int,
            fuel as nat,
        ),
        forall|r: int|
            0 <= r < m.n() ==> #[trigger] final(visited)@[r] == (old(visited)@[r] || reach(
                *m,
                col as int,
                desc,
                x as int,
                fuel as nat,
            ).contains(r)),
    decreases fuel,
{
    let ghost c = collapsed@;
    let ghost cc = col as int;
    if fuel == 0 {
        return;
    }
    visited.set(x, true);
    let ks = &kl[x];
    let ghost kseq = usizes(ks@);
    assert(kseq == kids(*m, cc, desc, x as int));
    let hc = ks.len() > 0;
    if !hidden {
        order.push(x);
        meta.push(RowMeta { depth: d, has_children: hc });
    }
    let id = m.ids[x].0;
    let hide = hidden || collapsed.contains(&id);
    let d2 = deeper_exec(d);
    let ghost order1 = order@;
    let ghost meta1 = meta@;
    let ghost visited1 = visited@;
    proof {
        assert(kseq.take(0) =~= Seq::<int>::empty());
        assert(entries(order@, meta@) =~= entries(order1, meta1) + Seq::<(int, int, bool)>::empty());
    }
    let mut i: usize = 0;
    while i < ks.len()
        invariant
            m.wf(),
            kid_lists_ok(*m, cc, desc, kl@),
            cc == col as int,
            c == collapsed@,
            ks@ == kl@[x as int]@,
            kseq == usizes(ks@),
            x < m.n(),
            fuel > 0,
            visited1.len() == m.n(),
            i <= ks@.len(),
            order@.len() == meta@.len(),
            forall|t: int| 0 <= t < order@.len() ==> #[trigger] order@[t] < m.n(),
            visited@.len() == m.n(),
            order1.len() == meta1.len(),
            hide ==> order@ == order1 && meta@ == meta1,
            !hide ==> entries(order@, meta@) == entries(order1, meta1) + walk_list(
                *m,
                cc,
                desc,
                c,
                kseq.take(i as int),
                d2 as int,
                (fuel - 1) as nat,
            ),
            forall|r: int|
                0 <= r < m.n() ==> #[trigger] visited@[r] == (visited1[r] || reach_list(
                    *m,
                    cc,
                    desc,
                    kseq.take(i as int),
                    (fuel - 1) as nat,
                ).contains(r)),
        decreases ks@.len() - i,
    {
        proof {
            assert(kseq.take(i + 1).drop_last() =~= kseq.take(i as int));
            assert(kseq.take(i + 1).last() == ks@[i as int] as int);
            assert(ks@[i as int] < m.n());
        }
        walk_into(m, col, desc, kl, collapsed, ks[i], d2, fuel - 1, hide, order, meta, visited);
        i = i + 1;
    }
    proof {
        assert(kseq.take(ks@.len() as int) =~= kseq);
        let w = walk(*m, cc, desc, c, x as int, d as int, fuel as nat);
        assert forall|r: int| 0 <= r < m.n() implies #[trigger] visited@[r] == (old(visited)@[r] || reach(
            *m,
            cc,
            desc,
            x as int,
            fuel as nat,
        ).contains(r)) by {}
        if !hidden {
            if hide {
                assert(c.contains(m.id(x as int)));
                assert(w =~= seq![(x as int, d as int, kseq.len() > 0)]);
            } else {
                assert(!c.contains(m.id(x as int)));
            }
            assert(entries(order@, meta@) =~= entries(old(order)@, old(meta)@) + w);
        }
    }
}

/// The visible rows among the first `k` that the walk from the roots does not
/// reach (rows caught in a parent cycle), each listed flat at depth 0.
pub open spec fn leftovers(m: RowModel, col: int, desc: bool, k: int) -> Seq<(int, int, bool)>
    decreases k,
{
    if k <= 0 {
        Seq::empty()
    } else {
        leftovers(m, col, desc, k - 1) + (if m.is_visible(k - 1) && !reach_list(
            m,
            col,
            desc,
            kids(m, col, desc, -1),
            m.n(),
        ).contains(k - 1) {
            seq![(k - 1, 0int, false)]
        } else {
            Seq::empty()
        })
    }
}

/// The display entries in tree mode: a pre-order walk from the roots, skipping
/// the descendants of collapsed rows, then the rows no walk reaches.
pub open spec fn tree_entries(m: RowModel, col: int, desc: bool, collapsed: Set<u64>) -> Seq<(int, int, bool)> {
    walk_list(m, col, desc, collapsed, kids(m, col, desc, -1), 0, m.n()) + leftovers(m, col, desc, m.n() as int)
}

/// Build the tree-mode display order and its per-position meta.
fn build_tree_order(m: &RowModel, col: usize, desc: bool, collapsed: &HashSet<u64>) -> (r: (Vec<usize>, Vec<RowMeta>))
    requires
        m.wf(),
        m.n() < usize::MAX,
    ensures
        r.0@.len() == r.1@.len(),
        forall|i: int| 0 <= i < r.0@.len() ==> #[trigger] r.0@[i] < m.n(),
        entries(r.0@, r.1@) == tree_entries(*m, col as int, desc, collapsed@),
{
    let n = m.ids.len();
    let kl = kid_lists(m, col, desc);
    let mut order: Vec<usize> = Vec::new();
    let mut meta: Vec<RowMeta> = Vec::new();
    let mut visited: Vec<bool> = Vec::new();
    let mut i: usize = 0;
    while i < n
        invariant
            i <= n,
            visited@.len() == i,
            forall|t: int| 0 <= t < i ==> !#[trigger] visited@[t],
        decreases n - i,
    {
        visited.push(false);
        i = i + 1;
    }
    let roots = &kl[n];
    let ghost rseq = usizes(roots@);
    let ghost cc = col as int;
    proof {
        assert(rseq == kids(*m, cc, desc, -1));
        assert(rseq.take(0) =~= Seq::<int>::empty());
        assert(entries(order@, meta@) =~= Seq::<(int, int, bool)>::empty());
    }
    let mut j: usize = 0;
    while j < roots.len()
        invariant
            m.wf(),
            n == m.n(),
            cc == col as int,
            kid_lists_ok(*m, cc, desc, kl@),
            roots@ == kl@[n as int]@,
            rseq == usizes(roots@),
            j <= roots@.len(),
            order@.len() == meta@.len(),
            forall|t: int| 0 <= t < order@.len() ==> #[trigger] order@[t] < m.n(),
            visited@.len() == n,
            entries(order@, meta@) == walk_list(*m, cc, desc, collapsed@, rseq.take(j as int), 0, n as nat),
            forall|t: int|
                0 <= t < n ==> #[trigger] visited@[t] == reach_list(*m, cc, desc, rseq.take(j as int), n as nat).contains(t),
        decreases roots@.len() - j,
    {
        proof {
            assert(rseq.take(j + 1).drop_last() =~= rseq.take(j as int));
            assert(rseq.take(j + 1).last() == roots@[j as int] as int);
        }
        walk_into(m, col, desc, &kl, collapsed, roots[j], 0, n, false, &mut order, &mut meta, &mut visited);
        j = j + 1;
    }
    proof {
        assert(rseq.take(roots@.len() as int) =~= rseq);
        assert(entries(order@, meta@) =~= entries(order@, meta@) + leftovers(*m, cc, desc, 0));
    }
    let ghost walked = entries(order@, meta@);
    let mut r: usize = 0;
    while r < n
        invariant
            m.wf(),
            n == m.n(),
            cc == col as int,
            r <= n,
            order@.len() == meta@.len(),
            forall|t: int| 0 <= t < order@.len() ==> #[trigger] order@[t] < m.n(),
            visited@.len() == n,
            forall|t: int|
                0 <= t < n ==> #[trigger] visited@[t] == reach_list(*m, cc, desc, kids(*m, cc, desc, -1), n as nat).contains(t),
            entries(order@, meta@) == walked + leftovers(*m, cc, desc, r as int),
        decreases n - r,
    {
        if m.visible[r] && !visited[r] {
            order.push(r);
            meta.push(RowMeta { depth: 0, has_children: false });
            proof {
                assert(entries(order@, meta@) =~= walked + leftovers(*m, cc, desc, r as int) + seq![(r as int, 0int, false)]);
            }
        } else {
            proof {
                assert(leftovers(*m, cc, desc, r + 1) =~= leftovers(*m, cc, desc, r as int));
            }
        }
        r = r + 1;
    }
    (order, meta)
}

/// A column as the table's ordering logic sees it.
#[derive(Debug, Clone, Copy)]
pub struct Column {
    pub title: &'static str,
    /// Right-aligned with tabular figures.
    pub numeric: bool,
    /// First click sorts descending (natural for "most CPU first").
    pub default_desc: bool,
}

impl Column {
    pub fn text(title: &'static str) -> (c: Self)
        ensures
            c.title == title,
            !c.numeric,
            !c.default_desc,
    {
        Column { title, numeric: false, default_desc: false }
    }

    pub fn number(title: &'static str) -> (c: Self)
        ensures
            c.title == title,
            c.numeric,
            c.default_desc,
    {
        Column { title, numeric: true, default_desc: true }
    }
}

/// Above this many remembered collapsed ids, ids of rows that no longer exist are
/// dropped on the next tree rebuild.
pub const COLLAPSED_PRUNE_AT: usize = 4096;

/// The answer to a left or right arrow in tree mode.
#[derive(Debug, Clone, Copy, PartialEq, Eq, Structural)]
pub enum TreeStep {
    /// Nothing to do.
    Ignored,
    /// The selected row was collapsed or expanded.
    Toggled,
    /// The selection moved to this display position.
    Moved(usize),
}

/// Sort, selection and collapse state of a table, and its cached display order.
#[derive(Debug)]
pub struct Table {
    pub columns: Vec<Column>,
    pub sort_col: usize,
    pub sort_desc: bool,
    /// Source row indices in display order.
    order: Vec<usize>,
    /// Tree facts per display position; empty in list mode.
    meta: Vec<RowMeta>,
    order_dirty: bool,
    /// Source length when `order` was built; a silent length change forces a
    /// rebuild so stale indices never reach the source.
    order_src_len: usize,
    /// Hovered position in the display order.
    pub hover: Option<usize>,
    pub selected: Option<RowId>,
    tree: bool,
    collapsed: HashSet<u64>,
}

/// The state of a [`Table`] as contracts see it.
pub struct TableView {
    pub columns: Seq<Column>,
    pub sort_col: usize,
    pub sort_desc: bool,
    /// Display order as source row indices.
    pub order: Seq<int>,
    /// `(depth, has children)` per display position.
    pub meta: Seq<(int, bool)>,
    pub dirty: bool,
    pub src_len: usize,
    pub hover: Option<usize>,
    pub selected: Option<RowId>,
    pub tree: bool,
    pub collapsed: Set<u64>,
}

pub open spec fn metas(meta: Seq<RowMeta>) -> Seq<(int, bool)> {
    meta.map_values(|x: RowMeta| (x.depth as int, x.has_children))
}

impl View for Table {
    type V = TableView;

    closed spec fn view(&self) -> TableView {
        TableView {
            columns: self.columns@,
            sort_col: self.sort_col,
            sort_desc: self.sort_desc,
            order: usizes(self.order@),
            meta: metas(self.meta@),
            dirty: self.order_dirty,
            src_len: self.order_src_len,
            hover: self.hover,
            selected: self.selected,
            tree: self.tree,
            collapsed: self.collapsed@,
        }
    }
}

/// A table state is consistent: every listed row is below the source length the
/// order was built for, and a clean order carries meta exactly in tree mode.
pub open spec fn table_wf(v: TableView) -> bool {
    &&& forall|i: int| 0 <= i < v.order.len() ==> 0 <= #[trigger] v.order[i] < v.src_len
    &&& !v.dirty ==> v.meta.len() == (if v.tree {
        v.order.len()
    } else {
        0
    })
    &&& v.meta.len() == 0 || v.meta.len() == v.order.len()
    &&& forall|i: int| 0 <= i < v.meta.len() ==> 0 <= #[trigger] v.meta[i].0 < 65536
}

/// Every listed row is a row of `m`.
pub open spec fn fits(v: TableView, m: RowModel) -> bool {
    forall|i: int| 0 <= i < v.order.len() ==> 0 <= #[trigger] v.order[i] < m.n()
}

/// Some row of `m` has this id.
pub open spec fn is_live(m: RowModel, id: u64) -> bool {
    exists|r: int| 0 <= r < m.n() && #[trigger] m.id(r) == id
}

/// The collapsed ids kept by a rebuild: all of them, unless a tree rebuild finds
/// more than [`COLLAPSED_PRUNE_AT`], in which case only those of live rows.
pub open spec fn kept_collapsed(m: RowModel, tree: bool, c: Set<u64>) -> Set<u64> {
    if tree && c.len() > COLLAPSED_PRUNE_AT {
        c.filter(|id: u64| is_live(m, id))
    } else {
        c
    }
}

/// The state after making sure the order is current for `m`: unchanged when the
/// order is clean and built for `m`'s length; otherwise rebuilt, in tree or list
/// mode, by the current sort.
pub open spec fn ensured(v: TableView, m: RowModel) -> TableView {
    if !v.dirty && v.src_len == m.n() {
        v
    } else {
        let c = kept_collapsed(m, v.tree, v.collapsed);
        let e = tree_entries(m, v.sort_col as int, v.sort_desc, c);
        TableView {
            order: if v.tree {
                e.map_values(|x: (int, int, bool)| x.0)
            } else {
                flat_order(m, v.sort_col as int, v.sort_desc)
            },
            meta: if v.tree {
                e.map_values(|x: (int, int, bool)| (x.1, x.2))
            } else {
                Seq::empty()
            },
            dirty: false,
            src_len: m.n() as usize,
            collapsed: c,
            ..v
        }
    }
}

/// The first display position at or after `i` listing a row whose id is `id`,
/// or -1.
pub open spec fn pos_from(m: RowModel, order: Seq<int>, id: u64, i: int) -> int
    decreases order.len() - i,
{
    if i < 0 || i >= order.len() {
        -1
    } else if m.id(order[i]) == id {
        i
    } else {
        pos_from(m, order, id, i + 1)
    }
}

/// The display position of the selected row, if it is listed.
pub open spec fn sel_pos(m: RowModel, v: TableView) -> Option<usize> {
    match v.selected {
        None => None,
        Some(id) => {
            let p = pos_from(m, v.order, id.0, 0);
            if p < 0 {
                None
            } else {
                Some(p as usize)
            }
        },
    }
}

/// The first source row at or after `i` whose id is `id`, or -1.
pub open spec fn row_from(m: RowModel, id: u64, i: int) -> int
    decreases m.n() - i,
{
    if i < 0 || i >= m.n() {
        -1
    } else if m.id(i) == id {
        i
    } else {
        row_from(m, id, i + 1)
    }
}

/// The first display position at or after `i` holding row `row`, or -1.
pub open spec fn index_from(order: Seq<int>, row: int, i: int) -> int
    decreases order.len() - i,
{
    if i < 0 || i >= order.len() {
        -1
    } else if order[i] == row {
        i
    } else {
        index_from(order, row, i + 1)
    }
}

/// The `k`-th tree ancestor of `r` (`r` itself for `k == 0`), or -1 past the root.
pub open spec fn up(m: RowModel, r: int, k: nat) -> int
    decreases k,
{
    if k == 0 {
        r
    } else {
        let u = up(m, r, (k - 1) as nat);
        if u < 0 || u >= m.n() || tree_parent(m, u) == -1 {
            -1
        } else {
            tree_parent(m, u)
        }
    }
}

/// The ids of the first `k` tree ancestors of `r`.
pub open spec fn ancestor_ids(m: RowModel, r: int, k: nat) -> Set<u64> {
    Set::new(|id: u64| exists|i: nat| 1 <= i <= k && 0 <= #[trigger] up(m, r, i) && m.id(up(m, r, i)) == id)
}

/// Reveal the selection: in tree mode expand every ancestor of the selected row,
/// then bring the order up to date and find the row in it. The position is `None`
/// when nothing is selected, the selected row is not in the source, or the row is
/// not listed.
pub open spec fn revealed(v: TableView, m: RowModel) -> (TableView, Option<usize>) {
    match v.selected {
        None => (v, None),
        Some(id) => {
            let row = row_from(m, id.0, 0);
            if row < 0 {
                (v, None)
            } else {
                let anc = ancestor_ids(m, row, m.n());
                let v1 = if v.tree {
                    TableView {
                        collapsed: v.collapsed.difference(anc),
                        dirty: v.dirty || !v.collapsed.intersect(anc).is_empty(),
                        ..v
                    }
                } else {
                    v
                };
                let v2 = ensured(v1, m);
                let p = index_from(v2.order, row, 0);
                (v2, if p < 0 {
                    None
                } else {
                    Some(p as usize)
                })
            }
        },
    }
}

/// The nearest position before `pos` whose depth is below `d`, or -1.
pub open spec fn last_shallower(meta: Seq<(int, bool)>, pos: int, d: int) -> int
    decreases pos,
{
    if pos <= 0 {
        -1
    } else if meta[pos - 1].0 < d {
        pos - 1
    } else {
        last_shallower(meta, pos - 1, d)
    }
}

/// The first position from `i` on whose depth is below `d`, or the length.
pub open spec fn first_shallower(meta: Seq<(int, bool)>, i: int, d: int) -> int
    decreases meta.len() - i,
{
    if i >= meta.len() {
        meta.len() as int
    } else if meta[i].0 < d {
        i
    } else {
        first_shallower(meta, i + 1, d)
    }
}

/// `c` with `id` removed if present, added otherwise.
pub open spec fn toggled(c: Set<u64>, id: u64) -> Set<u64> {
    if c.contains(id) {
        c.remove(id)
    } else {
        c.insert(id)
    }
}

/// Left arrow in tree mode: collapse the selected row, or if it is already
/// collapsed or a leaf, move the selection to its parent.
pub open spec fn left_step(v0: TableView, m: RowModel) -> (TableView, TreeStep) {
    if !v0.tree {
        (v0, TreeStep::Ignored)
    } else {
        let v = ensured(v0, m);
        match sel_pos(m, v) {
            None => (v, TreeStep::Ignored),
            Some(pos) => {
                let d = v.meta[pos as int].0;
                let id = m.id(v.order[pos as int]);
                if v.meta[pos as int].1 && !v.collapsed.contains(id) {
                    (TableView { collapsed: v.collapsed.insert(id), dirty: true, ..v }, TreeStep::Toggled)
                } else if d == 0 {
                    (v, TreeStep::Ignored)
                } else {
                    let p = last_shallower(v.meta, pos as int, d);
                    if p < 0 {
                        (v, TreeStep::Ignored)
                    } else {
                        (
                            TableView { selected: Some(RowId(m.id(v.order[p]))), ..v },
                            TreeStep::Moved(p as usize),
                        )
                    }
                }
            },
        }
    }
}

/// Right arrow in tree mode: expand the selected row, or if it is already
/// expanded, move the selection to its first child.
pub open spec fn right_step(v0: TableView, m: RowModel) -> (TableView, TreeStep) {
    if !v0.tree {
        (v0, TreeStep::Ignored)
    } else {
        let v = ensured(v0, m);
        match sel_pos(m, v) {
            None => (v, TreeStep::Ignored),
            Some(pos) => {
                let id = m.id(v.order[pos as int]);
                if !v.meta[pos as int].1 {
                    (v, TreeStep::Ignored)
                } else if v.collapsed.contains(id) {
                    (TableView { collapsed: v.collapsed.remove(id), dirty: true, ..v }, TreeStep::Toggled)
                } else if pos + 1 >= v.order.len() {
                    (v, TreeStep::Ignored)
                } else {
                    (
                        TableView { selected: Some(RowId(m.id(v.order[pos + 1]))), ..v },
                        TreeStep::Moved((pos + 1) as usize),
                    )
                }
            },
        }
    }
}

/// The position the selection moves to by `delta` in a non-empty order: from
/// the selected position, clamped to the order, or the first row when nothing
/// listed is selected.
pub open spec fn step_target(m: RowModel, v: TableView, delta: int) -> int {
    let last = v.order.len() - 1;
    match sel_pos(m, v) {
        None => 0,
        Some(c) => {
            let t = c + delta;
            if t < 0 {
                0
            } else if t > last {
                last
            } else {
                t
            }
        },
    }
}

fn prune_collapsed(m: &RowModel, c: &HashSet<u64>) -> (r: HashSet<u64>)
    requires
        m.wf(),
    ensures
        r@ == c@.filter(|id: u64| is_live(*m, id)),
{
    let mut r: HashSet<u64> = HashSet::new();
    let mut i: usize = 0;
    while i < m.ids.len()
        invariant
            m.wf(),
            i <= m.n(),
            r@ == c@.filter(|id: u64| exists|t: int| 0 <= t < i && #[trigger] m.id(t) == id),
        decreases m.n() - i,
    {
        let id = m.ids[i].0;
        let ghost before = r@;
        if c.contains(&id) {
            r.insert(id);
        }
        proof {
            assert(r@ =~= c@.filter(|x: u64| exists|t: int| 0 <= t < i + 1 && #[trigger] m.id(t) == x)) by {
                assert forall|x: u64| #![auto] r@.contains(x) == c@.filter(
                    |y: u64| exists|t: int| 0 <= t < i + 1 && #[trigger] m.id(t) == y,
                ).contains(x) by {
                    if c@.contains(x) && exists|t: int| 0 <= t < i + 1 && #[trigger] m.id(t) == x {
                        let t = choose|t: int| 0 <= t < i + 1 && #[trigger] m.id(t) == x;
                        if t < i {
                            assert(before.contains(x));
                        }
                    }
                    if x == id {
                        assert(m.id(i as int) == x);
                    }
                }
            }
        }
        i = i + 1;
    }
    proof {
        assert(r@ =~= c@.filter(|id: u64| is_live(*m, id)));
    }
    r
}

impl Table {
    pub closed spec fn wf(&self) -> bool {
        table_wf(self@)
    }

    pub fn new(columns: Vec<Column>, sort_col: usize) -> (t: Self)
        ensures
            t.wf(),
            t@.columns == columns@,
            t@.sort_col == sort_col,
            t@.sort_desc == (sort_col < columns@.len() && columns@[sort_col as int].default_desc),
            t@.order.len() == 0,
            t@.meta.len() == 0,
            t@.dirty,
            t@.src_len == 0,
            t@.hover is None,
            t@.selected is None,
            !t@.tree,
            t@.collapsed.is_empty(),
    {
        let sort_desc = sort_col < columns.len() && columns[sort_col].default_desc;
        let t = Table {
            columns,
            sort_col,
            sort_desc,
            order: Vec::new(),
            meta: Vec::new(),
            order_dirty: true,
            order_src_len: 0,
            hover: None,
            selected: None,
            tree: false,
            collapsed: HashSet::new(),
        };
        proof {
            assert(usizes(t.order@) =~= Seq::<int>::empty());
            assert(metas(t.meta@) =~= Seq::<(int, bool)>::empty());
        }
        t
    }

    /// Call whenever the source's rows may have changed.
    pub fn invalidate_order(&mut self)
        requires
            old(self).wf(),
        ensures
            final(self).wf(),
            final(self)@ == (TableView { dirty: true, ..old(self)@ }),
    {
        self.order_dirty = true;
    }

    /// Sort by `col`; choosing the active column flips the direction, another
    /// column starts in its default direction. An unknown column is ignored.
    pub fn set_sort(&mut self, col: usize)
        requires
            old(self).wf(),
        ensures
            final(self).wf(),
            final(self)@ == (if col >= old(self)@.columns.len() {
                old(self)@
            } else if col == old(self)@.sort_col {
                TableView { sort_desc: !old(self)@.sort_desc, dirty: true, ..old(self)@ }
            } else {
                TableView {
                    sort_col: col,
                    sort_desc: old(self)@.columns[col as int].default_desc,
                    dirty: true,
                    ..old(self)@
                }
            }),
    {
        if col >= self.columns.len() {
            return;
        }
        if col == self.sort_col {
            self.sort_desc = !self.sort_desc;
        } else {
            self.sort_col = col;
            self.sort_desc = self.columns[col].default_desc;
        }
        self.order_dirty = true;
    }

    /// Whether rows are shown as a hierarchy.
    pub fn tree(&self) -> (r: bool)
        ensures
            r == self@.tree,
    {
        self.tree
    }

    /// The current display order.
    pub fn order(&self) -> (r: &[usize])
        ensures
            usizes(r@) == self@.order,
    {
        self.order.as_slice()
    }

    /// Per-position `(depth, has children)`; empty in list mode.
    pub fn meta(&self) -> (r: Vec<(u16, bool)>)
        ensures
            r@.len() == self@.meta.len(),
            forall|i: int| 0 <= i < r@.len() ==> (#[trigger] r@[i].0 as int, r@[i].1) == self@.meta[i],
    {
        let mut r: Vec<(u16, bool)> = Vec::new();
        let mut i: usize = 0;
        while i < self.meta.len()
            invariant
                i <= self.meta@.len(),
                r@.len() == i,
                forall|t: int| 0 <= t < i ==> (#[trigger] r@[t].0 as int, r@[t].1) == metas(self.meta@)[t],
            decreases self.meta@.len() - i,
        {
            r.push((self.meta[i].depth, self.meta[i].has_children));
            i = i + 1;
        }
        r
    }

    /// Whether a row id is collapsed.
    pub fn is_collapsed(&self, id: RowId) -> (r: bool)
        ensures
            r == self@.collapsed.contains(id.0),
    {
        self.collapsed.contains(&id.0)
    }

    /// Source row at a display position.
    pub fn row_at(&self, pos: usize) -> (r: Option<usize>)
        ensures
            r == (if pos < self@.order.len() {
                Some(self@.order[pos as int] as usize)
            } else {
                None
            }),
    {
        if pos < self.order.len() {
            Some(self.order[pos])
        } else {
            None
        }
    }

    /// Rebuild the display order if rows may have changed since it was built.
    pub fn ensure_order(&mut self, m: &RowModel)
        requires
            old(self).wf(),
            m.wf(),
            m.n() < usize::MAX,
        ensures
            final(self).wf(),
            final(self)@ == ensured(old(self)@, *m),
            fits(final(self)@, *m),
    {
        if !self.order_dirty && self.order_src_len == m.ids.len() {
            return;
        }
        let ghost v0 = self@;
        let n = m.ids.len();
        self.order_src_len = n;
        if self.tree {
            if self.collapsed.len() > COLLAPSED_PRUNE_AT {
                self.collapsed = prune_collapsed(m, &self.collapsed);
            }
            let (order, meta) = build_tree_order(m, self.sort_col, self.sort_desc, &self.collapsed);
            self.order = order;
            self.meta = meta;
            proof {
                let e = tree_entries(*m, self.sort_col as int, self.sort_desc, self.collapsed@);
                assert(entries(self.order@, self.meta@) == e);
                assert(usizes(self.order@) =~= e.map_values(|x: (int, int, bool)| x.0)) by {
                    assert forall|i: int| 0 <= i < self.order@.len() implies usizes(self.order@)[i]
                        == e[i].0 by {
                        assert(entries(self.order@, self.meta@)[i] == e[i]);
                    }
                }
                assert(metas(self.meta@) =~= e.map_values(|x: (int, int, bool)| (x.1, x.2))) by {
                    assert forall|i: int| 0 <= i < self.meta@.len() implies metas(self.meta@)[i]
                        == (e[i].1, e[i].2) by {
                        assert(entries(self.order@, self.meta@)[i] == e[i]);
                    }
                }
            }
        } else {
            let vis = visible_row_list(m);
            self.order = sort_into(m, self.sort_col, self.sort_desc, false, &vis);
            self.meta = Vec::new();
            proof {
                assert(metas(self.meta@) =~= Seq::<(int, bool)>::empty());
            }
        }
        self.order_dirty = false;
        proof {
            assert(self@ == ensured(v0, *m));
        }
    }

    /// Display position of the selected row, if it is listed.
    pub fn selected_pos(&self, m: &RowModel) -> (r: Option<usize>)
        requires
            m.wf(),
            fits(self@, *m),
        ensures
            r == sel_pos(*m, self@),
    {
        match self.selected {
            None => None,
            Some(id) => {
                let ghost order = self@.order;
                let mut i: usize = 0;
                while i < self.order.len()
                    invariant
                        m.wf(),
                        fits(self@, *m),
                        self.selected == Some(id),
                        order == self@.order,
                        i <= order.len(),
                        pos_from(*m, order, id.0, 0) == pos_from(*m, order, id.0, i as int),
                    decreases order.len() - i,
                {
                    proof {
                        assert(order[i as int] == self.order@[i as int] as int);
                    }
                    if m.ids[self.order[i]].0 == id.0 {
                        proof {
                            assert(pos_from(*m, order, id.0, i as int) == i as int);
                        }
                        return Some(i);
                    }
                    i = i + 1;
                }
                None
            },
        }
    }

    /// Collapse or expand the row at a display position. Returns false, changing
    /// nothing, if there is no row there or it has no children.
    pub fn toggle_expanded(&mut self, pos: usize, m: &RowModel) -> (r: bool)
        requires
            old(self).wf(),
            m.wf(),
            fits(old(self)@, *m),
        ensures
            final(self).wf(),
            r == (pos < old(self)@.order.len() && pos < old(self)@.meta.len() && old(self)@.meta[pos as int].1),
            final(self)@ == (if r {
                TableView {
                    collapsed: toggled(old(self)@.collapsed, m.id(old(self)@.order[pos as int])),
                    dirty: true,
                    ..old(self)@
                }
            } else {
                old(self)@
            }),
    {
        if pos >= self.order.len() {
            return false;
        }
        if !(pos < self.meta.len() && self.meta[pos].has_children) {
            return false;
        }
        let id = m.ids[self.order[pos]].0;
        let ghost c0 = self@.collapsed;
        proof {
            assert(self@.order[pos as int] == self.order@[pos as int] as int);
        }
        if !self.collapsed.remove(&id) {
            self.collapsed.insert(id);
            proof {
                assert(self@.collapsed =~= toggled(c0, id));
            }
        }
        self.order_dirty = true;
        true
    }

    /// Remove the ids of the first `n` tree ancestors of `row` from the collapsed
    /// set; true if any was there.
    fn expand_ancestors(&mut self, m: &RowModel, row: usize) -> (changed: bool)
        requires
            old(self).wf(),
            m.wf(),
            row < m.n(),
        ensures
            final(self).wf(),
            changed == !old(self)@.collapsed.intersect(ancestor_ids(*m, row as int, m.n())).is_empty(),
            final(self)@ == (TableView {
                collapsed: old(self)@.collapsed.difference(ancestor_ids(*m, row as int, m.n())),
                ..old(self)@
            }),
    {
        let n = m.ids.len();
        let ghost c0 = self@.collapsed;
        let ghost v0 = self@;
        let mut changed = false;
        let mut r = row;
        let mut i: usize = 0;
        let mut done = false;
        proof {
            assert(ancestor_ids(*m, row as int, 0) =~= Set::<u64>::empty());
            assert(self@.collapsed =~= c0.difference(ancestor_ids(*m, row as int, 0)));
        }
        while i < n && !done
            invariant
                m.wf(),
                n == m.n(),
                row < n,
                i <= n,
                r < n,
                !done ==> up(*m, row as int, i as nat) == r as int,
                done ==> up(*m, row as int, (i + 1) as nat) == -1 && i < n,
                self@ == (TableView { collapsed: self@.collapsed, ..v0 }),
                self@.collapsed == c0.difference(ancestor_ids(*m, row as int, i as nat)),
                changed == !c0.intersect(ancestor_ids(*m, row as int, i as nat)).is_empty(),
            decreases (n - i) * 2 + (if done {
                0int
            } else {
                1int
            }),
        {
            let slot = tree_parent_slot(m, r);
            if slot == n {
                done = true;
            } else {
                let pid = m.ids[slot].0;
                let ghost before = self@.collapsed;
                if self.collapsed.remove(&pid) {
                    changed = true;
                }
                proof {
                    let a0 = ancestor_ids(*m, row as int, i as nat);
                    let a1 = ancestor_ids(*m, row as int, (i + 1) as nat);
                    assert(up(*m, row as int, (i + 1) as nat) == slot as int);
                    assert(a1 =~= a0.insert(pid)) by {
                        assert forall|x: u64| a1.contains(x) implies a0.insert(pid).contains(x) by {
                            let j = choose|j: nat| 1 <= j <= i + 1 && 0 <= #[trigger] up(*m, row as int, j) && m.id(up(*m, row as int, j)) == x;
                            if j <= i {
                                assert(a0.contains(x));
                            }
                        }
                        assert forall|x: u64| a0.insert(pid).contains(x) implies a1.contains(x) by {
                            if x == pid {
                                assert(1 <= i + 1 <= i + 1 && 0 <= up(*m, row as int, (i + 1) as nat));
                            } else {
                                let j = choose|j: nat| 1 <= j <= i && 0 <= #[trigger] up(*m, row as int, j) && m.id(up(*m, row as int, j)) == x;
                                assert(1 <= j <= i + 1);
                            }
                        }
                    }
                    assert(self@.collapsed =~= c0.difference(a1));
                    assert(c0.intersect(a1) =~= c0.intersect(a0).union(if c0.contains(pid) {
                        set![pid]
                    } else {
                        Set::empty()
                    }));
                    if c0.contains(pid) {
                        assert(c0.intersect(a1).contains(pid));
                    }
                }
                r = slot;
                i = i + 1;
            }
        }
        proof {
            if done {
                lemma_up_stays_gone(*m, row as int, (i + 1) as nat, n as nat);
                assert(ancestor_ids(*m, row as int, n as nat) =~= ancestor_ids(*m, row as int, i as nat)) by {
                    assert forall|x: u64| ancestor_ids(*m, row as int, n as nat).contains(x) implies ancestor_ids(
                        *m,
                        row as int,
                        i as nat,
                    ).contains(x) by {
                        let j = choose|j: nat| 1 <= j <= n && 0 <= #[trigger] up(*m, row as int, j) && m.id(up(*m, row as int, j)) == x;
                        if j > i {
                            lemma_up_stays_gone(*m, row as int, (i + 1) as nat, j);
                        }
                    }
                    assert forall|x: u64| ancestor_ids(*m, row as int, i as nat).contains(x) implies ancestor_ids(
                        *m,
                        row as int,
                        n as nat,
                    ).contains(x) by {
                        let j = choose|j: nat| 1 <= j <= i && 0 <= #[trigger] up(*m, row as int, j) && m.id(up(*m, row as int, j)) == x;
                        assert(1 <= j <= n);
                    }
                }
            }
        }
        changed
    }

    /// Make the selected row visible: in tree mode expand its ancestors, then
    /// bring the order up to date. Returns the row's display position (for the
    /// caller to center the view on), or `None` if nothing is selected or the
    /// selected row is not in the source.
    pub fn reveal_selected(&mut self, m: &RowModel) -> (r: Option<usize>)
        requires
            old(self).wf(),
            m.wf(),
            m.n() < usize::MAX,
        ensures
            final(self).wf(),
            (final(self)@, r) == revealed(old(self)@, *m),
    {
        let id = match self.selected {
            None => {
                return None;
            },
            Some(id) => id,
        };
        let n = m.ids.len();
        let mut row: usize = 0;
        while row < n && m.ids[row].0 != id.0
            invariant
                m.wf(),
                n == m.n(),
                row <= n,
                row_from(*m, id.0, 0) == row_from(*m, id.0, row as int),
            decreases n - row,
        {
            row = row + 1;
        }
        if row == n {
            return None;
        }
        if self.tree {
            if self.expand_ancestors(m, row) {
                self.order_dirty = true;
            }
        }
        self.ensure_order(m);
        let ghost order = self@.order;
        let mut p: usize = 0;
        while p < self.order.len() && self.order[p] != row
            invariant
                order == self@.order,
                p <= order.len(),
                index_from(order, row as int, 0) == index_from(order, row as int, p as int),
            decreases order.len() - p,
        {
            p = p + 1;
        }
        if p == self.order.len() {
            None
        } else {
            Some(p)
        }
    }

    /// Switch between list and tree. The selection is kept and revealed in the
    /// new order; the result is its position, or `None` when there is nothing to
    /// reveal (the view then starts at the top, since the two orders have nothing
    /// in common).
    pub fn set_tree(&mut self, on: bool, m: &RowModel) -> (r: Option<usize>)
        requires
            old(self).wf(),
            m.wf(),
            m.n() < usize::MAX,
        ensures
            final(self).wf(),
            (final(self)@, r) == revealed(TableView { tree: on, dirty: true, hover: None, ..old(self)@ }, *m),
    {
        self.tree = on;
        self.order_dirty = true;
        self.hover = None;
        self.reveal_selected(m)
    }

    /// Left arrow in tree mode; see [`left_step`].
    pub fn collapse_or_parent(&mut self, m: &RowModel) -> (r: TreeStep)
        requires
            old(self).wf(),
            m.wf(),
            m.n() < usize::MAX,
        ensures
            final(self).wf(),
            (final(self)@, r) == left_step(old(self)@, *m),
    {
        if !self.tree {
            return TreeStep::Ignored;
        }
        self.ensure_order(m);
        let pos = match self.selected_pos(m) {
            None => {
                return TreeStep::Ignored;
            },
            Some(pos) => pos,
        };
        proof {
            lemma_pos_from_range(*m, self@.order, self.selected.unwrap().0, 0);
        }
        proof {
            assert(self@.order[pos as int] == self.order@[pos as int] as int);
        }
        let mm = self.meta[pos];
        let id = m.ids[self.order[pos]].0;
        if mm.has_children && !self.collapsed.contains(&id) {
            self.collapsed.insert(id);
            self.order_dirty = true;
            return TreeStep::Toggled;
        }
        if mm.depth == 0 {
            return TreeStep::Ignored;
        }
        let ghost meta = self@.meta;
        let mut i: usize = pos;
        while i > 0 && self.meta[i - 1].depth >= mm.depth
            invariant
                self.wf(),
                meta == self@.meta,
                pos < meta.len(),
                i <= pos,
                last_shallower(meta, pos as int, mm.depth as int) == last_shallower(meta, i as int, mm.depth as int),
            decreases i,
        {
            i = i - 1;
        }
        if i == 0 {
            return TreeStep::Ignored;
        }
        let parent = i - 1;
        proof {
            assert(self@.order[parent as int] == self.order@[parent as int] as int);
        }
        self.selected = Some(RowId(m.ids[self.order[parent]].0));
        TreeStep::Moved(parent)
    }

    /// Right arrow in tree mode; see [`right_step`].
    pub fn expand_or_child(&mut self, m: &RowModel) -> (r: TreeStep)
        requires
            old(self).wf(),
            m.wf(),
            m.n() < usize::MAX,
        ensures
            final(self).wf(),
            (final(self)@, r) == right_step(old(self)@, *m),
    {
        if !self.tree {
            return TreeStep::Ignored;
        }
        self.ensure_order(m);
        let pos = match self.selected_pos(m) {
            None => {
                return TreeStep::Ignored;
            },
            Some(pos) => pos,
        };
        proof {
            lemma_pos_from_range(*m, self@.order, self.selected.unwrap().0, 0);
        }
        if !self.meta[pos].has_children {
            return TreeStep::Ignored;
        }
        proof {
            assert(self@.order[pos as int] == self.order@[pos as int] as int);
        }
        let id = m.ids[self.order[pos]].0;
        let ghost c0 = self@.collapsed;
        if self.collapsed.remove(&id) {
            self.order_dirty = true;
            return TreeStep::Toggled;
        }
        proof {
            assert(self@.collapsed =~= c0);
        }
        if pos >= self.order.len() - 1 {
            return TreeStep::Ignored;
        }
        let next = pos + 1;
        proof {
            assert(self@.order[next as int] == self.order@[next as int] as int);
        }
        self.selected = Some(RowId(m.ids[self.order[next]].0));
        TreeStep::Moved(next)
    }

    /// Move the selection by `delta` rows, or select the first row if nothing
    /// listed is selected. Returns the new position, for the caller to scroll into view;
    /// `None` when nothing is listed.
    pub fn move_selection(&mut self, m: &RowModel, delta: isize) -> (r: Option<usize>)
        requires
            old(self).wf(),
            m.wf(),
            m.n() < usize::MAX,
        ensures
            final(self).wf(),
            ({
                let v = ensured(old(self)@, *m);
                if v.order.len() == 0 {
                    final(self)@ == v && r is None
                } else {
                    let t = step_target(*m, v, delta as int);
                    r == Some(t as usize) && final(self)@ == (TableView {
                        selected: Some(RowId(m.id(v.order[t]))),
                        ..v
                    })
                }
            }),
    {
        self.ensure_order(m);
        if self.order.len() == 0 {
            return None;
        }
        let current = self.selected_pos(m);
        let last = self.order.len() - 1;
        let next = match current {
            None => 0,
            Some(c) => {
                let t: i128 = c as i128 + delta as i128;
                if t < 0 {
                    0
                } else if t > last as i128 {
                    last
                } else {
                    t as usize
                }
            },
        };
        self.selected = Some(RowId(m.ids[self.order[next]].0));
        Some(next)
    }

    /// Select the first or last listed row. Returns its position, or `None` when
    /// nothing is listed.
    pub fn select_end(&mut self, m: &RowModel, first: bool) -> (r: Option<usize>)
        requires
            old(self).wf(),
            m.wf(),
            m.n() < usize::MAX,
        ensures
            final(self).wf(),
            ({
                let v = ensured(old(self)@, *m);
                if v.order.len() == 0 {
                    final(self)@ == v && r is None
                } else {
                    let t = if first {
                        0
                    } else {
                        v.order.len() - 1
                    };
                    r == Some(t as usize) && final(self)@ == (TableView {
                        selected: Some(RowId(m.id(v.order[t]))),
                        ..v
                    })
                }
            }),
    {
        self.ensure_order(m);
        if self.order.len() == 0 {
            return None;
        }
        let pos = if first {
            0
        } else {
            self.order.len() - 1
        };
        self.selected = Some(RowId(m.ids[self.order[pos]].0));
        Some(pos)
    }

    /// The selected row's sibling block in tree mode: the guide level to
    /// highlight and the display positions `start..end` it spans.
    pub fn active_block(&self, m: &RowModel) -> (r: Option<(u16, usize, usize)>)
        requires
            self.wf(),
            m.wf(),
            fits(self@, *m),
        ensures
            r == (if !self@.tree {
                None
            } else {
                match sel_pos(*m, self@) {
                    None => None,
                    Some(sel) => if sel >= self@.meta.len() || self@.meta[sel as int].0 == 0 {
                        None
                    } else {
                        let d = self@.meta[sel as int].0;
                        let p = last_shallower(self@.meta, sel as int, d);
                        if p < 0 {
                            None
                        } else {
                            Some(((d - 1) as u16, (p + 1) as usize, first_shallower(self@.meta, sel + 1, d) as usize))
                        }
                    },
                }
            }),
    {
        if !self.tree {
            return None;
        }
        let sel = match self.selected_pos(m) {
            None => {
                return None;
            },
            Some(sel) => sel,
        };
        if sel >= self.meta.len() {
            return None;
        }
        let depth = self.meta[sel].depth;
        if depth == 0 {
            return None;
        }
        let ghost meta = self@.meta;
        let mut i: usize = sel;
        while i > 0 && self.meta[i - 1].depth >= depth
            invariant
                self.wf(),
                meta == self@.meta,
                sel < meta.len(),
                i <= sel,
                last_shallower(meta, sel as int, depth as int) == last_shallower(meta, i as int, depth as int),
            decreases i,
        {
            i = i - 1;
        }
        if i == 0 {
            return None;
        }
        let parent = i - 1;
        let mut end: usize = sel + 1;
        while end < self.meta.len() && self.meta[end].depth >= depth
            invariant
                self.wf(),
                meta == self@.meta,
                sel < meta.len(),
                sel + 1 <= end <= meta.len(),
                first_shallower(meta, sel + 1, depth as int) == first_shallower(meta, end as int, depth as int),
            decreases meta.len() - end,
        {
            end = end + 1;
        }
        Some((depth - 1, parent + 1, end))
    }
}

proof fn lemma_pos_from_range(m: RowModel, order: Seq<int>, id: u64, i: int)
    requires
        0 <= i,
    ensures
        pos_from(m, order, id, i) == -1 || (i <= pos_from(m, order, id, i) < order.len() && m.id(
            order[pos_from(m, order, id, i)],
        ) == id),
    decreases order.len() - i,
{
    if i < order.len() && m.id(order[i]) != id {
        lemma_pos_from_range(m, order, id, i + 1);
    }
}

proof fn lemma_up_stays_gone(m: RowModel, r: int, k: nat, j: nat)
    requires
        up(m, r, k) == -1,
        k <= j,
    ensures
        up(m, r, j) == -1,
    decreases j - k,
{
    if k < j {
        lemma_up_stays_gone(m, r, k, (j - 1) as nat);
    }
}

/// Rebuilding the order never changes the selection, the sort or the mode:
/// selection is by row id, so it survives re-sorting and rows appearing or
/// vanishing.
pub proof fn lemma_rebuild_keeps_selection(v: TableView, m: RowModel)
    ensures
        ensured(v, m).selected == v.selected,
        ensured(v, m).sort_col == v.sort_col,
        ensured(v, m).sort_desc == v.sort_desc,
        ensured(v, m).tree == v.tree,
        ensured(v, m).hover == v.hover,
{
}

/// Toggling a row's collapse state twice restores the collapsed set: collapsing
/// and expanding again brings the same rows back.
pub proof fn lemma_toggle_twice_restores(c: Set<u64>, id: u64)
    ensures
        toggled(toggled(c, id), id) == c,
{
    assert(toggled(toggled(c, id), id) =~= c);
}

proof fn lemma_walk_covers(m: RowModel, col: int, desc: bool, x: int, d: int, fuel: nat, r: int)
    requires
        reach(m, col, desc, x, fuel).contains(r),
    ensures
        exists|i: int|
            0 <= i < walk(m, col, desc, Set::empty(), x, d, fuel).len() && (#[trigger] walk(
                m,
                col,
                desc,
                Set::empty(),
                x,
                d,
                fuel,
            )[i]).0 == r,
    decreases fuel, 0nat,
{
    let w = walk(m, col, desc, Set::empty(), x, d, fuel);
    let ks = kids(m, col, desc, x);
    if r == x {
        assert(w[0].0 == r);
    } else {
        let wl = walk_list(m, col, desc, Set::empty(), ks, deeper(d), (fuel - 1) as nat);
        lemma_walk_list_covers(m, col, desc, ks, deeper(d), (fuel - 1) as nat, r);
        let i = choose|i: int| 0 <= i < wl.len() && (#[trigger] wl[i]).0 == r;
        assert(w[i + 1] == wl[i]);
    }
}

proof fn lemma_walk_list_covers(m: RowModel, col: int, desc: bool, xs: Seq<int>, d: int, fuel: nat, r: int)
    requires
        reach_list(m, col, desc, xs, fuel).contains(r),
    ensures
        exists|i: int|
            0 <= i < walk_list(m, col, desc, Set::empty(), xs, d, fuel).len() && (#[trigger] walk_list(
                m,
                col,
                desc,
                Set::empty(),
                xs,
                d,
                fuel,
            )[i]).0 == r,
    decreases fuel, xs.len(),
{
    let wl = walk_list(m, col, desc, Set::empty(), xs, d, fuel);
    let front = walk_list(m, col, desc, Set::empty(), xs.drop_last(), d, fuel);
    if reach_list(m, col, desc, xs.drop_last(), fuel).contains(r) {
        lemma_walk_list_covers(m, col, desc, xs.drop_last(), d, fuel, r);
        let i = choose|i: int| 0 <= i < front.len() && (#[trigger] front[i]).0 == r;
        assert(wl[i] == front[i]);
    } else {
        let w = walk(m, col, desc, Set::empty(), xs.last(), d, fuel);
        lemma_walk_covers(m, col, desc, xs.last(), d, fuel, r);
        let i = choose|i: int| 0 <= i < w.len() && (#[trigger] w[i]).0 == r;
        assert(wl[front.len() + i] == w[i]);
    }
}

proof fn lemma_leftovers_cover(m: RowModel, col: int, desc: bool, k: int, r: int)
    requires
        0 <= r < k,
        m.is_visible(r),
        !reach_list(m, col, desc, kids(m, col, desc, -1), m.n()).contains(r),
    ensures
        exists|i: int|
            0 <= i < leftovers(m, col, desc, k).len() && (#[trigger] leftovers(m, col, desc, k)[i]).0 == r,
    decreases k,
{
    let l = leftovers(m, col, desc, k);
    if r == k - 1 {
        assert(l[l.len() - 1].0 == r);
    } else {
        lemma_leftovers_cover(m, col, desc, k - 1, r);
        let f = leftovers(m, col, desc, k - 1);
        let i = choose|i: int| 0 <= i < f.len() && (#[trigger] f[i]).0 == r;
        assert(l[i] == f[i]);
    }
}

/// With nothing collapsed, the tree order lists every visible row: a row whose
/// parent links form a cycle is listed flat at the end rather than lost.
pub proof fn lemma_tree_order_loses_no_rows(m: RowModel, col: int, desc: bool, r: int)
    requires
        m.wf(),
        0 <= r < m.n(),
        m.is_visible(r),
    ensures
        exists|i: int|
            0 <= i < tree_entries(m, col, desc, Set::empty()).len() && (#[trigger] tree_entries(
                m,
                col,
                desc,
                Set::empty(),
            )[i]).0 == r,
{
    let roots = kids(m, col, desc, -1);
    let w = walk_list(m, col, desc, Set::empty(), roots, 0, m.n());
    let e = tree_entries(m, col, desc, Set::empty());
    if reach_list(m, col, desc, roots, m.n()).contains(r) {
        lemma_walk_list_covers(m, col, desc, roots, 0, m.n(), r);
        let i = choose|i: int| 0 <= i < w.len() && (#[trigger] w[i]).0 == r;
        assert(e[i] == w[i]);
    } else {
        lemma_leftovers_cover(m, col, desc, m.n() as int, r);
        let l = leftovers(m, col, desc, m.n() as int);
        let i = choose|i: int| 0 <= i < l.len() && (#[trigger] l[i]).0 == r;
        assert(e[w.len() + i] == l[i]);
    }
}

/// `s` is in display order: each row may come before every later one.
pub open spec fn sorted_by(m: RowModel, col: int, desc: bool, sib: bool, s: Seq<int>) -> bool {
    forall|i: int, j: int| 0 <= i < j < s.len() ==> order_le(m, col, desc, sib, #[trigger] s[i], #[trigger] s[j])
}

proof fn lemma_lex_antisym(a: Seq<u64>, b: Seq<u64>)
    ensures
        lex_compare(a, b) == -lex_compare(b, a),
    decreases a.len(),
{
    if a.len() > 0 && b.len() > 0 && a[0] == b[0] {
        lemma_lex_antisym(a.drop_first(), b.drop_first());
    }
}

proof fn lemma_lex_zero(a: Seq<u64>, b: Seq<u64>)
    ensures
        lex_compare(a, b) == 0 <==> a == b,
    decreases a.len(),
{
    if a.len() > 0 && b.len() > 0 && a[0] == b[0] {
        lemma_lex_zero(a.drop_first(), b.drop_first());
        if a.drop_first() == b.drop_first() {
            assert(a =~= seq![a[0]] + a.drop_first());
            assert(b =~= seq![b[0]] + b.drop_first());
        }
    }
    if a == b && a.len() > 0 {
        assert(a.drop_first() == b.drop_first());
    }
    if a.len() == 0 && b.len() == 0 {
        assert(a =~= b);
    }
}

proof fn lemma_lex_trans(a: Seq<u64>, b: Seq<u64>, c: Seq<u64>)
    requires
        lex_compare(a, b) <= 0,
        lex_compare(b, c) <= 0,
    ensures
        lex_compare(a, c) <= 0,
        (lex_compare(a, b) < 0 || lex_compare(b, c) < 0) ==> lex_compare(a, c) < 0,
    decreases a.len(),
{
    if a.len() > 0 && b.len() > 0 && c.len() > 0 && a[0] == b[0] && b[0] == c[0] {
        lemma_lex_trans(a.drop_first(), b.drop_first(), c.drop_first());
    }
}

/// The sort order is total: of any two rows one may come before the other.
proof fn lemma_order_le_total(m: RowModel, col: int, desc: bool, sib: bool, a: int, b: int)
    ensures
        order_le(m, col, desc, sib, a, b) || order_le(m, col, desc, sib, b, a),
{
    lemma_lex_antisym(m.key(a, col, sib), m.key(b, col, sib));
}

/// The sort order is transitive.
proof fn lemma_order_le_trans(m: RowModel, col: int, desc: bool, sib: bool, a: int, b: int, c: int)
    requires
        order_le(m, col, desc, sib, a, b),
        order_le(m, col, desc, sib, b, c),
    ensures
        order_le(m, col, desc, sib, a, c),
{
    let (ka, kb, kc) = (m.key(a, col, sib), m.key(b, col, sib), m.key(c, col, sib));
    if desc {
        lemma_lex_trans(kc, kb, ka);
        lemma_lex_zero(kc, kb);
        lemma_lex_zero(kb, ka);
    } else {
        lemma_lex_trans(ka, kb, kc);
        lemma_lex_zero(ka, kb);
        lemma_lex_zero(kb, kc);
    }
}

proof fn lemma_insert_sorted_multiset(m: RowModel, col: int, desc: bool, sib: bool, s: Seq<int>, x: int)
    ensures
        insert_sorted(m, col, desc, sib, s, x).to_multiset() == s.to_multiset().insert(x),
    decreases s.len(),
{
    broadcast use vstd::seq_lib::group_to_multiset_ensures, vstd::multiset::group_multiset_axioms;

    if s.len() == 0 {
        assert(seq![x] =~= Seq::<int>::empty().push(x));
    } else if !order_le(m, col, desc, sib, s.last(), x) {
        lemma_insert_sorted_multiset(m, col, desc, sib, s.drop_last(), x);
        assert(s =~= s.drop_last().push(s.last()));
        assert(s.drop_last().to_multiset().insert(x).insert(s.last()) =~= s.drop_last().to_multiset().insert(
            s.last(),
        ).insert(x));
    }
}

proof fn lemma_sort_rows_multiset(m: RowModel, col: int, desc: bool, sib: bool, s: Seq<int>)
    ensures
        sort_rows(m, col, desc, sib, s).to_multiset() == s.to_multiset(),
    decreases s.len(),
{
    broadcast use vstd::seq_lib::group_to_multiset_ensures;

    if s.len() > 0 {
        lemma_sort_rows_multiset(m, col, desc, sib, s.drop_last());
        lemma_insert_sorted_multiset(m, col, desc, sib, sort_rows(m, col, desc, sib, s.drop_last()), s.last());
        assert(s =~= s.drop_last().push(s.last()));
    }
}

proof fn lemma_insert_sorted_sorted(m: RowModel, col: int, desc: bool, sib: bool, s: Seq<int>, x: int)
    requires
        sorted_by(m, col, desc, sib, s),
    ensures
        sorted_by(m, col, desc, sib, insert_sorted(m, col, desc, sib, s, x)),
    decreases s.len(),
{
    broadcast use vstd::seq_lib::group_to_multiset_ensures, vstd::multiset::group_multiset_axioms;

    let r = insert_sorted(m, col, desc, sib, s, x);
    if s.len() == 0 {
    } else if order_le(m, col, desc, sib, s.last(), x) {
        assert forall|i: int, j: int| 0 <= i < j < r.len() implies order_le(m, col, desc, sib, #[trigger] r[i], #[trigger] r[j]) by {
            if j == s.len() && i < s.len() - 1 {
                lemma_order_le_trans(m, col, desc, sib, s[i], s.last(), x);
            }
        }
    } else {
        let t = s.drop_last();
        let q = insert_sorted(m, col, desc, sib, t, x);
        lemma_insert_sorted_sorted(m, col, desc, sib, t, x);
        lemma_insert_sorted_multiset(m, col, desc, sib, t, x);
        lemma_order_le_total(m, col, desc, sib, s.last(), x);
        assert forall|i: int, j: int| 0 <= i < j < r.len() implies order_le(m, col, desc, sib, #[trigger] r[i], #[trigger] r[j]) by {
            if j == q.len() {
                let y = q[i];
                assert(q.to_multiset().count(y) > 0);
                assert(t.to_multiset().insert(x).count(y) > 0);
                if y != x {
                    assert(t.to_multiset().count(y) > 0);
                    assert(t.contains(y));
                    let k = choose|k: int| 0 <= k < t.len() && t[k] == y;
                    assert(s[k] == y);
                }
            } else {
                assert(r[i] == q[i] && r[j] == q[j]);
            }
        }
    }
}

proof fn lemma_sort_rows_sorted(m: RowModel, col: int, desc: bool, sib: bool, s: Seq<int>)
    ensures
        sorted_by(m, col, desc, sib, sort_rows(m, col, desc, sib, s)),
    decreases s.len(),
{
    if s.len() > 0 {
        lemma_sort_rows_sorted(m, col, desc, sib, s.drop_last());
        lemma_insert_sorted_sorted(m, col, desc, sib, sort_rows(m, col, desc, sib, s.drop_last()), s.last());
    }
}

proof fn lemma_visible_rows_count(m: RowModel, k: int, r: int)
    ensures
        visible_rows(m, k).to_multiset().count(r) == (if 0 <= r < k && m.is_visible(r) {
            1nat
        } else {
            0nat
        }),
    decreases k,
{
    broadcast use vstd::seq_lib::group_to_multiset_ensures, vstd::multiset::group_multiset_axioms;

    if k <= 0 {
        assert(visible_rows(m, k).to_multiset() =~= Multiset::<int>::empty());
    } else {
        lemma_visible_rows_count(m, k - 1, r);
        let v = visible_rows(m, k - 1);
        if m.is_visible(k - 1) {
            assert(visible_rows(m, k) =~= v.push(k - 1));
        } else {
            assert(visible_rows(m, k) =~= v);
        }
    }
}

/// In list mode the display order holds every visible row exactly once, and no
/// hidden or unknown row.
pub proof fn lemma_flat_order_lists_visible_rows_once(m: RowModel, col: int, desc: bool, r: int)
    ensures
        flat_order(m, col, desc).to_multiset().count(r) == (if 0 <= r < m.n() && m.is_visible(r) {
            1nat
        } else {
            0nat
        }),
{
    lemma_sort_rows_multiset(m, col, desc, false, visible_rows(m, m.n() as int));
    lemma_visible_rows_count(m, m.n() as int, r);
}

/// In list mode the display order is sorted by the active column in the active
/// direction, ties broken by ascending row id so that equal keys keep a stable
/// order between samples.
pub proof fn lemma_flat_order_is_sorted(m: RowModel, col: int, desc: bool)
    ensures
        sorted_by(m, col, desc, false, flat_order(m, col, desc)),
{
    lemma_sort_rows_sorted(m, col, desc, false, visible_rows(m, m.n() as int));
}

/// In tree mode the children of every row are listed in sibling order.
pub proof fn lemma_children_are_sorted(m: RowModel, col: int, desc: bool, x: int)
    ensures
        sorted_by(m, col, desc, true, kids(m, col, desc, x)),
{
    lemma_sort_rows_sorted(m, col, desc, true, kids_upto(m, x, m.n() as int));
}

/// The row indices of display entries.
pub open spec fn entry_rows(e: Seq<(int, int, bool)>) -> Seq<int> {
    e.map_values(|t: (int, int, bool)| t.0)
}

/// No walk up the tree parents from `x` comes back to `x`.
pub open spec fn acyclic_at(m: RowModel, x: int) -> bool {
    forall|j: nat| j >= 1 ==> #[trigger] up(m, x, j) != x
}

proof fn lemma_up_from_none(m: RowModel, k: nat)
    ensures
        up(m, -1, k) == -1,
    decreases k,
{
    if k > 0 {
        lemma_up_from_none(m, (k - 1) as nat);
    }
}

proof fn lemma_up_add(m: RowModel, r: int, a: nat, b: nat)
    ensures
        up(m, r, a + b) == up(m, up(m, r, a), b),
    decreases b,
{
    if b > 0 {
        lemma_up_add(m, r, a, (b - 1) as nat);
        assert((a + b - 1) as nat == a + (b - 1) as nat);
    }
}

proof fn lemma_tree_parent_range(m: RowModel, r: int)
    requires
        m.wf(),
        0 <= r < m.n(),
    ensures
        -1 <= tree_parent(m, r) < m.n(),
        tree_parent(m, r) != r,
{
}

proof fn lemma_kids_upto_member(m: RowModel, x: int, k: int, c: int)
    requires
        m.wf(),
        k <= m.n(),
    ensures
        kids_upto(m, x, k).contains(c) <==> (0 <= c < k && m.is_visible(c) && tree_parent(m, c) == x),
        kids_upto(m, x, k).no_duplicates(),
        forall|i: int| 0 <= i < kids_upto(m, x, k).len() ==> 0 <= #[trigger] kids_upto(m, x, k)[i] < k,
    decreases k,
{
    if k > 0 {
        lemma_kids_upto_member(m, x, k - 1, c);
        let prev = kids_upto(m, x, k - 1);
        let cur = kids_upto(m, x, k);
        if m.is_visible(k - 1) && tree_parent(m, k - 1) == x {
            assert(cur =~= prev.push(k - 1));
            assert(!prev.contains(k - 1));
            assert(cur[prev.len() as int] == k - 1);
            if cur.contains(c) && c != k - 1 {
                let i = choose|i: int| 0 <= i < cur.len() && cur[i] == c;
                assert(prev[i] == c);
            }
            if prev.contains(c) {
                let i = choose|i: int| 0 <= i < prev.len() && prev[i] == c;
                assert(cur[i] == c);
            }
        } else {
            assert(cur =~= prev);
        }
    }
}

/// The children of `x` are visible rows whose tree parent is `x`, each once.
proof fn lemma_kids_member(m: RowModel, col: int, desc: bool, x: int, c: int)
    requires
        m.wf(),
    ensures
        kids(m, col, desc, x).contains(c) <==> (0 <= c < m.n() && m.is_visible(c) && tree_parent(m, c) == x),
        kids(m, col, desc, x).no_duplicates(),
{
    broadcast use vstd::seq_lib::group_to_multiset_ensures;

    let raw = kids_upto(m, x, m.n() as int);
    let ks = kids(m, col, desc, x);
    lemma_kids_upto_member(m, x, m.n() as int, c);
    lemma_sort_rows_multiset(m, col, desc, true, raw);
    assert(ks.to_multiset() == raw.to_multiset());
    vstd::seq_lib::to_multiset_contains(ks, c);
    vstd::seq_lib::to_multiset_contains(raw, c);
    raw.lemma_multiset_has_no_duplicates();
    ks.lemma_multiset_has_no_duplicates_conv();
}

proof fn lemma_reach_list_member(m: RowModel, col: int, desc: bool, xs: Seq<int>, f: nat, r: int)
    requires
        reach_list(m, col, desc, xs, f).contains(r),
    ensures
        exists|i: int| 0 <= i < xs.len() && #[trigger] reach(m, col, desc, xs[i], f).contains(r),
    decreases xs.len(),
{
    if reach_list(m, col, desc, xs.drop_last(), f).contains(r) {
        lemma_reach_list_member(m, col, desc, xs.drop_last(), f, r);
        let i = choose|i: int| 0 <= i < xs.drop_last().len() && #[trigger] reach(m, col, desc, xs.drop_last()[i], f).contains(r);
        assert(xs[i] == xs.drop_last()[i]);
    } else {
        assert(reach(m, col, desc, xs[xs.len() - 1], f).contains(r));
    }
}

/// A row reached from `x` has `x` among its first `f` tree ancestors.
proof fn lemma_reach_up(m: RowModel, col: int, desc: bool, x: int, f: nat, r: int)
    requires
        m.wf(),
        0 <= x < m.n(),
        reach(m, col, desc, x, f).contains(r),
    ensures
        exists|k: nat| k < f && #[trigger] up(m, r, k) == x,
    decreases f,
{
    if r == x {
        assert(up(m, r, 0) == x);
    } else {
        let ks = kids(m, col, desc, x);
        lemma_reach_list_member(m, col, desc, ks, (f - 1) as nat, r);
        let i = choose|i: int| 0 <= i < ks.len() && #[trigger] reach(m, col, desc, ks[i], (f - 1) as nat).contains(r);
        let c = ks[i];
        lemma_kids_member(m, col, desc, x, c);
        lemma_reach_up(m, col, desc, c, (f - 1) as nat, r);
        let k = choose|k: nat| k < f - 1 && #[trigger] up(m, r, k) == c;
        assert(up(m, r, k + 1) == x);
    }
}

proof fn lemma_walk_rows_in_reach(m: RowModel, col: int, desc: bool, c: Set<u64>, x: int, d: int, f: nat, i: int)
    requires
        0 <= i < walk(m, col, desc, c, x, d, f).len(),
    ensures
        reach(m, col, desc, x, f).contains(walk(m, col, desc, c, x, d, f)[i].0),
    decreases f, 0nat,
{
    let w = walk(m, col, desc, c, x, d, f);
    if i > 0 {
        let ks = kids(m, col, desc, x);
        let wl = walk_list(m, col, desc, c, ks, deeper(d), (f - 1) as nat);
        assert(w[i] == wl[i - 1]);
        lemma_walk_list_rows_in_reach(m, col, desc, c, ks, deeper(d), (f - 1) as nat, i - 1);
    }
}

proof fn lemma_walk_list_rows_in_reach(
    m: RowModel,
    col: int,
    desc: bool,
    c: Set<u64>,
    xs: Seq<int>,
    d: int,
    f: nat,
    i: int,
)
    requires
        0 <= i < walk_list(m, col, desc, c, xs, d, f).len(),
    ensures
        reach_list(m, col, desc, xs, f).contains(walk_list(m, col, desc, c, xs, d, f)[i].0),
    decreases f, xs.len(),
{
    let front = walk_list(m, col, desc, c, xs.drop_last(), d, f);
    let wl = walk_list(m, col, desc, c, xs, d, f);
    if i < front.len() {
        assert(wl[i] == front[i]);
        lemma_walk_list_rows_in_reach(m, col, desc, c, xs.drop_last(), d, f, i);
    } else {
        let w = walk(m, col, desc, c, xs.last(), d, f);
        assert(wl[i] == w[i - front.len()]);
        lemma_walk_rows_in_reach(m, col, desc, c, xs.last(), d, f, i - front.len());
    }
}

proof fn lemma_root_acyclic(m: RowModel, x: int)
    requires
        m.wf(),
        0 <= x < m.n(),
        tree_parent(m, x) == -1,
    ensures
        acyclic_at(m, x),
{
    assert forall|j: nat| j >= 1 implies #[trigger] up(m, x, j) != x by {
        lemma_up_add(m, x, 1, (j - 1) as nat);
        assert(up(m, x, 0) == x);
        assert(up(m, x, 1) == -1);
        lemma_up_from_none(m, (j - 1) as nat);
    }
}

proof fn lemma_child_acyclic(m: RowModel, x: int, c: int)
    requires
        m.wf(),
        0 <= x < m.n(),
        0 <= c < m.n(),
        tree_parent(m, c) == x,
        acyclic_at(m, x),
    ensures
        acyclic_at(m, c),
{
    assert forall|j: nat| j >= 1 implies #[trigger] up(m, c, j) != c by {
        if up(m, c, j) == c {
            assert(up(m, c, 0) == c);
            assert(up(m, c, 1) == x);
            lemma_up_add(m, c, 1, (j - 1) as nat);
            lemma_up_add(m, x, (j - 1) as nat, 1);
            assert(up(m, x, j) == up(m, c, 1));
            assert(up(m, x, j) == x);
        }
    }
}

/// Two different children of the same parent reach no common row, when the
/// parent is a root slot or lies on no cycle.
proof fn lemma_siblings_disjoint(
    m: RowModel,
    col: int,
    desc: bool,
    p: int,
    a: int,
    b: int,
    fa: nat,
    fb: nat,
    r: int,
)
    requires
        m.wf(),
        0 <= a < m.n(),
        0 <= b < m.n(),
        a != b,
        tree_parent(m, a) == p,
        tree_parent(m, b) == p,
        p == -1 || (0 <= p < m.n() && acyclic_at(m, p)),
    ensures
        !(reach(m, col, desc, a, fa).contains(r) && reach(m, col, desc, b, fb).contains(r)),
{
    if reach(m, col, desc, a, fa).contains(r) && reach(m, col, desc, b, fb).contains(r) {
        lemma_reach_up(m, col, desc, a, fa, r);
        lemma_reach_up(m, col, desc, b, fb, r);
        let ka = choose|k: nat| k < fa && #[trigger] up(m, r, k) == a;
        let kb = choose|k: nat| k < fb && #[trigger] up(m, r, k) == b;
        assert(ka != kb);
        let (k1, k2, y) = if ka < kb {
            (ka, kb, b)
        } else {
            (kb, ka, a)
        };
        assert(up(m, r, k1 + 1) == p);
        lemma_up_add(m, r, k1 + 1, (k2 - k1 - 1) as nat);
        assert((k1 + 1 + (k2 - k1 - 1)) as nat == k2);
        assert(up(m, p, (k2 - k1 - 1) as nat) == y);
        if p == -1 {
            lemma_up_from_none(m, (k2 - k1 - 1) as nat);
        } else {
            lemma_up_add(m, p, (k2 - k1 - 1) as nat, 1);
            assert(up(m, p, (k2 - k1) as nat) == p);
        }
    }
}

proof fn lemma_walk_no_duplicates(m: RowModel, col: int, desc: bool, c: Set<u64>, x: int, d: int, f: nat)
    requires
        m.wf(),
        0 <= x < m.n(),
        acyclic_at(m, x),
    ensures
        entry_rows(walk(m, col, desc, c, x, d, f)).no_duplicates(),
    decreases f, 0nat,
{
    if f > 0 {
        let ks = kids(m, col, desc, x);
        let w = walk(m, col, desc, c, x, d, f);
        let rest: Seq<(int, int, bool)> = if c.contains(m.id(x)) {
            Seq::empty()
        } else {
            walk_list(m, col, desc, c, ks, deeper(d), (f - 1) as nat)
        };
        assert(w == seq![(x, d, ks.len() > 0)] + rest);
        assert forall|t: int| 0 <= t < ks.len() implies 0 <= #[trigger] ks[t] < m.n() && tree_parent(m, ks[t]) == x by {
            lemma_kids_member(m, col, desc, x, ks[t]);
        }
        lemma_kids_member(m, col, desc, x, 0);
        if !c.contains(m.id(x)) {
            lemma_walk_list_no_duplicates(m, col, desc, c, ks, deeper(d), (f - 1) as nat, x);
            assert forall|t: int| 0 <= t < rest.len() implies #[trigger] rest[t].0 != x by {
                lemma_walk_list_rows_in_reach(m, col, desc, c, ks, deeper(d), (f - 1) as nat, t);
                lemma_reach_list_member(m, col, desc, ks, (f - 1) as nat, rest[t].0);
                let i = choose|i: int| 0 <= i < ks.len() && #[trigger] reach(m, col, desc, ks[i], (f - 1) as nat).contains(rest[t].0);
                if rest[t].0 == x {
                    lemma_reach_up(m, col, desc, ks[i], (f - 1) as nat, x);
                    let k = choose|k: nat| k < f - 1 && #[trigger] up(m, x, k) == ks[i];
                    assert(up(m, x, k + 1) == x);
                }
            }
        }
        let rw = entry_rows(w);
        assert forall|i: int, j: int| 0 <= i < rw.len() && 0 <= j < rw.len() && i != j implies rw[i] != rw[j] by {
            if i > 0 && j > 0 {
                assert(rw[i] == entry_rows(rest)[i - 1]);
                assert(rw[j] == entry_rows(rest)[j - 1]);
            } else if i == 0 {
                assert(rw[j] == rest[j - 1].0);
            } else {
                assert(rw[i] == rest[i - 1].0);
            }
        }
    }
}

proof fn lemma_walk_list_no_duplicates(
    m: RowModel,
    col: int,
    desc: bool,
    c: Set<u64>,
    xs: Seq<int>,
    d: int,
    f: nat,
    p: int,
)
    requires
        m.wf(),
        xs.no_duplicates(),
        forall|t: int| 0 <= t < xs.len() ==> 0 <= #[trigger] xs[t] < m.n() && tree_parent(m, xs[t]) == p,
        p == -1 || (0 <= p < m.n() && acyclic_at(m, p)),
    ensures
        entry_rows(walk_list(m, col, desc, c, xs, d, f)).no_duplicates(),
    decreases f, xs.len(),
{
    if xs.len() > 0 {
        let front = walk_list(m, col, desc, c, xs.drop_last(), d, f);
        let last = xs.last();
        let w = walk(m, col, desc, c, last, d, f);
        lemma_walk_list_no_duplicates(m, col, desc, c, xs.drop_last(), d, f, p);
        if p == -1 {
            lemma_root_acyclic(m, last);
        } else {
            lemma_child_acyclic(m, p, last);
        }
        lemma_walk_no_duplicates(m, col, desc, c, last, d, f);
        let a = entry_rows(front);
        let b = entry_rows(w);
        assert forall|i: int, j: int| 0 <= i < a.len() && 0 <= j < b.len() implies a[i] != b[j] by {
            if a[i] == b[j] {
                lemma_walk_list_rows_in_reach(m, col, desc, c, xs.drop_last(), d, f, i);
                lemma_walk_rows_in_reach(m, col, desc, c, last, d, f, j);
                lemma_reach_list_member(m, col, desc, xs.drop_last(), f, a[i]);
                let k = choose|k: int| 0 <= k < xs.drop_last().len() && #[trigger] reach(m, col, desc, xs.drop_last()[k], f).contains(a[i]);
                assert(xs[k] == xs.drop_last()[k]);
                lemma_siblings_disjoint(m, col, desc, p, xs[k], last, f, f, a[i]);
            }
        }
        vstd::seq_lib::lemma_no_dup_in_concat(a, b);
        assert(entry_rows(walk_list(m, col, desc, c, xs, d, f)) =~= a + b);
    }
}

proof fn lemma_leftovers_rows(m: RowModel, col: int, desc: bool, k: int)
    requires
        k <= m.n(),
    ensures
        entry_rows(leftovers(m, col, desc, k)).no_duplicates(),
        forall|i: int|
            0 <= i < leftovers(m, col, desc, k).len() ==> {
                let r = #[trigger] leftovers(m, col, desc, k)[i].0;
                &&& 0 <= r < k
                &&& !reach_list(m, col, desc, kids(m, col, desc, -1), m.n()).contains(r)
            },
    decreases k,
{
    if k > 0 {
        lemma_leftovers_rows(m, col, desc, k - 1);
        let prev = leftovers(m, col, desc, k - 1);
        let cur = leftovers(m, col, desc, k);
        assert forall|i: int| 0 <= i < cur.len() implies {
            let r = #[trigger] cur[i].0;
            &&& 0 <= r < k
            &&& !reach_list(m, col, desc, kids(m, col, desc, -1), m.n()).contains(r)
        } by {
            if i < prev.len() {
                assert(cur[i] == prev[i]);
            }
        }
        let rc = entry_rows(cur);
        assert forall|i: int, j: int| 0 <= i < rc.len() && 0 <= j < rc.len() && i != j implies rc[i] != rc[j] by {
            if i < prev.len() {
                assert(cur[i] == prev[i]);
            }
            if j < prev.len() {
                assert(cur[j] == prev[j]);
            }
            if i < prev.len() && j < prev.len() {
                assert(entry_rows(prev)[i] == rc[i]);
                assert(entry_rows(prev)[j] == rc[j]);
            }
        }
    }
}

/// Whatever is collapsed, the tree order lists no row twice.
pub proof fn lemma_tree_order_lists_rows_once(m: RowModel, col: int, desc: bool, collapsed: Set<u64>)
    requires
        m.wf(),
    ensures
        entry_rows(tree_entries(m, col, desc, collapsed)).no_duplicates(),
{
    let roots = kids(m, col, desc, -1);
    let w = walk_list(m, col, desc, collapsed, roots, 0, m.n());
    let l = leftovers(m, col, desc, m.n() as int);
    lemma_kids_member(m, col, desc, -1, 0);
    assert forall|t: int| 0 <= t < roots.len() implies 0 <= #[trigger] roots[t] < m.n() && tree_parent(m, roots[t]) == -1 by {
        lemma_kids_member(m, col, desc, -1, roots[t]);
    }
    lemma_walk_list_no_duplicates(m, col, desc, collapsed, roots, 0, m.n(), -1);
    lemma_leftovers_rows(m, col, desc, m.n() as int);
    let a = entry_rows(w);
    let b = entry_rows(l);
    assert forall|i: int, j: int| 0 <= i < a.len() && 0 <= j < b.len() implies a[i] != b[j] by {
        lemma_walk_list_rows_in_reach(m, col, desc, collapsed, roots, 0, m.n(), i);
        assert(b[j] == l[j].0);
    }
    vstd::seq_lib::lemma_no_dup_in_concat(a, b);
    assert(entry_rows(tree_entries(m, col, desc, collapsed)) =~= a + b);
}

proof fn lemma_reach_visible(m: RowModel, col: int, desc: bool, x: int, f: nat, r: int)
    requires
        m.wf(),
        0 <= x < m.n(),
        m.is_visible(x),
        reach(m, col, desc, x, f).contains(r),
    ensures
        0 <= r < m.n(),
        m.is_visible(r),
    decreases f,
{
    if r != x {
        let ks = kids(m, col, desc, x);
        lemma_reach_list_member(m, col, desc, ks, (f - 1) as nat, r);
        let i = choose|i: int| 0 <= i < ks.len() && #[trigger] reach(m, col, desc, ks[i], (f - 1) as nat).contains(r);
        lemma_kids_member(m, col, desc, x, ks[i]);
        lemma_reach_visible(m, col, desc, ks[i], (f - 1) as nat, r);
    }
}

/// The tree order lists visible rows of the source only, whatever is collapsed.
pub proof fn lemma_tree_order_lists_only_visible_rows(m: RowModel, col: int, desc: bool, collapsed: Set<u64>, i: int)
    requires
        m.wf(),
        0 <= i < tree_entries(m, col, desc, collapsed).len(),
    ensures
        0 <= tree_entries(m, col, desc, collapsed)[i].0 < m.n(),
        m.is_visible(tree_entries(m, col, desc, collapsed)[i].0),
{
    let roots = kids(m, col, desc, -1);
    let w = walk_list(m, col, desc, collapsed, roots, 0, m.n());
    let l = leftovers(m, col, desc, m.n() as int);
    let e = tree_entries(m, col, desc, collapsed);
    if i < w.len() {
        assert(e[i] == w[i]);
        lemma_walk_list_rows_in_reach(m, col, desc, collapsed, roots, 0, m.n(), i);
        lemma_reach_list_member(m, col, desc, roots, m.n(), w[i].0);
        let k = choose|k: int| 0 <= k < roots.len() && #[trigger] reach(m, col, desc, roots[k], m.n()).contains(w[i].0);
        lemma_kids_member(m, col, desc, -1, roots[k]);
        lemma_reach_visible(m, col, desc, roots[k], m.n(), w[i].0);
    } else {
        assert(e[i] == l[i - w.len()]);
        lemma_leftovers_visible(m, col, desc, m.n() as int, i - w.len());
    }
}

proof fn lemma_leftovers_visible(m: RowModel, col: int, desc: bool, k: int, i: int)
    requires
        k <= m.n(),
        0 <= i < leftovers(m, col, desc, k).len(),
    ensures
        0 <= leftovers(m, col, desc, k)[i].0 < k,
        m.is_visible(leftovers(m, col, desc, k)[i].0),
    decreases k,
{
    let prev = leftovers(m, col, desc, k - 1);
    if i < prev.len() {
        assert(leftovers(m, col, desc, k)[i] == prev[i]);
        lemma_leftovers_visible(m, col, desc, k - 1, i);
    }
}

proof fn lemma_walk_list_holds_walk(
    m: RowModel,
    col: int,
    desc: bool,
    c: Set<u64>,
    xs: Seq<int>,
    d: int,
    f: nat,
    i: int,
    j: int,
)
    requires
        0 <= i < xs.len(),
        0 <= j < walk(m, col, desc, c, xs[i], d, f).len(),
    ensures
        exists|t: int|
            0 <= t < walk_list(m, col, desc, c, xs, d, f).len() && #[trigger] walk_list(m, col, desc, c, xs, d, f)[t]
                == walk(m, col, desc, c, xs[i], d, f)[j],
    decreases xs.len(),
{
    let front = walk_list(m, col, desc, c, xs.drop_last(), d, f);
    let wl = walk_list(m, col, desc, c, xs, d, f);
    if i == xs.len() - 1 {
        assert(wl[front.len() + j] == walk(m, col, desc, c, xs[i], d, f)[j]);
    } else {
        assert(xs.drop_last()[i] == xs[i]);
        lemma_walk_list_holds_walk(m, col, desc, c, xs.drop_last(), d, f, i, j);
        let t = choose|t: int| 0 <= t < front.len() && #[trigger] front[t] == walk(m, col, desc, c, xs.drop_last()[i], d, f)[j];
        assert(wl[t] == front[t]);
    }
}

/// A row reached from `x` is listed by the walk from `x` when none of its tree
/// ancestors within the walk's budget is collapsed.
proof fn lemma_walk_lists_expanded_row(
    m: RowModel,
    col: int,
    desc: bool,
    c: Set<u64>,
    x: int,
    d: int,
    f: nat,
    r: int,
)
    requires
        m.wf(),
        0 <= x < m.n(),
        reach(m, col, desc, x, f).contains(r),
        forall|k: nat| 1 <= k <= f && 0 <= #[trigger] up(m, r, k) ==> !c.contains(m.id(up(m, r, k))),
    ensures
        exists|t: int| 0 <= t < walk(m, col, desc, c, x, d, f).len() && (#[trigger] walk(m, col, desc, c, x, d, f)[t]).0 == r,
    decreases f,
{
    let w = walk(m, col, desc, c, x, d, f);
    if r == x {
        assert(w[0].0 == r);
    } else {
        let ks = kids(m, col, desc, x);
        lemma_reach_list_member(m, col, desc, ks, (f - 1) as nat, r);
        let i = choose|i: int| 0 <= i < ks.len() && #[trigger] reach(m, col, desc, ks[i], (f - 1) as nat).contains(r);
        lemma_kids_member(m, col, desc, x, ks[i]);
        lemma_reach_up(m, col, desc, ks[i], (f - 1) as nat, r);
        let k = choose|k: nat| k < f - 1 && #[trigger] up(m, r, k) == ks[i];
        assert(up(m, r, k + 1) == x);
        assert(!c.contains(m.id(x)));
        lemma_walk_lists_expanded_row(m, col, desc, c, ks[i], deeper(d), (f - 1) as nat, r);
        let wc = walk(m, col, desc, c, ks[i], deeper(d), (f - 1) as nat);
        let j = choose|j: int| 0 <= j < wc.len() && (#[trigger] wc[j]).0 == r;
        lemma_walk_list_holds_walk(m, col, desc, c, ks, deeper(d), (f - 1) as nat, i, j);
        let wl = walk_list(m, col, desc, c, ks, deeper(d), (f - 1) as nat);
        let t = choose|t: int| 0 <= t < wl.len() && #[trigger] wl[t] == wc[j];
        assert(w[t + 1] == wl[t]);
    }
}

/// The source row of the selection, or -1 when nothing is selected or no row
/// has the selected id.
pub open spec fn selected_row(v: TableView, m: RowModel) -> int {
    match v.selected {
        Some(id) => row_from(m, id.0, 0),
        None => -1,
    }
}

proof fn lemma_index_from_finds(order: Seq<int>, row: int, i: int, j: int)
    requires
        0 <= i <= j < order.len(),
        order[j] == row,
    ensures
        index_from(order, row, i) >= 0,
    decreases j - i,
{
    if order[i] != row {
        lemma_index_from_finds(order, row, i + 1, j);
    }
}

/// Switching to tree mode reveals the selection: when the selected row is
/// reached from a root (it is not caught in a parent cycle), expanding its
/// ancestors and rebuilding the order lists it, so the table can scroll to it.
pub proof fn lemma_reveal_lists_the_selection(v: TableView, m: RowModel, on: bool)
    requires
        m.wf(),
        on,
        selected_row(v, m) >= 0,
        reach_list(m, v.sort_col as int, v.sort_desc, kids(m, v.sort_col as int, v.sort_desc, -1), m.n()).contains(
            selected_row(v, m),
        ),
    ensures
        revealed(TableView { tree: on, dirty: true, hover: None, ..v }, m).1 is Some,
{
    let v0 = TableView { tree: on, dirty: true, hover: None, ..v };
    let (col, desc) = (v.sort_col as int, v.sort_desc);
    let r = selected_row(v, m);
    let anc = ancestor_ids(m, r, m.n());
    let c1 = v0.collapsed.difference(anc);
    let v1 = TableView { collapsed: c1, dirty: v0.dirty || !v0.collapsed.intersect(anc).is_empty(), ..v0 };
    let v2 = ensured(v1, m);
    let c2 = kept_collapsed(m, true, c1);
    let roots = kids(m, col, desc, -1);
    lemma_reach_list_member(m, col, desc, roots, m.n(), r);
    let i = choose|i: int| 0 <= i < roots.len() && #[trigger] reach(m, col, desc, roots[i], m.n()).contains(r);
    lemma_kids_member(m, col, desc, -1, roots[i]);
    assert forall|k: nat| 1 <= k <= m.n() && 0 <= #[trigger] up(m, r, k) implies !c2.contains(m.id(up(m, r, k))) by {
        assert(anc.contains(m.id(up(m, r, k))));
    }
    lemma_walk_lists_expanded_row(m, col, desc, c2, roots[i], 0, m.n(), r);
    let w = walk(m, col, desc, c2, roots[i], 0, m.n());
    let j = choose|j: int| 0 <= j < w.len() && (#[trigger] w[j]).0 == r;
    lemma_walk_list_holds_walk(m, col, desc, c2, roots, 0, m.n(), i, j);
    let wl = walk_list(m, col, desc, c2, roots, 0, m.n());
    let t = choose|t: int| 0 <= t < wl.len() && #[trigger] wl[t] == w[j];
    let e = tree_entries(m, col, desc, c2);
    assert(e[t] == wl[t]);
    assert(v2.order == e.map_values(|x: (int, int, bool)| x.0));
    assert(v2.order[t] == r);
    lemma_index_from_finds(v2.order, r, 0, t);
}

/// Every row may come before itself.
proof fn lemma_order_le_refl(m: RowModel, col: int, desc: bool, sib: bool, a: int)
    ensures
        order_le(m, col, desc, sib, a, a),
{
    lemma_lex_zero(m.key(a, col, sib), m.key(a, col, sib));
}

/// Two rows that may each come before the other are the same row.
proof fn lemma_order_le_antisym(m: RowModel, col: int, desc: bool, sib: bool, a: int, b: int)
    requires
        order_le(m, col, desc, sib, a, b),
        order_le(m, col, desc, sib, b, a),
    ensures
        a == b,
{
    lemma_lex_antisym(m.key(a, col, sib), m.key(b, col, sib));
}

/// A multiset has one sorted arrangement.
proof fn lemma_sorted_unique(m: RowModel, col: int, desc: bool, sib: bool, s: Seq<int>, t: Seq<int>)
    requires
        sorted_by(m, col, desc, sib, s),
        sorted_by(m, col, desc, sib, t),
        s.to_multiset() == t.to_multiset(),
    ensures
        s == t,
    decreases s.len(),
{
    broadcast use vstd::seq_lib::group_to_multiset_ensures, vstd::multiset::group_multiset_axioms;

    assert(s.len() == s.to_multiset().len());
    assert(t.len() == t.to_multiset().len());
    if s.len() == 0 {
        assert(s =~= t);
    } else {
        assert(t.to_multiset().count(s[0]) > 0);
        assert(s.to_multiset().count(t[0]) > 0);
        let k = choose|k: int| 0 <= k < t.len() && t[k] == s[0];
        let l = choose|l: int| 0 <= l < s.len() && s[l] == t[0];
        if k > 0 {
            assert(order_le(m, col, desc, sib, t[0], t[k]));
        } else {
            lemma_order_le_refl(m, col, desc, sib, t[0]);
        }
        if l > 0 {
            assert(order_le(m, col, desc, sib, s[0], s[l]));
        } else {
            lemma_order_le_refl(m, col, desc, sib, s[0]);
        }
        lemma_order_le_antisym(m, col, desc, sib, s[0], t[0]);
        let s1 = s.drop_first();
        let t1 = t.drop_first();
        assert(s =~= seq![s[0]] + s1);
        assert(t =~= seq![t[0]] + t1);
        vstd::seq_lib::lemma_multiset_commutative(seq![s[0]], s1);
        vstd::seq_lib::lemma_multiset_commutative(seq![t[0]], t1);
        assert(seq![s[0]] =~= Seq::<int>::empty().push(s[0]));
        vstd::seq_lib::to_multiset_build(Seq::<int>::empty(), s[0]);
        assert(s.to_multiset() == seq![s[0]].to_multiset().add(s1.to_multiset()));
        assert(t.to_multiset() == seq![s[0]].to_multiset().add(t1.to_multiset()));
        assert forall|v: int| #[trigger] s1.to_multiset().count(v) == t1.to_multiset().count(v) by {
            assert(s.to_multiset().count(v) == seq![s[0]].to_multiset().count(v) + s1.to_multiset().count(v));
            assert(t.to_multiset().count(v) == seq![s[0]].to_multiset().count(v) + t1.to_multiset().count(v));
        }
        assert(s1.to_multiset() =~= t1.to_multiset());
        assert forall|i: int, j: int| 0 <= i < j < s1.len() implies order_le(m, col, desc, sib, #[trigger] s1[i], #[trigger] s1[j]) by {
            assert(s1[i] == s[i + 1] && s1[j] == s[j + 1]);
        }
        assert forall|i: int, j: int| 0 <= i < j < t1.len() implies order_le(m, col, desc, sib, #[trigger] t1[i], #[trigger] t1[j]) by {
            assert(t1[i] == t[i + 1] && t1[j] == t[j + 1]);
        }
        lemma_sorted_unique(m, col, desc, sib, s1, t1);
    }
}

/// Row `y` lies strictly below row `x` in the tree.
pub open spec fn tree_below(m: RowModel, y: int, x: int) -> bool {
    exists|k: nat| k >= 1 && #[trigger] up(m, y, k) == x
}

/// Every entry from `i` exclusive to `j` inclusive sits deeper than entry `i`.
pub open spec fn deeper_run(e: Seq<(int, int, bool)>, i: int, j: int) -> bool {
    forall|t: int| i < t <= j ==> #[trigger] e[t].1 > e[i].1
}

/// In a listing of entries, the run of deeper entries after any entry lies in
/// the tree below that entry's row.
pub open spec fn runs_lie_below(m: RowModel, e: Seq<(int, int, bool)>) -> bool {
    forall|i: int, j: int| 0 <= i < j < e.len() && deeper_run(e, i, j) ==> tree_below(m, #[trigger] e[j].0, #[trigger] e[i].0)
}

proof fn lemma_runs_concat(m: RowModel, a: Seq<(int, int, bool)>, b: Seq<(int, int, bool)>, d: int)
    requires
        runs_lie_below(m, a),
        runs_lie_below(m, b),
        forall|t: int| 0 <= t < a.len() ==> #[trigger] a[t].1 >= d,
        b.len() > 0 ==> b[0].1 == d,
    ensures
        runs_lie_below(m, a + b),
{
    let e = a + b;
    assert forall|i: int, j: int| 0 <= i < j < e.len() && deeper_run(e, i, j) implies tree_below(
        m,
        #[trigger] e[j].0,
        #[trigger] e[i].0,
    ) by {
        if j < a.len() {
            assert forall|t: int| i < t <= j implies #[trigger] a[t].1 > a[i].1 by {
                assert(e[t] == a[t]);
            }
            assert(e[i] == a[i] && e[j] == a[j]);
        } else if i < a.len() {
            assert(e[a.len() as int] == b[0]);
            assert(e[a.len() as int].1 > e[i].1);
            assert(a[i].1 >= d);
        } else {
            let i1 = i - a.len();
            let j1 = j - a.len();
            assert forall|t: int| i1 < t <= j1 implies #[trigger] b[t].1 > b[i1].1 by {
                assert(e[t + a.len()] == b[t]);
            }
            assert(e[i] == b[i1] && e[j] == b[j1]);
        }
    }
}

/// A walk from `x` at depth `d`: it starts with `x` at depth `d`, every later
/// entry is deeper and below `x`, and its deeper runs lie below their rows.
/// Row `y` is one of `xs` or lies below one of them.
spec fn under_any(m: RowModel, y: int, xs: Seq<int>) -> bool {
    exists|k: nat| xs.contains(#[trigger] up(m, y, k))
}

proof fn lemma_kid_entries_below(m: RowModel, col: int, desc: bool, x: int, l: Seq<(int, int, bool)>)
    requires
        m.wf(),
        0 <= x < m.n(),
        forall|t: int| 0 <= t < l.len() ==> under_any(m, #[trigger] l[t].0, kids(m, col, desc, x)),
    ensures
        forall|t: int| 0 <= t < l.len() ==> tree_below(m, #[trigger] l[t].0, x),
{
    let ks = kids(m, col, desc, x);
    assert forall|t: int| 0 <= t < l.len() implies tree_below(m, #[trigger] l[t].0, x) by {
        let r = l[t].0;
        assert(under_any(m, r, ks));
        let k = choose|k: nat| ks.contains(#[trigger] up(m, r, k));
        let c = up(m, r, k);
        lemma_kids_member(m, col, desc, x, c);
        lemma_up_add(m, r, k, 1);
        assert(up(m, c, 1) == x);
        assert(up(m, r, k + 1) == x);
    }
}

proof fn lemma_runs_cons(m: RowModel, h: (int, int, bool), l: Seq<(int, int, bool)>)
    requires
        runs_lie_below(m, l),
        forall|t: int| 0 <= t < l.len() ==> tree_below(m, #[trigger] l[t].0, h.0),
    ensures
        runs_lie_below(m, seq![h] + l),
{
    let e = seq![h] + l;
    assert forall|i: int, j: int| 0 <= i < j < e.len() && deeper_run(e, i, j) implies tree_below(
        m,
        #[trigger] e[j].0,
        #[trigger] e[i].0,
    ) by {
        assert(e[j] == l[j - 1]);
        if i > 0 {
            assert forall|t: int| i - 1 < t <= j - 1 implies #[trigger] l[t].1 > l[i - 1].1 by {
                assert(e[t + 1] == l[t]);
            }
            assert(e[i] == l[i - 1]);
        }
    }
}

/// A walk from `x` at depth `d`: it starts with `x` at depth `d`, every later
/// entry is deeper and below `x`, and its deeper runs lie below their rows.
proof fn lemma_walk_runs(m: RowModel, col: int, desc: bool, collapsed: Set<u64>, x: int, d: int, f: nat)
    requires
        m.wf(),
        0 <= x < m.n(),
        0 <= d,
        d + f <= 65535,
    ensures
        ({
            let e = walk(m, col, desc, collapsed, x, d, f);
            &&& f == 0 ==> e.len() == 0
            &&& f > 0 ==> e.len() > 0 && e[0].0 == x && e[0].1 == d
            &&& forall|t: int| 0 < t < e.len() ==> tree_below(m, #[trigger] e[t].0, x)
            &&& forall|t: int| 0 < t < e.len() ==> #[trigger] e[t].1 > d
            &&& forall|t: int| 0 <= t < e.len() ==> #[trigger] e[t].1 >= d
            &&& runs_lie_below(m, e)
        }),
    decreases f, 0nat,
{
    if f > 0 {
        let e = walk(m, col, desc, collapsed, x, d, f);
        let ks = kids(m, col, desc, x);
        let h = (x, d, ks.len() > 0);
        let l = if collapsed.contains(m.id(x)) {
            Seq::empty()
        } else {
            walk_list(m, col, desc, collapsed, ks, deeper(d), (f - 1) as nat)
        };
        assert(e == seq![h] + l);
        assert(deeper(d) == d + 1);
        if !collapsed.contains(m.id(x)) {
            assert forall|s: int| 0 <= s < ks.len() implies 0 <= #[trigger] ks[s] < m.n() by {
                lemma_kids_member(m, col, desc, x, ks[s]);
            }
            lemma_walk_list_runs(m, col, desc, collapsed, ks, d + 1, (f - 1) as nat);
        }
        lemma_kid_entries_below(m, col, desc, x, l);
        lemma_runs_cons(m, h, l);
        assert forall|t: int| 0 < t < e.len() implies tree_below(m, #[trigger] e[t].0, x) by {
            assert(e[t] == l[t - 1]);
        }
        assert forall|t: int| 0 <= t < e.len() implies #[trigger] e[t].1 >= d by {
            if t > 0 {
                assert(e[t] == l[t - 1]);
            }
        }
        assert forall|t: int| 0 < t < e.len() implies #[trigger] e[t].1 > d by {
            assert(e[t] == l[t - 1]);
        }
    }
}

/// The walks from `xs` at depth `d`: every entry is at depth `d` or deeper and
/// at or below one of `xs`, and deeper runs lie below their rows.
proof fn lemma_walk_list_runs(m: RowModel, col: int, desc: bool, collapsed: Set<u64>, xs: Seq<int>, d: int, f: nat)
    requires
        m.wf(),
        forall|s: int| 0 <= s < xs.len() ==> 0 <= #[trigger] xs[s] < m.n(),
        0 <= d,
        d + f <= 65535,
    ensures
        ({
            let e = walk_list(m, col, desc, collapsed, xs, d, f);
            &&& forall|t: int| 0 <= t < e.len() ==> #[trigger] e[t].1 >= d
            &&& forall|t: int| 0 <= t < e.len() ==> under_any(m, #[trigger] e[t].0, xs)
            &&& runs_lie_below(m, e)
        }),
    decreases f, xs.len(),
{
    if xs.len() > 0 {
        let xs0 = xs.drop_last();
        let a = walk_list(m, col, desc, collapsed, xs0, d, f);
        let b = walk(m, col, desc, collapsed, xs.last(), d, f);
        assert forall|s: int| 0 <= s < xs0.len() implies 0 <= #[trigger] xs0[s] < m.n() by {
            assert(xs0[s] == xs[s]);
        }
        lemma_walk_list_runs(m, col, desc, collapsed, xs0, d, f);
        lemma_walk_runs(m, col, desc, collapsed, xs.last(), d, f);
        lemma_runs_concat(m, a, b, d);
        let e = walk_list(m, col, desc, collapsed, xs, d, f);
        assert(e =~= a + b);
        assert forall|t: int| 0 <= t < e.len() implies #[trigger] e[t].1 >= d by {
            if t < a.len() {
                assert(e[t] == a[t]);
            } else {
                assert(e[t] == b[t - a.len()]);
            }
        }
        assert forall|t: int| 0 <= t < e.len() implies under_any(m, #[trigger] e[t].0, xs) by {
            if t < a.len() {
                assert(e[t] == a[t]);
                assert(under_any(m, a[t].0, xs0));
                let k = choose|k: nat| xs0.contains(#[trigger] up(m, a[t].0, k));
                let s = choose|s: int| 0 <= s < xs0.len() && xs0[s] == up(m, a[t].0, k);
                assert(xs[s] == xs0[s]);
                assert(xs.contains(up(m, e[t].0, k)));
            } else {
                assert(e[t] == b[t - a.len()]);
                assert(xs[xs.len() - 1] == xs.last());
                if t - a.len() == 0 {
                    assert(up(m, e[t].0, 0) == xs.last());
                    assert(xs.contains(up(m, e[t].0, 0)));
                } else {
                    assert(tree_below(m, b[t - a.len()].0, xs.last()));
                    let k = choose|k: nat| k >= 1 && #[trigger] up(m, b[t - a.len()].0, k) == xs.last();
                    assert(xs.contains(up(m, e[t].0, k)));
                }
            }
        }
    }
}

/// In tree order, whatever is collapsed, the entries that follow a row and sit
/// deeper than it, up to the first that does not, are all rows below it in the
/// tree: each row is followed by its listed subtree. (Depths are exact while
/// the source has fewer rows than the depth counter's range.)
pub proof fn lemma_tree_order_runs_lie_below(m: RowModel, col: int, desc: bool, collapsed: Set<u64>)
    requires
        m.wf(),
        m.n() <= 65535,
    ensures
        runs_lie_below(m, tree_entries(m, col, desc, collapsed)),
{
    let roots = kids(m, col, desc, -1);
    assert forall|s: int| 0 <= s < roots.len() implies 0 <= #[trigger] roots[s] < m.n() by {
        lemma_kids_member(m, col, desc, -1, roots[s]);
    }
    lemma_walk_list_runs(m, col, desc, collapsed, roots, 0, m.n());
    let l = leftovers(m, col, desc, m.n() as int);
    lemma_leftovers_flat(m, col, desc, m.n() as int);
    assert forall|i: int, j: int| 0 <= i < j < l.len() && deeper_run(l, i, j) implies tree_below(
        m,
        #[trigger] l[j].0,
        #[trigger] l[i].0,
    ) by {
        assert(l[j].1 > l[i].1);
    }
    lemma_runs_concat(m, walk_list(m, col, desc, collapsed, roots, 0, m.n()), l, 0);
}

proof fn lemma_leftovers_flat(m: RowModel, col: int, desc: bool, k: int)
    ensures
        forall|t: int| 0 <= t < leftovers(m, col, desc, k).len() ==> #[trigger] leftovers(m, col, desc, k)[t].1 == 0,
    decreases k,
{
    if k > 0 {
        lemma_leftovers_flat(m, col, desc, k - 1);
        let prev = leftovers(m, col, desc, k - 1);
        let cur = leftovers(m, col, desc, k);
        assert forall|t: int| 0 <= t < cur.len() implies #[trigger] cur[t].1 == 0 by {
            if t < prev.len() {
                assert(cur[t] == prev[t]);
            }
        }
    }
}

/// In a listing of entries, every listed row below an entry's row comes after
/// it, inside the run of deeper entries that follows it.
pub open spec fn subtrees_in_runs(m: RowModel, e: Seq<(int, int, bool)>) -> bool {
    forall|i: int, j: int|
        0 <= i < e.len() && 0 <= j < e.len() && tree_below(m, #[trigger] e[j].0, #[trigger] e[i].0) ==> i < j
            && deeper_run(e, i, j)
}

/// Two different children of one parent (a root slot, or a row on no cycle)
/// are never both ancestors of one row.
proof fn lemma_siblings_share_no_row(m: RowModel, p: int, a: int, b: int, r: int, ka: nat, kb: nat)
    requires
        m.wf(),
        0 <= a < m.n(),
        0 <= b < m.n(),
        a != b,
        tree_parent(m, a) == p,
        tree_parent(m, b) == p,
        p == -1 || (0 <= p < m.n() && acyclic_at(m, p)),
    ensures
        !(up(m, r, ka) == a && up(m, r, kb) == b),
{
    if up(m, r, ka) != a || up(m, r, kb) != b {
        return;
    }
    assert(ka != kb);
    let (k1, k2, y) = if ka < kb {
        (ka, kb, b)
    } else {
        (kb, ka, a)
    };
    lemma_up_add(m, r, k1, 1);
    assert(up(m, r, k1 + 1) == p);
    lemma_up_add(m, r, k1 + 1, (k2 - k1 - 1) as nat);
    assert((k1 + 1 + (k2 - k1 - 1)) as nat == k2);
    assert(up(m, p, (k2 - k1 - 1) as nat) == y);
    if p == -1 {
        lemma_up_from_none(m, (k2 - k1 - 1) as nat);
    } else {
        lemma_up_add(m, p, (k2 - k1 - 1) as nat, 1);
        assert(up(m, y, 1) == p);
        assert(up(m, p, (k2 - k1) as nat) == p);
    }
}

/// Below `a` and below something below `a`... composes: a row below `y`,
/// which is at or below `a`, is below `a`.
proof fn lemma_below_trans(m: RowModel, z: int, y: int, a: int, k: nat)
    requires
        tree_below(m, z, y),
        up(m, y, k) == a,
    ensures
        tree_below(m, z, a),
{
    let k1 = choose|k1: nat| k1 >= 1 && #[trigger] up(m, z, k1) == y;
    lemma_up_add(m, z, k1, k);
    assert(up(m, z, k1 + k) == a);
}

proof fn lemma_walk_holds(m: RowModel, col: int, desc: bool, c: Set<u64>, x: int, d: int, f: nat)
    requires
        m.wf(),
        0 <= x < m.n(),
        acyclic_at(m, x),
        0 <= d,
        d + f <= 65535,
    ensures
        subtrees_in_runs(m, walk(m, col, desc, c, x, d, f)),
    decreases f, 0nat,
{
    if f > 0 {
        let e = walk(m, col, desc, c, x, d, f);
        let ks = kids(m, col, desc, x);
        let h = (x, d, ks.len() > 0);
        let l = if c.contains(m.id(x)) {
            Seq::empty()
        } else {
            walk_list(m, col, desc, c, ks, deeper(d), (f - 1) as nat)
        };
        assert(e == seq![h] + l);
        assert(deeper(d) == d + 1);
        lemma_walk_runs(m, col, desc, c, x, d, f);
        assert forall|t: int| 0 <= t < ks.len() implies 0 <= #[trigger] ks[t] < m.n() && tree_parent(m, ks[t]) == x by {
            lemma_kids_member(m, col, desc, x, ks[t]);
        }
        lemma_kids_member(m, col, desc, x, 0);
        if !c.contains(m.id(x)) {
            lemma_walk_list_holds(m, col, desc, c, ks, d + 1, (f - 1) as nat, x);
        }
        assert forall|i: int, j: int|
            0 <= i < e.len() && 0 <= j < e.len() && tree_below(m, #[trigger] e[j].0, #[trigger] e[i].0) implies i < j
                && deeper_run(e, i, j) by {
            if i == 0 && j == 0 {
                let k = choose|k: nat| k >= 1 && #[trigger] up(m, x, k) == x;
            } else if j == 0 {
                assert(tree_below(m, e[i].0, x));
                let k = choose|k: nat| k >= 1 && #[trigger] up(m, e[i].0, k) == x;
                lemma_below_trans(m, x, e[i].0, x, k);
                let k2 = choose|k2: nat| k2 >= 1 && #[trigger] up(m, x, k2) == x;
            } else if i > 0 {
                assert(e[i] == l[i - 1] && e[j] == l[j - 1]);
                assert(i - 1 < j - 1);
                assert forall|t: int| i < t <= j implies #[trigger] e[t].1 > e[i].1 by {
                    assert(e[t] == l[t - 1]);
                    assert(l[t - 1].1 > l[i - 1].1);
                }
            }
        }
    }
}

proof fn lemma_walk_list_holds(m: RowModel, col: int, desc: bool, c: Set<u64>, xs: Seq<int>, d: int, f: nat, p: int)
    requires
        m.wf(),
        xs.no_duplicates(),
        forall|t: int| 0 <= t < xs.len() ==> 0 <= #[trigger] xs[t] < m.n() && tree_parent(m, xs[t]) == p,
        p == -1 || (0 <= p < m.n() && acyclic_at(m, p)),
        0 <= d,
        d + f <= 65535,
    ensures
        subtrees_in_runs(m, walk_list(m, col, desc, c, xs, d, f)),
    decreases f, xs.len(),
{
    if xs.len() > 0 {
        let xs0 = xs.drop_last();
        let last = xs.last();
        let a = walk_list(m, col, desc, c, xs0, d, f);
        let b = walk(m, col, desc, c, last, d, f);
        let e = walk_list(m, col, desc, c, xs, d, f);
        assert(e =~= a + b);
        assert(xs[xs.len() - 1] == last);
        assert forall|t: int| 0 <= t < xs0.len() implies 0 <= #[trigger] xs0[t] < m.n() && tree_parent(m, xs0[t]) == p by {
            assert(xs0[t] == xs[t]);
        }
        assert forall|t: int| 0 <= t < xs0.len() implies 0 <= #[trigger] xs0[t] < m.n() by {
            assert(xs0[t] == xs[t]);
        }
        assert(xs0.no_duplicates());
        lemma_walk_list_holds(m, col, desc, c, xs0, d, f, p);
        if p == -1 {
            lemma_root_acyclic(m, last);
        } else {
            lemma_child_acyclic(m, p, last);
        }
        lemma_walk_holds(m, col, desc, c, last, d, f);
        lemma_walk_list_runs(m, col, desc, c, xs0, d, f);
        lemma_walk_runs(m, col, desc, c, last, d, f);
        // A row of the front is at or below an earlier sibling; one of the last
        // walk is at or below `last`.
        assert forall|j: int| #![trigger b[j]] 0 <= j < b.len() implies exists|k: nat| #[trigger] up(m, b[j].0, k) == last by {
            if j == 0 {
                assert(up(m, b[j].0, 0) == last);
            } else {
                assert(tree_below(m, b[j].0, last));
            }
        }
        assert forall|i: int, j: int|
            0 <= i < e.len() && 0 <= j < e.len() && tree_below(m, #[trigger] e[j].0, #[trigger] e[i].0) implies i < j
                && deeper_run(e, i, j) by {
            if i < a.len() && j < a.len() {
                assert(e[i] == a[i] && e[j] == a[j]);
                assert forall|t: int| i < t <= j implies #[trigger] e[t].1 > e[i].1 by {
                    assert(e[t] == a[t]);
                }
            } else if i >= a.len() && j >= a.len() {
                let i1 = i - a.len();
                let j1 = j - a.len();
                assert(e[i] == b[i1] && e[j] == b[j1]);
                assert forall|t: int| i < t <= j implies #[trigger] e[t].1 > e[i].1 by {
                    assert(e[t] == b[t - a.len()]);
                    assert(b[t - a.len()].1 > b[i1].1);
                }
            } else if i < a.len() {
                // j in the last walk, below a row of the front: both siblings
                // would be ancestors of e[j].
                assert(e[i] == a[i]);
                assert(e[j] == b[j - a.len()]);
                assert(under_any(m, a[i].0, xs0));
                let k = choose|k: nat| xs0.contains(#[trigger] up(m, a[i].0, k));
                let s = choose|s: int| 0 <= s < xs0.len() && xs0[s] == up(m, a[i].0, k);
                lemma_below_trans(m, e[j].0, a[i].0, xs0[s], k);
                let k1 = choose|k1: nat| k1 >= 1 && #[trigger] up(m, e[j].0, k1) == xs0[s];
                let k2 = choose|k2: nat| #[trigger] up(m, b[j - a.len()].0, k2) == last;
                assert(xs[s] == xs0[s]);
                assert(xs[s] != last);
                lemma_siblings_share_no_row(m, p, xs0[s], last, e[j].0, k1, k2);
            } else {
                assert(e[i] == b[i - a.len()]);
                assert(e[j] == a[j]);
                assert(under_any(m, a[j].0, xs0));
                let k = choose|k: nat| xs0.contains(#[trigger] up(m, a[j].0, k));
                let s = choose|s: int| 0 <= s < xs0.len() && xs0[s] == up(m, a[j].0, k);
                let k2 = choose|k2: nat| #[trigger] up(m, b[i - a.len()].0, k2) == last;
                lemma_below_trans(m, e[j].0, b[i - a.len()].0, last, k2);
                let k1 = choose|k1: nat| k1 >= 1 && #[trigger] up(m, e[j].0, k1) == last;
                assert(xs[s] == xs0[s]);
                assert(xs[s] != last);
                lemma_siblings_share_no_row(m, p, xs0[s], last, e[j].0, k, k1);
            }
        }
    }
}

/// In tree order, whatever is collapsed, the walk from the roots lists every
/// listed row below a row after it and inside the run of deeper entries that
/// follows it; with [`lemma_tree_order_runs_lie_below`], each row reached from
/// a root is followed exactly by its listed subtree. The rows no walk reaches
/// (rows on or under a parent cycle) come after that walk, flat.
pub proof fn lemma_tree_order_subtrees_are_contiguous(m: RowModel, col: int, desc: bool, collapsed: Set<u64>)
    requires
        m.wf(),
        m.n() <= 65535,
    ensures
        subtrees_in_runs(m, walk_list(m, col, desc, collapsed, kids(m, col, desc, -1), 0, m.n())),
        tree_entries(m, col, desc, collapsed) == walk_list(m, col, desc, collapsed, kids(m, col, desc, -1), 0, m.n())
            + leftovers(m, col, desc, m.n() as int),
{
    let roots = kids(m, col, desc, -1);
    assert forall|t: int| 0 <= t < roots.len() implies 0 <= #[trigger] roots[t] < m.n() && tree_parent(m, roots[t]) == -1 by {
        lemma_kids_member(m, col, desc, -1, roots[t]);
    }
    lemma_kids_member(m, col, desc, -1, 0);
    lemma_walk_list_holds(m, col, desc, collapsed, roots, 0, m.n(), -1);
}

/// Entry `t`'s tree parent is listed before it, one level up.
pub open spec fn parent_before(m: RowModel, e: Seq<(int, int, bool)>, t: int) -> bool {
    exists|i: int| #![trigger e[i]] 0 <= i < t && e[i].0 == tree_parent(m, e[t].0) && e[i].1 == e[t].1 - 1
}

proof fn lemma_walk_parents(m: RowModel, col: int, desc: bool, c: Set<u64>, x: int, d: int, f: nat)
    requires
        m.wf(),
        0 <= x < m.n(),
        0 <= d,
        d + f <= 65535,
    ensures
        forall|t: int| 0 <= t < walk(m, col, desc, c, x, d, f).len() ==> 0 <= #[trigger] walk(m, col, desc, c, x, d, f)[t].0 < m.n(),
        forall|t: int| 0 < t < walk(m, col, desc, c, x, d, f).len() ==> parent_before(m, walk(m, col, desc, c, x, d, f), t),
    decreases f, 0nat,
{
    if f > 0 {
        let e = walk(m, col, desc, c, x, d, f);
        let ks = kids(m, col, desc, x);
        let h = (x, d, ks.len() > 0);
        let l = if c.contains(m.id(x)) {
            Seq::empty()
        } else {
            walk_list(m, col, desc, c, ks, deeper(d), (f - 1) as nat)
        };
        assert(e == seq![h] + l);
        assert(deeper(d) == d + 1);
        if !c.contains(m.id(x)) {
            assert forall|s: int| 0 <= s < ks.len() implies 0 <= #[trigger] ks[s] < m.n() && tree_parent(m, ks[s]) == x by {
                lemma_kids_member(m, col, desc, x, ks[s]);
            }
            lemma_walk_list_parents(m, col, desc, c, ks, d + 1, (f - 1) as nat, x);
        }
        assert forall|t: int| 0 <= t < e.len() implies 0 <= #[trigger] e[t].0 < m.n() by {
            if t > 0 {
                assert(e[t] == l[t - 1]);
            }
        }
        assert forall|t: int| 0 < t < e.len() implies parent_before(m, e, t) by {
            assert(e[t] == l[t - 1]);
            if l[t - 1].1 == d + 1 && tree_parent(m, l[t - 1].0) == x {
                assert(e[0] == h);
            } else {
                assert(parent_before(m, l, t - 1));
                let i = choose|i: int| #![trigger l[i]] 0 <= i < t - 1 && l[i].0 == tree_parent(m, l[t - 1].0) && l[i].1 == l[t - 1].1 - 1;
                assert(e[i + 1] == l[i]);
            }
        }
    }
}

proof fn lemma_walk_list_parents(m: RowModel, col: int, desc: bool, c: Set<u64>, xs: Seq<int>, d: int, f: nat, p: int)
    requires
        m.wf(),
        forall|s: int| 0 <= s < xs.len() ==> 0 <= #[trigger] xs[s] < m.n() && tree_parent(m, xs[s]) == p,
        0 <= d,
        d + f <= 65535,
    ensures
        forall|t: int|
            0 <= t < walk_list(m, col, desc, c, xs, d, f).len() ==> 0 <= #[trigger] walk_list(m, col, desc, c, xs, d, f)[t].0
                < m.n(),
        forall|t: int|
            0 <= t < walk_list(m, col, desc, c, xs, d, f).len() ==> (#[trigger] walk_list(m, col, desc, c, xs, d, f)[t].1
                == d && tree_parent(m, walk_list(m, col, desc, c, xs, d, f)[t].0) == p) || parent_before(
                m,
                walk_list(m, col, desc, c, xs, d, f),
                t,
            ),
    decreases f, xs.len(),
{
    if xs.len() > 0 {
        let xs0 = xs.drop_last();
        let last = xs.last();
        let a = walk_list(m, col, desc, c, xs0, d, f);
        let b = walk(m, col, desc, c, last, d, f);
        let e = walk_list(m, col, desc, c, xs, d, f);
        assert(e =~= a + b);
        assert(xs[xs.len() - 1] == last);
        assert forall|s: int| 0 <= s < xs0.len() implies 0 <= #[trigger] xs0[s] < m.n() && tree_parent(m, xs0[s]) == p by {
            assert(xs0[s] == xs[s]);
        }
        lemma_walk_list_parents(m, col, desc, c, xs0, d, f, p);
        lemma_walk_parents(m, col, desc, c, last, d, f);
        lemma_walk_runs(m, col, desc, c, last, d, f);
        assert forall|t: int| 0 <= t < e.len() implies 0 <= #[trigger] e[t].0 < m.n() by {
            if t < a.len() {
                assert(e[t] == a[t]);
            } else {
                assert(e[t] == b[t - a.len()]);
            }
        }
        assert forall|t: int| 0 <= t < e.len() implies (#[trigger] e[t].1 == d && tree_parent(m, e[t].0) == p)
            || parent_before(m, e, t) by {
            if t < a.len() {
                assert(e[t] == a[t]);
                if !(a[t].1 == d && tree_parent(m, a[t].0) == p) {
                    assert(parent_before(m, a, t));
                    let i = choose|i: int| #![trigger a[i]] 0 <= i < t && a[i].0 == tree_parent(m, a[t].0) && a[i].1 == a[t].1 - 1;
                    assert(e[i] == a[i]);
                }
            } else {
                let t1 = t - a.len();
                assert(e[t] == b[t1]);
                if t1 > 0 {
                    assert(parent_before(m, b, t1));
                    let i = choose|i: int| #![trigger b[i]] 0 <= i < t1 && b[i].0 == tree_parent(m, b[t1].0) && b[i].1 == b[t1].1 - 1;
                    assert(e[i + a.len()] == b[i]);
                }
            }
        }
    }
}

proof fn lemma_last_shallower_at(meta: Seq<(int, bool)>, pos: int, d: int, i: int)
    requires
        0 <= i < pos <= meta.len(),
        meta[i].0 < d,
        forall|t: int| i < t < pos ==> #[trigger] meta[t].0 >= d,
    ensures
        last_shallower(meta, pos, d) == i,
    decreases pos,
{
    if pos - 1 > i {
        lemma_last_shallower_at(meta, pos - 1, d, i);
    }
}

/// The table lists the tree order of `m` for its own sort and collapsed set.
pub open spec fn lists_tree_order(v: TableView, m: RowModel) -> bool {
    let e = tree_entries(m, v.sort_col as int, v.sort_desc, v.collapsed);
    &&& v.order == e.map_values(|x: (int, int, bool)| x.0)
    &&& v.meta == e.map_values(|x: (int, int, bool)| (x.1, x.2))
}

/// Left arrow in tree mode, when it moves the selection, moves it to the
/// selected row's tree parent, listed before it one level up. (Depths are
/// exact while the source has fewer rows than the depth counter's range; the
/// order is the tree order of `m`, whether kept or rebuilt.)
pub proof fn lemma_left_moves_to_parent(v0: TableView, m: RowModel, q: usize)
    requires
        m.wf(),
        m.n() <= 65535,
        v0.tree,
        v0.dirty || v0.src_len != m.n() || lists_tree_order(v0, m),
        left_step(v0, m).1 == TreeStep::Moved(q),
    ensures
        ({
            let v = ensured(v0, m);
            let pos = sel_pos(m, v)->0 as int;
            &&& sel_pos(m, v) is Some
            &&& 0 <= q < pos < v.order.len()
            &&& v.order[q as int] == tree_parent(m, v.order[pos])
            &&& v.meta[q as int].0 == v.meta[pos].0 - 1
            &&& left_step(v0, m).0.selected == Some(RowId(m.id(tree_parent(m, v.order[pos]))))
        }),
{
    let v = ensured(v0, m);
    let col = v.sort_col as int;
    let desc = v.sort_desc;
    let c = v.collapsed;
    let e = tree_entries(m, col, desc, c);
    assert(lists_tree_order(v, m));
    let pos = sel_pos(m, v)->0 as int;
    let sel = v.selected->0;
    let id = sel.0;
    lemma_pos_from_range(m, v.order, id, 0);
    let d = v.meta[pos].0;
    let roots = kids(m, col, desc, -1);
    let w = walk_list(m, col, desc, c, roots, 0, m.n());
    let l = leftovers(m, col, desc, m.n() as int);
    lemma_tree_order_subtrees_are_contiguous(m, col, desc, c);
    assert(e == w + l);
    assert(v.meta[pos] == (e[pos].1, e[pos].2));
    assert(d != 0);
    lemma_leftovers_flat(m, col, desc, m.n() as int);
    if pos >= w.len() {
        assert(e[pos] == l[pos - w.len()]);
    }
    assert(pos < w.len());
    assert(e[pos] == w[pos]);
    assert forall|s: int| 0 <= s < roots.len() implies 0 <= #[trigger] roots[s] < m.n() && tree_parent(m, roots[s]) == -1 by {
        lemma_kids_member(m, col, desc, -1, roots[s]);
    }
    lemma_walk_list_parents(m, col, desc, c, roots, 0, m.n(), -1);
    assert(parent_before(m, w, pos));
    let i = choose|i: int| #![trigger w[i]] 0 <= i < pos && w[i].0 == tree_parent(m, w[pos].0) && w[i].1 == w[pos].1 - 1;
    let y = w[pos].0;
    assert(0 <= y < m.n());
    assert(0 <= w[i].0 < m.n());
    assert(up(m, y, 0) == y);
    assert(up(m, y, 1) == tree_parent(m, y));
    assert(tree_below(m, w[pos].0, w[i].0));
    assert(deeper_run(w, i, pos));
    assert forall|t: int| i < t < pos implies #[trigger] v.meta[t].0 >= d by {
        assert(e[t] == w[t]);
        assert(v.meta[t] == (e[t].1, e[t].2));
    }
    assert(e[i] == w[i]);
    assert(v.meta[i] == (e[i].1, e[i].2));
    lemma_last_shallower_at(v.meta, pos, d, i);
    assert(v.order[pos] == e[pos].0);
    assert(v.order[i] == e[i].0);
}

/// A walk list with fuel opens with the first of its rows, at its depth.
proof fn lemma_walk_list_first(m: RowModel, col: int, desc: bool, c: Set<u64>, xs: Seq<int>, d: int, f: nat)
    requires
        m.wf(),
        forall|s: int| 0 <= s < xs.len() ==> 0 <= #[trigger] xs[s] < m.n(),
        xs.len() > 0,
        f > 0,
        0 <= d,
        d + f <= 65535,
    ensures
        walk_list(m, col, desc, c, xs, d, f).len() > 0,
        walk_list(m, col, desc, c, xs, d, f)[0].0 == xs[0],
        walk_list(m, col, desc, c, xs, d, f)[0].1 == d,
    decreases xs.len(),
{
    let xs0 = xs.drop_last();
    let a = walk_list(m, col, desc, c, xs0, d, f);
    let b = walk(m, col, desc, c, xs.last(), d, f);
    let e = walk_list(m, col, desc, c, xs, d, f);
    assert(e =~= a + b);
    assert(xs[xs.len() - 1] == xs.last());
    lemma_walk_runs(m, col, desc, c, xs.last(), d, f);
    if xs.len() > 1 {
        assert forall|s: int| 0 <= s < xs0.len() implies 0 <= #[trigger] xs0[s] < m.n() by {
            assert(xs0[s] == xs[s]);
        }
        lemma_walk_list_first(m, col, desc, c, xs0, d, f);
        assert(e[0] == a[0]);
    } else {
        assert(a.len() == 0);
        assert(e[0] == b[0]);
    }
}

/// Entry `t` of `e`, expanded with children and with fuel left to list them,
/// is followed by its first child, one level deeper.
pub open spec fn first_child_follows(
    m: RowModel,
    col: int,
    desc: bool,
    c: Set<u64>,
    e: Seq<(int, int, bool)>,
    t: int,
    top: int,
) -> bool {
    e[t].2 && !c.contains(m.id(e[t].0)) && e[t].1 + 1 < top ==> t + 1 < e.len() && e[t + 1].0 == kids(
        m,
        col,
        desc,
        e[t].0,
    )[0] && e[t + 1].1 == e[t].1 + 1
}

proof fn lemma_walk_first_child(m: RowModel, col: int, desc: bool, c: Set<u64>, x: int, d: int, f: nat)
    requires
        m.wf(),
        0 <= x < m.n(),
        0 <= d,
        d + f <= 65535,
    ensures
        forall|t: int|
            0 <= t < walk(m, col, desc, c, x, d, f).len() ==> #[trigger] first_child_follows(
                m,
                col,
                desc,
                c,
                walk(m, col, desc, c, x, d, f),
                t,
                d + f,
            ),
        forall|t: int|
            0 <= t < walk(m, col, desc, c, x, d, f).len() ==> (#[trigger] walk(m, col, desc, c, x, d, f)[t]).2 == (kids(
                m,
                col,
                desc,
                walk(m, col, desc, c, x, d, f)[t].0,
            ).len() > 0),
    decreases f, 0nat,
{
    if f > 0 {
        let e = walk(m, col, desc, c, x, d, f);
        let ks = kids(m, col, desc, x);
        let h = (x, d, ks.len() > 0);
        let l = if c.contains(m.id(x)) {
            Seq::empty()
        } else {
            walk_list(m, col, desc, c, ks, deeper(d), (f - 1) as nat)
        };
        assert(e == seq![h] + l);
        assert(deeper(d) == d + 1);
        assert forall|s: int| 0 <= s < ks.len() implies 0 <= #[trigger] ks[s] < m.n() by {
            lemma_kids_member(m, col, desc, x, ks[s]);
        }
        if !c.contains(m.id(x)) {
            lemma_walk_list_first_child(m, col, desc, c, ks, d + 1, (f - 1) as nat);
            if ks.len() > 0 && f > 1 {
                lemma_walk_list_first(m, col, desc, c, ks, d + 1, (f - 1) as nat);
            }
        }
        assert forall|t: int| 0 <= t < e.len() implies #[trigger] first_child_follows(m, col, desc, c, e, t, d + f) by {
            if t == 0 {
                assert(e[0] == h);
                if h.2 && !c.contains(m.id(x)) && d + 1 < d + f {
                    assert(e[1] == l[0]);
                }
            } else {
                assert(e[t] == l[t - 1]);
                assert(first_child_follows(m, col, desc, c, l, t - 1, d + 1 + (f - 1)));
                if e[t].2 && !c.contains(m.id(e[t].0)) && e[t].1 + 1 < d + f {
                    assert(e[t + 1] == l[t]);
                }
            }
        }
        assert forall|t: int| 0 <= t < e.len() implies (#[trigger] e[t]).2 == (kids(m, col, desc, e[t].0).len() > 0) by {
            if t > 0 {
                assert(e[t] == l[t - 1]);
            }
        }
    }
}

proof fn lemma_walk_list_first_child(m: RowModel, col: int, desc: bool, c: Set<u64>, xs: Seq<int>, d: int, f: nat)
    requires
        m.wf(),
        forall|s: int| 0 <= s < xs.len() ==> 0 <= #[trigger] xs[s] < m.n(),
        0 <= d,
        d + f <= 65535,
    ensures
        forall|t: int|
            0 <= t < walk_list(m, col, desc, c, xs, d, f).len() ==> #[trigger] first_child_follows(
                m,
                col,
                desc,
                c,
                walk_list(m, col, desc, c, xs, d, f),
                t,
                d + f,
            ),
        forall|t: int|
            0 <= t < walk_list(m, col, desc, c, xs, d, f).len() ==> (#[trigger] walk_list(m, col, desc, c, xs, d, f)[t]).2
                == (kids(m, col, desc, walk_list(m, col, desc, c, xs, d, f)[t].0).len() > 0),
    decreases f, xs.len(),
{
    if xs.len() > 0 {
        let xs0 = xs.drop_last();
        let a = walk_list(m, col, desc, c, xs0, d, f);
        let b = walk(m, col, desc, c, xs.last(), d, f);
        let e = walk_list(m, col, desc, c, xs, d, f);
        assert(e =~= a + b);
        assert(xs[xs.len() - 1] == xs.last());
        assert forall|s: int| 0 <= s < xs0.len() implies 0 <= #[trigger] xs0[s] < m.n() by {
            assert(xs0[s] == xs[s]);
        }
        lemma_walk_list_first_child(m, col, desc, c, xs0, d, f);
        lemma_walk_first_child(m, col, desc, c, xs.last(), d, f);
        assert forall|t: int| 0 <= t < e.len() implies #[trigger] first_child_follows(m, col, desc, c, e, t, d + f) by {
            if t < a.len() {
                assert(e[t] == a[t]);
                assert(first_child_follows(m, col, desc, c, a, t, d + f));
                if e[t].2 && !c.contains(m.id(e[t].0)) && e[t].1 + 1 < d + f {
                    assert(e[t + 1] == a[t + 1]);
                }
            } else {
                let t1 = t - a.len();
                assert(e[t] == b[t1]);
                assert(first_child_follows(m, col, desc, c, b, t1, d + f));
                if e[t].2 && !c.contains(m.id(e[t].0)) && e[t].1 + 1 < d + f {
                    assert(e[t + 1] == b[t1 + 1]);
                }
            }
        }
        assert forall|t: int| 0 <= t < e.len() implies (#[trigger] e[t]).2 == (kids(m, col, desc, e[t].0).len() > 0) by {
            if t < a.len() {
                assert(e[t] == a[t]);
            } else {
                assert(e[t] == b[t - a.len()]);
            }
        }
    }
}

/// Properties of a listing walked from the roots that the ancestor count
/// below relies on.
spec fn rooted_listing(m: RowModel, e: Seq<(int, int, bool)>) -> bool {
    &&& forall|t: int| 0 <= t < e.len() ==> 0 <= #[trigger] e[t].0 < m.n()
    &&& forall|t: int| 0 <= t < e.len() ==> #[trigger] e[t].1 >= 0
    &&& forall|t: int|
        0 <= t < e.len() ==> (#[trigger] e[t].1 == 0 && tree_parent(m, e[t].0) == -1) || parent_before(m, e, t)
}

/// The `k`-th tree ancestor of a listed row is listed, `k` levels up.
proof fn lemma_ancestor_listed(m: RowModel, e: Seq<(int, int, bool)>, t: int, k: nat) -> (s: int)
    requires
        rooted_listing(m, e),
        0 <= t < e.len(),
        k <= e[t].1,
    ensures
        0 <= s < e.len(),
        e[s].0 == up(m, e[t].0, k),
        e[s].1 == e[t].1 - k,
    decreases k,
{
    if k == 0 {
        t
    } else {
        let s1 = lemma_ancestor_listed(m, e, t, (k - 1) as nat);
        assert(e[s1].1 >= 1);
        assert(parent_before(m, e, s1));
        let i = choose|i: int| #![trigger e[i]] 0 <= i < s1 && e[i].0 == tree_parent(m, e[s1].0) && e[i].1 == e[s1].1 - 1;
        assert(0 <= e[i].0);
        lemma_up_add(m, e[t].0, (k - 1) as nat, 1);
        assert(((k - 1) as nat + 1) as nat == k);
        let y = up(m, e[t].0, (k - 1) as nat);
        assert(up(m, y, 0) == y);
        assert(up(m, y, 1) == tree_parent(m, y));
        i
    }
}

/// Every ancestor of a listed row, up to its root, lies on no cycle.
proof fn lemma_ancestors_acyclic(m: RowModel, e: Seq<(int, int, bool)>, t: int, k: nat)
    requires
        m.wf(),
        rooted_listing(m, e),
        0 <= t < e.len(),
        k <= e[t].1,
    ensures
        0 <= up(m, e[t].0, k) < m.n(),
        acyclic_at(m, up(m, e[t].0, k)),
    decreases e[t].1 - k,
{
    let s = lemma_ancestor_listed(m, e, t, k);
    if k == e[t].1 {
        assert(!parent_before(m, e, s));
        lemma_root_acyclic(m, e[s].0);
    } else {
        lemma_ancestors_acyclic(m, e, t, k + 1);
        let s2 = lemma_ancestor_listed(m, e, t, k + 1);
        let y = up(m, e[t].0, k);
        lemma_up_add(m, e[t].0, k, 1);
        assert(up(m, y, 0) == y);
        assert(up(m, y, 1) == up(m, e[t].0, k + 1));
        assert(tree_parent(m, y) == up(m, e[t].0, k + 1));
        lemma_child_acyclic(m, up(m, e[t].0, k + 1), y);
    }
}

/// A listed row that has a child sits at least two levels above the row
/// count: its ancestors, itself and the child are all different rows.
proof fn lemma_parent_depth_bound(m: RowModel, e: Seq<(int, int, bool)>, t: int, c: int)
    requires
        m.wf(),
        rooted_listing(m, e),
        0 <= t < e.len(),
        0 <= c < m.n(),
        tree_parent(m, c) == e[t].0,
    ensures
        e[t].1 + 2 <= m.n(),
{
    let x = e[t].0;
    let d = e[t].1;
    let chain = Seq::new((d + 1) as nat, |k: int| up(m, x, k as nat));
    let all = chain.push(c);
    assert forall|k: int| 0 <= k <= d implies 0 <= #[trigger] up(m, x, k as nat) < m.n() && acyclic_at(
        m,
        up(m, x, k as nat),
    ) by {
        lemma_ancestors_acyclic(m, e, t, k as nat);
    }
    assert(up(m, x, 0) == x);
    assert forall|a: int, b: int| 0 <= a < b < all.len() implies all[a] != all[b] by {
        if b < chain.len() {
            let y = up(m, x, a as nat);
            lemma_up_add(m, x, a as nat, (b - a) as nat);
            assert((a + (b - a)) as nat == b as nat);
            if all[a] == all[b] {
                assert(up(m, y, (b - a) as nat) == y);
                assert(acyclic_at(m, y));
            }
        } else {
            if all[a] == all[b] {
                assert(all[b] == c);
                assert(up(m, c, 0) == c);
                assert(up(m, c, 1) == x);
                lemma_up_add(m, x, a as nat, 1);
                assert(up(m, x, (a + 1) as nat) == x);
                assert(acyclic_at(m, x));
            }
        }
    }
    assert(all.no_duplicates());
    all.unique_seq_to_set();
    vstd::set_lib::lemma_int_range(0, m.n() as int);
    let range = vstd::set_lib::set_int_range(0, m.n() as int);
    assert forall|v: int| all.to_set().contains(v) implies range.contains(v) by {
        let i = choose|i: int| 0 <= i < all.len() && all[i] == v;
        if i < chain.len() {
            assert(all[i] == up(m, x, i as nat));
        }
    }
    vstd::set_lib::lemma_len_subset(all.to_set(), range);
}

proof fn lemma_leftovers_leaves(m: RowModel, col: int, desc: bool, k: int)
    ensures
        forall|t: int| 0 <= t < leftovers(m, col, desc, k).len() ==> !(#[trigger] leftovers(m, col, desc, k)[t]).2,
    decreases k,
{
    if k > 0 {
        lemma_leftovers_leaves(m, col, desc, k - 1);
        let prev = leftovers(m, col, desc, k - 1);
        let cur = leftovers(m, col, desc, k);
        assert forall|t: int| 0 <= t < cur.len() implies !(#[trigger] cur[t]).2 by {
            if t < prev.len() {
                assert(cur[t] == prev[t]);
            }
        }
    }
}

/// In the walk from the roots, a row listed expanded with children is followed
/// by its first child, one level down.
proof fn lemma_walked_first_child(m: RowModel, col: int, desc: bool, c: Set<u64>, pos: int)
    requires
        m.wf(),
        m.n() <= 65535,
        0 <= pos < walk_list(m, col, desc, c, kids(m, col, desc, -1), 0, m.n()).len(),
        walk_list(m, col, desc, c, kids(m, col, desc, -1), 0, m.n())[pos].2,
        !c.contains(m.id(walk_list(m, col, desc, c, kids(m, col, desc, -1), 0, m.n())[pos].0)),
    ensures
        ({
            let w = walk_list(m, col, desc, c, kids(m, col, desc, -1), 0, m.n());
            &&& pos + 1 < w.len()
            &&& w[pos + 1].0 == kids(m, col, desc, w[pos].0)[0]
            &&& tree_parent(m, w[pos + 1].0) == w[pos].0
            &&& w[pos + 1].1 == w[pos].1 + 1
        }),
{
    let roots = kids(m, col, desc, -1);
    let w = walk_list(m, col, desc, c, roots, 0, m.n());
    assert forall|s: int| 0 <= s < roots.len() implies 0 <= #[trigger] roots[s] < m.n() && tree_parent(m, roots[s]) == -1 by {
        lemma_kids_member(m, col, desc, -1, roots[s]);
    }
    lemma_walk_list_parents(m, col, desc, c, roots, 0, m.n(), -1);
    lemma_walk_list_runs(m, col, desc, c, roots, 0, m.n());
    lemma_walk_list_first_child(m, col, desc, c, roots, 0, m.n());
    assert(rooted_listing(m, w));
    let x = w[pos].0;
    let ks = kids(m, col, desc, x);
    assert(w[pos].2 == (ks.len() > 0));
    lemma_kids_member(m, col, desc, x, ks[0]);
    assert(ks.contains(ks[0]));
    lemma_parent_depth_bound(m, w, pos, ks[0]);
    assert(first_child_follows(m, col, desc, c, w, pos, (0 + m.n()) as int));
}

/// The tree order lists at most one entry per source row.
proof fn lemma_tree_order_len(m: RowModel, col: int, desc: bool, c: Set<u64>)
    requires
        m.wf(),
    ensures
        tree_entries(m, col, desc, c).len() <= m.n(),
{
    let e = tree_entries(m, col, desc, c);
    let rows = entry_rows(e);
    lemma_tree_order_lists_rows_once(m, col, desc, c);
    rows.unique_seq_to_set();
    vstd::set_lib::lemma_int_range(0, m.n() as int);
    let range = vstd::set_lib::set_int_range(0, m.n() as int);
    assert forall|v: int| rows.to_set().contains(v) implies range.contains(v) by {
        let i = choose|i: int| 0 <= i < rows.len() && rows[i] == v;
        lemma_tree_order_lists_only_visible_rows(m, col, desc, c, i);
    }
    vstd::set_lib::lemma_len_subset(rows.to_set(), range);
}

/// Right arrow in tree mode, when it moves the selection, moves it to the
/// selected row's first child in sibling order, listed right after it one
/// level down. (Same conditions as [`lemma_left_moves_to_parent`].)
pub proof fn lemma_right_moves_to_first_child(v0: TableView, m: RowModel, q: usize)
    requires
        m.wf(),
        m.n() <= 65535,
        v0.tree,
        v0.dirty || v0.src_len != m.n() || lists_tree_order(v0, m),
        right_step(v0, m).1 == TreeStep::Moved(q),
    ensures
        ({
            let v = ensured(v0, m);
            let pos = sel_pos(m, v)->0 as int;
            &&& sel_pos(m, v) is Some
            &&& q == pos + 1
            &&& q < v.order.len()
            &&& v.order[q as int] == kids(m, v.sort_col as int, v.sort_desc, v.order[pos])[0]
            &&& tree_parent(m, v.order[q as int]) == v.order[pos]
            &&& v.meta[q as int].0 == v.meta[pos].0 + 1
        }),
{
    let v = ensured(v0, m);
    let col = v.sort_col as int;
    let desc = v.sort_desc;
    let c = v.collapsed;
    let e = tree_entries(m, col, desc, c);
    assert(lists_tree_order(v, m));
    let pos = sel_pos(m, v)->0 as int;
    let sel = v.selected->0;
    lemma_pos_from_range(m, v.order, sel.0, 0);
    let roots = kids(m, col, desc, -1);
    let w = walk_list(m, col, desc, c, roots, 0, m.n());
    let l = leftovers(m, col, desc, m.n() as int);
    lemma_tree_order_subtrees_are_contiguous(m, col, desc, c);
    assert(e == w + l);
    assert(v.meta[pos] == (e[pos].1, e[pos].2));
    lemma_leftovers_leaves(m, col, desc, m.n() as int);
    if pos >= w.len() {
        assert(e[pos] == l[pos - w.len()]);
    }
    assert(pos < w.len());
    assert(e[pos] == w[pos]);
    assert(v.order[pos] == w[pos].0);
    lemma_walked_first_child(m, col, desc, c, pos);
    lemma_tree_order_len(m, col, desc, c);
    assert(e[pos + 1] == w[pos + 1]);
    assert(v.order[pos + 1] == e[pos + 1].0);
    assert(v.meta[pos + 1] == (e[pos + 1].1, e[pos + 1].2));
}

} // verus!
