//! The split-search engine: grows one regression tree level by level from
//! the sorted feature columns and a gradient per document.
use vstd::prelude::*;
use crate::data::{is_sorted_column, Data, SortedEntry};
use crate::numeric::{
    gain_of, lemma_gain_bounded, lemma_ratio_chain, lemma_score_range, lemma_leaf_weight_bounded, leaf_weight, leaf_weight_of, ratio_greater, ratio_gt, score_den, score_num, split_gain,
    split_score, MAX_DOCS, MAX_GAIN, MAX_GRAD, MAX_SCORE_NUM, MAX_SUM,
};

verus! {

/// A candidate split: twice its threshold (the midpoint of two distinct
/// values) and its score as an exact fraction.
#[derive(Clone, Copy, Debug, PartialEq, Eq)]
pub struct Candidate {
    pub split2: i128,
    pub num: u128,
    pub den: u128,
}

/// Running statistics of one node for one feature during a level's scan.
#[derive(Clone, Copy, Debug, PartialEq, Eq)]
pub struct SplitStats {
    /// The last distinct value seen, `None` before the first one.
    pub last_value: Option<i64>,
    pub left_count: u64,
    pub left_sum: i64,
    pub best: Option<Candidate>,
}

/// Statistics before any entry was seen.
pub open spec fn init_stats() -> SplitStats {
    SplitStats { last_value: None, left_count: 0, left_sum: 0, best: None }
}

/// The candidate that a boundary just below `v` gives, for a node holding `m`
/// documents with gradient sum `l`.
pub open spec fn boundary_candidate(s: SplitStats, prev: i64, v: i64, m: int, l: int) -> Candidate {
    Candidate {
        split2: (prev + v) as i128,
        num: score_num(m, l, s.left_count as int, s.left_sum as int) as u128,
        den: score_den(m, s.left_count as int) as u128,
    }
}

/// Whether candidate `c` beats the best so far.
pub open spec fn improves(c: Candidate, best: Option<Candidate>) -> bool {
    match best {
        None => true,
        Some(b) => ratio_gt(c.num as int, c.den as int, b.num as int, b.den as int),
    }
}

/// One step of the scan: the entry of value `v` and gradient `gv` arrives.
/// A change of value is a boundary; it becomes the best candidate when both
/// sides are non-empty and its score is strictly higher than the best so far.
pub open spec fn scan_step(s: SplitStats, v: i64, gv: int, m: int, l: int) -> SplitStats {
    let best = match s.last_value {
        Some(prev) => if prev != v && 0 < s.left_count < m && improves(
            boundary_candidate(s, prev, v, m, l),
            s.best,
        ) {
            Some(boundary_candidate(s, prev, v, m, l))
        } else {
            s.best
        },
        None => s.best,
    };
    SplitStats {
        last_value: Some(v),
        left_count: (s.left_count + 1) as u64,
        left_sum: (s.left_sum + gv) as i64,
        best,
    }
}

/// The statistics after scanning `es` in order.
pub open spec fn scan(es: Seq<SortedEntry>, g: Seq<i64>, m: int, l: int) -> SplitStats
    decreases es.len(),
{
    if es.len() == 0 {
        init_stats()
    } else {
        scan_step(scan(es.drop_last(), g, m, l), es.last().value, g[es.last().doc_id as int] as int, m, l)
    }
}

/// The entries of a sorted column whose documents are assigned to node `n`.
pub open spec fn node_entries(col: Seq<SortedEntry>, assign: Seq<usize>, n: int) -> Seq<SortedEntry> {
    col.filter(|e: SortedEntry| assign[e.doc_id as int] == n)
}

/// Every gradient is within `MAX_GRAD` in magnitude.
pub open spec fn grads_bounded(g: Seq<i64>) -> bool {
    forall|d: int| 0 <= d < g.len() ==> -MAX_GRAD <= #[trigger] g[d] <= MAX_GRAD
}

proof fn lemma_scan_bounds(es: Seq<SortedEntry>, g: Seq<i64>, m: int, l: int)
    requires
        es.len() <= MAX_DOCS,
        grads_bounded(g),
        forall|i: int| 0 <= i < es.len() ==> (#[trigger] es[i]).doc_id < g.len(),
    ensures
        scan(es, g, m, l).left_count == es.len(),
        -(es.len() * MAX_GRAD) <= scan(es, g, m, l).left_sum <= es.len() * MAX_GRAD,
        scan(es, g, m, l).last_value is None <==> es.len() == 0,
    decreases es.len(),
{
    if es.len() > 0 {
        lemma_scan_bounds(es.drop_last(), g, m, l);
        assert(es.last() == es[es.len() - 1]);
    }
}

/// The best candidate, if any, has a score within the bounds of `split_score`.
pub open spec fn bounded_best(s: SplitStats) -> bool {
    s.best matches Some(c) ==> c.num < MAX_SCORE_NUM && 0 < c.den <= 0x1_0000_0000
}

/// Gradient sum of the first `k` entries.
pub open spec fn prefix_sum(es: Seq<SortedEntry>, g: Seq<i64>, k: int) -> int
    decreases k,
{
    if k <= 0 {
        0
    } else {
        prefix_sum(es, g, k - 1) + g[es[k - 1].doc_id as int] as int
    }
}

/// Position `k` separates two distinct values of `es`, with documents on
/// both sides of a node of `m` documents.
pub open spec fn is_boundary(es: Seq<SortedEntry>, k: int, m: int) -> bool {
    0 < k < es.len() && k < m && es[k - 1].value != es[k].value
}

/// The candidate split at position `k` of `es`: threshold midway between the
/// values on either side, score of the first `k` entries against the rest.
pub open spec fn boundary_at(es: Seq<SortedEntry>, g: Seq<i64>, k: int, m: int, l: int) -> Candidate {
    Candidate {
        split2: (es[k - 1].value + es[k].value) as i128,
        num: score_num(m, l, k, prefix_sum(es, g, k)) as u128,
        den: score_den(m, k) as u128,
    }
}

/// The split search finds the best split of a node: scanning its entries in
/// ascending order yields a candidate exactly when some boundary exists, that
/// candidate is the split at one of the boundaries, and no boundary has a
/// strictly higher score (a strictly lower loss).
pub proof fn lemma_scan_finds_best(es: Seq<SortedEntry>, g: Seq<i64>, m: int, l: int)
    requires
        es.len() <= MAX_DOCS,
        m <= MAX_DOCS,
        -MAX_SUM <= l <= MAX_SUM,
        grads_bounded(g),
        forall|i: int| 0 <= i < es.len() ==> (#[trigger] es[i]).doc_id < g.len(),
    ensures
        scan(es, g, m, l).best is None <==> forall|k: int| !(#[trigger] is_boundary(es, k, m)),
        scan(es, g, m, l).best matches Some(c) ==> {
            &&& exists|k: int| #[trigger] is_boundary(es, k, m) && c == boundary_at(es, g, k, m, l)
            &&& forall|k: int|
                #[trigger] is_boundary(es, k, m) ==> !ratio_gt(
                    boundary_at(es, g, k, m, l).num as int,
                    boundary_at(es, g, k, m, l).den as int,
                    c.num as int,
                    c.den as int,
                )
            &&& 0 < c.den
        },
        scan(es, g, m, l).left_count == es.len(),
        scan(es, g, m, l).left_sum == prefix_sum(es, g, es.len() as int),
        -(es.len() * MAX_GRAD) <= prefix_sum(es, g, es.len() as int) <= es.len() * MAX_GRAD,
        es.len() > 0 ==> scan(es, g, m, l).last_value == Some(es[es.len() - 1].value),
        es.len() == 0 ==> scan(es, g, m, l).last_value is None,
    decreases es.len(),
{
    if es.len() > 0 {
        let dl = es.drop_last();
        let n = es.len() - 1;
        lemma_scan_finds_best(dl, g, m, l);
        let s = scan(dl, g, m, l);
        assert(es.last() == es[n]);
        assert forall|k: int| 0 <= k <= n implies #[trigger] prefix_sum(dl, g, k) == prefix_sum(es, g, k) by {
            lemma_prefix_same(dl, es, g, k);
        }
        assert forall|k: int| #[trigger] is_boundary(dl, k, m) <==> is_boundary(es, k, m) && k < n by {}
        assert forall|k: int| 0 < k < n implies #[trigger] boundary_at(dl, g, k, m, l) == boundary_at(es, g, k, m, l) by {
            assert(prefix_sum(dl, g, k) == prefix_sum(es, g, k));
        }
        if is_boundary(es, n, m) {
            let c = boundary_at(es, g, n, m, l);
            lemma_score_range(m, l, n, prefix_sum(es, g, n));
            assert(c == boundary_candidate(s, es[n - 1].value, es[n].value, m, l));
            match s.best {
                Some(b) => {
                    let kb = choose|k: int| #[trigger] is_boundary(dl, k, m) && b == boundary_at(dl, g, k, m, l);
                    lemma_prefix_bound(dl, g, kb);
                    lemma_score_range(m, l, kb, prefix_sum(dl, g, kb));
                    if improves(c, s.best) {
                        assert forall|k: int| #[trigger] is_boundary(es, k, m) implies !ratio_gt(
                            boundary_at(es, g, k, m, l).num as int,
                            boundary_at(es, g, k, m, l).den as int,
                            c.num as int,
                            c.den as int,
                        ) by {
                            if k < n {
                                assert(is_boundary(dl, k, m));
                                lemma_prefix_bound(es, g, k);
                                lemma_score_range(m, l, k, prefix_sum(es, g, k));
                                lemma_ratio_chain(
                                    boundary_at(es, g, k, m, l).num as int,
                                    boundary_at(es, g, k, m, l).den as int,
                                    b.num as int,
                                    b.den as int,
                                    c.num as int,
                                    c.den as int,
                                );
                            }
                        }
                    } else {
                        assert(is_boundary(es, kb, m));
                        assert forall|k: int| #[trigger] is_boundary(es, k, m) implies !ratio_gt(
                            boundary_at(es, g, k, m, l).num as int,
                            boundary_at(es, g, k, m, l).den as int,
                            b.num as int,
                            b.den as int,
                        ) by {
                            if k < n {
                                assert(is_boundary(dl, k, m));
                            }
                        }
                    }
                },
                None => {
                    assert forall|k: int| #[trigger] is_boundary(es, k, m) implies k == n by {
                        if k < n {
                            assert(is_boundary(dl, k, m));
                        }
                    }
                },
            }
        } else {
            assert forall|k: int| #[trigger] is_boundary(es, k, m) implies is_boundary(dl, k, m) by {}
            if s.best is Some {
                let b = s.best->0;
                let kb = choose|k: int| #[trigger] is_boundary(dl, k, m) && b == boundary_at(dl, g, k, m, l);
                assert(is_boundary(es, kb, m));
            }
        }
    }
}

proof fn lemma_prefix_bound(es: Seq<SortedEntry>, g: Seq<i64>, k: int)
    requires
        0 <= k <= es.len(),
        grads_bounded(g),
        forall|i: int| 0 <= i < es.len() ==> (#[trigger] es[i]).doc_id < g.len(),
    ensures
        -(k * MAX_GRAD) <= prefix_sum(es, g, k) <= k * MAX_GRAD,
    decreases k,
{
    if k > 0 {
        lemma_prefix_bound(es, g, k - 1);
        assert(es[k - 1].doc_id < g.len());
    }
}

proof fn lemma_prefix_same(a: Seq<SortedEntry>, b: Seq<SortedEntry>, g: Seq<i64>, k: int)
    requires
        k <= a.len(),
        k <= b.len(),
        forall|j: int| 0 <= j < k ==> #[trigger] a[j] == b[j],
    ensures
        prefix_sum(a, g, k) == prefix_sum(b, g, k),
    decreases k,
{
    if k > 0 {
        lemma_prefix_same(a, b, g, k - 1);
    }
}

/// One node of the tree, stored in level order.
#[derive(Clone, Copy, Debug, PartialEq, Eq)]
pub struct TreeNode {
    /// The feature the node splits on; `None` for a leaf.
    pub feature_id: Option<usize>,
    /// Twice the split threshold: a document goes left when `2 * value < split2`.
    pub split2: i128,
    /// The prediction: average gradient of the node's documents.
    pub label: i64,
    pub count: u64,
    pub grad_sum: i64,
    pub gain: u128,
}

/// A node before the build reaches it.
pub open spec fn empty_node() -> TreeNode {
    TreeNode { feature_id: None, split2: 0, label: 0, count: 0, grad_sum: 0, gain: 0 }
}

/// A regression tree of fixed depth with its build state.
pub struct Tree {
    pub depth: usize,
    pub node_num: usize,
    pub doc_num: usize,
    pub fea_num: usize,
    /// Nodes holding fewer documents than this are never split.
    pub min_split_count: u64,
    pub nodes: Vec<TreeNode>,
    /// The node each document is assigned to.
    pub node_idx: Vec<usize>,
    /// Statistics of node `n` for feature `f` at index `n * fea_num + f`.
    pub stats: Vec<SplitStats>,
    /// Sum of the gains of the splits on each feature.
    pub fea_significance: Vec<u128>,
}

proof fn lemma_slot(n: int, h: int, nn: int, ff: int)
    requires
        0 <= n < nn,
        0 <= h < ff,
    ensures
        0 <= n * ff + h < nn * ff,
{
    assert(0 <= n * ff + h < nn * ff) by (nonlinear_arith)
        requires
            0 <= n < nn,
            0 <= h < ff,
    ;
}

proof fn lemma_slot_ne(n1: int, h1: int, n2: int, h2: int, ff: int)
    requires
        0 <= n1,
        0 <= n2,
        0 <= h1 < ff,
        0 <= h2 < ff,
        n1 != n2 || h1 != h2,
    ensures
        n1 * ff + h1 != n2 * ff + h2,
{
    if n1 == n2 {
    } else if n1 < n2 {
        assert(n1 * ff + h1 < n2 * ff + h2) by (nonlinear_arith)
            requires
                0 <= n1 < n2,
                0 <= h1 < ff,
                0 <= h2,
        ;
    } else {
        assert(n2 * ff + h2 < n1 * ff + h1) by (nonlinear_arith)
            requires
                0 <= n2 < n1,
                0 <= h2 < ff,
                0 <= h1,
        ;
    }
}

proof fn lemma_entries_in_range(col: Seq<SortedEntry>, assign: Seq<usize>, n: int, bound: int)
    requires
        forall|k: int| 0 <= k < col.len() ==> (#[trigger] col[k]).doc_id < bound,
    ensures
        node_entries(col, assign, n).len() <= col.len(),
        forall|k: int|
            0 <= k < node_entries(col, assign, n).len() ==> (#[trigger] node_entries(col, assign, n)[k]).doc_id
                < bound,
    decreases col.len(),
{
    reveal(Seq::filter);
    if col.len() > 0 {
        lemma_entries_in_range(col.drop_last(), assign, n, bound);
        assert(col.last() == col[col.len() - 1]);
    }
}

/// The best candidate among features `[0, k)` of the statistics starting at
/// `base`: the highest score, the lowest feature id among equal scores.
pub open spec fn best_feature(stats: Seq<SplitStats>, base: int, k: int) -> Option<(usize, Candidate)>
    decreases k,
{
    if k <= 0 {
        None
    } else {
        let prev = best_feature(stats, base, k - 1);
        match stats[base + k - 1].best {
            Some(c) => if improves(
                c,
                match prev {
                    Some(p) => Some(p.1),
                    None => None,
                },
            ) {
                Some(((k - 1) as usize, c))
            } else {
                prev
            },
            None => prev,
        }
    }
}

/// The split of node `n` holding `count` documents: none below `min_count`
/// documents, else the best candidate over all features.
pub open spec fn decide(stats: Seq<SplitStats>, n: int, fea_num: int, count: int, min_count: int) -> Option<(usize, Candidate)> {
    if count < min_count {
        None
    } else {
        best_feature(stats, n * fea_num, fea_num)
    }
}

/// The node carries decision `d`.
pub open spec fn carries(node: TreeNode, d: Option<(usize, Candidate)>) -> bool {
    match d {
        None => node.feature_id is None && node.split2 == 0,
        Some(p) => node.feature_id == Some(p.0) && node.split2 == p.1.split2,
    }
}

/// Number of the first `k` documents assigned to node `n`.
pub open spec fn count_at(a: Seq<usize>, n: int, k: int) -> int
    decreases k,
{
    if k <= 0 {
        0
    } else {
        count_at(a, n, k - 1) + if a[k - 1] == n { 1int } else { 0int }
    }
}

/// Gradient sum of the first `k` documents assigned to node `n`.
pub open spec fn sum_at(a: Seq<usize>, g: Seq<i64>, n: int, k: int) -> int
    decreases k,
{
    if k <= 0 {
        0
    } else {
        sum_at(a, g, n, k - 1) + if a[k - 1] == n { g[k - 1] as int } else { 0int }
    }
}

/// Sum of the gains of the splits on feature `f` among nodes `[0, k)`.
pub open spec fn importance_at(nodes: Seq<TreeNode>, f: int, k: int) -> int
    decreases k,
{
    if k <= 0 {
        0
    } else {
        importance_at(nodes, f, k - 1) + if nodes[k - 1].feature_id == Some(f as usize) {
            nodes[k - 1].gain as int
        } else {
            0int
        }
    }
}

proof fn lemma_count_bounds(a: Seq<usize>, g: Seq<i64>, n: int, k: int)
    requires
        0 <= k <= a.len(),
        k <= g.len(),
        grads_bounded(g),
    ensures
        0 <= count_at(a, n, k) <= k,
        -(count_at(a, n, k) * MAX_GRAD) <= sum_at(a, g, n, k) <= count_at(a, n, k) * MAX_GRAD,
    decreases k,
{
    if k > 0 {
        lemma_count_bounds(a, g, n, k - 1);
    }
}

/// Counts over the first `k` documents agree when the two assignments agree
/// on which of them sit at node `n`.
proof fn lemma_count_same(a: Seq<usize>, b: Seq<usize>, g: Seq<i64>, n: int, k: int)
    requires
        0 <= k <= a.len(),
        k <= b.len(),
        forall|j: int| 0 <= j < k ==> (a[j] == n <==> b[j] == n),
    ensures
        count_at(a, n, k) == count_at(b, n, k),
        sum_at(a, g, n, k) == sum_at(b, g, n, k),
    decreases k,
{
    if k > 0 {
        lemma_count_same(a, b, g, n, k - 1);
    }
}

/// Splitting node `n` into `l` and `r` keeps its documents and their gradients.
proof fn lemma_count_split(a: Seq<usize>, b: Seq<usize>, g: Seq<i64>, n: int, l: int, r: int, k: int)
    requires
        0 <= k <= a.len(),
        k <= b.len(),
        l != r,
        forall|j: int| 0 <= j < k ==> (a[j] == n <==> (b[j] == l || b[j] == r)),
    ensures
        count_at(a, n, k) == count_at(b, l, k) + count_at(b, r, k),
        sum_at(a, g, n, k) == sum_at(b, g, l, k) + sum_at(b, g, r, k),
    decreases k,
{
    if k > 0 {
        lemma_count_split(a, b, g, n, l, r, k - 1);
    }
}

/// Where a document of node `n` with feature values `values` goes: to the
/// left child when its value is below the threshold, else to the right child;
/// it stays at `n` when `n` is a leaf.
pub open spec fn routed(node: TreeNode, n: int, values: Seq<i64>) -> int {
    match node.feature_id {
        Some(f) => if 2 * values[f as int] < node.split2 {
            2 * n + 1
        } else {
            2 * n + 2
        },
        None => n,
    }
}

/// The node's split feature, if any, is below `fea_num`.
pub open spec fn feature_below(node: TreeNode, fea_num: int) -> bool {
    node.feature_id matches Some(f) ==> f < fea_num
}

proof fn lemma_importance_frame(a: Seq<TreeNode>, b: Seq<TreeNode>, f: int, k: int)
    requires
        0 <= k <= a.len(),
        k <= b.len(),
        forall|j: int| 0 <= j < k ==> #[trigger] a[j] == b[j],
    ensures
        importance_at(a, f, k) == importance_at(b, f, k),
    decreases k,
{
    if k > 0 {
        lemma_importance_frame(a, b, f, k - 1);
    }
}

/// The children of split node `n` carry their average gradients and `n`
/// carries the gain of the split.
pub open spec fn labelled(nodes: Seq<TreeNode>, n: int) -> bool {
    let l = nodes[2 * n + 1];
    let r = nodes[2 * n + 2];
    &&& l.label == leaf_weight(l.grad_sum as int, l.count as int)
    &&& r.label == leaf_weight(r.grad_sum as int, r.count as int)
    &&& nodes[n].gain == gain_of(l.count as int, l.grad_sum as int, r.count as int, r.grad_sum as int)
}

/// Node `m` once `label_level` has handled the split nodes in `[start, k)`
/// of `nodes`: a split node gains its split's gain, each of its children
/// its average gradient as label.
pub open spec fn after_labels(nodes: Seq<TreeNode>, start: int, k: int, m: int) -> TreeNode {
    let p = (m - 1) / 2;
    if start <= m < k && nodes[m].feature_id is Some {
        TreeNode {
            gain: gain_of(
                nodes[2 * m + 1].count as int,
                nodes[2 * m + 1].grad_sum as int,
                nodes[2 * m + 2].count as int,
                nodes[2 * m + 2].grad_sum as int,
            ) as u128,
            ..nodes[m]
        }
    } else if m >= 1 && start <= p < k && nodes[p].feature_id is Some {
        TreeNode { label: leaf_weight(nodes[m].grad_sum as int, nodes[m].count as int) as i64, ..nodes[m] }
    } else {
        nodes[m]
    }
}

proof fn lemma_after_labels_untouched(nodes: Seq<TreeNode>, start: int, end: int, n: int)
    requires
        end == 2 * start + 1,
        start <= n < end,
        2 * end + 1 <= nodes.len(),
    ensures
        after_labels(nodes, start, n, n) == nodes[n],
        after_labels(nodes, start, n, 2 * n + 1) == nodes[2 * n + 1],
        after_labels(nodes, start, n, 2 * n + 2) == nodes[2 * n + 2],
{
    assert((2 * n + 1 - 1) / 2 == n);
    assert((2 * n + 2 - 1) / 2 == n);
    assert(n >= 1 ==> (n - 1) / 2 < start) by {
        if n >= 1 {
            assert((n - 1) / 2 <= (n - 1) / 2);
        }
    }
}

proof fn lemma_after_labels_step(old_nodes: Seq<TreeNode>, pre: Seq<TreeNode>, post: Seq<TreeNode>, start: int, end: int, n: int)
    requires
        end == 2 * start + 1,
        start <= n < end,
        2 * end + 1 <= old_nodes.len(),
        pre.len() == old_nodes.len(),
        forall|m: int| 0 <= m < pre.len() ==> #[trigger] pre[m] == after_labels(old_nodes, start, n, m),
        post.len() == pre.len(),
        post[n] == after_labels(old_nodes, start, n + 1, n),
        post[2 * n + 1] == after_labels(old_nodes, start, n + 1, 2 * n + 1),
        post[2 * n + 2] == after_labels(old_nodes, start, n + 1, 2 * n + 2),
        forall|m: int| 0 <= m < pre.len() && m != n && m != 2 * n + 1 && m != 2 * n + 2 ==> #[trigger] post[m] == pre[m],
    ensures
        forall|m: int| 0 <= m < post.len() ==> #[trigger] post[m] == after_labels(old_nodes, start, n + 1, m),
{
    assert forall|m: int| 0 <= m < post.len() implies #[trigger] post[m] == after_labels(old_nodes, start, n + 1, m) by {
        if m != n && m != 2 * n + 1 && m != 2 * n + 2 {
            assert(pre[m] == after_labels(old_nodes, start, n, m));
            if m >= 1 {
                assert((m - 1) / 2 != n);
            }
        }
    }
}

/// The two children of node `n` hold at most `MAX_DOCS` documents together.
pub open spec fn children_fit(nodes: Seq<TreeNode>, n: int) -> bool {
    nodes[2 * n + 1].count + nodes[2 * n + 2].count <= MAX_DOCS
}

/// A leaf's count and gradient sum are those of the documents assigned to it.
pub open spec fn at_rest(nodes: Seq<TreeNode>, a: Seq<usize>, g: Seq<i64>, n: int) -> bool {
    nodes[n].count == count_at(a, n, a.len() as int) && nodes[n].grad_sum == sum_at(a, g, n, a.len() as int)
}

/// A split node keeps its documents and gradients in its two children,
/// both non-empty, which carry their average gradients, and it carries its gain.
pub open spec fn split_ok(nodes: Seq<TreeNode>, n: int, fea_num: int) -> bool {
    nodes[n].feature_id matches Some(f) ==> {
        &&& f < fea_num
        &&& nodes[n].count == nodes[2 * n + 1].count + nodes[2 * n + 2].count
        &&& nodes[n].grad_sum == nodes[2 * n + 1].grad_sum + nodes[2 * n + 2].grad_sum
        &&& nodes[2 * n + 1].count > 0
        &&& nodes[2 * n + 2].count > 0
        &&& labelled(nodes, n)
    }
}

/// The node's count is at most `doc_num`, its gradient sum within
/// `MAX_GRAD` per document.
pub open spec fn sized(node: TreeNode, doc_num: int) -> bool {
    node.count <= doc_num && -(node.count * MAX_GRAD) <= node.grad_sum <= node.count * MAX_GRAD
}

proof fn lemma_best_feature_below(stats: Seq<SplitStats>, base: int, k: int)
    ensures
        best_feature(stats, base, k) matches Some(p) ==> p.0 < k,
    decreases k,
{
    if k > 0 {
        lemma_best_feature_below(stats, base, k - 1);
    }
}

proof fn lemma_best_feature_frame(s: Seq<SplitStats>, t: Seq<SplitStats>, base: int, k: int)
    requires
        forall|h: int| 0 <= h < k ==> #[trigger] s[base + h] == t[base + h],
    ensures
        best_feature(s, base, k) == best_feature(t, base, k),
    decreases k,
{
    if k > 0 {
        assert(s[base + (k - 1)] == t[base + (k - 1)]);
        lemma_best_feature_frame(s, t, base, k - 1);
    }
}

/// `2^k`.
pub open spec fn pow2(k: nat) -> nat
    decreases k,
{
    if k == 0 {
        1
    } else {
        2 * pow2((k - 1) as nat)
    }
}

proof fn lemma_pow2_29()
    ensures
        pow2(29) == 0x2000_0000,
{
    reveal_with_fuel(pow2, 30);
}

proof fn lemma_pow2_mono(a: nat, b: nat)
    requires
        a <= b,
    ensures
        pow2(a) <= pow2(b),
    decreases b,
{
    if a < b {
        lemma_pow2_mono(a, (b - 1) as nat);
    }
}

/// Sum of the first `k` gradients.
pub open spec fn grad_total(g: Seq<i64>, k: int) -> int
    decreases k,
{
    if k <= 0 {
        0
    } else {
        grad_total(g, k - 1) + g[k - 1] as int
    }
}

/// A feature on which all of a node's documents share one value offers no
/// boundary, so its scan yields no candidate and the node is never split on it.
pub proof fn lemma_constant_feature_no_candidate(es: Seq<SortedEntry>, g: Seq<i64>, m: int, l: int)
    requires
        forall|i: int, j: int| 0 <= i < es.len() && 0 <= j < es.len() ==> #[trigger] es[i].value == #[trigger] es[j].value,
    ensures
        scan(es, g, m, l).best is None,
        es.len() > 0 ==> scan(es, g, m, l).last_value == Some(es[0].value),
    decreases es.len(),
{
    if es.len() > 0 {
        let rest = es.drop_last();
        assert forall|i: int, j: int| 0 <= i < rest.len() && 0 <= j < rest.len() implies #[trigger] rest[i].value == #[trigger] rest[j].value by {
            assert(es[i].value == es[j].value);
        }
        lemma_constant_feature_no_candidate(rest, g, m, l);
        assert(es.last().value == es[0].value) by {
            assert(es[es.len() - 1].value == es[0].value);
        }
        if rest.len() > 0 {
            assert(rest[0] == es[0]);
        }
    }
}

/// Best-feature selection picks, among the features with a candidate, one
/// whose candidate no other feature's candidate beats, and finds one exactly
/// when some feature has a candidate.
pub proof fn lemma_best_feature_is_best(stats: Seq<SplitStats>, base: int, k: int)
    requires
        0 <= k <= usize::MAX,
        forall|h: int| 0 <= h < k ==> bounded_best(#[trigger] stats[base + h]),
    ensures
        best_feature(stats, base, k) is None <==> forall|h: int| 0 <= h < k ==> (#[trigger] stats[base + h]).best is None,
        best_feature(stats, base, k) matches Some(p) ==> {
            &&& p.0 < k
            &&& stats[base + p.0].best == Some(p.1)
            &&& forall|h: int|
                0 <= h < k && (#[trigger] stats[base + h]).best is Some ==> !ratio_gt(
                    stats[base + h].best->0.num as int,
                    stats[base + h].best->0.den as int,
                    p.1.num as int,
                    p.1.den as int,
                )
        },
    decreases k,
{
    if k > 0 {
        lemma_best_feature_is_best(stats, base, k - 1);
        let prev = best_feature(stats, base, k - 1);
        let last = stats[base + (k - 1)];
        assert(stats[base + k - 1] == last);
        match last.best {
            Some(c) => {
                if improves(
                    c,
                    match prev {
                        Some(p) => Some(p.1),
                        None => None,
                    },
                ) {
                    if prev is Some {
                        let p = prev->0;
                        assert(stats[base + p.0].best == Some(p.1));
                        assert forall|h: int|
                            0 <= h < k && (#[trigger] stats[base + h]).best is Some implies !ratio_gt(
                            stats[base + h].best->0.num as int,
                            stats[base + h].best->0.den as int,
                            c.num as int,
                            c.den as int,
                        ) by {
                            if h < k - 1 {
                                lemma_ratio_chain(
                                    stats[base + h].best->0.num as int,
                                    stats[base + h].best->0.den as int,
                                    p.1.num as int,
                                    p.1.den as int,
                                    c.num as int,
                                    c.den as int,
                                );
                            }
                        }
                    } else {
                        assert forall|h: int|
                            0 <= h < k && (#[trigger] stats[base + h]).best is Some implies h == k - 1 by {}
                    }
                }
            },
            None => {},
        }
    }
}

/// A feature none of whose statistics at a node holds a candidate is never
/// the feature that node splits on.
pub proof fn lemma_no_candidate_not_chosen(stats: Seq<SplitStats>, base: int, k: int, f: int)
    requires
        0 <= f < k <= usize::MAX,
        stats[base + f].best is None,
    ensures
        best_feature(stats, base, k) matches Some(p) ==> p.0 != f,
    decreases k,
{
    if k - 1 > f {
        lemma_no_candidate_not_chosen(stats, base, k - 1, f);
        lemma_best_feature_below(stats, base, k - 1);
    } else {
        lemma_best_feature_below(stats, base, k - 1);
    }
}

/// Node `x` lies in the subtree rooted at node `n` (level-order indices).
pub open spec fn in_subtree(x: int, n: int) -> bool
    decreases x,
{
    if x <= n || x <= 0 {
        x == n
    } else {
        in_subtree((x - 1) / 2, n)
    }
}

/// Node `m` is the child that its parent's split sends a document with
/// feature values `values` to.
pub open spec fn routes(nodes: Seq<TreeNode>, m: int, values: Seq<i64>) -> bool {
    let p = (m - 1) / 2;
    m >= 1 && nodes[p].feature_id is Some && routed(nodes[p], p, values) == m
}

/// The entries of a sorted column whose documents end in the subtree of `n`.
pub open spec fn subtree_entries(col: Seq<SortedEntry>, a: Seq<usize>, n: int) -> Seq<SortedEntry> {
    col.filter(|e: SortedEntry| in_subtree(a[e.doc_id as int] as int, n))
}

proof fn lemma_subtree_deeper(x: int, n: int)
    requires
        0 <= n,
        in_subtree(x, n),
        x != n,
    ensures
        x >= 2 * n + 1,
    decreases x,
{
    let p = (x - 1) / 2;
    if p != n {
        lemma_subtree_deeper(p, n);
    }
}

proof fn lemma_subtree_child(p: int, c: int, n: int)
    requires
        0 <= p,
        c == 2 * p + 1 || c == 2 * p + 2,
        n < c,
    ensures
        in_subtree(c, n) == in_subtree(p, n),
{
    assert((c - 1) / 2 == p);
}

proof fn lemma_subtree_entries_same(col: Seq<SortedEntry>, a: Seq<usize>, b: Seq<usize>, n: int)
    requires
        forall|i: int|
            0 <= i < col.len() ==> in_subtree(a[(#[trigger] col[i]).doc_id as int] as int, n) == in_subtree(
                b[col[i].doc_id as int] as int,
                n,
            ),
    ensures
        subtree_entries(col, a, n) == subtree_entries(col, b, n),
    decreases col.len(),
{
    reveal(Seq::filter);
    if col.len() > 0 {
        let dl = col.drop_last();
        assert forall|i: int| 0 <= i < dl.len() implies in_subtree(a[(#[trigger] dl[i]).doc_id as int] as int, n)
            == in_subtree(b[dl[i].doc_id as int] as int, n) by {
            assert(dl[i] == col[i]);
        }
        lemma_subtree_entries_same(dl, a, b, n);
        assert(col.last() == col[col.len() - 1]);
    }
}

proof fn lemma_node_entries_subtree(col: Seq<SortedEntry>, a: Seq<usize>, b: Seq<usize>, n: int)
    requires
        forall|i: int|
            0 <= i < col.len() ==> (a[(#[trigger] col[i]).doc_id as int] == n) == in_subtree(
                b[col[i].doc_id as int] as int,
                n,
            ),
    ensures
        node_entries(col, a, n) == subtree_entries(col, b, n),
    decreases col.len(),
{
    reveal(Seq::filter);
    if col.len() > 0 {
        let dl = col.drop_last();
        assert forall|i: int| 0 <= i < dl.len() implies (a[(#[trigger] dl[i]).doc_id as int] == n) == in_subtree(
            b[dl[i].doc_id as int] as int,
            n,
        ) by {
            assert(dl[i] == col[i]);
        }
        lemma_node_entries_subtree(dl, a, b, n);
        assert(col.last() == col[col.len() - 1]);
    }
}

proof fn lemma_node_entries_props(col: Seq<SortedEntry>, a: Seq<usize>, n: int, values: Seq<Vec<i64>>, f: int)
    requires
        forall|i: int|
            #![trigger col[i]]
            0 <= i < col.len() ==> col[i].doc_id < values.len() && col[i].value == values[col[i].doc_id as int]@[f],
    ensures
        forall|i: int|
            #![trigger node_entries(col, a, n)[i]]
            0 <= i < node_entries(col, a, n).len() ==> node_entries(col, a, n)[i].doc_id < values.len()
                && a[node_entries(col, a, n)[i].doc_id as int] == n && node_entries(col, a, n)[i].value
                == values[node_entries(col, a, n)[i].doc_id as int]@[f],
    decreases col.len(),
{
    reveal(Seq::filter);
    if col.len() > 0 {
        let dl = col.drop_last();
        assert forall|i: int|
            #![trigger dl[i]]
            0 <= i < dl.len() implies dl[i].doc_id < values.len() && dl[i].value == values[dl[i].doc_id as int]@[f] by {
            assert(dl[i] == col[i]);
        }
        lemma_node_entries_props(dl, a, n, values, f);
        let last = col[col.len() - 1];
        assert(col.last() == last);
        let es = node_entries(col, a, n);
        let ed = node_entries(dl, a, n);
        assert(dl =~= col.drop_last());
        assert(es == (if a[last.doc_id as int] == n { ed.push(last) } else { ed }));
        assert forall|i: int|
            #![trigger es[i]]
            0 <= i < es.len() implies es[i].doc_id < values.len() && a[es[i].doc_id as int] == n && es[i].value
                == values[es[i].doc_id as int]@[f] by {
            if i < ed.len() {
                assert(es[i] == ed[i]);
            } else {
                assert(es[i] == last);
            }
        }
    }
}

proof fn lemma_count_pos(a: Seq<usize>, n: int, j: int, k: int)
    requires
        0 <= j < k <= a.len(),
        a[j] == n,
    ensures
        count_at(a, n, k) >= 1,
    decreases k,
{
    if j < k - 1 {
        lemma_count_pos(a, n, j, k - 1);
    }
    lemma_count_nonneg(a, n, k - 1);
}

proof fn lemma_count_nonneg(a: Seq<usize>, n: int, k: int)
    ensures
        count_at(a, n, k) >= 0,
    decreases k,
{
    if k > 0 {
        lemma_count_nonneg(a, n, k - 1);
    }
}

/// Number of the first `k` documents whose node lies in the subtree of `n`.
pub open spec fn count_sub(a: Seq<usize>, n: int, k: int) -> int
    decreases k,
{
    if k <= 0 {
        0
    } else {
        count_sub(a, n, k - 1) + if in_subtree(a[k - 1] as int, n) { 1int } else { 0int }
    }
}

/// Gradient sum of the first `k` documents whose node lies in the subtree of `n`.
pub open spec fn sum_sub(a: Seq<usize>, g: Seq<i64>, n: int, k: int) -> int
    decreases k,
{
    if k <= 0 {
        0
    } else {
        sum_sub(a, g, n, k - 1) + if in_subtree(a[k - 1] as int, n) { g[k - 1] as int } else { 0int }
    }
}

proof fn lemma_at_is_sub(a: Seq<usize>, b: Seq<usize>, g: Seq<i64>, n: int, k: int)
    requires
        0 <= k <= a.len(),
        k <= b.len(),
        forall|j: int| 0 <= j < k ==> (a[j] == n) == #[trigger] in_subtree(b[j] as int, n),
    ensures
        count_at(a, n, k) == count_sub(b, n, k),
        sum_at(a, g, n, k) == sum_sub(b, g, n, k),
    decreases k,
{
    if k > 0 {
        assert((a[k - 1] == n) == in_subtree(b[k - 1] as int, n));
        lemma_at_is_sub(a, b, g, n, k - 1);
    }
}

proof fn lemma_sub_same(a: Seq<usize>, b: Seq<usize>, g: Seq<i64>, n: int, k: int)
    requires
        0 <= k <= a.len(),
        k <= b.len(),
        forall|j: int| 0 <= j < k ==> in_subtree(a[j] as int, n) == #[trigger] in_subtree(b[j] as int, n),
    ensures
        count_sub(a, n, k) == count_sub(b, n, k),
        sum_sub(a, g, n, k) == sum_sub(b, g, n, k),
    decreases k,
{
    if k > 0 {
        assert(in_subtree(a[k - 1] as int, n) == in_subtree(b[k - 1] as int, n));
        lemma_sub_same(a, b, g, n, k - 1);
    }
}

proof fn lemma_subtree_entries_values(col: Seq<SortedEntry>, a: Seq<usize>, n: int, values: Seq<Vec<i64>>, f: int)
    requires
        forall|i: int|
            #![trigger col[i]]
            0 <= i < col.len() ==> col[i].doc_id < values.len() && col[i].value == values[col[i].doc_id as int]@[f],
    ensures
        forall|i: int|
            #![trigger subtree_entries(col, a, n)[i]]
            0 <= i < subtree_entries(col, a, n).len() ==> subtree_entries(col, a, n)[i].doc_id < values.len()
                && subtree_entries(col, a, n)[i].value == values[subtree_entries(col, a, n)[i].doc_id as int]@[f],
    decreases col.len(),
{
    reveal(Seq::filter);
    if col.len() > 0 {
        let dl = col.drop_last();
        assert forall|i: int|
            #![trigger dl[i]]
            0 <= i < dl.len() implies dl[i].doc_id < values.len() && dl[i].value == values[dl[i].doc_id as int]@[f] by {
            assert(dl[i] == col[i]);
        }
        lemma_subtree_entries_values(dl, a, n, values, f);
        let last = col[col.len() - 1];
        assert(col.last() == last);
        let es = subtree_entries(col, a, n);
        let ed = subtree_entries(dl, a, n);
        assert(es == (if in_subtree(a[last.doc_id as int] as int, n) { ed.push(last) } else { ed }));
        assert forall|i: int|
            #![trigger es[i]]
            0 <= i < es.len() implies es[i].doc_id < values.len() && es[i].value == values[es[i].doc_id as int]@[f] by {
            if i < ed.len() {
                assert(es[i] == ed[i]);
            } else {
                assert(es[i] == last);
            }
        }
    }
}

proof fn lemma_subtree_root(x: int)
    requires
        x >= 0,
    ensures
        in_subtree(x, 0),
    decreases x,
{
    if x > 0 {
        lemma_subtree_root((x - 1) / 2);
    }
}

proof fn lemma_subtree_below(x: int, p: int)
    requires
        0 <= p,
        in_subtree(x, p),
        x != p,
    ensures
        in_subtree(x, 2 * p + 1) || in_subtree(x, 2 * p + 2),
    decreases x,
{
    let q = (x - 1) / 2;
    if q != p {
        lemma_subtree_below(q, p);
        lemma_subtree_deeper(q, p);
    }
}

proof fn lemma_subtree_parent(x: int, n: int)
    requires
        1 <= n,
        in_subtree(x, n),
    ensures
        in_subtree(x, (n - 1) / 2),
    decreases x,
{
    let p = (n - 1) / 2;
    if x != n {
        lemma_subtree_deeper(x, n);
        assert(in_subtree((x - 1) / 2, n));
        lemma_subtree_parent((x - 1) / 2, n);
        assert(in_subtree(x, p) == in_subtree((x - 1) / 2, p));
    } else {
        assert(in_subtree(p, p));
        assert(in_subtree(n, p) == in_subtree((n - 1) / 2, p));
    }
}

/// An unsplit node has no threshold and no gain.
pub open spec fn unsplit_clear(node: TreeNode) -> bool {
    node.feature_id is None ==> node.gain == 0 && node.split2 == 0
}

/// A child of an unsplit node stays empty.
pub open spec fn leaf_child_empty(nodes: Seq<TreeNode>, n: int) -> bool {
    nodes[(n - 1) / 2].feature_id is None ==> nodes[n] == empty_node()
}

proof fn lemma_scan_no_docs(es: Seq<SortedEntry>, g: Seq<i64>, l: int)
    ensures
        scan(es, g, 0, l).best is None,
    decreases es.len(),
{
    if es.len() > 0 {
        lemma_scan_no_docs(es.drop_last(), g, l);
    }
}

proof fn lemma_count_zero(a: Seq<usize>, g: Seq<i64>, n: int, k: int)
    requires
        0 <= k <= a.len(),
        forall|j: int| 0 <= j < k ==> #[trigger] a[j] != n,
    ensures
        count_at(a, n, k) == 0,
        sum_at(a, g, n, k) == 0,
    decreases k,
{
    if k > 0 {
        lemma_count_zero(a, g, n, k - 1);
    }
}

/// Index of the statistics of node `n` for feature `f`.
pub open spec fn slot(n: int, f: int, fea_num: int) -> int {
    n * fea_num + f
}

impl Tree {
    /// The lengths of the tree's arrays agree with its sizes.
    pub open spec fn shape(&self) -> bool {
        &&& self.nodes@.len() == self.node_num
        &&& self.node_idx@.len() == self.doc_num
        &&& self.stats@.len() == self.node_num * self.fea_num
        &&& self.node_num * self.fea_num <= usize::MAX
        &&& self.fea_significance@.len() == self.fea_num
        &&& self.doc_num <= MAX_DOCS
    }

    /// Scans feature `f`'s sorted column once and updates, for every node in
    /// `[start, end)`, that node's statistics for `f` with the documents
    /// assigned to it, in ascending order of value.
    pub fn find_best_split_one_feature(
        &mut self,
        data: &Data,
        g: &Vec<i64>,
        f: usize,
        start: usize,
        end: usize,
    )
        requires
            old(self).shape(),
            data.wf(),
            data.doc_num == old(self).doc_num,
            data.fea_num == old(self).fea_num,
            g@.len() == old(self).doc_num,
            grads_bounded(g@),
            f < old(self).fea_num,
            start <= end <= old(self).node_num,
            forall|d: int| 0 <= d < old(self).doc_num ==> #[trigger] old(self).node_idx@[d] < old(self).node_num,
            forall|n: int| start <= n < end ==> #[trigger] old(self).stats@[slot(n, f as int, old(self).fea_num as int)] == init_stats(),
            forall|n: int|
                start <= n < end ==> (#[trigger] old(self).nodes@[n]).count <= MAX_DOCS && -MAX_SUM
                    <= old(self).nodes@[n].grad_sum <= MAX_SUM,
        ensures
            final(self).shape(),
            final(self).nodes@ == old(self).nodes@,
            final(self).node_idx@ == old(self).node_idx@,
            final(self).fea_significance@ == old(self).fea_significance@,
            final(self).depth == old(self).depth,
            final(self).node_num == old(self).node_num,
            final(self).doc_num == old(self).doc_num,
            final(self).fea_num == old(self).fea_num,
            final(self).min_split_count == old(self).min_split_count,
            forall|n: int|
                start <= n < end ==> #[trigger] final(self).stats@[slot(n, f as int, old(self).fea_num as int)] == scan(
                    node_entries(data.sorted@[f as int]@, old(self).node_idx@, n),
                    g@,
                    old(self).nodes@[n].count as int,
                    old(self).nodes@[n].grad_sum as int,
                ),
            forall|n: int, h: int|
                0 <= n < old(self).node_num && 0 <= h < old(self).fea_num && (h != f || n < start || n
                    >= end) ==> #[trigger] final(self).stats@[slot(n, h, old(self).fea_num as int)] == old(self).stats@[slot(n, h, old(self).fea_num as int)],
            forall|n: int|
                start <= n < end ==> bounded_best(#[trigger] final(self).stats@[slot(n, f as int, old(self).fea_num as int)]),
    {
        let ghost old_stats = self.stats@;
        let ghost assign = self.node_idx@;
        let ghost col_all = data.sorted@[f as int]@;
        let col = &data.sorted[f];
        let fea_num = self.fea_num;
        let mut i: usize = 0;
        while i < self.doc_num
            invariant
                self.shape(),
                data.wf(),
                data.doc_num == self.doc_num,
                data.fea_num == self.fea_num,
                fea_num == self.fea_num,
                g@.len() == self.doc_num,
                grads_bounded(g@),
                f < self.fea_num,
                start <= end <= self.node_num,
                col@ == col_all,
                col_all.len() == self.doc_num,
                i <= self.doc_num,
                self.node_idx@ == assign,
                self.nodes == old(self).nodes,
                self.fea_significance == old(self).fea_significance,
                self.depth == old(self).depth,
                self.node_num == old(self).node_num,
                self.doc_num == old(self).doc_num,
                self.fea_num == old(self).fea_num,
                self.min_split_count == old(self).min_split_count,
                forall|d: int| 0 <= d < self.doc_num ==> #[trigger] assign[d] < self.node_num,
                forall|k: int| 0 <= k < col_all.len() ==> (#[trigger] col_all[k]).doc_id < self.doc_num,
                forall|n: int|
                    start <= n < end ==> (#[trigger] self.nodes@[n]).count <= MAX_DOCS && -MAX_SUM
                        <= self.nodes@[n].grad_sum <= MAX_SUM,
                forall|n: int|
                    start <= n < end ==> #[trigger] self.stats@[slot(n, f as int, fea_num as int)] == scan(
                        node_entries(col_all.take(i as int), assign, n),
                        g@,
                        self.nodes@[n].count as int,
                        self.nodes@[n].grad_sum as int,
                    ),
                forall|n: int, h: int|
                    0 <= n < self.node_num && 0 <= h < self.fea_num && (h != f || n < start || n >= end)
                        ==> #[trigger] self.stats@[slot(n, h, fea_num as int)] == old_stats[slot(n, h, fea_num as int)],
                forall|n: int|
                    start <= n < end ==> bounded_best(#[trigger] self.stats@[slot(n, f as int, fea_num as int)]),
            decreases self.doc_num - i,
        {
            let e = col[i];
            let n = self.node_idx[e.doc_id];
            let ghost prefix = col_all.take(i as int);
            let ghost next = col_all.take(i as int + 1);
            proof {
                assert(next.drop_last() =~= prefix);
                assert(next.last() == e);
                assert forall|m: int| start <= m < end implies node_entries(next, assign, m) == (if assign[e.doc_id as int]
                    == m {
                    node_entries(prefix, assign, m).push(e)
                } else {
                    node_entries(prefix, assign, m)
                }) by {
                    reveal(Seq::filter);
                }
            }
            if start <= n && n < end {
                proof {
                    lemma_slot(n as int, f as int, self.node_num as int, fea_num as int);
                    let es = node_entries(prefix, assign, n as int);
                    lemma_entries_in_range(prefix, assign, n as int, self.doc_num as int);
                    lemma_scan_bounds(es, g@, self.nodes@[n as int].count as int, self.nodes@[n as int].grad_sum as int);
                }
                let k = n * fea_num + f;
                let s = self.stats[k];
                let node = self.nodes[n];
                proof {
                    assert(k == slot(n as int, f as int, fea_num as int));
                    assert(s == self.stats@[slot(n as int, f as int, fea_num as int)]);
                    assert(bounded_best(s));
                    assert(node == self.nodes@[n as int]);
                }
                let mut best = s.best;
                match s.last_value {
                    Some(prev) => {
                        if prev != e.value && 0 < s.left_count && s.left_count < node.count {
                            let (num, den) = split_score(node.count, node.grad_sum, s.left_count, s.left_sum);
                            let c = Candidate { split2: prev as i128 + e.value as i128, num, den };
                            let better = match s.best {
                                None => true,
                                Some(b) => ratio_greater(num, den, b.num, b.den),
                            };
                            if better {
                                best = Some(c);
                            }
                        }
                    },
                    None => {},
                }
                let ns = SplitStats {
                    last_value: Some(e.value),
                    left_count: s.left_count + 1,
                    left_sum: s.left_sum + g[e.doc_id],
                    best,
                };
                let ghost pre = self.stats@;
                proof {
                    assert forall|m: int, h: int|
                        0 <= m < self.node_num && 0 <= h < self.fea_num && (h != f || m < start || m >= end)
                            implies #[trigger] pre[slot(m, h, fea_num as int)] == old_stats[slot(m, h, fea_num as int)] by {
                        assert(self.stats@[slot(m, h, fea_num as int)] == old_stats[slot(m, h, fea_num as int)]);
                    }
                    assert forall|m: int| start <= m < end implies #[trigger] pre[slot(m, f as int, fea_num as int)] == scan(
                        node_entries(prefix, assign, m),
                        g@,
                        self.nodes@[m].count as int,
                        self.nodes@[m].grad_sum as int,
                    ) by {
                        assert(self.stats@[slot(m, f as int, fea_num as int)] == pre[slot(m, f as int, fea_num as int)]);
                    }
                    assert forall|m: int| start <= m < end implies bounded_best(#[trigger] pre[slot(m, f as int, fea_num as int)]) by {
                        assert(self.stats@[slot(m, f as int, fea_num as int)] == pre[slot(m, f as int, fea_num as int)]);
                    }
                }
                self.stats.set(k, ns);
                proof {
                    assert forall|m: int, h: int|
                        0 <= m < self.node_num && 0 <= h < self.fea_num && (h != f || m < start || m >= end)
                            implies #[trigger] self.stats@[slot(m, h, fea_num as int)] == old_stats[slot(m, h, fea_num as int)] by {
                        lemma_slot(m, h, self.node_num as int, fea_num as int);
                        lemma_slot_ne(m, h, n as int, f as int, fea_num as int);
                        assert(self.stats@[slot(m, h, fea_num as int)] == pre[slot(m, h, fea_num as int)]);
                    }
                    assert forall|m: int| start <= m < end && m != n implies #[trigger] self.stats@[slot(m, f as int, fea_num as int)]
                        == scan(
                        node_entries(next, assign, m),
                        g@,
                        self.nodes@[m].count as int,
                        self.nodes@[m].grad_sum as int,
                    ) by {
                        lemma_slot(m, f as int, self.node_num as int, fea_num as int);
                        lemma_slot_ne(m, f as int, n as int, f as int, fea_num as int);
                        assert(self.stats@[slot(m, f as int, fea_num as int)] == pre[slot(m, f as int, fea_num as int)]);
                        assert(node_entries(next, assign, m) == node_entries(prefix, assign, m));
                    }
                    assert(node_entries(next, assign, n as int).drop_last() == node_entries(prefix, assign, n as int));
                    assert forall|m: int| start <= m < end implies bounded_best(#[trigger] self.stats@[slot(m, f as int, fea_num as int)]) by {
                        lemma_slot(m, f as int, self.node_num as int, fea_num as int);
                        if m != n {
                            lemma_slot_ne(m, f as int, n as int, f as int, fea_num as int);
                            assert(self.stats@[slot(m, f as int, fea_num as int)] == pre[slot(m, f as int, fea_num as int)]);
                        }
                    }
                }
            }
            i += 1;
        }
        assert(col_all.take(i as int) =~= col_all);
    }

    /// The split that node `n` takes: see `decide`.
    pub fn choose_split(&self, n: usize) -> (r: Option<(usize, Candidate)>)
        requires
            self.shape(),
            n < self.node_num,
            forall|h: int| 0 <= h < self.fea_num ==> bounded_best(#[trigger] self.stats@[slot(n as int, h, self.fea_num as int)]),
        ensures
            r == decide(self.stats@, n as int, self.fea_num as int, self.nodes@[n as int].count as int, self.min_split_count as int),
    {
        if self.nodes[n].count < self.min_split_count {
            return None;
        }
        let fea_num = self.fea_num;
        let mut best: Option<(usize, Candidate)> = None;
        let mut h: usize = 0;
        while h < fea_num
            invariant
                self.shape(),
                n < self.node_num,
                fea_num == self.fea_num,
                h <= fea_num,
                forall|h: int| 0 <= h < fea_num ==> bounded_best(#[trigger] self.stats@[slot(n as int, h, fea_num as int)]),
                best == best_feature(self.stats@, n * fea_num, h as int),
                best matches Some(p) ==> p.1.num < MAX_SCORE_NUM && 0 < p.1.den <= 0x1_0000_0000,
            decreases fea_num - h,
        {
            proof {
                lemma_slot(n as int, h as int, self.node_num as int, fea_num as int);
            }
            let s = self.stats[n * fea_num + h];
            proof {
                assert(bounded_best(self.stats@[slot(n as int, h as int, fea_num as int)]));
            }
            match s.best {
                Some(c) => {
                    let better = match best {
                        None => true,
                        Some(p) => ratio_greater(c.num, c.den, p.1.num, p.1.den),
                    };
                    if better {
                        best = Some((h, c));
                    }
                },
                None => {},
            }
            h += 1;
        }
        best
    }

    /// Runs `find_best_split_one_feature` for every feature over the nodes
    /// in `[start, end)`.
    pub fn scan_level(&mut self, data: &Data, g: &Vec<i64>, start: usize, end: usize)
        requires
            old(self).shape(),
            data.wf(),
            data.doc_num == old(self).doc_num,
            data.fea_num == old(self).fea_num,
            g@.len() == old(self).doc_num,
            grads_bounded(g@),
            start <= end <= old(self).node_num,
            forall|d: int| 0 <= d < old(self).doc_num ==> #[trigger] old(self).node_idx@[d] < old(self).node_num,
            forall|n: int, h: int|
                start <= n < end && 0 <= h < old(self).fea_num ==> #[trigger] old(self).stats@[slot(n, h, old(self).fea_num as int)] == init_stats(),
            forall|n: int|
                start <= n < end ==> (#[trigger] old(self).nodes@[n]).count <= MAX_DOCS && -MAX_SUM
                    <= old(self).nodes@[n].grad_sum <= MAX_SUM,
        ensures
            final(self).shape(),
            final(self).nodes@ == old(self).nodes@,
            final(self).node_idx@ == old(self).node_idx@,
            final(self).fea_significance@ == old(self).fea_significance@,
            final(self).depth == old(self).depth,
            final(self).node_num == old(self).node_num,
            final(self).doc_num == old(self).doc_num,
            final(self).fea_num == old(self).fea_num,
            final(self).min_split_count == old(self).min_split_count,
            forall|n: int, h: int|
                start <= n < end && 0 <= h < old(self).fea_num ==> #[trigger] final(self).stats@[slot(n, h, old(self).fea_num as int)] == scan(
                    node_entries(data.sorted@[h]@, old(self).node_idx@, n),
                    g@,
                    old(self).nodes@[n].count as int,
                    old(self).nodes@[n].grad_sum as int,
                ),
            forall|n: int, h: int|
                0 <= n < old(self).node_num && 0 <= h < old(self).fea_num && (n < start || n >= end)
                    ==> #[trigger] final(self).stats@[slot(n, h, old(self).fea_num as int)] == old(self).stats@[slot(n, h, old(self).fea_num as int)],
            forall|n: int, h: int|
                start <= n < end && 0 <= h < old(self).fea_num ==> bounded_best(#[trigger] final(self).stats@[slot(n, h, old(self).fea_num as int)]),
    {
        let ghost old_stats = self.stats@;
        let ghost ff = self.fea_num as int;
        let mut f: usize = 0;
        while f < self.fea_num
            invariant
                self.shape(),
                data.wf(),
                data.doc_num == self.doc_num,
                data.fea_num == self.fea_num,
                ff == self.fea_num,
                g@.len() == self.doc_num,
                grads_bounded(g@),
                start <= end <= self.node_num,
                f <= self.fea_num,
                self.nodes@ == old(self).nodes@,
                self.node_idx@ == old(self).node_idx@,
                self.fea_significance@ == old(self).fea_significance@,
                self.depth == old(self).depth,
                self.node_num == old(self).node_num,
                self.doc_num == old(self).doc_num,
                self.fea_num == old(self).fea_num,
                self.min_split_count == old(self).min_split_count,
                forall|d: int| 0 <= d < self.doc_num ==> #[trigger] self.node_idx@[d] < self.node_num,
                forall|n: int|
                    start <= n < end ==> (#[trigger] self.nodes@[n]).count <= MAX_DOCS && -MAX_SUM
                        <= self.nodes@[n].grad_sum <= MAX_SUM,
                forall|n: int, h: int|
                    start <= n < end && f <= h < ff ==> #[trigger] self.stats@[slot(n, h, ff)] == init_stats(),
                forall|n: int, h: int|
                    start <= n < end && 0 <= h < f ==> #[trigger] self.stats@[slot(n, h, ff)] == scan(
                        node_entries(data.sorted@[h]@, self.node_idx@, n),
                        g@,
                        self.nodes@[n].count as int,
                        self.nodes@[n].grad_sum as int,
                    ),
                forall|n: int, h: int|
                    start <= n < end && 0 <= h < f ==> bounded_best(#[trigger] self.stats@[slot(n, h, ff)]),
                forall|n: int, h: int|
                    0 <= n < self.node_num && 0 <= h < ff && (n < start || n >= end)
                        ==> #[trigger] self.stats@[slot(n, h, ff)] == old_stats[slot(n, h, ff)],
            decreases self.fea_num - f,
        {
            let ghost pre = self.stats@;
            proof {
                assert forall|n: int| start <= n < end implies #[trigger] self.stats@[slot(n, f as int, ff)] == init_stats() by {}
            }
            self.find_best_split_one_feature(data, g, f, start, end);
            proof {
                assert forall|n: int, h: int|
                    start <= n < end && f < h < ff implies #[trigger] self.stats@[slot(n, h, ff)] == init_stats() by {
                    assert(pre[slot(n, h, ff)] == init_stats());
                }
                assert forall|n: int, h: int|
                    start <= n < end && 0 <= h < f implies #[trigger] self.stats@[slot(n, h, ff)] == scan(
                        node_entries(data.sorted@[h]@, self.node_idx@, n),
                        g@,
                        self.nodes@[n].count as int,
                        self.nodes@[n].grad_sum as int,
                    ) && bounded_best(self.stats@[slot(n, h, ff)]) by {
                    assert(pre[slot(n, h, ff)] == self.stats@[slot(n, h, ff)]);
                }
                assert forall|n: int, h: int|
                    0 <= n < self.node_num && 0 <= h < ff && (n < start || n >= end)
                        implies #[trigger] self.stats@[slot(n, h, ff)] == old_stats[slot(n, h, ff)] by {
                    assert(pre[slot(n, h, ff)] == self.stats@[slot(n, h, ff)]);
                }
            }
            f += 1;
        }
    }

    /// Gives every node in `[start, end)` the split that `choose_split` picks.
    pub fn decide_level(&mut self, start: usize, end: usize)
        requires
            old(self).shape(),
            start <= end <= old(self).node_num,
            forall|n: int, h: int|
                start <= n < end && 0 <= h < old(self).fea_num ==> bounded_best(#[trigger] old(self).stats@[slot(n, h, old(self).fea_num as int)]),
        ensures
            final(self).shape(),
            final(self).stats@ == old(self).stats@,
            final(self).node_idx@ == old(self).node_idx@,
            final(self).fea_significance@ == old(self).fea_significance@,
            final(self).depth == old(self).depth,
            final(self).node_num == old(self).node_num,
            final(self).doc_num == old(self).doc_num,
            final(self).fea_num == old(self).fea_num,
            final(self).min_split_count == old(self).min_split_count,
            forall|n: int|
                start <= n < end ==> carries(
                    #[trigger] final(self).nodes@[n],
                    decide(old(self).stats@, n, old(self).fea_num as int, old(self).nodes@[n].count as int, old(self).min_split_count as int),
                ) && final(self).nodes@[n].count == old(self).nodes@[n].count
                    && final(self).nodes@[n].grad_sum == old(self).nodes@[n].grad_sum
                    && final(self).nodes@[n].label == old(self).nodes@[n].label
                    && final(self).nodes@[n].gain == old(self).nodes@[n].gain,
            forall|n: int|
                0 <= n < old(self).node_num && (n < start || n >= end) ==> #[trigger] final(self).nodes@[n] == old(self).nodes@[n],
    {
        let mut n: usize = start;
        while n < end
            invariant
                self.shape(),
                start <= n <= end <= self.node_num,
                self.stats@ == old(self).stats@,
                self.node_idx@ == old(self).node_idx@,
                self.fea_significance@ == old(self).fea_significance@,
                self.depth == old(self).depth,
                self.node_num == old(self).node_num,
                self.doc_num == old(self).doc_num,
                self.fea_num == old(self).fea_num,
                self.min_split_count == old(self).min_split_count,
                forall|m: int, h: int|
                    start <= m < end && 0 <= h < self.fea_num ==> bounded_best(#[trigger] self.stats@[slot(m, h, self.fea_num as int)]),
                forall|m: int|
                    start <= m < n ==> carries(
                        #[trigger] self.nodes@[m],
                        decide(old(self).stats@, m, old(self).fea_num as int, old(self).nodes@[m].count as int, old(self).min_split_count as int),
                    ) && self.nodes@[m].count == old(self).nodes@[m].count
                        && self.nodes@[m].grad_sum == old(self).nodes@[m].grad_sum
                        && self.nodes@[m].label == old(self).nodes@[m].label
                        && self.nodes@[m].gain == old(self).nodes@[m].gain,
                forall|m: int|
                    0 <= m < self.node_num && (m < start || m >= n) ==> #[trigger] self.nodes@[m] == old(self).nodes@[m],
            decreases end - n,
        {
            let choice = self.choose_split(n);
            let mut node = self.nodes[n];
            match choice {
                Some((f, c)) => {
                    node.feature_id = Some(f);
                    node.split2 = c.split2;
                },
                None => {
                    node.feature_id = None;
                    node.split2 = 0;
                },
            }
            self.nodes.set(n, node);
            n += 1;
        }
    }

    /// Moves every document of a split node in `[start, end)` to the child
    /// that its value selects, and accumulates the children's counts and
    /// gradient sums.
    pub fn reassign(&mut self, data: &Data, g: &Vec<i64>, start: usize, end: usize)
        requires
            old(self).shape(),
            data.wf(),
            data.doc_num == old(self).doc_num,
            data.fea_num == old(self).fea_num,
            g@.len() == old(self).doc_num,
            grads_bounded(g@),
            end == 2 * start + 1,
            2 * end + 1 <= old(self).node_num,
            forall|d: int| 0 <= d < old(self).doc_num ==> #[trigger] old(self).node_idx@[d] < end,
            forall|n: int|
                end <= n < 2 * end + 1 ==> (#[trigger] old(self).nodes@[n]).count == 0
                    && old(self).nodes@[n].grad_sum == 0,
            forall|n: int|
                start <= n < end ==> feature_below(#[trigger] old(self).nodes@[n], old(self).fea_num as int),
        ensures
            final(self).shape(),
            final(self).stats@ == old(self).stats@,
            final(self).fea_significance@ == old(self).fea_significance@,
            final(self).depth == old(self).depth,
            final(self).node_num == old(self).node_num,
            final(self).doc_num == old(self).doc_num,
            final(self).fea_num == old(self).fea_num,
            final(self).min_split_count == old(self).min_split_count,
            forall|d: int|
                0 <= d < old(self).doc_num ==> #[trigger] final(self).node_idx@[d] == if start <= old(self).node_idx@[d] {
                    routed(old(self).nodes@[old(self).node_idx@[d] as int], old(self).node_idx@[d] as int, data.values@[d]@)
                } else {
                    old(self).node_idx@[d] as int
                },
            forall|n: int|
                end <= n < 2 * end + 1 ==> (#[trigger] final(self).nodes@[n]).count == count_at(final(self).node_idx@, n, old(self).doc_num as int)
                    && final(self).nodes@[n].grad_sum == sum_at(final(self).node_idx@, g@, n, old(self).doc_num as int)
                    && final(self).nodes@[n].feature_id == old(self).nodes@[n].feature_id
                    && final(self).nodes@[n].split2 == old(self).nodes@[n].split2
                    && final(self).nodes@[n].label == old(self).nodes@[n].label
                    && final(self).nodes@[n].gain == old(self).nodes@[n].gain,
            forall|n: int|
                0 <= n < old(self).node_num && (n < end || n >= 2 * end + 1) ==> #[trigger] final(self).nodes@[n] == old(self).nodes@[n],
    {
        let ghost a0 = self.node_idx@;
        let mut i: usize = 0;
        while i < self.doc_num
            invariant
                self.shape(),
                data.wf(),
                data.doc_num == self.doc_num,
                data.fea_num == self.fea_num,
                g@.len() == self.doc_num,
                grads_bounded(g@),
                end == 2 * start + 1,
                2 * end + 1 <= self.node_num,
                i <= self.doc_num,
                self.stats@ == old(self).stats@,
                self.fea_significance@ == old(self).fea_significance@,
                self.depth == old(self).depth,
                self.node_num == old(self).node_num,
                self.doc_num == old(self).doc_num,
                self.fea_num == old(self).fea_num,
                self.min_split_count == old(self).min_split_count,
                a0 == old(self).node_idx@,
                forall|d: int| 0 <= d < self.doc_num ==> #[trigger] a0[d] < end,
                forall|n: int|
                    start <= n < end ==> feature_below(#[trigger] old(self).nodes@[n], self.fea_num as int),
                forall|d: int| i <= d < self.doc_num ==> #[trigger] self.node_idx@[d] == a0[d],
                forall|d: int|
                    0 <= d < i ==> #[trigger] self.node_idx@[d] == if start <= a0[d] {
                        routed(old(self).nodes@[a0[d] as int], a0[d] as int, data.values@[d]@)
                    } else {
                        a0[d] as int
                    },
                forall|n: int|
                    end <= n < 2 * end + 1 ==> (#[trigger] self.nodes@[n]).count == count_at(self.node_idx@, n, i as int)
                        && self.nodes@[n].grad_sum == sum_at(self.node_idx@, g@, n, i as int)
                        && self.nodes@[n].feature_id == old(self).nodes@[n].feature_id
                        && self.nodes@[n].split2 == old(self).nodes@[n].split2
                        && self.nodes@[n].label == old(self).nodes@[n].label
                        && self.nodes@[n].gain == old(self).nodes@[n].gain,
                forall|n: int|
                    0 <= n < self.node_num && (n < end || n >= 2 * end + 1) ==> #[trigger] self.nodes@[n] == old(self).nodes@[n],
            decreases self.doc_num - i,
        {
            let ghost pre_a = self.node_idx@;
            let n = self.node_idx[i];
            let mut target: usize = n;
            if start <= n {
                let node = self.nodes[n];
                match node.feature_id {
                    Some(f) => {
                        if 2 * (data.values[i][f] as i128) < node.split2 {
                            target = 2 * n + 1;
                        } else {
                            target = 2 * n + 2;
                        }
                    },
                    None => {},
                }
            }
            if target != n {
                proof {
                    assert forall|m: int| end <= m < 2 * end + 1 implies count_at(pre_a, m, i as int) == count_at(
                        pre_a.update(i as int, target),
                        m,
                        i as int,
                    ) && sum_at(pre_a, g@, m, i as int) == sum_at(pre_a.update(i as int, target), g@, m, i as int) by {
                        lemma_count_same(pre_a, pre_a.update(i as int, target), g@, m, i as int);
                    }
                    lemma_count_bounds(pre_a, g@, target as int, i as int);
                }
                let mut child = self.nodes[target];
                child.count = child.count + 1;
                child.grad_sum = child.grad_sum + g[i];
                self.nodes.set(target, child);
                self.node_idx.set(i, target);
            } else {
                proof {
                    assert(pre_a.update(i as int, target) =~= pre_a);
                }
            }
            proof {
                assert forall|m: int| end <= m < 2 * end + 1 implies count_at(self.node_idx@, m, i as int + 1)
                    == count_at(pre_a, m, i as int) + (if target == m { 1int } else { 0int }) by {
                    lemma_count_same(pre_a, pre_a.update(i as int, target), g@, m, i as int);
                }
            }
            i += 1;
        }
    }

    /// Labels the children of split node `n` and records the split's gain,
    /// adding it to the importance of feature `f`.
    fn label_node(&mut self, n: usize, f: usize)
        requires
            old(self).shape(),
            2 * n + 2 < old(self).node_num,
            f < old(self).fea_num,
            old(self).nodes@[n as int].feature_id == Some(f),
            old(self).nodes@[2 * n + 1].count + old(self).nodes@[2 * n + 2].count <= MAX_DOCS,
            -MAX_SUM <= old(self).nodes@[2 * n + 1].grad_sum <= MAX_SUM,
            -MAX_SUM <= old(self).nodes@[2 * n + 2].grad_sum <= MAX_SUM,
            old(self).fea_significance@[f as int] <= u128::MAX - MAX_GAIN,
        ensures
            final(self).shape(),
            final(self).stats@ == old(self).stats@,
            final(self).node_idx@ == old(self).node_idx@,
            final(self).depth == old(self).depth,
            final(self).node_num == old(self).node_num,
            final(self).doc_num == old(self).doc_num,
            final(self).fea_num == old(self).fea_num,
            final(self).min_split_count == old(self).min_split_count,
            final(self).nodes@.len() == old(self).nodes@.len(),
            final(self).nodes@[2 * n + 1] == (TreeNode {
                label: leaf_weight(old(self).nodes@[2 * n + 1].grad_sum as int, old(self).nodes@[2 * n + 1].count as int) as i64,
                ..old(self).nodes@[2 * n + 1]
            }),
            final(self).nodes@[2 * n + 2] == (TreeNode {
                label: leaf_weight(old(self).nodes@[2 * n + 2].grad_sum as int, old(self).nodes@[2 * n + 2].count as int) as i64,
                ..old(self).nodes@[2 * n + 2]
            }),
            final(self).nodes@[n as int] == (TreeNode {
                gain: gain_of(
                    old(self).nodes@[2 * n + 1].count as int,
                    old(self).nodes@[2 * n + 1].grad_sum as int,
                    old(self).nodes@[2 * n + 2].count as int,
                    old(self).nodes@[2 * n + 2].grad_sum as int,
                ) as u128,
                ..old(self).nodes@[n as int]
            }),
            final(self).nodes@[n as int].gain <= MAX_GAIN,
            forall|m: int|
                0 <= m < old(self).node_num && m != n && m != 2 * n + 1 && m != 2 * n + 2 ==> #[trigger] final(self).nodes@[m]
                    == old(self).nodes@[m],
            final(self).fea_significance@ == old(self).fea_significance@.update(
                f as int,
                (old(self).fea_significance@[f as int] + final(self).nodes@[n as int].gain) as u128,
            ),
    {
        let node = self.nodes[n];
        let mut left = self.nodes[2 * n + 1];
        let mut right = self.nodes[2 * n + 2];
        left.label = leaf_weight_of(left.grad_sum, left.count);
        right.label = leaf_weight_of(right.grad_sum, right.count);
        let gain = split_gain(left.count, left.grad_sum, right.count, right.grad_sum);
        let mut parent = node;
        parent.gain = gain;
        self.nodes.set(2 * n + 1, left);
        self.nodes.set(2 * n + 2, right);
        self.nodes.set(n, parent);
        let sig = self.fea_significance[f];
        self.fea_significance.set(f, sig + gain);
    }

    /// For every split node in `[start, end)`: labels its two children with
    /// their average gradient, records the split's gain and adds it to the
    /// importance of the split's feature.
    pub fn label_level(&mut self, start: usize, end: usize)
        requires
            old(self).shape(),
            end == 2 * start + 1,
            2 * end + 1 <= old(self).node_num,
            old(self).node_num <= 0x2000_0000,
            forall|n: int| start <= n < end ==> feature_below(#[trigger] old(self).nodes@[n], old(self).fea_num as int),
            forall|n: int|
                start <= n < end && old(self).nodes@[n].feature_id is Some ==> #[trigger] children_fit(old(self).nodes@, n),
            forall|n: int|
                end <= n < 2 * end + 1 ==> -MAX_SUM <= (#[trigger] old(self).nodes@[n]).grad_sum <= MAX_SUM,
            forall|f: int|
                0 <= f < old(self).fea_num ==> #[trigger] old(self).fea_significance@[f] <= u128::MAX - (end - start) * MAX_GAIN,
        ensures
            final(self).shape(),
            final(self).stats@ == old(self).stats@,
            final(self).node_idx@ == old(self).node_idx@,
            final(self).depth == old(self).depth,
            final(self).node_num == old(self).node_num,
            final(self).doc_num == old(self).doc_num,
            final(self).fea_num == old(self).fea_num,
            final(self).min_split_count == old(self).min_split_count,
            forall|f: int|
                0 <= f < old(self).fea_num ==> #[trigger] final(self).fea_significance@[f] == old(self).fea_significance@[f]
                    + importance_at(final(self).nodes@, f, end as int) - importance_at(old(self).nodes@, f, start as int),
            forall|f: int|
                0 <= f < old(self).fea_num ==> #[trigger] final(self).fea_significance@[f] <= old(self).fea_significance@[f] + (end - start) * MAX_GAIN,
            forall|m: int|
                0 <= m < old(self).node_num ==> #[trigger] final(self).nodes@[m] == after_labels(old(self).nodes@, start as int, end as int, m),
    {
        let ghost old_nodes = self.nodes@;
        let mut n: usize = start;
        while n < end
            invariant
                self.shape(),
                end == 2 * start + 1,
                2 * end + 1 <= self.node_num,
                self.node_num <= 0x2000_0000,
                start <= n <= end,
                old_nodes == old(self).nodes@,
                old_nodes.len() == self.node_num,
                self.stats@ == old(self).stats@,
                self.node_idx@ == old(self).node_idx@,
                self.depth == old(self).depth,
                self.node_num == old(self).node_num,
                self.doc_num == old(self).doc_num,
                self.fea_num == old(self).fea_num,
                self.min_split_count == old(self).min_split_count,
                forall|m: int| start <= m < end ==> feature_below(#[trigger] old_nodes[m], self.fea_num as int),
                forall|m: int|
                    start <= m < end && old_nodes[m].feature_id is Some ==> #[trigger] children_fit(old_nodes, m),
                forall|m: int| end <= m < 2 * end + 1 ==> -MAX_SUM <= (#[trigger] old_nodes[m]).grad_sum <= MAX_SUM,
                forall|f: int|
                    0 <= f < self.fea_num ==> #[trigger] self.fea_significance@[f] == old(self).fea_significance@[f]
                        + importance_at(self.nodes@, f, n as int) - importance_at(old_nodes, f, start as int),
                forall|f: int|
                    0 <= f < self.fea_num ==> #[trigger] self.fea_significance@[f] <= old(self).fea_significance@[f] + (n - start) * MAX_GAIN,
                forall|f: int|
                    0 <= f < self.fea_num ==> #[trigger] old(self).fea_significance@[f] <= u128::MAX - (end - start) * MAX_GAIN,
                old(self).fea_significance@.len() == self.fea_num,
                forall|m: int|
                    0 <= m < self.node_num ==> #[trigger] self.nodes@[m] == after_labels(old_nodes, start as int, n as int, m),
            decreases end - n,
        {
            let ghost pre = self.nodes@;
            let node = self.nodes[n];
            proof {
                lemma_after_labels_untouched(old_nodes, start as int, end as int, n as int);
                assert(self.nodes@[n as int] == after_labels(old_nodes, start as int, n as int, n as int));
                assert(self.nodes@[2 * n + 1] == after_labels(old_nodes, start as int, n as int, 2 * n + 1));
                assert(self.nodes@[2 * n + 2] == after_labels(old_nodes, start as int, n as int, 2 * n + 2));
            }
            match node.feature_id {
                Some(f) => {
                    proof {
                        assert(children_fit(old_nodes, n as int));
                        assert(feature_below(old_nodes[n as int], self.fea_num as int));
                        assert(self.fea_significance@[f as int] <= old(self).fea_significance@[f as int] + (n - start) * MAX_GAIN);
                        assert(old(self).fea_significance@[f as int] <= u128::MAX - (end - start) * MAX_GAIN);
                    }
                    self.label_node(n, f);
                    proof {
                        lemma_after_labels_step(old_nodes, pre, self.nodes@, start as int, end as int, n as int);
                        assert forall|h: int| 0 <= h < self.fea_num implies #[trigger] self.fea_significance@[h]
                            == old(self).fea_significance@[h] + importance_at(self.nodes@, h, n as int + 1) - importance_at(
                            old_nodes,
                            h,
                            start as int,
                        ) by {
                            lemma_importance_frame(pre, self.nodes@, h, n as int);
                        }
                    }
                },
                None => {
                    proof {
                        assert(self.nodes@ == pre);
                        lemma_after_labels_step(old_nodes, pre, self.nodes@, start as int, end as int, n as int);
                    }
                },
            }
            n += 1;
        }
    }

    /// The state between levels: the nodes of `[start, 2 * start + 1)` are
    /// the current level, not yet decided; every node above it is a leaf or a
    /// split with its children filled in; every node below it is empty.
    pub open spec fn level_inv(&self, data: &Data, g: Seq<i64>, start: int) -> bool {
        let end = 2 * start + 1;
        let a = self.node_idx@;
        let nodes = self.nodes@;
        let ff = self.fea_num as int;
        &&& self.shape()
        &&& 0 <= start
        &&& end <= self.node_num <= 0x2000_0000
        &&& g.len() == self.doc_num
        &&& grads_bounded(g)
        &&& forall|d: int|
            0 <= d < self.doc_num ==> #[trigger] a[d] < end && (a[d] < start ==> nodes[a[d] as int].feature_id is None)
        &&& forall|n: int| end <= n < self.node_num ==> #[trigger] nodes[n] == empty_node()
        &&& forall|n: int| 0 <= n < end && nodes[n].feature_id is None ==> #[trigger] at_rest(nodes, a, g, n)
        &&& forall|n: int| 0 <= n < start ==> #[trigger] split_ok(nodes, n, ff)
        &&& forall|n: int| start <= n < end ==> (#[trigger] nodes[n]).feature_id is None
        &&& forall|n: int, h: int|
            start <= n < self.node_num && 0 <= h < ff ==> #[trigger] self.stats@[slot(n, h, ff)] == init_stats()
        &&& forall|n: int| 0 <= n < self.node_num ==> #[trigger] sized(nodes[n], self.doc_num as int)
        &&& forall|n: int| 0 <= n < self.node_num ==> -MAX_SUM <= (#[trigger] nodes[n]).label <= MAX_SUM
        &&& forall|f: int|
            0 <= f < ff ==> #[trigger] self.fea_significance@[f] <= u128::MAX - (self.node_num - start) * MAX_GAIN
        &&& forall|n: int| 0 <= n < self.node_num ==> #[trigger] unsplit_clear(nodes[n])
        &&& nodes[0].label == leaf_weight(nodes[0].grad_sum as int, nodes[0].count as int)
        &&& forall|n: int| 1 <= n < self.node_num ==> #[trigger] leaf_child_empty(nodes, n)
        &&& forall|n: int|
            0 <= n < start ==> #[trigger] carries(nodes[n], decide(self.stats@, n, ff, nodes[n].count as int, self.min_split_count as int))
        &&& data.wf()
        &&& data.doc_num == self.doc_num
        &&& data.fea_num == self.fea_num
        &&& forall|n: int|
            0 <= n < end ==> (#[trigger] nodes[n]).count == count_sub(a, n, self.doc_num as int) && nodes[n].grad_sum
                == sum_sub(a, g, n, self.doc_num as int)
        &&& forall|d: int, m: int|
            0 <= d < self.doc_num && 1 <= m && #[trigger] in_subtree(a[d] as int, m) ==> routes(nodes, m, data.values@[d]@)
        &&& forall|n: int, h: int|
            0 <= n < start && 0 <= h < ff ==> #[trigger] self.stats@[slot(n, h, ff)] == scan(
                subtree_entries(data.sorted@[h]@, a, n),
                g,
                nodes[n].count as int,
                nodes[n].grad_sum as int,
            )
    }

    /// Grows the level whose nodes are `[start, 2 * start + 1)`: finds each
    /// node's best split, routes its documents to the children, and labels
    /// the children.
    #[verifier::rlimit(100)]
    pub fn split(&mut self, data: &Data, g: &Vec<i64>, start: usize)
        requires
            old(self).level_inv(data, g@, start as int),
            2 * (2 * start + 1) + 1 <= old(self).node_num,
            data.wf(),
            data.doc_num == old(self).doc_num,
            data.fea_num == old(self).fea_num,
        ensures
            final(self).level_inv(data, g@, 2 * start + 1),
            final(self).depth == old(self).depth,
            final(self).node_num == old(self).node_num,
            final(self).doc_num == old(self).doc_num,
            final(self).fea_num == old(self).fea_num,
            final(self).min_split_count == old(self).min_split_count,
            final(self).nodes@[0].count == old(self).nodes@[0].count,
            final(self).nodes@[0].grad_sum == old(self).nodes@[0].grad_sum,
            final(self).nodes@[0].label == old(self).nodes@[0].label,
            forall|d: int|
                0 <= d < old(self).doc_num ==> #[trigger] final(self).node_idx@[d] == if start <= old(self).node_idx@[d] {
                    routed(final(self).nodes@[old(self).node_idx@[d] as int], old(self).node_idx@[d] as int, data.values@[d]@)
                } else {
                    old(self).node_idx@[d] as int
                },
            forall|n: int| 0 <= n < start ==> #[trigger] final(self).nodes@[n] == old(self).nodes@[n],
            forall|n: int|
                start <= n < 2 * start + 1 ==> (#[trigger] final(self).nodes@[n]).count == old(self).nodes@[n].count
                    && final(self).nodes@[n].grad_sum == old(self).nodes@[n].grad_sum && carries(
                    final(self).nodes@[n],
                    decide(final(self).stats@, n, old(self).fea_num as int, old(self).nodes@[n].count as int, old(self).min_split_count as int),
                ),
            forall|n: int, h: int|
                0 <= n < old(self).node_num && 0 <= h < old(self).fea_num && (n < start || n >= 2 * start + 1)
                    ==> #[trigger] final(self).stats@[slot(n, h, old(self).fea_num as int)] == old(self).stats@[slot(n, h, old(self).fea_num as int)],
            forall|f: int|
                0 <= f < old(self).fea_num ==> #[trigger] final(self).fea_significance@[f] == old(self).fea_significance@[f]
                    + importance_at(final(self).nodes@, f, 2 * start + 1) - importance_at(final(self).nodes@, f, start as int),
            forall|n: int, h: int|
                start <= n < 2 * start + 1 && 0 <= h < old(self).fea_num ==> #[trigger] final(self).stats@[slot(n, h, old(self).fea_num as int)] == scan(
                    node_entries(data.sorted@[h]@, old(self).node_idx@, n),
                    g@,
                    old(self).nodes@[n].count as int,
                    old(self).nodes@[n].grad_sum as int,
                ),
    {
        let end = 2 * start + 1;
        let ghost ff = self.fea_num as int;
        let ghost n0 = self.nodes@;
        let ghost a0 = self.node_idx@;
        let ghost s0 = self.stats@;
        proof {
            assert forall|n: int| start <= n < end implies (#[trigger] self.nodes@[n]).count <= MAX_DOCS && -MAX_SUM
                <= self.nodes@[n].grad_sum <= MAX_SUM by {
                assert(sized(self.nodes@[n], self.doc_num as int));
            }
            assert forall|d: int| 0 <= d < self.doc_num implies #[trigger] self.node_idx@[d] < self.node_num by {}
        }
        self.scan_level(data, g, start, end);
        let ghost s1 = self.stats@;
        self.decide_level(start, end);
        let ghost n2 = self.nodes@;
        proof {
            assert forall|n: int| start <= n < end implies feature_below(#[trigger] self.nodes@[n], ff) by {
                lemma_best_feature_below(s1, n * ff, ff);
            }
            assert forall|n: int| end <= n < 2 * end + 1 implies (#[trigger] self.nodes@[n]).count == 0
                && self.nodes@[n].grad_sum == 0 by {
                assert(n0[n] == empty_node());
            }
        }
        self.reassign(data, g, start, end);
        let ghost n3 = self.nodes@;
        let ghost a3 = self.node_idx@;
        proof {
            assert forall|n: int| start <= n < end && n3[n].feature_id is Some implies #[trigger] children_fit(n3, n) by {
                assert(n0[n].feature_id is None);
                assert(at_rest(n0, a0, g@, n));
                assert(sized(n0[n], self.doc_num as int));
                lemma_count_split(a0, a3, g@, n, 2 * n + 1, 2 * n + 2, self.doc_num as int);
            }
            assert forall|n: int| end <= n < 2 * end + 1 implies -MAX_SUM <= (#[trigger] n3[n]).grad_sum <= MAX_SUM by {
                lemma_count_bounds(a3, g@, n, self.doc_num as int);
            }
        }
        proof {
            assert forall|f: int| 0 <= f < ff implies #[trigger] self.fea_significance@[f] <= u128::MAX - (end - start) * MAX_GAIN by {
                assert(self.fea_significance@[f] == old(self).fea_significance@[f]);
            }
        }
        self.label_level(start, end);
        proof {
            let n4 = self.nodes@;
            let nn = self.node_num as int;
            let dn = self.doc_num as int;
            let st = start as int;
            let en = end as int;
            assert forall|m: int| 0 <= m < nn implies #[trigger] n4[m] == after_labels(n3, st, en, m) by {}
            assert(n4[0] == after_labels(n3, st, en, 0));
            // which documents sit where
            assert forall|d: int| 0 <= d < dn implies #[trigger] a3[d] < 2 * en + 1 && (a3[d] < en ==> a3[d] == a0[d]
                && n2[a0[d] as int].feature_id is None) by {
                if a0[d] >= st {
                    assert(n0[a0[d] as int].feature_id is None);
                } else {
                    assert(n0[a0[d] as int].feature_id is None);
                    assert(n2[a0[d] as int] == n0[a0[d] as int]);
                }
            }
            assert forall|n: int| 0 <= n < en && n2[n].feature_id is None implies #[trigger] at_rest(n4, a3, g@, n) by {
                assert(n0[n].feature_id is None);
                assert(at_rest(n0, a0, g@, n));
                assert forall|j: int| 0 <= j < dn implies (a0[j] == n <==> a3[j] == n) by {
                    if a0[j] == n {
                        assert(n2[a0[j] as int].feature_id is None);
                    }
                }
                lemma_count_same(a0, a3, g@, n, dn);
                if n >= 1 {
                    assert((n - 1) / 2 < st);
                }
            }
            assert forall|n: int| en <= n < 2 * en + 1 implies #[trigger] at_rest(n4, a3, g@, n) by {
                assert((n - 1) / 2 >= st);
            }
            assert forall|n: int| st <= n < en && n2[n].feature_id is Some implies #[trigger] split_ok(n4, n, ff) by {
                assert(n0[n].feature_id is None);
                assert(at_rest(n0, a0, g@, n));
                assert forall|j: int| 0 <= j < dn implies (a0[j] == n <==> (a3[j] == 2 * n + 1 || a3[j] == 2 * n + 2)) by {
                    if a0[j] >= st {
                        assert(n0[a0[j] as int].feature_id is None);
                    }
                }
                lemma_count_split(a0, a3, g@, n, 2 * n + 1, 2 * n + 2, dn);
                lemma_best_feature_below(s1, n * ff, ff);
                assert(((2 * n + 1) - 1) / 2 == n);
                assert(((2 * n + 2) - 1) / 2 == n);
                assert(n4[2 * n + 1] == after_labels(n3, st, en, 2 * n + 1));
                assert(n4[2 * n + 2] == after_labels(n3, st, en, 2 * n + 2));
                assert(n4[n] == after_labels(n3, st, en, n));
                assert(feature_below(n2[n], ff));
                assert(n3[n] == n2[n]);
                assert(n4[n].count == n0[n].count);
                assert(a3.len() == dn);
                assert(n3[2 * n + 1].count == count_at(a3, 2 * n + 1, dn));
                assert(n3[2 * n + 2].count == count_at(a3, 2 * n + 2, dn));
                assert(n4[n].count == n4[2 * n + 1].count + n4[2 * n + 2].count);
                assert(n4[n].grad_sum == n4[2 * n + 1].grad_sum + n4[2 * n + 2].grad_sum);
                assert(children_fit(n3, n));
                // both children receive a document: the two sides of the chosen boundary
                {
                    let f = n2[n].feature_id->0;
                    let base = n * ff;
                    assert forall|h: int| 0 <= h < ff implies bounded_best(#[trigger] s1[base + h]) by {
                        assert(bounded_best(s1[slot(n, h, ff)]));
                    }
                    lemma_best_feature_is_best(s1, base, ff);
                    let c = s1[base + f as int].best->0;
                    assert(s1[slot(n, f as int, ff)] == s1[base + f as int]);
                    let col = data.sorted@[f as int]@;
                    assert(is_sorted_column(col, data.values@, f as int));
                    let es = node_entries(col, a0, n);
                    assert(sized(n0[n], dn));
                    lemma_entries_in_range(col, a0, n, dn);
                    lemma_scan_finds_best(es, g@, n0[n].count as int, n0[n].grad_sum as int);
                    let k = choose|k: int| #[trigger] is_boundary(es, k, n0[n].count as int) && c == boundary_at(es, g@, k, n0[n].count as int, n0[n].grad_sum as int);
                    lemma_node_entries_props(col, a0, n, data.values@, f as int);
                    let j1 = es[k - 1].doc_id as int;
                    let j2 = es[k].doc_id as int;
                    assert(a3[j1] == routed(n2[n], n, data.values@[j1]@));
                    assert(a3[j2] == routed(n2[n], n, data.values@[j2]@));
                    if es[k - 1].value < es[k].value {
                        lemma_count_pos(a3, 2 * n + 1, j1, dn);
                        lemma_count_pos(a3, 2 * n + 2, j2, dn);
                    } else {
                        lemma_count_pos(a3, 2 * n + 1, j2, dn);
                        lemma_count_pos(a3, 2 * n + 2, j1, dn);
                    }
                }
                lemma_leaf_weight_bounded(n3[2 * n + 1].grad_sum as int, n3[2 * n + 1].count as int);
                lemma_leaf_weight_bounded(n3[2 * n + 2].grad_sum as int, n3[2 * n + 2].count as int);
                lemma_gain_bounded(
                    n3[2 * n + 1].count as int,
                    n3[2 * n + 1].grad_sum as int,
                    n3[2 * n + 2].count as int,
                    n3[2 * n + 2].grad_sum as int,
                );
                assert(labelled(n4, n));
            }
            assert forall|n: int| 0 <= n < st implies #[trigger] split_ok(n4, n, ff) by {
                assert(split_ok(n0, n, ff));
                if n0[n].feature_id is Some {
                    assert(n4[2 * n + 1] == after_labels(n3, st, en, 2 * n + 1));
                    assert(n4[2 * n + 2] == after_labels(n3, st, en, 2 * n + 2));
                    assert(((2 * n + 1) - 1) / 2 < st);
                    assert(((2 * n + 2) - 1) / 2 < st);
                }
                if n >= 1 {
                    assert((n - 1) / 2 < st);
                }
            }
            assert forall|n: int| 0 <= n < 2 * en + 1 && n4[n].feature_id is None implies #[trigger] at_rest(n4, a3, g@, n) by {
                if n < en {
                    assert(n4[n] == after_labels(n3, st, en, n));
                }
            }
            assert forall|n: int| 0 <= n < en implies #[trigger] split_ok(n4, n, ff) by {
                if n >= st && n2[n].feature_id is None {
                    assert(n4[n] == after_labels(n3, st, en, n));
                }
            }
            assert forall|n: int| 2 * en + 1 <= n < nn implies #[trigger] n4[n] == empty_node() by {
                assert(n0[n] == empty_node());
                assert((n - 1) / 2 >= en);
            }
            assert forall|n: int| en <= n < 2 * en + 1 implies (#[trigger] n4[n]).feature_id is None by {
                assert(n0[n] == empty_node());
            }
            assert forall|n: int, h: int| en <= n < nn && 0 <= h < ff implies #[trigger] self.stats@[slot(n, h, ff)] == init_stats() by {
                assert(s0[slot(n, h, ff)] == init_stats());
            }
            assert forall|n: int| 0 <= n < nn implies -MAX_SUM <= (#[trigger] n4[n]).label <= MAX_SUM by {
                assert(n4[n] == after_labels(n3, st, en, n));
                if en <= n < 2 * en + 1 {
                    lemma_count_bounds(a3, g@, n, dn);
                    lemma_leaf_weight_bounded(n3[n].grad_sum as int, n3[n].count as int);
                    assert(n0[n] == empty_node());
                } else if st <= n < en {
                    assert(n3[n] == n2[n]);
                } else {
                    assert(n3[n] == n0[n]);
                    if n >= 1 {
                        assert((n - 1) / 2 < st || (n - 1) / 2 >= en);
                    }
                }
            }
            assert forall|n: int| 0 <= n < nn implies #[trigger] sized(n4[n], dn) by {
                if en <= n < 2 * en + 1 {
                    lemma_count_bounds(a3, g@, n, dn);
                } else {
                    assert(sized(n0[n], dn));
                }
            }
            assert forall|n: int| 0 <= n < en implies #[trigger] carries(n4[n], decide(self.stats@, n, ff, n4[n].count as int, self.min_split_count as int)) by {
                if n < st {
                    assert forall|h: int| 0 <= h < ff implies #[trigger] s1[n * ff + h] == s0[n * ff + h] by {
                        assert(s1[slot(n, h, ff)] == s0[slot(n, h, ff)]);
                    }
                    lemma_best_feature_frame(s1, s0, n * ff, ff);
                    assert(carries(n0[n], decide(s0, n, ff, n0[n].count as int, self.min_split_count as int)));
                    if n >= 1 {
                        assert((n - 1) / 2 < st);
                    }
                } else {
                    if n >= 1 {
                        assert((n - 1) / 2 < st);
                    }
                }
            }
            assert forall|d: int| 0 <= d < dn implies #[trigger] a3[d] < 2 * en + 1 && (a3[d] < en ==> n4[a3[d] as int].feature_id is None) by {
                if a3[d] < en {
                    assert(n4[a3[d] as int] == after_labels(n3, st, en, a3[d] as int));
                }
            }
            // nodes above the level keep their splits
            assert forall|p: int| 0 <= p < st implies #[trigger] n4[p] == n0[p] by {
                assert(n4[p] == after_labels(n3, st, en, p));
                if p >= 1 {
                    assert((p - 1) / 2 < st);
                }
            }
            assert forall|p: int| st <= p < en implies (#[trigger] n4[p]).feature_id == n2[p].feature_id
                && n4[p].split2 == n2[p].split2 && n4[p].count == n0[p].count && n4[p].grad_sum == n0[p].grad_sum by {
                assert(n4[p] == after_labels(n3, st, en, p));
                if p >= 1 {
                    assert((p - 1) / 2 < st);
                }
            }
            assert forall|d: int| 0 <= d < dn implies #[trigger] a3[d] == if st <= a0[d] {
                routed(n4[a0[d] as int], a0[d] as int, data.values@[d]@)
            } else {
                a0[d] as int
            } by {
                if st <= a0[d] {
                    assert(n4[a0[d] as int].feature_id == n2[a0[d] as int].feature_id);
                }
            }
            assert forall|f: int| 0 <= f < ff implies #[trigger] self.fea_significance@[f] == old(self).fea_significance@[f]
                + importance_at(n4, f, en) - importance_at(n4, f, st) by {
                lemma_importance_frame(n0, n4, f, st);
                lemma_importance_frame(n0, n3, f, st);
            }
            assert forall|n: int| 0 <= n < 2 * en + 1 implies (#[trigger] n4[n]).count == count_sub(a3, n, dn)
                && n4[n].grad_sum == sum_sub(a3, g@, n, dn) by {
                if n < st {
                    assert forall|j: int| 0 <= j < dn implies in_subtree(a0[j] as int, n) == #[trigger] in_subtree(a3[j] as int, n) by {
                        if a3[j] != a0[j] {
                            lemma_subtree_child(a0[j] as int, a3[j] as int, n);
                        }
                    }
                    lemma_sub_same(a0, a3, g@, n, dn);
                } else if n < en {
                    assert(n0[n].feature_id is None);
                    assert(at_rest(n0, a0, g@, n));
                    assert forall|j: int| 0 <= j < dn implies (a0[j] == n) == #[trigger] in_subtree(a3[j] as int, n) by {
                        let x0 = a0[j] as int;
                        let x3 = a3[j] as int;
                        if x3 != x0 {
                            lemma_subtree_child(x0, x3, n);
                            if x0 != n && in_subtree(x0, n) {
                                lemma_subtree_deeper(x0, n);
                            }
                        } else if x0 != n && in_subtree(x0, n) {
                            lemma_subtree_deeper(x0, n);
                        }
                    }
                    lemma_at_is_sub(a0, a3, g@, n, dn);
                } else {
                    assert(at_rest(n4, a3, g@, n));
                    assert forall|j: int| 0 <= j < dn implies (a3[j] == n) == #[trigger] in_subtree(a3[j] as int, n) by {
                        if a3[j] != n && in_subtree(a3[j] as int, n) {
                            lemma_subtree_deeper(a3[j] as int, n);
                        }
                    }
                    lemma_at_is_sub(a3, a3, g@, n, dn);
                }
            }
            assert forall|n: int| 0 <= n < nn implies #[trigger] unsplit_clear(n4[n]) by {
                assert(n4[n] == after_labels(n3, st, en, n));
                assert(unsplit_clear(n0[n]));
                if n >= 1 {
                    assert((n - 1) / 2 < st || (n - 1) / 2 >= st);
                }
            }
            assert forall|n: int| 1 <= n < nn implies #[trigger] leaf_child_empty(n4, n) by {
                let p = (n - 1) / 2;
                assert(n4[n] == after_labels(n3, st, en, n));
                assert(n4[p] == after_labels(n3, st, en, p));
                if n4[p].feature_id is None {
                    if n < st {
                        assert(leaf_child_empty(n0, n));
                    } else if n < en {
                        assert(leaf_child_empty(n0, n));
                        assert(n0[n] == empty_node());
                        // an empty node has no candidate on any feature
                        let base = n * ff;
                        assert forall|h: int| 0 <= h < ff implies (#[trigger] s1[base + h]).best is None by {
                            assert(s1[slot(n, h, ff)] == s1[base + h]);
                            lemma_scan_no_docs(node_entries(data.sorted@[h]@, a0, n), g@, n0[n].grad_sum as int);
                        }
                        assert forall|h: int| 0 <= h < ff implies bounded_best(#[trigger] s1[base + h]) by {}
                        lemma_best_feature_is_best(s1, base, ff);
                        assert(carries(n2[n], decide(s1, n, ff, n0[n].count as int, self.min_split_count as int)));
                    } else if n < 2 * en + 1 {
                        assert(n0[n] == empty_node());
                        assert forall|j: int| 0 <= j < dn implies #[trigger] a3[j] != n by {
                            if a0[j] >= st && a0[j] as int == p {
                                assert(n2[p].feature_id is None);
                            }
                            if a0[j] >= st && a0[j] as int != p && a3[j] != a0[j] {
                                assert((a3[j] - 1) / 2 == a0[j]);
                            }
                        }
                        lemma_count_zero(a3, g@, n, dn);
                    } else {
                        assert(n0[n] == empty_node());
                    }
                }
            }
            assert(n4[0] == after_labels(n3, st, en, 0));
            assert(n4[0].label == leaf_weight(n4[0].grad_sum as int, n4[0].count as int)) by {
                if st == 0 {
                    assert(n3[0] == n2[0]);
                } else {
                    assert(n4[0] == n0[0]);
                }
            }
            // routing from the root to every document's node
            assert forall|d: int, m: int|
                0 <= d < dn && 1 <= m && #[trigger] in_subtree(a3[d] as int, m) implies routes(n4, m, data.values@[d]@) by {
                let x0 = a0[d] as int;
                let x3 = a3[d] as int;
                let vals = data.values@[d]@;
                let p = (m - 1) / 2;
                if x3 == x0 || m != x3 {
                    if x3 != x0 {
                        lemma_subtree_deeper(x3, m);
                        lemma_subtree_child(x0, x3, m);
                    }
                    assert(in_subtree(x0, m));
                    assert(in_subtree(a0[d] as int, m));
                    assert(routes(n0, m, vals));
                    if x0 != m {
                        lemma_subtree_deeper(x0, m);
                    }
                    assert(p < st);
                    assert(n4[p] == n0[p]);
                } else {
                    assert(p == x0);
                }
            }
            // each decided node's statistics come from the documents of its subtree
            assert forall|n: int, h: int| 0 <= n < en && 0 <= h < ff implies #[trigger] self.stats@[slot(n, h, ff)] == scan(
                subtree_entries(data.sorted@[h]@, a3, n),
                g@,
                n4[n].count as int,
                n4[n].grad_sum as int,
            ) by {
                let col = data.sorted@[h]@;
                assert(is_sorted_column(col, data.values@, h));
                if n < st {
                    assert(s1[slot(n, h, ff)] == s0[slot(n, h, ff)]);
                    assert forall|i: int| 0 <= i < col.len() implies in_subtree(a0[(#[trigger] col[i]).doc_id as int] as int, n)
                        == in_subtree(a3[col[i].doc_id as int] as int, n) by {
                        let j = col[i].doc_id as int;
                        if a3[j] != a0[j] {
                            lemma_subtree_child(a0[j] as int, a3[j] as int, n);
                        }
                    }
                    lemma_subtree_entries_same(col, a0, a3, n);
                } else {
                    assert forall|i: int| 0 <= i < col.len() implies (a0[(#[trigger] col[i]).doc_id as int] == n) == in_subtree(
                        a3[col[i].doc_id as int] as int,
                        n,
                    ) by {
                        let j = col[i].doc_id as int;
                        let x0 = a0[j] as int;
                        let x3 = a3[j] as int;
                        if x3 != x0 {
                            lemma_subtree_child(x0, x3, n);
                            if x0 != n && in_subtree(x0, n) {
                                lemma_subtree_deeper(x0, n);
                            }
                        } else if x0 != n && in_subtree(x0, n) {
                            lemma_subtree_deeper(x0, n);
                        }
                    }
                    lemma_node_entries_subtree(col, a0, a3, n);
                }
            }
        }
    }

    /// An empty tree of `depth` levels (`2^depth - 1` nodes) over `doc_num`
    /// documents and `fea_num` features.
    pub fn new(depth: usize, doc_num: usize, fea_num: usize, min_split_count: u64) -> (r: Tree)
        requires
            1 <= depth <= 29,
            doc_num <= MAX_DOCS,
            pow2(depth as nat) * fea_num <= usize::MAX,
        ensures
            r.shape(),
            r.depth == depth,
            r.node_num == pow2(depth as nat) - 1,
            r.doc_num == doc_num,
            r.fea_num == fea_num,
            r.min_split_count == min_split_count,
            forall|n: int| 0 <= n < r.node_num ==> #[trigger] r.nodes@[n] == empty_node(),
            forall|d: int| 0 <= d < r.doc_num ==> #[trigger] r.node_idx@[d] == 0,
            forall|k: int| 0 <= k < r.stats@.len() ==> #[trigger] r.stats@[k] == init_stats(),
            forall|f: int| 0 <= f < r.fea_num ==> #[trigger] r.fea_significance@[f] == 0,
    {
        let mut size: usize = 1;
        let mut k: usize = 0;
        while k < depth
            invariant
                k <= depth <= 29,
                size == pow2(k as nat),
                size >= 1,
            decreases depth - k,
        {
            proof {
                lemma_pow2_mono(k as nat + 1, 29);
                lemma_pow2_29();
            }
            size = size * 2;
            k += 1;
        }
        let node_num = size - 1;
        proof {
            assert(node_num * fea_num <= pow2(depth as nat) * fea_num) by (nonlinear_arith)
                requires
                    node_num <= pow2(depth as nat),
            ;
        }
        let mut sig: Vec<u128> = Vec::new();
        let mut f: usize = 0;
        while f < fea_num
            invariant
                f <= fea_num,
                sig@.len() == f,
                forall|j: int| 0 <= j < f ==> #[trigger] sig@[j] == 0,
            decreases fea_num - f,
        {
            sig.push(0);
            f += 1;
        }
        let mut tree = Tree {
            depth,
            node_num,
            doc_num,
            fea_num,
            min_split_count,
            nodes: Vec::new(),
            node_idx: Vec::new(),
            stats: Vec::new(),
            fea_significance: sig,
        };
        tree.reset();
        tree
    }

    /// Empties every node, its statistics and the importances, and assigns
    /// every document to the root.
    pub fn reset(&mut self)
        requires
            old(self).doc_num <= MAX_DOCS,
            old(self).node_num * old(self).fea_num <= usize::MAX,
            old(self).fea_significance@.len() == old(self).fea_num,
        ensures
            final(self).shape(),
            final(self).depth == old(self).depth,
            final(self).node_num == old(self).node_num,
            final(self).doc_num == old(self).doc_num,
            final(self).fea_num == old(self).fea_num,
            final(self).min_split_count == old(self).min_split_count,
            forall|n: int| 0 <= n < final(self).node_num ==> #[trigger] final(self).nodes@[n] == empty_node(),
            forall|d: int| 0 <= d < final(self).doc_num ==> #[trigger] final(self).node_idx@[d] == 0,
            forall|k: int| 0 <= k < final(self).stats@.len() ==> #[trigger] final(self).stats@[k] == init_stats(),
            final(self).fea_significance@ == old(self).fea_significance@,
    {
        let mut nodes: Vec<TreeNode> = Vec::new();
        let mut i: usize = 0;
        while i < self.node_num
            invariant
                i <= self.node_num,
                nodes@.len() == i,
                forall|n: int| 0 <= n < i ==> #[trigger] nodes@[n] == empty_node(),
            decreases self.node_num - i,
        {
            nodes.push(TreeNode { feature_id: None, split2: 0, label: 0, count: 0, grad_sum: 0, gain: 0 });
            i += 1;
        }
        let mut node_idx: Vec<usize> = Vec::new();
        let mut d: usize = 0;
        while d < self.doc_num
            invariant
                d <= self.doc_num,
                node_idx@.len() == d,
                forall|j: int| 0 <= j < d ==> #[trigger] node_idx@[j] == 0,
            decreases self.doc_num - d,
        {
            node_idx.push(0);
            d += 1;
        }
        let total = self.node_num * self.fea_num;
        let mut stats: Vec<SplitStats> = Vec::new();
        let mut k: usize = 0;
        while k < total
            invariant
                k <= total,
                stats@.len() == k,
                forall|j: int| 0 <= j < k ==> #[trigger] stats@[j] == init_stats(),
            decreases total - k,
        {
            stats.push(SplitStats { last_value: None, left_count: 0, left_sum: 0, best: None });
            k += 1;
        }
        self.nodes = nodes;
        self.node_idx = node_idx;
        self.stats = stats;
    }

    /// Builds the whole tree for gradients `g`: resets it, accounts every
    /// document to the root, and grows every level but the last.
    pub fn generate_tree_structure(&mut self, data: &Data, g: &Vec<i64>)
        requires
            old(self).shape(),
            1 <= old(self).depth <= 29,
            old(self).node_num == pow2(old(self).depth as nat) - 1,
            data.wf(),
            data.doc_num == old(self).doc_num,
            data.fea_num == old(self).fea_num,
            g@.len() == old(self).doc_num,
            grads_bounded(g@),
            forall|f: int|
                0 <= f < old(self).fea_num ==> #[trigger] old(self).fea_significance@[f] <= u128::MAX - old(self).node_num * MAX_GAIN,
        ensures
            final(self).level_inv(data, g@, (pow2((old(self).depth - 1) as nat) - 1) as int),
            final(self).depth == old(self).depth,
            final(self).node_num == old(self).node_num,
            final(self).doc_num == old(self).doc_num,
            final(self).fea_num == old(self).fea_num,
            final(self).min_split_count == old(self).min_split_count,
            final(self).nodes@[0].count == old(self).doc_num,
            final(self).nodes@[0].grad_sum == grad_total(g@, old(self).doc_num as int),
            final(self).nodes@[0].label == leaf_weight(grad_total(g@, old(self).doc_num as int), old(self).doc_num as int),
            forall|d: int|
                0 <= d < final(self).doc_num ==> #[trigger] final(self).node_idx@[d] < final(self).node_num
                    && final(self).nodes@[final(self).node_idx@[d] as int].feature_id is None,
            forall|n: int|
                0 <= n < final(self).node_num ==> #[trigger] split_ok(final(self).nodes@, n, final(self).fea_num as int),
            forall|n: int|
                0 <= n < final(self).node_num ==> (#[trigger] final(self).nodes@[n]).count == count_sub(
                    final(self).node_idx@,
                    n,
                    final(self).doc_num as int,
                ) && final(self).nodes@[n].grad_sum == sum_sub(final(self).node_idx@, g@, n, final(self).doc_num as int),
            forall|d: int, m: int|
                0 <= d < final(self).doc_num && 1 <= m && #[trigger] in_subtree(final(self).node_idx@[d] as int, m) ==> routes(
                    final(self).nodes@,
                    m,
                    data.values@[d]@,
                ),
            forall|n: int|
                0 <= n < pow2((old(self).depth - 1) as nat) - 1 ==> #[trigger] carries(
                    final(self).nodes@[n],
                    decide(final(self).stats@, n, final(self).fea_num as int, final(self).nodes@[n].count as int, final(self).min_split_count as int),
                ),
            forall|n: int, h: int|
                0 <= n < pow2((old(self).depth - 1) as nat) - 1 && 0 <= h < final(self).fea_num ==> #[trigger] final(self).stats@[slot(
                    n,
                    h,
                    final(self).fea_num as int,
                )] == scan(
                    subtree_entries(data.sorted@[h]@, final(self).node_idx@, n),
                    g@,
                    final(self).nodes@[n].count as int,
                    final(self).nodes@[n].grad_sum as int,
                ),
            forall|f: int|
                0 <= f < final(self).fea_num ==> #[trigger] final(self).fea_significance@[f] == old(self).fea_significance@[f]
                    + importance_at(final(self).nodes@, f, pow2((old(self).depth - 1) as nat) - 1),
            forall|n: int|
                0 <= n < final(self).node_num && final(self).nodes@[n].feature_id is None ==> #[trigger] at_rest(
                    final(self).nodes@,
                    final(self).node_idx@,
                    g@,
                    n,
                ),
    {
        proof {
            lemma_pow2_mono(self.depth as nat, 29);
            lemma_pow2_29();
        }
        self.reset();
        let ghost zeros = self.node_idx@;
        let mut count: u64 = 0;
        let mut sum: i64 = 0;
        let mut i: usize = 0;
        while i < self.doc_num
            invariant
                i <= self.doc_num <= MAX_DOCS,
                self.node_idx@ == zeros,
                zeros.len() == self.doc_num,
                forall|d: int| 0 <= d < self.doc_num ==> #[trigger] zeros[d] == 0,
                g@.len() == self.doc_num,
                grads_bounded(g@),
                count == i,
                count == count_at(zeros, 0, i as int),
                sum == sum_at(zeros, g@, 0, i as int),
                sum == grad_total(g@, i as int),
                -(i * MAX_GRAD) <= sum <= i * MAX_GRAD,
            decreases self.doc_num - i,
        {
            count = count + 1;
            sum = sum + g[i];
            i += 1;
        }
        let root = TreeNode {
            feature_id: None,
            split2: 0,
            label: leaf_weight_of(sum, count),
            count,
            grad_sum: sum,
            gain: 0,
        };
        self.nodes.set(0, root);
        proof {
            let nodes = self.nodes@;
            assert(at_rest(nodes, zeros, g@, 0));
            assert forall|n: int| 0 <= n < self.node_num implies #[trigger] sized(nodes[n], self.doc_num as int) by {}
            assert forall|n: int| 0 <= n < self.node_num implies -MAX_SUM <= (#[trigger] nodes[n]).label <= MAX_SUM by {}
            assert forall|n: int, h: int| 0 <= n < self.node_num && 0 <= h < self.fea_num implies #[trigger] self.stats@[slot(n, h, self.fea_num as int)] == init_stats() by {
                lemma_slot(n, h, self.node_num as int, self.fea_num as int);
            }
            assert forall|j: int| 0 <= j < self.doc_num implies (zeros[j] == 0) == #[trigger] in_subtree(zeros[j] as int, 0) by {}
            lemma_at_is_sub(zeros, zeros, g@, 0, self.doc_num as int);
            assert forall|n: int| 1 <= n < self.node_num implies #[trigger] leaf_child_empty(nodes, n) by {}
            assert(nodes[0].label == leaf_weight(sum as int, count as int));
            assert forall|n: int| 0 <= n < self.node_num implies #[trigger] unsplit_clear(nodes[n]) by {}
            assert(self.level_inv(data, g@, 0));
        }
        let mut start: usize = 0;
        let mut level: usize = 1;
        while level < self.depth
            invariant
                1 <= level <= self.depth <= 29,
                self.node_num == pow2(self.depth as nat) - 1,
                start == pow2((level - 1) as nat) - 1,
                self.level_inv(data, g@, start as int),
                forall|f: int|
                    0 <= f < self.fea_num ==> #[trigger] self.fea_significance@[f] == old(self).fea_significance@[f]
                        + importance_at(self.nodes@, f, start as int),
                data.wf(),
                data.doc_num == self.doc_num,
                data.fea_num == self.fea_num,
                self.nodes@[0].count == old(self).doc_num,
                self.nodes@[0].grad_sum == grad_total(g@, old(self).doc_num as int),
                self.nodes@[0].label == leaf_weight(grad_total(g@, old(self).doc_num as int), old(self).doc_num as int),
                zeros.len() == self.doc_num,
                self.depth == old(self).depth,
                self.node_num == old(self).node_num,
                self.doc_num == old(self).doc_num,
                self.fea_num == old(self).fea_num,
                self.min_split_count == old(self).min_split_count,
            decreases self.depth - level,
        {
            proof {
                lemma_pow2_mono((level + 1) as nat, self.depth as nat);
                assert(pow2((level + 1) as nat) == 2 * pow2(level as nat));
                assert(pow2(level as nat) == 2 * pow2((level - 1) as nat));
            }
            let ghost before = self.nodes@;
            self.split(data, g, start);
            proof {
                assert forall|f: int| 0 <= f < self.fea_num implies #[trigger] self.fea_significance@[f]
                    == old(self).fea_significance@[f] + importance_at(self.nodes@, f, 2 * start + 1) by {
                    lemma_importance_frame(before, self.nodes@, f, start as int);
                }
            }
            start = 2 * start + 1;
            level += 1;
        }
        proof {
            let nodes = self.nodes@;
            assert(pow2(self.depth as nat) == 2 * pow2((self.depth - 1) as nat));
            assert forall|n: int| 0 <= n < self.node_num implies #[trigger] split_ok(nodes, n, self.fea_num as int) by {
                if n >= start {
                    assert(nodes[n].feature_id is None);
                }
            }
        }
    }

    /// Adds to each document's running prediction the label of the node it
    /// is assigned to; documents still at the root are left as they are.
    pub fn update_fx(&self, fx: &mut Vec<i64>)
        requires
            self.shape(),
            old(fx)@.len() == self.doc_num,
            forall|d: int| 0 <= d < self.doc_num ==> #[trigger] self.node_idx@[d] < self.node_num,
            forall|n: int| 0 <= n < self.node_num ==> -MAX_SUM <= (#[trigger] self.nodes@[n]).label <= MAX_SUM,
            forall|d: int| 0 <= d < self.doc_num ==> -0x4000_0000_0000_0000 <= #[trigger] old(fx)@[d] <= 0x4000_0000_0000_0000,
        ensures
            final(fx)@.len() == old(fx)@.len(),
            forall|d: int|
                0 <= d < self.doc_num ==> #[trigger] final(fx)@[d] == if self.node_idx@[d] > 0 {
                    old(fx)@[d] + self.nodes@[self.node_idx@[d] as int].label
                } else {
                    old(fx)@[d] as int
                },
    {
        let mut i: usize = 0;
        while i < self.doc_num
            invariant
                self.shape(),
                i <= self.doc_num,
                fx@.len() == self.doc_num,
                forall|d: int| 0 <= d < self.doc_num ==> #[trigger] self.node_idx@[d] < self.node_num,
                forall|n: int| 0 <= n < self.node_num ==> -MAX_SUM <= (#[trigger] self.nodes@[n]).label <= MAX_SUM,
                forall|d: int| i <= d < self.doc_num ==> #[trigger] fx@[d] == old(fx)@[d],
                forall|d: int| i <= d < self.doc_num ==> -0x4000_0000_0000_0000 <= #[trigger] old(fx)@[d] <= 0x4000_0000_0000_0000,
                forall|d: int|
                    0 <= d < i ==> #[trigger] fx@[d] == if self.node_idx@[d] > 0 {
                        old(fx)@[d] + self.nodes@[self.node_idx@[d] as int].label
                    } else {
                        old(fx)@[d] as int
                    },
            decreases self.doc_num - i,
        {
            let idx = self.node_idx[i];
            if idx > 0 {
                let v = fx[i] + self.nodes[idx].label;
                fx.set(i, v);
            }
            i += 1;
        }
    }

    /// In a built tree, no node splits on a feature whose value is the same
    /// for every document: no boundary exists to make it a candidate.
    pub proof fn lemma_built_tree_skips_constant_feature(&self, data: &Data, g: Seq<i64>, start: int, f: int, v: i64)
        requires
            self.level_inv(data, g, start),
            2 * start + 1 == self.node_num,
            0 <= f < self.fea_num,
            forall|d: int| 0 <= d < self.doc_num ==> #[trigger] data.values@[d]@[f] == v,
        ensures
            forall|n: int| 0 <= n < self.node_num ==> (#[trigger] self.nodes@[n]).feature_id != Some(f as usize),
    {
        let ff = self.fea_num as int;
        assert forall|n: int| 0 <= n < self.node_num implies (#[trigger] self.nodes@[n]).feature_id != Some(f as usize) by {
            if n < start {
                let col = data.sorted@[f]@;
                assert(is_sorted_column(col, data.values@, f));
                let es = subtree_entries(col, self.node_idx@, n);
                lemma_subtree_entries_values(col, self.node_idx@, n, data.values@, f);
                assert forall|i: int, j: int| 0 <= i < es.len() && 0 <= j < es.len() implies #[trigger] es[i].value
                    == #[trigger] es[j].value by {
                    assert(data.values@[es[i].doc_id as int]@[f] == v);
                    assert(data.values@[es[j].doc_id as int]@[f] == v);
                }
                lemma_constant_feature_no_candidate(es, g, self.nodes@[n].count as int, self.nodes@[n].grad_sum as int);
                assert(self.stats@[slot(n, f, ff)] == scan(es, g, self.nodes@[n].count as int, self.nodes@[n].grad_sum as int));
                assert(self.stats@[n * ff + f].best is None);
                lemma_slot(n, f, self.node_num as int, ff);
                lemma_no_candidate_not_chosen(self.stats@, n * ff, ff, f);
                assert(carries(self.nodes@[n], decide(self.stats@, n, ff, self.nodes@[n].count as int, self.min_split_count as int)));
            }
        }
    }

    /// Two builds from the same data and gradients, with the same sizes and
    /// minimum count, agree up to node `n`: the same documents reach `n`, and
    /// `n` takes the same split.
    proof fn lemma_builds_agree_at(&self, other: &Tree, data: &Data, g: Seq<i64>, start: int, n: int)
        requires
            self.level_inv(data, g, start),
            other.level_inv(data, g, start),
            2 * start + 1 == self.node_num,
            self.node_num == other.node_num,
            self.fea_num == other.fea_num,
            self.min_split_count == other.min_split_count,
            0 <= n < self.node_num,
        ensures
            forall|d: int| 0 <= d < self.doc_num ==> #[trigger] in_subtree(self.node_idx@[d] as int, n) == in_subtree(other.node_idx@[d] as int, n),
            self.nodes@[n].feature_id == other.nodes@[n].feature_id,
            self.nodes@[n].feature_id is Some ==> self.nodes@[n].split2 == other.nodes@[n].split2,
        decreases n,
    {
        let a = self.node_idx@;
        let b = other.node_idx@;
        let ff = self.fea_num as int;
        let dn = self.doc_num as int;
        if n == 0 {
            assert forall|d: int| 0 <= d < dn implies #[trigger] in_subtree(a[d] as int, n) == in_subtree(b[d] as int, n) by {
                lemma_subtree_root(a[d] as int);
                lemma_subtree_root(b[d] as int);
            }
        } else {
            let p = (n - 1) / 2;
            self.lemma_builds_agree_at(other, data, g, start, p);
            assert forall|d: int| 0 <= d < dn implies #[trigger] in_subtree(a[d] as int, n) == in_subtree(b[d] as int, n) by {
                let vals = data.values@[d]@;
                assert forall|t: &Tree| t == self || t == other implies (in_subtree(t.node_idx@[d] as int, n) <==> (in_subtree(
                    t.node_idx@[d] as int,
                    p,
                ) && t.nodes@[p].feature_id is Some && routed(t.nodes@[p], p, vals) == n)) by {
                    let x = t.node_idx@[d] as int;
                    if in_subtree(x, n) {
                        lemma_subtree_parent(x, n);
                        assert(routes(t.nodes@, n, vals));
                    }
                    if in_subtree(x, p) && t.nodes@[p].feature_id is Some && routed(t.nodes@[p], p, vals) == n {
                        assert(x != p);
                        lemma_subtree_below(x, p);
                        if in_subtree(x, 2 * p + 1) {
                            assert(routes(t.nodes@, 2 * p + 1, vals));
                            assert((2 * p + 1 - 1) / 2 == p);
                        } else {
                            assert(routes(t.nodes@, 2 * p + 2, vals));
                            assert((2 * p + 2 - 1) / 2 == p);
                        }
                    }
                }
            }
        }
        if n < start {
            assert forall|h: int| 0 <= h < ff implies #[trigger] self.stats@[n * ff + h] == other.stats@[n * ff + h] by {
                let col = data.sorted@[h]@;
                assert forall|i: int| 0 <= i < col.len() implies in_subtree(a[(#[trigger] col[i]).doc_id as int] as int, n)
                    == in_subtree(b[col[i].doc_id as int] as int, n) by {
                    assert(is_sorted_column(col, data.values@, h));
                }
                lemma_subtree_entries_same(col, a, b, n);
                lemma_sub_same(a, b, g, n, dn);
                assert(self.stats@[slot(n, h, ff)] == other.stats@[slot(n, h, ff)]);
            }
            lemma_sub_same(a, b, g, n, dn);
            lemma_best_feature_frame(self.stats@, other.stats@, n * ff, ff);
            assert(carries(self.nodes@[n], decide(self.stats@, n, ff, self.nodes@[n].count as int, self.min_split_count as int)));
            assert(carries(other.nodes@[n], decide(other.stats@, n, ff, other.nodes@[n].count as int, other.min_split_count as int)));
        }
    }

    /// Determinism: two builds from the same data and gradients, with the same
    /// sizes and minimum count, assign every document to the same node and
    /// produce identical nodes (split, threshold, label, count, sum, gain).
    pub proof fn lemma_builds_agree(&self, other: &Tree, data: &Data, g: Seq<i64>, start: int)
        requires
            self.level_inv(data, g, start),
            other.level_inv(data, g, start),
            2 * start + 1 == self.node_num,
            self.node_num == other.node_num,
            self.fea_num == other.fea_num,
            self.min_split_count == other.min_split_count,
        ensures
            self.node_idx@ == other.node_idx@,
            self.nodes@ == other.nodes@,
    {
        assert forall|n: int| 0 <= n < self.node_num implies (#[trigger] self.nodes@[n]).feature_id == other.nodes@[n].feature_id
            && (self.nodes@[n].feature_id is Some ==> self.nodes@[n].split2 == other.nodes@[n].split2) by {
            self.lemma_builds_agree_at(other, data, g, start, n);
        }
        assert forall|d: int| 0 <= d < self.doc_num implies self.node_idx@[d] == other.node_idx@[d] by {
            let x = self.node_idx@[d] as int;
            let y = other.node_idx@[d] as int;
            self.lemma_builds_agree_at(other, data, g, start, x);
            self.lemma_builds_agree_at(other, data, g, start, y);
            assert(in_subtree(x, x));
            assert(in_subtree(y, y));
            if x != y {
                lemma_subtree_deeper(y, x);
                lemma_subtree_deeper(x, y);
            }
        }
        assert(self.node_idx@ =~= other.node_idx@);
        let a = self.node_idx@;
        let b = other.node_idx@;
        let dn = self.doc_num as int;
        assert forall|n: int| 0 <= n < self.node_num implies (#[trigger] self.nodes@[n]).count == other.nodes@[n].count
            && self.nodes@[n].grad_sum == other.nodes@[n].grad_sum by {
            lemma_sub_same(a, b, g, n, dn);
        }
        assert forall|n: int| 0 <= n < self.node_num implies #[trigger] self.nodes@[n] == other.nodes@[n] by {
            let x = self.nodes@[n];
            let y = other.nodes@[n];
            self.lemma_builds_agree_at(other, data, g, start, n);
            assert(unsplit_clear(x) && unsplit_clear(y));
            if x.feature_id is Some {
                assert(split_ok(self.nodes@, n, self.fea_num as int));
                assert(split_ok(other.nodes@, n, self.fea_num as int));
                assert(self.nodes@[2 * n + 1].count == other.nodes@[2 * n + 1].count);
                assert(self.nodes@[2 * n + 2].count == other.nodes@[2 * n + 2].count);
            }
            if n == 0 {
            } else {
                let p = (n - 1) / 2;
                self.lemma_builds_agree_at(other, data, g, start, p);
                assert(leaf_child_empty(self.nodes@, n));
                assert(leaf_child_empty(other.nodes@, n));
                if self.nodes@[p].feature_id is Some {
                    assert(split_ok(self.nodes@, p, self.fea_num as int));
                    assert(split_ok(other.nodes@, p, self.fea_num as int));
                    assert(n == 2 * p + 1 || n == 2 * p + 2);
                }
            }
        }
        assert(self.nodes@ =~= other.nodes@);
    }

    /// In a built tree a node holding fewer documents than the minimum count
    /// is a leaf, and any children it has stay empty: no document reaches them.
    pub proof fn lemma_small_node_is_leaf(&self, data: &Data, g: Seq<i64>, start: int, n: int)
        requires
            self.level_inv(data, g, start),
            2 * start + 1 == self.node_num,
            0 <= n < self.node_num,
            self.nodes@[n].count < self.min_split_count,
        ensures
            self.nodes@[n].feature_id is None,
            2 * n + 2 < self.node_num ==> self.nodes@[2 * n + 1] == empty_node() && self.nodes@[2 * n + 2] == empty_node(),
            forall|d: int| 0 <= d < self.doc_num ==> #[trigger] self.node_idx@[d] != 2 * n + 1 && self.node_idx@[d] != 2 * n + 2,
    {
        if n < start {
            assert(carries(self.nodes@[n], decide(self.stats@, n, self.fea_num as int, self.nodes@[n].count as int, self.min_split_count as int)));
        }
        if 2 * n + 2 < self.node_num {
            assert(leaf_child_empty(self.nodes@, 2 * n + 1));
            assert(leaf_child_empty(self.nodes@, 2 * n + 2));
            assert((2 * n + 1 - 1) / 2 == n);
            assert((2 * n + 2 - 1) / 2 == n);
        }
        assert forall|d: int| 0 <= d < self.doc_num implies #[trigger] self.node_idx@[d] != 2 * n + 1 && self.node_idx@[d] != 2 * n + 2 by {
            let x = self.node_idx@[d] as int;
            if x == 2 * n + 1 || x == 2 * n + 2 {
                assert((x - 1) / 2 == n);
                assert(in_subtree(x, x));
                assert(routes(self.nodes@, x, data.values@[d]@));
            }
        }
    }
}

} // verus!