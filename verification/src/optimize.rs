//! The module-level optimizer: reachability analysis, block removal with
//! renumbering, and the bounded rewrite cycle that is iterated to a
//! fixpoint.

use vstd::prelude::*;
use crate::block::{
    block_is_empty, stmt_label_ref, stmt_links, BasicBlock, BasicBlockView, RawBasicBlock,
    RawBasicBlockView,
};
use crate::labels::{entries_contain, entries_value, entries_wf, LabelMap};
use crate::module::{block_edges_ok, Module};
use crate::stmt::StatementView;
use crate::targets::{JumpTarget, JumpTargetView, UcJumpTarget, UcJumpTargetView};

verus! {

/// Whether the graph `(bbs, labels)` has an edge from block `i` to block
/// `j`: a label embedded in an instruction of `i` that the table maps to
/// `j`, a conditional branch of `i` to `j`, or the continuation of `i`
/// naming `j`.  A dangling embedded label is no edge.
pub open spec fn is_edge(
    bbs: Seq<BasicBlockView>,
    labels: Seq<(Seq<char>, usize)>,
    i: int,
    j: int,
) -> bool {
    &&& 0 <= i < bbs.len()
    &&& {
        let b = bbs[i];
        ||| exists|t: int|
            0 <= t < b.stmts.len() && (match stmt_label_ref(#[trigger] b.stmts[t]) {
                Some(l) => entries_contain(labels, l) && entries_value(labels, l) == j,
                None => false,
            })
        ||| match b.condjmp {
            Some((_, JumpTargetView::BasicBlock(t))) => t == j,
            _ => false,
        }
        ||| match b.next {
            UcJumpTargetView::BasicBlock(t) => t == j,
            _ => false,
        }
    }
}

/// A path through the graph from the entry block: a non-empty sequence of
/// indices that starts at 0 and follows edges.
pub open spec fn is_path(
    bbs: Seq<BasicBlockView>,
    labels: Seq<(Seq<char>, usize)>,
    p: Seq<int>,
) -> bool {
    &&& p.len() >= 1
    &&& p[0] == 0
    &&& forall|t: int| 0 <= t < p.len() - 1 ==> is_edge(bbs, labels, #[trigger] p[t], p[t + 1])
}

/// Whether block `j` is reachable from the entry block.
pub open spec fn reachable(
    bbs: Seq<BasicBlockView>,
    labels: Seq<(Seq<char>, usize)>,
    j: int,
) -> bool {
    exists|p: Seq<int>| is_path(bbs, labels, p) && p.last() == j
}

/// In a well-formed module every edge ends at a valid index.
proof fn lemma_edge_target_bound(m: Module, i: int, j: int)
    requires
        m.wf(),
        is_edge(m.bbs_view(), m.labels@, i, j),
    ensures
        0 <= j < m.bbs_view().len(),
{
    let b = m.bbs_view()[i];
    if exists|t: int|
        0 <= t < b.stmts.len() && (match stmt_label_ref(#[trigger] b.stmts[t]) {
            Some(l) => entries_contain(m.labels@, l) && entries_value(m.labels@, l) == j,
            None => false,
        }) {
        let t = choose|t: int|
            0 <= t < b.stmts.len() && (match stmt_label_ref(#[trigger] b.stmts[t]) {
                Some(l) => entries_contain(m.labels@, l) && entries_value(m.labels@, l) == j,
                None => false,
            });
        match stmt_label_ref(b.stmts[t]) {
            Some(l) => {
                let w = choose|w: int|
                    0 <= w < m.labels@.len() && m.labels@[w].0 == l;
                assert(m.labels@[w].1 < m.bbs_view().len());
            }
            None => {}
        }
    } else {
        assert(block_edges_ok(b, m.bbs_view().len() as int));
    }
}

/// The number of `true` entries of a mark vector.
pub open spec fn count_true(s: Seq<bool>) -> int
    decreases s.len(),
{
    if s.len() == 0 {
        0
    } else {
        count_true(s.drop_last()) + (if s.last() {
            1int
        } else {
            0int
        })
    }
}

/// Setting a `false` entry to `true` raises the count by one.
proof fn lemma_count_true_update(s: Seq<bool>, i: int)
    requires
        0 <= i < s.len(),
        !s[i],
    ensures
        count_true(s.update(i, true)) == count_true(s) + 1,
    decreases s.len(),
{
    if i == s.len() - 1 {
        assert(s.update(i, true).drop_last() =~= s.drop_last());
    } else {
        assert(s.update(i, true).drop_last() =~= s.drop_last().update(i, true));
        lemma_count_true_update(s.drop_last(), i);
    }
}

/// The count never exceeds the length.
proof fn lemma_count_true_le_len(s: Seq<bool>)
    ensures
        count_true(s) <= s.len(),
    decreases s.len(),
{
    if s.len() > 0 {
        lemma_count_true_le_len(s.drop_last());
    }
}

/// A mark vector that contains the entry block and is closed under edges
/// contains the end of every path.
proof fn lemma_closed_covers_paths(
    bbs: Seq<BasicBlockView>,
    labels: Seq<(Seq<char>, usize)>,
    marked: Seq<bool>,
    p: Seq<int>,
)
    requires
        marked.len() == bbs.len(),
        bbs.len() > 0,
        marked[0],
        forall|i: int, j: int|
            0 <= i < bbs.len() && marked[i] && is_edge(bbs, labels, i, j) && 0 <= j < bbs.len()
                ==> marked[j],
        forall|i: int, j: int|
            is_edge(bbs, labels, i, j) ==> 0 <= j < bbs.len(),
        is_path(bbs, labels, p),
    ensures
        0 <= p.last() < bbs.len() && marked[p.last()],
    decreases p.len(),
{
    if p.len() == 1 {
        assert(p.last() == p[0]);
    } else {
        let q = p.drop_last();
        assert(is_path(bbs, labels, q)) by {
            assert forall|t: int| 0 <= t < q.len() - 1 implies is_edge(
                bbs,
                labels,
                #[trigger] q[t],
                q[t + 1],
            ) by {
                assert(q[t] == p[t] && q[t + 1] == p[t + 1]);
                assert(is_edge(bbs, labels, p[t], p[t + 1]));
            }
        }
        lemma_closed_covers_paths(bbs, labels, marked, q);
        assert(is_edge(bbs, labels, p[p.len() - 2], p[p.len() - 1]));
    }
}

impl Module {
    /// The set of block indices not reachable from the entry block, in
    /// ascending order.
    ///
    /// Reachability follows three kinds of edge: labels embedded in
    /// ordinary instructions (the label's address may be taken and jumped
    /// to indirectly), conditional-branch targets, and continuations.  An
    /// embedded label that the table does not know indicates a defect in
    /// an earlier pass; it is treated as no edge rather than an error.
    pub fn unused_bbs(&self) -> (r: Vec<usize>)
        requires
            self.wf(),
        ensures
            forall|a: int, b: int| 0 <= a < b < r@.len() ==> r@[a] < r@[b],
            forall|t: int| 0 <= t < r@.len() ==> (r@[t] as int) < self.bbs_view().len(),
            forall|j: int|
                0 <= j < self.bbs_view().len() ==> ((exists|t: int|
                    0 <= t < r@.len() && r@[t] == j) <==> !reachable(
                    self.bbs_view(),
                    self.labels@,
                    j,
                )),
    {
        let ghost bbsv = self.bbs_view();
        let ghost lv = self.labels@;
        let n = self.bbs.len();
        if n == 0 {
            let r: Vec<usize> = Vec::new();
            return r;
        }
        proof {
            assert(reachable(bbsv, lv, 0)) by {
                let p: Seq<int> = seq![0int];
                assert(is_path(bbsv, lv, p) && p.last() == 0);
            }
            assert forall|i: int, j: int| is_edge(bbsv, lv, i, j) implies 0 <= j < bbsv.len() by {
                lemma_edge_target_bound(*self, i, j);
            }
        }
        let mut marked: Vec<bool> = Vec::new();
        let mut z: usize = 0;
        while z < n
            invariant
                0 <= z <= n,
                marked@.len() == z,
                forall|j: int| 0 <= j < z ==> !marked@[j],
            decreases n - z,
        {
            marked.push(false);
            z += 1;
        }
        marked.set(0, true);
        proof {
            lemma_count_true_le_len(marked@);
        }
        loop
            invariant
                n == bbsv.len(),
                self.wf(),
                bbsv == self.bbs_view(),
                lv == self.labels@,
                marked@.len() == n,
                count_true(marked@) <= n,
                marked@[0],
                forall|j: int| 0 <= j < n && marked@[j] ==> reachable(bbsv, lv, j),
                forall|i: int, j: int| is_edge(bbsv, lv, i, j) ==> 0 <= j < bbsv.len(),
            ensures
                forall|i: int, j: int|
                    0 <= i < n && marked@[i] && is_edge(bbsv, lv, i, j) && 0 <= j < n
                        ==> marked@[j],
                n == bbsv.len(),
                marked@.len() == n,
                marked@[0],
                forall|j: int| 0 <= j < n && marked@[j] ==> reachable(bbsv, lv, j),
            decreases n - count_true(marked@),
        {
            let ghost start = marked@;
            let mut changed = false;
            let mut i: usize = 0;
            while i < n
                invariant
                    n == bbsv.len(),
                    self.wf(),
                    bbsv == self.bbs_view(),
                    lv == self.labels@,
                    marked@.len() == n,
                    start.len() == n,
                    marked@[0],
                    0 <= i <= n,
                    forall|j: int| 0 <= j < n && start[j] ==> marked@[j],
                    forall|j: int| 0 <= j < n && marked@[j] ==> reachable(bbsv, lv, j),
                    forall|i2: int, j: int| is_edge(bbsv, lv, i2, j) ==> 0 <= j < bbsv.len(),
                    !changed ==> marked@ == start,
                    changed ==> count_true(marked@) > count_true(start),
                    forall|i2: int, j: int|
                        0 <= i2 < i && start[i2] && is_edge(bbsv, lv, i2, j) && 0 <= j < n
                            ==> marked@[j],
                decreases n - i,
            {
                if marked[i] {
                    let ghost b = bbsv[i as int];
                    // embedded labels
                    let ls = self.bbs[i].linked_labels();
                    let ghost links = stmt_links(b.stmts);
                    let m = ls.len();
                    let mut u: usize = 0;
                    while u < m
                        invariant
                            n == bbsv.len(),
                            self.wf(),
                            bbsv == self.bbs_view(),
                            lv == self.labels@,
                            marked@.len() == n,
                            start.len() == n,
                            marked@[0],
                            0 <= u <= m,
                            0 <= i < n,
                            marked@[i as int],
                            ls.deep_view() == links,
                            links == stmt_links(b.stmts),
                            b == bbsv[i as int],
                            m == links.len(),
                            forall|j: int| 0 <= j < n && start[j] ==> marked@[j],
                            forall|j: int| 0 <= j < n && marked@[j] ==> reachable(bbsv, lv, j),
                            forall|i2: int, j: int|
                                is_edge(bbsv, lv, i2, j) ==> 0 <= j < bbsv.len(),
                            !changed ==> marked@ == start,
                            changed ==> count_true(marked@) > count_true(start),
                            forall|i2: int, j: int|
                                0 <= i2 < i && start[i2] && is_edge(bbsv, lv, i2, j) && 0 <= j < n
                                    ==> marked@[j],
                            forall|u2: int|
                                0 <= u2 < u ==> (entries_contain(lv, links[u2]) ==> marked@[
                                    entries_value(lv, links[u2]) as int
                                ]),
                        decreases m - u,
                    {
                        match self.labels.get(&ls[u]) {
                            Some(t) => {
                                proof {
                                    assert(ls.deep_view()[u as int] == ls@[u as int]@);
                                    assert(entries_value(lv, links[u as int]) == t);
                                    lemma_label_link_is_edge(
                                        bbsv,
                                        lv,
                                        i as int,
                                        u as int,
                                    );
                                    assert(is_edge(bbsv, lv, i as int, t as int));
                                    assert(reachable(bbsv, lv, t as int)) by {
                                        lemma_reach_step(bbsv, lv, i as int, t as int);
                                    }
                                }
                                if !marked[t] {
                                    proof {
                                        lemma_count_true_update(marked@, t as int);
                                        lemma_count_true_le_len(start);
                                        if changed {
                                        } else {
                                            assert(marked@ == start);
                                        }
                                    }
                                    marked.set(t, true);
                                    changed = true;
                                }
                            }
                            None => {}
                        }
                        u += 1;
                    }
                    // conditional branch
                    let cj: Option<usize> = match &self.bbs[i].condjmp {
                        Some((_, JumpTarget::BasicBlock(t))) => Some(*t),
                        _ => None,
                    };
                    if let Some(t) = cj {
                        proof {
                            assert(is_edge(bbsv, lv, i as int, t as int));
                            lemma_reach_step(bbsv, lv, i as int, t as int);
                        }
                        if !marked[t] {
                            proof {
                                lemma_count_true_update(marked@, t as int);
                                if !changed {
                                    assert(marked@ == start);
                                }
                            }
                            marked.set(t, true);
                            changed = true;
                        }
                    }
                    // continuation
                    let nx: Option<usize> = match &self.bbs[i].next {
                        UcJumpTarget::BasicBlock(t) => Some(*t),
                        _ => None,
                    };
                    if let Some(t) = nx {
                        proof {
                            assert(is_edge(bbsv, lv, i as int, t as int));
                            lemma_reach_step(bbsv, lv, i as int, t as int);
                        }
                        if !marked[t] {
                            proof {
                                lemma_count_true_update(marked@, t as int);
                                if !changed {
                                    assert(marked@ == start);
                                }
                            }
                            marked.set(t, true);
                            changed = true;
                        }
                    }
                    proof {
                        assert forall|j: int|
                            start[i as int] && is_edge(bbsv, lv, i as int, j) && 0 <= j < n
                            implies marked@[j] by {
                            lemma_edge_cases_covered(bbsv, lv, i as int, j, marked@);
                        }
                    }
                }
                i += 1;
            }
            proof {
                lemma_count_true_le_len(marked@);
            }
            if !changed {
                break ;
            }
        }
        // collect the unmarked indices, ascending
        let mut r: Vec<usize> = Vec::new();
        let mut j: usize = 0;
        while j < n
            invariant
                n == bbsv.len(),
                marked@.len() == n,
                0 <= j <= n,
                forall|a: int, b: int| 0 <= a < b < r@.len() ==> r@[a] < r@[b],
                forall|t: int| 0 <= t < r@.len() ==> (r@[t] as int) < j,
                forall|t: int| 0 <= t < r@.len() ==> !marked@[r@[t] as int],
                forall|j2: int| 0 <= j2 < j && !marked@[j2] ==> (exists|t: int|
                    0 <= t < r@.len() && r@[t] == j2),
            decreases n - j,
        {
            if !marked[j] {
                let ghost pre = r@;
                r.push(j);
                proof {
                    assert(r@ =~= pre.push(j));
                    assert(r@[pre.len() as int] == j);
                    assert forall|j2: int|
                        0 <= j2 < j + 1 && !marked@[j2] implies (exists|t: int|
                        0 <= t < r@.len() && r@[t] == j2) by {
                        if j2 < j {
                            let t = choose|t: int| 0 <= t < pre.len() && pre[t] == j2;
                            assert(r@[t] == j2);
                        } else {
                            assert(r@[pre.len() as int] == j2);
                        }
                    }
                }
            }
            j += 1;
        }
        proof {
            assert forall|j2: int| 0 <= j2 < bbsv.len() implies ((exists|t: int|
                0 <= t < r@.len() && r@[t] == j2) <==> !reachable(bbsv, lv, j2)) by {
                if marked@[j2] {
                    assert(reachable(bbsv, lv, j2));
                    if exists|t: int| 0 <= t < r@.len() && r@[t] == j2 {
                        let t = choose|t: int| 0 <= t < r@.len() && r@[t] == j2;
                        assert(!marked@[r@[t] as int]);
                        assert(false);
                    }
                } else {
                    if reachable(bbsv, lv, j2) {
                        let p = choose|p: Seq<int>| is_path(bbsv, lv, p) && p.last() == j2;
                        lemma_closed_covers_paths(bbsv, lv, marked@, p);
                        assert(false);
                    }
                }
            }
        }
        r
    }
}

/// The `u`-th embedded label of block `i`, when the table knows it, yields
/// an edge to the block it names.
proof fn lemma_label_link_is_edge(
    bbs: Seq<BasicBlockView>,
    labels: Seq<(Seq<char>, usize)>,
    i: int,
    u: int,
)
    requires
        0 <= i < bbs.len(),
        0 <= u < stmt_links(bbs[i].stmts).len(),
        entries_contain(labels, stmt_links(bbs[i].stmts)[u]),
    ensures
        is_edge(bbs, labels, i, entries_value(labels, stmt_links(bbs[i].stmts)[u]) as int),
{
    let l = stmt_links(bbs[i].stmts)[u];
    lemma_stmt_links_member(bbs[i].stmts, u);
    let t = choose|t: int|
        0 <= t < bbs[i].stmts.len() && stmt_label_ref(bbs[i].stmts[t]) == Some(l);
    assert(match stmt_label_ref(bbs[i].stmts[t]) {
        Some(l2) => entries_contain(labels, l2) && entries_value(labels, l2) == entries_value(
            labels,
            l,
        ),
        None => false,
    });
}

/// Every member of `stmt_links` comes from some statement of the run.
proof fn lemma_stmt_links_member(stmts: Seq<StatementView>, u: int)
    requires
        0 <= u < stmt_links(stmts).len(),
    ensures
        exists|t: int|
            0 <= t < stmts.len() && stmt_label_ref(#[trigger] stmts[t]) == Some(
                stmt_links(stmts)[u],
            ),
    decreases stmts.len(),
{
    let ls = stmt_links(stmts);
    if stmts.len() == 0 {
    } else {
        let prefix = stmt_links(stmts.drop_last());
        if u < prefix.len() {
            lemma_stmt_links_member(stmts.drop_last(), u);
            let t = choose|t: int|
                0 <= t < stmts.drop_last().len() && stmt_label_ref(
                    #[trigger] stmts.drop_last()[t],
                ) == Some(prefix[u]);
            assert(stmts[t] == stmts.drop_last()[t]);
            assert(stmt_label_ref(stmts[t]) == Some(ls[u]));
        } else {
            match stmt_label_ref(stmts.last()) {
                Some(l) => {
                    assert(ls[u] == l);
                    assert(stmt_label_ref(stmts[stmts.len() - 1]) == Some(ls[u]));
                }
                None => {
                    assert(false);
                }
            }
        }
    }
}

/// Reachability propagates along an edge.
proof fn lemma_reach_step(
    bbs: Seq<BasicBlockView>,
    labels: Seq<(Seq<char>, usize)>,
    i: int,
    j: int,
)
    requires
        reachable(bbs, labels, i),
        is_edge(bbs, labels, i, j),
    ensures
        reachable(bbs, labels, j),
{
    let p = choose|p: Seq<int>| is_path(bbs, labels, p) && p.last() == i;
    let q = p.push(j);
    assert(q[0] == p[0]);
    assert(forall|t: int| 0 <= t < q.len() - 2 ==> #[trigger] q[t] == p[t] && q[t + 1] == p[t + 1]);
    assert(q[q.len() - 2] == i && q[q.len() - 1] == j);
    assert(is_path(bbs, labels, q));
    assert(q.last() == j);
}

/// After the three groups of successors of block `i` have been marked,
/// every edge leaving `i` ends in a marked block.
proof fn lemma_edge_cases_covered(
    bbs: Seq<BasicBlockView>,
    labels: Seq<(Seq<char>, usize)>,
    i: int,
    j: int,
    marked: Seq<bool>,
)
    requires
        0 <= i < bbs.len(),
        marked.len() == bbs.len(),
        is_edge(bbs, labels, i, j),
        0 <= j < bbs.len(),
        forall|u2: int|
            0 <= u2 < stmt_links(bbs[i].stmts).len() ==> (entries_contain(
                labels,
                stmt_links(bbs[i].stmts)[u2],
            ) ==> marked[entries_value(labels, stmt_links(bbs[i].stmts)[u2]) as int]),
        match bbs[i].condjmp {
            Some((_, JumpTargetView::BasicBlock(t))) => marked[t as int],
            _ => true,
        },
        match bbs[i].next {
            UcJumpTargetView::BasicBlock(t) => marked[t as int],
            _ => true,
        },
    ensures
        marked[j],
{
    let b = bbs[i];
    if exists|t: int|
        0 <= t < b.stmts.len() && (match stmt_label_ref(#[trigger] b.stmts[t]) {
            Some(l) => entries_contain(labels, l) && entries_value(labels, l) == j,
            None => false,
        }) {
        let t = choose|t: int|
            0 <= t < b.stmts.len() && (match stmt_label_ref(#[trigger] b.stmts[t]) {
                Some(l) => entries_contain(labels, l) && entries_value(labels, l) == j,
                None => false,
            });
        match stmt_label_ref(b.stmts[t]) {
            Some(l) => {
                lemma_stmt_links_has(b.stmts, t);
                let u = choose|u: int|
                    0 <= u < stmt_links(b.stmts).len() && stmt_links(b.stmts)[u] == l;
                assert(marked[entries_value(labels, stmt_links(b.stmts)[u]) as int]);
            }
            None => {}
        }
    }
}

/// Every statement that embeds a label contributes it to `stmt_links`.
proof fn lemma_stmt_links_has(stmts: Seq<StatementView>, t: int)
    requires
        0 <= t < stmts.len(),
        stmt_label_ref(stmts[t]) is Some,
    ensures
        exists|u: int|
            0 <= u < stmt_links(stmts).len() && stmt_links(stmts)[u] == stmt_label_ref(
                stmts[t],
            )->Some_0,
    decreases stmts.len(),
{
    if t == stmts.len() - 1 {
        let prefix = stmt_links(stmts.drop_last());
        assert(stmt_links(stmts)[prefix.len() as int] == stmt_label_ref(stmts[t])->Some_0);
    } else {
        lemma_stmt_links_has(stmts.drop_last(), t);
        let prefix = stmt_links(stmts.drop_last());
        let u = choose|u: int|
            0 <= u < prefix.len() && prefix[u] == stmt_label_ref(stmts.drop_last()[t])->Some_0;
        assert(stmt_links(stmts)[u] == prefix[u]);
        assert(stmts.drop_last()[t] == stmts[t]);
    }
}


// ---------------------------------------------------------------------------
// Block removal with splicing and renumbering (see `Module::mangle_bbs`).
// ---------------------------------------------------------------------------

/// Whether the removal map holds an entry for block `id`.
pub open spec fn trm_contains(tv: Seq<(usize, Option<usize>)>, id: int) -> bool {
    exists|w: int| 0 <= w < tv.len() && tv[w].0 == id
}

/// The replacement recorded for block `id`: `Some(target)` for a spliced
/// block, `None` for a plainly deleted one.
pub open spec fn trm_value(tv: Seq<(usize, Option<usize>)>, id: int) -> Option<usize> {
    let w = choose|w: int| 0 <= w < tv.len() && tv[w].0 == id;
    tv[w].1
}

/// A block that is deleted without a replacement target.
pub open spec fn trm_none_key(tv: Seq<(usize, Option<usize>)>, id: int) -> bool {
    trm_contains(tv, id) && trm_value(tv, id) is None
}

/// Shape of a removal map for a graph of `n` blocks: distinct keys, all
/// indices in range.
pub open spec fn trm_wf(tv: Seq<(usize, Option<usize>)>, n: int) -> bool {
    &&& forall|w1: int, w2: int| 0 <= w1 < w2 < tv.len() ==> tv[w1].0 != tv[w2].0
    &&& forall|w: int| 0 <= w < tv.len() ==> ((#[trigger] tv[w]).0 as int) < n
    &&& forall|w: int|
        0 <= w < tv.len() ==> ((#[trigger] tv[w]).1 is Some ==> (tv[w].1->Some_0 as int) < n)
}

/// Follow splice replacements transitively, up to `fuel` steps: a spliced
/// block's target may itself be spliced.
pub open spec fn chase(tv: Seq<(usize, Option<usize>)>, id: int, fuel: nat) -> int
    decreases fuel,
{
    if fuel == 0 {
        id
    } else if trm_contains(tv, id) && trm_value(tv, id) is Some {
        chase(tv, trm_value(tv, id)->Some_0 as int, (fuel - 1) as nat)
    } else {
        id
    }
}

/// How many removed blocks lie below index `x`.
pub open spec fn removed_below(tv: Seq<(usize, Option<usize>)>, x: int) -> int
    decreases x,
{
    if x <= 0 {
        0
    } else {
        removed_below(tv, x - 1) + (if trm_contains(tv, x - 1) {
            1int
        } else {
            0int
        })
    }
}

/// The index a reference to block `j` is rewritten to: the end of the
/// splice chain, compacted by the number of removed blocks below it.
pub open spec fn retarget(tv: Seq<(usize, Option<usize>)>, j: int, n: int) -> int {
    let c = chase(tv, j, (n + 1) as nat);
    c - removed_below(tv, c)
}

/// The continuation a reference to block `j` is rewritten to: the end of
/// the splice chain, compacted — or `Halt`, where the chain ends at a
/// block deleted without a replacement target (halting glue, whose
/// incoming continuations fall directly to the machine halt).
pub open spec fn retarget_uc(tv: Seq<(usize, Option<usize>)>, j: int, n: int)
    -> UcJumpTargetView<usize> {
    let c = chase(tv, j, (n + 1) as nat);
    if trm_none_key(tv, c) {
        UcJumpTargetView::Halt
    } else {
        UcJumpTargetView::BasicBlock((c - removed_below(tv, c)) as usize)
    }
}

/// Every splice chain of the map terminates within `n + 1` steps: it ends
/// at a block that is not removed, or at one deleted without a
/// replacement — never in a cycle of replacement targets.  The optimizer
/// guarantees this; splice targets follow control-flow edges.
pub open spec fn trm_chains_ok(tv: Seq<(usize, Option<usize>)>, n: int) -> bool {
    forall|w: int|
        0 <= w < tv.len() && (#[trigger] tv[w]).1 is Some ==> !(trm_contains(
            tv,
            chase(tv, tv[w].0 as int, (n + 1) as nat),
        ) && trm_value(tv, chase(tv, tv[w].0 as int, (n + 1) as nat)) is Some)
}

/// A block with its branch and continuation redirected through the
/// removal map: the branch through [`retarget`], the continuation through
/// [`retarget_uc`], so that a continuation into deleted halting glue
/// becomes `Halt`.
pub open spec fn rewrite_block(b: BasicBlockView, tv: Seq<(usize, Option<usize>)>, n: int)
    -> BasicBlockView {
    RawBasicBlockView {
        condjmp: match b.condjmp {
            Some((c, JumpTargetView::BasicBlock(t))) => Some(
                (c, JumpTargetView::BasicBlock(retarget(tv, t as int, n) as usize)),
            ),
            other => other,
        },
        next: match b.next {
            UcJumpTargetView::BasicBlock(t) => retarget_uc(tv, t as int, n),
            other => other,
        },
        ..b
    }
}

/// The first `k` blocks after removal and renumbering: removed blocks
/// vanish, surviving blocks keep their relative order with edges
/// redirected.
pub open spec fn mangle_blocks_upto(
    bbs: Seq<BasicBlockView>,
    tv: Seq<(usize, Option<usize>)>,
    k: int,
    n: int,
) -> Seq<BasicBlockView>
    decreases k,
{
    if k <= 0 {
        Seq::empty()
    } else {
        mangle_blocks_upto(bbs, tv, k - 1, n) + (if trm_contains(tv, k - 1) {
            Seq::empty()
        } else {
            seq![rewrite_block(bbs[k - 1], tv, n)]
        })
    }
}

/// Whether some instruction of the surviving blocks embeds label `l`.
pub open spec fn used_label(newbbs: Seq<BasicBlockView>, l: Seq<char>) -> bool {
    exists|i: int, t: int|
        0 <= i < newbbs.len() && 0 <= t < newbbs[i].stmts.len() && stmt_label_ref(
            #[trigger] newbbs[i].stmts[t],
        ) == Some(l)
}

/// The label table after removal: a label whose splice chain ends at a
/// removed block (the block itself deleted, or glue leading only to
/// deleted glue) is dropped; a label whose chain ends at a surviving
/// block is redirected to it; unreferenced duplicate aliases collapse to
/// the first one per (pre-renumbering) block.  The second component is
/// the set of pre-renumbering targets whose representative alias has been
/// kept.
pub open spec fn mangle_labels_upto(
    entries: Seq<(Seq<char>, usize)>,
    newbbs: Seq<BasicBlockView>,
    tv: Seq<(usize, Option<usize>)>,
    k: int,
    n: int,
) -> (Seq<(Seq<char>, usize)>, Set<usize>)
    decreases k,
{
    if k <= 0 {
        (Seq::empty(), Set::empty())
    } else {
        let r = mangle_labels_upto(entries, newbbs, tv, k - 1, n);
        let kv = entries[k - 1];
        if trm_contains(tv, chase(tv, kv.1 as int, (n + 1) as nat)) {
            r
        } else if used_label(newbbs, kv.0) {
            (r.0.push((kv.0, retarget(tv, kv.1 as int, n) as usize)), r.1)
        } else if r.1.contains(kv.1) {
            r
        } else {
            (r.0.push((kv.0, retarget(tv, kv.1 as int, n) as usize)), r.1.insert(kv.1))
        }
    }
}

/// The chase stays inside `0 .. n`.
proof fn lemma_chase_in_range(tv: Seq<(usize, Option<usize>)>, n: int, j: int, fuel: nat)
    requires
        trm_wf(tv, n),
        0 <= j < n,
    ensures
        0 <= chase(tv, j, fuel) < n,
    decreases fuel,
{
    if fuel > 0 && trm_contains(tv, j) && trm_value(tv, j) is Some {
        let w = choose|w: int| 0 <= w < tv.len() && tv[w].0 == j;
        assert(tv[w].1 is Some ==> (tv[w].1->Some_0 as int) < n);
        lemma_chase_in_range(tv, n, trm_value(tv, j)->Some_0 as int, (fuel - 1) as nat);
    }
}

/// Splice chains stop: the chase ends at an index that carries no
/// replacement target.
proof fn lemma_chase_stops(tv: Seq<(usize, Option<usize>)>, n: int, j: int)
    requires
        trm_wf(tv, n),
        trm_chains_ok(tv, n),
        0 <= j < n,
    ensures
        0 <= chase(tv, j, (n + 1) as nat) < n,
        !(trm_contains(tv, chase(tv, j, (n + 1) as nat)) && trm_value(
            tv,
            chase(tv, j, (n + 1) as nat),
        ) is Some),
{
    lemma_chase_in_range(tv, n, j, (n + 1) as nat);
    if trm_contains(tv, j) && trm_value(tv, j) is Some {
        let w = choose|w: int| 0 <= w < tv.len() && tv[w].0 == j;
        assert(tv[w].1 is Some);
        assert(!(trm_contains(tv, chase(tv, tv[w].0 as int, (n + 1) as nat)) && trm_value(
            tv,
            chase(tv, tv[w].0 as int, (n + 1) as nat),
        ) is Some));
    } else {
        assert(chase(tv, j, (n + 1) as nat) == j);
    }
}

/// The number of removed blocks below `x` is between 0 and `x`.
proof fn lemma_removed_below_le(tv: Seq<(usize, Option<usize>)>, x: int)
    requires
        x >= 0,
    ensures
        0 <= removed_below(tv, x) <= x,
    decreases x,
{
    if x > 0 {
        lemma_removed_below_le(tv, x - 1);
    }
}

/// A surviving block's compacted index lies below the compacted count of
/// all blocks.
proof fn lemma_compact_bound(tv: Seq<(usize, Option<usize>)>, c: int, n: int)
    requires
        0 <= c < n,
        !trm_contains(tv, c),
    ensures
        0 <= c - removed_below(tv, c) < n - removed_below(tv, n),
    decreases n,
{
    lemma_removed_below_le(tv, c);
    if n == c + 1 {
        assert(removed_below(tv, c + 1) == removed_below(tv, c));
    } else {
        lemma_compact_bound(tv, c, n - 1);
        assert(removed_below(tv, n) <= removed_below(tv, n - 1) + 1);
    }
}

/// The renumbered block list holds one block for each surviving index.
proof fn lemma_mangle_blocks_len(
    bbs: Seq<BasicBlockView>,
    tv: Seq<(usize, Option<usize>)>,
    k: int,
    n: int,
)
    requires
        k >= 0,
    ensures
        mangle_blocks_upto(bbs, tv, k, n).len() == k - removed_below(tv, k),
    decreases k,
{
    if k > 0 {
        lemma_mangle_blocks_len(bbs, tv, k - 1, n);
    }
}

/// Every block of the renumbered list keeps its edges inside the
/// renumbered graph.
proof fn lemma_mangle_blocks_wf(
    bbs: Seq<BasicBlockView>,
    tv: Seq<(usize, Option<usize>)>,
    k: int,
    n: int,
)
    requires
        trm_wf(tv, n),
        trm_chains_ok(tv, n),
        bbs.len() == n,
        forall|i: int| 0 <= i < n ==> block_edges_ok(#[trigger] bbs[i], n),
        forall|i: int|
            0 <= i < n && !trm_contains(tv, i) ==> surviving_condjmp_ok(#[trigger] bbs[i], tv, n),
        0 <= k <= n,
    ensures
        forall|q: int|
            0 <= q < mangle_blocks_upto(bbs, tv, k, n).len() ==> block_edges_ok(
                #[trigger] mangle_blocks_upto(bbs, tv, k, n)[q],
                n - removed_below(tv, n),
            ),
    decreases k,
{
    if k > 0 {
        lemma_mangle_blocks_wf(bbs, tv, k - 1, n);
        let pre = mangle_blocks_upto(bbs, tv, k - 1, n);
        let cur = mangle_blocks_upto(bbs, tv, k, n);
        if !trm_contains(tv, k - 1) {
            let b = bbs[k - 1];
            let rb = rewrite_block(b, tv, n);
            assert(block_edges_ok(rb, n - removed_below(tv, n))) by {
                assert(surviving_condjmp_ok(b, tv, n));
                match b.condjmp {
                    Some((c, JumpTargetView::BasicBlock(t))) => {
                        lemma_chase_in_range(tv, n, t as int, (n + 1) as nat);
                        lemma_compact_bound(tv, chase(tv, t as int, (n + 1) as nat), n);
                    }
                    _ => {}
                }
                match b.next {
                    UcJumpTargetView::BasicBlock(t) => {
                        lemma_chase_stops(tv, n, t as int);
                        let c = chase(tv, t as int, (n + 1) as nat);
                        if !trm_none_key(tv, c) {
                            assert(!trm_contains(tv, c));
                            lemma_compact_bound(tv, c, n);
                        }
                    }
                    _ => {}
                }
            }
            assert(forall|q: int| 0 <= q < pre.len() ==> cur[q] == pre[q]);
            assert(cur[cur.len() - 1] == rb);
        } else {
            assert(cur =~= pre);
        }
    }
}

/// Whether a block's conditional branch, after following splice chains,
/// lands on a surviving block.  Needed of every surviving block for the
/// renumbered graph to be well formed: a branch target must name a
/// block, so a branch into deleted glue has no rewrite — the optimizer
/// never deletes a block such a branch enters.
pub open spec fn surviving_condjmp_ok(
    b: BasicBlockView,
    tv: Seq<(usize, Option<usize>)>,
    n: int,
) -> bool {
    match b.condjmp {
        Some((_, JumpTargetView::BasicBlock(t))) => !trm_contains(
            tv,
            chase(tv, t as int, (n + 1) as nat),
        ),
        _ => true,
    }
}

/// The renumbered label table keeps distinct keys drawn from the old
/// table, and every kept label names a valid renumbered block.
proof fn lemma_mangle_labels_ok(
    entries: Seq<(Seq<char>, usize)>,
    newbbs: Seq<BasicBlockView>,
    tv: Seq<(usize, Option<usize>)>,
    k: int,
    n: int,
)
    requires
        entries_wf(entries),
        trm_wf(tv, n),
        0 <= k <= entries.len(),
        forall|w: int| 0 <= w < entries.len() ==> ((#[trigger] entries[w]).1 as int) < n,
    ensures
        ({
            let acc = mangle_labels_upto(entries, newbbs, tv, k, n).0;
            &&& forall|q: int|
                0 <= q < acc.len() ==> exists|w: int|
                    0 <= w < k && (#[trigger] acc[q]).0 == entries[w].0
            &&& entries_wf(acc)
            &&& forall|q: int|
                0 <= q < acc.len() ==> ((#[trigger] acc[q]).1 as int) < n - removed_below(tv, n)
        }),
    decreases k,
{
    if k > 0 {
        lemma_mangle_labels_ok(entries, newbbs, tv, k - 1, n);
        let pre = mangle_labels_upto(entries, newbbs, tv, k - 1, n).0;
        let acc = mangle_labels_upto(entries, newbbs, tv, k, n).0;
        let kv = entries[k - 1];
        if acc.len() == pre.len() + 1 {
            assert(!trm_contains(tv, chase(tv, kv.1 as int, (n + 1) as nat)));
            assert(((acc[acc.len() - 1]).1 as int) < n - removed_below(tv, n)) by {
                lemma_chase_in_range(tv, n, kv.1 as int, (n + 1) as nat);
                lemma_compact_bound(tv, chase(tv, kv.1 as int, (n + 1) as nat), n);
            }
            assert(forall|q: int| 0 <= q < pre.len() ==> acc[q] == pre[q]);
            assert(acc[acc.len() - 1].0 == entries[k - 1].0);
            assert(entries_wf(acc)) by {
                assert forall|q1: int, q2: int| 0 <= q1 < q2 < acc.len() implies acc[q1].0
                    != acc[q2].0 by {
                    if q2 == acc.len() - 1 {
                        let w = choose|w: int|
                            0 <= w < k - 1 && (#[trigger] acc[q1]).0 == entries[w].0;
                        assert(entries[w].0 != entries[k - 1].0);
                    }
                }
            }
            assert forall|q: int| 0 <= q < acc.len() implies exists|w: int|
                0 <= w < k && (#[trigger] acc[q]).0 == entries[w].0 by {
                if q < pre.len() {
                    let w = choose|w: int| 0 <= w < k - 1 && (#[trigger] pre[q]).0 == entries[w].0;
                    assert(acc[q].0 == entries[w].0);
                } else {
                    assert(acc[q].0 == entries[k - 1].0);
                }
            }
        } else {
            assert(acc =~= pre);
            assert forall|q: int| 0 <= q < acc.len() implies exists|w: int|
                0 <= w < k && (#[trigger] acc[q]).0 == entries[w].0 by {
                let w = choose|w: int| 0 <= w < k - 1 && (#[trigger] pre[q]).0 == entries[w].0;
                assert(acc[q].0 == entries[w].0);
            }
        }
    }
}


/// The removal map's entry for `id`, if any.
fn trm_get_exec(trm: &Vec<(usize, Option<usize>)>, id: usize) -> (r: Option<Option<usize>>)
    requires
        forall|w1: int, w2: int| 0 <= w1 < w2 < trm@.len() ==> trm@[w1].0 != trm@[w2].0,
    ensures
        (r is Some) == trm_contains(trm@, id as int),
        r is Some ==> r->Some_0 == trm_value(trm@, id as int),
{
    let n = trm.len();
    let mut w: usize = 0;
    while w < n
        invariant
            n == trm@.len(),
            0 <= w <= n,
            forall|w2: int| 0 <= w2 < w ==> trm@[w2].0 != id,
            forall|w1: int, w2: int| 0 <= w1 < w2 < trm@.len() ==> trm@[w1].0 != trm@[w2].0,
        decreases n - w,
    {
        if trm[w].0 == id {
            proof {
                assert(trm@[w as int].0 == id);
                let c = choose|c: int| 0 <= c < trm@.len() && trm@[c].0 == id;
                if c != w as int {
                    assert(false);
                }
            }
            return Some(trm[w].1);
        }
        w += 1;
    }
    None
}

/// Follow the splice chain from `j` to its end.
fn chase_exec(trm: &Vec<(usize, Option<usize>)>, j: usize, n: usize) -> (c: usize)
    requires
        trm_wf(trm@, n as int),
        (j as int) < n,
        n < usize::MAX,
    ensures
        c as int == chase(trm@, j as int, (n + 1) as nat),
        (c as int) < n,
{
    let ghost tv = trm@;
    let mut cur = j;
    let mut steps: usize = 0;
    while steps <= n
        invariant
            tv == trm@,
            trm_wf(tv, n as int),
            0 <= (cur as int) < n,
            steps <= n + 1,
            n < usize::MAX,
            chase(tv, j as int, (n + 1) as nat) == chase(tv, cur as int, (n + 1 - steps) as nat),
        ensures
            cur as int == chase(tv, j as int, (n + 1) as nat),
            tv == trm@,
        decreases n + 1 - steps,
    {
        let e = trm_get_exec(trm, cur);
        match e {
            Some(Some(t)) => {
                proof {
                    assert(trm_contains(tv, cur as int) && trm_value(tv, cur as int) is Some);
                    assert(trm_value(tv, cur as int)->Some_0 == t);
                    assert((n + 1 - steps) as nat > 0);
                    assert(chase(tv, cur as int, (n + 1 - steps) as nat) == chase(
                        tv,
                        t as int,
                        (n + 1 - (steps + 1)) as nat,
                    ));
                    let w = choose|w: int| 0 <= w < tv.len() && tv[w].0 == cur as int;
                    assert((tv[w].1->Some_0 as int) < n);
                }
                cur = t;
                steps += 1;
            }
            _ => {
                proof {
                    assert(!(trm_contains(tv, cur as int) && trm_value(tv, cur as int) is Some));
                    assert(chase(tv, cur as int, (n + 1 - steps) as nat) == cur as int);
                }
                break ;
            }
        }
    }
    cur
}

/// Count the removed blocks below index `x`.
fn removed_below_exec(trm: &Vec<(usize, Option<usize>)>, x: usize) -> (cnt: usize)
    requires
        forall|w1: int, w2: int| 0 <= w1 < w2 < trm@.len() ==> trm@[w1].0 != trm@[w2].0,
    ensures
        cnt as int == removed_below(trm@, x as int),
        cnt <= x,
{
    let ghost tv = trm@;
    let mut cnt: usize = 0;
    let mut i: usize = 0;
    while i < x
        invariant
            tv == trm@,
            forall|w1: int, w2: int| 0 <= w1 < w2 < tv.len() ==> tv[w1].0 != tv[w2].0,
            0 <= i <= x,
            cnt <= i,
            cnt as int == removed_below(tv, i as int),
        decreases x - i,
    {
        let e = trm_get_exec(trm, i);
        match e {
            Some(_) => {
                cnt += 1;
            }
            None => {}
        }
        i += 1;
    }
    cnt
}

/// Whether any instruction of the given blocks embeds the label `k`.
fn label_used_exec(newbbs: &Vec<BasicBlock>, k: &String) -> (r: bool)
    ensures
        r == used_label(newbbs.deep_view(), k@),
{
    let ghost nbv = newbbs.deep_view();
    let n = newbbs.len();
    let mut i: usize = 0;
    while i < n
        invariant
            n == nbv.len(),
            nbv == newbbs.deep_view(),
            0 <= i <= n,
            forall|i2: int, t2: int|
                0 <= i2 < i && 0 <= t2 < nbv[i2].stmts.len() ==> stmt_label_ref(
                    #[trigger] nbv[i2].stmts[t2],
                ) != Some(k@),
        decreases n - i,
    {
        let m = newbbs[i].stmts.len();
        let mut t: usize = 0;
        proof {
            assert(nbv[i as int] == newbbs@[i as int].deep_view());
            assert(nbv[i as int].stmts.len() == m);
        }
        while t < m
            invariant
                n == nbv.len(),
                nbv == newbbs.deep_view(),
                0 <= i < n,
                m == nbv[i as int].stmts.len(),
                m == newbbs@[i as int].stmts@.len(),
                0 <= t <= m,
                forall|i2: int, t2: int|
                    0 <= i2 < i && 0 <= t2 < nbv[i2].stmts.len() ==> stmt_label_ref(
                        #[trigger] nbv[i2].stmts[t2],
                    ) != Some(k@),
                forall|t2: int|
                    0 <= t2 < t ==> stmt_label_ref(#[trigger] nbv[i as int].stmts[t2]) != Some(
                        k@,
                    ),
            decreases m - t,
        {
            proof {
                assert(nbv[i as int] == newbbs@[i as int].deep_view());
                assert(nbv[i as int].stmts[t as int] == newbbs@[i as int].stmts@[t as int]@);
            }
            let hit = match &newbbs[i].stmts[t].cmd {
                crate::stmt::Command::Def(crate::stmt::Argument::Label(l)) => *l == *k,
                crate::stmt::Command::Wa(_, crate::stmt::Argument::Label(l)) => *l == *k,
                _ => false,
            };
            if hit {
                proof {
                    assert(stmt_label_ref(nbv[i as int].stmts[t as int]) == Some(k@));
                }
                return true;
            }
            t += 1;
        }
        i += 1;
    }
    proof {
        if used_label(nbv, k@) {
            let (i2, t2) = choose|i2: int, t2: int|
                0 <= i2 < nbv.len() && 0 <= t2 < nbv[i2].stmts.len() && stmt_label_ref(
                    #[trigger] nbv[i2].stmts[t2],
                ) == Some(k@);
            assert(false);
        }
    }
    false
}

impl Module {
    /// Remove and renumber blocks according to the given removal map
    /// (old index, optional replacement): an entry with a target marks a
    /// spliced block whose incoming edges are redirected, following
    /// chains, to the target; an entry without one marks a block deleted
    /// outright — a continuation whose chain ends on such a block becomes
    /// `Halt`.  Surviving blocks keep their relative order, with only
    /// their branch and continuation ids rewritten; indices are
    /// compacted; a label whose chain ends at a deleted block is dropped,
    /// one whose chain ends at a surviving block is redirected to it, and
    /// unreferenced duplicate aliases collapse to one per block.
    ///
    /// All of this holds for any removal map with distinct, in-range
    /// keys.  The renumbered graph is additionally well formed whenever
    /// the splice chains terminate and no surviving conditional branch
    /// leads into a deleted block — which is true of every map the
    /// optimizer builds, since splice targets follow control-flow edges.
    pub fn mangle_bbs(&mut self, trm: Vec<(usize, Option<usize>)>)
        requires
            old(self).wf(),
            old(self).bbs@.len() < usize::MAX,
            trm_wf(trm@, old(self).bbs_view().len() as int),
        ensures
            ({
                let n = old(self).bbs_view().len() as int;
                let newbbs = mangle_blocks_upto(old(self).bbs_view(), trm@, n, n);
                &&& final(self).bbs_view() == newbbs
                &&& final(self).labels@ == mangle_labels_upto(
                    old(self).labels@,
                    newbbs,
                    trm@,
                    old(self).labels@.len() as int,
                    n,
                ).0
                &&& final(self).bbs_view().len() == n - removed_below(trm@, n)
                &&& final(self).bbs_view().len() <= old(self).bbs_view().len()
                &&& final(self).labels.wf()
                &&& (trm_chains_ok(trm@, n) && (forall|i: int|
                    0 <= i < n && !trm_contains(trm@, i) ==> surviving_condjmp_ok(
                        #[trigger] old(self).bbs_view()[i],
                        trm@,
                        n,
                    ))) ==> final(self).wf()
            }),
    {
        let ghost tv = trm@;
        let ghost bbsv = self.bbs_view();
        let ghost lv = self.labels@;
        let n = self.bbs.len();
        let ghost ni = n as int;
        // phase 1: drop removed blocks, redirect the edges of the others
        let mut newbbs: Vec<BasicBlock> = Vec::new();
        let mut k: usize = 0;
        proof {
            assert(newbbs.deep_view() =~= mangle_blocks_upto(bbsv, tv, 0, ni));
        }
        while k < n
            invariant
                tv == trm@,
                bbsv == old(self).bbs_view(),
                lv == old(self).labels@,
                n == bbsv.len() < usize::MAX,
                ni == n as int,
                self.bbs@.len() == n,
                bbsv == self.bbs_view(),
                self.labels@ == lv,
                old(self).wf(),
                trm_wf(tv, ni),
                0 <= k <= n,
                newbbs.deep_view() == mangle_blocks_upto(bbsv, tv, k as int, ni),
            decreases n - k,
        {
            let ghost pre = newbbs.deep_view();
            let e = trm_get_exec(&trm, k);
            match e {
                Some(_) => {
                    proof {
                        assert(trm_contains(tv, k as int));
                        assert(mangle_blocks_upto(bbsv, tv, k + 1, ni) =~= pre);
                    }
                }
                None => {
                    proof {
                        assert(!trm_contains(tv, k as int));
                        assert(block_edges_ok(bbsv[k as int], ni));
                        assert(bbsv[k as int] == self.bbs@[k as int].deep_view());
                    }
                    let b = &self.bbs[k];
                    let rcj: Option<(crate::stmt::CondJumpCond, JumpTarget<usize>)> =
                        match &b.condjmp {
                        Some((c, JumpTarget::BasicBlock(t))) => {
                            let cc = chase_exec(&trm, *t, n);
                            let rb = removed_below_exec(&trm, cc);
                            proof {
                                assert((cc - rb) as int == retarget(tv, *t as int, ni));
                            }
                            Some((*c, JumpTarget::BasicBlock(cc - rb)))
                        }
                        Some((c, JumpTarget::Absolute(a))) => Some((*c, JumpTarget::Absolute(*a))),
                        None => None,
                    };
                    let rnx: UcJumpTarget<usize> = match &b.next {
                        UcJumpTarget::BasicBlock(t) => {
                            let cc = chase_exec(&trm, *t, n);
                            let gone = match trm_get_exec(&trm, cc) {
                                Some(None) => true,
                                _ => false,
                            };
                            if gone {
                                proof {
                                    assert(trm_none_key(tv, cc as int));
                                    assert(retarget_uc(tv, *t as int, ni)
                                        == UcJumpTargetView::<usize>::Halt);
                                }
                                UcJumpTarget::Halt
                            } else {
                                let rb = removed_below_exec(&trm, cc);
                                proof {
                                    assert(!trm_none_key(tv, cc as int));
                                    assert(retarget_uc(tv, *t as int, ni)
                                        == UcJumpTargetView::<usize>::BasicBlock((cc - rb) as usize));
                                }
                                UcJumpTarget::BasicBlock(cc - rb)
                            }
                        }
                        UcJumpTarget::Absolute(a) => UcJumpTarget::Absolute(*a),
                        UcJumpTarget::Return => UcJumpTarget::Return,
                        UcJumpTarget::Halt => UcJumpTarget::Halt,
                    };
                    let nb = BasicBlock {
                        stmts: clone_stmts(&b.stmts),
                        condjmp: rcj,
                        begin_loc: match &b.begin_loc {
                            Some(l) => Some(l.clone()),
                            None => None,
                        },
                        endjmp_loc: match &b.endjmp_loc {
                            Some(l) => Some(l.clone()),
                            None => None,
                        },
                        next: rnx,
                    };
                    proof {
                        assert(nb@ == rewrite_block(bbsv[k as int], tv, ni));
                    }
                    newbbs.push(nb);
                    proof {
                        assert(newbbs.deep_view() =~= pre.push(
                            rewrite_block(bbsv[k as int], tv, ni),
                        ));
                        assert(mangle_blocks_upto(bbsv, tv, k + 1, ni) =~= pre.push(
                            rewrite_block(bbsv[k as int], tv, ni),
                        ));
                    }
                }
            }
            k += 1;
        }
        let ghost nbv = mangle_blocks_upto(bbsv, tv, ni, ni);
        proof {
            assert(newbbs.deep_view() == nbv);
        }
        // phase 2: rebuild the label table
        let mut newlabels: Vec<(String, usize)> = Vec::new();
        let mut seen: Vec<usize> = Vec::new();
        let ln = self.labels.entries.len();
        let mut w: usize = 0;
        proof {
            assert(newlabels.deep_view() =~= mangle_labels_upto(lv, nbv, tv, 0, ni).0);
            assert forall|x: usize|
                mangle_labels_upto(lv, nbv, tv, 0, ni).1.contains(x) <==> (exists|q: int|
                0 <= q < seen@.len() && seen@[q] == x) by {}
        }
        while w < ln
            invariant
                tv == trm@,
                bbsv == old(self).bbs_view(),
                lv == old(self).labels@,
                ni == bbsv.len() as int,
                ni == n as int,
                n < usize::MAX,
                self.labels@ == lv,
                ln == lv.len(),
                old(self).wf(),
                trm_wf(tv, ni),
                nbv == mangle_blocks_upto(bbsv, tv, ni, ni),
                newbbs.deep_view() == nbv,
                0 <= w <= ln,
                newlabels.deep_view() == mangle_labels_upto(lv, nbv, tv, w as int, ni).0,
                forall|x: usize|
                    mangle_labels_upto(lv, nbv, tv, w as int, ni).1.contains(x) <==> (exists|
                        q: int,
                    |
                        0 <= q < seen@.len() && seen@[q] == x),
            decreases ln - w,
        {
            let ghost pre = newlabels.deep_view();
            let ghost preseen = mangle_labels_upto(lv, nbv, tv, w as int, ni).1;
            let kstr = self.labels.entries[w].0.clone();
            let v = self.labels.entries[w].1;
            proof {
                assert(lv[w as int] == (kstr@, v));
            }
            proof {
                assert((v as int) < ni);
            }
            let cc = chase_exec(&trm, v, n);
            let dropped = match trm_get_exec(&trm, cc) {
                Some(_) => true,
                None => false,
            };
            if dropped {
                proof {
                    assert(trm_contains(tv, chase(tv, v as int, (ni + 1) as nat)));
                    assert(mangle_labels_upto(lv, nbv, tv, w + 1, ni).0 =~= pre);
                }
            } else {
                proof {
                    assert(!trm_contains(tv, chase(tv, v as int, (ni + 1) as nat)));
                }
                if label_used_exec(&newbbs, &kstr) {
                    let rb = removed_below_exec(&trm, cc);
                    proof {
                        assert((cc - rb) as int == retarget(tv, v as int, ni));
                    }
                    let nv = cc - rb;
                    newlabels.push((kstr, nv));
                    proof {
                        assert(newlabels.deep_view() =~= pre.push(
                            (lv[w as int].0, (retarget(tv, v as int, ni) as usize)),
                        ));
                        assert(mangle_labels_upto(lv, nbv, tv, w + 1, ni).0 =~= newlabels.deep_view());
                        assert(mangle_labels_upto(lv, nbv, tv, w + 1, ni).1 == preseen);
                    }
                } else {
                    let mut dup = false;
                    let sn = seen.len();
                    let mut q: usize = 0;
                    while q < sn
                        invariant
                            sn == seen@.len(),
                            0 <= q <= sn,
                            dup == exists|q2: int| 0 <= q2 < q && seen@[q2] == v,
                        decreases sn - q,
                    {
                        if seen[q] == v {
                            dup = true;
                            proof {
                                assert(seen@[q as int] == v);
                            }
                        }
                        q += 1;
                    }
                    if dup {
                        proof {
                            assert(preseen.contains(v));
                            assert(mangle_labels_upto(lv, nbv, tv, w + 1, ni).0 =~= pre);
                            assert(mangle_labels_upto(lv, nbv, tv, w + 1, ni).1 == preseen);
                        }
                    } else {
                        proof {
                            assert(!preseen.contains(v));
                        }
                        let rb = removed_below_exec(&trm, cc);
                        proof {
                            assert((cc - rb) as int == retarget(tv, v as int, ni));
                        }
                        let nv = cc - rb;
                        newlabels.push((kstr, nv));
                        let ghost preseen2 = seen@;
                        seen.push(v);
                        proof {
                            assert(newlabels.deep_view() =~= pre.push(
                                (lv[w as int].0, (retarget(tv, v as int, ni) as usize)),
                            ));
                            assert(mangle_labels_upto(lv, nbv, tv, w + 1, ni).0
                                =~= newlabels.deep_view());
                            assert(mangle_labels_upto(lv, nbv, tv, w + 1, ni).1 == preseen.insert(
                                v,
                            ));
                            assert forall|x: usize|
                                preseen.insert(v).contains(x) <==> (exists|q2: int|
                                0 <= q2 < seen@.len() && seen@[q2] == x) by {
                                if x == v {
                                    assert(seen@[seen@.len() - 1] == v);
                                } else {
                                    if preseen.contains(x) {
                                        let q2 = choose|q2: int|
                                            0 <= q2 < preseen2.len() && preseen2[q2] == x;
                                        assert(seen@[q2] == x);
                                    }
                                    if exists|q2: int| 0 <= q2 < seen@.len() && seen@[q2] == x {
                                        let q2 = choose|q2: int|
                                            0 <= q2 < seen@.len() && seen@[q2] == x;
                                        assert(q2 < preseen2.len());
                                        assert(preseen2[q2] == x);
                                    }
                                }
                            }
                        }
                    }
                }
            }
            w += 1;
        }
        // phase 3: install the new graph
        self.bbs = newbbs;
        self.labels = LabelMap { entries: newlabels };
        proof {
            lemma_mangle_blocks_len(bbsv, tv, ni, ni);
            lemma_removed_below_le(tv, ni);
            lemma_mangle_labels_ok(lv, nbv, tv, lv.len() as int, ni);
            assert(self.labels.wf());
            if trm_chains_ok(tv, ni) && (forall|i: int|
                0 <= i < ni && !trm_contains(tv, i) ==> surviving_condjmp_ok(
                    #[trigger] bbsv[i],
                    tv,
                    ni,
                )) {
                lemma_mangle_blocks_wf(bbsv, tv, ni, ni);
                assert(self.wf());
            }
        }
    }
}

/// A copy of a statement list (element for element).
fn clone_stmts(stmts: &Vec<crate::stmt::Statement>) -> (r: Vec<crate::stmt::Statement>)
    ensures
        r@ == stmts@,
{
    let n = stmts.len();
    let mut r: Vec<crate::stmt::Statement> = Vec::new();
    let mut i: usize = 0;
    while i < n
        invariant
            n == stmts@.len(),
            0 <= i <= n,
            r@ == stmts@.take(i as int),
        decreases n - i,
    {
        r.push(stmts[i].clone());
        proof {
            assert(r@ =~= stmts@.take(i + 1));
        }
        i += 1;
    }
    proof {
        assert(stmts@.take(n as int) =~= stmts@);
    }
    r
}


// ---------------------------------------------------------------------------
// One rewrite cycle (see `Module::optimize_once`).
// ---------------------------------------------------------------------------

/// What the per-block rewrites make of one block: a peephole pass, then
/// tail-call conversion.
pub open spec fn block_opt(b: BasicBlockView, labels: Seq<(Seq<char>, usize)>) -> BasicBlockView {
    BasicBlock::tail_call_spec(
        RawBasicBlockView { stmts: crate::block::peephole(b.stmts), ..b },
        labels,
    )
}

/// Whether block `i` is splice glue: not the entry block, no instructions,
/// no conditional branch, and a continuation that names a block.  Every
/// edge into such a block can point at its continuation target instead.
///
/// Empty halting glue — continuation `Halt` — is removed separately (see
/// [`halt_glue`] and [`canon_trm`]): continuations into it become `Halt`,
/// but it is kept when a conditional branch leads into it, since a branch
/// target must name a block.  An empty block whose continuation is
/// `Return` or an absolute address is kept: those exits cannot be folded
/// into an incoming edge.  The entry block is kept so that the entry
/// point stays block 0.
pub open spec fn splice_candidate(bbs: Seq<BasicBlockView>, i: int) -> bool {
    1 <= i < bbs.len() && block_is_empty(bbs[i]) && bbs[i].next is BasicBlock
}

/// The continuation target of a splice candidate.
pub open spec fn splice_target(bbs: Seq<BasicBlockView>, i: int) -> usize {
    bbs[i].next->BasicBlock_0
}

/// Whether the chain of splice candidates starting at `i` leaves the
/// candidate set within `fuel` steps.  A cycle of empty blocks never
/// leaves; its members are not spliced.
pub open spec fn leaves(bbs: Seq<BasicBlockView>, i: int, fuel: nat) -> bool
    decreases fuel,
{
    if !splice_candidate(bbs, i) {
        true
    } else if fuel == 0 {
        false
    } else {
        leaves(bbs, splice_target(bbs, i) as int, (fuel - 1) as nat)
    }
}

/// Whether block `i` is actually spliced: splice glue whose chain of
/// targets ends at a real block.
pub open spec fn eligible(bbs: Seq<BasicBlockView>, i: int) -> bool {
    splice_candidate(bbs, i) && leaves(bbs, i, (bbs.len() + 1) as nat)
}

/// Whether block `i` is halting glue: not the entry block, no
/// instructions, no conditional branch, continuation `Halt`.  Edges into
/// such a block can fall straight to the machine halt.
pub open spec fn halt_glue(bbs: Seq<BasicBlockView>, i: int) -> bool {
    1 <= i < bbs.len() && block_is_empty(bbs[i]) && bbs[i].next is Halt
}

/// The end of the chain of spliced glue starting at `t`: the first block
/// that is not spliced glue, reached within `fuel` steps.
pub open spec fn glue_end(bbs: Seq<BasicBlockView>, t: int, fuel: nat) -> int
    decreases fuel,
{
    if !eligible(bbs, t) {
        t
    } else if fuel == 0 {
        t
    } else {
        glue_end(bbs, splice_target(bbs, t) as int, (fuel - 1) as nat)
    }
}

/// Whether the conditional branch of some reachable block leads, through
/// spliced glue, to block `i`.  Such a block is never deleted: a branch
/// target must name a block, so a branch into deleted glue would have no
/// rewrite.
pub open spec fn cj_protected(
    bbs: Seq<BasicBlockView>,
    labels: Seq<(Seq<char>, usize)>,
    i: int,
) -> bool {
    exists|j: int|
        0 <= j < bbs.len() && #[trigger] reachable(bbs, labels, j) && (match bbs[j].condjmp {
            Some((_, JumpTargetView::BasicBlock(t))) => glue_end(
                bbs,
                t as int,
                (bbs.len() + 1) as nat,
            ) == i,
            _ => false,
        })
}

/// The removal map of one rewrite cycle, over the per-block-optimized
/// graph: an unreachable block is deleted outright; a reachable spliced
/// block records its continuation target; reachable halting glue is
/// deleted — its incoming continuations become `Halt` — unless a
/// conditional branch leads into it.
pub open spec fn canon_trm(
    bbs: Seq<BasicBlockView>,
    labels: Seq<(Seq<char>, usize)>,
    k: int,
) -> Seq<(usize, Option<usize>)>
    decreases k,
{
    if k <= 0 {
        Seq::empty()
    } else {
        canon_trm(bbs, labels, k - 1) + (if !reachable(bbs, labels, k - 1) {
            seq![((k - 1) as usize, Option::<usize>::None)]
        } else if eligible(bbs, k - 1) {
            seq![((k - 1) as usize, Some(splice_target(bbs, k - 1)))]
        } else if halt_glue(bbs, k - 1) && !cj_protected(bbs, labels, k - 1) {
            seq![((k - 1) as usize, Option::<usize>::None)]
        } else {
            Seq::empty()
        })
    }
}

/// Membership and lookup of the canonical removal map.
proof fn lemma_canon_trm_facts(
    bbs: Seq<BasicBlockView>,
    labels: Seq<(Seq<char>, usize)>,
    k: int,
)
    requires
        0 <= k <= usize::MAX,
    ensures
        ({
            let tv = canon_trm(bbs, labels, k);
            &&& forall|w: int| 0 <= w < tv.len() ==> ((#[trigger] tv[w]).0 as int) < k
            &&& forall|w1: int, w2: int| 0 <= w1 < w2 < tv.len() ==> tv[w1].0 < tv[w2].0
            &&& forall|j: int|
                #![trigger trm_contains(tv, j)]
                0 <= j < k ==> (trm_contains(tv, j) <==> (!reachable(bbs, labels, j) || eligible(
                    bbs,
                    j,
                ) || (halt_glue(bbs, j) && !cj_protected(bbs, labels, j))))
            &&& forall|j: int|
                #![trigger trm_value(tv, j)]
                0 <= j < k && trm_contains(tv, j) ==> trm_value(tv, j) == (if reachable(
                    bbs,
                    labels,
                    j,
                ) && eligible(bbs, j) {
                    Some(splice_target(bbs, j))
                } else {
                    Option::<usize>::None
                })
        }),
    decreases k,
{
    if k > 0 {
        lemma_canon_trm_facts(bbs, labels, k - 1);
        let pre = canon_trm(bbs, labels, k - 1);
        let tv = canon_trm(bbs, labels, k);
        let appended = !reachable(bbs, labels, k - 1) || eligible(bbs, k - 1) || (halt_glue(
            bbs,
            k - 1,
        ) && !cj_protected(bbs, labels, k - 1));
        assert(forall|w: int| 0 <= w < pre.len() ==> tv[w] == pre[w]);
        if appended {
            if reachable(bbs, labels, k - 1) && eligible(bbs, k - 1) {
                assert(tv =~= pre.push(
                    (((k - 1) as usize), Some(splice_target(bbs, k - 1))),
                ));
            } else {
                assert(tv =~= pre.push((((k - 1) as usize), Option::<usize>::None)));
            }
            assert(tv.len() == pre.len() + 1);
            assert(tv[pre.len() as int].0 == (k - 1) as usize);
            assert(tv[pre.len() as int].0 as int == k - 1);
        } else {
            assert(tv =~= pre);
        }
        assert forall|j: int| #![trigger trm_contains(tv, j)] 0 <= j < k implies (trm_contains(
            tv,
            j,
        ) <==> (!reachable(bbs, labels, j) || eligible(bbs, j) || (halt_glue(bbs, j)
            && !cj_protected(bbs, labels, j)))) by {
            if j < k - 1 {
                if trm_contains(pre, j) {
                    let w = choose|w: int| 0 <= w < pre.len() && pre[w].0 == j;
                    assert(tv[w].0 == j);
                }
                if trm_contains(tv, j) {
                    let w = choose|w: int| 0 <= w < tv.len() && tv[w].0 == j;
                    if w >= pre.len() {
                        assert(false);
                    }
                    assert(pre[w].0 == j);
                }
            } else {
                if appended {
                    assert(tv[pre.len() as int].0 == j);
                    assert(trm_contains(tv, j));
                } else {
                    if trm_contains(tv, j) {
                        let w = choose|w: int| 0 <= w < tv.len() && tv[w].0 == j;
                        assert(pre[w].0 == j);
                        assert((pre[w].0 as int) < k - 1);
                        assert(false);
                    }
                }
            }
        }
        assert forall|j: int| #![trigger trm_value(tv, j)] 0 <= j < k && trm_contains(tv, j)
            implies trm_value(tv, j) == (if reachable(bbs, labels, j) && eligible(bbs, j) {
            Some(splice_target(bbs, j))
        } else {
            Option::<usize>::None
        }) by {
            let w = choose|w: int| 0 <= w < tv.len() && tv[w].0 == j;
            assert(trm_value(tv, j) == tv[w].1);
            if j < k - 1 {
                if w >= pre.len() {
                    assert(tv[w].0 == (k - 1) as usize);
                    assert(false);
                }
                assert(trm_contains(pre, j));
                let w2 = choose|w2: int| 0 <= w2 < pre.len() && pre[w2].0 == j;
                if w2 != w {
                    assert(false);
                }
                assert(trm_value(pre, j) == pre[w2].1);
            } else {
                assert(appended);
                if w < pre.len() {
                    assert((pre[w].0 as int) < k - 1);
                    assert(false);
                }
                assert(w == pre.len() as int);
            }
        }
    }
}

/// A chain that leaves the candidate set with some fuel also leaves it
/// with more fuel.
proof fn lemma_leaves_mono(bbs: Seq<BasicBlockView>, i: int, f1: nat, f2: nat)
    requires
        leaves(bbs, i, f1),
        f1 <= f2,
    ensures
        leaves(bbs, i, f2),
    decreases f1,
{
    if splice_candidate(bbs, i) {
        lemma_leaves_mono(bbs, splice_target(bbs, i) as int, (f1 - 1) as nat, (f2 - 1) as nat);
    }
}

/// A splice chain from a reachable block, through the canonical removal
/// map, mirrors the glue chain and ends at a reachable block that is not
/// spliced glue.
proof fn lemma_glue_chain(
    bbs: Seq<BasicBlockView>,
    labels: Seq<(Seq<char>, usize)>,
    n: int,
    t: int,
    fuel: nat,
)
    requires
        n == bbs.len(),
        n <= usize::MAX,
        reachable(bbs, labels, t),
        0 <= t < n,
        leaves(bbs, t, fuel),
        fuel <= n + 1,
        forall|q: int| 0 <= q < n ==> block_edges_ok(#[trigger] bbs[q], n),
    ensures
        ({
            let e = glue_end(bbs, t, fuel);
            &&& chase(canon_trm(bbs, labels, n), t, fuel) == e
            &&& 0 <= e < n
            &&& reachable(bbs, labels, e)
            &&& !eligible(bbs, e)
        }),
    decreases fuel,
{
    let tv = canon_trm(bbs, labels, n);
    lemma_canon_trm_facts(bbs, labels, n);
    if !splice_candidate(bbs, t) {
        assert(!eligible(bbs, t));
        // no replacement target is recorded here, so both chains stop
        assert(!(trm_contains(tv, t) && trm_value(tv, t) is Some));
        assert(chase(tv, t, fuel) == t);
        assert(glue_end(bbs, t, fuel) == t);
    } else {
        // fuel > 0, else the chain could not leave the candidate set
        assert(fuel > 0);
        assert(eligible(bbs, t)) by {
            lemma_leaves_mono(bbs, t, fuel, (n + 1) as nat);
        }
        assert(trm_contains(tv, t));
        assert(trm_value(tv, t) == Some(splice_target(bbs, t)));
        let t2 = splice_target(bbs, t) as int;
        assert(is_edge(bbs, labels, t, t2));
        lemma_reach_step(bbs, labels, t, t2);
        assert(0 <= t2 < n) by {
            assert(block_edges_ok(bbs[t], n));
        }
        assert(chase(tv, t, fuel) == chase(tv, t2, (fuel - 1) as nat));
        assert(glue_end(bbs, t, fuel) == glue_end(bbs, t2, (fuel - 1) as nat));
        lemma_glue_chain(bbs, labels, n, t2, (fuel - 1) as nat);
    }
}


/// Whether the vector holds the given index.
fn vec_contains_usize(v: &Vec<usize>, x: usize) -> (r: bool)
    ensures
        r == exists|t: int| 0 <= t < v@.len() && v@[t] == x,
{
    let n = v.len();
    let mut t: usize = 0;
    while t < n
        invariant
            n == v@.len(),
            0 <= t <= n,
            forall|t2: int| 0 <= t2 < t ==> v@[t2] != x,
        decreases n - t,
    {
        if v[t] == x {
            proof {
                assert(v@[t as int] == x);
            }
            return true;
        }
        t += 1;
    }
    false
}

/// Whether block `q` of the (optimized) graph is splice glue.
fn is_splice_candidate_exec(bbs: &Vec<BasicBlock>, q: usize) -> (r: bool)
    requires
        (q as int) < bbs@.len(),
    ensures
        r == splice_candidate(bbs.deep_view(), q as int),
{
    proof {
        assert(bbs.deep_view()[q as int] == bbs@[q as int].deep_view());
    }
    if q == 0 {
        return false;
    }
    if !bbs[q].is_empty() {
        return false;
    }
    match &bbs[q].next {
        UcJumpTarget::BasicBlock(_) => true,
        _ => false,
    }
}

/// Whether the chain of splice glue starting at block `i` ends at a real
/// block (see [`leaves`]).
fn splice_leaves_exec(bbs: &Vec<BasicBlock>, i: usize, n: usize) -> (r: bool)
    requires
        n == bbs@.len(),
        n < usize::MAX,
        (i as int) < n,
        forall|q: int|
            0 <= q < bbs.deep_view().len() ==> block_edges_ok(
                #[trigger] bbs.deep_view()[q],
                n as int,
            ),
    ensures
        r == leaves(bbs.deep_view(), i as int, (n + 1) as nat),
{
    let ghost dv = bbs.deep_view();
    let mut cur = i;
    let mut fuel: usize = n + 1;
    while fuel > 0
        invariant
            dv == bbs.deep_view(),
            n == bbs@.len() < usize::MAX,
            0 <= (cur as int) < n,
            fuel <= n + 1,
            leaves(dv, i as int, (n + 1) as nat) == leaves(dv, cur as int, fuel as nat),
            forall|q: int| 0 <= q < dv.len() ==> block_edges_ok(#[trigger] dv[q], n as int),
        decreases fuel,
    {
        let cand = is_splice_candidate_exec(bbs, cur);
        if !cand {
            proof {
                assert(leaves(dv, cur as int, fuel as nat));
            }
            return true;
        }
        let t = match &bbs[cur].next {
            UcJumpTarget::BasicBlock(t) => *t,
            _ => 0,
        };
        proof {
            assert(dv[cur as int] == bbs@[cur as int].deep_view());
            assert(dv[cur as int].next == UcJumpTargetView::BasicBlock(t));
            assert(splice_target(dv, cur as int) == t);
            assert(block_edges_ok(dv[cur as int], n as int));
            assert((t as int) < n);
            assert(leaves(dv, cur as int, fuel as nat) == leaves(
                dv,
                t as int,
                (fuel - 1) as nat,
            ));
        }
        cur = t;
        fuel -= 1;
    }
    let cand = is_splice_candidate_exec(bbs, cur);
    proof {
        assert(leaves(dv, cur as int, 0) == !splice_candidate(dv, cur as int));
    }
    !cand
}


/// What one rewrite cycle makes of a graph: the per-block rewrites, then
/// removal of unreachable blocks and splice glue with renumbering.
pub open spec fn opt_once_spec(
    bbs: Seq<BasicBlockView>,
    lv: Seq<(Seq<char>, usize)>,
) -> (Seq<BasicBlockView>, Seq<(Seq<char>, usize)>) {
    let n = bbs.len() as int;
    let bbs1 = Seq::new(bbs.len(), |q: int| block_opt(bbs[q], lv));
    let tv = canon_trm(bbs1, lv, n);
    let nb = mangle_blocks_upto(bbs1, tv, n, n);
    (nb, mangle_labels_upto(lv, nb, tv, lv.len() as int, n).0)
}

/// Rewrite cycles iterated until the block count stops changing (with
/// enough fuel; each further cycle strictly shrinks the graph, so the
/// initial block count always suffices).
pub open spec fn opt_fix_spec(
    bbs: Seq<BasicBlockView>,
    lv: Seq<(Seq<char>, usize)>,
    fuel: nat,
) -> (Seq<BasicBlockView>, Seq<(Seq<char>, usize)>)
    decreases fuel,
{
    let (nb, nl) = opt_once_spec(bbs, lv);
    if nb.len() == bbs.len() || fuel == 0 {
        (nb, nl)
    } else {
        opt_fix_spec(nb, nl, (fuel - 1) as nat)
    }
}

/// The end of the chain of spliced glue starting at `t` (see
/// [`glue_end`]).
fn glue_end_exec(bbs: &Vec<BasicBlock>, t: usize, n: usize) -> (e: usize)
    requires
        n == bbs@.len(),
        n < usize::MAX,
        (t as int) < n,
        forall|q: int|
            0 <= q < bbs.deep_view().len() ==> block_edges_ok(
                #[trigger] bbs.deep_view()[q],
                n as int,
            ),
    ensures
        e as int == glue_end(bbs.deep_view(), t as int, (n + 1) as nat),
        (e as int) < n,
{
    let ghost dv = bbs.deep_view();
    let mut cur = t;
    let mut fuel: usize = n + 1;
    while fuel > 0
        invariant
            dv == bbs.deep_view(),
            n == bbs@.len() < usize::MAX,
            0 <= (cur as int) < n,
            fuel <= n + 1,
            glue_end(dv, t as int, (n + 1) as nat) == glue_end(dv, cur as int, fuel as nat),
            forall|q: int| 0 <= q < dv.len() ==> block_edges_ok(#[trigger] dv[q], n as int),
        ensures
            cur as int == glue_end(dv, t as int, (n + 1) as nat),
            dv == bbs.deep_view(),
            0 <= (cur as int) < n,
        decreases fuel,
    {
        let cand = is_splice_candidate_exec(bbs, cur);
        let elig = if cand {
            splice_leaves_exec(bbs, cur, n)
        } else {
            false
        };
        if !elig {
            proof {
                assert(!eligible(dv, cur as int));
                assert(glue_end(dv, cur as int, fuel as nat) == cur as int);
            }
            break ;
        }
        let t2 = match &bbs[cur].next {
            UcJumpTarget::BasicBlock(x) => *x,
            _ => 0,
        };
        proof {
            assert(dv[cur as int] == bbs@[cur as int].deep_view());
            assert(dv[cur as int].next == UcJumpTargetView::BasicBlock(t2));
            assert(splice_target(dv, cur as int) == t2);
            assert(block_edges_ok(dv[cur as int], n as int));
            assert((t2 as int) < n);
            assert(glue_end(dv, cur as int, fuel as nat) == glue_end(
                dv,
                t2 as int,
                (fuel - 1) as nat,
            ));
        }
        cur = t2;
        fuel -= 1;
    }
    cur
}

impl Module {
    /// One bounded rewrite cycle: peephole cancellation and tail-call
    /// conversion in every block, then removal of unreachable blocks and
    /// of empty control glue — both the kind that jumps on and, where no
    /// conditional branch enters it, the kind that halts — with
    /// renumbering.  The block count never grows.
    pub fn optimize_once(&mut self)
        requires
            old(self).wf(),
            old(self).bbs@.len() < usize::MAX,
        ensures
            ({
                let n = old(self).bbs_view().len() as int;
                let lv = old(self).labels@;
                let bbs1 = Seq::new(n as nat, |q: int| block_opt(old(self).bbs_view()[q], lv));
                let tv = canon_trm(bbs1, lv, n);
                let newbbs = mangle_blocks_upto(bbs1, tv, n, n);
                &&& final(self).bbs_view() == newbbs
                &&& final(self).labels@ == mangle_labels_upto(lv, newbbs, tv, lv.len() as int, n).0
                &&& final(self).wf()
                &&& final(self).bbs_view().len() <= old(self).bbs_view().len()
                &&& (final(self).bbs_view(), final(self).labels@) == opt_once_spec(
                    old(self).bbs_view(),
                    old(self).labels@,
                )
            }),
    {
        let ghost bbsv0 = self.bbs_view();
        let ghost lv = self.labels@;
        let n = self.bbs.len();
        let ghost ni = n as int;
        let ghost bbs1 = Seq::new(n as nat, |q: int| block_opt(bbsv0[q], lv));
        // per-block rewrites
        let mut i: usize = 0;
        while i < n
            invariant
                n == bbsv0.len() < usize::MAX,
                ni == n as int,
                bbsv0 == old(self).bbs_view(),
                lv == old(self).labels@,
                self.labels@ == lv,
                self.labels.wf(),
                forall|w: int| 0 <= w < lv.len() ==> ((#[trigger] lv[w]).1 as int) < ni,
                self.bbs@.len() == n,
                bbs1 == Seq::new(n as nat, |q: int| block_opt(bbsv0[q], lv)),
                0 <= i <= n,
                forall|q: int| 0 <= q < i ==> #[trigger] self.bbs.deep_view()[q] == bbs1[q],
                forall|q: int| i <= q < n ==> #[trigger] self.bbs.deep_view()[q] == bbsv0[q],
                forall|q: int|
                    0 <= q < n ==> block_edges_ok(#[trigger] self.bbs.deep_view()[q], ni),
            decreases n - i,
        {
            let ghost pre_dv = self.bbs.deep_view();
            let mut b = BasicBlock::default();
            core::mem::swap(&mut b, &mut self.bbs[i]);
            proof {
                assert(b@ == pre_dv[i as int]);
                assert(b@ == bbsv0[i as int]);
            }
            b.optimize_once();
            b.optimize_end(&self.labels);
            proof {
                assert(b@ == block_opt(bbsv0[i as int], lv));
                assert(block_edges_ok(b@, ni)) by {
                    let mid = RawBasicBlockView {
                        stmts: crate::block::peephole(bbsv0[i as int].stmts),
                        ..bbsv0[i as int]
                    };
                    assert(block_edges_ok(mid, ni)) by {
                        assert(block_edges_ok(bbsv0[i as int], ni));
                    }
                    let fin = BasicBlock::tail_call_spec(mid, lv);
                    if fin != mid {
                        match mid.stmts.last().cmd {
                            crate::stmt::CommandView::Wa(
                                crate::stmt::CmdWithArg::Cal,
                                crate::stmt::ArgumentView::Label(l),
                            ) => {
                                if entries_contain(lv, l) {
                                    crate::module::lemma_entries_value_bound(lv, l, ni);
                                }
                            }
                            _ => {}
                        }
                    }
                }
            }
            self.bbs.set(i, b);
            proof {
                assert forall|q: int| 0 <= q < n implies #[trigger] self.bbs.deep_view()[q] == (
                if q == i as int {
                    bbs1[q]
                } else {
                    pre_dv[q]
                }) by {
                    assert(self.bbs.deep_view()[q] == self.bbs@[q].deep_view());
                    if q != i as int {
                        assert(self.bbs@[q].deep_view() == pre_dv[q]);
                    }
                }
            }
            i += 1;
        }
        proof {
            assert(self.bbs.deep_view() =~= bbs1);
            assert(self.wf());
        }
        // removal map: unreachable blocks are deleted outright, splice
        // glue records its redirection target
        let unused = self.unused_bbs();
        // mark every block some reachable conditional branch leads to
        // (through spliced glue): such a block can never be deleted
        let mut protected: Vec<bool> = Vec::new();
        let mut z: usize = 0;
        while z < n
            invariant
                0 <= z <= n,
                protected@.len() == z,
                forall|i: int| 0 <= i < z ==> !protected@[i],
            decreases n - z,
        {
            protected.push(false);
            z += 1;
        }
        let mut j: usize = 0;
        while j < n
            invariant
                n == bbsv0.len() < usize::MAX,
                ni == n as int,
                bbsv0 == old(self).bbs_view(),
                lv == old(self).labels@,
                self.labels@ == lv,
                self.bbs@.len() == n,
                self.bbs.deep_view() == bbs1,
                bbs1.len() == n,
                self.wf(),
                forall|t: int| 0 <= t < unused@.len() ==> (unused@[t] as int) < ni,
                forall|j2: int|
                    0 <= j2 < ni ==> ((exists|t: int| 0 <= t < unused@.len() && unused@[t] == j2)
                        <==> !reachable(bbs1, lv, j2)),
                0 <= j <= n,
                protected@.len() == n,
                forall|i: int|
                    0 <= i < ni ==> ((#[trigger] protected@[i]) <==> exists|j2: int|
                        0 <= j2 < j && #[trigger] reachable(bbs1, lv, j2) && (match bbs1[j2].condjmp {
                            Some((_, JumpTargetView::BasicBlock(t))) => glue_end(
                                bbs1,
                                t as int,
                                (ni + 1) as nat,
                            ) == i,
                            _ => false,
                        })),
            decreases n - j,
        {
            let unr = vec_contains_usize(&unused, j);
            let tgt: Option<usize> = if unr {
                None
            } else {
                match &self.bbs[j].condjmp {
                    Some((_, JumpTarget::BasicBlock(t))) => Some(*t),
                    _ => None,
                }
            };
            let ghost pre_p = protected@;
            match tgt {
                Some(t) => {
                    proof {
                        assert(reachable(bbs1, lv, j as int));
                        assert(bbs1[j as int] == self.bbs@[j as int].deep_view());
                        assert forall|q: int| 0 <= q < self.bbs.deep_view().len()
                            implies block_edges_ok(
                            #[trigger] self.bbs.deep_view()[q],
                            ni,
                        ) by {
                            assert(self.bbs.deep_view()[q] == self.bbs_view()[q]);
                        }
                        assert(block_edges_ok(bbs1[j as int], ni));
                        assert((t as int) < ni);
                    }
                    let e = glue_end_exec(&self.bbs, t, n);
                    protected.set(e, true);
                    proof {
                        assert forall|i: int| 0 <= i < ni implies ((#[trigger] protected@[i])
                            <==> exists|j2: int|
                            0 <= j2 < j + 1 && #[trigger] reachable(bbs1, lv, j2) && (match bbs1[j2].condjmp {
                                Some((_, JumpTargetView::BasicBlock(t2))) => glue_end(
                                    bbs1,
                                    t2 as int,
                                    (ni + 1) as nat,
                                ) == i,
                                _ => false,
                            })) by {
                            if i == e as int {
                                assert(protected@[i]);
                                assert(reachable(bbs1, lv, j as int) && (match bbs1[
                                    j as int
                                ].condjmp {
                                    Some((_, JumpTargetView::BasicBlock(t2))) => glue_end(
                                        bbs1,
                                        t2 as int,
                                        (ni + 1) as nat,
                                    ) == i,
                                    _ => false,
                                }));
                            } else {
                                assert(protected@[i] == pre_p[i]);
                                if protected@[i] {
                                    let j2 = choose|j2: int|
                                        0 <= j2 < j && #[trigger] reachable(bbs1, lv, j2) && (
                                        match bbs1[j2].condjmp {
                                            Some((_, JumpTargetView::BasicBlock(t2))) => glue_end(
                                                bbs1,
                                                t2 as int,
                                                (ni + 1) as nat,
                                            ) == i,
                                            _ => false,
                                        });
                                    assert(0 <= j2 < j + 1);
                                }
                                if exists|j2: int|
                                    0 <= j2 < j + 1 && #[trigger] reachable(bbs1, lv, j2) && (
                                    match bbs1[j2].condjmp {
                                        Some((_, JumpTargetView::BasicBlock(t2))) => glue_end(
                                            bbs1,
                                            t2 as int,
                                            (ni + 1) as nat,
                                        ) == i,
                                        _ => false,
                                    }) {
                                    let j2 = choose|j2: int|
                                        0 <= j2 < j + 1 && #[trigger] reachable(bbs1, lv, j2) && (
                                        match bbs1[j2].condjmp {
                                            Some((_, JumpTargetView::BasicBlock(t2))) => glue_end(
                                                bbs1,
                                                t2 as int,
                                                (ni + 1) as nat,
                                            ) == i,
                                            _ => false,
                                        });
                                    if j2 == j as int {
                                        assert(false);
                                    }
                                    assert(pre_p[i]);
                                }
                            }
                        }
                    }
                }
                None => {
                    proof {
                        assert forall|i: int| 0 <= i < ni implies ((#[trigger] protected@[i])
                            <==> exists|j2: int|
                            0 <= j2 < j + 1 && #[trigger] reachable(bbs1, lv, j2) && (match bbs1[j2].condjmp {
                                Some((_, JumpTargetView::BasicBlock(t2))) => glue_end(
                                    bbs1,
                                    t2 as int,
                                    (ni + 1) as nat,
                                ) == i,
                                _ => false,
                            })) by {
                            assert(bbs1[j as int] == self.bbs@[j as int].deep_view());
                            if exists|j2: int|
                                0 <= j2 < j + 1 && #[trigger] reachable(bbs1, lv, j2) && (
                                match bbs1[j2].condjmp {
                                    Some((_, JumpTargetView::BasicBlock(t2))) => glue_end(
                                        bbs1,
                                        t2 as int,
                                        (ni + 1) as nat,
                                    ) == i,
                                    _ => false,
                                }) {
                                let j2 = choose|j2: int|
                                    0 <= j2 < j + 1 && #[trigger] reachable(bbs1, lv, j2) && (
                                    match bbs1[j2].condjmp {
                                        Some((_, JumpTargetView::BasicBlock(t2))) => glue_end(
                                            bbs1,
                                            t2 as int,
                                            (ni + 1) as nat,
                                        ) == i,
                                        _ => false,
                                    });
                                if j2 == j as int {
                                    assert(false);
                                }
                            }
                        }
                    }
                }
            }
            j += 1;
        }
        proof {
            assert forall|i: int| 0 <= i < ni implies ((#[trigger] protected@[i])
                <==> cj_protected(bbs1, lv, i)) by {}
        }
        let ghost tv = canon_trm(bbs1, lv, ni);
        let mut trm: Vec<(usize, Option<usize>)> = Vec::new();
        let mut k: usize = 0;
        proof {
            assert(trm@ =~= canon_trm(bbs1, lv, 0));
        }
        while k < n
            invariant
                n == bbsv0.len() < usize::MAX,
                ni == n as int,
                bbsv0 == old(self).bbs_view(),
                lv == old(self).labels@,
                self.labels@ == lv,
                self.bbs@.len() == n,
                self.bbs.deep_view() == bbs1,
                bbs1.len() == n,
                self.wf(),
                forall|a: int, b: int| 0 <= a < b < unused@.len() ==> unused@[a] < unused@[b],
                forall|t: int| 0 <= t < unused@.len() ==> (unused@[t] as int) < ni,
                forall|j: int|
                    0 <= j < ni ==> ((exists|t: int| 0 <= t < unused@.len() && unused@[t] == j)
                        <==> !reachable(bbs1, lv, j)),
                protected@.len() == n,
                forall|i: int|
                    0 <= i < ni ==> ((#[trigger] protected@[i]) <==> cj_protected(bbs1, lv, i)),
                0 <= k <= n,
                trm@ == canon_trm(bbs1, lv, k as int),
            decreases n - k,
        {
            let ghost pre = trm@;
            let unr = vec_contains_usize(&unused, k);
            if unr {
                proof {
                    assert(!reachable(bbs1, lv, k as int));
                }
                trm.push((k, None));
                proof {
                    assert(trm@ =~= canon_trm(bbs1, lv, k + 1));
                }
            } else {
                proof {
                    assert(reachable(bbs1, lv, k as int));
                }
                let cand = is_splice_candidate_exec(&self.bbs, k);
                let elig = if cand {
                    splice_leaves_exec(&self.bbs, k, n)
                } else {
                    false
                };
                if elig {
                    proof {
                        assert(eligible(bbs1, k as int));
                    }
                    let t_opt: Option<usize> = match &self.bbs[k].next {
                        UcJumpTarget::BasicBlock(t) => Some(*t),
                        _ => None,
                    };
                    proof {
                        assert(bbs1[k as int] == self.bbs@[k as int].deep_view());
                        assert(t_opt is Some);
                        assert(splice_target(bbs1, k as int) == t_opt->Some_0);
                    }
                    let t = match t_opt {
                        Some(t) => t,
                        None => 0,
                    };
                    trm.push((k, Some(t)));
                    proof {
                        assert(trm@ =~= canon_trm(bbs1, lv, k + 1));
                    }
                } else {
                    proof {
                        assert(!eligible(bbs1, k as int));
                        assert(bbs1[k as int] == self.bbs@[k as int].deep_view());
                    }
                    // reachable, not spliced glue: perhaps deletable
                    // halting glue
                    let hg = if k == 0 {
                        false
                    } else {
                        if self.bbs[k].is_empty() {
                            match &self.bbs[k].next {
                                UcJumpTarget::Halt => true,
                                _ => false,
                            }
                        } else {
                            false
                        }
                    };
                    proof {
                        assert(hg == halt_glue(bbs1, k as int));
                    }
                    if hg && !protected[k] {
                        proof {
                            assert(!cj_protected(bbs1, lv, k as int));
                        }
                        trm.push((k, None));
                        proof {
                            assert(trm@ =~= canon_trm(bbs1, lv, k + 1));
                        }
                    } else {
                        proof {
                            if hg {
                                assert(protected@[k as int]);
                                assert(cj_protected(bbs1, lv, k as int));
                            }
                            assert(trm@ =~= canon_trm(bbs1, lv, k + 1));
                        }
                    }
                }
            }
            k += 1;
        }
        // the removal map meets the renumbering contract: its chains
        // terminate, and no surviving conditional branch leads into a
        // deleted block
        proof {
            lemma_canon_trm_facts(bbs1, lv, ni);
            assert forall|q: int| 0 <= q < ni implies block_edges_ok(#[trigger] bbs1[q], ni) by {
                assert(bbs1[q] == self.bbs.deep_view()[q]);
            }
            assert(trm_wf(tv, ni)) by {
                assert forall|w: int| 0 <= w < tv.len() implies ((#[trigger] tv[w]).1 is Some
                    ==> (tv[w].1->Some_0 as int) < ni) by {
                    if tv[w].1 is Some {
                        let j2 = tv[w].0 as int;
                        assert(tv[w].0 == j2 as usize);
                        assert(trm_contains(tv, j2));
                        let w2 = choose|w2: int| 0 <= w2 < tv.len() && tv[w2].0 == j2;
                        if w2 != w {
                            assert(tv[w2].0 == tv[w].0);
                            if w2 < w {
                                assert(tv[w2].0 < tv[w].0);
                            } else {
                                assert(tv[w].0 < tv[w2].0);
                            }
                            assert(false);
                        }
                        assert(trm_value(tv, j2) == tv[w].1);
                        assert(reachable(bbs1, lv, j2) && eligible(bbs1, j2));
                        assert(tv[w].1 == Some(splice_target(bbs1, j2)));
                        assert(block_edges_ok(bbs1[j2], ni));
                    }
                }
            }
            assert(trm_chains_ok(tv, ni)) by {
                assert forall|w: int| 0 <= w < tv.len() && (#[trigger] tv[w]).1 is Some
                    implies !(trm_contains(tv, chase(tv, tv[w].0 as int, (ni + 1) as nat))
                    && trm_value(tv, chase(tv, tv[w].0 as int, (ni + 1) as nat)) is Some) by {
                    let j2 = tv[w].0 as int;
                    assert(trm_contains(tv, j2));
                    let w2 = choose|w2: int| 0 <= w2 < tv.len() && tv[w2].0 == j2;
                    if w2 != w {
                        if w2 < w {
                            assert(tv[w2].0 < tv[w].0);
                        } else {
                            assert(tv[w].0 < tv[w2].0);
                        }
                        assert(false);
                    }
                    assert(trm_value(tv, j2) == tv[w].1);
                    assert(reachable(bbs1, lv, j2) && eligible(bbs1, j2));
                    assert(leaves(bbs1, j2, (ni + 1) as nat));
                    lemma_glue_chain(bbs1, lv, ni, j2, (ni + 1) as nat);
                    let e = glue_end(bbs1, j2, (ni + 1) as nat);
                    assert(chase(tv, j2, (ni + 1) as nat) == e);
                    assert(reachable(bbs1, lv, e) && !eligible(bbs1, e));
                    if trm_contains(tv, e) {
                        assert(trm_value(tv, e) is None);
                    }
                }
            }
            assert forall|q: int| 0 <= q < ni && !trm_contains(tv, q) implies surviving_condjmp_ok(
                #[trigger] bbs1[q],
                tv,
                ni,
            ) by {
                assert(reachable(bbs1, lv, q));
                match bbs1[q].condjmp {
                    Some((_, JumpTargetView::BasicBlock(t))) => {
                        assert(is_edge(bbs1, lv, q, t as int));
                        lemma_reach_step(bbs1, lv, q, t as int);
                        assert(block_edges_ok(bbs1[q], ni));
                        assert((t as int) < ni);
                        let e = glue_end(bbs1, t as int, (ni + 1) as nat);
                        if eligible(bbs1, t as int) {
                            assert(leaves(bbs1, t as int, (ni + 1) as nat));
                            lemma_glue_chain(bbs1, lv, ni, t as int, (ni + 1) as nat);
                        } else {
                            // both chains stop at the target itself
                            assert(!(trm_contains(tv, t as int) && trm_value(
                                tv,
                                t as int,
                            ) is Some));
                            assert(chase(tv, t as int, (ni + 1) as nat) == t as int);
                            assert(e == t as int);
                        }
                        assert(chase(tv, t as int, (ni + 1) as nat) == e);
                        assert(reachable(bbs1, lv, e) && !eligible(bbs1, e));
                        assert(cj_protected(bbs1, lv, e)) by {
                            assert(reachable(bbs1, lv, q) && (match bbs1[q].condjmp {
                                Some((_, JumpTargetView::BasicBlock(t2))) => glue_end(
                                    bbs1,
                                    t2 as int,
                                    (ni + 1) as nat,
                                ) == e,
                                _ => false,
                            }));
                        }
                        assert(!trm_contains(tv, e));
                    }
                    _ => {}
                }
            }
        }
        self.mangle_bbs(trm);
        proof {
            assert(self.wf());
        }
    }

    /// Iterate [`Module::optimize_once`] until the block count stops
    /// changing.  Each cycle can only remove blocks, never add them, so
    /// the loop terminates; it stops the first time a cycle leaves the
    /// count unchanged.
    pub fn optimize(&mut self)
        requires
            old(self).wf(),
            old(self).bbs@.len() < usize::MAX,
        ensures
            final(self).wf(),
            final(self).bbs_view().len() <= old(self).bbs_view().len(),
            (final(self).bbs_view(), final(self).labels@) == opt_fix_spec(
                old(self).bbs_view(),
                old(self).labels@,
                old(self).bbs@.len() as nat,
            ),
    {
        let ghost bbsv0 = self.bbs_view();
        let ghost lv0 = self.labels@;
        let ghost fuel0 = self.bbs@.len() as nat;
        let ghost mut fuel_rem: nat = fuel0;
        loop
            invariant_except_break
                fuel_rem >= self.bbs_view().len(),
                opt_fix_spec(bbsv0, lv0, fuel0) == opt_fix_spec(
                    self.bbs_view(),
                    self.labels@,
                    fuel_rem,
                ),
            invariant
                self.wf(),
                self.bbs@.len() < usize::MAX,
                self.bbs_view().len() <= bbsv0.len(),
                bbsv0 == old(self).bbs_view(),
                lv0 == old(self).labels@,
                fuel0 == bbsv0.len() as nat,
            ensures
                (final(self).bbs_view(), final(self).labels@) == opt_fix_spec(bbsv0, lv0, fuel0),
                self.wf(),
                self.bbs_view().len() <= bbsv0.len(),
            decreases self.bbs@.len(),
        {
            let ghost cur_bbs = self.bbs_view();
            let ghost cur_lv = self.labels@;
            let cnt = self.bbs.len();
            self.optimize_once();
            if self.bbs.len() == cnt {
                proof {
                    assert(opt_fix_spec(cur_bbs, cur_lv, fuel_rem) == (
                        self.bbs_view(),
                        self.labels@,
                    ));
                }
                break ;
            }
            proof {
                assert(self.bbs_view().len() < cnt);
                assert(fuel_rem > 0);
                assert(opt_fix_spec(cur_bbs, cur_lv, fuel_rem) == opt_fix_spec(
                    self.bbs_view(),
                    self.labels@,
                    (fuel_rem - 1) as nat,
                ));
                fuel_rem = (fuel_rem - 1) as nat;
            }
        }
    }
}

} // verus!
