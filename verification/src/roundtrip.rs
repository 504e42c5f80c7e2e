//! The round-trip law: flattening a module and rebuilding the stream
//! reproduces the same blocks and edges (synthesized label spellings
//! aside), provided the module is in the shape the flattener assumes —
//! the shape the builder and the optimizer produce for an already-optimal
//! program.

use vstd::prelude::*;
use crate::block::{block_is_empty, empty_block_view, BasicBlockView, RawBasicBlockView};
use crate::flatten::{dec_str, emit_block, finish_upto, label_stmts, spec_label_for, synth_label};
use crate::labels::{entries_contain, entries_value, entries_wf};
use crate::module::{
    block_edges_ok, build_init, build_step, build_upto, lm_insert, push_forced, push_if,
    spec_labels_of_bb, BuildState,
};
use crate::stmt::{cmd_is_plain, CommandView, StatementView};
use crate::targets::{BbRefView, JumpTargetView, UcJumpTargetView};

verus! {

/// Decimal spellings are at least one character long.
proof fn lemma_dec_str_len(n: nat)
    ensures
        dec_str(n).len() >= 1,
    decreases n,
{
    if n >= 10 {
        lemma_dec_str_len(n / 10);
    }
}

/// Decimal spellings are injective.
proof fn lemma_dec_str_injective(n1: nat, n2: nat)
    requires
        n1 != n2,
    ensures
        dec_str(n1) != dec_str(n2),
    decreases n1 + n2,
{
    if n1 < 10 && n2 < 10 {
        assert(dec_str(n1)[0] != dec_str(n2)[0]);
    } else if n1 < 10 {
        lemma_dec_str_len(n2 / 10);
        assert(dec_str(n2).len() >= 2);
        assert(dec_str(n1).len() == 1);
    } else if n2 < 10 {
        lemma_dec_str_len(n1 / 10);
        assert(dec_str(n1).len() >= 2);
        assert(dec_str(n2).len() == 1);
    } else {
        if n1 % 10 != n2 % 10 {
            assert(dec_str(n1).last() != dec_str(n2).last());
        } else {
            lemma_dec_str_injective(n1 / 10, n2 / 10);
            if dec_str(n1) == dec_str(n2) {
                assert(dec_str(n1).drop_last() == dec_str(n1 / 10).push(
                    dec_digit_of(n1),
                ).drop_last());
                assert(dec_str(n1 / 10) =~= dec_str(n1).drop_last());
                assert(dec_str(n2 / 10) =~= dec_str(n2).drop_last());
                assert(false);
            }
        }
    }
}

/// The last digit of the spelling of `n >= 10`.
spec fn dec_digit_of(n: nat) -> char {
    crate::flatten::dec_digit((n % 10) as int)
}

/// Synthesized labels are injective.
proof fn lemma_synth_injective(k1: usize, k2: usize)
    requires
        k1 != k2,
    ensures
        synth_label(k1) != synth_label(k2),
{
    lemma_dec_str_injective(k1 as nat, k2 as nat);
    let s1 = synth_label(k1);
    let s2 = synth_label(k2);
    if s1 == s2 {
        assert(s1.skip(2) =~= dec_str(k1 as nat));
        assert(s2.skip(2) =~= dec_str(k2 as nat));
        assert(false);
    }
}

/// Membership of the alias list: `l` is an alias of block `v` exactly when
/// the table holds the entry `(l, v)`.
proof fn lemma_alias_member(entries: Seq<(Seq<char>, usize)>, v: usize, l: Seq<char>)
    ensures
        spec_labels_of_bb(entries, v).contains(l) <==> (exists|w: int|
            0 <= w < entries.len() && entries[w] == (l, v)),
    decreases entries.len(),
{
    let al = spec_labels_of_bb(entries, v);
    if entries.len() == 0 {
        assert(!al.contains(l)) by {
            if al.contains(l) {
                let q = choose|q: int| 0 <= q < al.len() && al[q] == l;
                assert(false);
            }
        }
    } else {
        let pre = entries.drop_last();
        lemma_alias_member(pre, v, l);
        let alp = spec_labels_of_bb(pre, v);
        if entries.last().1 == v {
            assert(al =~= alp.push(entries.last().0));
        } else {
            assert(al =~= alp);
        }
        if al.contains(l) {
            let q = choose|q: int| 0 <= q < al.len() && al[q] == l;
            if q < alp.len() {
                assert(alp.contains(l));
                let w = choose|w: int| 0 <= w < pre.len() && pre[w] == (l, v);
                assert(entries[w] == (l, v));
            } else {
                assert(entries.last() == (l, v));
                assert(entries[entries.len() - 1] == (l, v));
            }
        }
        if exists|w: int| 0 <= w < entries.len() && entries[w] == (l, v) {
            let w = choose|w: int| 0 <= w < entries.len() && entries[w] == (l, v);
            if w < pre.len() {
                assert(pre[w] == (l, v));
                assert(alp.contains(l));
                let q = choose|q: int| 0 <= q < alp.len() && alp[q] == l;
                assert(al[q] == l);
            } else {
                assert(entries.last() == (l, v));
                assert(al.last() == l);
            }
        }
    }
}

/// A label that is an alias of one block is no alias of another.
proof fn lemma_alias_distinct(entries: Seq<(Seq<char>, usize)>, v1: usize, v2: usize, l: Seq<char>)
    requires
        entries_wf(entries),
        v1 != v2,
        spec_labels_of_bb(entries, v1).contains(l),
    ensures
        !spec_labels_of_bb(entries, v2).contains(l),
{
    lemma_alias_member(entries, v1, l);
    lemma_alias_member(entries, v2, l);
    if spec_labels_of_bb(entries, v2).contains(l) {
        let w1 = choose|w: int| 0 <= w < entries.len() && entries[w] == (l, v1);
        let w2 = choose|w: int| 0 <= w < entries.len() && entries[w] == (l, v2);
        assert(entries[w1].0 == entries[w2].0);
        if w1 != w2 {
            assert(false);
        }
    }
}


/// Alias lists have no duplicates when the table's keys are distinct.
proof fn lemma_alias_nodup(entries: Seq<(Seq<char>, usize)>, v: usize)
    requires
        entries_wf(entries),
    ensures
        forall|q1: int, q2: int|
            0 <= q1 < q2 < spec_labels_of_bb(entries, v).len() ==> spec_labels_of_bb(entries, v)[q1]
                != spec_labels_of_bb(entries, v)[q2],
    decreases entries.len(),
{
    if entries.len() > 0 {
        let pre = entries.drop_last();
        assert(entries_wf(pre)) by {
            assert(forall|w: int| 0 <= w < pre.len() ==> pre[w] == entries[w]);
        }
        lemma_alias_nodup(pre, v);
        let al = spec_labels_of_bb(entries, v);
        let alp = spec_labels_of_bb(pre, v);
        if entries.last().1 == v {
            assert(al =~= alp.push(entries.last().0));
            assert forall|q1: int, q2: int| 0 <= q1 < q2 < al.len() implies al[q1] != al[q2] by {
                if q2 == al.len() - 1 {
                    if al[q1] == al[q2] {
                        assert(alp.contains(entries.last().0)) by {
                            assert(alp[q1] == entries.last().0);
                        }
                        lemma_alias_member(pre, v, entries.last().0);
                        let w = choose|w: int|
                            0 <= w < pre.len() && pre[w] == (entries.last().0, v);
                        assert(entries[w].0 == entries[entries.len() - 1].0);
                        assert(false);
                    }
                }
            }
        } else {
            assert(al =~= alp);
        }
    }
}

/// The label spellings declared for block `k` in the flattened stream:
/// every alias, or one synthesized name where the block has none.
pub open spec fn block_label_names(entries: Seq<(Seq<char>, usize)>, k: usize) -> Seq<Seq<char>> {
    let aliases = spec_labels_of_bb(entries, k);
    if aliases.len() > 0 {
        aliases
    } else {
        seq![synth_label(k)]
    }
}

/// The label-table entries the rebuild records for block `k`.
pub open spec fn rebuilt_block_entries(entries: Seq<(Seq<char>, usize)>, k: usize) -> Seq<
    (Seq<char>, usize),
> {
    Seq::new(block_label_names(entries, k).len(), |q: int| (block_label_names(entries, k)[q], k))
}

/// The label table the rebuild holds after the first `k` blocks.
pub open spec fn rebuilt_labels(entries: Seq<(Seq<char>, usize)>, k: int) -> Seq<
    (Seq<char>, usize),
>
    decreases k,
{
    if k <= 0 {
        Seq::empty()
    } else {
        rebuilt_labels(entries, k - 1) + rebuilt_block_entries(entries, (k - 1) as usize)
    }
}

/// The premises under which synthesized names cannot collide: no declared
/// label is spelled like a synthesized one.
pub open spec fn synth_fresh(entries: Seq<(Seq<char>, usize)>, n: int) -> bool {
    forall|k: usize| (k as int) < n ==> !entries_contain(entries, synth_label(k))
}

/// A name declared for block `k` is declared for no other block and never
/// collides with a name of another block.
proof fn lemma_names_fresh(
    entries: Seq<(Seq<char>, usize)>,
    n: int,
    k1: usize,
    k2: usize,
    q1: int,
    q2: int,
)
    requires
        entries_wf(entries),
        synth_fresh(entries, n),
        (k1 as int) < n,
        (k2 as int) < n,
        k1 != k2,
        0 <= q1 < block_label_names(entries, k1).len(),
        0 <= q2 < block_label_names(entries, k2).len(),
    ensures
        block_label_names(entries, k1)[q1] != block_label_names(entries, k2)[q2],
{
    let l1 = block_label_names(entries, k1)[q1];
    let l2 = block_label_names(entries, k2)[q2];
    let a1 = spec_labels_of_bb(entries, k1);
    let a2 = spec_labels_of_bb(entries, k2);
    if a1.len() > 0 && a2.len() > 0 {
        assert(a1.contains(l1));
        lemma_alias_distinct(entries, k1, k2, l1);
        if l1 == l2 {
            assert(a2.contains(l1));
        }
    } else if a1.len() > 0 {
        // l2 is synthesized; l1 is a declared key
        assert(a1.contains(l1));
        lemma_alias_member(entries, k1, l1);
        let w = choose|w: int| 0 <= w < entries.len() && entries[w] == (l1, k1);
        assert(entries_contain(entries, l1));
        assert(l2 == synth_label(k2));
        if l1 == l2 {
            assert(!entries_contain(entries, synth_label(k2)));
            assert(false);
        }
    } else if a2.len() > 0 {
        assert(a2.contains(l2));
        lemma_alias_member(entries, k2, l2);
        let w = choose|w: int| 0 <= w < entries.len() && entries[w] == (l2, k2);
        assert(entries_contain(entries, l2));
        assert(l1 == synth_label(k1));
        if l1 == l2 {
            assert(false);
        }
    } else {
        lemma_synth_injective(k1, k2);
    }
}

/// Shape of the rebuilt label table: keys distinct, every value names the
/// block whose names contributed it, and every declared-or-synthesized
/// name of a covered block is present with its block as the value.
proof fn lemma_rebuilt_labels_facts(entries: Seq<(Seq<char>, usize)>, n: int, k: int)
    requires
        entries_wf(entries),
        synth_fresh(entries, n),
        0 <= k <= n,
        n <= usize::MAX,
    ensures
        ({
            let rl = rebuilt_labels(entries, k);
            &&& entries_wf(rl)
            &&& forall|w: int| 0 <= w < rl.len() ==> ((#[trigger] rl[w]).1 as int) < k
            &&& forall|j: usize, q: int|
                (j as int) < k && 0 <= q < block_label_names(entries, j).len()
                    ==> entries_contain(rl, #[trigger] block_label_names(entries, j)[q])
                    && entries_value(rl, block_label_names(entries, j)[q]) == j
            &&& forall|w: int|
                0 <= w < rl.len() ==> block_label_names(entries, (#[trigger] rl[w]).1).contains(
                    rl[w].0,
                )
        }),
    decreases k,
{
    if k > 0 {
        lemma_rebuilt_labels_facts(entries, n, k - 1);
        let pre = rebuilt_labels(entries, k - 1);
        let be = rebuilt_block_entries(entries, (k - 1) as usize);
        let rl = rebuilt_labels(entries, k);
        assert(rl == pre + be);
        assert(forall|w: int| 0 <= w < pre.len() ==> rl[w] == pre[w]);
        assert(forall|w: int| 0 <= w < be.len() ==> rl[pre.len() + w] == be[w]);
        lemma_alias_nodup(entries, (k - 1) as usize);
        // distinct keys
        assert(entries_wf(rl)) by {
            assert forall|w1: int, w2: int| 0 <= w1 < w2 < rl.len() implies rl[w1].0
                != rl[w2].0 by {
                if w2 < pre.len() {
                } else if w1 >= pre.len() {
                    let q1 = w1 - pre.len();
                    let q2 = w2 - pre.len();
                    let names = block_label_names(entries, (k - 1) as usize);
                    if names.len() > 1 {
                        assert(rl[w1].0 == names[q1] && rl[w2].0 == names[q2]);
                    }
                } else {
                    let j1 = rl[w1].1;
                    assert(block_label_names(entries, j1).contains(rl[w1].0));
                    let q1 = choose|q1: int|
                        0 <= q1 < block_label_names(entries, j1).len() && block_label_names(
                            entries,
                            j1,
                        )[q1] == rl[w1].0;
                    let q2 = w2 - pre.len();
                    assert((j1 as int) < k - 1);
                    assert(((k - 1) as usize) as int == k - 1);
                    lemma_names_fresh(entries, n, j1, (k - 1) as usize, q1, q2);
                }
            }
        }
        // membership with values
        assert forall|j: usize, q: int|
            (j as int) < k && 0 <= q < block_label_names(entries, j).len() implies entries_contain(
            rl,
            #[trigger] block_label_names(entries, j)[q],
        ) && entries_value(rl, block_label_names(entries, j)[q]) == j by {
            let l = block_label_names(entries, j)[q];
            if (j as int) < k - 1 {
                assert(entries_contain(pre, l) && entries_value(pre, l) == j);
                let w = choose|w: int| 0 <= w < pre.len() && pre[w].0 == l;
                assert(entries_wf(pre));
                crate::labels::lemma_unique_key_get(pre, w, l);
                assert(pre[w].1 == j);
                assert(rl[w] == pre[w]);
                crate::labels::lemma_unique_key_get(rl, w, l);
            } else {
                let w = pre.len() + q;
                assert(rl[w] == (l, j));
                crate::labels::lemma_unique_key_get(rl, w, l);
            }
        }
    }
}

/// Processing a run of plain statements appends them to the accumulated
/// block and changes nothing else.
proof fn lemma_run_plain(s: Seq<StatementView>, p: int, m: int, st: BuildState)
    requires
        build_upto(s, p) == Ok::<BuildState, crate::stmt::ArgumentView>(st),
        0 <= p,
        m >= 0,
        p + m <= s.len(),
        forall|j: int| p <= j < p + m ==> cmd_is_plain((#[trigger] s[j]).cmd),
    ensures
        build_upto(s, p + m) == Ok::<BuildState, crate::stmt::ArgumentView>(
            BuildState {
                cur: RawBasicBlockView { stmts: st.cur.stmts + s.subrange(p, p + m), ..st.cur },
                ..st
            },
        ),
    decreases m,
{
    if m == 0 {
        assert(st.cur.stmts + s.subrange(p, p) =~= st.cur.stmts);
        assert((BuildState {
            cur: RawBasicBlockView { stmts: st.cur.stmts + s.subrange(p, p), ..st.cur },
            ..st
        }) == st);
    } else {
        lemma_run_plain(s, p, m - 1, st);
        let stm = BuildState {
            cur: RawBasicBlockView { stmts: st.cur.stmts + s.subrange(p, p + m - 1), ..st.cur },
            ..st
        };
        assert(build_upto(s, p + m) == build_step(stm, s[p + m - 1]));
        assert(cmd_is_plain(s[p + m - 1].cmd));
        assert((st.cur.stmts + s.subrange(p, p + m - 1)).push(s[p + m - 1]) =~= st.cur.stmts
            + s.subrange(p, p + m));
    }
}

/// Processing a run of loc-less label definitions over an empty
/// accumulator records each name against the coming block and changes the
/// accumulator not at all.
proof fn lemma_run_aliases(
    s: Seq<StatementView>,
    p: int,
    names: Seq<Seq<char>>,
    st: BuildState,
    k: usize,
)
    requires
        build_upto(s, p) == Ok::<BuildState, crate::stmt::ArgumentView>(st),
        0 <= p,
        p + names.len() <= s.len(),
        forall|j: int|
            0 <= j < names.len() ==> s[p + j] == (StatementView {
                cmd: CommandView::Label(names[j]),
                loc: None,
                do_ignore: false,
            }),
        block_is_empty(st.cur),
        st.cur.next is Halt,
        st.bbs.len() == k,
        forall|j: int| 0 <= j < names.len() ==> !entries_contain(st.labels, #[trigger] names[j]),
        forall|j1: int, j2: int| 0 <= j1 < j2 < names.len() ==> names[j1] != names[j2],
    ensures
        build_upto(s, p + names.len()) == Ok::<BuildState, crate::stmt::ArgumentView>(
            BuildState {
                labels: st.labels + Seq::new(names.len(), |j: int| (names[j], k)),
                ..st
            },
        ),
    decreases names.len(),
{
    let m = names.len() as int;
    if m == 0 {
        assert(st.labels + Seq::new(0, |j: int| (names[j], k)) =~= st.labels);
        assert((BuildState { labels: st.labels + Seq::new(0, |j: int| (names[j], k)), ..st })
            == st);
    } else {
        let names0 = names.drop_last();
        lemma_run_aliases(s, p, names0, st, k);
        let stm = BuildState {
            labels: st.labels + Seq::new(names0.len(), |j: int| (names0[j], k)),
            ..st
        };
        assert(build_upto(s, p + m) == build_step(stm, s[p + m - 1]));
        assert(s[p + m - 1].cmd == CommandView::Label(names[m - 1]));
        // the label arm: the empty accumulator is not flushed, its
        // begin_loc stays, and the name is fresh so the insert appends
        assert(push_if(stm) == stm);
        assert(!entries_contain(stm.labels, names[m - 1])) by {
            if entries_contain(stm.labels, names[m - 1]) {
                let w = choose|w: int|
                    0 <= w < stm.labels.len() && stm.labels[w].0 == names[m - 1];
                if w < st.labels.len() {
                    assert(st.labels[w].0 == names[m - 1]);
                } else {
                    assert(names0[w - st.labels.len()] == names[m - 1]);
                }
            }
        }
        assert(lm_insert(stm.labels, names[m - 1], k) == stm.labels.push((names[m - 1], k)));
        assert(stm.labels.push((names[m - 1], k)) =~= st.labels + Seq::new(
            m as nat,
            |j: int| (names[j], k),
        ));
        let fin = BuildState {
            labels: st.labels + Seq::new(m as nat, |j: int| (names[j], k)),
            ..st
        };
        assert(build_step(stm, s[p + m - 1]) == Ok::<BuildState, crate::stmt::ArgumentView>(fin));
    }
}


/// The flattened stream of the first `k` blocks is a prefix of the
/// flattened stream of the first `n`.
proof fn lemma_finish_prefix(
    entries: Seq<(Seq<char>, usize)>,
    bbs: Seq<BasicBlockView>,
    k: int,
    n: int,
)
    requires
        0 <= k <= n,
    ensures
        finish_upto(entries, bbs, k).len() <= finish_upto(entries, bbs, n).len(),
        forall|i: int|
            0 <= i < finish_upto(entries, bbs, k).len() ==> #[trigger] finish_upto(
                entries,
                bbs,
                n,
            )[i] == finish_upto(entries, bbs, k)[i],
    decreases n - k,
{
    if n > k {
        lemma_finish_prefix(entries, bbs, k, n - 1);
    }
}

/// A block whose continuation is the elided fallthrough and that has no
/// conditional branch: the flattener emits no control statement for it,
/// so its instructions stay in the rebuilder's accumulator until the next
/// block's label flushes them.
pub open spec fn plain_elided(b: BasicBlockView, k: int) -> bool {
    &&& b.condjmp is None
    &&& match b.next {
        UcJumpTargetView::BasicBlock(t) => t as int == k + 1,
        _ => false,
    }
}

/// The flexible block the rebuild produces for block `k`: the same
/// instructions and branch, with block targets spelled through their
/// first (or synthesized) label, and the elided fallthrough as a literal
/// index.
pub open spec fn rt_flex_block(
    entries: Seq<(Seq<char>, usize)>,
    b: BasicBlockView,
    k: int,
) -> RawBasicBlockView<BbRefView> {
    RawBasicBlockView {
        stmts: b.stmts,
        condjmp: match b.condjmp {
            Some((c, JumpTargetView::BasicBlock(t))) => Some(
                (c, JumpTargetView::BasicBlock(BbRefView::Label(spec_label_for(entries, t)))),
            ),
            Some((c, JumpTargetView::Absolute(a))) => Some((c, JumpTargetView::Absolute(a))),
            None => None,
        },
        begin_loc: b.begin_loc,
        endjmp_loc: if plain_elided(b, k) {
            None
        } else {
            b.endjmp_loc
        },
        next: match b.next {
            UcJumpTargetView::BasicBlock(t) => if t as int == k + 1 {
                UcJumpTargetView::BasicBlock(BbRefView::Id(t))
            } else {
                UcJumpTargetView::BasicBlock(BbRefView::Label(spec_label_for(entries, t)))
            },
            UcJumpTargetView::Absolute(a) => UcJumpTargetView::Absolute(a),
            UcJumpTargetView::Return => UcJumpTargetView::Return,
            UcJumpTargetView::Halt => UcJumpTargetView::Halt,
        },
    }
}

/// The accumulator while a plainly-elided block waits for the next label.
pub open spec fn pending_cur(b: BasicBlockView) -> RawBasicBlockView<BbRefView> {
    RawBasicBlockView {
        stmts: b.stmts,
        condjmp: None,
        begin_loc: b.begin_loc,
        endjmp_loc: None,
        next: UcJumpTargetView::Halt,
    }
}

/// The rebuilder's state after the emissions of the first `k` blocks.
pub open spec fn rt_state(
    entries: Seq<(Seq<char>, usize)>,
    bbs: Seq<BasicBlockView>,
    k: int,
) -> BuildState {
    let pend = k >= 1 && plain_elided(bbs[k - 1], k - 1);
    BuildState {
        bbs: if pend {
            Seq::new((k - 1) as nat, |j: int| rt_flex_block(entries, bbs[j], j))
        } else {
            Seq::new(k as nat, |j: int| rt_flex_block(entries, bbs[j], j))
        },
        labels: rebuilt_labels(entries, k),
        cur: if pend {
            pending_cur(bbs[k - 1])
        } else {
            empty_block_view()
        },
    }
}

/// The shape in which the flattener leaves a module it can reproduce: the
/// shape the builder gives an already-optimal program.  Instructions are
/// plain; a branch block falls through to the next block; no block is
/// splice glue (empty with an elided fallthrough); and no declared label
/// is spelled like a synthesized one.
pub open spec fn rt_premises(entries: Seq<(Seq<char>, usize)>, bbs: Seq<BasicBlockView>) -> bool {
    let n = bbs.len() as int;
    &&& n <= usize::MAX
    &&& entries_wf(entries)
    &&& forall|w: int| 0 <= w < entries.len() ==> ((#[trigger] entries[w]).1 as int) < n
    &&& forall|k: int| 0 <= k < n ==> block_edges_ok(#[trigger] bbs[k], n)
    &&& forall|k: int, q: int|
        0 <= k < n && 0 <= q < bbs[k].stmts.len() ==> cmd_is_plain(
            (#[trigger] bbs[k].stmts[q]).cmd,
        )
    &&& forall|k: int|
        0 <= k < n && (#[trigger] bbs[k]).condjmp is Some ==> (match bbs[k].next {
            UcJumpTargetView::BasicBlock(t) => t as int == k + 1,
            _ => false,
        })
    &&& forall|k: int| 0 <= k < n && block_is_empty(#[trigger] bbs[k]) ==> !plain_elided(bbs[k], k)
    &&& synth_fresh(entries, n)
}

/// The names of a block are fresh for the rebuilt table of the blocks
/// before it.
proof fn lemma_name_fresh_for_prefix(
    entries: Seq<(Seq<char>, usize)>,
    bbs: Seq<BasicBlockView>,
    k: int,
    q: int,
)
    requires
        rt_premises(entries, bbs),
        0 <= k < bbs.len(),
        0 <= q < block_label_names(entries, k as usize).len(),
    ensures
        !entries_contain(
            rebuilt_labels(entries, k),
            block_label_names(entries, k as usize)[q],
        ),
{
    let n = bbs.len() as int;
    lemma_rebuilt_labels_facts(entries, n, k);
    let rl = rebuilt_labels(entries, k);
    let l = block_label_names(entries, k as usize)[q];
    if entries_contain(rl, l) {
        let w = choose|w: int| 0 <= w < rl.len() && rl[w].0 == l;
        let j = rl[w].1;
        assert(block_label_names(entries, j).contains(rl[w].0));
        let q2 = choose|q2: int|
            0 <= q2 < block_label_names(entries, j).len() && block_label_names(entries, j)[q2]
                == rl[w].0;
        assert((j as int) < k);
        lemma_names_fresh(entries, n, j, k as usize, q2, q);
        assert(false);
    }
}

/// The rebuilder's state between a block's label definitions and its
/// instructions.
pub open spec fn rt_mid_state(
    entries: Seq<(Seq<char>, usize)>,
    bbs: Seq<BasicBlockView>,
    k: int,
) -> BuildState {
    BuildState {
        bbs: Seq::new((k - 1) as nat, |j: int| rt_flex_block(entries, bbs[j], j)),
        labels: rebuilt_labels(entries, k),
        cur: RawBasicBlockView { begin_loc: bbs[k - 1].begin_loc, ..empty_block_view() },
    }
}

/// Processing block `k - 1`'s label definitions: a pending block is
/// flushed, every name is recorded, and the accumulator keeps only the
/// block's begin location.
#[verifier::rlimit(100)]
proof fn lemma_rt_labels_step(entries: Seq<(Seq<char>, usize)>, bbs: Seq<BasicBlockView>, k: int)
    requires
        rt_premises(entries, bbs),
        1 <= k <= bbs.len(),
        build_upto(
            finish_upto(entries, bbs, bbs.len() as int),
            finish_upto(entries, bbs, k - 1).len() as int,
        ) == Ok::<BuildState, crate::stmt::ArgumentView>(rt_state(entries, bbs, k - 1)),
    ensures
        build_upto(
            finish_upto(entries, bbs, bbs.len() as int),
            finish_upto(entries, bbs, k - 1).len() + block_label_names(
                entries,
                (k - 1) as usize,
            ).len() as int,
        ) == Ok::<BuildState, crate::stmt::ArgumentView>(rt_mid_state(entries, bbs, k)),
{
    let n = bbs.len() as int;
    let s = finish_upto(entries, bbs, n);
    let st = rt_state(entries, bbs, k - 1);
    let ku = (k - 1) as usize;
    let b = bbs[k - 1];
    let emit = emit_block(entries, b, ku);
    let names = block_label_names(entries, ku);
    let aliases = spec_labels_of_bb(entries, ku);
    let p0 = finish_upto(entries, bbs, k - 1).len() as int;
    assert(finish_upto(entries, bbs, k) == finish_upto(entries, bbs, k - 1) + emit);
    lemma_finish_prefix(entries, bbs, k, n);
    lemma_finish_prefix(entries, bbs, k - 1, n);
    assert forall|j: int| 0 <= j < emit.len() implies s[p0 + j] == #[trigger] emit[j] by {
        assert(s[p0 + j] == finish_upto(entries, bbs, k)[p0 + j]);
        assert(finish_upto(entries, bbs, k)[p0 + j] == emit[j]);
    }
    let head_stmt = StatementView {
        cmd: CommandView::Label(spec_label_for(entries, ku)),
        loc: b.begin_loc,
        do_ignore: false,
    };
    let rest = if aliases.len() > 0 {
        label_stmts(aliases.skip(1))
    } else {
        Seq::<StatementView>::empty()
    };
    assert(spec_label_for(entries, ku) == names[0]);
    assert(rest.len() == names.len() - 1) by {
        if aliases.len() > 0 {
            assert(names == aliases);
        } else {
            assert(names =~= seq![synth_label(ku)]);
        }
    }
    assert(emit[0] == head_stmt);
    assert(forall|j: int| 0 <= j < rest.len() ==> #[trigger] emit[1 + j] == rest[j]);
    assert(forall|j: int|
        0 <= j < rest.len() ==> rest[j] == (StatementView {
            cmd: CommandView::Label(names.skip(1)[j]),
            loc: None,
            do_ignore: false,
        }));
    // step A: the first label
    lemma_rebuilt_labels_facts(entries, n, k - 1);
    lemma_alias_nodup(entries, ku);
    let st1 = push_if(st);
    assert(st1.bbs =~= Seq::new((k - 1) as nat, |j: int| rt_flex_block(entries, bbs[j], j))
        && st1.cur == empty_block_view::<BbRefView>() && st1.labels == st.labels) by {
        if k - 1 >= 1 && plain_elided(bbs[k - 2], k - 2) {
            // the pending block is flushed with its fallthrough index
            assert(!block_is_empty(bbs[k - 2]));
            assert(!block_is_empty(st.cur));
            let flushed = RawBasicBlockView {
                next: UcJumpTargetView::BasicBlock(BbRefView::Id(((st.bbs.len() + 1) as usize))),
                ..st.cur
            };
            assert(st.bbs.len() == k - 2);
            match bbs[k - 2].next {
                UcJumpTargetView::BasicBlock(t) => {
                    assert(t as int == k - 1);
                    assert(((st.bbs.len() + 1) as usize) == t);
                }
                _ => {
                    assert(false);
                }
            }
            assert(flushed == rt_flex_block(entries, bbs[k - 2], k - 2));
            assert(st1.bbs =~= Seq::new(
                (k - 1) as nat,
                |j: int| rt_flex_block(entries, bbs[j], j),
            ));
        } else {
            assert(block_is_empty(st.cur));
            assert(st.bbs =~= Seq::new((k - 1) as nat, |j: int| rt_flex_block(entries, bbs[j], j)));
        }
    }
    assert(build_upto(s, p0 + 1) == build_step(st, s[p0]));
    lemma_name_fresh_for_prefix(entries, bbs, k - 1, 0);
    assert(lm_insert(st1.labels, names[0], (st1.bbs.len() as usize)) == st1.labels.push(
        (names[0], ku),
    )) by {
        assert(!entries_contain(st1.labels, names[0]));
        assert((st1.bbs.len() as usize) == ku);
    }
    let st_a = BuildState {
        bbs: st1.bbs,
        labels: st1.labels.push((names[0], ku)),
        cur: RawBasicBlockView { begin_loc: b.begin_loc, ..empty_block_view() },
    };
    assert(build_step(st, s[p0]) == Ok::<BuildState, crate::stmt::ArgumentView>(st_a));
    // step B: the remaining aliases
    assert forall|j: int| 0 <= j < names.skip(1).len() implies !entries_contain(
        st_a.labels,
        #[trigger] names.skip(1)[j],
    ) by {
        lemma_name_fresh_for_prefix(entries, bbs, k - 1, j + 1);
        if entries_contain(st_a.labels, names.skip(1)[j]) {
            let w = choose|w: int|
                0 <= w < st_a.labels.len() && st_a.labels[w].0 == names.skip(1)[j];
            if w < st1.labels.len() {
                assert(entries_contain(st1.labels, names.skip(1)[j]));
            } else {
                assert(names[0] == names[j + 1]);
                if aliases.len() > 0 {
                    assert(names == aliases);
                }
                assert(false);
            }
        }
    }
    assert(forall|j1: int, j2: int|
        0 <= j1 < j2 < names.skip(1).len() ==> names.skip(1)[j1] != names.skip(1)[j2]) by {
        if aliases.len() > 0 {
            assert(names == aliases);
        }
    }
    assert(block_is_empty(st_a.cur) && st_a.cur.next is Halt);
    assert(st_a.bbs.len() == ku);
    lemma_run_aliases(s, p0 + 1, names.skip(1), st_a, ku);
    let st_b = BuildState {
        labels: st_a.labels + Seq::new(names.skip(1).len(), |j: int| (names.skip(1)[j], ku)),
        ..st_a
    };
    assert(st_b.labels =~= rebuilt_labels(entries, k)) by {
        assert(rebuilt_labels(entries, k) == rebuilt_labels(entries, k - 1)
            + rebuilt_block_entries(entries, ku));
    }
    assert(st_b == rt_mid_state(entries, bbs, k));
    assert(p0 + 1 + names.skip(1).len() == p0 + names.len());
}

/// Processing block `k - 1`'s instructions, branch and continuation: the
/// block is completed (or left pending behind an elided fallthrough).
#[verifier::rlimit(100)]
proof fn lemma_rt_body_step(entries: Seq<(Seq<char>, usize)>, bbs: Seq<BasicBlockView>, k: int)
    requires
        rt_premises(entries, bbs),
        1 <= k <= bbs.len(),
        build_upto(
            finish_upto(entries, bbs, bbs.len() as int),
            finish_upto(entries, bbs, k - 1).len() + block_label_names(
                entries,
                (k - 1) as usize,
            ).len() as int,
        ) == Ok::<BuildState, crate::stmt::ArgumentView>(rt_mid_state(entries, bbs, k)),
    ensures
        build_upto(
            finish_upto(entries, bbs, bbs.len() as int),
            finish_upto(entries, bbs, k).len() as int,
        ) == Ok::<BuildState, crate::stmt::ArgumentView>(rt_state(entries, bbs, k)),
{
    let n = bbs.len() as int;
    let s = finish_upto(entries, bbs, n);
    let ku = (k - 1) as usize;
    let b = bbs[k - 1];
    let emit = emit_block(entries, b, ku);
    let names = block_label_names(entries, ku);
    let aliases = spec_labels_of_bb(entries, ku);
    let p0 = finish_upto(entries, bbs, k - 1).len() as int;
    let p4 = finish_upto(entries, bbs, k).len() as int;
    assert(finish_upto(entries, bbs, k) == finish_upto(entries, bbs, k - 1) + emit);
    assert(p4 == p0 + emit.len());
    lemma_finish_prefix(entries, bbs, k, n);
    lemma_finish_prefix(entries, bbs, k - 1, n);
    assert forall|j: int| 0 <= j < emit.len() implies s[p0 + j] == #[trigger] emit[j] by {
        assert(s[p0 + j] == finish_upto(entries, bbs, k)[p0 + j]);
        assert(finish_upto(entries, bbs, k)[p0 + j] == emit[j]);
    }
    let rest_len: int = if aliases.len() > 0 {
        label_stmts(aliases.skip(1)).len() as int
    } else {
        0
    };
    assert(1 + rest_len == names.len()) by {
        if aliases.len() > 0 {
            assert(names == aliases);
        } else {
            assert(names =~= seq![synth_label(ku)]);
        }
    }
    let p_s = p0 + names.len() as int;
    assert(forall|j: int|
        0 <= j < b.stmts.len() ==> #[trigger] emit[names.len() + j] == b.stmts[j]);
    let st_b = rt_mid_state(entries, bbs, k);
    // step C: the instructions
    assert(forall|j: int| p_s <= j < p_s + b.stmts.len() ==> cmd_is_plain((#[trigger] s[j]).cmd))
        by {
        assert(forall|j: int| 0 <= j < b.stmts.len() ==> s[p_s + j] == #[trigger] b.stmts[j]);
    }
    lemma_run_plain(s, p_s, b.stmts.len() as int, st_b);
    let st_c = BuildState {
        cur: RawBasicBlockView {
            stmts: st_b.cur.stmts + s.subrange(p_s, p_s + b.stmts.len() as int),
            ..st_b.cur
        },
        ..st_b
    };
    assert(st_c.cur.stmts =~= b.stmts) by {
        assert(s.subrange(p_s, p_s + b.stmts.len() as int) =~= b.stmts);
    }
    let p_c = p_s + b.stmts.len() as int;
    // steps D and E: the branch and the continuation
    match b.condjmp {
        Some((c, tgt)) => {
            // the branch statement flushes the block; the fallthrough
            // continuation is elided
            assert(match b.next {
                UcJumpTargetView::BasicBlock(t) => t as int == k,
                _ => false,
            });
            assert(p4 == p_c + 1);
            let cj_stmt = emit[names.len() + b.stmts.len() as int];
            assert(s[p_c] == cj_stmt);
            assert(build_upto(s, p4) == build_step(st_c, cj_stmt));
            assert(build_step(st_c, cj_stmt) == Ok::<BuildState, crate::stmt::ArgumentView>(
                rt_state(entries, bbs, k),
            )) by {
                let flex_t = match tgt {
                    JumpTargetView::BasicBlock(t) => JumpTargetView::BasicBlock(
                        BbRefView::Label(spec_label_for(entries, t)),
                    ),
                    JumpTargetView::Absolute(a) => JumpTargetView::Absolute(a),
                };
                let st_mid = BuildState {
                    cur: RawBasicBlockView {
                        condjmp: Some((c, flex_t)),
                        endjmp_loc: b.endjmp_loc,
                        ..st_c.cur
                    },
                    ..st_c
                };
                let pushed = RawBasicBlockView {
                    next: UcJumpTargetView::BasicBlock(
                        BbRefView::Id(((st_mid.bbs.len() + 1) as usize)),
                    ),
                    ..st_mid.cur
                };
                assert(pushed == rt_flex_block(entries, b, k - 1)) by {
                    match b.next {
                        UcJumpTargetView::BasicBlock(t) => {
                            assert(((st_mid.bbs.len() + 1) as usize) == t);
                        }
                        _ => {
                            assert(false);
                        }
                    }
                }
                assert(rt_state(entries, bbs, k).bbs =~= st_mid.bbs.push(pushed));
                assert(rt_state(entries, bbs, k).cur == empty_block_view::<BbRefView>());
            }
        }
        None => {
            if plain_elided(b, k - 1) {
                // nothing more is emitted; the block stays pending
                assert(p4 == p_c);
                assert(st_c == rt_state(entries, bbs, k)) by {
                    assert(st_c.cur == pending_cur(b));
                    assert(rt_state(entries, bbs, k).bbs =~= st_c.bbs);
                }
            } else {
                // an explicit continuation statement flushes the block
                assert(p4 == p_c + 1);
                let nx_stmt = emit[names.len() + b.stmts.len() as int];
                assert(s[p_c] == nx_stmt);
                assert(build_upto(s, p4) == build_step(st_c, nx_stmt));
                assert(build_step(st_c, nx_stmt) == Ok::<BuildState, crate::stmt::ArgumentView>(
                    rt_state(entries, bbs, k),
                )) by {
                    let pushed = rt_flex_block(entries, b, k - 1);
                    match b.next {
                        UcJumpTargetView::BasicBlock(t) => {
                            assert(t as int != k);
                            assert(push_forced(
                                st_c,
                                UcJumpTargetView::BasicBlock(
                                    BbRefView::Label(spec_label_for(entries, t)),
                                ),
                                b.endjmp_loc,
                            ).bbs =~= st_c.bbs.push(pushed));
                        }
                        UcJumpTargetView::Absolute(a) => {
                            assert(push_forced(
                                st_c,
                                UcJumpTargetView::Absolute(a),
                                b.endjmp_loc,
                            ).bbs =~= st_c.bbs.push(pushed));
                        }
                        UcJumpTargetView::Return => {
                            assert(push_forced(st_c, UcJumpTargetView::Return, b.endjmp_loc).bbs
                                =~= st_c.bbs.push(pushed));
                        }
                        UcJumpTargetView::Halt => {
                            assert(push_forced(st_c, UcJumpTargetView::Halt, b.endjmp_loc).bbs
                                =~= st_c.bbs.push(pushed));
                        }
                    }
                    assert(rt_state(entries, bbs, k).bbs =~= st_c.bbs.push(pushed));
                }
            }
        }
    }
}

/// The scan of the flattened stream rebuilds block after block.
proof fn lemma_rt_scan(entries: Seq<(Seq<char>, usize)>, bbs: Seq<BasicBlockView>, k: int)
    requires
        rt_premises(entries, bbs),
        0 <= k <= bbs.len(),
    ensures
        build_upto(
            finish_upto(entries, bbs, bbs.len() as int),
            finish_upto(entries, bbs, k).len() as int,
        ) == Ok::<BuildState, crate::stmt::ArgumentView>(rt_state(entries, bbs, k)),
    decreases k,
{
    if k == 0 {
        assert(finish_upto(entries, bbs, 0).len() == 0);
        let st0 = rt_state(entries, bbs, 0);
        assert(st0.bbs =~= build_init().bbs);
        assert(st0.labels =~= build_init().labels);
        assert(st0 == build_init());
    } else {
        lemma_rt_scan(entries, bbs, k - 1);
        lemma_rt_labels_step(entries, bbs, k);
        lemma_rt_body_step(entries, bbs, k);
    }
}


/// What resolution makes of a rebuilt block: the original instructions
/// and edges; only the end location of a plainly-elided block is lost.
pub open spec fn rt_resolved_block(b: BasicBlockView, k: int) -> BasicBlockView {
    RawBasicBlockView {
        stmts: b.stmts,
        condjmp: b.condjmp,
        begin_loc: b.begin_loc,
        endjmp_loc: if plain_elided(b, k) {
            None
        } else {
            b.endjmp_loc
        },
        next: b.next,
    }
}

/// Resolving a rebuilt block against the rebuilt table gives back the
/// original edges.
proof fn lemma_rt_resolve_block(entries: Seq<(Seq<char>, usize)>, bbs: Seq<BasicBlockView>, k: int)
    requires
        rt_premises(entries, bbs),
        0 <= k < bbs.len(),
    ensures
        crate::module::resolve_block(
            rt_flex_block(entries, bbs[k], k),
            rebuilt_labels(entries, bbs.len() as int),
        ) == Ok::<BasicBlockView, crate::stmt::ArgumentView>(rt_resolved_block(bbs[k], k)),
{
    let n = bbs.len() as int;
    let rl = rebuilt_labels(entries, n);
    lemma_rebuilt_labels_facts(entries, n, n);
    let b = bbs[k];
    assert(block_edges_ok(b, n));
    match b.condjmp {
        Some((c, JumpTargetView::BasicBlock(t))) => {
            assert((t as int) < n);
            assert(spec_label_for(entries, t) == block_label_names(entries, t)[0]);
            assert(entries_contain(rl, block_label_names(entries, t)[0]));
            assert(entries_value(rl, block_label_names(entries, t)[0]) == t);
        }
        _ => {}
    }
    match b.next {
        UcJumpTargetView::BasicBlock(t) => {
            if t as int != k + 1 {
                assert((t as int) < n);
                assert(spec_label_for(entries, t) == block_label_names(entries, t)[0]);
                assert(entries_contain(rl, block_label_names(entries, t)[0]));
                assert(entries_value(rl, block_label_names(entries, t)[0]) == t);
            }
        }
        _ => {}
    }
}

/// Resolving the whole rebuilt block list gives back every original
/// block.
proof fn lemma_rt_resolve_upto(entries: Seq<(Seq<char>, usize)>, bbs: Seq<BasicBlockView>, k: int)
    requires
        rt_premises(entries, bbs),
        0 <= k <= bbs.len(),
    ensures
        crate::module::resolve_upto(
            Seq::new(bbs.len(), |j: int| rt_flex_block(entries, bbs[j], j)),
            rebuilt_labels(entries, bbs.len() as int),
            k,
        ) == Ok::<Seq<BasicBlockView>, crate::stmt::ArgumentView>(
            Seq::new(k as nat, |j: int| rt_resolved_block(bbs[j], j)),
        ),
    decreases k,
{
    if k == 0 {
        assert(Seq::new(0, |j: int| rt_resolved_block(bbs[j], j))
            =~= Seq::<BasicBlockView>::empty());
    } else {
        lemma_rt_resolve_upto(entries, bbs, k - 1);
        lemma_rt_resolve_block(entries, bbs, k - 1);
        assert(Seq::new(k as nat, |j: int| rt_resolved_block(bbs[j], j)) =~= Seq::new(
            (k - 1) as nat,
            |j: int| rt_resolved_block(bbs[j], j),
        ).push(rt_resolved_block(bbs[k - 1], k - 1)));
    }
}

/// Round-trip law: flattening a module in flattener shape and rebuilding
/// the stream reproduces every block's instructions, conditional branch
/// and continuation, and every declared label still names its block.
/// Synthesized spellings may appear as extra labels; a plainly-elided
/// block's end location is not re-read.
pub proof fn lemma_round_trip(entries: Seq<(Seq<char>, usize)>, bbs: Seq<BasicBlockView>)
    requires
        rt_premises(entries, bbs),
    ensures
        ({
            let n = bbs.len() as int;
            let stream = finish_upto(entries, bbs, n);
            let r = crate::module::build_spec(stream);
            &&& r is Ok
            &&& r->Ok_0.0.len() == n
            &&& forall|k: int|
                0 <= k < n ==> {
                    let b2 = #[trigger] r->Ok_0.0[k];
                    b2.stmts == bbs[k].stmts && b2.condjmp == bbs[k].condjmp && b2.next
                        == bbs[k].next
                }
            &&& forall|w: int|
                0 <= w < entries.len() ==> entries_contain(
                    r->Ok_0.1,
                    (#[trigger] entries[w]).0,
                ) && entries_value(r->Ok_0.1, entries[w].0) == entries[w].1
        }),
{
    let n = bbs.len() as int;
    let stream = finish_upto(entries, bbs, n);
    lemma_rt_scan(entries, bbs, n);
    let st_n = rt_state(entries, bbs, n);
    assert(stream.len() == finish_upto(entries, bbs, n).len());
    assert(build_upto(stream, stream.len() as int) == Ok::<
        BuildState,
        crate::stmt::ArgumentView,
    >(st_n));
    // the final block is never pending, so the accumulator is empty
    assert(!(n >= 1 && plain_elided(bbs[n - 1], n - 1))) by {
        if n >= 1 && plain_elided(bbs[n - 1], n - 1) {
            assert(block_edges_ok(bbs[n - 1], n));
        }
    }
    assert(st_n.cur == empty_block_view::<BbRefView>());
    lemma_rebuilt_labels_facts(entries, n, n);
    // wrap-up: no trailing flush, no clamping
    let fbv = crate::module::finalize_blocks(st_n);
    assert(fbv == st_n.bbs) by {
        assert(block_is_empty(st_n.cur));
        assert(!(exists|j: int|
            0 <= j < st_n.labels.len() && (#[trigger] st_n.labels[j]).1 == st_n.bbs.len())) by {
            if exists|j: int|
                0 <= j < st_n.labels.len() && (#[trigger] st_n.labels[j]).1 == st_n.bbs.len() {
                let j = choose|j: int|
                    0 <= j < st_n.labels.len() && (#[trigger] st_n.labels[j]).1
                        == st_n.bbs.len();
                assert((st_n.labels[j].1 as int) < n);
            }
        }
        if fbv.len() > 0 {
            assert(fbv[fbv.len() - 1] == rt_flex_block(entries, bbs[n - 1], n - 1));
            match rt_flex_block(entries, bbs[n - 1], n - 1).next {
                UcJumpTargetView::BasicBlock(BbRefView::Id(y)) => {
                    // an index-valued continuation only spells an elided
                    // fallthrough, which the final block cannot have
                    assert(block_edges_ok(bbs[n - 1], n));
                    assert(false);
                }
                _ => {}
            }
        }
    }
    lemma_rt_resolve_upto(entries, bbs, n);
    assert(fbv =~= Seq::new(bbs.len(), |j: int| rt_flex_block(entries, bbs[j], j)));
    let resolved = Seq::new(n as nat, |j: int| rt_resolved_block(bbs[j], j));
    assert(crate::module::resolve_upto(fbv, st_n.labels, fbv.len() as int) == Ok::<
        Seq<BasicBlockView>,
        crate::stmt::ArgumentView,
    >(resolved));
    let r = crate::module::build_spec(stream);
    assert(r == Ok::<(Seq<BasicBlockView>, Seq<(Seq<char>, usize)>), crate::stmt::ArgumentView>(
        (resolved, st_n.labels),
    ));
    // every declared label still names its block
    assert forall|w: int| 0 <= w < entries.len() implies entries_contain(
        r->Ok_0.1,
        (#[trigger] entries[w]).0,
    ) && entries_value(r->Ok_0.1, entries[w].0) == entries[w].1 by {
        let l = entries[w].0;
        let v = entries[w].1;
        assert((v as int) < n);
        lemma_alias_member(entries, v, l);
        assert(spec_labels_of_bb(entries, v).contains(l)) by {
            assert(entries[w] == (l, v));
        }
        let q = choose|q: int|
            0 <= q < spec_labels_of_bb(entries, v).len() && spec_labels_of_bb(entries, v)[q] == l;
        assert(block_label_names(entries, v)[q] == l);
        assert(entries_contain(rebuilt_labels(entries, n), l) && entries_value(
            rebuilt_labels(entries, n),
            l,
        ) == v);
    }
}


/// Scan invariants of the builder: accumulated instruction lists hold
/// only plain commands, the accumulator carries neither branch nor
/// continuation yet, and a flushed block with a branch falls through to
/// its successor.
proof fn lemma_build_scan_shape(stmts: Seq<StatementView>, i: int)
    requires
        0 <= i <= stmts.len(),
        stmts.len() < usize::MAX,
        build_upto(stmts, i) is Ok,
    ensures
        ({
            let st = build_upto(stmts, i)->Ok_0;
            &&& st.bbs.len() <= i
            &&& forall|k: int, q: int|
                0 <= k < st.bbs.len() && 0 <= q < st.bbs[k].stmts.len() ==> cmd_is_plain(
                    (#[trigger] st.bbs[k].stmts[q]).cmd,
                )
            &&& forall|q: int|
                0 <= q < st.cur.stmts.len() ==> cmd_is_plain((#[trigger] st.cur.stmts[q]).cmd)
            &&& st.cur.condjmp is None
            &&& st.cur.next is Halt
            &&& forall|k: int|
                0 <= k < st.bbs.len() && (#[trigger] st.bbs[k]).condjmp is Some ==> (
                match st.bbs[k].next {
                    UcJumpTargetView::BasicBlock(BbRefView::Id(y)) => y as int == k + 1,
                    _ => false,
                })
        }),
    decreases i,
{
    if i > 0 {
        lemma_build_scan_shape(stmts, i - 1);
        let st0 = build_upto(stmts, i - 1)->Ok_0;
        let st = build_upto(stmts, i)->Ok_0;
        let sv = stmts[i - 1];
        assert(build_step(st0, sv) == Ok::<BuildState, crate::stmt::ArgumentView>(st));
        match sv.cmd {
            CommandView::Label(_) => {
                let st1 = push_if(st0);
                if !crate::block::block_is_empty(st0.cur) {
                    assert(st1.bbs == st0.bbs.push(
                        RawBasicBlockView {
                            next: UcJumpTargetView::BasicBlock(
                                BbRefView::Id(((st0.bbs.len() + 1) as usize)),
                            ),
                            ..st0.cur
                        },
                    ));
                    assert(forall|k: int|
                        0 <= k < st0.bbs.len() ==> st1.bbs[k] == st0.bbs[k]);
                }
            }
            CommandView::Na(crate::stmt::CmdNoArg::Ret) => {
                assert(forall|k: int| 0 <= k < st0.bbs.len() ==> st.bbs[k] == st0.bbs[k]);
            }
            CommandView::Na(crate::stmt::CmdNoArg::Hlt) => {
                assert(forall|k: int| 0 <= k < st0.bbs.len() ==> st.bbs[k] == st0.bbs[k]);
            }
            CommandView::Wa(crate::stmt::CmdWithArg::Jmp, _) => {
                assert(forall|k: int| 0 <= k < st0.bbs.len() ==> st.bbs[k] == st0.bbs[k]);
            }
            CommandView::Wa(crate::stmt::CmdWithArg::Jps, _) => {
                assert(forall|k: int| 0 <= k < st0.bbs.len() ==> st.bbs[k] == st0.bbs[k]);
                assert(st.bbs[st.bbs.len() - 1].next == UcJumpTargetView::<
                    BbRefView,
                >::BasicBlock(BbRefView::Id(((st0.bbs.len() + 1) as usize))));
            }
            CommandView::Wa(crate::stmt::CmdWithArg::Jpo, _) => {
                assert(forall|k: int| 0 <= k < st0.bbs.len() ==> st.bbs[k] == st0.bbs[k]);
                assert(st.bbs[st.bbs.len() - 1].next == UcJumpTargetView::<
                    BbRefView,
                >::BasicBlock(BbRefView::Id(((st0.bbs.len() + 1) as usize))));
            }
            _ => {
                assert(cmd_is_plain(sv.cmd));
                assert(st.cur.stmts == st0.cur.stmts.push(sv));
            }
        }
    }
}

/// Whatever stream the builder accepts, the module it produces has plain
/// instruction lists, and a block with a conditional branch falls through
/// to the next block — except the final block, whose dangling fallthrough
/// the wrap-up clamps to `Halt`.  These are two of the premises of
/// [`rt_premises`]; the remaining ones (no splice glue, synthesized
/// names unused) depend on the stream being label-shaped and already
/// optimal.
pub proof fn lemma_build_shape(stmts: Seq<StatementView>)
    requires
        stmts.len() < usize::MAX,
        crate::module::build_spec(stmts) is Ok,
    ensures
        ({
            let bbs = crate::module::build_spec(stmts)->Ok_0.0;
            &&& forall|k: int, q: int|
                0 <= k < bbs.len() && 0 <= q < bbs[k].stmts.len() ==> cmd_is_plain(
                    (#[trigger] bbs[k].stmts[q]).cmd,
                )
            &&& forall|k: int|
                0 <= k < bbs.len() && (#[trigger] bbs[k]).condjmp is Some ==> (match bbs[k].next {
                    UcJumpTargetView::BasicBlock(t) => t as int == k + 1,
                    UcJumpTargetView::Halt => k == bbs.len() - 1,
                    _ => false,
                })
        }),
{
    let n = stmts.len() as int;
    lemma_build_scan_shape(stmts, n);
    let st = build_upto(stmts, n)->Ok_0;
    let fb = crate::module::finalize_blocks(st);
    // the wrap-up only adds the branchless accumulator and perhaps turns
    // the final block's dangling fallthrough into Halt
    assert(forall|k: int, q: int|
        0 <= k < fb.len() && 0 <= q < fb[k].stmts.len() ==> cmd_is_plain(
            (#[trigger] fb[k].stmts[q]).cmd,
        ));
    assert(forall|k: int|
        0 <= k < fb.len() && (#[trigger] fb[k]).condjmp is Some ==> (match fb[k].next {
            UcJumpTargetView::BasicBlock(BbRefView::Id(y)) => y as int == k + 1,
            UcJumpTargetView::Halt => k == fb.len() - 1,
            _ => false,
        }));
    let lv = st.labels;
    let bbs = crate::module::build_spec(stmts)->Ok_0.0;
    lemma_resolve_keeps_shape(fb, lv, fb.len() as int);
    assert(crate::module::resolve_upto(fb, lv, fb.len() as int) == Ok::<
        Seq<BasicBlockView>,
        crate::stmt::ArgumentView,
    >(bbs));
}

/// Resolution keeps each block's instruction list, branch presence and
/// continuation shape; a literal index resolves to itself.
proof fn lemma_resolve_keeps_shape(
    fb: Seq<RawBasicBlockView<BbRefView>>,
    lv: Seq<(Seq<char>, usize)>,
    k: int,
)
    requires
        0 <= k <= fb.len(),
        crate::module::resolve_upto(fb, lv, k) is Ok,
    ensures
        ({
            let rs = crate::module::resolve_upto(fb, lv, k)->Ok_0;
            &&& rs.len() == k
            &&& forall|j: int| 0 <= j < k ==> (#[trigger] rs[j]).stmts == fb[j].stmts
            &&& forall|j: int|
                0 <= j < k ==> ((#[trigger] rs[j]).condjmp is Some <==> fb[j].condjmp is Some)
            &&& forall|j: int|
                0 <= j < k ==> (match fb[j].next {
                    UcJumpTargetView::BasicBlock(BbRefView::Id(y)) => (#[trigger] rs[j]).next
                        == UcJumpTargetView::<usize>::BasicBlock(y),
                    UcJumpTargetView::Halt => rs[j].next == UcJumpTargetView::<usize>::Halt,
                    _ => true,
                })
        }),
    decreases k,
{
    if k > 0 {
        lemma_resolve_keeps_shape(fb, lv, k - 1);
        let pre = crate::module::resolve_upto(fb, lv, k - 1)->Ok_0;
        let rs = crate::module::resolve_upto(fb, lv, k)->Ok_0;
        assert(forall|j: int| 0 <= j < k - 1 ==> rs[j] == pre[j]);
        assert(rs[k - 1] == crate::module::resolve_block(fb[k - 1], lv)->Ok_0);
    }
}

} // verus!
