//! The module: a dense, index-addressed sequence of basic blocks plus a
//! label table, and the graph builder that produces it from a flat
//! statement stream.

use vstd::prelude::*;
use crate::block::{
    block_is_empty, empty_block_view, BasicBlock, BasicBlockView, RawBasicBlock, RawBasicBlockView,
};
use crate::labels::{entries_contain, entries_value, entries_wf, LabelMap};
use crate::stmt::{
    Argument, ArgumentView, CmdNoArg, CmdWithArg, Command, CommandView, CondJumpCond, Statement,
    StatementView,
};
use crate::targets::{BbRef, BbRefView, JumpTarget, JumpTargetView, UcJumpTarget, UcJumpTargetView};

verus! {

/// A control-flow graph: blocks addressed by dense indices `0 ..
/// bbs.len()`, block 0 the entry point, and a label table whose every
/// entry names a valid block.
#[derive(Debug)]
pub struct Module {
    pub bbs: Vec<BasicBlock>,
    pub labels: LabelMap,
}

/// Graph construction failed: the carried argument is a jump operand that
/// is no valid jump target, or a label that the finished table does not
/// know.
#[derive(Debug)]
pub struct ModuleParseError(pub Argument);

impl Clone for ModuleParseError {
    fn clone(&self) -> (r: Self)
        ensures
            r == *self,
    {
        ModuleParseError(self.0.clone())
    }
}

/// Whether every edge leaving a block stays inside a graph of `n` blocks.
pub open spec fn block_edges_ok(b: BasicBlockView, n: int) -> bool {
    &&& match b.condjmp {
        Some((_, JumpTargetView::BasicBlock(t))) => (t as int) < n,
        _ => true,
    }
    &&& match b.next {
        UcJumpTargetView::BasicBlock(t) => (t as int) < n,
        _ => true,
    }
}

impl Module {
    /// The models of the blocks, in index order.
    pub open spec fn bbs_view(self) -> Seq<BasicBlockView> {
        self.bbs.deep_view()
    }

    /// Density invariant: label keys are distinct, every label and every
    /// branch or continuation edge names a block index below `bbs.len()`.
    pub open spec fn wf(self) -> bool {
        &&& self.labels.wf()
        &&& forall|j: int|
            0 <= j < self.labels@.len() ==> ((#[trigger] self.labels@[j]).1 as int)
                < self.bbs_view().len()
        &&& forall|i: int|
            0 <= i < self.bbs_view().len() ==> block_edges_ok(
                #[trigger] self.bbs_view()[i],
                self.bbs_view().len() as int,
            )
    }

    /// The blocks of the module.
    pub fn bbs(&self) -> (r: &Vec<BasicBlock>)
        ensures
            r == &self.bbs,
    {
        &self.bbs
    }

    /// The label table of the module.
    pub fn labels(&self) -> (r: &LabelMap)
        ensures
            r == &self.labels,
    {
        &self.labels
    }
}

/// The labels that name block `bbid`, in table order.
pub open spec fn spec_labels_of_bb(entries: Seq<(Seq<char>, usize)>, bbid: usize) -> Seq<Seq<char>>
    decreases entries.len(),
{
    if entries.len() == 0 {
        Seq::empty()
    } else {
        spec_labels_of_bb(entries.drop_last(), bbid) + (if entries.last().1 == bbid {
            seq![entries.last().0]
        } else {
            Seq::empty()
        })
    }
}

impl Module {
    /// All labels that name block `bbid`, in table order.
    pub fn labels_of_bb(&self, bbid: usize) -> (r: Vec<String>)
        ensures
            r.deep_view() == spec_labels_of_bb(self.labels@, bbid),
    {
        let n = self.labels.entries.len();
        let mut r: Vec<String> = Vec::new();
        let mut i: usize = 0;
        proof {
            assert(self.labels@.take(0) =~= Seq::<(Seq<char>, usize)>::empty());
            assert(r.deep_view() =~= Seq::<Seq<char>>::empty());
        }
        while i < n
            invariant
                n == self.labels@.len(),
                0 <= i <= n,
                r.deep_view() == spec_labels_of_bb(self.labels@.take(i as int), bbid),
            decreases n - i,
        {
            let ghost pre = r.deep_view();
            if self.labels.entries[i].1 == bbid {
                r.push(self.labels.entries[i].0.clone());
            }
            proof {
                let es = self.labels@;
                assert(es.take(i + 1).drop_last() =~= es.take(i as int));
                assert(es.take(i + 1).last() == es[i as int]);
                if es[i as int].1 == bbid {
                    assert(r.deep_view() =~= pre + seq![es[i as int].0]);
                } else {
                    assert(r.deep_view() =~= pre + Seq::<Seq<char>>::empty());
                }
            }
            i += 1;
        }
        proof {
            assert(self.labels@.take(n as int) =~= self.labels@);
        }
        r
    }
}

// ---------------------------------------------------------------------------
// The mathematical model of graph construction (see `Module::new`).
// ---------------------------------------------------------------------------

/// The builder's state after some prefix of the statement stream: the
/// finished blocks, the label table so far, and the block being
/// accumulated.  Edge targets are still flexible references.
pub ghost struct BuildState {
    pub bbs: Seq<RawBasicBlockView<BbRefView>>,
    pub labels: Seq<(Seq<char>, usize)>,
    pub cur: RawBasicBlockView<BbRefView>,
}

/// The state before any statement has been seen.
pub open spec fn build_init() -> BuildState {
    BuildState { bbs: Seq::empty(), labels: Seq::empty(), cur: empty_block_view() }
}

/// Record a label: an existing key has its value replaced, a fresh key is
/// appended.
pub open spec fn lm_insert(
    entries: Seq<(Seq<char>, usize)>,
    k: Seq<char>,
    v: usize,
) -> Seq<(Seq<char>, usize)> {
    if entries_contain(entries, k) {
        let i = choose|i: int| 0 <= i < entries.len() && entries[i].0 == k;
        entries.update(i, (k, v))
    } else {
        entries.push((k, v))
    }
}

/// Flush the accumulated block if it is not empty.  A block flushed with
/// the default continuation falls through to the block that will be
/// created next.
pub open spec fn push_if(st: BuildState) -> BuildState {
    if block_is_empty(st.cur) {
        st
    } else {
        let cur = if st.cur.next is Halt {
            RawBasicBlockView {
                next: UcJumpTargetView::BasicBlock(BbRefView::Id((st.bbs.len() + 1) as usize)),
                ..st.cur
            }
        } else {
            st.cur
        };
        BuildState { bbs: st.bbs.push(cur), labels: st.labels, cur: empty_block_view() }
    }
}

/// Force-flush the accumulated block with the given continuation, even if
/// the block is empty.
pub open spec fn push_forced(
    st: BuildState,
    next: UcJumpTargetView<BbRefView>,
    loc: Option<crate::stmt::LocationView>,
) -> BuildState {
    let cur = RawBasicBlockView { next, endjmp_loc: loc, ..st.cur };
    BuildState { bbs: st.bbs.push(cur), labels: st.labels, cur: empty_block_view() }
}

/// Classify a jump operand as a flexible jump target; an operand that is
/// neither a label nor an absolute address is the error.
pub open spec fn flex_target_of_arg(a: ArgumentView) -> Result<
    JumpTargetView<BbRefView>,
    ArgumentView,
> {
    match a {
        ArgumentView::Label(l) => Ok(JumpTargetView::BasicBlock(BbRefView::Label(l))),
        ArgumentView::Absolute(x) => Ok(JumpTargetView::Absolute(x)),
        _ => Err(a),
    }
}

/// A conditional-jump target as an unconditional continuation.
pub open spec fn uc_of_flex(t: JumpTargetView<BbRefView>) -> UcJumpTargetView<BbRefView> {
    match t {
        JumpTargetView::BasicBlock(b) => UcJumpTargetView::BasicBlock(b),
        JumpTargetView::Absolute(a) => UcJumpTargetView::Absolute(a),
    }
}

/// One step of the builder's scan (the bullets of the construction
/// algorithm): a label flushes the block and records the index the next
/// block will take; `RET`, `HLT` and `JMP` set the continuation and
/// force-flush; `JPS`/`JPO` set the conditional branch and flush with
/// fallthrough; anything else is appended to the block.
pub open spec fn build_step(st: BuildState, s: StatementView) -> Result<BuildState, ArgumentView> {
    match s.cmd {
        CommandView::Label(l) => {
            let st1 = push_if(st);
            let cur1 = if st1.cur.begin_loc is None {
                RawBasicBlockView { begin_loc: s.loc, ..st1.cur }
            } else {
                st1.cur
            };
            Ok(
                BuildState {
                    bbs: st1.bbs,
                    labels: lm_insert(st1.labels, l, st1.bbs.len() as usize),
                    cur: cur1,
                },
            )
        }
        CommandView::Na(CmdNoArg::Ret) => Ok(push_forced(st, UcJumpTargetView::Return, s.loc)),
        CommandView::Na(CmdNoArg::Hlt) => Ok(push_forced(st, UcJumpTargetView::Halt, s.loc)),
        CommandView::Wa(CmdWithArg::Jmp, a) => match flex_target_of_arg(a) {
            Ok(t) => Ok(push_forced(st, uc_of_flex(t), s.loc)),
            Err(e) => Err(e),
        },
        CommandView::Wa(CmdWithArg::Jps, a) => match flex_target_of_arg(a) {
            Ok(t) => Ok(
                push_if(
                    BuildState {
                        cur: RawBasicBlockView {
                            condjmp: Some((CondJumpCond::Sign, t)),
                            endjmp_loc: s.loc,
                            ..st.cur
                        },
                        ..st
                    },
                ),
            ),
            Err(e) => Err(e),
        },
        CommandView::Wa(CmdWithArg::Jpo, a) => match flex_target_of_arg(a) {
            Ok(t) => Ok(
                push_if(
                    BuildState {
                        cur: RawBasicBlockView {
                            condjmp: Some((CondJumpCond::Overflow, t)),
                            endjmp_loc: s.loc,
                            ..st.cur
                        },
                        ..st
                    },
                ),
            ),
            Err(e) => Err(e),
        },
        _ => Ok(
            BuildState {
                cur: RawBasicBlockView { stmts: st.cur.stmts.push(s), ..st.cur },
                ..st
            },
        ),
    }
}

/// The builder's state after the first `n` statements, or the first
/// statement-classification error.
pub open spec fn build_upto(stmts: Seq<StatementView>, n: int) -> Result<BuildState, ArgumentView>
    decreases n,
{
    if n <= 0 {
        Ok(build_init())
    } else {
        match build_upto(stmts, n - 1) {
            Ok(st) => build_step(st, stmts[n - 1]),
            Err(e) => Err(e),
        }
    }
}

/// The wrap-up after the scan: the trailing accumulator is flushed if it
/// is non-empty or a label points exactly at its index, and a dangling
/// final fallthrough (one whose target equals or exceeds the block count)
/// is clamped to `Halt`.
pub open spec fn finalize_blocks(st: BuildState) -> Seq<RawBasicBlockView<BbRefView>> {
    let bbs1 = if !block_is_empty(st.cur) || exists|j: int|
        0 <= j < st.labels.len() && st.labels[j].1 == st.bbs.len() {
        st.bbs.push(st.cur)
    } else {
        st.bbs
    };
    if bbs1.len() > 0 && (match bbs1.last().next {
        UcJumpTargetView::BasicBlock(BbRefView::Id(y)) => y >= bbs1.len(),
        _ => false,
    }) {
        bbs1.update(bbs1.len() - 1, RawBasicBlockView { next: UcJumpTargetView::Halt, ..bbs1.last() })
    } else {
        bbs1
    }
}

/// Resolve a flexible reference against the finished label table; an
/// unknown label is the error.
pub open spec fn resolve_flex(b: BbRefView, labels: Seq<(Seq<char>, usize)>) -> Result<
    usize,
    ArgumentView,
> {
    match b {
        BbRefView::Id(i) => Ok(i),
        BbRefView::Label(l) => if entries_contain(labels, l) {
            Ok(entries_value(labels, l))
        } else {
            Err(ArgumentView::Label(l))
        },
    }
}

/// Resolve one block: the conditional-branch target first, then the
/// continuation.
pub open spec fn resolve_block(
    b: RawBasicBlockView<BbRefView>,
    labels: Seq<(Seq<char>, usize)>,
) -> Result<BasicBlockView, ArgumentView> {
    let condjmp = match b.condjmp {
        Some((c, JumpTargetView::BasicBlock(r))) => match resolve_flex(r, labels) {
            Ok(i) => Ok(Some((c, JumpTargetView::BasicBlock(i)))),
            Err(e) => Err(e),
        },
        Some((c, JumpTargetView::Absolute(a))) => Ok(Some((c, JumpTargetView::Absolute(a)))),
        None => Ok(None),
    };
    match condjmp {
        Err(e) => Err(e),
        Ok(cj) => {
            let next = match b.next {
                UcJumpTargetView::BasicBlock(r) => match resolve_flex(r, labels) {
                    Ok(i) => Ok(UcJumpTargetView::BasicBlock(i)),
                    Err(e) => Err(e),
                },
                UcJumpTargetView::Absolute(a) => Ok(UcJumpTargetView::Absolute(a)),
                UcJumpTargetView::Return => Ok(UcJumpTargetView::Return),
                UcJumpTargetView::Halt => Ok(UcJumpTargetView::Halt),
            };
            match next {
                Err(e) => Err(e),
                Ok(nx) => Ok(
                    RawBasicBlockView {
                        stmts: b.stmts,
                        condjmp: cj,
                        begin_loc: b.begin_loc,
                        endjmp_loc: b.endjmp_loc,
                        next: nx,
                    },
                ),
            }
        }
    }
}

/// The first `n` blocks resolved, or the first resolution error.
pub open spec fn resolve_upto(
    bbs: Seq<RawBasicBlockView<BbRefView>>,
    labels: Seq<(Seq<char>, usize)>,
    n: int,
) -> Result<Seq<BasicBlockView>, ArgumentView>
    decreases n,
{
    if n <= 0 {
        Ok(Seq::empty())
    } else {
        match resolve_upto(bbs, labels, n - 1) {
            Ok(s) => match resolve_block(bbs[n - 1], labels) {
                Ok(b) => Ok(s.push(b)),
                Err(e) => Err(e),
            },
            Err(e) => Err(e),
        }
    }
}

/// What graph construction makes of a statement stream: the resolved
/// blocks and the label table, or the argument that failed (a jump operand
/// that is no valid target, else the first unresolved label in block
/// order, branch target before continuation).
pub open spec fn build_spec(stmts: Seq<StatementView>) -> Result<
    (Seq<BasicBlockView>, Seq<(Seq<char>, usize)>),
    ArgumentView,
> {
    match build_upto(stmts, stmts.len() as int) {
        Err(e) => Err(e),
        Ok(st) => {
            let fb = finalize_blocks(st);
            match resolve_upto(fb, st.labels, fb.len() as int) {
                Ok(bbs) => Ok((bbs, st.labels)),
                Err(e) => Err(e),
            }
        }
    }
}

/// Shape of a block produced by the scan, at index `k`: the conditional
/// branch never holds a literal index, and an index-valued continuation is
/// exactly the fallthrough to `k + 1`.
pub open spec fn flex_block_shape(b: RawBasicBlockView<BbRefView>, k: int) -> bool {
    &&& match b.condjmp {
        Some((_, JumpTargetView::BasicBlock(BbRefView::Id(_)))) => false,
        _ => true,
    }
    &&& match b.next {
        UcJumpTargetView::BasicBlock(BbRefView::Id(y)) => y == k + 1,
        _ => true,
    }
}

/// A resolution error at some prefix persists to every longer prefix.
pub proof fn lemma_resolve_upto_err_persists(
    bbs: Seq<RawBasicBlockView<BbRefView>>,
    labels: Seq<(Seq<char>, usize)>,
    i: int,
    n: int,
)
    requires
        0 <= i <= n,
        resolve_upto(bbs, labels, i) is Err,
    ensures
        resolve_upto(bbs, labels, n) == resolve_upto(bbs, labels, i),
    decreases n - i,
{
    if n > i {
        lemma_resolve_upto_err_persists(bbs, labels, i, n - 1);
    }
}

/// Recording a key that is already present replaces the value at its
/// (unique) entry.
pub proof fn lemma_lm_insert_at(entries: Seq<(Seq<char>, usize)>, i: int, k: Seq<char>, v: usize)
    requires
        entries_wf(entries),
        0 <= i < entries.len(),
        entries[i].0 == k,
    ensures
        lm_insert(entries, k, v) == entries.update(i, (k, v)),
{
    assert(entries_contain(entries, k));
    let w = choose|w: int| 0 <= w < entries.len() && entries[w].0 == k;
    if w != i {
        assert(false);
    }
}

/// Flush the accumulated block into the block list if it is not empty; a
/// block flushed with the default continuation falls through to the next
/// block to be created.
fn flush_pending(bbs: &mut Vec<RawBasicBlock<BbRef>>, cur: &mut RawBasicBlock<BbRef>)
    requires
        old(bbs)@.len() < usize::MAX,
    ensures
        ({
            let st = push_if(
                BuildState {
                    bbs: old(bbs).deep_view(),
                    labels: Seq::empty(),
                    cur: old(cur)@,
                },
            );
            final(bbs).deep_view() == st.bbs && final(cur)@ == st.cur
        }),
{
    if !cur.is_empty() {
        match &cur.next {
            UcJumpTarget::Halt => {
                cur.next = UcJumpTarget::BasicBlock(BbRef::Id(bbs.len() + 1));
            }
            _ => {}
        }
        let mut fin: RawBasicBlock<BbRef> = RawBasicBlock::default();
        core::mem::swap(&mut fin, cur);
        bbs.push(fin);
        proof {
            assert(bbs.deep_view() =~= old(bbs).deep_view().push(
                push_if(
                    BuildState {
                        bbs: old(bbs).deep_view(),
                        labels: Seq::empty(),
                        cur: old(cur)@,
                    },
                ).bbs.last(),
            ));
        }
    }
}

/// Whether any label of the table maps to the given block index.
fn lm_has_value(labels: &LabelMap, v: usize) -> (r: bool)
    ensures
        r == exists|j: int| 0 <= j < labels@.len() && labels@[j].1 == v,
{
    let n = labels.entries.len();
    let mut i: usize = 0;
    while i < n
        invariant
            n == labels@.len(),
            0 <= i <= n,
            forall|j: int| 0 <= j < i ==> labels@[j].1 != v,
        decreases n - i,
    {
        if labels.entries[i].1 == v {
            proof {
                assert(labels@[i as int].1 == v);
            }
            return true;
        }
        i += 1;
    }
    false
}

/// Every value of an entry table bounded below `n` yields a bounded lookup.
pub proof fn lemma_entries_value_bound(entries: Seq<(Seq<char>, usize)>, k: Seq<char>, n: int)
    requires
        entries_contain(entries, k),
        forall|j: int| 0 <= j < entries.len() ==> (#[trigger] entries[j]).1 < n,
    ensures
        (entries_value(entries, k) as int) < n,
{
    let w = choose|w: int| 0 <= w < entries.len() && entries[w].0 == k;
    assert(entries[w].1 < n);
}

/// A build error at some prefix persists to every longer prefix.
pub proof fn lemma_build_upto_err_persists(stmts: Seq<StatementView>, i: int, n: int)
    requires
        0 <= i <= n,
        build_upto(stmts, i) is Err,
    ensures
        build_upto(stmts, n) == build_upto(stmts, i),
    decreases n - i,
{
    if n > i {
        lemma_build_upto_err_persists(stmts, i, n - 1);
    }
}


impl Module {
    /// Build a control-flow graph from a flat statement stream.
    ///
    /// The scan splits the stream into basic blocks, records label
    /// definitions against the index the next block will take (so forward
    /// and backward references work alike), and keeps jump targets as
    /// flexible references; a final pass resolves every reference against
    /// the completed table.  The result is exactly [`build_spec`] of the
    /// stream; on success the module satisfies the density invariant
    /// [`Module::wf`].
    pub fn new(init_stmts: Vec<Statement>) -> (r: Result<Module, ModuleParseError>)
        requires
            init_stmts@.len() < usize::MAX,
        ensures
            (r is Ok) == (build_spec(init_stmts.deep_view()) is Ok),
            r is Ok ==> {
                let m = r->Ok_0;
                let (bv, lv) = build_spec(init_stmts.deep_view())->Ok_0;
                &&& m.bbs.deep_view() == bv
                &&& m.labels@ == lv
                &&& m.wf()
            },
            r is Err ==> (r->Err_0).0@ == build_spec(init_stmts.deep_view())->Err_0,
    {
        let ghost svs = init_stmts.deep_view();
        let n = init_stmts.len();
        let mut bbs: Vec<RawBasicBlock<BbRef>> = Vec::new();
        let mut labels = LabelMap::new();
        let mut last_bb: RawBasicBlock<BbRef> = RawBasicBlock::default();
        let mut i: usize = 0;
        proof {
            assert(bbs.deep_view() =~= Seq::<RawBasicBlockView<BbRefView>>::empty());
            assert(build_upto(svs, 0) == Ok::<BuildState, ArgumentView>(
                BuildState { bbs: bbs.deep_view(), labels: labels@, cur: last_bb@ },
            ));
        }
        while i < n
            invariant
                init_stmts.deep_view() == svs,
                n == svs.len() < usize::MAX,
                0 <= i <= n,
                build_upto(svs, i as int) == Ok::<BuildState, ArgumentView>(
                    BuildState { bbs: bbs.deep_view(), labels: labels@, cur: last_bb@ },
                ),
                labels.wf(),
                forall|j: int|
                    0 <= j < labels@.len() ==> (#[trigger] labels@[j]).1 <= bbs.deep_view().len(),
                bbs.deep_view().len() <= i,
                forall|k: int|
                    0 <= k < bbs.deep_view().len() ==> flex_block_shape(
                        #[trigger] bbs.deep_view()[k],
                        k,
                    ),
                last_bb@.next is Halt,
                last_bb@.condjmp is None,
            decreases n - i,
        {
            let ghost st_pre = BuildState { bbs: bbs.deep_view(), labels: labels@, cur: last_bb@ };
            let s = init_stmts[i].clone();
            proof {
                assert(svs[i as int] == init_stmts@[i as int]@);
                assert(s@ == svs[i as int]);
            }
            let ghost sv = svs[i as int];
            let Statement { cmd, loc, do_ignore } = s;
            match cmd {
                Command::Label(l) => {
                    let ghost lv0 = l@;
                    flush_pending(&mut bbs, &mut last_bb);
                    let ghost st1 = push_if(st_pre);
                    proof {
                        assert(bbs.deep_view() == st1.bbs && last_bb@ == st1.cur);
                    }
                    if last_bb.begin_loc.is_none() {
                        last_bb.begin_loc = loc;
                    }
                    let v = bbs.len();
                    labels.insert(l, v);
                    proof {
                        let st_post = build_step(st_pre, sv)->Ok_0;
                        if entries_contain(st1.labels, lv0) {
                            let w = choose|w: int|
                                0 <= w < st1.labels.len() && st1.labels[w].0 == lv0;
                            lemma_lm_insert_at(st1.labels, w, lv0, v);
                        }
                        assert(labels@ == lm_insert(st1.labels, lv0, v));
                        assert(last_bb@ == st_post.cur);
                        assert(bbs.deep_view() == st_post.bbs);
                        assert(build_upto(svs, i + 1) == Ok::<BuildState, ArgumentView>(
                            BuildState { bbs: bbs.deep_view(), labels: labels@, cur: last_bb@ },
                        ));
                    }
                }
                Command::Na(CmdNoArg::Ret) => {
                    last_bb.next = UcJumpTarget::Return;
                    last_bb.endjmp_loc = loc;
                    let mut fin: RawBasicBlock<BbRef> = RawBasicBlock::default();
                    core::mem::swap(&mut fin, &mut last_bb);
                    bbs.push(fin);
                    proof {
                        let st_post = push_forced(st_pre, UcJumpTargetView::Return, sv.loc);
                        assert(bbs.deep_view() =~= st_post.bbs);
                        assert(build_upto(svs, i + 1) == Ok::<BuildState, ArgumentView>(
                            BuildState { bbs: bbs.deep_view(), labels: labels@, cur: last_bb@ },
                        ));
                    }
                }
                Command::Na(CmdNoArg::Hlt) => {
                    last_bb.next = UcJumpTarget::Halt;
                    last_bb.endjmp_loc = loc;
                    let mut fin: RawBasicBlock<BbRef> = RawBasicBlock::default();
                    core::mem::swap(&mut fin, &mut last_bb);
                    bbs.push(fin);
                    proof {
                        let st_post = push_forced(st_pre, UcJumpTargetView::Halt, sv.loc);
                        assert(bbs.deep_view() =~= st_post.bbs);
                        assert(build_upto(svs, i + 1) == Ok::<BuildState, ArgumentView>(
                            BuildState { bbs: bbs.deep_view(), labels: labels@, cur: last_bb@ },
                        ));
                    }
                }
                Command::Wa(CmdWithArg::Jmp, arg) => {
                    match JumpTarget::new(arg) {
                        Ok(t) => {
                            let nx: UcJumpTarget<BbRef> = match t {
                                JumpTarget::BasicBlock(l) => UcJumpTarget::BasicBlock(
                                    BbRef::Label(l),
                                ),
                                JumpTarget::Absolute(a) => UcJumpTarget::Absolute(a),
                            };
                            last_bb.next = nx;
                            last_bb.endjmp_loc = loc;
                            let mut fin: RawBasicBlock<BbRef> = RawBasicBlock::default();
                            core::mem::swap(&mut fin, &mut last_bb);
                            bbs.push(fin);
                            proof {
                                let tv = flex_target_of_arg(sv.cmd->Wa_1)->Ok_0;
                                let st_post = push_forced(st_pre, uc_of_flex(tv), sv.loc);
                                assert(bbs.deep_view() =~= st_post.bbs);
                                assert(build_upto(svs, i + 1) == Ok::<BuildState, ArgumentView>(
                                    BuildState {
                                        bbs: bbs.deep_view(),
                                        labels: labels@,
                                        cur: last_bb@,
                                    },
                                ));
                            }
                        }
                        Err(e) => {
                            proof {
                                assert(build_step(st_pre, sv) == Err::<BuildState, ArgumentView>(
                                    e@,
                                ));
                                assert(build_upto(svs, i + 1) == Err::<BuildState, ArgumentView>(
                                    e@,
                                ));
                                lemma_build_upto_err_persists(svs, i + 1, n as int);
                            }
                            return Err(ModuleParseError(e));
                        }
                    }
                }
                Command::Wa(CmdWithArg::Jps, arg) => {
                    match JumpTarget::new(arg) {
                        Ok(t) => {
                            let ft: JumpTarget<BbRef> = match t {
                                JumpTarget::BasicBlock(l) => JumpTarget::BasicBlock(
                                    BbRef::Label(l),
                                ),
                                JumpTarget::Absolute(a) => JumpTarget::Absolute(a),
                            };
                            last_bb.condjmp = Some((CondJumpCond::Sign, ft));
                            last_bb.endjmp_loc = loc;
                            let ghost st_mid = BuildState {
                                cur: RawBasicBlockView {
                                    condjmp: Some(
                                        (
                                            CondJumpCond::Sign,
                                            flex_target_of_arg(sv.cmd->Wa_1)->Ok_0,
                                        ),
                                    ),
                                    endjmp_loc: sv.loc,
                                    ..st_pre.cur
                                },
                                ..st_pre
                            };
                            proof {
                                assert(last_bb@ == st_mid.cur);
                            }
                            flush_pending(&mut bbs, &mut last_bb);
                            proof {
                                let st_post = push_if(st_mid);
                                assert(bbs.deep_view() == st_post.bbs && last_bb@ == st_post.cur);
                                assert(build_upto(svs, i + 1) == Ok::<BuildState, ArgumentView>(
                                    BuildState {
                                        bbs: bbs.deep_view(),
                                        labels: labels@,
                                        cur: last_bb@,
                                    },
                                ));
                            }
                        }
                        Err(e) => {
                            proof {
                                assert(build_upto(svs, i + 1) == Err::<BuildState, ArgumentView>(
                                    e@,
                                ));
                                lemma_build_upto_err_persists(svs, i + 1, n as int);
                            }
                            return Err(ModuleParseError(e));
                        }
                    }
                }
                Command::Wa(CmdWithArg::Jpo, arg) => {
                    match JumpTarget::new(arg) {
                        Ok(t) => {
                            let ft: JumpTarget<BbRef> = match t {
                                JumpTarget::BasicBlock(l) => JumpTarget::BasicBlock(
                                    BbRef::Label(l),
                                ),
                                JumpTarget::Absolute(a) => JumpTarget::Absolute(a),
                            };
                            last_bb.condjmp = Some((CondJumpCond::Overflow, ft));
                            last_bb.endjmp_loc = loc;
                            let ghost st_mid = BuildState {
                                cur: RawBasicBlockView {
                                    condjmp: Some(
                                        (
                                            CondJumpCond::Overflow,
                                            flex_target_of_arg(sv.cmd->Wa_1)->Ok_0,
                                        ),
                                    ),
                                    endjmp_loc: sv.loc,
                                    ..st_pre.cur
                                },
                                ..st_pre
                            };
                            proof {
                                assert(last_bb@ == st_mid.cur);
                            }
                            flush_pending(&mut bbs, &mut last_bb);
                            proof {
                                let st_post = push_if(st_mid);
                                assert(bbs.deep_view() == st_post.bbs && last_bb@ == st_post.cur);
                                assert(build_upto(svs, i + 1) == Ok::<BuildState, ArgumentView>(
                                    BuildState {
                                        bbs: bbs.deep_view(),
                                        labels: labels@,
                                        cur: last_bb@,
                                    },
                                ));
                            }
                        }
                        Err(e) => {
                            proof {
                                assert(build_upto(svs, i + 1) == Err::<BuildState, ArgumentView>(
                                    e@,
                                ));
                                lemma_build_upto_err_persists(svs, i + 1, n as int);
                            }
                            return Err(ModuleParseError(e));
                        }
                    }
                }
                cmd => {
                    last_bb.stmts.push(Statement { cmd, loc, do_ignore });
                    proof {
                        assert(last_bb@.stmts =~= st_pre.cur.stmts.push(sv));
                        assert(build_upto(svs, i + 1) == Ok::<BuildState, ArgumentView>(
                            BuildState { bbs: bbs.deep_view(), labels: labels@, cur: last_bb@ },
                        ));
                    }
                }
            }
            i += 1;
        }
        let ghost st_fin = BuildState { bbs: bbs.deep_view(), labels: labels@, cur: last_bb@ };
        proof {
            assert(build_upto(svs, svs.len() as int) == Ok::<BuildState, ArgumentView>(st_fin));
        }
        // wrap-up: flush the trailing accumulator if it is non-empty or a
        // label points at its index
        let tail_needed = !last_bb.is_empty() || lm_has_value(&labels, bbs.len());
        if tail_needed {
            bbs.push(last_bb);
            proof {
                assert(bbs.deep_view() =~= st_fin.bbs.push(st_fin.cur));
            }
        } else {
            // `last_bb` is dropped: it is empty and nothing points at it
        }
        // wrap-up: clamp a dangling final fallthrough to Halt
        let blen = bbs.len();
        let mut clamp = false;
        if blen > 0 {
            match &bbs[blen - 1].next {
                UcJumpTarget::BasicBlock(BbRef::Id(y)) => {
                    if *y >= blen {
                        clamp = true;
                    }
                }
                _ => {}
            }
        }
        if clamp {
            let mut lastb = match bbs.pop() {
                Some(b) => b,
                None => {
                    proof {
                        assert(false);
                    }
                    RawBasicBlock::default()
                }
            };
            lastb.next = UcJumpTarget::Halt;
            bbs.push(lastb);
        }
        let ghost fbv = finalize_blocks(st_fin);
        proof {
            if clamp {
                assert(bbs.deep_view() =~= fbv);
            } else {
                assert(bbs.deep_view() =~= fbv);
            }
        }
        let ghost lv = labels@;
        // label bounds, block shape, and the clamp guarantee, for the
        // finalized block list
        proof {
            assert(forall|j: int| 0 <= j < lv.len() ==> (#[trigger] lv[j]).1 < fbv.len());
            assert(forall|k: int| 0 <= k < fbv.len() ==> flex_block_shape(#[trigger] fbv[k], k));
            assert(fbv.len() > 0 ==> match fbv[fbv.len() - 1].next {
                UcJumpTargetView::BasicBlock(BbRefView::Id(y)) => y < fbv.len(),
                _ => true,
            });
        }
        // resolution pass: replace every flexible reference by its index
        let mut resolved: Vec<BasicBlock> = Vec::new();
        proof {
            assert(resolved.deep_view() =~= Seq::<BasicBlockView>::empty());
            assert(bbs.deep_view() =~= fbv.skip(0));
        }
        while bbs.len() > 0
            invariant
                init_stmts.deep_view() == svs,
                build_upto(svs, svs.len() as int) == Ok::<BuildState, ArgumentView>(st_fin),
                fbv == finalize_blocks(st_fin),
                lv == st_fin.labels,
                labels@ == lv,
                labels.wf(),
                forall|j: int| 0 <= j < lv.len() ==> (#[trigger] lv[j]).1 < fbv.len(),
                resolved.deep_view().len() + bbs.deep_view().len() == fbv.len(),
                bbs.deep_view() == fbv.skip(resolved.deep_view().len() as int),
                forall|k: int| 0 <= k < fbv.len() ==> flex_block_shape(#[trigger] fbv[k], k),
                fbv.len() > 0 ==> match fbv[fbv.len() - 1].next {
                    UcJumpTargetView::BasicBlock(BbRefView::Id(y)) => y < fbv.len(),
                    _ => true,
                },
                resolve_upto(fbv, lv, resolved.deep_view().len() as int) == Ok::<
                    Seq<BasicBlockView>,
                    ArgumentView,
                >(resolved.deep_view()),
                forall|k: int|
                    0 <= k < resolved.deep_view().len() ==> block_edges_ok(
                        #[trigger] resolved.deep_view()[k],
                        fbv.len() as int,
                    ),
            decreases bbs.len(),
        {
            let ghost k = resolved.deep_view().len() as int;
            let ghost pre_shallow = bbs@;
            let ghost pre_dv = bbs.deep_view();
            let fb = bbs.remove(0);
            proof {
                assert(pre_dv == fbv.skip(k));
                assert(pre_dv[0] == pre_shallow[0].deep_view());
                assert(fb@ == fbv.skip(k)[0]);
                assert(fb@ == fbv[k]);
                assert(bbs@ == pre_shallow.remove(0));
                assert forall|t: int| 0 <= t < bbs@.len() implies #[trigger] bbs.deep_view()[t]
                    == fbv.skip(k + 1)[t] by {
                    assert(bbs@[t] == pre_shallow[t + 1]);
                    assert(bbs.deep_view()[t] == bbs@[t].deep_view());
                    assert(pre_dv[t + 1] == pre_shallow[t + 1].deep_view());
                    assert(fbv.skip(k + 1)[t] == fbv[k + 1 + t]);
                    assert(pre_dv[t + 1] == fbv.skip(k)[t + 1]);
                }
                assert(bbs.deep_view() =~= fbv.skip(k + 1));
                assert(flex_block_shape(fbv[k], k));
            }
            let RawBasicBlock { stmts, condjmp, begin_loc, endjmp_loc, next } = fb;
            let rcj: Option<(CondJumpCond, JumpTarget<usize>)> = match condjmp {
                None => None,
                Some((c, JumpTarget::Absolute(a))) => Some((c, JumpTarget::Absolute(a))),
                Some((c, JumpTarget::BasicBlock(BbRef::Id(id)))) => {
                    proof {
                        assert(false);
                    }
                    Some((c, JumpTarget::BasicBlock(id)))
                }
                Some((c, JumpTarget::BasicBlock(BbRef::Label(l)))) => {
                    match labels.get(&l) {
                        Some(t) => {
                            proof {
                                lemma_entries_value_bound(lv, l@, fbv.len() as int);
                            }
                            Some((c, JumpTarget::BasicBlock(t)))
                        }
                        None => {
                            proof {
                                assert(resolve_block(fbv[k], lv) == Err::<
                                    BasicBlockView,
                                    ArgumentView,
                                >(ArgumentView::Label(l@)));
                                assert(resolve_upto(fbv, lv, k + 1) == Err::<
                                    Seq<BasicBlockView>,
                                    ArgumentView,
                                >(ArgumentView::Label(l@)));
                                lemma_resolve_upto_err_persists(fbv, lv, k + 1, fbv.len() as int);
                            }
                            return Err(ModuleParseError(Argument::Label(l)));
                        }
                    }
                }
            };
            let rnx: UcJumpTarget<usize> = match next {
                UcJumpTarget::Absolute(a) => UcJumpTarget::Absolute(a),
                UcJumpTarget::Return => UcJumpTarget::Return,
                UcJumpTarget::Halt => UcJumpTarget::Halt,
                UcJumpTarget::BasicBlock(BbRef::Id(id)) => {
                    proof {
                        if k < fbv.len() - 1 {
                            assert(id == k + 1);
                        }
                    }
                    UcJumpTarget::BasicBlock(id)
                }
                UcJumpTarget::BasicBlock(BbRef::Label(l)) => {
                    match labels.get(&l) {
                        Some(t) => {
                            proof {
                                lemma_entries_value_bound(lv, l@, fbv.len() as int);
                            }
                            UcJumpTarget::BasicBlock(t)
                        }
                        None => {
                            proof {
                                assert(resolve_block(fbv[k], lv) == Err::<
                                    BasicBlockView,
                                    ArgumentView,
                                >(ArgumentView::Label(l@)));
                                assert(resolve_upto(fbv, lv, k + 1) == Err::<
                                    Seq<BasicBlockView>,
                                    ArgumentView,
                                >(ArgumentView::Label(l@)));
                                lemma_resolve_upto_err_persists(fbv, lv, k + 1, fbv.len() as int);
                            }
                            return Err(ModuleParseError(Argument::Label(l)));
                        }
                    }
                }
            };
            let nb = BasicBlock { stmts, condjmp: rcj, begin_loc, endjmp_loc, next: rnx };
            let ghost pre_res = resolved.deep_view();
            proof {
                assert(resolve_block(fbv[k], lv) == Ok::<BasicBlockView, ArgumentView>(nb@));
                assert(block_edges_ok(nb@, fbv.len() as int));
            }
            resolved.push(nb);
            proof {
                assert(resolved.deep_view() =~= pre_res.push(nb@));
                assert(resolve_upto(fbv, lv, k + 1) == Ok::<Seq<BasicBlockView>, ArgumentView>(
                    resolved.deep_view(),
                ));
            }
        }
        let m = Module { bbs: resolved, labels };
        proof {
            assert(m.bbs.deep_view().len() == fbv.len());
            assert(resolve_upto(fbv, lv, fbv.len() as int) == Ok::<
                Seq<BasicBlockView>,
                ArgumentView,
            >(m.bbs.deep_view()));
            assert(m.wf());
            assert(build_spec(svs) == Ok::<(Seq<BasicBlockView>, Seq<(Seq<char>, usize)>),
                ArgumentView,
            >((m.bbs.deep_view(), lv)));
        }
        Ok(m)
    }
}

} // verus!
