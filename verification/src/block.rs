//! Basic blocks: an ordered run of plain instructions, at most one
//! conditional branch, and exactly one unconditional continuation; plus the
//! two local rewrites that run inside a single block, peephole cancellation
//! and tail-call conversion.

use vstd::prelude::*;
use crate::labels::{entries_contain, entries_value, LabelMap};
use crate::stmt::{
    Argument, ArgumentView, CmdNoArg, CmdWithArg, Command, CommandView, CondJumpCond, Location, LocationView,
    Statement, StatementView,
};
use crate::targets::{JumpTarget, JumpTargetView, UcJumpTarget, UcJumpTargetView};

verus! {

/// A basic block whose edge targets are represented by `BbId`: a flexible
/// reference while the graph is being built, a plain index afterwards.
#[derive(Debug)]
pub struct RawBasicBlock<BbId> {
    /// The plain instructions of the block, in order.
    pub stmts: Vec<Statement>,
    /// The optional conditional exit edge.
    pub condjmp: Option<(CondJumpCond, JumpTarget<BbId>)>,
    /// Source position of the start of the block, where one is known.
    pub begin_loc: Option<Location>,
    /// Source position of the statement that ended the block.
    pub endjmp_loc: Option<Location>,
    /// The unconditional exit edge; every block has exactly one.
    pub next: UcJumpTarget<BbId>,
}

/// A block whose edge targets are resolved block indices.
pub type BasicBlock = RawBasicBlock<usize>;

/// Mathematical model of a [`RawBasicBlock`].
pub ghost struct RawBasicBlockView<BV> {
    pub stmts: Seq<StatementView>,
    pub condjmp: Option<(CondJumpCond, JumpTargetView<BV>)>,
    pub begin_loc: Option<LocationView>,
    pub endjmp_loc: Option<LocationView>,
    pub next: UcJumpTargetView<BV>,
}

/// Mathematical model of a [`BasicBlock`].
pub type BasicBlockView = RawBasicBlockView<usize>;

impl<B: DeepView> View for RawBasicBlock<B> {
    type V = RawBasicBlockView<B::V>;

    open spec fn view(&self) -> RawBasicBlockView<B::V> {
        RawBasicBlockView {
            stmts: self.stmts.deep_view(),
            condjmp: match self.condjmp {
                Some((c, t)) => Some((c, t.deep_view())),
                None => None,
            },
            begin_loc: match self.begin_loc {
                Some(l) => Some(l@),
                None => None,
            },
            endjmp_loc: match self.endjmp_loc {
                Some(l) => Some(l@),
                None => None,
            },
            next: self.next.deep_view(),
        }
    }
}

impl<B: DeepView> DeepView for RawBasicBlock<B> {
    type V = RawBasicBlockView<B::V>;

    open spec fn deep_view(&self) -> RawBasicBlockView<B::V> {
        self.view()
    }
}

/// The model of a freshly started block: no instructions, no branch, no
/// locations, continuation [`UcJumpTargetView::Halt`].
pub open spec fn empty_block_view<BV>() -> RawBasicBlockView<BV> {
    RawBasicBlockView {
        stmts: Seq::empty(),
        condjmp: None,
        begin_loc: None,
        endjmp_loc: None,
        next: UcJumpTargetView::Halt,
    }
}

impl<B: DeepView> Default for RawBasicBlock<B> {
    /// A freshly started block.
    fn default() -> (r: Self)
        ensures
            r@ == empty_block_view::<B::V>(),
    {
        let r = RawBasicBlock {
            stmts: Vec::new(),
            condjmp: None,
            begin_loc: None,
            endjmp_loc: None,
            next: UcJumpTarget::Halt,
        };
        proof {
            assert(r@.stmts =~= Seq::<StatementView>::empty());
        }
        r
    }
}

/// Whether a block is empty in the sense of the optimizer: no instructions
/// and no conditional branch.  It may still carry a continuation.
pub open spec fn block_is_empty<BV>(b: RawBasicBlockView<BV>) -> bool {
    b.stmts.len() == 0 && b.condjmp is None
}

impl<B: DeepView> RawBasicBlock<B> {
    /// Whether the block holds no instructions and no conditional branch.
    pub fn is_empty(&self) -> (r: bool)
        ensures
            r == block_is_empty(self@),
    {
        self.stmts.is_empty() && self.condjmp.is_none()
    }
}

/// The label embedded in a statement, if the statement is a `DEF` or an
/// instruction whose operand is a label.  Such a reference counts as a CFG
/// edge: the label's address may be taken and jumped to indirectly.
pub open spec fn stmt_label_ref(s: StatementView) -> Option<Seq<char>> {
    match s.cmd {
        CommandView::Def(ArgumentView::Label(l)) => Some(l),
        CommandView::Wa(_, ArgumentView::Label(l)) => Some(l),
        _ => None,
    }
}

/// The label names embedded in a run of statements, in order.
pub open spec fn stmt_links(stmts: Seq<StatementView>) -> Seq<Seq<char>>
    decreases stmts.len(),
{
    if stmts.len() == 0 {
        Seq::empty()
    } else {
        stmt_links(stmts.drop_last()) + (match stmt_label_ref(stmts.last()) {
            Some(l) => seq![l],
            None => Seq::empty(),
        })
    }
}

impl BasicBlock {
    /// All labels embedded in the block's instructions, in order.  Together
    /// with the branch and continuation indices these are the block's
    /// outgoing edges.
    pub fn linked_labels(&self) -> (r: Vec<String>)
        ensures
            r.deep_view() == stmt_links(self@.stmts),
    {
        let mut r: Vec<String> = Vec::new();
        let n = self.stmts.len();
        let mut i: usize = 0;
        proof {
            assert(self@.stmts.take(0) =~= Seq::<StatementView>::empty());
            assert(r.deep_view() =~= Seq::<Seq<char>>::empty());
        }
        while i < n
            invariant
                n == self@.stmts.len(),
                0 <= i <= n,
                r.deep_view() == stmt_links(self@.stmts.take(i as int)),
            decreases n - i,
        {
            let ghost pre = r.deep_view();
            match &self.stmts[i].cmd {
                Command::Def(Argument::Label(l)) => {
                    r.push(l.clone());
                }
                Command::Wa(_, Argument::Label(l)) => {
                    r.push(l.clone());
                }
                _ => {}
            }
            proof {
                let svs = self@.stmts;
                assert(svs.take(i + 1).drop_last() =~= svs.take(i as int));
                assert(svs.take(i + 1).last() == svs[i as int]);
                match stmt_label_ref(svs[i as int]) {
                    Some(l) => {
                        assert(r.deep_view() =~= pre.push(l));
                        assert(pre.push(l) =~= pre + seq![l]);
                    }
                    None => {
                        assert(r.deep_view() =~= pre + Seq::<Seq<char>>::empty());
                    }
                }
            }
            i += 1;
        }
        proof {
            assert(self@.stmts.take(n as int) =~= self@.stmts);
        }
        r
    }
}

/// What the peephole table says of a window of two adjacent instructions:
/// delete neither, only the first, or both.
#[derive(Clone, Copy, Debug, PartialEq, Eq, Structural)]
pub enum PairKill {
    Neither,
    First,
    Both,
}

/// The peephole table.  `Both` marks a cancelling pair (the two
/// instructions leave machine state unchanged), `First` an instruction made
/// redundant by its successor (its result is overwritten unread).
pub open spec fn pair_kill(a: CommandView, b: CommandView) -> PairKill {
    match (a, b) {
        (CommandView::Na(x), CommandView::Na(y)) => match (x, y) {
            (CmdNoArg::Add, CmdNoArg::Sub) => PairKill::Both,
            (CmdNoArg::Sub, CmdNoArg::Add) => PairKill::Both,
            (CmdNoArg::Not, CmdNoArg::Not) => PairKill::Both,
            (CmdNoArg::Mab, CmdNoArg::Mab) => PairKill::First,
            (CmdNoArg::And, CmdNoArg::And) => PairKill::First,
            _ => PairKill::Neither,
        },
        (CommandView::Wa(x, xa), CommandView::Wa(y, ya)) => match (x, y) {
            (CmdWithArg::Lda, CmdWithArg::Lda) => PairKill::First,
            (CmdWithArg::Ldb, CmdWithArg::Ldb) => PairKill::First,
            (CmdWithArg::Rra, CmdWithArg::Rla) => if xa == ya {
                PairKill::Both
            } else {
                PairKill::Neither
            },
            (CmdWithArg::Rla, CmdWithArg::Rra) => if xa == ya {
                PairKill::Both
            } else {
                PairKill::Neither
            },
            _ => PairKill::Neither,
        },
        (CommandView::Na(x), CommandView::Wa(y, _)) => match (x, y) {
            (CmdNoArg::Add, CmdWithArg::Lda) => PairKill::First,
            (CmdNoArg::Sub, CmdWithArg::Lda) => PairKill::First,
            (CmdNoArg::And, CmdWithArg::Lda) => PairKill::First,
            (CmdNoArg::Not, CmdWithArg::Lda) => PairKill::First,
            (CmdNoArg::Mab, CmdWithArg::Ldb) => PairKill::First,
            _ => PairKill::Neither,
        },
        (CommandView::Wa(x, _), CommandView::Na(y)) => match (x, y) {
            (CmdWithArg::Ldb, CmdNoArg::Mab) => PairKill::First,
            _ => PairKill::Neither,
        },
        _ => PairKill::Neither,
    }
}

/// The peephole table, computed.
pub fn pair_kill_exec(a: &Command, b: &Command) -> (r: PairKill)
    ensures
        r == pair_kill(a@, b@),
{
    match (a, b) {
        (Command::Na(x), Command::Na(y)) => match (x, y) {
            (CmdNoArg::Add, CmdNoArg::Sub) => PairKill::Both,
            (CmdNoArg::Sub, CmdNoArg::Add) => PairKill::Both,
            (CmdNoArg::Not, CmdNoArg::Not) => PairKill::Both,
            (CmdNoArg::Mab, CmdNoArg::Mab) => PairKill::First,
            (CmdNoArg::And, CmdNoArg::And) => PairKill::First,
            _ => PairKill::Neither,
        },
        (Command::Wa(x, xa), Command::Wa(y, ya)) => match (x, y) {
            (CmdWithArg::Lda, CmdWithArg::Lda) => PairKill::First,
            (CmdWithArg::Ldb, CmdWithArg::Ldb) => PairKill::First,
            (CmdWithArg::Rra, CmdWithArg::Rla) => if *xa == *ya {
                PairKill::Both
            } else {
                PairKill::Neither
            },
            (CmdWithArg::Rla, CmdWithArg::Rra) => if *xa == *ya {
                PairKill::Both
            } else {
                PairKill::Neither
            },
            _ => PairKill::Neither,
        },
        (Command::Na(x), Command::Wa(y, _)) => match (x, y) {
            (CmdNoArg::Add, CmdWithArg::Lda) => PairKill::First,
            (CmdNoArg::Sub, CmdWithArg::Lda) => PairKill::First,
            (CmdNoArg::And, CmdWithArg::Lda) => PairKill::First,
            (CmdNoArg::Not, CmdWithArg::Lda) => PairKill::First,
            (CmdNoArg::Mab, CmdWithArg::Ldb) => PairKill::First,
            _ => PairKill::Neither,
        },
        (Command::Wa(x, _), Command::Na(y)) => match (x, y) {
            (CmdWithArg::Ldb, CmdNoArg::Mab) => PairKill::First,
            _ => PairKill::Neither,
        },
        _ => PairKill::Neither,
    }
}

/// One pass of peephole cancellation over a run of instructions: a sliding
/// window of two adjacent, unfrozen instructions, rewritten by the table
/// [`pair_kill`].  A frozen instruction is never deleted and acts as a
/// window boundary.  A deletion can expose a new redundant pair, so the
/// pass is designed to be repeated (see the module-level optimizer).
pub open spec fn peephole(s: Seq<StatementView>) -> Seq<StatementView>
    decreases s.len(),
{
    if s.len() < 2 {
        s
    } else if s[1].do_ignore {
        s.take(2) + peephole(s.skip(2))
    } else if s[0].do_ignore {
        s.take(1) + peephole(s.skip(1))
    } else {
        match pair_kill(s[0].cmd, s[1].cmd) {
            PairKill::Both => peephole(s.skip(2)),
            PairKill::First => peephole(s.skip(1)),
            PairKill::Neither => s.take(1) + peephole(s.skip(1)),
        }
    }
}

impl BasicBlock {
    /// One peephole pass over the block's instructions; branch,
    /// continuation and locations are untouched.
    pub fn optimize_once(&mut self)
        ensures
            final(self)@ == (RawBasicBlockView { stmts: peephole(old(self)@.stmts), ..old(self)@ }),
    {
        let ghost full = self@.stmts;
        let n = self.stmts.len();
        let mut out: Vec<Statement> = Vec::new();
        let mut i: usize = 0;
        proof {
            assert(full.skip(0) =~= full);
            assert(out.deep_view() =~= Seq::<StatementView>::empty());
        }
        while i < n
            invariant
                *self == *old(self),
                n == full.len(),
                full == self@.stmts,
                0 <= i <= n,
                peephole(full) == out.deep_view() + peephole(full.skip(i as int)),
            decreases n - i,
        {
            let ghost pre = out.deep_view();
            let ghost t = full.skip(i as int);
            if i + 1 >= n {
                out.push(self.stmts[i].clone());
                proof {
                    assert(t.len() == 1);
                    assert(peephole(t) == t);
                    assert(t =~= seq![full[i as int]]);
                    assert(out.deep_view() =~= pre.push(full[i as int]));
                    assert(pre + t =~= out.deep_view());
                    assert(full.skip(i + 1) =~= Seq::<StatementView>::empty());
                    assert(out.deep_view() + peephole(full.skip(i + 1)) =~= out.deep_view());
                }
                i += 1;
            } else {
                proof {
                    assert(t.len() >= 2);
                    assert(t[0] == full[i as int]);
                    assert(t[1] == full[i + 1]);
                    assert(t.skip(1) =~= full.skip(i + 1));
                    assert(t.skip(2) =~= full.skip(i + 2));
                    assert(t.take(1) =~= seq![full[i as int]]);
                    assert(t.take(2) =~= seq![full[i as int], full[i + 1]]);
                }
                if self.stmts[i + 1].do_ignore {
                    out.push(self.stmts[i].clone());
                    out.push(self.stmts[i + 1].clone());
                    proof {
                        assert(out.deep_view() =~= pre + t.take(2));
                        assert(out.deep_view() + peephole(full.skip(i + 2)) =~= pre + (t.take(2)
                            + peephole(t.skip(2))));
                    }
                    i += 2;
                } else if self.stmts[i].do_ignore {
                    out.push(self.stmts[i].clone());
                    proof {
                        assert(out.deep_view() =~= pre + t.take(1));
                        assert(out.deep_view() + peephole(full.skip(i + 1)) =~= pre + (t.take(1)
                            + peephole(t.skip(1))));
                    }
                    i += 1;
                } else {
                    let k = pair_kill_exec(&self.stmts[i].cmd, &self.stmts[i + 1].cmd);
                    match k {
                        PairKill::Both => {
                            i += 2;
                        }
                        PairKill::First => {
                            i += 1;
                        }
                        PairKill::Neither => {
                            out.push(self.stmts[i].clone());
                            proof {
                                assert(out.deep_view() =~= pre + t.take(1));
                                assert(out.deep_view() + peephole(full.skip(i + 1)) =~= pre + (
                                t.take(1) + peephole(t.skip(1))));
                            }
                            i += 1;
                        }
                    }
                }
            }
        }
        proof {
            assert(full.skip(n as int) =~= Seq::<StatementView>::empty());
            assert(out.deep_view() + peephole(full.skip(n as int)) =~= out.deep_view());
        }
        self.stmts = out;
    }

    /// What tail-call conversion makes of a block: a block that returns
    /// right after a call instead jumps to the called block (or address),
    /// and the call instruction is dropped.  A frozen, absent or non-call
    /// final instruction leaves the block unchanged, as does a call through
    /// a label that the table does not know.
    pub open spec fn tail_call_spec(
        b: BasicBlockView,
        labels: Seq<(Seq<char>, usize)>,
    ) -> BasicBlockView {
        if !(b.next is Return) || b.stmts.len() == 0 {
            b
        } else {
            let last = b.stmts.last();
            if last.do_ignore {
                b
            } else {
                match last.cmd {
                    CommandView::Wa(CmdWithArg::Cal, ArgumentView::Label(l)) => if entries_contain(
                        labels,
                        l,
                    ) {
                        RawBasicBlockView {
                            stmts: b.stmts.drop_last(),
                            next: UcJumpTargetView::BasicBlock(entries_value(labels, l)),
                            ..b
                        }
                    } else {
                        b
                    },
                    CommandView::Wa(CmdWithArg::Cal, ArgumentView::Absolute(a)) => RawBasicBlockView {
                        stmts: b.stmts.drop_last(),
                        next: UcJumpTargetView::Absolute(a),
                        ..b
                    },
                    _ => b,
                }
            }
        }
    }

    /// Tail-call conversion (see [`BasicBlock::tail_call_spec`]).
    pub fn optimize_end(&mut self, labels: &LabelMap)
        requires
            labels.wf(),
        ensures
            final(self)@ == Self::tail_call_spec(old(self)@, labels@),
    {
        match self.next {
            UcJumpTarget::Return => {}
            _ => {
                return ;
            }
        }
        let n = self.stmts.len();
        if n == 0 {
            return ;
        }
        let new_next: Option<UcJumpTarget<usize>> = {
            let last = &self.stmts[n - 1];
            if last.do_ignore {
                None
            } else {
                match &last.cmd {
                    Command::Wa(CmdWithArg::Cal, Argument::Label(l)) => match labels.get(l) {
                        Some(t) => Some(UcJumpTarget::BasicBlock(t)),
                        None => None,
                    },
                    Command::Wa(CmdWithArg::Cal, Argument::Absolute(a)) => Some(
                        UcJumpTarget::Absolute(*a),
                    ),
                    _ => None,
                }
            }
        };
        proof {
            assert(self@.stmts.last() == self@.stmts[n - 1]);
        }
        if let Some(nx) = new_next {
            self.stmts.pop();
            self.next = nx;
            proof {
                assert(self@.stmts =~= old(self)@.stmts.drop_last());
            }
        }
    }
}

/// A cancelling pair of the peephole table: two adjacent instructions that
/// together leave machine state unchanged, so both may be deleted.
pub open spec fn cancelling_pair(a: CommandView, b: CommandView) -> bool {
    pair_kill(a, b) == PairKill::Both
}

/// Peephole soundness on a cancelling pair: a run of exactly that pair,
/// both unfrozen, optimizes to the empty run.
pub proof fn lemma_peephole_cancels(a: StatementView, b: StatementView)
    requires
        cancelling_pair(a.cmd, b.cmd),
        !a.do_ignore,
        !b.do_ignore,
    ensures
        peephole(seq![a, b]) == Seq::<StatementView>::empty(),
{
    let s = seq![a, b];
    assert(s.len() == 2);
    assert(s[0] == a);
    assert(s[1] == b);
    assert(s.skip(2) =~= Seq::<StatementView>::empty());
    assert(peephole(s) == peephole(s.skip(2)));
    assert(peephole(Seq::<StatementView>::empty()) == Seq::<StatementView>::empty());
}

/// A frozen instruction is never eliminated: a run of two instructions,
/// either of them frozen, is returned unchanged.
pub proof fn lemma_peephole_frozen(a: StatementView, b: StatementView)
    requires
        a.do_ignore || b.do_ignore,
    ensures
        peephole(seq![a, b]) == seq![a, b],
{
    let s = seq![a, b];
    assert(s.len() == 2);
    assert(s[0] == a);
    assert(s[1] == b);
    if s[1].do_ignore {
        assert(s.skip(2) =~= Seq::<StatementView>::empty());
        assert(s.take(2) =~= s);
        assert(s.take(2) + peephole(s.skip(2)) =~= s);
    } else {
        assert(s.skip(1) =~= seq![b]);
        assert(peephole(seq![b]) == seq![b]);
        assert(s.take(1) =~= seq![a]);
        assert(s.take(1) + peephole(s.skip(1)) =~= s);
    }
}


/// Tail-call rewrite law: a block that returns right after an unfrozen
/// call through a label known to the table becomes the same block with
/// the call removed and the continuation jumping at the called block.
pub proof fn lemma_tail_call_rewrite(
    b: BasicBlockView,
    labels: Seq<(Seq<char>, usize)>,
    l: Seq<char>,
)
    requires
        b.next is Return,
        b.stmts.len() > 0,
        !b.stmts.last().do_ignore,
        b.stmts.last().cmd == CommandView::Wa(CmdWithArg::Cal, ArgumentView::Label(l)),
        entries_contain(labels, l),
    ensures
        BasicBlock::tail_call_spec(b, labels) == (RawBasicBlockView {
            stmts: b.stmts.drop_last(),
            next: UcJumpTargetView::BasicBlock(entries_value(labels, l)),
            ..b
        }),
{
}

} // verus!
