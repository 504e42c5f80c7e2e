//! The flattener: re-linearize the block graph back into a statement
//! stream with explicit labels and jumps, the inverse of the builder.

use vstd::prelude::*;
use vstd::string::StringExecFns;
use crate::block::BasicBlockView;
use crate::labels::LabelMap;
use crate::module::{spec_labels_of_bb, Module};
use crate::stmt::{
    Argument, CmdNoArg, CmdWithArg, Command, CommandView, CondJumpCond, Statement, StatementView,
};
use crate::targets::{JumpTargetView, UcJumpTargetView};

verus! {

/// The decimal digit character for `d` (0 to 9).
pub open spec fn dec_digit(d: int) -> char {
    if d == 0 {
        '0'
    } else if d == 1 {
        '1'
    } else if d == 2 {
        '2'
    } else if d == 3 {
        '3'
    } else if d == 4 {
        '4'
    } else if d == 5 {
        '5'
    } else if d == 6 {
        '6'
    } else if d == 7 {
        '7'
    } else if d == 8 {
        '8'
    } else {
        '9'
    }
}

/// The decimal spelling of `n`.
pub open spec fn dec_str(n: nat) -> Seq<char>
    decreases n,
{
    if n < 10 {
        seq![dec_digit(n as int)]
    } else {
        dec_str(n / 10).push(dec_digit((n % 10) as int))
    }
}

/// The label synthesized for block `bbid` when no declared label names it.
pub open spec fn synth_label(bbid: usize) -> Seq<char> {
    seq!['_', 'L'] + dec_str(bbid as nat)
}

/// The spelling used for block `bbid` in emitted jumps: its first declared
/// alias, else the synthesized label.
pub open spec fn spec_label_for(entries: Seq<(Seq<char>, usize)>, bbid: usize) -> Seq<char> {
    let aliases = spec_labels_of_bb(entries, bbid);
    if aliases.len() > 0 {
        aliases[0]
    } else {
        synth_label(bbid)
    }
}

/// Label-definition statements for a run of alias names.
pub open spec fn label_stmts(ls: Seq<Seq<char>>) -> Seq<StatementView> {
    Seq::new(ls.len(), |q: int| StatementView {
        cmd: CommandView::Label(ls[q]),
        loc: None,
        do_ignore: false,
    })
}

/// The opcode that spells a conditional jump.
pub open spec fn cond_cmd(c: CondJumpCond) -> CmdWithArg {
    match c {
        CondJumpCond::Sign => CmdWithArg::Jps,
        CondJumpCond::Overflow => CmdWithArg::Jpo,
    }
}

/// The statements emitted for block `bbid`: a label definition for each
/// alias (a synthesized one if there is none), the instructions, the
/// conditional branch as an explicit jump, and the continuation as an
/// explicit instruction — elided when it is exactly the fallthrough to the
/// next block in index order.
pub open spec fn emit_block(
    entries: Seq<(Seq<char>, usize)>,
    b: BasicBlockView,
    bbid: usize,
) -> Seq<StatementView> {
    let aliases = spec_labels_of_bb(entries, bbid);
    let head = seq![
        StatementView {
            cmd: CommandView::Label(spec_label_for(entries, bbid)),
            loc: b.begin_loc,
            do_ignore: false,
        },
    ];
    let rest = if aliases.len() > 0 {
        label_stmts(aliases.skip(1))
    } else {
        Seq::empty()
    };
    let cj = match b.condjmp {
        Some((c, JumpTargetView::BasicBlock(t))) => seq![
            StatementView {
                cmd: CommandView::Wa(
                    cond_cmd(c),
                    crate::stmt::ArgumentView::Label(spec_label_for(entries, t)),
                ),
                loc: b.endjmp_loc,
                do_ignore: false,
            },
        ],
        Some((c, JumpTargetView::Absolute(a))) => seq![
            StatementView {
                cmd: CommandView::Wa(cond_cmd(c), crate::stmt::ArgumentView::Absolute(a)),
                loc: b.endjmp_loc,
                do_ignore: false,
            },
        ],
        None => Seq::empty(),
    };
    let nx = match b.next {
        UcJumpTargetView::BasicBlock(t) => if t as int == bbid + 1 {
            Seq::empty()
        } else {
            seq![
                StatementView {
                    cmd: CommandView::Wa(
                        CmdWithArg::Jmp,
                        crate::stmt::ArgumentView::Label(spec_label_for(entries, t)),
                    ),
                    loc: b.endjmp_loc,
                    do_ignore: false,
                },
            ]
        },
        UcJumpTargetView::Absolute(a) => seq![
            StatementView {
                cmd: CommandView::Wa(CmdWithArg::Jmp, crate::stmt::ArgumentView::Absolute(a)),
                loc: b.endjmp_loc,
                do_ignore: false,
            },
        ],
        UcJumpTargetView::Return => seq![
            StatementView {
                cmd: CommandView::Na(CmdNoArg::Ret),
                loc: b.endjmp_loc,
                do_ignore: false,
            },
        ],
        UcJumpTargetView::Halt => seq![
            StatementView {
                cmd: CommandView::Na(CmdNoArg::Hlt),
                loc: b.endjmp_loc,
                do_ignore: false,
            },
        ],
    };
    head + rest + b.stmts + cj + nx
}

/// The statements emitted for the first `k` blocks.
pub open spec fn finish_upto(
    entries: Seq<(Seq<char>, usize)>,
    bbs: Seq<BasicBlockView>,
    k: int,
) -> Seq<StatementView>
    decreases k,
{
    if k <= 0 {
        Seq::empty()
    } else {
        finish_upto(entries, bbs, k - 1) + emit_block(entries, bbs[k - 1], (k - 1) as usize)
    }
}

/// The decimal spelling of `n`, computed.
fn dec_string(n: usize) -> (r: String)
    ensures
        r@ == dec_str(n as nat),
    decreases n,
{
    let d = n % 10;
    let ds: &str = if d == 0 {
        "0"
    } else if d == 1 {
        "1"
    } else if d == 2 {
        "2"
    } else if d == 3 {
        "3"
    } else if d == 4 {
        "4"
    } else if d == 5 {
        "5"
    } else if d == 6 {
        "6"
    } else if d == 7 {
        "7"
    } else if d == 8 {
        "8"
    } else {
        "9"
    };
    proof {
        reveal_strlit("0");
        reveal_strlit("1");
        reveal_strlit("2");
        reveal_strlit("3");
        reveal_strlit("4");
        reveal_strlit("5");
        reveal_strlit("6");
        reveal_strlit("7");
        reveal_strlit("8");
        reveal_strlit("9");
        assert(ds@ =~= seq![dec_digit(d as int)]);
    }
    if n < 10 {
        ds.to_owned()
    } else {
        let mut s = dec_string(n / 10);
        s.append(ds);
        proof {
            assert(s@ =~= dec_str((n / 10) as nat).push(dec_digit((n % 10) as int)));
        }
        s
    }
}

/// The synthesized label for block `bbid`, computed.
fn synth_label_exec(bbid: usize) -> (r: String)
    ensures
        r@ == synth_label(bbid),
{
    let mut s = "_L".to_owned();
    let d = dec_string(bbid);
    s.append(d.as_str());
    proof {
        reveal_strlit("_L");
        assert(s@ =~= synth_label(bbid));
    }
    s
}

/// No entry names `bbid`, so the alias list is empty.
proof fn lemma_labels_of_bb_empty(entries: Seq<(Seq<char>, usize)>, bbid: usize)
    requires
        forall|j: int| 0 <= j < entries.len() ==> (#[trigger] entries[j]).1 != bbid,
    ensures
        spec_labels_of_bb(entries, bbid).len() == 0,
    decreases entries.len(),
{
    if entries.len() > 0 {
        lemma_labels_of_bb_empty(entries.drop_last(), bbid);
    }
}

/// The first entry that names `bbid` heads the alias list.
proof fn lemma_labels_of_bb_first(entries: Seq<(Seq<char>, usize)>, bbid: usize, i: int)
    requires
        0 <= i < entries.len(),
        entries[i].1 == bbid,
        forall|j: int| 0 <= j < i ==> (#[trigger] entries[j]).1 != bbid,
    ensures
        spec_labels_of_bb(entries, bbid).len() > 0,
        spec_labels_of_bb(entries, bbid)[0] == entries[i].0,
    decreases entries.len(),
{
    if i == entries.len() - 1 {
        lemma_labels_of_bb_empty(entries.drop_last(), bbid);
    } else {
        lemma_labels_of_bb_first(entries.drop_last(), bbid, i);
    }
}

/// The label spelling used for block `bbid`: first declared alias, else
/// the synthesized name.
fn label_for(labels: &LabelMap, bbid: usize) -> (r: String)
    ensures
        r@ == spec_label_for(labels@, bbid),
{
    let n = labels.entries.len();
    let mut i: usize = 0;
    while i < n
        invariant
            n == labels@.len(),
            0 <= i <= n,
            forall|j: int| 0 <= j < i ==> (#[trigger] labels@[j]).1 != bbid,
        decreases n - i,
    {
        if labels.entries[i].1 == bbid {
            proof {
                lemma_labels_of_bb_first(labels@, bbid, i as int);
            }
            return labels.entries[i].0.clone();
        }
        i += 1;
    }
    proof {
        lemma_labels_of_bb_empty(labels@, bbid);
    }
    synth_label_exec(bbid)
}

impl Module {
    /// Re-linearize the graph into a statement stream: for each block in
    /// index order, its labels (synthesizing `_L<index>` when none is
    /// declared), its instructions, its conditional branch and its
    /// continuation as explicit statements — the continuation elided where
    /// it is the fallthrough to the next block.  Consumes the module.
    #[verifier::rlimit(60)]
    pub fn finish(self) -> (r: Vec<Statement>)
        ensures
            r.deep_view() == finish_upto(self.labels@, self.bbs.deep_view(), self.bbs@.len() as int),
    {
        let Module { mut bbs, labels } = self;
        let ghost lv = labels@;
        let ghost bbsv = bbs.deep_view();
        let n = bbs.len();
        let mut ret: Vec<Statement> = Vec::new();
        let mut bbid: usize = 0;
        proof {
            assert(ret.deep_view() =~= finish_upto(lv, bbsv, 0));
            assert(bbs.deep_view() =~= bbsv.skip(0));
        }
        while bbs.len() > 0
            invariant
                lv == labels@,
                n == bbsv.len(),
                bbid as int + bbs.deep_view().len() == n,
                bbs.deep_view() == bbsv.skip(bbid as int),
                ret.deep_view() == finish_upto(lv, bbsv, bbid as int),
            decreases bbs.len(),
        {
            let ghost k = bbid as int;
            let ghost pre_shallow = bbs@;
            let ghost pre_dv = bbs.deep_view();
            let mut bb = bbs.remove(0);
            let ghost bbv = bb@;
            proof {
                assert(pre_dv[0] == pre_shallow[0].deep_view());
                assert(bbv == bbsv[k]);
                assert(bbs@ == pre_shallow.remove(0));
                assert forall|t: int| 0 <= t < bbs@.len() implies #[trigger] bbs.deep_view()[t]
                    == bbsv.skip(k + 1)[t] by {
                    assert(bbs@[t] == pre_shallow[t + 1]);
                    assert(bbs.deep_view()[t] == bbs@[t].deep_view());
                    assert(pre_dv[t + 1] == pre_shallow[t + 1].deep_view());
                    assert(bbsv.skip(k + 1)[t] == bbsv[k + 1 + t]);
                    assert(pre_dv[t + 1] == bbsv.skip(k)[t + 1]);
                }
                assert(bbs.deep_view() =~= bbsv.skip(k + 1));
            }
            let ghost seg0 = ret.deep_view();
            // the block's labels: every alias, or one synthesized name
            let aliases = labels_aliases(&labels, bbid);
            let ghost av = spec_labels_of_bb(lv, bbid);
            let first: String = if aliases.len() > 0 {
                aliases[0].clone()
            } else {
                synth_label_exec(bbid)
            };
            proof {
                if aliases@.len() > 0 {
                    assert(aliases.deep_view()[0] == aliases@[0]@);
                    assert(av[0] == aliases@[0]@);
                }
                assert(first@ == spec_label_for(lv, bbid));
            }
            ret.push(Statement { cmd: Command::Label(first), loc: bb.begin_loc, do_ignore: false });
            proof {
                assert(ret.deep_view() =~= seg0.push(
                    StatementView {
                        cmd: CommandView::Label(spec_label_for(lv, bbid)),
                        loc: bbv.begin_loc,
                        do_ignore: false,
                    },
                ));
            }
            let ghost seg1 = ret.deep_view();
            let an = aliases.len();
            let mut q: usize = 1;
            while q < an
                invariant
                    an == av.len(),
                    aliases.deep_view() == av,
                    1 <= q <= an || (an == 0 && q == 1),
                    ret.deep_view() == seg1 + label_stmts(av.skip(1)).take(q - 1),
                decreases an - q,
            {
                let ghost preq = ret.deep_view();
                ret.push(
                    Statement { cmd: Command::Label(aliases[q].clone()), loc: None, do_ignore: false },
                );
                proof {
                    assert(aliases.deep_view()[q as int] == aliases@[q as int]@);
                    assert(ret.deep_view() =~= preq.push(
                        StatementView { cmd: CommandView::Label(av[q as int]), loc: None, do_ignore: false },
                    ));
                    assert(label_stmts(av.skip(1)).take(q as int) =~= label_stmts(av.skip(1)).take(
                        q - 1,
                    ).push(label_stmts(av.skip(1))[q - 1]));
                    assert(label_stmts(av.skip(1))[q - 1] == StatementView {
                        cmd: CommandView::Label(av[q as int]),
                        loc: None,
                        do_ignore: false,
                    });
                }
                q += 1;
            }
            proof {
                if an > 0 {
                    assert(label_stmts(av.skip(1)).take(an - 1) =~= label_stmts(av.skip(1)));
                    assert(ret.deep_view() == seg1 + label_stmts(av.skip(1)));
                } else {
                    assert(label_stmts(av.skip(1)).take(0) =~= Seq::<StatementView>::empty());
                    assert(ret.deep_view() =~= seg1);
                }
            }
            let ghost seg2 = ret.deep_view();
            // the instructions
            let ghost bb_stmts_v = bbv.stmts;
            let mut bb_stmts = bb.stmts;
            ret.append(&mut bb_stmts);
            proof {
                assert(ret.deep_view() =~= seg2 + bb_stmts_v);
            }
            let ghost seg3 = ret.deep_view();
            // the conditional branch, as an explicit jump
            match &bb.condjmp {
                Some((c, crate::targets::JumpTarget::BasicBlock(t))) => {
                    let cc = match c {
                        CondJumpCond::Sign => CmdWithArg::Jps,
                        CondJumpCond::Overflow => CmdWithArg::Jpo,
                    };
                    let tl = label_for(&labels, *t);
                    ret.push(
                        Statement {
                            cmd: Command::Wa(cc, Argument::Label(tl)),
                            loc: match &bb.endjmp_loc {
                                Some(l) => Some(l.clone()),
                                None => None,
                            },
                            do_ignore: false,
                        },
                    );
                }
                Some((c, crate::targets::JumpTarget::Absolute(a))) => {
                    let cc = match c {
                        CondJumpCond::Sign => CmdWithArg::Jps,
                        CondJumpCond::Overflow => CmdWithArg::Jpo,
                    };
                    ret.push(
                        Statement {
                            cmd: Command::Wa(cc, Argument::Absolute(*a)),
                            loc: match &bb.endjmp_loc {
                                Some(l) => Some(l.clone()),
                                None => None,
                            },
                            do_ignore: false,
                        },
                    );
                }
                None => {}
            }
            proof {
                let cjv = match bbv.condjmp {
                    Some((c, JumpTargetView::BasicBlock(t))) => seq![
                        StatementView {
                            cmd: CommandView::Wa(
                                cond_cmd(c),
                                crate::stmt::ArgumentView::Label(spec_label_for(lv, t)),
                            ),
                            loc: bbv.endjmp_loc,
                            do_ignore: false,
                        },
                    ],
                    Some((c, JumpTargetView::Absolute(a))) => seq![
                        StatementView {
                            cmd: CommandView::Wa(cond_cmd(c), crate::stmt::ArgumentView::Absolute(a)),
                            loc: bbv.endjmp_loc,
                            do_ignore: false,
                        },
                    ],
                    None => Seq::empty(),
                };
                assert(ret.deep_view() =~= seg3 + cjv);
            }
            let ghost seg4 = ret.deep_view();
            // the continuation, unless it is the fallthrough
            match &bb.next {
                crate::targets::UcJumpTarget::BasicBlock(t) => {
                    if *t != bbid + 1 {
                        let tl = label_for(&labels, *t);
                        ret.push(
                            Statement {
                                cmd: Command::Wa(CmdWithArg::Jmp, Argument::Label(tl)),
                                loc: match &bb.endjmp_loc {
                                    Some(l) => Some(l.clone()),
                                    None => None,
                                },
                                do_ignore: false,
                            },
                        );
                    }
                }
                crate::targets::UcJumpTarget::Absolute(a) => {
                    ret.push(
                        Statement {
                            cmd: Command::Wa(CmdWithArg::Jmp, Argument::Absolute(*a)),
                            loc: match &bb.endjmp_loc {
                                Some(l) => Some(l.clone()),
                                None => None,
                            },
                            do_ignore: false,
                        },
                    );
                }
                crate::targets::UcJumpTarget::Return => {
                    ret.push(
                        Statement {
                            cmd: Command::Na(CmdNoArg::Ret),
                            loc: match &bb.endjmp_loc {
                                Some(l) => Some(l.clone()),
                                None => None,
                            },
                            do_ignore: false,
                        },
                    );
                }
                crate::targets::UcJumpTarget::Halt => {
                    ret.push(
                        Statement {
                            cmd: Command::Na(CmdNoArg::Hlt),
                            loc: match &bb.endjmp_loc {
                                Some(l) => Some(l.clone()),
                                None => None,
                            },
                            do_ignore: false,
                        },
                    );
                }
            }
            proof {
                let nxv = match bbv.next {
                    UcJumpTargetView::BasicBlock(t) => if t as int == k + 1 {
                        Seq::<StatementView>::empty()
                    } else {
                        seq![
                            StatementView {
                                cmd: CommandView::Wa(
                                    CmdWithArg::Jmp,
                                    crate::stmt::ArgumentView::Label(spec_label_for(lv, t)),
                                ),
                                loc: bbv.endjmp_loc,
                                do_ignore: false,
                            },
                        ]
                    },
                    UcJumpTargetView::Absolute(a) => seq![
                        StatementView {
                            cmd: CommandView::Wa(CmdWithArg::Jmp, crate::stmt::ArgumentView::Absolute(a)),
                            loc: bbv.endjmp_loc,
                            do_ignore: false,
                        },
                    ],
                    UcJumpTargetView::Return => seq![
                        StatementView {
                            cmd: CommandView::Na(CmdNoArg::Ret),
                            loc: bbv.endjmp_loc,
                            do_ignore: false,
                        },
                    ],
                    UcJumpTargetView::Halt => seq![
                        StatementView {
                            cmd: CommandView::Na(CmdNoArg::Hlt),
                            loc: bbv.endjmp_loc,
                            do_ignore: false,
                        },
                    ],
                };
                assert(ret.deep_view() =~= seg4 + nxv);
                assert(ret.deep_view() =~= seg0 + emit_block(lv, bbsv[k], bbid));
                assert(ret.deep_view() =~= finish_upto(lv, bbsv, k + 1));
            }
            bbid += 1;
        }
        proof {
            assert(ret.deep_view() == finish_upto(lv, bbsv, n as int));
        }
        ret
    }
}

/// All aliases of block `bbid`, in table order.
fn labels_aliases(labels: &LabelMap, bbid: usize) -> (r: Vec<String>)
    ensures
        r.deep_view() == spec_labels_of_bb(labels@, bbid),
{
    let n = labels.entries.len();
    let mut r: Vec<String> = Vec::new();
    let mut i: usize = 0;
    proof {
        assert(labels@.take(0) =~= Seq::<(Seq<char>, usize)>::empty());
        assert(r.deep_view() =~= Seq::<Seq<char>>::empty());
    }
    while i < n
        invariant
            n == labels@.len(),
            0 <= i <= n,
            r.deep_view() == spec_labels_of_bb(labels@.take(i as int), bbid),
        decreases n - i,
    {
        let ghost pre = r.deep_view();
        if labels.entries[i].1 == bbid {
            r.push(labels.entries[i].0.clone());
        }
        proof {
            let es = labels@;
            assert(es.take(i + 1).drop_last() =~= es.take(i as int));
            assert(es.take(i + 1).last() == es[i as int]);
            if es[i as int].1 == bbid {
                assert(r.deep_view() =~= pre + seq![es[i as int].0]);
            } else {
                assert(r.deep_view() =~= pre + Seq::<Seq<char>>::empty());
            }
        }
        i += 1;
    }
    proof {
        assert(labels@.take(n as int) =~= labels@);
    }
    r
}

} // verus!
