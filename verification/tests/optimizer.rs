use lc1c::module::Module;
use lc1c::stmt::{Argument, CmdNoArg, CmdWithArg, Command, Statement};
use lc1c::targets::{JumpTarget, UcJumpTarget};

fn st(cmd: Command) -> Statement {
    Statement { cmd, loc: None, do_ignore: false }
}

fn lbl(name: &str) -> Statement {
    st(Command::Label(name.to_string()))
}

fn na(c: CmdNoArg) -> Statement {
    st(Command::Na(c))
}

fn wa(c: CmdWithArg, a: Argument) -> Statement {
    st(Command::Wa(c, a))
}

fn assert_dense(m: &Module) {
    let n = m.bbs().len();
    for b in m.bbs().iter() {
        if let Some((_, JumpTarget::BasicBlock(t))) = &b.condjmp {
            assert!(*t < n);
        }
        if let UcJumpTarget::BasicBlock(t) = &b.next {
            assert!(*t < n);
        }
    }
    for (_, v) in m.labels().entries.iter() {
        assert!(*v < n);
    }
}

#[test]
fn scenario_cancelling_pair_leaves_empty_block() {
    // [Add, Sub] (both unfrozen) optimizes to an empty instruction list in
    // its block; the entry block itself stays.
    let mut m = Module::new(vec![na(CmdNoArg::Add), na(CmdNoArg::Sub)]).unwrap();
    assert_eq!(m.bbs().len(), 1);
    m.optimize();
    assert_eq!(m.bbs().len(), 1);
    assert_eq!(m.bbs()[0].stmts.len(), 0);
    assert_eq!(m.bbs()[0].next, UcJumpTarget::Halt);
    assert_dense(&m);
}

#[test]
fn unused_bbs_reports_unreachable_block() {
    // The Sub block after the unconditional backward jump is unreachable.
    let stmts = vec![
        lbl("L1"),
        na(CmdNoArg::Add),
        wa(CmdWithArg::Jmp, Argument::Label("L1".to_string())),
        na(CmdNoArg::Sub),
        na(CmdNoArg::Hlt),
    ];
    let m = Module::new(stmts).unwrap();
    assert_eq!(m.bbs().len(), 2);
    assert_eq!(m.unused_bbs(), vec![1]);
}

#[test]
fn unused_bbs_follows_embedded_label_edges() {
    // The DEF embeds the label of the Sub block, so that block counts as
    // reachable even though no jump names it.
    let stmts = vec![
        st(Command::Def(Argument::Label("T".to_string()))),
        wa(CmdWithArg::Jmp, Argument::Absolute(9)),
        lbl("T"),
        na(CmdNoArg::Sub),
        na(CmdNoArg::Hlt),
    ];
    let m = Module::new(stmts).unwrap();
    assert_eq!(m.bbs().len(), 2);
    assert_eq!(m.unused_bbs(), Vec::<usize>::new());
}

#[test]
fn unused_bbs_empty_module() {
    let m = Module::new(Vec::new()).unwrap();
    assert_eq!(m.unused_bbs(), Vec::<usize>::new());
}

#[test]
fn optimize_removes_unreachable_block() {
    let stmts = vec![
        lbl("L1"),
        na(CmdNoArg::Add),
        wa(CmdWithArg::Jmp, Argument::Label("L1".to_string())),
        na(CmdNoArg::Sub),
        na(CmdNoArg::Hlt),
    ];
    let mut m = Module::new(stmts).unwrap();
    m.optimize();
    assert_eq!(m.bbs().len(), 1);
    assert_eq!(m.bbs()[0].next, UcJumpTarget::BasicBlock(0));
    assert_eq!(m.labels().get(&"L1".to_string()), Some(0));
    assert_dense(&m);
}

#[test]
fn optimize_splices_empty_block_and_redirects_labels() {
    // Block "B" is pure control glue; edges into it go straight to "C",
    // and the label B is redirected, not dropped.
    let stmts = vec![
        lbl("A"),
        na(CmdNoArg::Add),
        wa(CmdWithArg::Jmp, Argument::Label("B".to_string())),
        lbl("B"),
        wa(CmdWithArg::Jmp, Argument::Label("C".to_string())),
        lbl("C"),
        na(CmdNoArg::Sub),
        na(CmdNoArg::Hlt),
    ];
    let mut m = Module::new(stmts).unwrap();
    assert_eq!(m.bbs().len(), 3);
    m.optimize_once();
    assert_eq!(m.bbs().len(), 2);
    assert_eq!(m.bbs()[0].next, UcJumpTarget::BasicBlock(1));
    assert_eq!(m.bbs()[1].next, UcJumpTarget::Halt);
    assert_eq!(m.labels().get(&"A".to_string()), Some(0));
    assert_eq!(m.labels().get(&"B".to_string()), Some(1));
    assert_eq!(m.labels().get(&"C".to_string()), Some(1));
    assert_dense(&m);
}

#[test]
fn optimize_splice_chain_resolved_transitively() {
    // Two chained glue blocks; the edge from the entry resolves through
    // both of them in one cycle.
    let stmts = vec![
        lbl("A"),
        na(CmdNoArg::Add),
        wa(CmdWithArg::Jmp, Argument::Label("B".to_string())),
        lbl("B"),
        wa(CmdWithArg::Jmp, Argument::Label("C".to_string())),
        lbl("C"),
        wa(CmdWithArg::Jmp, Argument::Label("D".to_string())),
        lbl("D"),
        na(CmdNoArg::Sub),
        na(CmdNoArg::Hlt),
    ];
    let mut m = Module::new(stmts).unwrap();
    assert_eq!(m.bbs().len(), 4);
    m.optimize_once();
    assert_eq!(m.bbs().len(), 2);
    assert_eq!(m.bbs()[0].next, UcJumpTarget::BasicBlock(1));
    assert_eq!(m.bbs()[1].stmts[0].cmd, Command::Na(CmdNoArg::Sub));
    assert_dense(&m);
}

#[test]
fn optimize_keeps_empty_cycle() {
    // A reachable cycle of empty blocks cannot be spliced away; the graph
    // stays dense and the loop is preserved.
    let stmts = vec![
        na(CmdNoArg::Add),
        wa(CmdWithArg::Jmp, Argument::Label("B".to_string())),
        lbl("B"),
        wa(CmdWithArg::Jmp, Argument::Label("C".to_string())),
        lbl("C"),
        wa(CmdWithArg::Jmp, Argument::Label("B".to_string())),
    ];
    let mut m = Module::new(stmts).unwrap();
    assert_eq!(m.bbs().len(), 3);
    m.optimize();
    assert_eq!(m.bbs().len(), 3);
    assert_eq!(m.bbs()[1].next, UcJumpTarget::BasicBlock(2));
    assert_eq!(m.bbs()[2].next, UcJumpTarget::BasicBlock(1));
    assert_dense(&m);
}

#[test]
fn optimize_tail_call_then_fixpoint() {
    // The call in the returning block becomes a direct jump; the loop runs
    // until the block count settles.
    let stmts = vec![
        lbl("MAIN"),
        na(CmdNoArg::Add),
        wa(CmdWithArg::Cal, Argument::Label("F".to_string())),
        na(CmdNoArg::Ret),
        lbl("F"),
        na(CmdNoArg::Sub),
        na(CmdNoArg::Ret),
    ];
    let mut m = Module::new(stmts).unwrap();
    m.optimize();
    // the MAIN block now jumps straight at F's block
    let fidx = m.labels().get(&"F".to_string()).unwrap();
    let main = m.labels().get(&"MAIN".to_string()).unwrap();
    assert_eq!(m.bbs()[main].next, UcJumpTarget::BasicBlock(fidx));
    assert!(m.bbs()[main].stmts.iter().all(
        |s| !matches!(s.cmd, Command::Wa(CmdWithArg::Cal, _))
    ));
    assert_dense(&m);
}

#[test]
fn optimize_block_count_non_increasing() {
    let stmts = vec![
        na(CmdNoArg::Add),
        na(CmdNoArg::Sub),
        wa(CmdWithArg::Jmp, Argument::Label("B".to_string())),
        lbl("B"),
        na(CmdNoArg::Not),
        na(CmdNoArg::Not),
        na(CmdNoArg::Hlt),
        na(CmdNoArg::Sub),
        na(CmdNoArg::Hlt),
    ];
    let mut m = Module::new(stmts).unwrap();
    let mut prev = m.bbs().len();
    for _ in 0..4 {
        m.optimize_once();
        let cur = m.bbs().len();
        assert!(cur <= prev);
        prev = cur;
        assert_dense(&m);
    }
}

#[test]
fn optimize_frozen_statements_survive() {
    let stmts = vec![
        Statement { cmd: Command::Na(CmdNoArg::Add), loc: None, do_ignore: true },
        Statement { cmd: Command::Na(CmdNoArg::Sub), loc: None, do_ignore: true },
    ];
    let mut m = Module::new(stmts).unwrap();
    m.optimize();
    assert_eq!(m.bbs().len(), 1);
    assert_eq!(m.bbs()[0].stmts.len(), 2);
}

#[test]
fn optimize_empty_module() {
    let mut m = Module::new(Vec::new()).unwrap();
    m.optimize();
    assert_eq!(m.bbs().len(), 0);
    assert_eq!(m.labels().len(), 0);
}

#[test]
fn label_only_program_gets_one_block() {
    let mut m = Module::new(vec![lbl("X")]).unwrap();
    assert_eq!(m.bbs().len(), 1);
    assert_eq!(m.bbs()[0].stmts.len(), 0);
    assert_eq!(m.bbs()[0].next, UcJumpTarget::Halt);
    assert_eq!(m.labels().get(&"X".to_string()), Some(0));
    m.optimize();
    assert_eq!(m.bbs().len(), 1);
    assert_dense(&m);
}

#[test]
fn optimize_removes_halting_glue() {
    // The trailing labelled block is empty and halts; no conditional
    // branch enters it, so it is spliced away: the continuation into it
    // becomes Halt and its label is dropped.
    let stmts = vec![na(CmdNoArg::Add), lbl("E")];
    let mut m = Module::new(stmts).unwrap();
    assert_eq!(m.bbs().len(), 2);
    assert_eq!(m.bbs()[1].stmts.len(), 0);
    assert_eq!(m.bbs()[1].next, UcJumpTarget::Halt);
    m.optimize_once();
    assert_eq!(m.bbs().len(), 1);
    assert_eq!(m.bbs()[0].stmts[0].cmd, Command::Na(CmdNoArg::Add));
    assert_eq!(m.bbs()[0].next, UcJumpTarget::Halt);
    assert_eq!(m.labels().len(), 0);
    assert_dense(&m);
}

#[test]
fn optimize_keeps_halting_glue_entered_by_branch() {
    // Two empty halting blocks: the one a conditional branch enters must
    // stay (a branch target names a block); the other is spliced away.
    let stmts = vec![
        wa(CmdWithArg::Jps, Argument::Label("H".to_string())),
        na(CmdNoArg::Hlt),
        lbl("H"),
    ];
    let mut m = Module::new(stmts).unwrap();
    assert_eq!(m.bbs().len(), 3);
    m.optimize_once();
    assert_eq!(m.bbs().len(), 2);
    match &m.bbs()[0].condjmp {
        Some((_, JumpTarget::BasicBlock(1))) => {}
        other => panic!("unexpected condjmp {:?}", other),
    }
    assert_eq!(m.bbs()[0].next, UcJumpTarget::Halt);
    assert_eq!(m.bbs()[1].stmts.len(), 0);
    assert_eq!(m.bbs()[1].next, UcJumpTarget::Halt);
    assert_eq!(m.labels().get(&"H".to_string()), Some(1));
    assert_dense(&m);
}

#[test]
fn optimize_splice_chain_into_halting_glue() {
    // A jump-on glue block whose chain ends at deleted halting glue: the
    // continuation through the whole chain becomes Halt, and the labels
    // of the removed glue are dropped.
    let stmts = vec![
        na(CmdNoArg::Add),
        wa(CmdWithArg::Jmp, Argument::Label("B".to_string())),
        lbl("B"),
        wa(CmdWithArg::Jmp, Argument::Label("C".to_string())),
        lbl("C"),
        na(CmdNoArg::Hlt),
    ];
    let mut m = Module::new(stmts).unwrap();
    // blocks: {[Add], ->B}; B = {[], ->C}; C = {[], Halt}
    assert_eq!(m.bbs().len(), 3);
    m.optimize_once();
    assert_eq!(m.bbs().len(), 1);
    assert_eq!(m.bbs()[0].stmts[0].cmd, Command::Na(CmdNoArg::Add));
    assert_eq!(m.bbs()[0].next, UcJumpTarget::Halt);
    assert_eq!(m.labels().len(), 0);
    assert_dense(&m);
}
