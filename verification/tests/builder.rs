use lc1c::module::{Module, ModuleParseError};
use lc1c::stmt::{Argument, CmdNoArg, CmdWithArg, Command, CondJumpCond, Statement};
use lc1c::targets::{JumpTarget, UcJumpTarget};

fn st(cmd: Command) -> Statement {
    Statement { cmd, loc: None, do_ignore: false }
}

fn lbl(name: &str) -> Statement {
    st(Command::Label(name.to_string()))
}

fn na(c: CmdNoArg) -> Statement {
    st(Command::Na(c))
}

fn wa(c: CmdWithArg, a: Argument) -> Statement {
    st(Command::Wa(c, a))
}

fn assert_dense(m: &Module) {
    let n = m.bbs().len();
    for b in m.bbs().iter() {
        if let Some((_, JumpTarget::BasicBlock(t))) = &b.condjmp {
            assert!(*t < n);
        }
        if let UcJumpTarget::BasicBlock(t) = &b.next {
            assert!(*t < n);
        }
    }
    for (_, v) in m.labels().entries.iter() {
        assert!(*v < n);
    }
}

#[test]
fn scenario_single_loop_block() {
    // "L1:", Add, Jump("L1") -> one block, instructions [Add], no branch,
    // continuation BasicBlock(0), label map {"L1": 0}
    let stmts = vec![
        lbl("L1"),
        na(CmdNoArg::Add),
        wa(CmdWithArg::Jmp, Argument::Label("L1".to_string())),
    ];
    let m = Module::new(stmts).unwrap();
    assert_eq!(m.bbs().len(), 1);
    let b = &m.bbs()[0];
    assert_eq!(b.stmts.len(), 1);
    assert_eq!(b.stmts[0].cmd, Command::Na(CmdNoArg::Add));
    assert!(b.condjmp.is_none());
    assert_eq!(b.next, UcJumpTarget::BasicBlock(0));
    assert_eq!(m.labels().len(), 1);
    assert_eq!(m.labels().get(&"L1".to_string()), Some(0));
    assert_dense(&m);
}

#[test]
fn scenario_condjump_two_blocks() {
    // A conditional jump ends block 0 with a synthesized fallthrough; the
    // labelled block that follows holds the Add and ends at the Halt.
    let stmts = vec![
        wa(CmdWithArg::Jps, Argument::Label("L2".to_string())),
        lbl("L2"),
        na(CmdNoArg::Add),
        na(CmdNoArg::Hlt),
    ];
    let m = Module::new(stmts).unwrap();
    assert_eq!(m.bbs().len(), 2);
    let b0 = &m.bbs()[0];
    assert_eq!(b0.stmts.len(), 0);
    match &b0.condjmp {
        Some((CondJumpCond::Sign, JumpTarget::BasicBlock(1))) => {}
        other => panic!("unexpected condjmp {:?}", other),
    }
    assert_eq!(b0.next, UcJumpTarget::BasicBlock(1));
    let b1 = &m.bbs()[1];
    assert_eq!(b1.stmts.len(), 1);
    assert_eq!(b1.stmts[0].cmd, Command::Na(CmdNoArg::Add));
    assert!(b1.condjmp.is_none());
    assert_eq!(b1.next, UcJumpTarget::Halt);
    assert_eq!(m.labels().get(&"L2".to_string()), Some(1));
    assert_dense(&m);
    // block 1 holds an instruction, so optimization never splices it away;
    // block 0 carries a conditional branch, so it is not splice glue either
    let mut m = m;
    m.optimize();
    assert_eq!(m.bbs().len(), 2);
    assert_eq!(m.bbs()[1].stmts.len(), 1);
    assert_dense(&m);
}

#[test]
fn label_after_instructions_starts_new_block() {
    // With the label between Add and Halt, the Add block is flushed with a
    // fallthrough and the label names the block that holds only the Halt.
    let stmts = vec![
        wa(CmdWithArg::Jps, Argument::Label("L2".to_string())),
        na(CmdNoArg::Add),
        lbl("L2"),
        na(CmdNoArg::Hlt),
    ];
    let m = Module::new(stmts).unwrap();
    assert_eq!(m.bbs().len(), 3);
    assert_eq!(m.labels().get(&"L2".to_string()), Some(2));
    match &m.bbs()[0].condjmp {
        Some((CondJumpCond::Sign, JumpTarget::BasicBlock(2))) => {}
        other => panic!("unexpected condjmp {:?}", other),
    }
    assert_eq!(m.bbs()[0].next, UcJumpTarget::BasicBlock(1));
    assert_eq!(m.bbs()[1].stmts.len(), 1);
    assert_eq!(m.bbs()[1].next, UcJumpTarget::BasicBlock(2));
    assert_eq!(m.bbs()[2].stmts.len(), 0);
    assert_eq!(m.bbs()[2].next, UcJumpTarget::Halt);
    assert_dense(&m);
}

#[test]
fn build_empty_stream() {
    let m = Module::new(Vec::new()).unwrap();
    assert_eq!(m.bbs().len(), 0);
    assert_eq!(m.labels().len(), 0);
}

#[test]
fn build_trailing_label_gets_empty_block() {
    // A label pointing exactly at the end of the program forces a final
    // empty block so that the label stays valid.
    let stmts = vec![na(CmdNoArg::Add), na(CmdNoArg::Hlt), lbl("END")];
    let m = Module::new(stmts).unwrap();
    assert_eq!(m.bbs().len(), 2);
    assert_eq!(m.labels().get(&"END".to_string()), Some(1));
    assert_eq!(m.bbs()[1].stmts.len(), 0);
    assert_eq!(m.bbs()[1].next, UcJumpTarget::Halt);
    assert_dense(&m);
}

#[test]
fn build_dangling_fallthrough_clamped_to_halt() {
    // A final block flushed by a conditional jump falls through past the
    // end of the program; the dangling edge is clamped to Halt.
    let stmts = vec![
        lbl("A"),
        na(CmdNoArg::Add),
        wa(CmdWithArg::Jps, Argument::Label("A".to_string())),
    ];
    let m = Module::new(stmts).unwrap();
    assert_eq!(m.bbs().len(), 1);
    assert_eq!(m.bbs()[0].next, UcJumpTarget::Halt);
    match &m.bbs()[0].condjmp {
        Some((CondJumpCond::Sign, JumpTarget::BasicBlock(0))) => {}
        other => panic!("unexpected condjmp {:?}", other),
    }
    assert_dense(&m);
}

#[test]
fn build_absolute_jump_target() {
    let stmts = vec![na(CmdNoArg::Add), wa(CmdWithArg::Jmp, Argument::Absolute(42))];
    let m = Module::new(stmts).unwrap();
    assert_eq!(m.bbs().len(), 1);
    assert_eq!(m.bbs()[0].next, UcJumpTarget::Absolute(42));
}

#[test]
fn build_error_invalid_jump_operand() {
    // An indirect constant is no valid jump target; the offending operand
    // comes back in the error.
    let stmts = vec![na(CmdNoArg::Add), wa(CmdWithArg::Jmp, Argument::IdConst(5))];
    match Module::new(stmts) {
        Err(ModuleParseError(Argument::IdConst(5))) => {}
        other => panic!("unexpected result {:?}", other),
    }
}

#[test]
fn build_error_unresolved_label() {
    let stmts = vec![na(CmdNoArg::Add), wa(CmdWithArg::Jmp, Argument::Label("NOPE".to_string()))];
    match Module::new(stmts) {
        Err(ModuleParseError(Argument::Label(l))) => assert_eq!(l, "NOPE"),
        other => panic!("unexpected result {:?}", other),
    }
}

#[test]
fn build_forward_reference_resolves() {
    let stmts = vec![
        wa(CmdWithArg::Jmp, Argument::Label("FWD".to_string())),
        na(CmdNoArg::Sub),
        na(CmdNoArg::Hlt),
        lbl("FWD"),
        na(CmdNoArg::Add),
        na(CmdNoArg::Ret),
    ];
    let m = Module::new(stmts).unwrap();
    assert_eq!(m.bbs().len(), 3);
    assert_eq!(m.labels().get(&"FWD".to_string()), Some(2));
    assert_eq!(m.bbs()[0].next, UcJumpTarget::BasicBlock(2));
    assert_eq!(m.bbs()[2].next, UcJumpTarget::Return);
    assert_dense(&m);
}

#[test]
fn build_label_aliases_share_block() {
    let stmts = vec![lbl("X"), lbl("Y"), na(CmdNoArg::Add), na(CmdNoArg::Hlt)];
    let m = Module::new(stmts).unwrap();
    assert_eq!(m.labels().get(&"X".to_string()), Some(0));
    assert_eq!(m.labels().get(&"Y".to_string()), Some(0));
    let aliases = m.labels_of_bb(0);
    assert_eq!(aliases, vec!["X".to_string(), "Y".to_string()]);
}

#[test]
fn build_label_redefinition_overwrites() {
    let stmts = vec![
        lbl("L"),
        na(CmdNoArg::Add),
        na(CmdNoArg::Hlt),
        lbl("L"),
        na(CmdNoArg::Sub),
        na(CmdNoArg::Hlt),
    ];
    let m = Module::new(stmts).unwrap();
    assert_eq!(m.labels().len(), 1);
    assert_eq!(m.labels().get(&"L".to_string()), Some(1));
}
