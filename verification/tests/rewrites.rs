use lc1c::block::{BasicBlock, RawBasicBlock};
use lc1c::labels::LabelMap;
use lc1c::stmt::{Argument, CmdNoArg, CmdWithArg, Command, Statement};
use lc1c::targets::UcJumpTarget;

fn plain(cmd: Command) -> Statement {
    Statement { cmd, loc: None, do_ignore: false }
}

fn frozen(cmd: Command) -> Statement {
    Statement { cmd, loc: None, do_ignore: true }
}

fn block_of(stmts: Vec<Statement>, next: UcJumpTarget<usize>) -> BasicBlock {
    RawBasicBlock { stmts, condjmp: None, begin_loc: None, endjmp_loc: None, next }
}

fn peephole_pair(a: Command, b: Command) -> Vec<Command> {
    let mut bb = block_of(vec![plain(a), plain(b)], UcJumpTarget::Halt);
    bb.optimize_once();
    bb.stmts.into_iter().map(|s| s.cmd).collect()
}

#[test]
fn peephole_add_sub_cancels() {
    assert_eq!(peephole_pair(Command::Na(CmdNoArg::Add), Command::Na(CmdNoArg::Sub)), vec![]);
}

#[test]
fn peephole_sub_add_cancels() {
    assert_eq!(peephole_pair(Command::Na(CmdNoArg::Sub), Command::Na(CmdNoArg::Add)), vec![]);
}

#[test]
fn peephole_not_not_cancels() {
    assert_eq!(peephole_pair(Command::Na(CmdNoArg::Not), Command::Na(CmdNoArg::Not)), vec![]);
}

#[test]
fn peephole_rotate_pair_cancels() {
    assert_eq!(
        peephole_pair(
            Command::Wa(CmdWithArg::Rra, Argument::Absolute(3)),
            Command::Wa(CmdWithArg::Rla, Argument::Absolute(3)),
        ),
        vec![]
    );
}

#[test]
fn peephole_rotate_pair_different_amounts_kept() {
    let a = Command::Wa(CmdWithArg::Rra, Argument::Absolute(3));
    let b = Command::Wa(CmdWithArg::Rla, Argument::Absolute(4));
    assert_eq!(peephole_pair(a.clone(), b.clone()), vec![a, b]);
}

#[test]
fn peephole_idempotent_load_collapses() {
    let a = Command::Wa(CmdWithArg::Lda, Argument::Absolute(1));
    let b = Command::Wa(CmdWithArg::Lda, Argument::Absolute(2));
    assert_eq!(peephole_pair(a, b.clone()), vec![b]);
}

#[test]
fn peephole_arith_before_load_dropped() {
    let b = Command::Wa(CmdWithArg::Lda, Argument::Absolute(7));
    assert_eq!(peephole_pair(Command::Na(CmdNoArg::Add), b.clone()), vec![b]);
}

#[test]
fn peephole_ldb_before_mab_dropped() {
    let a = Command::Wa(CmdWithArg::Ldb, Argument::Absolute(7));
    assert_eq!(peephole_pair(a, Command::Na(CmdNoArg::Mab)), vec![Command::Na(CmdNoArg::Mab)]);
}

#[test]
fn peephole_frozen_pair_unchanged() {
    let mut bb = block_of(
        vec![frozen(Command::Na(CmdNoArg::Add)), plain(Command::Na(CmdNoArg::Sub))],
        UcJumpTarget::Halt,
    );
    bb.optimize_once();
    assert_eq!(bb.stmts.len(), 2);
    assert!(bb.stmts[0].do_ignore);
    assert_eq!(bb.stmts[1].cmd, Command::Na(CmdNoArg::Sub));

    let mut bb = block_of(
        vec![plain(Command::Na(CmdNoArg::Add)), frozen(Command::Na(CmdNoArg::Sub))],
        UcJumpTarget::Halt,
    );
    bb.optimize_once();
    assert_eq!(bb.stmts.len(), 2);
}

#[test]
fn peephole_deletion_exposes_new_pair_next_pass() {
    // [Add, Not, Not, Sub]: one pass removes the Not pair, the next the
    // Add/Sub pair that it exposed.
    let mut bb = block_of(
        vec![
            plain(Command::Na(CmdNoArg::Add)),
            plain(Command::Na(CmdNoArg::Not)),
            plain(Command::Na(CmdNoArg::Not)),
            plain(Command::Na(CmdNoArg::Sub)),
        ],
        UcJumpTarget::Halt,
    );
    bb.optimize_once();
    assert_eq!(bb.stmts.len(), 2);
    bb.optimize_once();
    assert_eq!(bb.stmts.len(), 0);
}

#[test]
fn tail_call_label_rewritten() {
    let mut labels = LabelMap::new();
    labels.insert("F".to_string(), 0);
    let mut bb = block_of(
        vec![
            plain(Command::Na(CmdNoArg::Add)),
            plain(Command::Wa(CmdWithArg::Cal, Argument::Label("F".to_string()))),
        ],
        UcJumpTarget::Return,
    );
    bb.optimize_end(&labels);
    assert_eq!(bb.stmts.len(), 1);
    assert_eq!(bb.stmts[0].cmd, Command::Na(CmdNoArg::Add));
    assert_eq!(bb.next, UcJumpTarget::BasicBlock(0));
}

#[test]
fn tail_call_absolute_rewritten() {
    let labels = LabelMap::new();
    let mut bb = block_of(
        vec![plain(Command::Wa(CmdWithArg::Cal, Argument::Absolute(7)))],
        UcJumpTarget::Return,
    );
    bb.optimize_end(&labels);
    assert_eq!(bb.stmts.len(), 0);
    assert_eq!(bb.next, UcJumpTarget::Absolute(7));
}

#[test]
fn tail_call_unknown_label_kept() {
    let labels = LabelMap::new();
    let mut bb = block_of(
        vec![plain(Command::Wa(CmdWithArg::Cal, Argument::Label("G".to_string())))],
        UcJumpTarget::Return,
    );
    bb.optimize_end(&labels);
    assert_eq!(bb.stmts.len(), 1);
    assert_eq!(bb.next, UcJumpTarget::Return);
}

#[test]
fn tail_call_frozen_kept() {
    let mut labels = LabelMap::new();
    labels.insert("F".to_string(), 0);
    let mut bb = block_of(
        vec![frozen(Command::Wa(CmdWithArg::Cal, Argument::Label("F".to_string())))],
        UcJumpTarget::Return,
    );
    bb.optimize_end(&labels);
    assert_eq!(bb.stmts.len(), 1);
    assert_eq!(bb.next, UcJumpTarget::Return);
}

#[test]
fn tail_call_needs_return_continuation() {
    let mut labels = LabelMap::new();
    labels.insert("F".to_string(), 0);
    let mut bb = block_of(
        vec![plain(Command::Wa(CmdWithArg::Cal, Argument::Label("F".to_string())))],
        UcJumpTarget::Halt,
    );
    bb.optimize_end(&labels);
    assert_eq!(bb.stmts.len(), 1);
    assert_eq!(bb.next, UcJumpTarget::Halt);
}
