use lc1c::resolve::{resolve_idconsts, resolve_labels, ResolveLabelError};
use lc1c::stmt::{Argument, CmdNoArg, CmdWithArg, Command, Statement};

fn st(cmd: Command) -> Statement {
    Statement { cmd, loc: None, do_ignore: false }
}

fn cmds(stmts: &[Statement]) -> Vec<Command> {
    stmts.iter().map(|s| s.cmd.clone()).collect()
}

#[test]
fn resolve_labels_rewrites_to_addresses() {
    let mut stmts = vec![
        st(Command::Label("A".to_string())),
        st(Command::Wa(CmdWithArg::Lda, Argument::Absolute(1))),
        st(Command::Wa(CmdWithArg::Jmp, Argument::Label("A".to_string()))),
        st(Command::Label("B".to_string())),
        st(Command::Na(CmdNoArg::Hlt)),
    ];
    let lm = resolve_labels(&mut stmts).unwrap();
    assert_eq!(
        cmds(&stmts),
        vec![
            Command::Wa(CmdWithArg::Lda, Argument::Absolute(1)),
            Command::Wa(CmdWithArg::Jmp, Argument::Absolute(0)),
            Command::Na(CmdNoArg::Hlt),
        ]
    );
    assert_eq!(lm.get(&"A".to_string()), Some(0));
    assert_eq!(lm.get(&"B".to_string()), Some(2));
}

#[test]
fn resolve_labels_unknown_label_fails_partially_rewritten() {
    // no rollback: labels are stripped and references before the failing
    // statement are already resolved; the failing statement and the rest
    // stay as they were
    let mut stmts = vec![
        st(Command::Label("A".to_string())),
        st(Command::Wa(CmdWithArg::Jmp, Argument::Label("A".to_string()))),
        st(Command::Wa(CmdWithArg::Jps, Argument::Label("X".to_string()))),
        st(Command::Na(CmdNoArg::Sub)),
    ];
    match resolve_labels(&mut stmts) {
        Err(ResolveLabelError(CmdWithArg::Jps, l)) => assert_eq!(l, "X"),
        other => panic!("unexpected {:?}", other),
    }
    assert_eq!(
        cmds(&stmts),
        vec![
            Command::Wa(CmdWithArg::Jmp, Argument::Absolute(0)),
            Command::Wa(CmdWithArg::Jps, Argument::Label("X".to_string())),
            Command::Na(CmdNoArg::Sub),
        ]
    );
}

#[test]
fn resolve_labels_leaves_def_operands() {
    // only instruction operands are resolved here; a DEF keeps its label
    let mut stmts = vec![
        st(Command::Def(Argument::Label("A".to_string()))),
        st(Command::Label("A".to_string())),
        st(Command::Na(CmdNoArg::Hlt)),
    ];
    resolve_labels(&mut stmts).unwrap();
    assert_eq!(
        cmds(&stmts),
        vec![
            Command::Def(Argument::Label("A".to_string())),
            Command::Na(CmdNoArg::Hlt),
        ]
    );
}

#[test]
fn resolve_idconsts_pools_constants() {
    let mut stmts = vec![
        st(Command::Wa(CmdWithArg::Lda, Argument::IdConst(7))),
        st(Command::Def(Argument::IdConst(7))),
        st(Command::Wa(CmdWithArg::Ldb, Argument::IdConst(3))),
        st(Command::Na(CmdNoArg::Hlt)),
    ];
    resolve_idconsts(&mut stmts);
    assert_eq!(
        cmds(&stmts),
        vec![
            Command::Wa(CmdWithArg::Lda, Argument::Absolute(4)),
            Command::Def(Argument::Absolute(4)),
            Command::Wa(CmdWithArg::Ldb, Argument::Absolute(5)),
            Command::Na(CmdNoArg::Hlt),
            Command::Def(Argument::Absolute(7)),
            Command::Def(Argument::Absolute(3)),
        ]
    );
}

#[test]
fn resolve_idconsts_without_constants_is_noop() {
    let orig = vec![
        st(Command::Na(CmdNoArg::Add)),
        st(Command::Wa(CmdWithArg::Lda, Argument::Absolute(2))),
        st(Command::Na(CmdNoArg::Hlt)),
    ];
    let mut stmts = orig.clone();
    resolve_idconsts(&mut stmts);
    assert_eq!(cmds(&stmts), cmds(&orig));
}

#[test]
fn resolve_idconsts_shares_one_slot_per_constant() {
    let mut stmts = vec![
        st(Command::Wa(CmdWithArg::Lda, Argument::IdConst(9))),
        st(Command::Wa(CmdWithArg::Ldb, Argument::IdConst(9))),
    ];
    resolve_idconsts(&mut stmts);
    assert_eq!(
        cmds(&stmts),
        vec![
            Command::Wa(CmdWithArg::Lda, Argument::Absolute(2)),
            Command::Wa(CmdWithArg::Ldb, Argument::Absolute(2)),
            Command::Def(Argument::Absolute(9)),
        ]
    );
}
