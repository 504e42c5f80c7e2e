use lc1c::labels::LabelMap;
use lc1c::module::Module;
use lc1c::statement::{Argument as SArgument, StatementInvoc, StatementInvocBase};
use lc1c::stmt::{Argument, CmdNoArg, CmdWithArg, Command, CondJumpCond, Statement};
use lc1c::targets::{jumptrg_to_bbid, BbRef, JumpTarget, UcJumpTarget};

fn st(cmd: Command) -> Statement {
    Statement { cmd, loc: None, do_ignore: false }
}

fn lbl(name: &str) -> Statement {
    st(Command::Label(name.to_string()))
}

fn na(c: CmdNoArg) -> Statement {
    st(Command::Na(c))
}

fn wa(c: CmdWithArg, a: Argument) -> Statement {
    st(Command::Wa(c, a))
}

fn cmds(stmts: &[Statement]) -> Vec<Command> {
    stmts.iter().map(|s| s.cmd.clone()).collect()
}

#[test]
fn finish_loop_block() {
    let m = Module::new(vec![
        lbl("L1"),
        na(CmdNoArg::Add),
        wa(CmdWithArg::Jmp, Argument::Label("L1".to_string())),
    ])
    .unwrap();
    let out = m.finish();
    assert_eq!(
        cmds(&out),
        vec![
            Command::Label("L1".to_string()),
            Command::Na(CmdNoArg::Add),
            Command::Wa(CmdWithArg::Jmp, Argument::Label("L1".to_string())),
        ]
    );
}

#[test]
fn finish_synthesizes_label_names() {
    let m = Module::new(vec![na(CmdNoArg::Add), na(CmdNoArg::Hlt)]).unwrap();
    let out = m.finish();
    assert_eq!(
        cmds(&out),
        vec![
            Command::Label("_L0".to_string()),
            Command::Na(CmdNoArg::Add),
            Command::Na(CmdNoArg::Hlt),
        ]
    );
}

#[test]
fn finish_elides_fallthrough() {
    // Block 0 falls through to block 1, so no explicit jump is emitted
    // between them.
    let m = Module::new(vec![
        wa(CmdWithArg::Jps, Argument::Label("X".to_string())),
        lbl("X"),
        na(CmdNoArg::Sub),
        na(CmdNoArg::Hlt),
    ])
    .unwrap();
    let out = m.finish();
    assert_eq!(
        cmds(&out),
        vec![
            Command::Label("_L0".to_string()),
            Command::Wa(CmdWithArg::Jps, Argument::Label("X".to_string())),
            Command::Label("X".to_string()),
            Command::Na(CmdNoArg::Sub),
            Command::Na(CmdNoArg::Hlt),
        ]
    );
}

#[test]
fn finish_emits_all_aliases() {
    let m = Module::new(vec![lbl("X"), lbl("Y"), na(CmdNoArg::Add), na(CmdNoArg::Hlt)]).unwrap();
    let out = m.finish();
    assert_eq!(
        cmds(&out),
        vec![
            Command::Label("X".to_string()),
            Command::Label("Y".to_string()),
            Command::Na(CmdNoArg::Add),
            Command::Na(CmdNoArg::Hlt),
        ]
    );
}

#[test]
fn round_trip_preserves_control_flow() {
    // A label-complete, already-optimal stream: rebuilding the flattened
    // stream reproduces the same block structure and edges; only the
    // synthesized label spelling is new.
    let stmts = vec![
        lbl("A"),
        wa(CmdWithArg::Lda, Argument::Absolute(1)),
        wa(CmdWithArg::Jps, Argument::Label("B".to_string())),
        na(CmdNoArg::Hlt),
        lbl("B"),
        na(CmdNoArg::Add),
        na(CmdNoArg::Ret),
    ];
    let m1 = Module::new(stmts.clone()).unwrap();
    let out = Module::new(stmts).unwrap().finish();
    let m2 = Module::new(out).unwrap();
    assert_eq!(m1.bbs().len(), m2.bbs().len());
    for (b1, b2) in m1.bbs().iter().zip(m2.bbs().iter()) {
        assert_eq!(cmds(&b1.stmts), cmds(&b2.stmts));
        match (&b1.condjmp, &b2.condjmp) {
            (None, None) => {}
            (Some((c1, t1)), Some((c2, t2))) => {
                assert_eq!(c1, c2);
                assert_eq!(t1, t2);
            }
            other => panic!("branch mismatch {:?}", other),
        }
        assert_eq!(b1.next, b2.next);
    }
    // every original label still names the same block
    for (k, v) in m1.labels().entries.iter() {
        assert_eq!(m2.labels().get(k), Some(*v));
    }
}

#[test]
fn jump_target_map_and_new() {
    let t = JumpTarget::<usize>::BasicBlock(3);
    let mapped = t.map(|x| x + 1);
    assert_eq!(mapped, JumpTarget::BasicBlock(4));
    let a = JumpTarget::<usize>::Absolute(-2);
    assert_eq!(a.map(|x| x + 1), JumpTarget::Absolute(-2));

    match JumpTarget::new(Argument::Label("L".to_string())) {
        Ok(JumpTarget::BasicBlock(l)) => assert_eq!(l, "L"),
        other => panic!("unexpected {:?}", other),
    }
    match JumpTarget::new(Argument::Absolute(9)) {
        Ok(JumpTarget::Absolute(9)) => {}
        other => panic!("unexpected {:?}", other),
    }
    match JumpTarget::new(Argument::Invalid) {
        Err(Argument::Invalid) => {}
        other => panic!("unexpected {:?}", other),
    }
}

#[test]
fn jump_target_try_map_propagates_error() {
    let t = JumpTarget::<usize>::BasicBlock(3);
    let r: Result<JumpTarget<usize>, &str> = t.try_map(|_| Err("no"));
    assert!(r.is_err());
    let a = JumpTarget::<usize>::Absolute(1);
    let r: Result<JumpTarget<usize>, &str> = a.try_map(|_| Err("no"));
    assert_eq!(r.unwrap(), JumpTarget::Absolute(1));
}

#[test]
fn uc_jump_target_conversions() {
    assert_eq!(jumptrg_to_bbid(Some(JumpTarget::<usize>::BasicBlock(2))), Some(2));
    assert_eq!(jumptrg_to_bbid(Some(JumpTarget::<usize>::Absolute(2))), None);
    assert_eq!(jumptrg_to_bbid::<usize>(None), None);

    let u: UcJumpTarget<usize> = JumpTarget::BasicBlock(5).into();
    assert_eq!(u, UcJumpTarget::BasicBlock(5));
    assert_eq!(u.try_into_bbid(), Ok(5));
    assert_eq!(UcJumpTarget::<usize>::Return.try_into_bbid(), Err(UcJumpTarget::Return));

    let r: Result<UcJumpTarget<usize>, ()> = UcJumpTarget::<usize>::Halt.try_map(|x| Ok(x));
    assert_eq!(r.unwrap(), UcJumpTarget::Halt);

    let b: BbRef = "L".to_string().into();
    assert_eq!(b, BbRef::Label("L".to_string()));
    let b: BbRef = 4usize.into();
    assert_eq!(b, BbRef::Id(4));
}

#[test]
fn label_map_insert_get() {
    let mut lm = LabelMap::new();
    assert_eq!(lm.len(), 0);
    lm.insert("a".to_string(), 1);
    lm.insert("b".to_string(), 2);
    assert_eq!(lm.len(), 2);
    assert_eq!(lm.get(&"a".to_string()), Some(1));
    assert_eq!(lm.get(&"b".to_string()), Some(2));
    assert_eq!(lm.get(&"c".to_string()), None);
    lm.insert("a".to_string(), 7);
    assert_eq!(lm.len(), 2);
    assert_eq!(lm.get(&"a".to_string()), Some(7));
}

#[test]
fn statement_invoc_queries() {
    let i: StatementInvoc = StatementInvocBase::LDA(SArgument::Absolute(3));
    assert_eq!(i.cmd2str(), "LDA");
    assert!(i.is_cmd_real());
    assert_eq!(i.arg(), Some(&SArgument::Absolute(3)));
    let c = i.get_cmd();
    assert!(c.has_arg);

    let d: StatementInvoc = StatementInvocBase::DEF(7);
    assert_eq!(d.cmd2str(), "DEF");
    assert!(!d.is_cmd_real());
    assert_eq!(d.arg(), None);

    let h: StatementInvoc = StatementInvocBase::HLT;
    assert!(!h.has_arg());

    let s = StatementInvocBase::ADD.into_statement(true);
    assert!(s.optimizable);
    assert_eq!(s.invoc.cmd2str(), "ADD");
}

#[test]
fn statement_argument_get_type() {
    assert_eq!(SArgument::Absolute(1).get_type(), ('@', "absolute"));
    assert_eq!(SArgument::IdConst(1).get_type(), ('$', "ind.const"));
    assert_eq!(SArgument::Label("x".to_string()).get_type(), (':', "label"));
}

#[test]
fn stmt_defaults() {
    let l = lc1c::stmt::Location::default();
    assert_eq!(l.file, "<>");
    assert_eq!(l.line, 0);
    assert_eq!(Argument::default(), Argument::Invalid);
    assert_eq!(CmdWithArg::from(CondJumpCond::Sign), CmdWithArg::Jps);
    assert_eq!(CmdWithArg::from(CondJumpCond::Overflow), CmdWithArg::Jpo);
}

#[test]
fn finish_empty_module() {
    let m = Module::new(Vec::new()).unwrap();
    assert_eq!(m.finish(), Vec::<Statement>::new());
}
