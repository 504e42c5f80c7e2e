//! The statement model: commands, arguments and source locations, as produced
//! by an external parser and consumed by the graph builder.

use vstd::prelude::*;

verus! {

use vstd::std_specs::convert::FromSpec;

/// Opcodes that take no operand.
#[derive(Clone, Copy, Debug, PartialEq, Eq, Structural)]
pub enum CmdNoArg {
    Mab,
    Add,
    Sub,
    And,
    Not,
    Ret,
    Hlt,
}

/// Opcodes that take one operand.
#[derive(Clone, Copy, Debug, PartialEq, Eq, Structural)]
pub enum CmdWithArg {
    Lda,
    Ldb,
    Mov,
    Jmp,
    Jps,
    Jpo,
    Cal,
    Rra,
    Rla,
}

/// The condition of a conditional jump.
#[derive(Clone, Copy, Debug, PartialEq, Eq, Structural)]
pub enum CondJumpCond {
    Sign,
    Overflow,
}

impl From<CondJumpCond> for CmdWithArg {
    /// The opcode that encodes a conditional jump with the given condition.
    fn from(x: CondJumpCond) -> (r: CmdWithArg)
        ensures
            r == (match x {
                CondJumpCond::Sign => CmdWithArg::Jps,
                CondJumpCond::Overflow => CmdWithArg::Jpo,
            }),
    {
        match x {
            CondJumpCond::Sign => CmdWithArg::Jps,
            CondJumpCond::Overflow => CmdWithArg::Jpo,
        }
    }
}

impl vstd::std_specs::convert::FromSpecImpl<CondJumpCond> for CmdWithArg {
    open spec fn obeys_from_spec() -> bool {
        true
    }

    open spec fn from_spec(x: CondJumpCond) -> CmdWithArg {
        match x {
            CondJumpCond::Sign => CmdWithArg::Jps,
            CondJumpCond::Overflow => CmdWithArg::Jpo,
        }
    }
}

/// Source position of a statement: file name and 0-based line number.
#[derive(Debug)]
pub struct Location {
    pub file: String,
    pub line: u32,
}

/// Mathematical model of a [`Location`].
pub ghost struct LocationView {
    pub file: Seq<char>,
    pub line: u32,
}

impl View for Location {
    type V = LocationView;

    open spec fn view(&self) -> LocationView {
        LocationView { file: self.file@, line: self.line }
    }
}

impl DeepView for Location {
    type V = LocationView;

    open spec fn deep_view(&self) -> LocationView {
        self.view()
    }
}

impl Clone for Location {
    fn clone(&self) -> (r: Self)
        ensures
            r == *self,
    {
        Location { file: self.file.clone(), line: self.line }
    }
}

impl Default for Location {
    /// An unknown position: placeholder file name, line 0.
    fn default() -> (r: Self)
        ensures
            r@.file == "<>"@,
            r@.line == 0,
    {
        Location { file: "<>".to_owned(), line: 0 }
    }
}

impl PartialEq for Location {
    fn eq(&self, other: &Self) -> (r: bool) {
        self.file == other.file && self.line == other.line
    }
}

impl vstd::std_specs::cmp::PartialEqSpecImpl for Location {
    open spec fn obeys_eq_spec() -> bool {
        true
    }

    open spec fn eq_spec(&self, other: &Self) -> bool {
        self@ == other@
    }
}

/// The operand of a statement.
#[derive(Debug)]
pub enum Argument {
    /// A placeholder for an operand that could not be classified.
    Invalid,
    /// An absolute machine address.
    Absolute(i32),
    /// A symbolic indirect constant.
    IdConst(i32),
    /// A label name; only this variant participates in CFG edges.
    Label(String),
}

/// Mathematical model of an [`Argument`].
pub ghost enum ArgumentView {
    Invalid,
    Absolute(i32),
    IdConst(i32),
    Label(Seq<char>),
}

impl View for Argument {
    type V = ArgumentView;

    open spec fn view(&self) -> ArgumentView {
        match self {
            Argument::Invalid => ArgumentView::Invalid,
            Argument::Absolute(a) => ArgumentView::Absolute(*a),
            Argument::IdConst(a) => ArgumentView::IdConst(*a),
            Argument::Label(l) => ArgumentView::Label(l@),
        }
    }
}

impl DeepView for Argument {
    type V = ArgumentView;

    open spec fn deep_view(&self) -> ArgumentView {
        self.view()
    }
}

impl Clone for Argument {
    fn clone(&self) -> (r: Self)
        ensures
            r == *self,
    {
        match self {
            Argument::Invalid => Argument::Invalid,
            Argument::Absolute(a) => Argument::Absolute(*a),
            Argument::IdConst(a) => Argument::IdConst(*a),
            Argument::Label(l) => Argument::Label(l.clone()),
        }
    }
}

impl Default for Argument {
    fn default() -> (r: Self)
        ensures
            r@ == ArgumentView::Invalid,
    {
        Argument::Invalid
    }
}

impl PartialEq for Argument {
    fn eq(&self, other: &Self) -> (r: bool) {
        match (self, other) {
            (Argument::Invalid, Argument::Invalid) => true,
            (Argument::Absolute(a), Argument::Absolute(b)) => *a == *b,
            (Argument::IdConst(a), Argument::IdConst(b)) => *a == *b,
            (Argument::Label(a), Argument::Label(b)) => *a == *b,
            _ => false,
        }
    }
}

impl vstd::std_specs::cmp::PartialEqSpecImpl for Argument {
    open spec fn obeys_eq_spec() -> bool {
        true
    }

    open spec fn eq_spec(&self, other: &Self) -> bool {
        self@ == other@
    }
}

/// One parsed statement: a label definition, a pseudo-instruction or a
/// machine instruction.
#[derive(Debug)]
pub enum Command {
    /// The `DEF` pseudo-instruction, which embeds a constant or a label.
    Def(Argument),
    /// A label definition.
    Label(String),
    /// An instruction with an operand.
    Wa(CmdWithArg, Argument),
    /// An instruction without an operand.
    Na(CmdNoArg),
}

/// Mathematical model of a [`Command`].
pub ghost enum CommandView {
    Def(ArgumentView),
    Label(Seq<char>),
    Wa(CmdWithArg, ArgumentView),
    Na(CmdNoArg),
}

impl View for Command {
    type V = CommandView;

    open spec fn view(&self) -> CommandView {
        match self {
            Command::Def(a) => CommandView::Def(a@),
            Command::Label(l) => CommandView::Label(l@),
            Command::Wa(c, a) => CommandView::Wa(*c, a@),
            Command::Na(c) => CommandView::Na(*c),
        }
    }
}

impl DeepView for Command {
    type V = CommandView;

    open spec fn deep_view(&self) -> CommandView {
        self.view()
    }
}

impl Clone for Command {
    fn clone(&self) -> (r: Self)
        ensures
            r == *self,
    {
        match self {
            Command::Def(a) => Command::Def(a.clone()),
            Command::Label(l) => Command::Label(l.clone()),
            Command::Wa(c, a) => Command::Wa(*c, a.clone()),
            Command::Na(c) => Command::Na(*c),
        }
    }
}

impl PartialEq for Command {
    fn eq(&self, other: &Self) -> (r: bool) {
        match (self, other) {
            (Command::Def(a), Command::Def(b)) => *a == *b,
            (Command::Label(a), Command::Label(b)) => *a == *b,
            (Command::Wa(c, a), Command::Wa(d, b)) => *c == *d && *a == *b,
            (Command::Na(c), Command::Na(d)) => *c == *d,
            _ => false,
        }
    }
}

impl vstd::std_specs::cmp::PartialEqSpecImpl for Command {
    open spec fn obeys_eq_spec() -> bool {
        true
    }

    open spec fn eq_spec(&self, other: &Self) -> bool {
        self@ == other@
    }
}

/// A statement as handed over by the parser: a command together with its
/// source position and the "do not optimize" mark.
#[derive(Debug)]
pub struct Statement {
    pub cmd: Command,
    pub loc: Option<Location>,
    /// A frozen statement must survive peephole optimization unchanged.
    pub do_ignore: bool,
}

/// Mathematical model of a [`Statement`].
pub ghost struct StatementView {
    pub cmd: CommandView,
    pub loc: Option<LocationView>,
    pub do_ignore: bool,
}

impl View for Statement {
    type V = StatementView;

    open spec fn view(&self) -> StatementView {
        StatementView {
            cmd: self.cmd@,
            loc: match self.loc {
                Some(l) => Some(l@),
                None => None,
            },
            do_ignore: self.do_ignore,
        }
    }
}

impl DeepView for Statement {
    type V = StatementView;

    open spec fn deep_view(&self) -> StatementView {
        self.view()
    }
}

impl Clone for Statement {
    fn clone(&self) -> (r: Self)
        ensures
            r == *self,
    {
        Statement {
            cmd: self.cmd.clone(),
            loc: match &self.loc {
                Some(l) => Some(l.clone()),
                None => None,
            },
            do_ignore: self.do_ignore,
        }
    }
}

impl PartialEq for Statement {
    fn eq(&self, other: &Self) -> (r: bool) {
        let loc_eq = match (&self.loc, &other.loc) {
            (Some(a), Some(b)) => *a == *b,
            (None, None) => true,
            _ => false,
        };
        loc_eq && self.cmd == other.cmd && self.do_ignore == other.do_ignore
    }
}

impl vstd::std_specs::cmp::PartialEqSpecImpl for Statement {
    open spec fn obeys_eq_spec() -> bool {
        true
    }

    open spec fn eq_spec(&self, other: &Self) -> bool {
        self@ == other@
    }
}

/// Whether a command is a plain instruction for the graph builder: one that
/// neither defines a label nor transfers control, so it is appended to the
/// current basic block.
pub open spec fn cmd_is_plain(c: CommandView) -> bool {
    match c {
        CommandView::Label(_) => false,
        CommandView::Na(CmdNoArg::Ret) => false,
        CommandView::Na(CmdNoArg::Hlt) => false,
        CommandView::Wa(CmdWithArg::Jmp, _) => false,
        CommandView::Wa(CmdWithArg::Jps, _) => false,
        CommandView::Wa(CmdWithArg::Jpo, _) => false,
        _ => true,
    }
}

} // verus!
