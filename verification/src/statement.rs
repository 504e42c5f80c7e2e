//! An alternative statement vocabulary: one enum variant per opcode,
//! generic over a backend that fixes the operand, constant and label
//! representations.

use vstd::prelude::*;

verus! {

/// The operand of a statement invocation.
#[derive(Debug)]
pub enum Argument {
    /// An absolute machine address.
    Absolute(u16),
    /// A symbolic indirect constant.
    IdConst(u16),
    /// A label name.
    Label(String),
}

/// Mathematical model of an [`Argument`].
pub ghost enum ArgumentView {
    Absolute(u16),
    IdConst(u16),
    Label(Seq<char>),
}

impl View for Argument {
    type V = ArgumentView;

    open spec fn view(&self) -> ArgumentView {
        match self {
            Argument::Absolute(a) => ArgumentView::Absolute(*a),
            Argument::IdConst(a) => ArgumentView::IdConst(*a),
            Argument::Label(l) => ArgumentView::Label(l@),
        }
    }
}

impl Clone for Argument {
    fn clone(&self) -> (r: Self)
        ensures
            r == *self,
    {
        match self {
            Argument::Absolute(a) => Argument::Absolute(*a),
            Argument::IdConst(a) => Argument::IdConst(*a),
            Argument::Label(l) => Argument::Label(l.clone()),
        }
    }
}

impl PartialEq for Argument {
    fn eq(&self, other: &Self) -> (r: bool) {
        match (self, other) {
            (Argument::Absolute(a), Argument::Absolute(b)) => *a == *b,
            (Argument::IdConst(a), Argument::IdConst(b)) => *a == *b,
            (Argument::Label(a), Argument::Label(b)) => *a == *b,
            _ => false,
        }
    }
}

impl vstd::std_specs::cmp::PartialEqSpecImpl for Argument {
    open spec fn obeys_eq_spec() -> bool {
        true
    }

    open spec fn eq_spec(&self, other: &Self) -> bool {
        self@ == other@
    }
}

impl Argument {
    /// The sigil and the name of the operand's kind.
    pub fn get_type(&self) -> (r: (char, &'static str))
        ensures
            self is Absolute ==> r.0 == '@' && r.1@ == "absolute"@,
            self is IdConst ==> r.0 == '$' && r.1@ == "ind.const"@,
            self is Label ==> r.0 == ':' && r.1@ == "label"@,
    {
        match self {
            Argument::Absolute(_) => ('@', "absolute"),
            Argument::IdConst(_) => ('$', "ind.const"),
            Argument::Label(_) => (':', "label"),
        }
    }
}

/// Fixes the representations a statement invocation is generic over: the
/// payload of a `DEF` and the payload of a label definition.
pub trait StatementInvocBackend {
    type DefCode;

    type Label;
}

/// A statement invocation: one variant per opcode, plus the `NOP` and
/// `DEF` pseudo-instructions and label definitions.
#[derive(Debug)]
pub enum StatementInvocBase<T: StatementInvocBackend> {
    LDA(T),
    LDB(T),
    MOV(T),
    MAB,
    ADD,
    SUB,
    AND,
    NOT,
    JMP(T),
    JPS(T),
    JPO(T),
    CAL(T),
    RET,
    RRA(T),
    RLA(T),
    HLT,
    NOP,
    DEF(T::DefCode),
    Label(T::Label),
}

impl StatementInvocBackend for Argument {
    type DefCode = u16;

    type Label = String;
}

/// A statement invocation with parsed operands.
pub type StatementInvoc = StatementInvocBase<Argument>;

/// A statement: an invocation plus the optimization permission flag.
#[derive(Debug)]
pub struct Statement {
    pub invoc: StatementInvoc,
    /// A statement marked not optimizable must survive rewriting.
    pub optimizable: bool,
}

/// Static facts about one opcode: its mnemonic, whether the machine
/// executes it (as opposed to a pseudo-instruction), and whether it takes
/// an operand.
#[derive(Clone, Copy, Debug, PartialEq)]
pub struct Command {
    pub mnemonic: &'static str,
    pub is_real: bool,
    pub has_arg: bool,
}

impl StatementInvoc {
    /// Wrap the invocation into a statement.
    pub fn into_statement(self, optimizable: bool) -> (r: Statement)
        ensures
            r.invoc == self,
            r.optimizable == optimizable,
    {
        Statement { invoc: self, optimizable }
    }
}

/// Whether the invocation carries an operand.
pub open spec fn invoc_has_arg<T: StatementInvocBackend>(i: StatementInvocBase<T>) -> bool {
    match i {
        StatementInvocBase::LDA(_) => true,
        StatementInvocBase::LDB(_) => true,
        StatementInvocBase::MOV(_) => true,
        StatementInvocBase::JMP(_) => true,
        StatementInvocBase::JPS(_) => true,
        StatementInvocBase::JPO(_) => true,
        StatementInvocBase::CAL(_) => true,
        StatementInvocBase::RRA(_) => true,
        StatementInvocBase::RLA(_) => true,
        StatementInvocBase::DEF(_) => true,
        StatementInvocBase::Label(_) => true,
        _ => false,
    }
}

/// Whether the machine executes the invocation (`DEF` and labels are
/// virtual).
pub open spec fn invoc_is_real<T: StatementInvocBackend>(i: StatementInvocBase<T>) -> bool {
    match i {
        StatementInvocBase::DEF(_) => false,
        StatementInvocBase::Label(_) => false,
        _ => true,
    }
}

/// The mnemonic of the invocation.
pub open spec fn invoc_mnemonic<T: StatementInvocBackend>(i: StatementInvocBase<T>) -> Seq<char> {
    match i {
        StatementInvocBase::LDA(_) => "LDA"@,
        StatementInvocBase::LDB(_) => "LDB"@,
        StatementInvocBase::MOV(_) => "MOV"@,
        StatementInvocBase::MAB => "MAB"@,
        StatementInvocBase::ADD => "ADD"@,
        StatementInvocBase::SUB => "SUB"@,
        StatementInvocBase::AND => "AND"@,
        StatementInvocBase::NOT => "NOT"@,
        StatementInvocBase::JMP(_) => "JMP"@,
        StatementInvocBase::JPS(_) => "JPS"@,
        StatementInvocBase::JPO(_) => "JPO"@,
        StatementInvocBase::CAL(_) => "CAL"@,
        StatementInvocBase::RET => "RET"@,
        StatementInvocBase::RRA(_) => "RRA"@,
        StatementInvocBase::RLA(_) => "RLA"@,
        StatementInvocBase::HLT => "HLT"@,
        StatementInvocBase::NOP => "NOP"@,
        StatementInvocBase::DEF(_) => "DEF"@,
        StatementInvocBase::Label(_) => "Label"@,
    }
}

impl<T: StatementInvocBackend> StatementInvocBase<T> {
    /// The operand, if the invocation carries one.  `DEF` codes and label
    /// names are not operands.
    pub fn arg(&self) -> (r: Option<&T>)
        ensures
            (match self {
                StatementInvocBase::LDA(x) => r == Some(x),
                StatementInvocBase::LDB(x) => r == Some(x),
                StatementInvocBase::MOV(x) => r == Some(x),
                StatementInvocBase::JMP(x) => r == Some(x),
                StatementInvocBase::JPS(x) => r == Some(x),
                StatementInvocBase::JPO(x) => r == Some(x),
                StatementInvocBase::CAL(x) => r == Some(x),
                StatementInvocBase::RRA(x) => r == Some(x),
                StatementInvocBase::RLA(x) => r == Some(x),
                _ => r is None,
            }),
    {
        match self {
            StatementInvocBase::LDA(x) => Some(x),
            StatementInvocBase::LDB(x) => Some(x),
            StatementInvocBase::MOV(x) => Some(x),
            StatementInvocBase::JMP(x) => Some(x),
            StatementInvocBase::JPS(x) => Some(x),
            StatementInvocBase::JPO(x) => Some(x),
            StatementInvocBase::CAL(x) => Some(x),
            StatementInvocBase::RRA(x) => Some(x),
            StatementInvocBase::RLA(x) => Some(x),
            _ => None,
        }
    }

    /// The static facts about the invocation's opcode.
    pub fn get_cmd(&self) -> (r: Command)
        ensures
            r.has_arg == invoc_has_arg(*self),
            r.is_real == invoc_is_real(*self),
            r.mnemonic@ == invoc_mnemonic(*self),
    {
        match self {
            StatementInvocBase::LDA(_) => Command { mnemonic: "LDA", is_real: true, has_arg: true },
            StatementInvocBase::LDB(_) => Command { mnemonic: "LDB", is_real: true, has_arg: true },
            StatementInvocBase::MOV(_) => Command { mnemonic: "MOV", is_real: true, has_arg: true },
            StatementInvocBase::MAB => Command { mnemonic: "MAB", is_real: true, has_arg: false },
            StatementInvocBase::ADD => Command { mnemonic: "ADD", is_real: true, has_arg: false },
            StatementInvocBase::SUB => Command { mnemonic: "SUB", is_real: true, has_arg: false },
            StatementInvocBase::AND => Command { mnemonic: "AND", is_real: true, has_arg: false },
            StatementInvocBase::NOT => Command { mnemonic: "NOT", is_real: true, has_arg: false },
            StatementInvocBase::JMP(_) => Command { mnemonic: "JMP", is_real: true, has_arg: true },
            StatementInvocBase::JPS(_) => Command { mnemonic: "JPS", is_real: true, has_arg: true },
            StatementInvocBase::JPO(_) => Command { mnemonic: "JPO", is_real: true, has_arg: true },
            StatementInvocBase::CAL(_) => Command { mnemonic: "CAL", is_real: true, has_arg: true },
            StatementInvocBase::RET => Command { mnemonic: "RET", is_real: true, has_arg: false },
            StatementInvocBase::RRA(_) => Command { mnemonic: "RRA", is_real: true, has_arg: true },
            StatementInvocBase::RLA(_) => Command { mnemonic: "RLA", is_real: true, has_arg: true },
            StatementInvocBase::HLT => Command { mnemonic: "HLT", is_real: true, has_arg: false },
            StatementInvocBase::NOP => Command { mnemonic: "NOP", is_real: true, has_arg: false },
            StatementInvocBase::DEF(_) => Command { mnemonic: "DEF", is_real: false, has_arg: true },
            StatementInvocBase::Label(_) => Command {
                mnemonic: "Label",
                is_real: false,
                has_arg: true,
            },
        }
    }

    /// The mnemonic of the invocation's opcode.
    pub fn cmd2str(&self) -> (r: &'static str)
        ensures
            r@ == invoc_mnemonic(*self),
    {
        self.get_cmd().mnemonic
    }

    /// Whether the machine executes the invocation.
    pub fn is_cmd_real(&self) -> (r: bool)
        ensures
            r == invoc_is_real(*self),
    {
        self.get_cmd().is_real
    }

    /// Whether the invocation carries an operand.
    pub fn has_arg(self) -> (r: bool)
        ensures
            r == invoc_has_arg(self),
    {
        self.get_cmd().has_arg
    }
}

/// Declares core::num::ParseIntError so that a parse error can carry it;
/// the value is opaque and is only carried through.
#[verifier::external_type_specification]
#[verifier::external_body]
pub struct ExParseIntError(core::num::ParseIntError);

/// Why a statement failed to parse.
#[derive(Debug)]
pub enum ParseStatementError {
    TooShort,
    UnexpectedArgument,
    ArgumentNotFound,
    InvalidArgument,
    TooManyTokens(usize),
    UnknownCommand,
    InlineLabel,
    /// An operand failed to parse as a number.
    Integer(core::num::ParseIntError),
}

} // verus!
