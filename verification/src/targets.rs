//! Jump-target types: the resolved and unresolved forms of a CFG edge
//! target, and the unconditional continuation of a basic block.

use vstd::prelude::*;
use crate::stmt::Argument;

verus! {

/// The target of a conditional jump: a basic block, or an absolute machine
/// address that lies outside the graph.
#[derive(Clone, Copy, Debug)]
pub enum JumpTarget<BbId> {
    BasicBlock(BbId),
    Absolute(i32),
}

/// Mathematical model of a [`JumpTarget`].
pub ghost enum JumpTargetView<BV> {
    BasicBlock(BV),
    Absolute(i32),
}

impl<B: DeepView> View for JumpTarget<B> {
    type V = JumpTargetView<B::V>;

    open spec fn view(&self) -> JumpTargetView<B::V> {
        match self {
            JumpTarget::BasicBlock(b) => JumpTargetView::BasicBlock(b.deep_view()),
            JumpTarget::Absolute(a) => JumpTargetView::Absolute(*a),
        }
    }
}

impl<B: DeepView> DeepView for JumpTarget<B> {
    type V = JumpTargetView<B::V>;

    open spec fn deep_view(&self) -> JumpTargetView<B::V> {
        self.view()
    }
}

/// A flexible block reference, used only while the graph is being built:
/// either a not-yet-resolved label name or an already-known block index.
#[derive(Debug)]
pub enum BbRef {
    Label(String),
    Id(usize),
}

/// Mathematical model of a [`BbRef`].
pub ghost enum BbRefView {
    Label(Seq<char>),
    Id(usize),
}

impl View for BbRef {
    type V = BbRefView;

    open spec fn view(&self) -> BbRefView {
        match self {
            BbRef::Label(l) => BbRefView::Label(l@),
            BbRef::Id(i) => BbRefView::Id(*i),
        }
    }
}

impl DeepView for BbRef {
    type V = BbRefView;

    open spec fn deep_view(&self) -> BbRefView {
        self.view()
    }
}

impl Clone for BbRef {
    fn clone(&self) -> (r: Self)
        ensures
            r == *self,
    {
        match self {
            BbRef::Label(l) => BbRef::Label(l.clone()),
            BbRef::Id(i) => BbRef::Id(*i),
        }
    }
}

impl From<String> for BbRef {
    fn from(x: String) -> (r: BbRef)
        ensures
            r == BbRef::Label(x),
    {
        BbRef::Label(x)
    }
}

impl vstd::std_specs::convert::FromSpecImpl<String> for BbRef {
    open spec fn obeys_from_spec() -> bool {
        true
    }

    open spec fn from_spec(x: String) -> BbRef {
        BbRef::Label(x)
    }
}

impl From<usize> for BbRef {
    fn from(x: usize) -> (r: BbRef)
        ensures
            r == BbRef::Id(x),
    {
        BbRef::Id(x)
    }
}

impl vstd::std_specs::convert::FromSpecImpl<usize> for BbRef {
    open spec fn obeys_from_spec() -> bool {
        true
    }

    open spec fn from_spec(x: usize) -> BbRef {
        BbRef::Id(x)
    }
}

impl<T> JumpTarget<T> {
    /// Apply `f` to the block reference, if there is one.
    pub fn map<U, F: FnOnce(T) -> U>(self, f: F) -> (r: JumpTarget<U>)
        requires
            self is BasicBlock ==> call_requires(f, (self->BasicBlock_0,)),
        ensures
            (match self {
                JumpTarget::BasicBlock(b) => r is BasicBlock && call_ensures(
                    f,
                    (b,),
                    r->BasicBlock_0,
                ),
                JumpTarget::Absolute(a) => r == JumpTarget::<U>::Absolute(a),
            }),
    {
        match self {
            JumpTarget::BasicBlock(b) => JumpTarget::BasicBlock(f(b)),
            JumpTarget::Absolute(a) => JumpTarget::Absolute(a),
        }
    }

    /// Apply the fallible `f` to the block reference, if there is one,
    /// passing its error through.
    pub fn try_map<U, E, F: FnOnce(T) -> Result<U, E>>(self, f: F) -> (r: Result<
        JumpTarget<U>,
        E,
    >)
        requires
            self is BasicBlock ==> call_requires(f, (self->BasicBlock_0,)),
        ensures
            (match self {
                JumpTarget::BasicBlock(b) => match r {
                    Ok(rt) => rt is BasicBlock && call_ensures(
                        f,
                        (b,),
                        Ok::<U, E>(rt->BasicBlock_0),
                    ),
                    Err(e) => call_ensures(f, (b,), Err::<U, E>(e)),
                },
                JumpTarget::Absolute(a) => r == Ok::<JumpTarget<U>, E>(JumpTarget::<U>::Absolute(a)),
            }),
    {
        match self {
            JumpTarget::BasicBlock(b) => match f(b) {
                Ok(u) => Ok(JumpTarget::BasicBlock(u)),
                Err(e) => Err(e),
            },
            JumpTarget::Absolute(a) => Ok(JumpTarget::Absolute(a)),
        }
    }
}

impl JumpTarget<String> {
    /// Classify a jump operand: a label or an absolute address is a valid
    /// jump target; anything else is handed back as the error.
    pub fn new(arg: Argument) -> (r: Result<Self, Argument>)
        ensures
            (match arg {
                Argument::Label(l) => r == Ok::<Self, Argument>(JumpTarget::BasicBlock(l)),
                Argument::Absolute(a) => r == Ok::<Self, Argument>(JumpTarget::Absolute(a)),
                _ => r == Err::<Self, Argument>(arg),
            }),
    {
        match arg {
            Argument::Label(l) => Ok(JumpTarget::BasicBlock(l)),
            Argument::Absolute(a) => Ok(JumpTarget::Absolute(a)),
            arg => Err(arg),
        }
    }
}

/// The block index behind an optional jump target, if the target is a block.
pub fn jumptrg_to_bbid<BbId>(jt: Option<JumpTarget<BbId>>) -> (r: Option<BbId>)
    ensures
        (match jt {
            Some(JumpTarget::BasicBlock(b)) => r == Some(b),
            _ => r is None,
        }),
{
    match jt {
        Some(JumpTarget::BasicBlock(b)) => Some(b),
        _ => None,
    }
}

/// The unconditional continuation of a basic block: the next block, an
/// absolute address, a subroutine return, or a machine halt.
#[derive(Clone, Copy, Debug)]
pub enum UcJumpTarget<BbId> {
    BasicBlock(BbId),
    Absolute(i32),
    Return,
    Halt,
}

/// Mathematical model of an [`UcJumpTarget`].
pub ghost enum UcJumpTargetView<BV> {
    BasicBlock(BV),
    Absolute(i32),
    Return,
    Halt,
}

impl<B: DeepView> View for UcJumpTarget<B> {
    type V = UcJumpTargetView<B::V>;

    open spec fn view(&self) -> UcJumpTargetView<B::V> {
        match self {
            UcJumpTarget::BasicBlock(b) => UcJumpTargetView::BasicBlock(b.deep_view()),
            UcJumpTarget::Absolute(a) => UcJumpTargetView::Absolute(*a),
            UcJumpTarget::Return => UcJumpTargetView::Return,
            UcJumpTarget::Halt => UcJumpTargetView::Halt,
        }
    }
}

impl<B: DeepView> DeepView for UcJumpTarget<B> {
    type V = UcJumpTargetView<B::V>;

    open spec fn deep_view(&self) -> UcJumpTargetView<B::V> {
        self.view()
    }
}

impl<B> From<JumpTarget<B>> for UcJumpTarget<B> {
    /// A conditional-jump target, seen as an unconditional continuation.
    fn from(x: JumpTarget<B>) -> (r: UcJumpTarget<B>)
        ensures
            (match x {
                JumpTarget::BasicBlock(b) => r == UcJumpTarget::BasicBlock(b),
                JumpTarget::Absolute(a) => r == UcJumpTarget::<B>::Absolute(a),
            }),
    {
        match x {
            JumpTarget::BasicBlock(b) => UcJumpTarget::BasicBlock(b),
            JumpTarget::Absolute(a) => UcJumpTarget::Absolute(a),
        }
    }
}

impl<B> vstd::std_specs::convert::FromSpecImpl<JumpTarget<B>> for UcJumpTarget<B> {
    open spec fn obeys_from_spec() -> bool {
        true
    }

    open spec fn from_spec(x: JumpTarget<B>) -> UcJumpTarget<B> {
        match x {
            JumpTarget::BasicBlock(b) => UcJumpTarget::BasicBlock(b),
            JumpTarget::Absolute(a) => UcJumpTarget::Absolute(a),
        }
    }
}

impl<T> UcJumpTarget<T> {
    /// Apply the fallible `f` to the block reference, if there is one,
    /// passing its error through.
    pub fn try_map<U, E, F: FnOnce(T) -> Result<U, E>>(self, f: F) -> (r: Result<
        UcJumpTarget<U>,
        E,
    >)
        requires
            self is BasicBlock ==> call_requires(f, (self->BasicBlock_0,)),
        ensures
            (match self {
                UcJumpTarget::BasicBlock(b) => match r {
                    Ok(rt) => rt is BasicBlock && call_ensures(
                        f,
                        (b,),
                        Ok::<U, E>(rt->BasicBlock_0),
                    ),
                    Err(e) => call_ensures(f, (b,), Err::<U, E>(e)),
                },
                UcJumpTarget::Absolute(a) => r == Ok::<UcJumpTarget<U>, E>(UcJumpTarget::<U>::Absolute(a)),
                UcJumpTarget::Return => r == Ok::<UcJumpTarget<U>, E>(UcJumpTarget::<U>::Return),
                UcJumpTarget::Halt => r == Ok::<UcJumpTarget<U>, E>(UcJumpTarget::<U>::Halt),
            }),
    {
        match self {
            UcJumpTarget::BasicBlock(b) => match f(b) {
                Ok(u) => Ok(UcJumpTarget::BasicBlock(u)),
                Err(e) => Err(e),
            },
            UcJumpTarget::Absolute(a) => Ok(UcJumpTarget::Absolute(a)),
            UcJumpTarget::Return => Ok(UcJumpTarget::Return),
            UcJumpTarget::Halt => Ok(UcJumpTarget::Halt),
        }
    }

    /// The block index of a continuation that names a block; otherwise the
    /// continuation itself, unchanged.
    pub fn try_into_bbid(self) -> (r: Result<T, Self>)
        ensures
            (match self {
                UcJumpTarget::BasicBlock(b) => r == Ok::<T, Self>(b),
                _ => r == Err::<T, Self>(self),
            }),
    {
        match self {
            UcJumpTarget::BasicBlock(b) => Ok(b),
            x => Err(x),
        }
    }
}

impl PartialEq for UcJumpTarget<usize> {
    fn eq(&self, other: &Self) -> (r: bool) {
        match (self, other) {
            (UcJumpTarget::BasicBlock(a), UcJumpTarget::BasicBlock(b)) => *a == *b,
            (UcJumpTarget::Absolute(a), UcJumpTarget::Absolute(b)) => *a == *b,
            (UcJumpTarget::Return, UcJumpTarget::Return) => true,
            (UcJumpTarget::Halt, UcJumpTarget::Halt) => true,
            _ => false,
        }
    }
}

impl vstd::std_specs::cmp::PartialEqSpecImpl for UcJumpTarget<usize> {
    open spec fn obeys_eq_spec() -> bool {
        true
    }

    open spec fn eq_spec(&self, other: &Self) -> bool {
        self == other
    }
}

impl PartialEq for JumpTarget<usize> {
    fn eq(&self, other: &Self) -> (r: bool) {
        match (self, other) {
            (JumpTarget::BasicBlock(a), JumpTarget::BasicBlock(b)) => *a == *b,
            (JumpTarget::Absolute(a), JumpTarget::Absolute(b)) => *a == *b,
            _ => false,
        }
    }
}

impl vstd::std_specs::cmp::PartialEqSpecImpl for JumpTarget<usize> {
    open spec fn obeys_eq_spec() -> bool {
        true
    }

    open spec fn eq_spec(&self, other: &Self) -> bool {
        self == other
    }
}

impl PartialEq for BbRef {
    fn eq(&self, other: &Self) -> (r: bool) {
        match (self, other) {
            (BbRef::Label(a), BbRef::Label(b)) => *a == *b,
            (BbRef::Id(a), BbRef::Id(b)) => *a == *b,
            _ => false,
        }
    }
}

impl vstd::std_specs::cmp::PartialEqSpecImpl for BbRef {
    open spec fn obeys_eq_spec() -> bool {
        true
    }

    open spec fn eq_spec(&self, other: &Self) -> bool {
        self@ == other@
    }
}

} // verus!
