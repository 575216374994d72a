//! The low-level intermediate representation the translator consumes: a
//! program is a set of functions, each function a graph of basic blocks,
//! each block an ordered list of statements closed by one terminator.
//! Places are already reduced to their base storage: a local slot or a
//! promoted constant.

use vstd::prelude::*;

verus! {

/// The base storage a place expression refers to, projections stripped.
#[derive(Clone, Copy, PartialEq, Eq, Structural, Debug)]
pub enum PlaceBase {
    /// A local slot of the frame, by index; index zero is the return slot,
    /// followed by the function's parameters.
    Local(usize),
    /// A promoted compile-time constant, by index.
    Promoted(usize),
}

/// An operand of a statement or call.
#[derive(Clone, Copy, PartialEq, Eq, Structural, Debug)]
pub enum Operand {
    Copy(PlaceBase),
    Move(PlaceBase),
    /// A literal constant; all literals share one data place.
    Constant,
}

/// The right-hand side of an assignment.
#[derive(Clone, Debug)]
pub enum Rvalue {
    Use(Operand),
    Repeat(Operand),
    UnaryOp(Operand),
    Cast(Operand),
    Ref(PlaceBase),
    Len(PlaceBase),
    AddressOf(PlaceBase),
    Discriminant(PlaceBase),
    BinaryOp(Operand, Operand),
    CheckedBinaryOp(Operand, Operand),
    /// `size-of` and `box`: a lookup in the constants space.
    NullaryOp,
    Aggregate(Vec<Operand>),
}

/// A statement of a basic block.
#[derive(Clone, Debug)]
pub enum Stmt {
    Assign(PlaceBase, Rvalue),
    /// Storage of the local becomes live.
    StorageLive(usize),
    /// Storage of the local is destroyed.
    StorageDead(usize),
    SetDiscriminant(PlaceBase),
    Nop,
}

/// How a call names its callee.
#[derive(Clone, Copy, PartialEq, Eq, Structural, Debug)]
pub enum Callee {
    /// A resolved function id: an index into the program's function table.
    Fn(usize),
    /// An indirect call through a function pointer; not supported.
    FnPtr,
}

/// The terminator closing a basic block.
#[derive(Clone, Debug)]
pub enum Terminator {
    Return,
    Goto { target: usize },
    SwitchInt { discr: Operand, targets: Vec<usize> },
    Call {
        func: Callee,
        args: Vec<Operand>,
        /// Where the result is stored and where control continues.
        destination: Option<(PlaceBase, usize)>,
        cleanup: Option<usize>,
    },
    Drop { place: PlaceBase, target: usize, unwind: Option<usize> },
    Assert { cond: Operand, expected: bool, target: usize, cleanup: Option<usize> },
    Resume,
    Abort,
    Unreachable,
}

/// One basic block: statements in order, then exactly one terminator.
#[derive(Clone, Debug)]
pub struct BlockData {
    pub statements: Vec<Stmt>,
    pub terminator: Terminator,
}

/// The body of a function whose source is available.
#[derive(Clone, Debug)]
pub struct Body {
    /// Number of parameters; they occupy locals `1..=arg_count`.
    pub arg_count: usize,
    /// Total number of locals, the return slot and parameters included.
    pub local_count: usize,
    /// Number of promoted constants of the function.
    pub promoted_count: usize,
    pub blocks: Vec<BlockData>,
}

/// A function of the program: its fully qualified name, and its body where
/// the source is available.  A function without a body is foreign and is
/// emulated instead of visited.
#[derive(Clone, Debug)]
pub struct FnDef {
    pub name: String,
    pub body: Option<Body>,
}

/// A whole program: functions indexed by id.
#[derive(Clone, Debug)]
pub struct Program {
    pub functions: Vec<FnDef>,
}

} // verus!
