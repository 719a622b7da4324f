//! Runtime values and the errors raised while running a program.
use vstd::prelude::*;
use crate::ir::{copy_type, Type};

verus! {

/// A pointer: an allocation's identity, the type it points to, and an offset
/// in cells from the start of the allocation.
#[derive(Debug)]
pub struct Pointer {
    pub base: usize,
    pub ty: Type,
    pub offset: i64,
}

/// A runtime value. A float is carried as its IEEE bits.
#[derive(Debug)]
pub enum Value {
    Int(i64),
    Bool(bool),
    Float(u64),
    Pointer(Pointer),
}

/// What stops a run of a well-typed program.
#[derive(Debug, Clone, Copy, PartialEq, Eq, Structural)]
pub enum RuntimeError {
    DivisionByZero,
    PrintPointer,
    NegativeAllocation,
    AllocationTooLarge,
    UseAfterFree,
    OutOfBounds,
    UninitializedLoad,
    DoubleFree,
    StackOverflow,
    BadArgumentCount,
    BadArgument,
    UndefinedVariable,
    UndefinedFunction,
    WrongValueKind,
    MissingReturnValue,
    FloatOperation,
    StepLimit,
    UnknownLabel,
}

pub fn copy_pointer(p: &Pointer) -> (r: Pointer)
    ensures
        r == *p,
{
    Pointer { base: p.base, ty: copy_type(&p.ty), offset: p.offset }
}

/// A copy of a value, equal to it.
pub fn copy_value(v: &Value) -> (r: Value)
    ensures
        r == *v,
{
    match v {
        Value::Int(i) => Value::Int(*i),
        Value::Bool(b) => Value::Bool(*b),
        Value::Float(f) => Value::Float(*f),
        Value::Pointer(p) => Value::Pointer(copy_pointer(p)),
    }
}

} // verus!
