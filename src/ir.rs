//! The abstract program: types, instructions and functions as handed over by
//! a parser.
use vstd::prelude::*;

verus! {

/// A value type: a scalar kind or a pointer to another type.
#[derive(Debug)]
pub enum Type {
    Int,
    Bool,
    Float,
    Pointer(Box<Type>),
}

/// The literal of a constant instruction. A float is held as its IEEE bits.
#[derive(Debug)]
pub enum Literal {
    Int(i64),
    Bool(bool),
    Float(u64),
}

/// Operations that produce a value.
#[derive(Debug, Clone, Copy, PartialEq, Eq, Structural)]
pub enum ValueOp {
    Add,
    Sub,
    Mul,
    Div,
    Eq,
    Lt,
    Gt,
    Le,
    Ge,
    Not,
    And,
    Or,
    Id,
    Call,
    Alloc,
    Load,
    PtrAdd,
    Fadd,
    Fsub,
    Fmul,
    Fdiv,
    Feq,
    Flt,
    Fgt,
    Fle,
    Fge,
}

/// Operations run for their effect only.
#[derive(Debug, Clone, Copy, PartialEq, Eq, Structural)]
pub enum EffectOp {
    Jmp,
    Br,
    Call,
    Ret,
    Print,
    Nop,
    Store,
    Free,
}

/// One executable instruction.
#[derive(Debug)]
#[allow(inconsistent_fields)]
pub enum Instruction {
    Constant { dest: String, ty: Type, value: Literal },
    Value {
        dest: String,
        ty: Type,
        op: ValueOp,
        args: Vec<String>,
        funcs: Vec<String>,
        labels: Vec<String>,
    },
    Effect { op: EffectOp, args: Vec<String>, funcs: Vec<String>, labels: Vec<String> },
}

/// An entry of a function's flat body: a label or an instruction.
#[derive(Debug)]
pub enum Code {
    Label(String),
    Instr(Instruction),
}

/// A declared parameter.
#[derive(Debug)]
pub struct Argument {
    pub name: String,
    pub ty: Type,
}

/// A function in flat form.
#[derive(Debug)]
pub struct Function {
    pub name: String,
    pub args: Vec<Argument>,
    pub return_type: Option<Type>,
    pub instrs: Vec<Code>,
}

/// A whole program in flat form.
#[derive(Debug)]
pub struct Program {
    pub functions: Vec<Function>,
}

impl Instruction {
    /// Whether this instruction ends a basic block.
    pub open spec fn is_terminator(&self) -> bool {
        match self {
            Instruction::Effect { op, .. } => op == EffectOp::Jmp || op == EffectOp::Br || op
                == EffectOp::Ret,
            _ => false,
        }
    }

    pub fn terminates(&self) -> (r: bool)
        ensures
            r == self.is_terminator(),
    {
        match self {
            Instruction::Effect { op, .. } => match op {
                EffectOp::Jmp | EffectOp::Br | EffectOp::Ret => true,
                _ => false,
            },
            _ => false,
        }
    }

    /// The label targets of this instruction.
    pub open spec fn label_targets(&self) -> Seq<String> {
        match self {
            Instruction::Constant { .. } => Seq::empty(),
            Instruction::Value { labels, .. } => labels@,
            Instruction::Effect { labels, .. } => labels@,
        }
    }

    pub fn targets(&self) -> (r: &Vec<String>)
        requires
            !(self is Constant),
        ensures
            r@ == self.label_targets(),
    {
        match self {
            Instruction::Constant { .. } => { proof { assert(false); } unreached() },
            Instruction::Value { labels, .. } => labels,
            Instruction::Effect { labels, .. } => labels,
        }
    }
}

/// Structural equality of types.
pub fn type_eq(a: &Type, b: &Type) -> (r: bool)
    ensures
        r == (a == b),
    decreases a,
{
    match (a, b) {
        (Type::Int, Type::Int) => true,
        (Type::Bool, Type::Bool) => true,
        (Type::Float, Type::Float) => true,
        (Type::Pointer(x), Type::Pointer(y)) => type_eq(x, y),
        _ => false,
    }
}

/// A copy of a type, equal to it.
pub fn copy_type(t: &Type) -> (r: Type)
    ensures
        r == *t,
    decreases t,
{
    match t {
        Type::Int => Type::Int,
        Type::Bool => Type::Bool,
        Type::Float => Type::Float,
        Type::Pointer(x) => Type::Pointer(Box::new(copy_type(x))),
    }
}

} // verus!
