//! Static type checking of a program in basic-block form: one pass per
//! function, in block order, recording the declared type of each name.
use vstd::prelude::*;
use crate::basic_block::{flatten, BBFunction, BBProgram, BasicBlock};
use vstd::string::StringExecFns;
use crate::ir::{copy_type, type_eq, Argument, EffectOp, Instruction, Literal, Type, ValueOp};

verus! {

/// What is wrong with an ill-typed program.
#[derive(Debug, Clone, Copy, PartialEq, Eq, Structural)]
pub enum TypeErrorKind {
    UndefinedVariable,
    Redefinition,
    Mismatch,
    MissingMain,
    MainReturns,
    DuplicateFunction,
}

/// A type error and where it stands: the function, and the block and
/// position of the instruction (`None` for the function's parameters or the
/// program as a whole).
#[derive(Debug)]
pub struct TypeError {
    pub kind: TypeErrorKind,
    pub function: Option<usize>,
    pub block: Option<usize>,
    pub instr: Option<usize>,
}

/// The declared type of each name defined so far, in order of definition.
pub type Env = Vec<(String, Type)>;

/// The recorded type of `n`.
pub open spec fn lookup(env: Seq<(String, Type)>, n: Seq<char>) -> Option<Type>
    decreases env.len(),
{
    if env.len() == 0 {
        None
    } else if env.last().0@ == n {
        Some(env.last().1)
    } else {
        lookup(env.drop_last(), n)
    }
}

/// Records that `n` has type `t`; a name that already has another type is an
/// error.
pub open spec fn define(env: Seq<(String, Type)>, n: String, t: Type) -> Result<
    Seq<(String, Type)>,
    TypeErrorKind,
> {
    match lookup(env, n@) {
        Some(t2) => if t2 == t {
            Ok(env)
        } else {
            Err(TypeErrorKind::Redefinition)
        },
        None => Ok(env.push((n, t))),
    }
}

/// The recorded types of `args`, if all are defined.
pub open spec fn arg_types(env: Seq<(String, Type)>, args: Seq<String>) -> Option<Seq<Type>>
    decreases args.len(),
{
    if args.len() == 0 {
        Some(Seq::empty())
    } else {
        match (arg_types(env, args.drop_last()), lookup(env, args.last()@)) {
            (Some(ts), Some(t)) => Some(ts.push(t)),
            _ => None,
        }
    }
}

/// The last function named `n`.
pub open spec fn find_function(fs: Seq<BBFunction>, n: Seq<char>) -> Option<int>
    decreases fs.len(),
{
    if fs.len() == 0 {
        None
    } else if fs.last().name@ == n {
        Some(fs.len() - 1)
    } else {
        find_function(fs.drop_last(), n)
    }
}

pub proof fn lemma_find_function_range(fs: Seq<BBFunction>, n: Seq<char>)
    ensures
        find_function(fs, n) matches Some(i) ==> 0 <= i < fs.len() && fs[i].name@ == n,
    decreases fs.len(),
{
    if fs.len() > 0 {
        lemma_find_function_range(fs.drop_last(), n);
    }
}

/// The declared types of a parameter list.
pub open spec fn param_types(args: Seq<Argument>) -> Seq<Type> {
    args.map_values(|a: Argument| a.ty)
}

pub open spec fn is_pointer(t: Type) -> bool {
    t is Pointer
}

/// A call of one function named `funcs` with arguments of types `ts`
/// matches its declared parameters; its declared result is `ret`.
pub open spec fn call_ok(fs: Seq<BBFunction>, ts: Seq<Type>, funcs: Seq<String>, ret: Option<Option<Type>>) -> bool {
    &&& funcs.len() == 1
    &&& find_function(fs, funcs[0]@) matches Some(i) && {
        let callee = fs[i];
        &&& param_types(callee.args@) == ts
        &&& (ret matches Some(r) ==> callee.return_type == r)
    }
}

/// The literal fits the declared type.
pub open spec fn literal_ok(ty: Type, v: Literal) -> bool {
    match v {
        Literal::Int(_) => ty is Int,
        Literal::Bool(_) => ty is Bool,
        Literal::Float(_) => ty is Float,
    }
}

/// A value operation with argument types `ts` and declared type `ty`.
pub open spec fn value_ok(
    fs: Seq<BBFunction>,
    op: ValueOp,
    ty: Type,
    ts: Seq<Type>,
    funcs: Seq<String>,
    labels: Seq<String>,
) -> bool {
    &&& labels.len() == 0
    &&& (op != ValueOp::Call ==> funcs.len() == 0)
    &&& match op {
        ValueOp::Add | ValueOp::Sub | ValueOp::Mul | ValueOp::Div => ts == seq![Type::Int, Type::Int]
            && ty == Type::Int,
        ValueOp::Eq | ValueOp::Lt | ValueOp::Gt | ValueOp::Le | ValueOp::Ge => ts == seq![
            Type::Int,
            Type::Int,
        ] && ty == Type::Bool,
        ValueOp::Not => ts == seq![Type::Bool] && ty == Type::Bool,
        ValueOp::And | ValueOp::Or => ts == seq![Type::Bool, Type::Bool] && ty == Type::Bool,
        ValueOp::Fadd | ValueOp::Fsub | ValueOp::Fmul | ValueOp::Fdiv => ts == seq![
            Type::Float,
            Type::Float,
        ] && ty == Type::Float,
        ValueOp::Feq | ValueOp::Flt | ValueOp::Fgt | ValueOp::Fle | ValueOp::Fge => ts == seq![
            Type::Float,
            Type::Float,
        ] && ty == Type::Bool,
        ValueOp::Id => ts == seq![ty],
        ValueOp::Call => call_ok(fs, ts, funcs, Some(Some(ty))),
        ValueOp::Alloc => ts == seq![Type::Int] && is_pointer(ty),
        ValueOp::Load => ts == seq![Type::Pointer(Box::new(ty))],
        ValueOp::PtrAdd => ts == seq![ty, Type::Int] && is_pointer(ty),
    }
}

/// An effect operation with argument types `ts`, in a function whose
/// declared result is `ret`.
pub open spec fn effect_ok(
    fs: Seq<BBFunction>,
    ret: Option<Type>,
    op: EffectOp,
    ts: Seq<Type>,
    funcs: Seq<String>,
    labels: Seq<String>,
) -> bool {
    &&& (op != EffectOp::Call ==> funcs.len() == 0)
    &&& (op != EffectOp::Jmp && op != EffectOp::Br ==> labels.len() == 0)
    &&& match op {
        EffectOp::Jmp => ts.len() == 0 && labels.len() == 1,
        EffectOp::Br => ts == seq![Type::Bool] && labels.len() == 2,
        EffectOp::Call => call_ok(fs, ts, funcs, None),
        EffectOp::Ret => match ret {
            None => ts.len() == 0,
            Some(t) => ts == seq![t],
        },
        EffectOp::Print => true,
        EffectOp::Nop => ts.len() == 0,
        EffectOp::Store => ts.len() == 2 && ts[0] == Type::Pointer(Box::new(ts[1])),
        EffectOp::Free => ts.len() == 1 && is_pointer(ts[0]),
    }
}

/// Checks one instruction against the recorded types and records what it
/// defines.
pub open spec fn instr_step(
    fs: Seq<BBFunction>,
    ret: Option<Type>,
    env: Seq<(String, Type)>,
    ins: Instruction,
) -> Result<Seq<(String, Type)>, TypeErrorKind> {
    match ins {
        Instruction::Constant { dest, ty, value } => if literal_ok(ty, value) {
            define(env, dest, ty)
        } else {
            Err(TypeErrorKind::Mismatch)
        },
        Instruction::Value { dest, ty, op, args, funcs, labels } => match arg_types(env, args@) {
            None => Err(TypeErrorKind::UndefinedVariable),
            Some(ts) => if value_ok(fs, op, ty, ts, funcs@, labels@) {
                define(env, dest, ty)
            } else {
                Err(TypeErrorKind::Mismatch)
            },
        },
        Instruction::Effect { op, args, funcs, labels } => match arg_types(env, args@) {
            None => Err(TypeErrorKind::UndefinedVariable),
            Some(ts) => if effect_ok(fs, ret, op, ts, funcs@, labels@) {
                Ok(env)
            } else {
                Err(TypeErrorKind::Mismatch)
            },
        },
    }
}

/// Checks a run of instructions in order.
pub open spec fn check_seq(
    fs: Seq<BBFunction>,
    ret: Option<Type>,
    env: Seq<(String, Type)>,
    instrs: Seq<Instruction>,
) -> Result<Seq<(String, Type)>, TypeErrorKind>
    decreases instrs.len(),
{
    if instrs.len() == 0 {
        Ok(env)
    } else {
        match check_seq(fs, ret, env, instrs.drop_last()) {
            Ok(e) => instr_step(fs, ret, e, instrs.last()),
            Err(k) => Err(k),
        }
    }
}

/// The types recorded for a function's parameters.
pub open spec fn param_env(args: Seq<Argument>) -> Result<Seq<(String, Type)>, TypeErrorKind>
    decreases args.len(),
{
    if args.len() == 0 {
        Ok(Seq::empty())
    } else {
        match param_env(args.drop_last()) {
            Ok(e) => define(e, args.last().name, args.last().ty),
            Err(k) => Err(k),
        }
    }
}

/// The function is well typed within the program's functions `fs`; a
/// function that declares a result has a body.
pub open spec fn function_typed(fs: Seq<BBFunction>, f: BBFunction) -> bool {
    match param_env(f.args@) {
        Ok(e) => check_seq(fs, f.return_type, e, flatten(f.blocks@)) is Ok && (f.return_type is Some
            ==> flatten(f.blocks@).len() > 0),
        Err(_) => false,
    }
}

/// No two functions share a name.
pub open spec fn names_unique(fs: Seq<BBFunction>) -> bool {
    forall|i: int, j: int| 0 <= i < j < fs.len() ==> #[trigger] fs[i].name@ != #[trigger] fs[j].name@
}

/// The program is well typed: names are unique, `main` exists and returns
/// nothing, and every function is well typed.
pub open spec fn program_typed(fs: Seq<BBFunction>) -> bool {
    &&& names_unique(fs)
    &&& find_function(fs, "main"@) matches Some(m) && fs[m].return_type is None
    &&& forall|i: int| 0 <= i < fs.len() ==> #[trigger] function_typed(fs, fs[i])
}

fn env_lookup(env: &Env, n: &String) -> (r: Option<Type>)
    ensures
        r == lookup(env@, n@),
{
    let mut i: usize = env.len();
    assert(env@.subrange(0, env@.len() as int) =~= env@);
    while i > 0
        invariant
            i <= env@.len(),
            lookup(env@, n@) == lookup(env@.subrange(0, i as int), n@),
        decreases i,
    {
        assert(env@.subrange(0, i as int).drop_last() =~= env@.subrange(0, i - 1));
        if env[i - 1].0.eq(n) {
            return Some(copy_type(&env[i - 1].1));
        }
        i = i - 1;
    }
    None
}

fn env_define(env: &mut Env, n: &String, t: &Type) -> (r: Result<(), TypeErrorKind>)
    ensures
        match define(old(env)@, *n, *t) {
            Ok(e) => r is Ok && final(env)@ == e,
            Err(k) => r == Err::<(), TypeErrorKind>(k),
        },
{
    match env_lookup(env, n) {
        Some(t2) => {
            if type_eq(&t2, t) {
                Ok(())
            } else {
                Err(TypeErrorKind::Redefinition)
            }
        },
        None => {
            env.push((n.clone(), copy_type(t)));
            Ok(())
        },
    }
}

fn exec_arg_types(env: &Env, args: &Vec<String>) -> (r: Option<Vec<Type>>)
    ensures
        r is None <==> arg_types(env@, args@) is None,
        r matches Some(v) ==> arg_types(env@, args@) == Some(v@),
{
    let mut out: Vec<Type> = Vec::new();
    let mut i: usize = 0;
    while i < args.len()
        invariant
            i <= args@.len(),
            arg_types(env@, args@.subrange(0, i as int)) == Some(out@),
        decreases args.len() - i,
    {
        assert(args@.subrange(0, i + 1).drop_last() =~= args@.subrange(0, i as int));
        match env_lookup(env, &args[i]) {
            Some(t) => out.push(t),
            None => {
                proof {
                    lemma_arg_types_prefix(env@, args@, i as int + 1);
                }
                return None;
            },
        }
        i = i + 1;
    }
    assert(args@.subrange(0, args@.len() as int) =~= args@);
    Some(out)
}

proof fn lemma_arg_types_prefix(env: Seq<(String, Type)>, args: Seq<String>, i: int)
    requires
        0 <= i <= args.len(),
        arg_types(env, args.subrange(0, i)) is None,
    ensures
        arg_types(env, args) is None,
    decreases args.len() - i,
{
    if i < args.len() {
        assert(args.subrange(0, i + 1).drop_last() =~= args.subrange(0, i));
        lemma_arg_types_prefix(env, args, i + 1);
    } else {
        assert(args.subrange(0, i) =~= args);
    }
}

/// The index of the last function named `n`.
pub fn function_index(fs: &Vec<BBFunction>, n: &String) -> (r: Option<usize>)
    ensures
        r is None <==> find_function(fs@, n@) is None,
        r matches Some(j) ==> find_function(fs@, n@) == Some(j as int) && j < fs@.len()
            && fs@[j as int].name@ == n@,
{
    let mut i: usize = fs.len();
    assert(fs@.subrange(0, fs@.len() as int) =~= fs@);
    proof {
        lemma_find_function_range(fs@, n@);
    }
    while i > 0
        invariant
            i <= fs@.len(),
            find_function(fs@, n@) == find_function(fs@.subrange(0, i as int), n@),
        decreases i,
    {
        assert(fs@.subrange(0, i as int).drop_last() =~= fs@.subrange(0, i - 1));
        if fs[i - 1].name.eq(n) {
            return Some(i - 1);
        }
        i = i - 1;
    }
    None
}

fn params_match(args: &Vec<Argument>, ts: &Vec<Type>) -> (r: bool)
    ensures
        r == (param_types(args@) == ts@),
{
    if args.len() != ts.len() {
        assert(param_types(args@).len() != ts@.len());
        return false;
    }
    let mut i: usize = 0;
    while i < args.len()
        invariant
            i <= args@.len(),
            args@.len() == ts@.len(),
            forall|j: int| 0 <= j < i ==> #[trigger] ts@[j] == args@[j].ty,
        decreases args.len() - i,
    {
        if !type_eq(&args[i].ty, &ts[i]) {
            assert(param_types(args@)[i as int] != ts@[i as int]);
            return false;
        }
        i = i + 1;
    }
    assert(param_types(args@) =~= ts@);
    true
}

fn exec_call_ok(fs: &Vec<BBFunction>, ts: &Vec<Type>, funcs: &Vec<String>, ret: Option<&Type>, want_ret: bool) -> (r: bool)
    requires
        want_ret || ret is None,
    ensures
        r == call_ok(
            fs@,
            ts@,
            funcs@,
            if want_ret {
                Some(
                    match ret {
                        Some(t) => Some(*t),
                        None => None,
                    },
                )
            } else {
                None
            },
        ),
{
    if funcs.len() != 1 {
        return false;
    }
    proof {
        lemma_find_function_range(fs@, funcs@[0]@);
    }
    match function_index(fs, &funcs[0]) {
        None => false,
        Some(i) => {
            let callee = &fs[i];
            assert(find_function(fs@, funcs@[0]@) == Some(i as int));
            assert(*callee == fs@[i as int]);
            if !params_match(&callee.args, ts) {
                return false;
            }
            if !want_ret {
                return true;
            }
            match (&callee.return_type, ret) {
                (Some(a), Some(b)) => type_eq(a, b),
                (None, None) => true,
                _ => false,
            }
        },
    }
}

fn is_int(t: &Type) -> (r: bool)
    ensures
        r == (*t == Type::Int),
{
    match t {
        Type::Int => true,
        _ => false,
    }
}

fn is_bool(t: &Type) -> (r: bool)
    ensures
        r == (*t == Type::Bool),
{
    match t {
        Type::Bool => true,
        _ => false,
    }
}

fn is_float(t: &Type) -> (r: bool)
    ensures
        r == (*t == Type::Float),
{
    match t {
        Type::Float => true,
        _ => false,
    }
}

fn is_ptr(t: &Type) -> (r: bool)
    ensures
        r == is_pointer(*t),
{
    match t {
        Type::Pointer(_) => true,
        _ => false,
    }
}

/// Whether the types are exactly `a, a`.
fn both(ts: &Vec<Type>, a: Type) -> (r: bool)
    requires
        a is Int || a is Bool || a is Float,
    ensures
        r == (ts@ == seq![a, a]),
{
    if ts.len() != 2 {
        assert(ts@.len() != seq![a, a].len());
        return false;
    }
    let ok = match a {
        Type::Int => is_int(&ts[0]) && is_int(&ts[1]),
        Type::Bool => is_bool(&ts[0]) && is_bool(&ts[1]),
        _ => is_float(&ts[0]) && is_float(&ts[1]),
    };
    if ok {
        assert(ts@ =~= seq![a, a]);
    } else {
        assert(ts@[0] != a || ts@[1] != a);
        assert(seq![a, a][0] == a && seq![a, a][1] == a);
    }
    ok
}

/// Whether the types are exactly `t`.
fn single(ts: &Vec<Type>, t: &Type) -> (r: bool)
    ensures
        r == (ts@ == seq![*t]),
{
    if ts.len() != 1 {
        assert(ts@.len() != seq![*t].len());
        return false;
    }
    let ok = type_eq(&ts[0], t);
    if ok {
        assert(ts@ =~= seq![*t]);
    } else {
        assert(seq![*t][0] == *t);
    }
    ok
}

fn exec_value_ok(
    fs: &Vec<BBFunction>,
    op: ValueOp,
    ty: &Type,
    ts: &Vec<Type>,
    funcs: &Vec<String>,
    labels: &Vec<String>,
) -> (r: bool)
    ensures
        r == value_ok(fs@, op, *ty, ts@, funcs@, labels@),
{
    if labels.len() != 0 {
        return false;
    }
    if op != ValueOp::Call && funcs.len() != 0 {
        return false;
    }
    match op {
        ValueOp::Add | ValueOp::Sub | ValueOp::Mul | ValueOp::Div => both(ts, Type::Int) && is_int(ty),
        ValueOp::Eq | ValueOp::Lt | ValueOp::Gt | ValueOp::Le | ValueOp::Ge => both(ts, Type::Int)
            && is_bool(ty),
        ValueOp::Not => single(ts, &Type::Bool) && is_bool(ty),
        ValueOp::And | ValueOp::Or => both(ts, Type::Bool) && is_bool(ty),
        ValueOp::Fadd | ValueOp::Fsub | ValueOp::Fmul | ValueOp::Fdiv => both(ts, Type::Float)
            && is_float(ty),
        ValueOp::Feq | ValueOp::Flt | ValueOp::Fgt | ValueOp::Fle | ValueOp::Fge => both(
            ts,
            Type::Float,
        ) && is_bool(ty),
        ValueOp::Id => single(ts, ty),
        ValueOp::Call => exec_call_ok(fs, ts, funcs, Some(ty), true),
        ValueOp::Alloc => single(ts, &Type::Int) && is_ptr(ty),
        ValueOp::Load => {
            if ts.len() != 1 {
                assert(ts@.len() != 1);
                return false;
            }
            let ok = match &ts[0] {
                Type::Pointer(inner) => type_eq(inner, ty),
                _ => false,
            };
            if ok {
                assert(ts@ =~= seq![Type::Pointer(Box::new(*ty))]);
            } else {
                assert(seq![Type::Pointer(Box::new(*ty))][0] == Type::Pointer(Box::new(*ty)));
            }
            ok
        },
        ValueOp::PtrAdd => {
            if ts.len() != 2 {
                assert(ts@.len() != 2);
                return false;
            }
            let ok = type_eq(&ts[0], ty) && is_int(&ts[1]) && is_ptr(ty);
            if ok {
                assert(ts@ =~= seq![*ty, Type::Int]);
            } else {
                assert(seq![*ty, Type::Int][0] == *ty && seq![*ty, Type::Int][1] == Type::Int);
            }
            ok
        },
    }
}

fn exec_effect_ok(
    fs: &Vec<BBFunction>,
    ret: &Option<Type>,
    op: EffectOp,
    ts: &Vec<Type>,
    funcs: &Vec<String>,
    labels: &Vec<String>,
) -> (r: bool)
    ensures
        r == effect_ok(fs@, *ret, op, ts@, funcs@, labels@),
{
    if op != EffectOp::Call && funcs.len() != 0 {
        return false;
    }
    if op != EffectOp::Jmp && op != EffectOp::Br && labels.len() != 0 {
        return false;
    }
    match op {
        EffectOp::Jmp => ts.len() == 0 && labels.len() == 1,
        EffectOp::Br => single(ts, &Type::Bool) && labels.len() == 2,
        EffectOp::Call => exec_call_ok(fs, ts, funcs, None, false),
        EffectOp::Ret => match ret {
            None => ts.len() == 0,
            Some(t) => single(ts, t),
        },
        EffectOp::Print => true,
        EffectOp::Nop => ts.len() == 0,
        EffectOp::Store => {
            if ts.len() != 2 {
                return false;
            }
            match &ts[0] {
                Type::Pointer(inner) => type_eq(inner, &ts[1]),
                _ => false,
            }
        },
        EffectOp::Free => ts.len() == 1 && is_ptr(&ts[0]),
    }
}

fn literal_fits(ty: &Type, v: &Literal) -> (r: bool)
    ensures
        r == literal_ok(*ty, *v),
{
    match v {
        Literal::Int(_) => is_int(ty),
        Literal::Bool(_) => is_bool(ty),
        Literal::Float(_) => is_float(ty),
    }
}

fn check_instr(fs: &Vec<BBFunction>, ret: &Option<Type>, env: &mut Env, ins: &Instruction) -> (r: Result<(), TypeErrorKind>)
    ensures
        match instr_step(fs@, *ret, old(env)@, *ins) {
            Ok(e) => r is Ok && final(env)@ == e,
            Err(k) => r == Err::<(), TypeErrorKind>(k),
        },
{
    match ins {
        Instruction::Constant { dest, ty, value } => {
            if literal_fits(ty, value) {
                env_define(env, dest, ty)
            } else {
                Err(TypeErrorKind::Mismatch)
            }
        },
        Instruction::Value { dest, ty, op, args, funcs, labels } => match exec_arg_types(env, args) {
            None => Err(TypeErrorKind::UndefinedVariable),
            Some(ts) => {
                if exec_value_ok(fs, *op, ty, &ts, funcs, labels) {
                    env_define(env, dest, ty)
                } else {
                    Err(TypeErrorKind::Mismatch)
                }
            },
        },
        Instruction::Effect { op, args, funcs, labels } => match exec_arg_types(env, args) {
            None => Err(TypeErrorKind::UndefinedVariable),
            Some(ts) => {
                if exec_effect_ok(fs, ret, *op, &ts, funcs, labels) {
                    Ok(())
                } else {
                    Err(TypeErrorKind::Mismatch)
                }
            },
        },
    }
}

proof fn lemma_check_seq_prefix(
    fs: Seq<BBFunction>,
    ret: Option<Type>,
    env: Seq<(String, Type)>,
    t: Seq<Instruction>,
    n: int,
)
    requires
        0 <= n <= t.len(),
        check_seq(fs, ret, env, t.subrange(0, n)) is Err,
    ensures
        check_seq(fs, ret, env, t) is Err,
    decreases t.len() - n,
{
    if n < t.len() {
        assert(t.subrange(0, n + 1).drop_last() =~= t.subrange(0, n));
        lemma_check_seq_prefix(fs, ret, env, t, n + 1);
    } else {
        assert(t.subrange(0, n) =~= t);
    }
}

proof fn lemma_param_env_prefix(args: Seq<Argument>, n: int)
    requires
        0 <= n <= args.len(),
        param_env(args.subrange(0, n)) is Err,
    ensures
        param_env(args) is Err,
    decreases args.len() - n,
{
    if n < args.len() {
        assert(args.subrange(0, n + 1).drop_last() =~= args.subrange(0, n));
        lemma_param_env_prefix(args, n + 1);
    } else {
        assert(args.subrange(0, n) =~= args);
    }
}

proof fn lemma_flatten_split(a: Seq<BasicBlock>, c: Seq<BasicBlock>)
    ensures
        flatten(a + c) == flatten(a) + flatten(c),
    decreases c.len(),
{
    if c.len() == 0 {
        assert(a + c =~= a);
        assert(flatten(a) + flatten(c) =~= flatten(a));
    } else {
        lemma_flatten_split(a, c.drop_last());
        assert((a + c).drop_last() =~= a + c.drop_last());
        assert(flatten(a) + flatten(c) =~= flatten(a) + flatten(c.drop_last()) + c.last().instrs@);
    }
}

/// The instructions before position `x` of block `b`, in block order, are a
/// prefix of the function's instructions.
proof fn lemma_flatten_prefix(blocks: Seq<BasicBlock>, b: int, x: int)
    requires
        0 <= b < blocks.len(),
        0 <= x <= blocks[b].instrs@.len(),
    ensures
        ({
            let p = flatten(blocks.subrange(0, b)) + blocks[b].instrs@.subrange(0, x);
            &&& p.len() <= flatten(blocks).len()
            &&& flatten(blocks).subrange(0, p.len() as int) == p
        }),
{
    let pre = blocks.subrange(0, b);
    let post = blocks.subrange(b + 1, blocks.len() as int);
    assert(blocks =~= pre + (seq![blocks[b]] + post));
    lemma_flatten_split(pre, seq![blocks[b]] + post);
    lemma_flatten_split(seq![blocks[b]], post);
    lemma_flatten_split(Seq::empty(), seq![blocks[b]]);
    assert(seq![blocks[b]].drop_last() =~= Seq::<BasicBlock>::empty());
    let whole = flatten(blocks);
    let p = flatten(pre) + blocks[b].instrs@.subrange(0, x);
    assert(whole =~= flatten(pre) + (blocks[b].instrs@ + flatten(post)));
    assert(whole.subrange(0, p.len() as int) =~= p);
}

fn locate(kind: TypeErrorKind, function: usize, block: Option<usize>, instr: Option<usize>) -> (r: TypeError)
    ensures
        r == (TypeError { kind, function: Some(function), block, instr }),
{
    TypeError { kind, function: Some(function), block, instr }
}

/// Instruction `x` of block `b` is where the pass over `f` first fails,
/// with error `k`: everything before it checks, it does not.
pub open spec fn first_error_at(fs: Seq<BBFunction>, f: BBFunction, b: int, x: int, k: TypeErrorKind) -> bool {
    &&& 0 <= b < f.blocks@.len()
    &&& 0 <= x < f.blocks@[b].instrs@.len()
    &&& param_env(f.args@) is Ok
    &&& {
        let env0 = param_env(f.args@)->Ok_0;
        let pre = flatten(f.blocks@.subrange(0, b)) + f.blocks@[b].instrs@.subrange(0, x);
        &&& check_seq(fs, f.return_type, env0, pre) is Ok
        &&& check_seq(fs, f.return_type, env0, pre.push(f.blocks@[b].instrs@[x])) == Err::<
            Seq<(String, Type)>,
            TypeErrorKind,
        >(k)
    }
}

/// An error at an instruction names the function, the block and the
/// instruction where the pass first fails.
pub open spec fn error_located(fs: Seq<BBFunction>, e: TypeError) -> bool {
    match e.instr {
        Some(x) => e.function matches Some(fi) && e.block matches Some(b) && fi < fs.len()
            && first_error_at(fs, fs[fi as int], b as int, x as int, e.kind),
        None => match e.function {
            None => e.kind == TypeErrorKind::MissingMain,
            Some(fi) => fi < fs.len() && (e.kind == TypeErrorKind::DuplicateFunction || e.kind
                == TypeErrorKind::MainReturns || function_level_error(fs, fs[fi as int])),
        },
    }
}

/// The function fails outside its instructions: in its parameters, or by
/// declaring a result with an empty body while all its instructions check.
pub open spec fn function_level_error(fs: Seq<BBFunction>, f: BBFunction) -> bool {
    match param_env(f.args@) {
        Err(_) => true,
        Ok(e) => check_seq(fs, f.return_type, e, flatten(f.blocks@)) is Ok && f.return_type is Some
            && flatten(f.blocks@).len() == 0,
    }
}

/// Checks function `fi` of `fs`.
#[verifier::rlimit(60)]
fn check_function(fs: &Vec<BBFunction>, fi: usize) -> (r: Result<(), TypeError>)
    requires
        fi < fs@.len(),
    ensures
        r.is_ok() == function_typed(fs@, fs@[fi as int]),
        r matches Err(e) ==> e.function == Some(fi) && error_located(fs@, e),
{
    let f = &fs[fi];
    let mut env: Env = Vec::new();
    let mut a: usize = 0;
    while a < f.args.len()
        invariant
            fi < fs@.len(),
            *f == fs@[fi as int],
            a <= f.args@.len(),
            param_env(f.args@.subrange(0, a as int)) == Ok::<Seq<(String, Type)>, TypeErrorKind>(env@),
        decreases f.args.len() - a,
    {
        assert(f.args@.subrange(0, a + 1).drop_last() =~= f.args@.subrange(0, a as int));
        match env_define(&mut env, &f.args[a].name, &f.args[a].ty) {
            Ok(()) => {},
            Err(k) => {
                proof {
                    assert(f.args@.subrange(0, a + 1).last() == f.args@[a as int]);
                    assert(param_env(f.args@.subrange(0, a + 1)) is Err);
                    lemma_param_env_prefix(f.args@, a + 1);
                    assert(param_env(fs@[fi as int].args@) is Err);
                    assert(!function_typed(fs@, fs@[fi as int]));
                }
                return Err(locate(k, fi, None, None));
            },
        }
        a = a + 1;
    }
    assert(f.args@.subrange(0, f.args@.len() as int) =~= f.args@);
    let ghost env0 = env@;
    let ghost whole = flatten(f.blocks@);
    let mut b: usize = 0;
    let mut nonempty = false;
    assert(f.blocks@.subrange(0, 0) =~= Seq::<BasicBlock>::empty());
    while b < f.blocks.len()
        invariant
            fi < fs@.len(),
            *f == fs@[fi as int],
            b <= f.blocks@.len(),
            param_env(f.args@) == Ok::<Seq<(String, Type)>, TypeErrorKind>(env0),
            whole == flatten(f.blocks@),
            check_seq(fs@, f.return_type, env0, flatten(f.blocks@.subrange(0, b as int)))
                == Ok::<Seq<(String, Type)>, TypeErrorKind>(env@),
            nonempty == (flatten(f.blocks@.subrange(0, b as int)).len() > 0),
        decreases f.blocks.len() - b,
    {
        let instrs = &f.blocks[b].instrs;
        let ghost pre = flatten(f.blocks@.subrange(0, b as int));
        let mut x: usize = 0;
        assert(pre + instrs@.subrange(0, 0) =~= pre);
        while x < instrs.len()
            invariant
                fi < fs@.len(),
                *f == fs@[fi as int],
                b < f.blocks@.len(),
                param_env(f.args@) == Ok::<Seq<(String, Type)>, TypeErrorKind>(env0),
                x <= instrs@.len(),
                instrs@ == f.blocks@[b as int].instrs@,
                pre == flatten(f.blocks@.subrange(0, b as int)),
                whole == flatten(f.blocks@),
                check_seq(fs@, f.return_type, env0, pre + instrs@.subrange(0, x as int))
                    == Ok::<Seq<(String, Type)>, TypeErrorKind>(env@),
            decreases instrs.len() - x,
        {
            let ghost before = pre + instrs@.subrange(0, x as int);
            assert((pre + instrs@.subrange(0, x + 1)).drop_last() =~= before);
            assert((pre + instrs@.subrange(0, x + 1)).last() == instrs@[x as int]);
            let ghost env_before = env@;
            match check_instr(fs, &f.return_type, &mut env, &instrs[x]) {
                Ok(()) => {},
                Err(k) => {
                    proof {
                        lemma_flatten_prefix(f.blocks@, b as int, x + 1);
                        let p = pre + instrs@.subrange(0, x + 1);
                        assert(instr_step(fs@, f.return_type, env_before, instrs@[x as int]) is Err);
                        assert(check_seq(fs@, f.return_type, env0, p) is Err);
                        lemma_check_seq_prefix(fs@, f.return_type, env0, whole, p.len() as int);
                        assert(!function_typed(fs@, fs@[fi as int]));
                        assert(p =~= before.push(instrs@[x as int]));
                        assert(check_seq(fs@, f.return_type, env0, before.push(instrs@[x as int])) == Err::<Seq<(String, Type)>, TypeErrorKind>(k));
                        assert(first_error_at(fs@, fs@[fi as int], b as int, x as int, k));
                    }
                    return Err(locate(k, fi, Some(b), Some(x)));
                },
            }
            x = x + 1;
        }
        assert(f.blocks@.subrange(0, b + 1).drop_last() =~= f.blocks@.subrange(0, b as int));
        assert(instrs@.subrange(0, instrs@.len() as int) =~= instrs@);
        if instrs.len() > 0 {
            nonempty = true;
        }
        b = b + 1;
    }
    assert(f.blocks@.subrange(0, f.blocks@.len() as int) =~= f.blocks@);
    if f.return_type.is_some() && !nonempty {
        return Err(locate(TypeErrorKind::Mismatch, fi, None, None));
    }
    Ok(())
}

/// Checks a whole program. It is accepted exactly when it is well typed:
/// function names are unique, `main` exists and declares no result, and each
/// function passes the single in-order pass over its blocks.
pub fn type_check(prog: &BBProgram) -> (r: Result<(), TypeError>)
    ensures
        r.is_ok() == program_typed(prog.functions@),
        r matches Err(e) ==> error_located(prog.functions@, e),
{
    let fs = &prog.functions;
    let mut i: usize = 0;
    while i < fs.len()
        invariant
            fs@ == prog.functions@,
            i <= fs@.len(),
            forall|p: int, q: int| 0 <= p < q < fs@.len() && p < i ==> #[trigger] fs@[p].name@ != #[trigger] fs@[q].name@,
        decreases fs.len() - i,
    {
        let mut j: usize = i + 1;
        while j < fs.len()
            invariant
                fs@ == prog.functions@,
                i < j <= fs@.len(),
                forall|p: int, q: int| 0 <= p < q < fs@.len() && p < i ==> #[trigger] fs@[p].name@ != #[trigger] fs@[q].name@,
                forall|q: int| i < q < j ==> fs@[i as int].name@ != #[trigger] fs@[q].name@,
            decreases fs.len() - j,
        {
            if fs[i].name.eq(&fs[j].name) {
                assert(fs@[i as int].name@ == fs@[j as int].name@);
                assert(!names_unique(fs@));
                return Err(TypeError { kind: TypeErrorKind::DuplicateFunction, function: Some(j), block: None, instr: None });
            }
            j = j + 1;
        }
        i = i + 1;
    }
    let main_name = String::from_str("main");
    match function_index(fs, &main_name) {
        None => {
            return Err(TypeError { kind: TypeErrorKind::MissingMain, function: None, block: None, instr: None });
        },
        Some(m) => {
            if fs[m].return_type.is_some() {
                return Err(TypeError { kind: TypeErrorKind::MainReturns, function: Some(m), block: None, instr: None });
            }
        },
    }
    let mut k: usize = 0;
    while k < fs.len()
        invariant
            fs@ == prog.functions@,
            k <= fs@.len(),
            forall|q: int| 0 <= q < k ==> #[trigger] function_typed(fs@, fs@[q]),
        decreases fs.len() - k,
    {
        match check_function(fs, k) {
            Ok(()) => {},
            Err(e) => {
                assert(!function_typed(fs@, fs@[k as int]));
                return Err(e);
            },
        }
        k = k + 1;
    }
    Ok(())
}

/// The instruction defines the name `n`.
pub open spec fn instr_defines(ins: Instruction, n: Seq<char>) -> bool {
    match ins {
        Instruction::Constant { dest, .. } => dest@ == n,
        Instruction::Value { dest, .. } => dest@ == n,
        Instruction::Effect { .. } => false,
    }
}

/// The instruction reads the name `n`.
pub open spec fn instr_uses(ins: Instruction, n: Seq<char>) -> bool {
    match ins {
        Instruction::Constant { .. } => false,
        Instruction::Value { args, .. } => exists|k: int| 0 <= k < args@.len() && #[trigger] args@[k]@ == n,
        Instruction::Effect { args, .. } => exists|k: int| 0 <= k < args@.len() && #[trigger] args@[k]@ == n,
    }
}

proof fn lemma_lookup_push(env: Seq<(String, Type)>, d: String, t: Type, n: Seq<char>)
    ensures
        lookup(env.push((d, t)), n) is Some ==> lookup(env, n) is Some || d@ == n,
{
    assert(env.push((d, t)).drop_last() =~= env);
}

proof fn lemma_define_names(env: Seq<(String, Type)>, d: String, t: Type, n: Seq<char>)
    requires
        define(env, d, t) is Ok,
        lookup(define(env, d, t)->Ok_0, n) is Some,
    ensures
        lookup(env, n) is Some || d@ == n,
{
    lemma_lookup_push(env, d, t, n);
}

proof fn lemma_arg_types_defined(env: Seq<(String, Type)>, args: Seq<String>, k: int)
    requires
        arg_types(env, args) is Some,
        0 <= k < args.len(),
    ensures
        lookup(env, args[k]@) is Some,
    decreases args.len(),
{
    if k < args.len() - 1 {
        assert(args.drop_last()[k] == args[k]);
        lemma_arg_types_defined(env, args.drop_last(), k);
    }
}

/// What a run of checked instructions has recorded, the start recorded or
/// one of the instructions defined.
proof fn lemma_check_seq_names(
    fs: Seq<BBFunction>,
    ret: Option<Type>,
    env: Seq<(String, Type)>,
    s: Seq<Instruction>,
    n: Seq<char>,
)
    requires
        check_seq(fs, ret, env, s) is Ok,
        lookup(check_seq(fs, ret, env, s)->Ok_0, n) is Some,
    ensures
        lookup(env, n) is Some || exists|j: int| 0 <= j < s.len() && #[trigger] instr_defines(s[j], n),
    decreases s.len(),
{
    if s.len() > 0 {
        let e = check_seq(fs, ret, env, s.drop_last())->Ok_0;
        let ins = s.last();
        match ins {
            Instruction::Constant { dest, ty, value } => {
                lemma_define_names(e, dest, ty, n);
            },
            Instruction::Value { dest, ty, .. } => {
                lemma_define_names(e, dest, ty, n);
            },
            Instruction::Effect { .. } => {},
        }
        if lookup(e, n) is Some {
            lemma_check_seq_names(fs, ret, env, s.drop_last(), n);
            if exists|j: int| 0 <= j < s.drop_last().len() && #[trigger] instr_defines(s.drop_last()[j], n) {
                let j = choose|j: int| 0 <= j < s.drop_last().len() && #[trigger] instr_defines(s.drop_last()[j], n);
                assert(s[j] == s.drop_last()[j]);
            }
        } else {
            assert(instr_defines(s[s.len() - 1], n));
        }
    }
}

proof fn lemma_param_env_names(args: Seq<Argument>, n: Seq<char>)
    requires
        param_env(args) is Ok,
        lookup(param_env(args)->Ok_0, n) is Some,
    ensures
        exists|a: int| 0 <= a < args.len() && #[trigger] args[a].name@ == n,
    decreases args.len(),
{
    if args.len() > 0 {
        let e = param_env(args.drop_last())->Ok_0;
        lemma_define_names(e, args.last().name, args.last().ty, n);
        if lookup(e, n) is Some {
            lemma_param_env_names(args.drop_last(), n);
            let a = choose|a: int| 0 <= a < args.drop_last().len() && #[trigger] args.drop_last()[a].name@ == n;
            assert(args[a] == args.drop_last()[a]);
        } else {
            assert(args[args.len() - 1].name@ == n);
        }
    }
}

/// A name read by an instruction that neither a parameter of its function
/// nor any instruction before it, in block order, defines makes the whole
/// program ill typed.
pub proof fn lemma_undefined_use_rejected(fs: Seq<BBFunction>, fi: int, x: int, n: Seq<char>)
    requires
        0 <= fi < fs.len(),
        0 <= x < flatten(fs[fi].blocks@).len(),
        instr_uses(flatten(fs[fi].blocks@)[x], n),
        forall|a: int| 0 <= a < fs[fi].args@.len() ==> #[trigger] fs[fi].args@[a].name@ != n,
        forall|j: int| 0 <= j < x ==> !#[trigger] instr_defines(flatten(fs[fi].blocks@)[j], n),
    ensures
        !program_typed(fs),
{
    let f = fs[fi];
    let whole = flatten(f.blocks@);
    if program_typed(fs) {
        assert(function_typed(fs, fs[fi]));
        let env0 = param_env(f.args@)->Ok_0;
        let pre = whole.subrange(0, x);
        let pre1 = whole.subrange(0, x + 1);
        if check_seq(fs, f.return_type, env0, pre1) is Err {
            lemma_check_seq_prefix(fs, f.return_type, env0, whole, x + 1);
        }
        assert(pre1.drop_last() =~= pre);
        if check_seq(fs, f.return_type, env0, pre) is Err {
            assert(check_seq(fs, f.return_type, env0, pre1) is Err);
        }
        let e = check_seq(fs, f.return_type, env0, pre)->Ok_0;
        let ins = whole[x];
        assert(pre1.last() == ins);
        assert(instr_step(fs, f.return_type, e, ins) is Ok);
        match ins {
            Instruction::Value { args, .. } => {
                let k = choose|k: int| 0 <= k < args@.len() && #[trigger] args@[k]@ == n;
                lemma_arg_types_defined(e, args@, k);
            },
            Instruction::Effect { args, .. } => {
                let k = choose|k: int| 0 <= k < args@.len() && #[trigger] args@[k]@ == n;
                lemma_arg_types_defined(e, args@, k);
            },
            Instruction::Constant { .. } => {},
        }
        lemma_check_seq_names(fs, f.return_type, env0, pre, n);
        if lookup(env0, n) is Some {
            lemma_param_env_names(f.args@, n);
        } else {
            let j = choose|j: int| 0 <= j < pre.len() && #[trigger] instr_defines(pre[j], n);
            assert(pre[j] == whole[j]);
        }
    }
}

} // verus!
