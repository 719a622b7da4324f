use brilirs::basic_block::{build_function, build_program, BuildError};
use brilirs::check::{type_check, TypeErrorKind};
use brilirs::heap::Heap;
use brilirs::interp::{execute_main, int_div, parse_int, ptr_add};
use brilirs::ir::{Argument, Code, EffectOp, Function, Instruction, Literal, Program, Type, ValueOp};
use brilirs::value::{Pointer, RuntimeError, Value};
use brilirs::{run_program, RunError};

fn s(x: &str) -> String {
    x.to_string()
}

fn strs(xs: &[&str]) -> Vec<String> {
    xs.iter().map(|x| x.to_string()).collect()
}

fn konst(dest: &str, ty: Type, value: Literal) -> Code {
    Code::Instr(Instruction::Constant { dest: s(dest), ty, value })
}

fn iconst(dest: &str, v: i64) -> Code {
    konst(dest, Type::Int, Literal::Int(v))
}

fn val(dest: &str, ty: Type, op: ValueOp, args: &[&str], funcs: &[&str]) -> Code {
    Code::Instr(Instruction::Value {
        dest: s(dest),
        ty,
        op,
        args: strs(args),
        funcs: strs(funcs),
        labels: vec![],
    })
}

fn eff(op: EffectOp, args: &[&str], funcs: &[&str], labels: &[&str]) -> Code {
    Code::Instr(Instruction::Effect { op, args: strs(args), funcs: strs(funcs), labels: strs(labels) })
}

fn label(l: &str) -> Code {
    Code::Label(s(l))
}

fn func(name: &str, args: Vec<(&str, Type)>, ret: Option<Type>, instrs: Vec<Code>) -> Function {
    Function {
        name: s(name),
        args: args.into_iter().map(|(n, ty)| Argument { name: s(n), ty }).collect(),
        return_type: ret,
        instrs,
    }
}

fn run(fs: Vec<Function>, args: &[&str], profiling: bool) -> (String, Result<Option<u64>, RunError>) {
    let r = run_program(Program { functions: fs }, &strs(args), profiling, false, u64::MAX);
    (String::from_utf8(r.output).unwrap(), r.result)
}

fn add_program() -> Vec<Function> {
    vec![func(
        "main",
        vec![],
        None,
        vec![
            iconst("a", 3),
            iconst("b", 4),
            val("c", Type::Int, ValueOp::Add, &["a", "b"], &[]),
            eff(EffectOp::Print, &["c"], &[], &[]),
            eff(EffectOp::Ret, &[], &[], &[]),
        ],
    )]
}

fn sum_program() -> Vec<Function> {
    vec![
        func(
            "main",
            vec![],
            None,
            vec![
                iconst("n", 5),
                val("r", Type::Int, ValueOp::Call, &["n"], &["sum"]),
                eff(EffectOp::Print, &["r"], &[], &[]),
            ],
        ),
        func(
            "sum",
            vec![("n", Type::Int)],
            Some(Type::Int),
            vec![
                iconst("zero", 0),
                val("done", Type::Bool, ValueOp::Eq, &["n", "zero"], &[]),
                eff(EffectOp::Br, &["done"], &[], &["base", "rec"]),
                label("base"),
                eff(EffectOp::Ret, &["zero"], &[], &[]),
                label("rec"),
                iconst("one", 1),
                val("m", Type::Int, ValueOp::Sub, &["n", "one"], &[]),
                val("s", Type::Int, ValueOp::Call, &["m"], &["sum"]),
                val("t", Type::Int, ValueOp::Add, &["n", "s"], &[]),
                eff(EffectOp::Ret, &["t"], &[], &[]),
            ],
        ),
    ]
}

#[test]
fn add_prints_seven_and_counts_five() {
    let (out, res) = run(add_program(), &[], true);
    assert_eq!(out, "7\n");
    assert_eq!(res.unwrap(), Some(5));
    let (out, res) = run(add_program(), &[], false);
    assert_eq!(out, "7\n");
    assert_eq!(res.unwrap(), None);
}

#[test]
fn branch_on_true_takes_first_label() {
    let prog = vec![func(
        "main",
        vec![],
        None,
        vec![
            konst("c", Type::Bool, Literal::Bool(true)),
            eff(EffectOp::Br, &["c"], &[], &["yes", "no"]),
            label("yes"),
            konst("y", Type::Bool, Literal::Bool(true)),
            eff(EffectOp::Print, &["y"], &[], &[]),
            eff(EffectOp::Ret, &[], &[], &[]),
            label("no"),
            konst("n", Type::Bool, Literal::Bool(false)),
            eff(EffectOp::Print, &["n"], &[], &[]),
        ],
    )];
    let (out, res) = run(prog, &[], false);
    assert!(res.is_ok());
    assert_eq!(out, "true\n");
}

#[test]
fn recursive_sum_of_five_is_fifteen() {
    let (out, res) = run(sum_program(), &[], false);
    assert!(res.is_ok());
    assert_eq!(out, "15\n");
}

#[test]
fn recursion_past_the_depth_limit_is_stack_overflow() {
    let bb = build_program(Program { functions: sum_program() }).unwrap();
    assert!(type_check(&bb).is_ok());
    let r = execute_main(&bb, &vec![], false, 3, u64::MAX);
    assert_eq!(r.result.unwrap_err(), RuntimeError::StackOverflow);
    let r = execute_main(&bb, &vec![], false, 7, u64::MAX);
    assert_eq!(String::from_utf8(r.output).unwrap(), "15\n");
}

#[test]
fn call_with_wrong_argument_types_is_a_type_error() {
    let prog = vec![
        func(
            "main",
            vec![],
            None,
            vec![
                konst("b", Type::Bool, Literal::Bool(true)),
                eff(EffectOp::Call, &["b"], &["f"], &[]),
            ],
        ),
        func("f", vec![("x", Type::Int), ("y", Type::Int)], None, vec![]),
    ];
    let bb = build_program(Program { functions: prog }).unwrap();
    let e = type_check(&bb).unwrap_err();
    assert_eq!(e.kind, TypeErrorKind::Mismatch);
    assert_eq!(e.function, Some(0));
    assert_eq!(e.block, Some(0));
    assert_eq!(e.instr, Some(1));
}

#[test]
fn use_after_free_through_moved_pointer() {
    let mut h = Heap::new();
    let p = h.allocate(4, Type::Int).unwrap();
    assert!(h.store(&p, Value::Int(1)).is_ok());
    assert!(h.free(&p).is_ok());
    assert_eq!(h.load(&p).unwrap_err(), RuntimeError::UseAfterFree);
    let q = ptr_add(&p, 2);
    assert_eq!(h.load(&q).unwrap_err(), RuntimeError::UseAfterFree);
    assert_eq!(h.store(&q, Value::Int(3)).unwrap_err(), RuntimeError::UseAfterFree);
    assert_eq!(h.free(&p).unwrap_err(), RuntimeError::DoubleFree);
}

#[test]
fn program_alloc_free_load_fails() {
    let ptr = || Type::Pointer(Box::new(Type::Int));
    let prog = vec![func(
        "main",
        vec![],
        None,
        vec![
            iconst("n", 2),
            val("p", ptr(), ValueOp::Alloc, &["n"], &[]),
            eff(EffectOp::Free, &["p"], &[], &[]),
            iconst("one", 1),
            val("q", ptr(), ValueOp::PtrAdd, &["p", "one"], &[]),
            val("v", Type::Int, ValueOp::Load, &["q"], &[]),
        ],
    )];
    let (_, res) = run(prog, &[], false);
    assert!(matches!(res, Err(RunError::Runtime(RuntimeError::UseAfterFree))));
}

#[test]
fn heap_bounds_and_sizes() {
    let mut h = Heap::new();
    assert_eq!(h.allocate(-1, Type::Int).unwrap_err(), RuntimeError::NegativeAllocation);
    let p = h.allocate(2, Type::Bool).unwrap();
    assert_eq!(h.load(&p).unwrap_err(), RuntimeError::UninitializedLoad);
    assert!(h.store(&ptr_add(&p, 1), Value::Bool(true)).is_ok());
    assert!(matches!(h.load(&ptr_add(&p, 1)), Ok(Value::Bool(true))));
    assert_eq!(h.load(&ptr_add(&p, 2)).unwrap_err(), RuntimeError::OutOfBounds);
    assert_eq!(h.load(&ptr_add(&p, -1)).unwrap_err(), RuntimeError::OutOfBounds);
    let z = h.allocate(0, Type::Int).unwrap();
    assert_eq!(z.base, 1);
    assert_eq!(h.load(&z).unwrap_err(), RuntimeError::OutOfBounds);
}

#[test]
fn runs_twice_alike() {
    let a = run(sum_program(), &[], true);
    let b = run(sum_program(), &[], true);
    assert_eq!(a.0, b.0);
    assert_eq!(a.1.unwrap(), b.1.unwrap());
}

#[test]
fn blocks_keep_instructions_in_order() {
    let f = sum_program().pop().unwrap();
    let bf = build_function(f).unwrap();
    assert_eq!(bf.blocks.len(), 3);
    let lens: Vec<usize> = bf.blocks.iter().map(|b| b.instrs.len()).collect();
    assert_eq!(lens, vec![3, 1, 5]);
    assert_eq!(bf.blocks[0].exit, vec![1, 2]);
    assert!(bf.blocks[1].exit.is_empty());
    assert!(bf.blocks[2].exit.is_empty());
    assert_eq!(bf.blocks[1].label.as_deref(), Some("base"));
}

#[test]
fn fall_through_and_empty_body() {
    let f = func("g", vec![], None, vec![iconst("a", 1), label("next"), iconst("b", 2)]);
    let bf = build_function(f).unwrap();
    assert_eq!(bf.blocks.len(), 2);
    assert_eq!(bf.blocks[0].exit, vec![1]);
    assert!(bf.blocks[1].exit.is_empty());
    let e = build_function(func("h", vec![], None, vec![])).unwrap();
    assert_eq!(e.blocks.len(), 1);
    assert!(e.blocks[0].instrs.is_empty());
    assert!(e.blocks[0].exit.is_empty());
}

#[test]
fn undefined_label_is_a_build_error() {
    let f = func("main", vec![], None, vec![eff(EffectOp::Jmp, &[], &[], &["nowhere"])]);
    match build_function(f) {
        Err(BuildError::UndefinedLabel { function, label }) => {
            assert_eq!(function, "main");
            assert_eq!(label, "nowhere");
        }
        Ok(_) => panic!("built"),
    }
    let (_, res) = run(vec![func("main", vec![], None, vec![eff(EffectOp::Jmp, &[], &[], &["x"])])], &[], false);
    assert!(matches!(res, Err(RunError::Build(_))));
}

#[test]
fn undefined_use_is_rejected_defined_use_accepted() {
    let bad = vec![func("main", vec![], None, vec![eff(EffectOp::Print, &["x"], &[], &[])])];
    let bb = build_program(Program { functions: bad }).unwrap();
    assert_eq!(type_check(&bb).unwrap_err().kind, TypeErrorKind::UndefinedVariable);
    let bb = build_program(Program { functions: add_program() }).unwrap();
    assert!(type_check(&bb).is_ok());
    assert!(type_check(&bb).is_ok());
}

#[test]
fn type_errors_by_kind() {
    let redef = vec![func("main", vec![], None, vec![iconst("a", 1), konst("a", Type::Bool, Literal::Bool(true))])];
    let bb = build_program(Program { functions: redef }).unwrap();
    assert_eq!(type_check(&bb).unwrap_err().kind, TypeErrorKind::Redefinition);
    let nomain = vec![func("f", vec![], None, vec![])];
    let bb = build_program(Program { functions: nomain }).unwrap();
    assert_eq!(type_check(&bb).unwrap_err().kind, TypeErrorKind::MissingMain);
    let mainret = vec![func("main", vec![], Some(Type::Int), vec![])];
    let bb = build_program(Program { functions: mainret }).unwrap();
    assert_eq!(type_check(&bb).unwrap_err().kind, TypeErrorKind::MainReturns);
    let dup = vec![func("main", vec![], None, vec![]), func("main", vec![], None, vec![])];
    let bb = build_program(Program { functions: dup }).unwrap();
    assert_eq!(type_check(&bb).unwrap_err().kind, TypeErrorKind::DuplicateFunction);
    let badret = vec![
        func("main", vec![], None, vec![]),
        func("f", vec![], Some(Type::Int), vec![eff(EffectOp::Ret, &[], &[], &[])]),
    ];
    let bb = build_program(Program { functions: badret }).unwrap();
    assert_eq!(type_check(&bb).unwrap_err().kind, TypeErrorKind::Mismatch);
}

#[test]
fn division_by_zero_and_rounding() {
    assert_eq!(int_div(7, 2).unwrap(), 3);
    assert_eq!(int_div(-7, 2).unwrap(), -3);
    assert_eq!(int_div(i64::MIN, -1).unwrap(), i64::MIN);
    assert_eq!(int_div(1, 0).unwrap_err(), RuntimeError::DivisionByZero);
    let prog = vec![func(
        "main",
        vec![],
        None,
        vec![iconst("a", 1), iconst("z", 0), val("c", Type::Int, ValueOp::Div, &["a", "z"], &[])],
    )];
    let (_, res) = run(prog, &[], false);
    assert!(matches!(res, Err(RunError::Runtime(RuntimeError::DivisionByZero))));
}

#[test]
fn printing_a_pointer_fails() {
    let ptr = Type::Pointer(Box::new(Type::Int));
    let prog = vec![func(
        "main",
        vec![],
        None,
        vec![iconst("n", 1), val("p", ptr, ValueOp::Alloc, &["n"], &[]), eff(EffectOp::Print, &["p"], &[], &[])],
    )];
    let (_, res) = run(prog, &[], false);
    assert!(matches!(res, Err(RunError::Runtime(RuntimeError::PrintPointer))));
}

#[test]
fn main_arguments_are_parsed() {
    let prog = || {
        vec![func(
            "main",
            vec![("x", Type::Int), ("b", Type::Bool)],
            None,
            vec![eff(EffectOp::Print, &["x", "b"], &[], &[])],
        )]
    };
    let (out, res) = run(prog(), &["-42", "false"], false);
    assert!(res.is_ok());
    assert_eq!(out, "-42 false\n");
    let (_, res) = run(prog(), &["1"], false);
    assert!(matches!(res, Err(RunError::Runtime(RuntimeError::BadArgumentCount))));
    let (_, res) = run(prog(), &["1x", "true"], false);
    assert!(matches!(res, Err(RunError::Runtime(RuntimeError::BadArgument))));
    assert_eq!(parse_int("9223372036854775807"), Some(i64::MAX));
    assert_eq!(parse_int("-9223372036854775808"), Some(i64::MIN));
    assert_eq!(parse_int("9223372036854775808"), None);
    assert_eq!(parse_int("-"), None);
    assert_eq!(parse_int(""), None);
}

#[test]
fn check_only_runs_nothing() {
    let r = run_program(Program { functions: add_program() }, &vec![], true, true, u64::MAX);
    assert!(r.output.is_empty());
    assert_eq!(r.result.unwrap(), None);
}

#[test]
fn step_limit_stops_a_loop() {
    let prog = vec![func("main", vec![], None, vec![label("top"), eff(EffectOp::Jmp, &[], &[], &["top"])])];
    let r = run_program(Program { functions: prog }, &vec![], false, false, 100);
    assert!(matches!(r.result, Err(RunError::Runtime(RuntimeError::StepLimit))));
}

#[test]
fn pointer_arithmetic_keeps_base() {
    let p = Pointer { base: 3, ty: Type::Int, offset: 5 };
    let q = ptr_add(&p, -7);
    assert_eq!(q.base, 3);
    assert_eq!(q.offset, -2);
}

#[test]
fn runtime_errors_by_kind() {
    let mut h = Heap::new();
    assert_eq!(h.allocate(i64::MAX, Type::Int).unwrap_err(), RuntimeError::AllocationTooLarge);

    let nomain = build_program(Program { functions: vec![func("f", vec![], None, vec![])] }).unwrap();
    assert_eq!(execute_main(&nomain, &vec![], false, 10, 100).result.unwrap_err(), RuntimeError::UndefinedFunction);

    let unchecked = build_program(Program {
        functions: vec![func("main", vec![], None, vec![eff(EffectOp::Print, &["x"], &[], &[])])],
    })
    .unwrap();
    assert_eq!(execute_main(&unchecked, &vec![], false, 10, 100).result.unwrap_err(), RuntimeError::UndefinedVariable);

    let falls_off = vec![
        func("main", vec![], None, vec![val("v", Type::Int, ValueOp::Call, &[], &["f"])]),
        func("f", vec![], Some(Type::Int), vec![iconst("a", 1)]),
    ];
    let (_, res) = run(falls_off, &[], false);
    assert!(matches!(res, Err(RunError::Runtime(RuntimeError::MissingReturnValue))));

    let floats = vec![func(
        "main",
        vec![],
        None,
        vec![
            konst("a", Type::Float, Literal::Float(1.5f64.to_bits())),
            val("b", Type::Float, ValueOp::Fadd, &["a", "a"], &[]),
        ],
    )];
    let (_, res) = run(floats, &[], false);
    assert!(matches!(res, Err(RunError::Runtime(RuntimeError::FloatOperation))));
}

#[test]
fn wrapping_arithmetic_and_comparisons() {
    let prog = vec![func(
        "main",
        vec![],
        None,
        vec![
            iconst("big", i64::MAX),
            iconst("one", 1),
            val("w", Type::Int, ValueOp::Add, &["big", "one"], &[]),
            val("lt", Type::Bool, ValueOp::Lt, &["w", "one"], &[]),
            val("n", Type::Bool, ValueOp::Not, &["lt"], &[]),
            iconst("m3", -3),
            val("p", Type::Int, ValueOp::Mul, &["m3", "m3"], &[]),
            eff(EffectOp::Print, &["w", "lt", "n", "p"], &[], &[]),
        ],
    )];
    let (out, res) = run(prog, &[], true);
    assert_eq!(out, "-9223372036854775808 true false 9\n");
    assert_eq!(res.unwrap(), Some(8));
}

#[test]
fn undefined_call_label_is_a_build_error() {
    let prog = vec![
        func("main", vec![], None, vec![eff(EffectOp::Call, &[], &["f"], &["nowhere"])]),
        func("f", vec![], None, vec![]),
    ];
    let (out, res) = run(prog, &[], false);
    assert!(out.is_empty());
    assert!(matches!(res, Err(RunError::Build(_))));
}

#[test]
fn empty_body_with_result_type_is_a_type_error() {
    let prog = vec![func("main", vec![], None, vec![]), func("f", vec![], Some(Type::Int), vec![])];
    let bb = build_program(Program { functions: prog }).unwrap();
    let e = type_check(&bb).unwrap_err();
    assert_eq!(e.kind, TypeErrorKind::Mismatch);
    assert_eq!(e.function, Some(1));
}

#[test]
fn type_error_prints_nothing() {
    let prog = vec![
        func("f", vec![("a", Type::Int), ("b", Type::Int)], None, vec![eff(EffectOp::Ret, &[], &[], &[])]),
        func(
            "main",
            vec![],
            None,
            vec![
                iconst("one", 1),
                eff(EffectOp::Print, &["one"], &[], &[]),
                konst("x", Type::Bool, Literal::Bool(true)),
                eff(EffectOp::Call, &["x"], &["f"], &[]),
            ],
        ),
    ];
    let (out, res) = run(prog, &[], false);
    assert!(out.is_empty());
    match res {
        Err(RunError::Type(e)) => {
            assert_eq!(e.function, Some(1));
            assert_eq!(e.instr, Some(3));
        }
        _ => panic!("not a type error"),
    }
}

#[test]
fn freeing_returns_cells_to_the_live_count() {
    let mut h = Heap::new();
    let p = h.allocate(3, Type::Int).unwrap();
    let q = h.allocate(2, Type::Int).unwrap();
    assert_eq!(h.live, 5);
    assert!(h.free(&p).is_ok());
    assert_eq!(h.live, 2);
    assert!(h.free(&q).is_ok());
    assert_eq!(h.live, 0);
    let r = h.allocate(4, Type::Bool).unwrap();
    assert_eq!(r.base, 2);
    assert_eq!(h.live, 4);
}
