//! The execution core of a small, explicitly typed control-flow-graph
//! intermediate language: basic-block construction, static type checking
//! and interpretation with an explicit heap.
use vstd::prelude::*;

pub mod ir;
pub mod basic_block;
pub mod value;
pub mod heap;
pub mod check;
pub mod interp;

use crate::basic_block::{build_program, BuildError};
use crate::check::{arg_types, call_ok, check_seq, effect_ok, function_typed, instr_step, names_unique, param_env, value_ok, find_function, error_located, program_typed, type_check, TypeError};
use crate::interp::{main_values, call_spec, effect_spec, execute_main, initial_state, instr_spec, jump_spec, lemma_resolves_unique, lemma_step_keeps_frames, main_args_read, run_spec, state_frame_ok, step_spec, MachineState, Outcome, Execution};
use crate::value::Value;
use crate::basic_block::{exit_for, exits_ok, labels_of, block_shape, BBFunction, flatten, non_labels, partition_spec, terminators_last, BBProgram, BasicBlock};
use crate::ir::{EffectOp, Instruction, Program, Type};
use crate::value::RuntimeError;

verus! {

/// The most frames a run keeps on its call stack.
pub const MAX_CALL_DEPTH: usize = 4096;

/// What stopped a program, by stage.
#[derive(Debug)]
pub enum RunError {
    Build(BuildError),
    Type(TypeError),
    Runtime(RuntimeError),
}

/// What a run gave back: everything printed, and how it ended.
#[derive(Debug)]
pub struct RunResult {
    pub output: Vec<u8>,
    pub result: Result<Option<u64>, RunError>,
}

/// `bb` is what building `p` gives: the same functions, in order, each a
/// well-formed graph of the blocks that partitioning its flat body yields,
/// with their labels, and with terminators only last.
pub open spec fn built_from(p: Program, bb: BBProgram) -> bool {
    &&& bb.wf()
    &&& bb.functions@.len() == p.functions@.len()
    &&& forall|i: int|
        0 <= i < p.functions@.len() ==> {
            let bf = #[trigger] bb.functions@[i];
            let f = p.functions@[i];
            &&& bf.name == f.name
            &&& bf.args == f.args
            &&& bf.return_type == f.return_type
            &&& flatten(bf.blocks@) == non_labels(f.instrs@)
            &&& bf.blocks@.map_values(|b: BasicBlock| block_shape(b)) == partition_spec(f.instrs@)
            &&& terminators_last(bf.blocks@)
        }
}

/// How a run of the built program `bb` ends: a type error when it is ill
/// typed; in check-only mode, success; else what running `main` gives.
pub open spec fn outcome_of(bb: BBProgram, args: Seq<String>, profiling: bool, check_only: bool, max_steps: u64, r: RunResult) -> bool {
    if !program_typed(bb.functions@) {
        r.result is Err && r.result->Err_0 is Type && r.output@.len() == 0 && error_located(
            bb.functions@,
            r.result->Err_0->Type_0,
        )
    } else if check_only {
        r.result == Ok::<Option<u64>, RunError>(None) && r.output@.len() == 0
    } else if !main_args_read(bb.functions@, args) {
        r.result is Err && r.result->Err_0 is Runtime && r.output@.len() == 0
    } else {
        let run = run_spec(bb, initial_state(bb.functions@, args), MAX_CALL_DEPTH, max_steps as nat);
        &&& r.output@ == run.0
        &&& r.result == match run.1 {
            Ok(c) => Ok(
                if profiling {
                    Some(c as u64)
                } else {
                    None
                },
            ),
            Err(e) => Err::<Option<u64>, RunError>(RunError::Runtime(e)),
        }
    }
}

/// How a run of `p` ends, through the program that building it gives.
pub open spec fn run_outcome(p: Program, args: Seq<String>, profiling: bool, check_only: bool, max_steps: u64, r: RunResult) -> bool {
    exists|bb: BBProgram| #[trigger] built_from(p, bb) && outcome_of(bb, args, profiling, check_only, max_steps, r)
}

/// Builds the program's blocks, checks its types and, unless `check_only`,
/// runs `main` with `args`. Each stage stops the run at its first error.
/// Nothing runs, and nothing is printed, unless the program is well typed.
pub fn run_program(
    prog: Program,
    args: &Vec<String>,
    profiling: bool,
    check_only: bool,
    max_steps: u64,
) -> (r: RunResult)
    ensures
        (r.result is Ok || r.output@.len() > 0) ==> !(exists|i: int|
            #[trigger] crate::basic_block::function_undefined_target(prog, i)),
        (r.result matches Err(RunError::Build(_))) <==> exists|i: int|
            #[trigger] crate::basic_block::function_undefined_target(prog, i),
        r.result matches Err(RunError::Type(_)) ==> r.output@.len() == 0,
        check_only && r.result is Ok ==> r.result == Ok::<Option<u64>, RunError>(None)
            && r.output@.len() == 0,
        r.result matches Ok(Some(c)) ==> profiling && c <= max_steps,
        !(exists|i: int| #[trigger] crate::basic_block::function_undefined_target(prog, i)) ==> run_outcome(
            prog,
            args@,
            profiling,
            check_only,
            max_steps,
            r,
        ),
{
    let bb = match build_program(prog) {
        Ok(bb) => bb,
        Err(e) => {
            return RunResult { output: Vec::new(), result: Err(RunError::Build(e)) };
        },
    };
    match type_check(&bb) {
        Ok(()) => {},
        Err(e) => {
            let r = RunResult { output: Vec::new(), result: Err(RunError::Type(e)) };
            assert(built_from(prog, bb) && outcome_of(bb, args@, profiling, check_only, max_steps, r));
            return r;
        },
    }
    if check_only {
        let r = RunResult { output: Vec::new(), result: Ok(None) };
        assert(built_from(prog, bb) && outcome_of(bb, args@, profiling, check_only, max_steps, r));
        return r;
    }
    proof {
        crate::check::lemma_find_function_range(bb.functions@, "main"@);
    }
    let Execution { output, result } = execute_main(&bb, args, profiling, MAX_CALL_DEPTH, max_steps);
    let r = match result {
        Ok(c) => RunResult { output, result: Ok(c) },
        Err(e) => RunResult { output, result: Err(RunError::Runtime(e)) },
    };
    assert(built_from(prog, bb) && outcome_of(bb, args@, profiling, check_only, max_steps, r));
    r
}

/// Two programs have the same functions and, block by block, the same
/// labels, instructions and successors.
pub open spec fn same_shape(a: BBProgram, b: BBProgram) -> bool {
    &&& a.functions@.len() == b.functions@.len()
    &&& forall|i: int|
        0 <= i < a.functions@.len() ==> {
            let f = #[trigger] a.functions@[i];
            let g = b.functions@[i];
            &&& f.name == g.name
            &&& f.args == g.args
            &&& f.return_type == g.return_type
            &&& f.blocks@.len() == g.blocks@.len()
            &&& forall|k: int|
                0 <= k < f.blocks@.len() ==> (#[trigger] f.blocks@[k]).label == g.blocks@[k].label
                    && f.blocks@[k].instrs@ == g.blocks@[k].instrs@ && f.blocks@[k].exit@
                    == g.blocks@[k].exit@
        }
}

proof fn lemma_exit_unique(labels: Seq<Option<String>>, instrs: Seq<Instruction>, i: int, a: Seq<usize>, b: Seq<usize>)
    requires
        exit_for(labels, instrs, i, a),
        exit_for(labels, instrs, i, b),
    ensures
        a == b,
{
    if instrs.len() > 0 && instrs.last().is_terminator() && !(instrs.last() matches Instruction::Effect {
        op: EffectOp::Ret,
        ..
    }) {
        let t = instrs.last();
        assert forall|k: int| 0 <= k < a.len() implies a[k] == b[k] by {
            lemma_resolves_unique(labels, t.label_targets()[k]@, a[k] as int, b[k] as int);
        }
    }
    assert(a =~= b);
}

/// Two builds of one program have the same shape.
pub proof fn lemma_built_same_shape(p: Program, a: BBProgram, b: BBProgram)
    requires
        built_from(p, a),
        built_from(p, b),
    ensures
        same_shape(a, b),
{
    assert forall|i: int| 0 <= i < a.functions@.len() implies {
        let f = #[trigger] a.functions@[i];
        let g = b.functions@[i];
        &&& f.name == g.name
        &&& f.args == g.args
        &&& f.return_type == g.return_type
        &&& f.blocks@.len() == g.blocks@.len()
        &&& forall|k: int|
            0 <= k < f.blocks@.len() ==> (#[trigger] f.blocks@[k]).label == g.blocks@[k].label
                && f.blocks@[k].instrs@ == g.blocks@[k].instrs@ && f.blocks@[k].exit@ == g.blocks@[k].exit@
    } by {
        let f = a.functions@[i];
        let g = b.functions@[i];
        let fm = f.blocks@.map_values(|x: BasicBlock| block_shape(x));
        let gm = g.blocks@.map_values(|x: BasicBlock| block_shape(x));
        assert(fm == gm);
        assert(fm.len() == f.blocks@.len() && gm.len() == g.blocks@.len());
        assert(labels_of(f.blocks@) =~= labels_of(g.blocks@)) by {
            assert forall|k: int| 0 <= k < f.blocks@.len() implies labels_of(f.blocks@)[k] == labels_of(g.blocks@)[k] by {
                assert(fm[k] == gm[k]);
            }
        }
        assert forall|k: int| 0 <= k < f.blocks@.len() implies (#[trigger] f.blocks@[k]).label == g.blocks@[k].label
            && f.blocks@[k].instrs@ == g.blocks@[k].instrs@ && f.blocks@[k].exit@ == g.blocks@[k].exit@ by {
            assert(fm[k] == gm[k]);
            assert(f.wf() && g.wf());
            assert(exits_ok(f.blocks@, k) && exits_ok(g.blocks@, k));
            lemma_exit_unique(labels_of(f.blocks@), f.blocks@[k].instrs@, k, f.blocks@[k].exit@, g.blocks@[k].exit@);
        }
    }
}

proof fn lemma_find_same(a: Seq<BBFunction>, b: Seq<BBFunction>, n: Seq<char>)
    requires
        a.len() == b.len(),
        forall|i: int| 0 <= i < a.len() ==> (#[trigger] a[i]).name == b[i].name,
    ensures
        find_function(a, n) == find_function(b, n),
    decreases a.len(),
{
    if a.len() > 0 {
        assert(a.last().name == b.last().name);
        lemma_find_same(a.drop_last(), b.drop_last(), n);
    }
}

/// Programs of the same shape take the same step from every state.
pub proof fn lemma_step_same(a: BBProgram, b: BBProgram, s: MachineState, max_depth: usize)
    requires
        same_shape(a, b),
        s.stack.len() > 0,
        s.stack.last().func < a.functions@.len(),
        s.stack.last().block < a.functions@[s.stack.last().func as int].blocks@.len(),
    ensures
        step_spec(a, s, max_depth) == step_spec(b, s, max_depth),
{
    let fr = s.stack.last();
    let f = a.functions@[fr.func as int];
    let g = b.functions@[fr.func as int];
    assert(f.blocks@[fr.block as int].label == g.blocks@[fr.block as int].label);
    assert(labels_of(f.blocks@) =~= labels_of(g.blocks@)) by {
        assert forall|k: int| 0 <= k < f.blocks@.len() implies labels_of(f.blocks@)[k] == labels_of(g.blocks@)[k] by {
            assert(f.blocks@[k].label == g.blocks@[k].label);
        }
    }
    assert forall|n: Seq<char>| find_function(a.functions@, n) == find_function(b.functions@, n) by {
        assert forall|i: int| 0 <= i < a.functions@.len() implies (#[trigger] a.functions@[i]).name == b.functions@[i].name by {}
        lemma_find_same(a.functions@, b.functions@, n);
    }
    assert forall|i: int| 0 <= i < a.functions@.len() implies (#[trigger] a.functions@[i]).args == b.functions@[i].args by {}
    assert forall|s1: MachineState, l: Seq<char>| #[trigger] jump_spec(s1, fr, f, l) == jump_spec(s1, fr, g, l) by {}
    assert forall|s1: MachineState, funcs: Seq<String>, vals: Seq<Value>, d: Option<String>|
        #[trigger] call_spec(a, s1, fr, funcs, vals, d, max_depth) == call_spec(b, s1, fr, funcs, vals, d, max_depth) by {
        if funcs.len() == 1 {
            if let Some(ci) = find_function(a.functions@, funcs[0]@) {
                crate::check::lemma_find_function_range(a.functions@, funcs[0]@);
                assert(a.functions@[ci].args == b.functions@[ci].args);
            }
        }
    }
    assert forall|s1: MachineState, op: EffectOp, vals: Seq<Value>, funcs: Seq<String>, labels: Seq<String>|
        #[trigger] effect_spec(a, s1, fr, f, op, vals, funcs, labels, max_depth) == effect_spec(b, s1, fr, g, op, vals, funcs, labels, max_depth) by {
        assert(call_spec(a, s1, fr, funcs, vals, None, max_depth) == call_spec(b, s1, fr, funcs, vals, None, max_depth));
        if labels.len() > 0 {
            assert(jump_spec(s1, fr, f, labels[0]@) == jump_spec(s1, fr, g, labels[0]@));
        }
        if labels.len() > 1 {
            assert(jump_spec(s1, fr, f, labels[1]@) == jump_spec(s1, fr, g, labels[1]@));
        }
    }
    let blk = f.blocks@[fr.block as int];
    let blk2 = g.blocks@[fr.block as int];
    assert(blk.instrs@ == blk2.instrs@ && blk.exit@ == blk2.exit@);
    if fr.pos < blk.instrs@.len() {
        let s1 = MachineState { count: s.count + 1, stack: s.stack.drop_last(), ..s };
        let ins = blk.instrs@[fr.pos as int];
        match ins {
            Instruction::Value { dest, funcs, .. } => {
                assert forall|vals: Seq<Value>| #[trigger] call_spec(a, s1, fr, funcs@, vals, Some(dest), max_depth) == call_spec(b, s1, fr, funcs@, vals, Some(dest), max_depth) by {}
            },
            Instruction::Effect { op, funcs, labels, .. } => {
                assert forall|vals: Seq<Value>| #[trigger] effect_spec(a, s1, fr, f, op, vals, funcs@, labels@, max_depth) == effect_spec(b, s1, fr, g, op, vals, funcs@, labels@, max_depth) by {}
            },
            _ => {},
        }
        assert(instr_spec(a, s1, fr, f, ins, max_depth) == instr_spec(b, s1, fr, g, ins, max_depth));
    }
}

/// Programs of the same shape run alike.
pub proof fn lemma_run_same(a: BBProgram, b: BBProgram, s: MachineState, max_depth: usize, fuel: nat)
    requires
        same_shape(a, b),
        a.wf(),
        s.stack.len() > 0,
        forall|i: int| 0 <= i < s.stack.len() ==> #[trigger] state_frame_ok(a, s.stack[i]),
    ensures
        run_spec(a, s, max_depth, fuel) == run_spec(b, s, max_depth, fuel),
    decreases fuel,
{
    if fuel > 0 {
        assert(state_frame_ok(a, s.stack[s.stack.len() - 1]));
        lemma_step_same(a, b, s, max_depth);
        match step_spec(a, s, max_depth) {
            Outcome::Running(s2) => {
                if s2.stack.len() > 0 {
                    lemma_step_keeps_frames(a, s, max_depth);
                    lemma_run_same(a, b, s2, max_depth, (fuel - 1) as nat);
                }
            },
            _ => {},
        }
    }
}

/// The functions agree in name, parameters and declared result.
pub open spec fn same_signatures(a: Seq<BBFunction>, b: Seq<BBFunction>) -> bool {
    &&& a.len() == b.len()
    &&& forall|i: int|
        0 <= i < a.len() ==> (#[trigger] a[i]).name == b[i].name && a[i].args == b[i].args
            && a[i].return_type == b[i].return_type
}

proof fn lemma_check_seq_same(
    a: Seq<BBFunction>,
    b: Seq<BBFunction>,
    ret: Option<Type>,
    env: Seq<(String, Type)>,
    instrs: Seq<Instruction>,
)
    requires
        same_signatures(a, b),
    ensures
        check_seq(a, ret, env, instrs) == check_seq(b, ret, env, instrs),
    decreases instrs.len(),
{
    assert forall|n: Seq<char>| #[trigger] find_function(a, n) == find_function(b, n) by {
        assert forall|i: int| 0 <= i < a.len() implies (#[trigger] a[i]).name == b[i].name by {}
        lemma_find_same(a, b, n);
    }
    assert forall|ts: Seq<Type>, funcs: Seq<String>, r: Option<Option<Type>>|
        #[trigger] call_ok(a, ts, funcs, r) == call_ok(b, ts, funcs, r) by {
        if funcs.len() == 1 {
            crate::check::lemma_find_function_range(a, funcs[0]@);
        }
    }
    if instrs.len() > 0 {
        lemma_check_seq_same(a, b, ret, env, instrs.drop_last());
        assert forall|e: Seq<(String, Type)>, ins: Instruction| #[trigger] instr_step(a, ret, e, ins) == instr_step(b, ret, e, ins) by {
            match ins {
                Instruction::Value { op, ty, args, funcs, labels, .. } => {
                    if let Some(ts) = arg_types(e, args@) {
                        assert(value_ok(a, op, ty, ts, funcs@, labels@) == value_ok(b, op, ty, ts, funcs@, labels@));
                    }
                },
                Instruction::Effect { op, args, funcs, labels } => {
                    if let Some(ts) = arg_types(e, args@) {
                        assert(effect_ok(a, ret, op, ts, funcs@, labels@) == effect_ok(b, ret, op, ts, funcs@, labels@));
                    }
                },
                _ => {},
            }
        }
    }
}

/// Programs of the same shape are well typed alike.
pub proof fn lemma_typed_same(a: BBProgram, b: BBProgram)
    requires
        same_shape(a, b),
    ensures
        program_typed(a.functions@) == program_typed(b.functions@),
{
    let fa = a.functions@;
    let fb = b.functions@;
    assert(same_signatures(fa, fb)) by {
        assert forall|i: int| 0 <= i < fa.len() implies (#[trigger] fa[i]).name == fb[i].name && fa[i].args == fb[i].args
            && fa[i].return_type == fb[i].return_type by {}
    }
    assert forall|i: int| 0 <= i < fa.len() implies #[trigger] function_typed(fa, fa[i]) == function_typed(fb, fb[i]) by {
        let f = fa[i];
        let g = fb[i];
        assert forall|k: int| 0 <= k < f.blocks@.len() implies #[trigger] f.blocks@[k].instrs@ == g.blocks@[k].instrs@ by {}
        crate::basic_block::lemma_flatten_same(f.blocks@, g.blocks@);
        if let Ok(e) = param_env(f.args@) {
            lemma_check_seq_same(fa, fb, f.return_type, e, flatten(f.blocks@));
        }
    }
    lemma_find_same(fa, fb, "main"@);
    crate::check::lemma_find_function_range(fa, "main"@);
    if names_unique(fa) {
        assert forall|i: int, j: int| 0 <= i < j < fb.len() implies #[trigger] fb[i].name@ != #[trigger] fb[j].name@ by {
            assert(fa[i].name@ != fa[j].name@);
        }
    }
    if names_unique(fb) {
        assert forall|i: int, j: int| 0 <= i < j < fa.len() implies #[trigger] fa[i].name@ != #[trigger] fa[j].name@ by {
            assert(fb[i].name@ != fb[j].name@);
        }
    }
    assert(names_unique(fa) == names_unique(fb));
    if program_typed(fa) {
        assert forall|i: int| 0 <= i < fb.len() implies #[trigger] function_typed(fb, fb[i]) by {
            assert(function_typed(fa, fa[i]));
        }
    }
    if program_typed(fb) {
        assert forall|i: int| 0 <= i < fa.len() implies #[trigger] function_typed(fa, fa[i]) by {
            assert(function_typed(fb, fb[i]));
        }
    }
}

proof fn lemma_start_same(a: BBProgram, b: BBProgram, args: Seq<String>)
    requires
        same_shape(a, b),
    ensures
        main_args_read(a.functions@, args) == main_args_read(b.functions@, args),
        main_args_read(a.functions@, args) ==> initial_state(a.functions@, args) == initial_state(b.functions@, args),
{
    let fa = a.functions@;
    let fb = b.functions@;
    assert forall|i: int| 0 <= i < fa.len() implies (#[trigger] fa[i]).name == fb[i].name by {}
    lemma_find_same(fa, fb, "main"@);
    crate::check::lemma_find_function_range(fa, "main"@);
    if let Some(mi) = find_function(fa, "main"@) {
        assert(fa[mi].args == fb[mi].args);
        assert(main_values(fa, args) =~= main_values(fb, args));
        assert(initial_state(fa, args).stack =~= initial_state(fb, args).stack);
    }
}

/// Checking a program is repeatable: once a check-only run of it is
/// accepted, every check-only run of it is accepted and prints nothing.
pub proof fn lemma_program_recheck_accepts(
    p: Program,
    args: Seq<String>,
    profiling: bool,
    max_steps: u64,
    r1: RunResult,
    r2: RunResult,
)
    requires
        run_outcome(p, args, profiling, true, max_steps, r1),
        run_outcome(p, args, profiling, true, max_steps, r2),
        r1.result is Ok,
    ensures
        r2.result == Ok::<Option<u64>, RunError>(None),
        r2.output@.len() == 0,
{
    let a = choose|bb: BBProgram| #[trigger] built_from(p, bb) && outcome_of(bb, args, profiling, true, max_steps, r1);
    let b = choose|bb: BBProgram| #[trigger] built_from(p, bb) && outcome_of(bb, args, profiling, true, max_steps, r2);
    lemma_built_same_shape(p, a, b);
    lemma_typed_same(a, b);
}

/// Runs of a program are deterministic: two runs with the same arguments
/// and flags print the same, stop at the same stage, and, when they succeed
/// or fail while running, end alike.
pub proof fn lemma_program_runs_agree(
    p: Program,
    args: Seq<String>,
    profiling: bool,
    check_only: bool,
    max_steps: u64,
    r1: RunResult,
    r2: RunResult,
)
    requires
        p.functions@.len() <= usize::MAX,
        run_outcome(p, args, profiling, check_only, max_steps, r1),
        run_outcome(p, args, profiling, check_only, max_steps, r2),
    ensures
        r1.output@ == r2.output@,
        r1.result is Ok ==> r1.result == r2.result,
        (r1.result matches Err(RunError::Type(_))) == (r2.result matches Err(RunError::Type(_))),
        (r1.result matches Err(RunError::Runtime(_))) == (r2.result matches Err(RunError::Runtime(_))),
        r1.output@.len() > 0 ==> r1.result == r2.result,
{
    let a = choose|bb: BBProgram| #[trigger] built_from(p, bb) && outcome_of(bb, args, profiling, check_only, max_steps, r1);
    let b = choose|bb: BBProgram| #[trigger] built_from(p, bb) && outcome_of(bb, args, profiling, check_only, max_steps, r2);
    lemma_built_same_shape(p, a, b);
    lemma_typed_same(a, b);
    lemma_start_same(a, b, args);
    if program_typed(a.functions@) && !check_only && main_args_read(a.functions@, args) {
        let s = initial_state(a.functions@, args);
        let mi = find_function(a.functions@, "main"@)->Some_0;
        crate::check::lemma_find_function_range(a.functions@, "main"@);
        assert(a.functions@[mi].wf());
        assert(a.functions@[mi].blocks@.len() > 0);
        assert(s.stack[0].func as int == mi && s.stack[0].block == 0);
        assert(state_frame_ok(a, s.stack[0]));
        lemma_run_same(a, b, s, MAX_CALL_DEPTH, max_steps as nat);
    } else {
        assert(r1.output@ =~= r2.output@);
    }
}

} // verus!
