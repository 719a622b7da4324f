//! Runs a checked program from `main` with an explicit call stack, an
//! explicit heap, and an optional count of executed instructions.
use vstd::prelude::*;
use crate::basic_block::{has_label, labeled, labels_of, lemma_successors_in_range, resolve, resolves, BBFunction, BBProgram};
use crate::check::{find_function, function_index};
use vstd::string::{StrSliceExecFns, StringExecFns};
use crate::heap::{access_error_of, cell_of, fits, load_of, Heap, Region};
use crate::ir::{copy_type, Argument, EffectOp, Instruction, Literal, Type, ValueOp};
use crate::value::{copy_value, Pointer, RuntimeError, Value};

verus! {

/// Truncating division of integers, rounding toward zero.
pub open spec fn trunc_div(a: int, b: int) -> int {
    let q: int = (vstd::math::abs(a) / vstd::math::abs(b)) as int;
    if (a < 0) == (b < 0) {
        q
    } else {
        -q
    }
}

/// `x` wrapped into the range of a 64-bit signed integer.
pub open spec fn wrap_i64(x: int) -> int {
    let m = 0x1_0000_0000_0000_0000int;
    let r = x % m;
    if r >= 0x8000_0000_0000_0000int {
        r - m
    } else {
        r
    }
}

fn magnitude(a: i64) -> (r: u64)
    ensures
        r as int == vstd::math::abs(a as int),
{
    if a >= 0 {
        a as u64
    } else if a == i64::MIN {
        0x8000_0000_0000_0000u64
    } else {
        (-a) as u64
    }
}

/// Integer division, rounding toward zero and wrapping on overflow.
/// Division by zero is an error.
pub fn int_div(a: i64, b: i64) -> (r: Result<i64, RuntimeError>)
    ensures
        b == 0 ==> r == Err::<i64, RuntimeError>(RuntimeError::DivisionByZero),
        b != 0 ==> (r matches Ok(q) && q as int == wrap_i64(trunc_div(a as int, b as int))),
{
    if b == 0 {
        return Err(RuntimeError::DivisionByZero);
    }
    let ua = magnitude(a);
    let ub = magnitude(b);
    let q = ua / ub;
    assert(q as int == trunc_div(a as int, b as int) || q as int == -trunc_div(a as int, b as int));
    assert(q <= 0x8000_0000_0000_0000u64) by {
        assert(ub >= 1);
        assert(q <= ua) by (nonlinear_arith)
            requires
                ub >= 1,
                q == ua / ub,
        ;
    }
    if (a < 0) == (b < 0) {
        if q == 0x8000_0000_0000_0000u64 {
            Ok(i64::MIN)
        } else {
            Ok(q as i64)
        }
    } else {
        if q == 0x8000_0000_0000_0000u64 {
            Ok(i64::MIN)
        } else {
            Ok(-(q as i64))
        }
    }
}

/// The result of an operation that only reads its arguments' values.
pub open spec fn pure_op(op: ValueOp, vals: Seq<Value>) -> Result<Value, RuntimeError> {
    if vals.len() == 2 && vals[0] is Int && vals[1] is Int {
        let a = vals[0]->Int_0;
        let b = vals[1]->Int_0;
        match op {
            ValueOp::Add => Ok(Value::Int(a.wrapping_add(b))),
            ValueOp::Sub => Ok(Value::Int(a.wrapping_sub(b))),
            ValueOp::Mul => Ok(Value::Int(a.wrapping_mul(b))),
            ValueOp::Div => if b == 0 {
                Err(RuntimeError::DivisionByZero)
            } else {
                Ok(Value::Int(wrap_i64(trunc_div(a as int, b as int)) as i64))
            },
            ValueOp::Eq => Ok(Value::Bool(a == b)),
            ValueOp::Lt => Ok(Value::Bool(a < b)),
            ValueOp::Gt => Ok(Value::Bool(a > b)),
            ValueOp::Le => Ok(Value::Bool(a <= b)),
            ValueOp::Ge => Ok(Value::Bool(a >= b)),
            _ => Err(RuntimeError::WrongValueKind),
        }
    } else if vals.len() == 2 && vals[0] is Bool && vals[1] is Bool {
        let a = vals[0]->Bool_0;
        let b = vals[1]->Bool_0;
        match op {
            ValueOp::And => Ok(Value::Bool(a && b)),
            ValueOp::Or => Ok(Value::Bool(a || b)),
            _ => Err(RuntimeError::WrongValueKind),
        }
    } else if vals.len() == 1 && op == ValueOp::Not && vals[0] is Bool {
        Ok(Value::Bool(!vals[0]->Bool_0))
    } else if vals.len() == 1 && op == ValueOp::Id {
        Ok(vals[0])
    } else if is_float_op(op) {
        Err(RuntimeError::FloatOperation)
    } else {
        Err(RuntimeError::WrongValueKind)
    }
}

pub open spec fn is_float_op(op: ValueOp) -> bool {
    op == ValueOp::Fadd || op == ValueOp::Fsub || op == ValueOp::Fmul || op == ValueOp::Fdiv
        || op == ValueOp::Feq || op == ValueOp::Flt || op == ValueOp::Fgt || op == ValueOp::Fle
        || op == ValueOp::Fge
}

/// Applies an operation that only reads its arguments' values.
pub fn eval_pure(op: ValueOp, vals: &Vec<Value>) -> (r: Result<Value, RuntimeError>)
    ensures
        r == pure_op(op, vals@),
{
    if vals.len() == 2 {
        match (&vals[0], &vals[1]) {
            (Value::Int(a), Value::Int(b)) => {
                let (a, b) = (*a, *b);
                return match op {
                    ValueOp::Add => Ok(Value::Int(a.wrapping_add(b))),
                    ValueOp::Sub => Ok(Value::Int(a.wrapping_sub(b))),
                    ValueOp::Mul => Ok(Value::Int(a.wrapping_mul(b))),
                    ValueOp::Div => match int_div(a, b) {
                        Ok(q) => Ok(Value::Int(q)),
                        Err(e) => Err(e),
                    },
                    ValueOp::Eq => Ok(Value::Bool(a == b)),
                    ValueOp::Lt => Ok(Value::Bool(a < b)),
                    ValueOp::Gt => Ok(Value::Bool(a > b)),
                    ValueOp::Le => Ok(Value::Bool(a <= b)),
                    ValueOp::Ge => Ok(Value::Bool(a >= b)),
                    _ => Err(RuntimeError::WrongValueKind),
                };
            },
            (Value::Bool(a), Value::Bool(b)) => {
                let (a, b) = (*a, *b);
                return match op {
                    ValueOp::And => Ok(Value::Bool(a && b)),
                    ValueOp::Or => Ok(Value::Bool(a || b)),
                    _ => Err(RuntimeError::WrongValueKind),
                };
            },
            _ => {},
        }
    }
    if vals.len() == 1 && op == ValueOp::Not {
        if let Value::Bool(a) = &vals[0] {
            return Ok(Value::Bool(!*a));
        }
    }
    if vals.len() == 1 && op == ValueOp::Id {
        return Ok(copy_value(&vals[0]));
    }
    match op {
        ValueOp::Fadd | ValueOp::Fsub | ValueOp::Fmul | ValueOp::Fdiv | ValueOp::Feq | ValueOp::Flt
        | ValueOp::Fgt | ValueOp::Fle | ValueOp::Fge => Err(RuntimeError::FloatOperation),
        _ => Err(RuntimeError::WrongValueKind),
    }
}

/// The decimal digits of `n`, most significant first, in ASCII.
pub open spec fn digits(n: nat) -> Seq<u8>
    decreases n,
{
    if n < 10 {
        seq![(48 + n) as u8]
    } else {
        digits(n / 10).push((48 + n % 10) as u8)
    }
}

/// How a printable value is written: integers in base 10, booleans as
/// `true` or `false`.
pub open spec fn render(v: Value) -> Option<Seq<u8>> {
    match v {
        Value::Int(i) => Some(
            if i < 0 {
                seq![45u8] + digits((-(i as int)) as nat)
            } else {
                digits(i as nat)
            },
        ),
        Value::Bool(b) => Some(
            if b {
                seq![116u8, 114u8, 117u8, 101u8]
            } else {
                seq![102u8, 97u8, 108u8, 115u8, 101u8]
            },
        ),
        _ => None,
    }
}

/// A printed line: the values separated by single spaces, then a newline.
pub open spec fn render_line(vals: Seq<Value>) -> Option<Seq<u8>>
    decreases vals.len(),
{
    if vals.len() == 0 {
        Some(seq![10u8])
    } else if vals.len() == 1 {
        match render(vals[0]) {
            Some(t) => Some(t.push(10u8)),
            None => None,
        }
    } else {
        match (render_line(vals.drop_last()), render(vals.last())) {
            (Some(front), Some(t)) => Some(front.drop_last().push(32u8) + t.push(10u8)),
            _ => None,
        }
    }
}

/// The error that printing `v` raises.
pub open spec fn render_error(v: Value) -> RuntimeError {
    if v is Float {
        RuntimeError::FloatOperation
    } else {
        RuntimeError::PrintPointer
    }
}

fn push_digits(out: &mut Vec<u8>, n: u64)
    ensures
        final(out)@ == old(out)@ + digits(n as nat),
    decreases n,
{
    if n >= 10 {
        push_digits(out, n / 10);
    }
    out.push((48 + n % 10) as u8);
    proof {
        if n >= 10 {
            assert(digits(n as nat) == digits((n / 10) as nat).push((48 + n % 10) as u8));
        }
    }
    assert(final(out)@ =~= old(out)@ + digits(n as nat));
}

/// Appends the text of a printable value.
fn push_value(out: &mut Vec<u8>, v: &Value) -> (r: Result<(), RuntimeError>)
    ensures
        match render(*v) {
            Some(t) => r is Ok && final(out)@ == old(out)@ + t,
            None => r == Err::<(), RuntimeError>(render_error(*v)) && final(out)@ == old(out)@,
        },
{
    match v {
        Value::Int(i) => {
            if *i < 0 {
                out.push(45u8);
                push_digits(out, magnitude(*i));
                assert(out@ =~= old(out)@ + (seq![45u8] + digits((-(*i as int)) as nat)));
            } else {
                push_digits(out, *i as u64);
            }
            Ok(())
        },
        Value::Bool(b) => {
            if *b {
                out.push(116u8);
                out.push(114u8);
                out.push(117u8);
                out.push(101u8);
                assert(out@ =~= old(out)@ + seq![116u8, 114u8, 117u8, 101u8]);
            } else {
                out.push(102u8);
                out.push(97u8);
                out.push(108u8);
                out.push(115u8);
                out.push(101u8);
                assert(out@ =~= old(out)@ + seq![102u8, 97u8, 108u8, 115u8, 101u8]);
            }
            Ok(())
        },
        Value::Float(_) => Err(RuntimeError::FloatOperation),
        Value::Pointer(_) => Err(RuntimeError::PrintPointer),
    }
}

/// Writes one printed line. Nothing is written when a value is not
/// printable.
pub fn print_line(out: &mut Vec<u8>, vals: &Vec<Value>) -> (r: Result<(), RuntimeError>)
    ensures
        match render_line(vals@) {
            Some(t) => r is Ok && final(out)@ == old(out)@ + t,
            None => r == Err::<(), RuntimeError>(print_error(vals@)) && final(out)@ == old(out)@,
        },
{
    let mut line: Vec<u8> = Vec::new();
    let mut i: usize = 0;
    while i < vals.len()
        invariant
            i <= vals@.len(),
            i == 0 ==> line@.len() == 0,
            i > 0 ==> render_line(vals@.subrange(0, i as int)) == Some(line@.push(10u8)),
        decreases vals.len() - i,
    {
        let ghost before = line@;
        let ghost sub = vals@.subrange(0, i + 1);
        assert(sub.drop_last() =~= vals@.subrange(0, i as int));
        assert(sub.last() == vals@[i as int]);
        if i > 0 {
            line.push(32u8);
        }
        match push_value(&mut line, &vals[i]) {
            Ok(()) => {
                proof {
                    if i > 0 {
                        assert(before.push(10u8).drop_last() =~= before);
                        assert(line@.push(10u8) =~= before.push(32u8) + render(vals@[i as int])->Some_0.push(10u8));
                    } else {
                        assert(sub =~= seq![vals@[0]]);
                        assert(line@ =~= render(vals@[0])->Some_0);
                    }
                }
            },
            Err(e) => {
                proof {
                    lemma_render_line_none(vals@, i as int + 1);
                    assert(render_line(vals@.subrange(0, i as int)) is Some);
                    assert(print_error(sub) == render_error(vals@[i as int]));
                    lemma_print_error_grow(vals@, i as int + 1);
                }
                return Err(e);
            },
        }
        i = i + 1;
    }
    line.push(10u8);
    proof {
        assert(vals@.subrange(0, vals@.len() as int) =~= vals@);
    }
    let ghost full = line@;
    let mut k: usize = 0;
    let ghost start = out@;
    while k < line.len()
        invariant
            k <= line@.len(),
            line@ == full,
            out@ == start + full.subrange(0, k as int),
        decreases line.len() - k,
    {
        out.push(line[k]);
        assert(full.subrange(0, k + 1) =~= full.subrange(0, k as int).push(full[k as int]));
        k = k + 1;
    }
    assert(full.subrange(0, full.len() as int) =~= full);
    Ok(())
}

/// The error of printing `vals`: that of the first value that cannot be
/// printed.
pub open spec fn print_error(vals: Seq<Value>) -> RuntimeError
    decreases vals.len(),
{
    if vals.len() == 0 {
        RuntimeError::PrintPointer
    } else if render_line(vals.drop_last()) is None {
        print_error(vals.drop_last())
    } else {
        render_error(vals.last())
    }
}

proof fn lemma_print_error_grow(vals: Seq<Value>, n: int)
    requires
        1 <= n <= vals.len(),
        render_line(vals.subrange(0, n)) is None,
    ensures
        print_error(vals) == print_error(vals.subrange(0, n)),
    decreases vals.len() - n,
{
    if n < vals.len() {
        assert(vals.subrange(0, n + 1).drop_last() =~= vals.subrange(0, n));
        lemma_render_line_grow(vals.subrange(0, n + 1), n);
        assert(vals.subrange(0, n + 1).subrange(0, n) =~= vals.subrange(0, n));
        lemma_print_error_grow(vals, n + 1);
    } else {
        assert(vals.subrange(0, n) =~= vals);
    }
}

proof fn lemma_render_line_none(vals: Seq<Value>, n: int)
    requires
        1 <= n <= vals.len(),
        render(vals[n - 1]) is None,
    ensures
        render_line(vals) is None,
{
    lemma_render_line_prefix(vals, n);
}

proof fn lemma_render_line_prefix(vals: Seq<Value>, n: int)
    requires
        1 <= n <= vals.len(),
        render(vals[n - 1]) is None,
    ensures
        render_line(vals.subrange(0, n)) is None,
        render_line(vals) is None,
    decreases vals.len() - n,
{
    let s = vals.subrange(0, n);
    assert(s.last() == vals[n - 1]);
    if n == 1 {
        assert(s[0] == vals[0]);
    }
    if n < vals.len() {
        lemma_render_line_grow(vals, n);
    } else {
        assert(s =~= vals);
    }
}

proof fn lemma_render_line_grow(vals: Seq<Value>, n: int)
    requires
        1 <= n <= vals.len(),
        render_line(vals.subrange(0, n)) is None,
    ensures
        render_line(vals) is None,
    decreases vals.len() - n,
{
    if n < vals.len() {
        assert(vals.subrange(0, n + 1).drop_last() =~= vals.subrange(0, n));
        lemma_render_line_grow(vals, n + 1);
    } else {
        assert(vals.subrange(0, n) =~= vals);
    }
}

/// A frame's variables: each name at most once.
pub type Vars = Vec<(String, Value)>;

pub open spec fn names_distinct(env: Seq<(String, Value)>) -> bool {
    forall|i: int, j: int|
        0 <= i < j < env.len() ==> #[trigger] env[i].0@ != #[trigger] env[j].0@
}

/// `n` is bound to `v`.
pub open spec fn bound(env: Seq<(String, Value)>, n: Seq<char>, v: Value) -> bool {
    exists|i: int| 0 <= i < env.len() && #[trigger] env[i].0@ == n && env[i].1 == v
}

pub open spec fn unbound(env: Seq<(String, Value)>, n: Seq<char>) -> bool {
    forall|i: int| 0 <= i < env.len() ==> #[trigger] env[i].0@ != n
}

/// Distinct names bind each name to one value at most.
pub proof fn lemma_bound_unique(env: Seq<(String, Value)>, n: Seq<char>, v: Value, w: Value)
    requires
        names_distinct(env),
        bound(env, n, v),
        bound(env, n, w),
    ensures
        v == w,
{
    let i = choose|i: int| 0 <= i < env.len() && #[trigger] env[i].0@ == n && env[i].1 == v;
    let j = choose|j: int| 0 <= j < env.len() && #[trigger] env[j].0@ == n && env[j].1 == w;
    if i < j {
        assert(env[i].0@ != env[j].0@);
    } else if j < i {
        assert(env[j].0@ != env[i].0@);
    }
}

proof fn lemma_args_bound_unique(env: Seq<(String, Value)>, args: Seq<String>, a: Seq<Value>, b: Seq<Value>)
    requires
        names_distinct(env),
        args_bound(env, args, a),
        args_bound(env, args, b),
    ensures
        a == b,
{
    assert forall|i: int| 0 <= i < a.len() implies a[i] == b[i] by {
        lemma_bound_unique(env, args[i]@, a[i], b[i]);
    }
    assert(a =~= b);
}

/// The value bound to `n`, if any.
pub open spec fn lookup_val(env: Seq<(String, Value)>, n: Seq<char>) -> Option<Value> {
    if exists|i: int| 0 <= i < env.len() && #[trigger] env[i].0@ == n {
        Some(env[choose|i: int| 0 <= i < env.len() && #[trigger] env[i].0@ == n].1)
    } else {
        None
    }
}

/// `env` with `n` bound to `v`: the binding of `n` replaced in place, or a
/// new one at the end.
pub open spec fn env_set(env: Seq<(String, Value)>, n: String, v: Value) -> Seq<(String, Value)> {
    if exists|i: int| 0 <= i < env.len() && #[trigger] env[i].0@ == n@ {
        env.update(choose|i: int| 0 <= i < env.len() && #[trigger] env[i].0@ == n@, (n, v))
    } else {
        env.push((n, v))
    }
}

proof fn lemma_index_unique(env: Seq<(String, Value)>, n: Seq<char>, i: int)
    requires
        names_distinct(env),
        0 <= i < env.len(),
        env[i].0@ == n,
    ensures
        (choose|j: int| 0 <= j < env.len() && #[trigger] env[j].0@ == n) == i,
{
    let j = choose|j: int| 0 <= j < env.len() && #[trigger] env[j].0@ == n;
    assert(0 <= j < env.len() && env[j].0@ == n);
    if j < i {
        assert(env[j].0@ != env[i].0@);
    } else if i < j {
        assert(env[i].0@ != env[j].0@);
    }
}

/// The value bound to `n`; an unbound name is an error.
pub fn var_get(env: &Vars, n: &String) -> (r: Result<Value, RuntimeError>)
    requires
        names_distinct(env@),
    ensures
        match lookup_val(env@, n@) {
            Some(v) => r == Ok::<Value, RuntimeError>(v),
            None => r == Err::<Value, RuntimeError>(RuntimeError::UndefinedVariable),
        },
        r matches Ok(v) ==> bound(env@, n@, v),
        r is Err ==> r == Err::<Value, RuntimeError>(RuntimeError::UndefinedVariable) && unbound(env@, n@),
{
    let mut i: usize = 0;
    while i < env.len()
        invariant
            names_distinct(env@),
            i <= env@.len(),
            forall|j: int| 0 <= j < i ==> #[trigger] env@[j].0@ != n@,
        decreases env.len() - i,
    {
        if env[i].0.eq(n) {
            let v = copy_value(&env[i].1);
            assert(env@[i as int].0@ == n@);
            proof {
                lemma_index_unique(env@, n@, i as int);
            }
            return Ok(v);
        }
        i = i + 1;
    }
    Err(RuntimeError::UndefinedVariable)
}

/// Binds `n` to `v`, replacing an earlier binding of `n` and keeping all
/// others.
pub fn var_set(env: &mut Vars, n: &String, v: Value)
    requires
        names_distinct(old(env)@),
    ensures
        names_distinct(final(env)@),
        final(env)@ == env_set(old(env)@, *n, v),
        bound(final(env)@, n@, v),
        forall|m: Seq<char>, w: Value|
            m != n@ ==> (bound(final(env)@, m, w) <==> bound(old(env)@, m, w)),
        forall|m: Seq<char>| m != n@ ==> (unbound(final(env)@, m) <==> unbound(old(env)@, m)),
{
    let ghost o = env@;
    let mut i: usize = 0;
    while i < env.len()
        invariant
            env@ == o,
            o == old(env)@,
            names_distinct(o),
            i <= env@.len(),
            forall|j: int| 0 <= j < i ==> #[trigger] env@[j].0@ != n@,
        decreases env.len() - i,
    {
        if env[i].0.eq(n) {
            env.set(i, (n.clone(), v));
            proof {
                lemma_index_unique(o, n@, i as int);
                assert(env@[i as int].0@ == n@);
                assert(env@ == o.update(i as int, (*n, v)));
                assert forall|a: int, b: int| 0 <= a < b < env@.len() implies #[trigger] env@[a].0@ != #[trigger] env@[b].0@ by {
                    assert(env@[a].0@ == o[a].0@);
                    assert(env@[b].0@ == o[b].0@);
                }
                assert forall|m: Seq<char>, w: Value|
                    m != n@ implies (bound(env@, m, w) <==> bound(o, m, w)) by {
                    if bound(env@, m, w) {
                        let j = choose|j: int| 0 <= j < env@.len() && #[trigger] env@[j].0@ == m && env@[j].1 == w;
                        assert(o[j].0@ == m);
                    }
                    if bound(o, m, w) {
                        let j = choose|j: int| 0 <= j < o.len() && #[trigger] o[j].0@ == m && o[j].1 == w;
                        assert(env@[j].0@ == m);
                    }
                }
                assert forall|m: Seq<char>| m != n@ implies (unbound(env@, m) <==> unbound(o, m)) by {
                    if !unbound(env@, m) {
                        let j = choose|j: int| 0 <= j < env@.len() && #[trigger] env@[j].0@ == m;
                        assert(o[j].0@ == m);
                    }
                    if !unbound(o, m) {
                        let j = choose|j: int| 0 <= j < o.len() && #[trigger] o[j].0@ == m;
                        assert(env@[j].0@ == m);
                    }
                }
            }
            return;
        }
        i = i + 1;
    }
    env.push((n.clone(), v));
    proof {
        let k = o.len() as int;
        assert(env@[k].0@ == n@);
        assert forall|m: Seq<char>, w: Value|
            m != n@ implies (bound(env@, m, w) <==> bound(o, m, w)) by {
            if bound(env@, m, w) {
                let j = choose|j: int| 0 <= j < env@.len() && #[trigger] env@[j].0@ == m && env@[j].1 == w;
                assert(o[j].0@ == m);
            }
            if bound(o, m, w) {
                let j = choose|j: int| 0 <= j < o.len() && #[trigger] o[j].0@ == m && o[j].1 == w;
                assert(env@[j].0@ == m);
            }
        }
        assert forall|m: Seq<char>| m != n@ implies (unbound(env@, m) <==> unbound(o, m)) by {
            if !unbound(env@, m) {
                let j = choose|j: int| 0 <= j < env@.len() && #[trigger] env@[j].0@ == m;
                assert(o[j].0@ == m);
            }
            if !unbound(o, m) {
                let j = choose|j: int| 0 <= j < o.len() && #[trigger] o[j].0@ == m;
                assert(env@[j].0@ == m);
            }
        }
    }
}

/// The values of `args`, if all are bound.
pub open spec fn arg_vals(env: Seq<(String, Value)>, args: Seq<String>) -> Option<Seq<Value>> {
    if forall|k: int| 0 <= k < args.len() ==> #[trigger] lookup_val(env, args[k]@) is Some {
        Some(Seq::new(args.len(), |k: int| lookup_val(env, args[k]@)->Some_0))
    } else {
        None
    }
}

/// The values of `args`, in order.
fn arg_values(env: &Vars, args: &Vec<String>) -> (r: Result<Vec<Value>, RuntimeError>)
    requires
        names_distinct(env@),
    ensures
        match arg_vals(env@, args@) {
            Some(vs) => r is Ok && r->Ok_0@ == vs,
            None => r == Err::<Vec<Value>, RuntimeError>(RuntimeError::UndefinedVariable),
        },
        r matches Ok(vs) ==> vs@.len() == args@.len() && forall|i: int|
            0 <= i < args@.len() ==> bound(env@, args@[i]@, #[trigger] vs@[i]),
        r is Err ==> r == Err::<Vec<Value>, RuntimeError>(RuntimeError::UndefinedVariable),
        r is Err ==> exists|i: int| 0 <= i < args@.len() && #[trigger] unbound(env@, args@[i]@),
        args@.len() == 0 ==> r is Ok,
{
    let mut out: Vec<Value> = Vec::new();
    let mut i: usize = 0;
    while i < args.len()
        invariant
            i <= args@.len(),
            out@.len() == i,
            forall|j: int| 0 <= j < i ==> bound(env@, args@[j]@, #[trigger] out@[j]),
            forall|j: int| 0 <= j < i ==> lookup_val(env@, args@[j]@) == Some(#[trigger] out@[j]),
            names_distinct(env@),
        decreases args.len() - i,
    {
        let v = match var_get(env, &args[i]) {
            Ok(v) => v,
            Err(e) => {
                assert(unbound(env@, args@[i as int]@));
                assert(lookup_val(env@, args@[i as int]@) is None);
                return Err(e);
            },
        };
        out.push(v);
        i = i + 1;
    }
    assert forall|k: int| 0 <= k < args@.len() implies #[trigger] lookup_val(env@, args@[k]@) is Some by {
        assert(lookup_val(env@, args@[k]@) == Some(out@[k]));
    }
    assert(out@ =~= Seq::new(args@.len(), |k: int| lookup_val(env@, args@[k]@)->Some_0));
    Ok(out)
}

/// One function activation: where it stands, its variables, and the name in
/// the caller that receives its result.
#[derive(Debug)]
pub struct Frame {
    pub func: usize,
    pub block: usize,
    pub pos: usize,
    pub vars: Vars,
    pub ret_dest: Option<String>,
}

/// The whole state of a run.
#[derive(Debug)]
pub struct Machine {
    pub stack: Vec<Frame>,
    pub heap: Heap,
    pub output: Vec<u8>,
    pub count: u64,
}

/// The frame stands at a place that exists in the program.
pub open spec fn frame_ok(fs: Seq<BBFunction>, f: Frame) -> bool {
    &&& f.func < fs.len()
    &&& f.block < fs[f.func as int].blocks@.len()
    &&& f.pos <= fs[f.func as int].blocks@[f.block as int].instrs@.len()
    &&& names_distinct(f.vars@)
}

impl Machine {
    /// Every frame stands in the program, the stack is within its limit, and
    /// the heap is well formed.
    pub open spec fn ok(&self, prog: BBProgram, max_depth: usize) -> bool {
        &&& self.heap.wf()
        &&& self.stack@.len() <= max_depth
        &&& forall|i: int| 0 <= i < self.stack@.len() ==> #[trigger] frame_ok(prog.functions@, self.stack@[i])
    }
}

/// What one step did.
#[derive(Debug, Clone, Copy, PartialEq, Eq, Structural)]
pub enum Step {
    Running,
    Finished,
}

fn int_of(v: &Value) -> (r: Result<i64, RuntimeError>)
    ensures
        v is Int ==> r == Ok::<i64, RuntimeError>(v->Int_0),
        !(v is Int) ==> r == Err::<i64, RuntimeError>(RuntimeError::WrongValueKind),
{
    match v {
        Value::Int(i) => Ok(*i),
        _ => Err(RuntimeError::WrongValueKind),
    }
}

fn pointer_of(v: &Value) -> (r: Result<Pointer, RuntimeError>)
    ensures
        v is Pointer ==> r == Ok::<Pointer, RuntimeError>(v->Pointer_0),
        !(v is Pointer) ==> r == Err::<Pointer, RuntimeError>(RuntimeError::WrongValueKind),
{
    match v {
        Value::Pointer(p) => Ok(crate::value::copy_pointer(p)),
        _ => Err(RuntimeError::WrongValueKind),
    }
}

/// `p` moved by `k` cells; the offset wraps as a 64-bit integer.
pub fn ptr_add(p: &Pointer, k: i64) -> (r: Pointer)
    ensures
        r.base == p.base,
        r.ty == p.ty,
        r.offset == p.offset.wrapping_add(k),
        r == (Pointer { offset: p.offset.wrapping_add(k), ..*p }),
{
    Pointer { base: p.base, ty: copy_type(&p.ty), offset: p.offset.wrapping_add(k) }
}

fn literal_value(l: &Literal) -> (r: Value)
    ensures
        match *l {
            Literal::Int(i) => r == Value::Int(i),
            Literal::Bool(b) => r == Value::Bool(b),
            Literal::Float(f) => r == Value::Float(f),
        },
{
    match l {
        Literal::Int(i) => Value::Int(*i),
        Literal::Bool(b) => Value::Bool(*b),
        Literal::Float(f) => Value::Float(*f),
    }
}

/// The block that label `l` names in function `f`.
fn jump_target(f: &BBFunction, l: &String) -> (r: Result<usize, RuntimeError>)
    ensures
        r matches Ok(j) ==> resolves(labels_of(f.blocks@), l@, j as int) && j < f.blocks@.len()
            && (choose|i: int| resolves(labels_of(f.blocks@), l@, i)) == j as int,
        r is Err ==> r == Err::<usize, RuntimeError>(RuntimeError::UnknownLabel) && !(exists|i: int|
            resolves(labels_of(f.blocks@), l@, i)),
{
    proof {
        assert forall|i: int| resolves(labels_of(f.blocks@), l@, i) implies labeled(labels_of(f.blocks@), l@) by {
            assert(has_label(labels_of(f.blocks@)[i], l@));
        }
    }
    match resolve(&f.blocks, l) {
        Some(j) => {
            proof {
                let i = choose|i: int| resolves(labels_of(f.blocks@), l@, i);
                lemma_resolves_unique(labels_of(f.blocks@), l@, i, j as int);
            }
            Ok(j)
        },
        None => Err(RuntimeError::UnknownLabel),
    }
}

pub proof fn lemma_resolves_unique(labels: Seq<Option<String>>, l: Seq<char>, a: int, b: int)
    requires
        resolves(labels, l, a),
        resolves(labels, l, b),
    ensures
        a == b,
{
    if a < b {
        assert(has_label(labels[a], l));
    } else if b < a {
        assert(has_label(labels[b], l));
    }
}

/// The step's result and final machine agree with outcome `o`; a failed
/// step prints nothing.
pub open spec fn outcome_matches(o: Outcome, r: Result<Step, RuntimeError>, before: Machine, after: Machine) -> bool {
    match o {
        Outcome::Running(s) => r == Ok::<Step, RuntimeError>(Step::Running) && machine_view(after) == s,
        Outcome::Finished(s) => r == Ok::<Step, RuntimeError>(Step::Finished) && machine_view(after) == s,
        Outcome::Failed(e) => r == Err::<Step, RuntimeError>(e) && after.output@ == before.output@,
    }
}

/// Leaves the top frame, handing `value` to the caller. Returns `Finished`
/// when the frame left was the last.
fn return_from(prog: &BBProgram, m: &mut Machine, fr: Frame, value: Option<Value>, Ghost(max_depth): Ghost<usize>) -> (r: Result<Step, RuntimeError>)
    requires
        old(m).ok(*prog, max_depth),
    ensures
        final(m).ok(*prog, max_depth),
        final(m).output == old(m).output,
        final(m).count == old(m).count,
        r == Ok::<Step, RuntimeError>(Step::Finished) <==> old(m).stack@.len() == 0,
        r is Ok ==> final(m).stack@.len() == old(m).stack@.len(),
        outcome_matches(ret_spec(machine_view(*old(m)), fr.ret_dest, value), r, *old(m), *final(m)),
{
    if m.stack.len() == 0 {
        return Ok(Step::Finished);
    }
    let ghost rd = fr.ret_dest;
    let mut caller = m.stack.pop().unwrap();
    assert(frame_ok(prog.functions@, old(m).stack@[old(m).stack@.len() - 1]));
    match fr.ret_dest {
        Some(d) => match value {
            Some(v) => var_set(&mut caller.vars, &d, v),
            None => {
                m.stack.push(caller);
                assert(m.stack@ =~= old(m).stack@);
                return Err(RuntimeError::MissingReturnValue);
            },
        },
        None => {},
    }
    m.stack.push(caller);
    proof {
        assert forall|i: int| 0 <= i < m.stack@.len() implies #[trigger] frame_ok(prog.functions@, m.stack@[i]) by {
            if i < m.stack@.len() - 1 {
                assert(m.stack@[i] == old(m).stack@[i]);
            }
        }
        let sv = machine_view(*old(m));
        let caller0 = sv.stack.last();
        assert(caller0 == frame_view(old(m).stack@.last()));
        match rd {
            Some(d) => {
                assert(machine_view(*m).stack =~= sv.stack.drop_last().push(
                    FrameState { vars: env_set(caller0.vars, d, value->Some_0), ..caller0 },
                ));
            },
            None => {
                assert(machine_view(*m).stack =~= sv.stack);
            },
        }
    }
    Ok(Step::Running)
}

/// `b` begins with `a`.
pub open spec fn extends(a: Seq<u8>, b: Seq<u8>) -> bool {
    b.len() >= a.len() && b.subrange(0, a.len() as int) == a
}

proof fn lemma_stack_push(fs: Seq<BBFunction>, s: Seq<Frame>, f: Frame)
    requires
        forall|i: int| 0 <= i < s.len() ==> #[trigger] frame_ok(fs, s[i]),
        frame_ok(fs, f),
    ensures
        forall|i: int| 0 <= i < s.push(f).len() ==> #[trigger] frame_ok(fs, s.push(f)[i]),
{
    assert forall|i: int| 0 <= i < s.push(f).len() implies #[trigger] frame_ok(fs, s.push(f)[i]) by {
        if i < s.len() {
            assert(s.push(f)[i] == s[i]);
        }
    }
}

/// Calls the function named by `funcs` with `vals`: the caller `fr` moves
/// past the call, and a frame for the callee, with its parameters bound,
/// goes on top. A stack that would exceed `max_depth` frames is an error.
fn call(
    prog: &BBProgram,
    m: &mut Machine,
    fr: Frame,
    funcs: &Vec<String>,
    vals: Vec<Value>,
    dest: Option<String>,
    max_depth: usize,
) -> (r: Result<Step, RuntimeError>)
    requires
        prog.wf(),
        old(m).heap.wf(),
        old(m).stack@.len() < max_depth,
        forall|i: int| 0 <= i < old(m).stack@.len() ==> #[trigger] frame_ok(prog.functions@, old(m).stack@[i]),
        frame_ok(prog.functions@, fr),
        fr.pos < prog.functions@[fr.func as int].blocks@[fr.block as int].instrs@.len(),
        fr.pos < usize::MAX,
    ensures
        final(m).output == old(m).output,
        final(m).count == old(m).count,
        final(m).heap == old(m).heap,
        r is Ok ==> r == Ok::<Step, RuntimeError>(Step::Running) && final(m).ok(*prog, max_depth)
            && final(m).stack@.len() == old(m).stack@.len() + 2 && final(m).stack@.last().block == 0
            && final(m).stack@.last().pos == 0 && funcs@.len() == 1 && find_function(
            prog.functions@,
            funcs@[0]@,
        ) == Some(final(m).stack@.last().func as int),
        old(m).stack@.len() + 2 > max_depth ==> r is Err,
        outcome_matches(
            call_spec(*prog, machine_view(*old(m)), frame_view(fr), funcs@, vals@, dest, max_depth),
            r,
            *old(m),
            *final(m),
        ),
{
    let fs = &prog.functions;
    if funcs.len() != 1 {
        return Err(RuntimeError::UndefinedFunction);
    }
    let ci = match function_index(fs, &funcs[0]) {
        Some(ci) => ci,
        None => {
            return Err(RuntimeError::UndefinedFunction);
        },
    };
    let callee = &fs[ci];
    if callee.args.len() != vals.len() {
        return Err(RuntimeError::BadArgumentCount);
    }
    if m.stack.len() >= max_depth - 1 {
        return Err(RuntimeError::StackOverflow);
    }
    let mut vars: Vars = Vec::new();
    let mut k: usize = 0;
    while k < vals.len()
        invariant
            k <= vals@.len(),
            vals@.len() == callee.args@.len(),
            names_distinct(vars@),
            vars@ == bind_params(callee.args@, vals@, k as nat),
        decreases vals.len() - k,
    {
        var_set(&mut vars, &callee.args[k].name, copy_value(&vals[k]));
        k = k + 1;
    }
    assert(prog.functions@[ci as int].wf());
    let ghost fr0 = fr;
    let mut fr = fr;
    fr.pos = fr.pos + 1;
    let ghost s0 = m.stack@;
    m.stack.push(fr);
    proof {
        lemma_stack_push(prog.functions@, s0, fr);
        assert(frame_view(fr) == (FrameState { pos: (fr0.pos + 1) as usize, ..frame_view(fr0) }));
    }
    let callee_frame = Frame { func: ci, block: 0, pos: 0, vars, ret_dest: dest };
    let ghost s1 = m.stack@;
    m.stack.push(callee_frame);
    proof {
        lemma_stack_push(prog.functions@, s1, callee_frame);
        let sv = machine_view(*old(m));
        assert(machine_view(*m).stack =~= sv.stack.push(frame_view(fr)).push(frame_view(callee_frame)));
    }
    Ok(Step::Running)
}

/// Puts the frame back after its instruction, one position further on.
fn advance(prog: &BBProgram, m: &mut Machine, fr: Frame, Ghost(max_depth): Ghost<usize>)
    requires
        old(m).stack@.len() < max_depth,
        forall|i: int| 0 <= i < old(m).stack@.len() ==> #[trigger] frame_ok(prog.functions@, old(m).stack@[i]),
        frame_ok(prog.functions@, fr),
        fr.pos < prog.functions@[fr.func as int].blocks@[fr.block as int].instrs@.len(),
        fr.pos < usize::MAX,
        old(m).heap.wf(),
    ensures
        final(m).ok(*prog, max_depth),
        final(m).output == old(m).output,
        final(m).count == old(m).count,
        final(m).heap == old(m).heap,
        final(m).stack@ == old(m).stack@.push(Frame { pos: (fr.pos + 1) as usize, ..fr }),
        machine_view(*final(m)) == push_next(machine_view(*old(m)), frame_view(fr)),
{
    let ghost fr0 = fr;
    let mut fr = fr;
    fr.pos = fr.pos + 1;
    let ghost s0 = m.stack@;
    m.stack.push(fr);
    proof {
        lemma_stack_push(prog.functions@, s0, fr);
        assert(machine_view(*m).stack =~= push_next(machine_view(*old(m)), frame_view(fr0)).stack);
    }
}

/// The value a literal stands for.
pub open spec fn literal_spec(l: Literal) -> Value {
    match l {
        Literal::Int(i) => Value::Int(i),
        Literal::Bool(b) => Value::Bool(b),
        Literal::Float(f) => Value::Float(f),
    }
}

/// `vals` are the values that `args` are bound to.
pub open spec fn args_bound(env: Seq<(String, Value)>, args: Seq<String>, vals: Seq<Value>) -> bool {
    vals.len() == args.len() && forall|i: int| 0 <= i < args.len() ==> bound(env, args[i]@, #[trigger] vals[i])
}

/// A frame as the semantics sees it.
pub struct FrameState {
    pub func: usize,
    pub block: usize,
    pub pos: usize,
    pub vars: Seq<(String, Value)>,
    pub ret_dest: Option<String>,
}

/// The machine as the semantics sees it.
pub struct MachineState {
    pub stack: Seq<FrameState>,
    pub cells: Seq<Option<Value>>,
    pub regions: Seq<Region>,
    pub output: Seq<u8>,
    pub count: int,
}

pub open spec fn frame_view(f: Frame) -> FrameState {
    FrameState { func: f.func, block: f.block, pos: f.pos, vars: f.vars@, ret_dest: f.ret_dest }
}

pub open spec fn machine_view(m: Machine) -> MachineState {
    MachineState {
        stack: m.stack@.map_values(|f: Frame| frame_view(f)),
        cells: m.heap.cells@,
        regions: m.heap.regions@,
        output: m.output@,
        count: m.count as int,
    }
}

/// What one step leads to.
pub enum Outcome {
    Running(MachineState),
    Finished(MachineState),
    Failed(RuntimeError),
}

/// The state with `fr`, moved to its next instruction, back on top.
pub open spec fn push_next(s: MachineState, fr: FrameState) -> MachineState {
    MachineState { stack: s.stack.push(FrameState { pos: (fr.pos + 1) as usize, ..fr }), ..s }
}

/// The parameters bound, in order, to the first `k` values.
pub open spec fn bind_params(params: Seq<Argument>, vals: Seq<Value>, k: nat) -> Seq<(String, Value)>
    decreases k,
{
    if k == 0 {
        Seq::empty()
    } else {
        env_set(bind_params(params, vals, (k - 1) as nat), params[k - 1].name, vals[k - 1])
    }
}

/// Leaving a frame whose caller is on top of `s` (if any), handing it
/// `value` for `ret_dest`.
pub open spec fn ret_spec(s: MachineState, ret_dest: Option<String>, value: Option<Value>) -> Outcome {
    if s.stack.len() == 0 {
        Outcome::Finished(s)
    } else {
        let caller = s.stack.last();
        match ret_dest {
            Some(d) => match value {
                Some(v) => Outcome::Running(
                    MachineState {
                        stack: s.stack.drop_last().push(FrameState { vars: env_set(caller.vars, d, v), ..caller }),
                        ..s
                    },
                ),
                None => Outcome::Failed(RuntimeError::MissingReturnValue),
            },
            None => Outcome::Running(s),
        }
    }
}

/// Calling the function named by `funcs` with `vals` from frame `fr`.
pub open spec fn call_spec(
    prog: BBProgram,
    s: MachineState,
    fr: FrameState,
    funcs: Seq<String>,
    vals: Seq<Value>,
    dest: Option<String>,
    max_depth: usize,
) -> Outcome {
    let fs = prog.functions@;
    if funcs.len() != 1 {
        Outcome::Failed(RuntimeError::UndefinedFunction)
    } else {
        match find_function(fs, funcs[0]@) {
            None => Outcome::Failed(RuntimeError::UndefinedFunction),
            Some(ci) => if fs[ci].args@.len() != vals.len() {
                Outcome::Failed(RuntimeError::BadArgumentCount)
            } else if s.stack.len() >= max_depth - 1 {
                Outcome::Failed(RuntimeError::StackOverflow)
            } else {
                Outcome::Running(
                    MachineState {
                        stack: s.stack.push(FrameState { pos: (fr.pos + 1) as usize, ..fr }).push(
                            FrameState {
                                func: ci as usize,
                                block: 0,
                                pos: 0,
                                vars: bind_params(fs[ci].args@, vals, vals.len()),
                                ret_dest: dest,
                            },
                        ),
                        ..s
                    },
                )
            },
        }
    }
}

/// The value an operation other than a call produces, and the heap after it.
pub open spec fn value_spec(s: MachineState, op: ValueOp, ty: Type, vals: Seq<Value>) -> Result<(Value, MachineState), RuntimeError> {
    match op {
        ValueOp::Alloc => if vals.len() != 1 || !(vals[0] is Int) || !(ty is Pointer) {
            Err(RuntimeError::WrongValueKind)
        } else {
            let n = vals[0]->Int_0;
            if n < 0 {
                Err(RuntimeError::NegativeAllocation)
            } else if !fits(s.cells.len() as int, s.regions, n as int) {
                Err(RuntimeError::AllocationTooLarge)
            } else {
                Ok((
                    Value::Pointer(Pointer { base: s.regions.len() as usize, ty: *ty->Pointer_0, offset: 0 }),
                    MachineState {
                        cells: s.cells + Seq::new(n as nat, |i: int| None::<Value>),
                        regions: s.regions.push(Region { start: s.cells.len() as usize, len: n as usize, live: true }),
                        ..s
                    },
                ))
            }
        },
        ValueOp::Load => if vals.len() != 1 || !(vals[0] is Pointer) {
            Err(RuntimeError::WrongValueKind)
        } else {
            match load_of(s.cells, s.regions, vals[0]->Pointer_0) {
                Ok(v) => Ok((v, s)),
                Err(e) => Err(e),
            }
        },
        ValueOp::PtrAdd => if vals.len() != 2 || !(vals[0] is Pointer) || !(vals[1] is Int) {
            Err(RuntimeError::WrongValueKind)
        } else {
            let p = vals[0]->Pointer_0;
            Ok((Value::Pointer(Pointer { offset: p.offset.wrapping_add(vals[1]->Int_0), ..p }), s))
        },
        _ => match pure_op(op, vals) {
            Ok(v) => Ok((v, s)),
            Err(e) => Err(e),
        },
    }
}

/// Moving frame `fr` of function `f` to the block that label `l` names.
pub open spec fn jump_spec(s: MachineState, fr: FrameState, f: BBFunction, l: Seq<char>) -> Outcome {
    if exists|j: int| resolves(labels_of(f.blocks@), l, j) {
        let j = choose|j: int| resolves(labels_of(f.blocks@), l, j);
        Outcome::Running(MachineState { stack: s.stack.push(FrameState { block: j as usize, pos: 0, ..fr }), ..s })
    } else {
        Outcome::Failed(RuntimeError::UnknownLabel)
    }
}

/// An effect operation run from frame `fr` of function `f`.
pub open spec fn effect_spec(
    prog: BBProgram,
    s: MachineState,
    fr: FrameState,
    f: BBFunction,
    op: EffectOp,
    vals: Seq<Value>,
    funcs: Seq<String>,
    labels: Seq<String>,
    max_depth: usize,
) -> Outcome {
    match op {
        EffectOp::Jmp | EffectOp::Br => {
            let which: Result<int, RuntimeError> = if op == EffectOp::Jmp {
                Ok(0)
            } else if vals.len() != 1 || !(vals[0] is Bool) {
                Err(RuntimeError::WrongValueKind)
            } else if vals[0]->Bool_0 {
                Ok(0)
            } else {
                Ok(1)
            };
            match which {
                Err(e) => Outcome::Failed(e),
                Ok(w) => if w >= labels.len() || (op == EffectOp::Br && labels.len() != 2) {
                    Outcome::Failed(RuntimeError::UnknownLabel)
                } else {
                    jump_spec(s, fr, f, labels[w]@)
                },
            }
        },
        EffectOp::Call => call_spec(prog, s, fr, funcs, vals, None, max_depth),
        EffectOp::Ret => {
            let v = if vals.len() > 0 {
                Some(vals[0])
            } else {
                None
            };
            if f.return_type is Some && v is None {
                Outcome::Failed(RuntimeError::MissingReturnValue)
            } else {
                ret_spec(s, fr.ret_dest, v)
            }
        },
        EffectOp::Print => match render_line(vals) {
            Some(t) => Outcome::Running(push_next(MachineState { output: s.output + t, ..s }, fr)),
            None => Outcome::Failed(print_error(vals)),
        },
        EffectOp::Nop => Outcome::Running(push_next(s, fr)),
        EffectOp::Store => if vals.len() != 2 || !(vals[0] is Pointer) {
            Outcome::Failed(RuntimeError::WrongValueKind)
        } else {
            let p = vals[0]->Pointer_0;
            match access_error_of(s.regions, p) {
                Some(e) => Outcome::Failed(e),
                None => Outcome::Running(
                    push_next(MachineState { cells: s.cells.update(cell_of(s.regions, p), Some(vals[1])), ..s }, fr),
                ),
            }
        },
        EffectOp::Free => if vals.len() != 1 || !(vals[0] is Pointer) {
            Outcome::Failed(RuntimeError::WrongValueKind)
        } else {
            let p = vals[0]->Pointer_0;
            if p.base >= s.regions.len() || !s.regions[p.base as int].live {
                Outcome::Failed(RuntimeError::DoubleFree)
            } else {
                Outcome::Running(
                    push_next(
                        MachineState {
                            regions: s.regions.update(p.base as int, Region { live: false, ..s.regions[p.base as int] }),
                            ..s
                        },
                        fr,
                    ),
                )
            }
        },
    }
}

/// Running instruction `ins` of function `f` from frame `fr`; `s` is the
/// state without that frame, its count already raised.
pub open spec fn instr_spec(
    prog: BBProgram,
    s: MachineState,
    fr: FrameState,
    f: BBFunction,
    ins: Instruction,
    max_depth: usize,
) -> Outcome {
    match ins {
        Instruction::Constant { dest, value, .. } => Outcome::Running(
            push_next(s, FrameState { vars: env_set(fr.vars, dest, literal_spec(value)), ..fr }),
        ),
        Instruction::Value { dest, ty, op, args, funcs, .. } => match arg_vals(fr.vars, args@) {
            None => Outcome::Failed(RuntimeError::UndefinedVariable),
            Some(vals) => if op == ValueOp::Call {
                call_spec(prog, s, fr, funcs@, vals, Some(dest), max_depth)
            } else {
                match value_spec(s, op, ty, vals) {
                    Err(e) => Outcome::Failed(e),
                    Ok((v, s2)) => Outcome::Running(
                        push_next(s2, FrameState { vars: env_set(fr.vars, dest, v), ..fr }),
                    ),
                }
            },
        },
        Instruction::Effect { op, args, funcs, labels } => match arg_vals(fr.vars, args@) {
            None => Outcome::Failed(RuntimeError::UndefinedVariable),
            Some(vals) => effect_spec(prog, s, fr, f, op, vals, funcs@, labels@, max_depth),
        },
    }
}

/// What one step of the machine does: run the instruction the top frame
/// stands at, or, past the end of its block, move to the block's successor
/// or return.
pub open spec fn step_spec(prog: BBProgram, s: MachineState, max_depth: usize) -> Outcome {
    let fr = s.stack.last();
    let rest = MachineState { stack: s.stack.drop_last(), ..s };
    let f = prog.functions@[fr.func as int];
    let blk = f.blocks@[fr.block as int];
    if fr.pos >= blk.instrs@.len() {
        if blk.exit@.len() > 0 {
            Outcome::Running(MachineState { stack: rest.stack.push(FrameState { block: blk.exit@[0], pos: 0, ..fr }), ..rest })
        } else if f.return_type is Some {
            Outcome::Failed(RuntimeError::MissingReturnValue)
        } else {
            ret_spec(rest, fr.ret_dest, None)
        }
    } else {
        instr_spec(prog, MachineState { count: s.count + 1, ..rest }, fr, f, blk.instrs@[fr.pos as int], max_depth)
    }
}

/// The frame stands in a block of a function of the program.
pub open spec fn state_frame_ok(prog: BBProgram, f: FrameState) -> bool {
    f.func < prog.functions@.len() && f.block < prog.functions@[f.func as int].blocks@.len()
}

/// A step keeps every frame in a block of a function of the program.
pub proof fn lemma_step_keeps_frames(prog: BBProgram, s: MachineState, max_depth: usize)
    requires
        prog.wf(),
        s.stack.len() > 0,
        forall|i: int| 0 <= i < s.stack.len() ==> #[trigger] state_frame_ok(prog, s.stack[i]),
    ensures
        step_spec(prog, s, max_depth) matches Outcome::Running(s2) ==> forall|i: int|
            0 <= i < s2.stack.len() ==> #[trigger] state_frame_ok(prog, s2.stack[i]),
{
    let fr = s.stack.last();
    assert(state_frame_ok(prog, s.stack[s.stack.len() - 1]));
    let f = prog.functions@[fr.func as int];
    assert(f.wf());
    crate::basic_block::lemma_successors_in_range(f);
    assert forall|n: Seq<char>| #[trigger] find_function(prog.functions@, n) matches Some(ci) ==> 0 <= ci
        < prog.functions@.len() by {
        crate::check::lemma_find_function_range(prog.functions@, n);
    }
    assert forall|ci: int| 0 <= ci < prog.functions@.len() implies (#[trigger] prog.functions@[ci]).blocks@.len() > 0 by {
        assert(prog.functions@[ci].wf());
    }
    if let Outcome::Running(s2) = step_spec(prog, s, max_depth) {
        assert forall|i: int| 0 <= i < s2.stack.len() implies #[trigger] state_frame_ok(prog, s2.stack[i]) by {
            if i < s.stack.len() - 1 {
                assert(state_frame_ok(prog, s.stack[i]));
            }
            if i < s.stack.len() {
                assert(state_frame_ok(prog, s.stack[i]));
            }
        }
    }
}

/// At most `fuel` steps from `s`: what has been printed, and the count when
/// the program finished or the error that stopped it.
pub open spec fn run_spec(prog: BBProgram, s: MachineState, max_depth: usize, fuel: nat) -> (Seq<u8>, Result<int, RuntimeError>)
    decreases fuel,
{
    if fuel == 0 {
        (s.output, Err(RuntimeError::StepLimit))
    } else {
        match step_spec(prog, s, max_depth) {
            Outcome::Running(s2) => if s2.stack.len() == 0 {
                (s2.output, Ok(s2.count))
            } else {
                run_spec(prog, s2, max_depth, (fuel - 1) as nat)
            },
            Outcome::Finished(s2) => (s2.output, Ok(s2.count)),
            Outcome::Failed(e) => (s.output, Err(e)),
        }
    }
}

/// Runs the instruction at the top frame's position, or, at the end of a
/// block, moves to its successor or returns. Each instruction run adds one
/// to the count; moving past the end of a block adds none. Output is only
/// ever appended to.
pub fn step(prog: &BBProgram, m: &mut Machine, max_depth: usize) -> (r: Result<Step, RuntimeError>)
    requires
        prog.wf(),
        old(m).ok(*prog, max_depth),
        old(m).stack@.len() > 0,
        old(m).count < u64::MAX,
    ensures
        r is Ok ==> final(m).ok(*prog, max_depth),
        extends(old(m).output@, final(m).output@),
        outcome_matches(step_spec(*prog, machine_view(*old(m)), max_depth), r, *old(m), *final(m)),
{
    let fs = &prog.functions;
    let ghost out0 = m.output@;
    assert(out0.subrange(0, out0.len() as int) =~= out0);
    let ghost v0 = machine_view(*old(m));
    let fr = m.stack.pop().unwrap();
    assert(frame_ok(fs@, fr));
    proof {
        assert(machine_view(*m).stack =~= v0.stack.drop_last());
        assert(frame_view(fr) == v0.stack.last());
        assert(machine_view(*m) == (MachineState { stack: v0.stack.drop_last(), ..v0 }));
    }
    let f = &fs[fr.func];
    assert(f.wf());
    let blk = &f.blocks[fr.block];
    if fr.pos >= blk.instrs.len() {
        proof {
            lemma_successors_in_range(*f);
        }
        if blk.exit.len() > 0 {
            let ghost fr0 = fr;
            let mut fr = fr;
            fr.block = blk.exit[0];
            fr.pos = 0;
            let ghost s0 = m.stack@;
            m.stack.push(fr);
            proof {
                lemma_stack_push(fs@, s0, fr);
                assert(machine_view(*m).stack =~= v0.stack.drop_last().push(
                    FrameState { block: blk.exit@[0], pos: 0, ..frame_view(fr0) },
                ));
            }
            return Ok(Step::Running);
        }
        if f.return_type.is_some() {
            return Err(RuntimeError::MissingReturnValue);
        }
        return return_from(prog, m, fr, None, Ghost(max_depth));
    }
    let ins = &blk.instrs[fr.pos];
    m.count = m.count + 1;
    proof {
        assert(machine_view(*m) == (MachineState { stack: v0.stack.drop_last(), count: v0.count + 1, ..v0 }));
        assert(*ins == blk.instrs@[fr.pos as int]);
    }
    let ghost frv = frame_view(fr);
    let mut fr = fr;
    match ins {
        Instruction::Constant { dest, value, .. } => {
            var_set(&mut fr.vars, dest, literal_value(value));
            assert(frame_view(fr) == (FrameState { vars: env_set(frv.vars, *dest, literal_spec(*value)), ..frv }));
            advance(prog, m, fr, Ghost(max_depth));
            assert(outcome_matches(step_spec(*prog, v0, max_depth), Ok(Step::Running), *old(m), *m));
            Ok(Step::Running)
        },
        Instruction::Value { dest, ty, op, args, funcs, .. } => {
            let vals = match arg_values(&fr.vars, args) {
                Ok(vals) => vals,
                Err(e) => {
                    proof {
                        let i = choose|i: int| 0 <= i < args@.len() && #[trigger] unbound(fr.vars@, args@[i]@);
                        assert forall|vs: Seq<Value>| !#[trigger] args_bound(fr.vars@, args@, vs) by {
                            if args_bound(fr.vars@, args@, vs) {
                                assert(bound(fr.vars@, args@[i]@, vs[i]));
                            }
                        }
                    }
                    return Err(e);
                },
            };
            let ghost s1 = machine_view(*m);
            let v = match op {
                ValueOp::Call => {
                    return call(prog, m, fr, funcs, vals, Some(dest.clone()), max_depth);
                },
                ValueOp::Alloc => {
                    if vals.len() != 1 {
                        return Err(RuntimeError::WrongValueKind);
                    }
                    proof {
                        assert forall|n: i64| #[trigger] bound(fr.vars@, args@[0]@, Value::Int(n)) implies vals@[0] == Value::Int(n) by {
                            lemma_bound_unique(fr.vars@, args@[0]@, vals@[0], Value::Int(n));
                        }
                    }
                    let n = int_of(&vals[0])?;
                    let pointee = match ty {
                        Type::Pointer(t) => copy_type(t),
                        _ => {
                            return Err(RuntimeError::WrongValueKind);
                        },
                    };
                    Value::Pointer(m.heap.allocate(n, pointee)?)
                },
                ValueOp::Load => {
                    if vals.len() != 1 {
                        return Err(RuntimeError::WrongValueKind);
                    }
                    proof {
                        assert forall|p: Pointer| #[trigger] bound(fr.vars@, args@[0]@, Value::Pointer(p)) implies vals@[0] == Value::Pointer(p) by {
                            lemma_bound_unique(fr.vars@, args@[0]@, vals@[0], Value::Pointer(p));
                        }
                    }
                    let p = pointer_of(&vals[0])?;
                    m.heap.load(&p)?
                },
                ValueOp::PtrAdd => {
                    if vals.len() != 2 {
                        return Err(RuntimeError::WrongValueKind);
                    }
                    let p = pointer_of(&vals[0])?;
                    let k = int_of(&vals[1])?;
                    Value::Pointer(ptr_add(&p, k))
                },
                _ => {
                    assert(args_bound(fr.vars@, args@, vals@));
                    proof {
                        assert forall|vs: Seq<Value>| #[trigger] args_bound(fr.vars@, args@, vs) implies vs == vals@ by {
                            lemma_args_bound_unique(fr.vars@, args@, vs, vals@);
                        }
                    }
                    eval_pure(*op, &vals)?
                },
            };
            assert(value_spec(s1, *op, *ty, vals@) == Ok::<(Value, MachineState), RuntimeError>((v, machine_view(*m))));
            var_set(&mut fr.vars, dest, v);
            assert(frame_view(fr) == (FrameState { vars: env_set(frv.vars, *dest, v), ..frv }));
            advance(prog, m, fr, Ghost(max_depth));
            assert(outcome_matches(step_spec(*prog, v0, max_depth), Ok(Step::Running), *old(m), *m));
            Ok(Step::Running)
        },
        Instruction::Effect { op, args, funcs, labels } => {
            let ghost s2 = machine_view(*m);
            let vals = arg_values(&fr.vars, args)?;
            match op {
                EffectOp::Jmp | EffectOp::Br => {
                    let which: usize = if *op == EffectOp::Jmp {
                        0
                    } else {
                        if vals.len() != 1 {
                            return Err(RuntimeError::WrongValueKind);
                        }
                        match &vals[0] {
                            Value::Bool(c) => if *c {
                                0
                            } else {
                                1
                            },
                            _ => {
                                return Err(RuntimeError::WrongValueKind);
                            },
                        }
                    };
                    if which >= labels.len() || (*op == EffectOp::Br && labels.len() != 2) {
                        return Err(RuntimeError::UnknownLabel);
                    }
                    let j = jump_target(f, &labels[which])?;
                    fr.block = j;
                    fr.pos = 0;
                    let ghost s0 = m.stack@;
                    m.stack.push(fr);
                    proof {
                        lemma_stack_push(fs@, s0, fr);
                        assert(machine_view(*m).stack =~= s2.stack.push(FrameState { block: j, pos: 0, ..frv }));
                        assert(machine_view(*m) == (MachineState { stack: s2.stack.push(FrameState { block: j, pos: 0, ..frv }), ..s2 }));
                        assert(resolves(labels_of(f.blocks@), labels@[which as int]@, j as int));
                        assert((choose|i: int| resolves(labels_of(f.blocks@), labels@[which as int]@, i)) == j as int);
                        assert(*f == prog.functions@[frv.func as int]);
                        assert(frv.vars == fr.vars@);
                        assert(step_spec(*prog, v0, max_depth) == instr_spec(*prog, s2, frv, *f, *ins, max_depth));
                        assert(arg_vals(frv.vars, args@) == Some(vals@));
                        assert(instr_spec(*prog, s2, frv, *f, *ins, max_depth) == effect_spec(*prog, s2, frv, *f, *op, vals@, funcs@, labels@, max_depth));
                        let wi: int = which as int;
                        if *op == EffectOp::Jmp {
                            assert(wi == 0);
                        } else {
                            assert(vals@.len() == 1 && vals@[0] is Bool);
                            assert(wi == (if vals@[0]->Bool_0 { 0int } else { 1int }));
                        }
                        assert(!(wi >= labels@.len() || (*op == EffectOp::Br && labels@.len() != 2)));
                        assert(exists|jj: int| resolves(labels_of(f.blocks@), labels@[wi]@, jj));
                        assert(jump_spec(s2, frv, *f, labels@[wi]@) == Outcome::Running(MachineState { stack: s2.stack.push(FrameState { block: j, pos: 0, ..frv }), ..s2 }));
                        assert(effect_spec(*prog, s2, frv, *f, *op, vals@, funcs@, labels@, max_depth) == Outcome::Running(MachineState { stack: s2.stack.push(FrameState { block: j, pos: 0, ..frv }), ..s2 }));
                    }
                    assert(outcome_matches(step_spec(*prog, v0, max_depth), Ok(Step::Running), *old(m), *m));
                    Ok(Step::Running)
                },
                EffectOp::Call => call(prog, m, fr, funcs, vals, None, max_depth),
                EffectOp::Ret => {
                    let v = if vals.len() > 0 {
                        Some(copy_value(&vals[0]))
                    } else {
                        None
                    };
                    if f.return_type.is_some() && v.is_none() {
                        return Err(RuntimeError::MissingReturnValue);
                    }
                    return_from(prog, m, fr, v, Ghost(max_depth))
                },
                EffectOp::Print => {
                    print_line(&mut m.output, &vals)?;
                    assert(machine_view(*m) == (MachineState { output: s2.output + render_line(vals@)->Some_0, ..s2 }));
                    proof {
                        assert(args_bound(fr.vars@, args@, vals@));
                        assert(m.output@.subrange(0, out0.len() as int) =~= out0);
                    }
                    advance(prog, m, fr, Ghost(max_depth));
                    assert(outcome_matches(step_spec(*prog, v0, max_depth), Ok(Step::Running), *old(m), *m));
                    Ok(Step::Running)
                },
                EffectOp::Nop => {
                    advance(prog, m, fr, Ghost(max_depth));
                    assert(outcome_matches(step_spec(*prog, v0, max_depth), Ok(Step::Running), *old(m), *m));
                    Ok(Step::Running)
                },
                EffectOp::Store => {
                    if vals.len() != 2 {
                        return Err(RuntimeError::WrongValueKind);
                    }
                    proof {
                        assert forall|p: Pointer| #[trigger] bound(fr.vars@, args@[0]@, Value::Pointer(p)) implies vals@[0] == Value::Pointer(p) by {
                            lemma_bound_unique(fr.vars@, args@[0]@, vals@[0], Value::Pointer(p));
                        }
                        assert forall|v: Value| #[trigger] bound(fr.vars@, args@[1]@, v) implies vals@[1] == v by {
                            lemma_bound_unique(fr.vars@, args@[1]@, vals@[1], v);
                        }
                    }
                    let p = pointer_of(&vals[0])?;
                    m.heap.store(&p, copy_value(&vals[1]))?;
                    assert(machine_view(*m) == (MachineState { cells: s2.cells.update(cell_of(s2.regions, p), Some(vals@[1])), ..s2 }));
                    advance(prog, m, fr, Ghost(max_depth));
                    assert(outcome_matches(step_spec(*prog, v0, max_depth), Ok(Step::Running), *old(m), *m));
                    Ok(Step::Running)
                },
                EffectOp::Free => {
                    if vals.len() != 1 {
                        return Err(RuntimeError::WrongValueKind);
                    }
                    proof {
                        assert forall|p: Pointer| #[trigger] bound(fr.vars@, args@[0]@, Value::Pointer(p)) implies vals@[0] == Value::Pointer(p) by {
                            lemma_bound_unique(fr.vars@, args@[0]@, vals@[0], Value::Pointer(p));
                        }
                    }
                    let p = pointer_of(&vals[0])?;
                    m.heap.free(&p)?;
                    assert(machine_view(*m) == (MachineState {
                        regions: s2.regions.update(p.base as int, Region { live: false, ..s2.regions[p.base as int] }),
                        ..s2
                    }));
                    advance(prog, m, fr, Ghost(max_depth));
                    assert(outcome_matches(step_spec(*prog, v0, max_depth), Ok(Step::Running), *old(m), *m));
                    Ok(Step::Running)
                },
            }
        },
    }
}

pub open spec fn is_digit(c: char) -> bool {
    '0' <= c && c <= '9'
}

/// The number that a run of decimal digits spells.
pub open spec fn digits_value(s: Seq<char>) -> nat
    decreases s.len(),
{
    if s.len() == 0 {
        0
    } else {
        digits_value(s.drop_last()) * 10 + (s.last() as nat - 48) as nat
    }
}

/// The text starts with a minus sign.
pub open spec fn is_negative_text(s: Seq<char>) -> bool {
    s.len() > 0 && s[0] == '-'
}

/// The digits of an integer's text: what follows the sign, if any.
pub open spec fn digits_part(s: Seq<char>) -> Seq<char> {
    if is_negative_text(s) {
        s.subrange(1, s.len() as int)
    } else {
        s
    }
}

/// The integer that `s` spells: an optional `-`, then one or more decimal
/// digits, within the range of a 64-bit signed integer.
pub open spec fn int_text(s: Seq<char>) -> Option<int> {
    let neg = is_negative_text(s);
    let body = digits_part(s);
    if body.len() == 0 || !(forall|i: int| 0 <= i < body.len() ==> is_digit(#[trigger] body[i])) {
        None
    } else {
        let v: int = if neg {
            -digits_value(body)
        } else {
            digits_value(body) as int
        };
        if i64::MIN <= v <= i64::MAX {
            Some(v)
        } else {
            None
        }
    }
}

proof fn lemma_digits_value_grows(s: Seq<char>, k: int)
    requires
        0 <= k <= s.len(),
        forall|i: int| 0 <= i < s.len() ==> is_digit(#[trigger] s[i]),
    ensures
        digits_value(s.subrange(0, k)) <= digits_value(s),
    decreases s.len() - k,
{
    if k < s.len() {
        let t = s.subrange(0, k + 1);
        assert(t.drop_last() =~= s.subrange(0, k));
        assert(is_digit(s[k]));
        lemma_digits_value_grows(s, k + 1);
    } else {
        assert(s.subrange(0, k) =~= s);
    }
}

/// Reads an integer argument of `main`.
pub fn parse_int(s: &str) -> (r: Option<i64>)
    ensures
        match int_text(s@) {
            Some(v) => r == Some(v as i64),
            None => r is None,
        },
{
    let n = s.unicode_len();
    let neg = n > 0 && s.get_char(0) == '-';
    let start: usize = if neg { 1 } else { 0 };
    let ghost body = digits_part(s@);
    if start >= n {
        return None;
    }
    let mut acc: u64 = 0;
    let mut i: usize = start;
    while i < n
        invariant
            n == s@.len(),
            start <= i <= n,
            start == (if neg { 1usize } else { 0usize }),
            neg == is_negative_text(s@),
            body == digits_part(s@),
            body == s@.subrange(start as int, n as int),
            forall|j: int| 0 <= j < i - start ==> is_digit(#[trigger] body[j]),
            acc as nat == digits_value(body.subrange(0, i - start)),
            acc <= 0x8000_0000_0000_0000u64,
        decreases n - i,
    {
        let c = s.get_char(i);
        assert(c == body[i - start]);
        if !('0' <= c && c <= '9') {
            assert(!is_digit(body[i - start]));
            assert(!(forall|j: int| 0 <= j < body.len() ==> is_digit(#[trigger] body[j])));
            return None;
        }
        let d = (c as u32 - 48) as u64;
        assert(body.subrange(0, i + 1 - start).drop_last() =~= body.subrange(0, i - start));
        let next: u128 = acc as u128 * 10 + d as u128;
        if next > 0x8000_0000_0000_0000u128 {
            proof {
                if forall|j: int| 0 <= j < body.len() ==> is_digit(#[trigger] body[j]) {
                    lemma_digits_value_grows(body, i + 1 - start);
                }
            }
            return None;
        }
        acc = next as u64;
        i = i + 1;
    }
    assert(body.subrange(0, n - start) =~= body);
    if neg {
        if acc == 0x8000_0000_0000_0000u64 {
            Some(i64::MIN)
        } else {
            Some(-(acc as i64))
        }
    } else {
        if acc == 0x8000_0000_0000_0000u64 {
            None
        } else {
            Some(acc as i64)
        }
    }
}

/// The value of a `main` argument of type `ty` written as `s`: an integer as
/// [`parse_int`] reads it, a boolean as `true` or `false`.
pub open spec fn arg_value(ty: Type, s: Seq<char>) -> Option<Value> {
    match ty {
        Type::Int => match int_text(s) {
            Some(v) => Some(Value::Int(v as i64)),
            None => None,
        },
        Type::Bool => if s == "true"@ {
            Some(Value::Bool(true))
        } else if s == "false"@ {
            Some(Value::Bool(false))
        } else {
            None
        },
        _ => None,
    }
}

/// Reads one argument of `main`.
pub fn parse_arg(ty: &Type, s: &String) -> (r: Option<Value>)
    ensures
        r == arg_value(*ty, s@),
{
    match ty {
        Type::Int => match parse_int(s.as_str()) {
            Some(v) => Some(Value::Int(v)),
            None => None,
        },
        Type::Bool => {
            let t = String::from_str("true");
            let f = String::from_str("false");
            if s.eq(&t) {
                Some(Value::Bool(true))
            } else if s.eq(&f) {
                Some(Value::Bool(false))
            } else {
                None
            }
        },
        _ => None,
    }
}

/// What a run produced: everything printed, in order, and how it ended:
/// the number of instructions run when profiling, or the error that stopped
/// it.
#[derive(Debug)]
pub struct Execution {
    pub output: Vec<u8>,
    pub result: Result<Option<u64>, RuntimeError>,
}

/// `main` exists, and `args` are as many as its parameters, each readable
/// as its parameter's type.
pub open spec fn main_args_read(fs: Seq<BBFunction>, args: Seq<String>) -> bool {
    find_function(fs, "main"@) matches Some(mi) && {
        let main = fs[mi];
        &&& main.args@.len() == args.len()
        &&& forall|i: int| 0 <= i < args.len() ==> #[trigger] arg_value(main.args@[i].ty, args[i]@) is Some
    }
}

/// The arguments of `main` read as its parameters' types.
pub open spec fn main_values(fs: Seq<BBFunction>, args: Seq<String>) -> Seq<Value> {
    let main = fs[find_function(fs, "main"@)->Some_0];
    Seq::new(args.len(), |i: int| arg_value(main.args@[i].ty, args[i]@)->Some_0)
}

/// The machine about to run `main` with `args`: one frame at `main`'s
/// entry, its parameters bound, an empty heap, nothing printed.
pub open spec fn initial_state(fs: Seq<BBFunction>, args: Seq<String>) -> MachineState {
    let mi = find_function(fs, "main"@)->Some_0;
    MachineState {
        stack: seq![FrameState { func: mi as usize, block: 0, pos: 0, vars: bind_params(fs[mi].args@, main_values(fs, args), args.len()), ret_dest: None }],
        cells: Seq::empty(),
        regions: Seq::empty(),
        output: Seq::empty(),
        count: 0,
    }
}

/// The frame for `main`, with its parameters bound to the parsed `args`.
fn main_frame(prog: &BBProgram, args: &Vec<String>) -> (r: Result<Frame, RuntimeError>)
    requires
        prog.wf(),
    ensures
        find_function(prog.functions@, "main"@) is None ==> r == Err::<Frame, RuntimeError>(
            RuntimeError::UndefinedFunction,
        ),
        find_function(prog.functions@, "main"@) matches Some(mi) ==> {
            let main = prog.functions@[mi];
            &&& main.args@.len() != args@.len() ==> r == Err::<Frame, RuntimeError>(
                RuntimeError::BadArgumentCount,
            )
            &&& main.args@.len() == args@.len() ==> (r is Err <==> exists|i: int|
                0 <= i < args@.len() && #[trigger] arg_value(main.args@[i].ty, args@[i]@) is None)
            &&& main.args@.len() == args@.len() && r is Err ==> r == Err::<Frame, RuntimeError>(
                RuntimeError::BadArgument,
            )
        },
        r matches Ok(fr) ==> frame_ok(prog.functions@, fr) && fr.pos == 0 && fr.block == 0
            && fr.ret_dest is None && main_args_read(prog.functions@, args@)
            && initial_state(prog.functions@, args@).stack == seq![frame_view(fr)],
{
    let name = String::from_str("main");
    proof {
        reveal_strlit("main");
    }
    let mi = match function_index(&prog.functions, &name) {
        Some(mi) => mi,
        None => {
            return Err(RuntimeError::UndefinedFunction);
        },
    };
    let main = &prog.functions[mi];
    if main.args.len() != args.len() {
        return Err(RuntimeError::BadArgumentCount);
    }
    let mut vars: Vars = Vec::new();
    let mut i: usize = 0;
    while i < args.len()
        invariant
            find_function(prog.functions@, "main"@) == Some(mi as int),
            *main == prog.functions@[mi as int],
            mi < prog.functions@.len(),
            i <= args@.len(),
            main.args@.len() == args@.len(),
            names_distinct(vars@),
            forall|j: int| 0 <= j < i ==> #[trigger] arg_value(main.args@[j].ty, args@[j]@) is Some,
            vars@ == bind_params(main.args@, main_values(prog.functions@, args@), i as nat),
        decreases args.len() - i,
    {
        match parse_arg(&main.args[i].ty, &args[i]) {
            Some(v) => {
                assert(main_values(prog.functions@, args@)[i as int] == v);
                var_set(&mut vars, &main.args[i].name, v);
            },
            None => {
                assert(arg_value(main.args@[i as int].ty, args@[i as int]@) is None);
                return Err(RuntimeError::BadArgument);
            },
        }
        i = i + 1;
    }
    assert(prog.functions@[mi as int].wf());
    Ok(Frame { func: mi, block: 0, pos: 0, vars, ret_dest: None })
}

/// The run's output and result are those of `run`, with the count given
/// back only when `profiling`.
pub open spec fn run_matches(run: (Seq<u8>, Result<int, RuntimeError>), profiling: bool, r: Execution) -> bool {
    &&& r.output@ == run.0
    &&& r.result == match run.1 {
        Ok(c) => Ok(
            if profiling {
                Some(c as u64)
            } else {
                None
            },
        ),
        Err(e) => Err::<Option<u64>, RuntimeError>(e),
    }
}

/// Runs `main` with `args`, keeping at most `max_depth` frames and running
/// at most `max_steps` steps. A missing `main`, a wrong number of arguments,
/// or an argument that does not read as its parameter's type is an error
/// before anything runs. The count of instructions run is given back when
/// `profiling`; it never exceeds `max_steps`.
pub fn execute_main(
    prog: &BBProgram,
    args: &Vec<String>,
    profiling: bool,
    max_depth: usize,
    max_steps: u64,
) -> (r: Execution)
    requires
        prog.wf(),
    ensures
        r.result matches Ok(c) ==> (c is Some <==> profiling),
        r.result matches Ok(Some(c)) ==> c <= max_steps,
        find_function(prog.functions@, "main"@) is None ==> r.result == Err::<Option<u64>, RuntimeError>(
            RuntimeError::UndefinedFunction,
        ) && r.output@.len() == 0,
        find_function(prog.functions@, "main"@) matches Some(mi) ==> {
            let main = prog.functions@[mi];
            &&& main.args@.len() != args@.len() ==> r.result == Err::<Option<u64>, RuntimeError>(
                RuntimeError::BadArgumentCount,
            )
            &&& main.args@.len() == args@.len() && (exists|i: int|
                0 <= i < args@.len() && #[trigger] arg_value(main.args@[i].ty, args@[i]@) is None)
                ==> r.result == Err::<Option<u64>, RuntimeError>(RuntimeError::BadArgument)
        },
        !main_args_read(prog.functions@, args@) ==> r.result is Err && r.output@.len() == 0,
        main_args_read(prog.functions@, args@) && max_depth == 0 ==> r.result == Err::<Option<u64>, RuntimeError>(
            RuntimeError::StackOverflow,
        ) && r.output@.len() == 0,
        main_args_read(prog.functions@, args@) && max_depth > 0 ==> run_matches(
            run_spec(*prog, initial_state(prog.functions@, args@), max_depth, max_steps as nat),
            profiling,
            r,
        ),
{
    proof {
        crate::check::lemma_find_function_range(prog.functions@, "main"@);
    }
    let fr = match main_frame(prog, args) {
        Ok(fr) => fr,
        Err(e) => {
            return Execution { output: Vec::new(), result: Err(e) };
        },
    };
    if max_depth == 0 {
        return Execution { output: Vec::new(), result: Err(RuntimeError::StackOverflow) };
    }
    let mut m = Machine { stack: Vec::new(), heap: Heap::new(), output: Vec::new(), count: 0 };
    m.stack.push(fr);
    assert(m.stack@[0] == fr);
    let ghost init = initial_state(prog.functions@, args@);
    assert(machine_view(m).stack =~= init.stack);
    assert(machine_view(m).cells =~= init.cells);
    assert(machine_view(m).regions =~= init.regions);
    assert(machine_view(m).output =~= init.output);
    assert(machine_view(m) == init);
    let mut steps: u64 = 0;
    while steps < max_steps
        invariant
            prog.wf(),
            main_args_read(prog.functions@, args@),
            max_depth > 0,
            init == initial_state(prog.functions@, args@),
            run_spec(*prog, init, max_depth, max_steps as nat) == run_spec(*prog, machine_view(m), max_depth, (max_steps - steps) as nat),
            m.ok(*prog, max_depth),
            m.stack@.len() > 0,
            m.count <= steps,
            steps <= max_steps,
        decreases max_steps - steps,
    {
        let ghost before = machine_view(m);
        let ghost fuel = (max_steps - steps) as nat;
        let ghost out_before = m.output@;
        let r = step(prog, &mut m, max_depth);
        proof {
            assert(fuel > 0);
            match step_spec(*prog, before, max_depth) {
                Outcome::Failed(e) => {
                    assert(run_spec(*prog, before, max_depth, fuel) == (before.output, Err::<int, RuntimeError>(e)));
                    assert(m.output@ == before.output);
                },
                Outcome::Finished(s2) => {
                    assert(run_spec(*prog, before, max_depth, fuel) == (s2.output, Ok::<int, RuntimeError>(s2.count)));
                },
                Outcome::Running(s2) => {
                    assert(s2.stack.len() == m.stack@.len());
                },
            }
        }
        match r {
            Ok(Step::Running) => {
                if m.stack.len() == 0 {
                    let count = if profiling { Some(m.count) } else { None };
                    return Execution { output: m.output, result: Ok(count) };
                }
            },
            Ok(Step::Finished) => {
                let count = if profiling { Some(m.count) } else { None };
                return Execution { output: m.output, result: Ok(count) };
            },
            Err(e) => {
                return Execution { output: m.output, result: Err(e) };
            },
        }
        steps = steps + 1;
    }
    Execution { output: m.output, result: Err(RuntimeError::StepLimit) }
}

} // verus!
