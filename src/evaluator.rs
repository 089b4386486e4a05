//! The tree-walking evaluator: its meaning as spec functions over views, and
//! the executable evaluator proved to follow it.
use vstd::prelude::*;
use crate::ast::{Expr, ExprV, Identifier, Infix, LitV, Literal, Prefix, Program, Stmt, StmtV, view_exprs, view_idents, view_pairs, view_stmts};
use crate::environment::{EnvView, Environment, lookup, root_env};
use crate::object::{BuiltinFunction, Object, Value, builtin_arity, builtin_name, display, int_text, is_abrupt, is_hashable, view_objs, view_obj_pairs};

verus! {

/// How deep evaluation may nest before it stops with an error.
pub const MAX_DEPTH: u32 = 800;

pub open spec fn depth_message() -> Seq<char> {
    "evaluation depth exceeded"@
}

pub open spec fn lit_value(l: LitV) -> Value {
    match l {
        LitV::Int(i) => Value::Int(i),
        LitV::Bool(b) => Value::Bool(b),
        LitV::Str(s) => Value::Str(s),
    }
}

/// A value as a boolean, or the error that takes its place.
pub open spec fn to_bool(v: Value) -> Result<bool, Value> {
    match v {
        Value::Bool(b) => Ok(b),
        Value::Error(m) => Err(Value::Error(m)),
        _ => Err(Value::Error(display(v) + " is not a bool"@)),
    }
}

/// A value as an integer, or the error that takes its place.
pub open spec fn to_int(v: Value) -> Result<i64, Value> {
    match v {
        Value::Int(i) => Ok(i),
        Value::Error(m) => Err(Value::Error(m)),
        _ => Err(Value::Error(display(v) + " is not an integer"@)),
    }
}

/// A value as something callable, or the error that takes its place.
pub open spec fn to_callable(v: Value) -> Value {
    match v {
        Value::Func(_, _, _) | Value::Builtin(_) | Value::Error(_) => v,
        _ => Value::Error(display(v) + " is not a valid function"@),
    }
}

/// A value as a hash key, or the error that takes its place.
pub open spec fn to_key(v: Value) -> Value {
    if is_hashable(v) || v is Error {
        v
    } else {
        Value::Error(display(v) + " is not hashable"@)
    }
}

pub open spec fn prefix_value(op: Prefix, v: Value) -> Value {
    if is_abrupt(v) {
        v
    } else {
        match op {
            Prefix::Plus => match to_int(v) {
                Ok(i) => Value::Int(i),
                Err(e) => e,
            },
            Prefix::Minus => match to_int(v) {
                Ok(i) => Value::Int(0i64.wrapping_sub(i)),
                Err(e) => e,
            },
            Prefix::Not => match to_bool(v) {
                Ok(b) => Value::Bool(!b),
                Err(e) => e,
            },
        }
    }
}

/// Structural equality of values; hashes are equal when they hold the same
/// keys with equal values, in any order.
pub open spec fn value_eq(a: Value, b: Value) -> bool
    decreases a, 0nat,
{
    match (a, b) {
        (Value::Array(xs), Value::Array(ys)) => xs.len() == ys.len() && list_eq(xs, ys, xs.len()),
        (Value::Hash(xs), Value::Hash(ys)) => xs.len() == ys.len() && hash_within(xs, ys, xs.len()),
        (Value::Ret(x), Value::Ret(y)) => value_eq(*x, *y),
        _ => a == b,
    }
}

/// The first `n` items of `xs` and `ys` are pairwise equal.
pub open spec fn list_eq(xs: Seq<Value>, ys: Seq<Value>, n: nat) -> bool
    decreases xs, n,
{
    if n == 0 || n > xs.len() || n > ys.len() {
        n == 0
    } else {
        list_eq(xs, ys, (n - 1) as nat) && value_eq(xs[n - 1], ys[n - 1])
    }
}

/// Each of the first `n` pairs of `xs` has its key in `ys` with an equal value.
pub open spec fn hash_within(xs: Seq<(Value, Value)>, ys: Seq<(Value, Value)>, n: nat) -> bool
    decreases xs, n,
{
    if n == 0 || n > xs.len() {
        n == 0
    } else {
        hash_within(xs, ys, (n - 1) as nat) && match key_index(ys, xs[n - 1].0) {
            Some(j) => value_eq(xs[n - 1].1, ys[j as int].1),
            None => false,
        }
    }
}

/// Whether `a` is a hash key equal to `k`.
pub open spec fn keys_match(a: Value, k: Value) -> bool {
    is_hashable(a) && a == k
}

/// The position of key `k` among the pairs.
pub open spec fn key_index(ps: Seq<(Value, Value)>, k: Value) -> Option<nat> {
    key_index_from(ps, k, 0)
}

/// The first position from `i` on that holds key `k`.
pub open spec fn key_index_from(ps: Seq<(Value, Value)>, k: Value, i: nat) -> Option<nat>
    decreases ps.len() - i,
{
    if i >= ps.len() {
        None
    } else if keys_match(ps[i as int].0, k) {
        Some(i)
    } else {
        key_index_from(ps, k, i + 1)
    }
}

/// The pairs with `k` bound to `v`: in place when `k` is there, else at the end.
pub open spec fn hash_insert(ps: Seq<(Value, Value)>, k: Value, v: Value) -> Seq<(Value, Value)> {
    match key_index(ps, k) {
        Some(i) => ps.update(i as int, (k, v)),
        None => ps.push((k, v)),
    }
}

pub open spec fn not_addable(a: Value, b: Value) -> Value {
    Value::Error(display(a) + " and "@ + display(b) + " are not addable"@)
}

/// Applies a binary operator to two evaluated operands; an abrupt right
/// operand is passed on.
pub open spec fn infix_value(op: Infix, a: Value, b: Value) -> Value {
    if is_abrupt(a) {
        a
    } else if is_abrupt(b) {
        b
    } else {
        match op {
            Infix::Plus => match (a, b) {
                (Value::Int(x), Value::Int(y)) => Value::Int(x.wrapping_add(y)),
                (Value::Str(x), Value::Str(y)) => Value::Str(x + y),
                _ => not_addable(a, b),
            },
            Infix::Equal => Value::Bool(value_eq(a, b)),
            Infix::NotEqual => Value::Bool(!value_eq(a, b)),
            _ => match (to_int(a), to_int(b)) {
                (Err(e), _) => e,
                (_, Err(e)) => e,
                (Ok(x), Ok(y)) => int_op(op, x, y),
            },
        }
    }
}

/// An integer operator on two integers.
pub open spec fn int_op(op: Infix, x: i64, y: i64) -> Value {
    match op {
        Infix::Minus => Value::Int(x.wrapping_sub(y)),
        Infix::Multiply => Value::Int(x.wrapping_mul(y)),
        Infix::Divide => if y == 0 {
            Value::Error("division by zero"@)
        } else {
            match x.checked_div(y) {
                Some(q) => Value::Int(q),
                None => Value::Int(i64::MIN),
            }
        },
        Infix::GreaterThanEqual => Value::Bool(x >= y),
        Infix::LessThanEqual => Value::Bool(x <= y),
        Infix::GreaterThan => Value::Bool(x > y),
        Infix::LessThan => Value::Bool(x < y),
        _ => Value::Null,
    }
}

/// Indexes an evaluated target with an evaluated index.
pub open spec fn index_value(t: Value, i: Value) -> Value {
    match t {
        Value::Array(xs) => match to_int(i) {
            Ok(k) => if 0 <= k < xs.len() {
                xs[k as int]
            } else {
                Value::Null
            },
            Err(e) => e,
        },
        Value::Hash(ps) => {
            let k = to_key(i);
            if k is Error {
                k
            } else {
                match key_index(ps, k) {
                    Some(j) => ps[j as int].1,
                    None => Value::Null,
                }
            }
        },
        _ => Value::Error("unexpected index target: "@ + display(t)),
    }
}

pub open spec fn invalid_arguments(b: BuiltinFunction) -> Value {
    Value::Error("invalid arguments for "@ + builtin_name(b))
}

/// A built-in function applied to arguments of the right number.
pub open spec fn builtin_value(b: BuiltinFunction, args: Seq<Value>) -> Value {
    match b {
        BuiltinFunction::Len => match args[0] {
            Value::Str(s) => Value::Int(s.len() as i64),
            Value::Array(xs) => Value::Int(xs.len() as i64),
            _ => invalid_arguments(b),
        },
        BuiltinFunction::Head => match args[0] {
            Value::Array(xs) => if xs.len() > 0 {
                xs[0]
            } else {
                Value::Error("empty array"@)
            },
            _ => invalid_arguments(b),
        },
        BuiltinFunction::Tail => match args[0] {
            Value::Array(xs) => if xs.len() > 0 {
                Value::Array(xs.subrange(1, xs.len() as int))
            } else {
                Value::Error("empty array"@)
            },
            _ => invalid_arguments(b),
        },
        BuiltinFunction::Cons => match args[1] {
            Value::Array(xs) => Value::Array(seq![args[0]] + xs),
            _ => invalid_arguments(b),
        },
    }
}

pub open spec fn arity_error(expected: nat, given: nat) -> Value {
    Value::Error(
        "wrong number of arguments: "@ + int_text(expected as int) + " expected but "@ + int_text(
            given as int,
        ) + " given"@,
    )
}

pub open spec fn unwrap_return(v: Value) -> Value {
    match v {
        Value::Ret(x) => *x,
        _ => v,
    }
}

/// The environment with `name` bound to `v` in frame `f`.
pub open spec fn bind(env: EnvView, f: nat, name: Seq<char>, v: Value) -> EnvView {
    EnvView { bindings: env.bindings.push((f, name, v)), parents: env.parents }
}

/// The bindings of parameters to arguments in frame `f`.
pub open spec fn bind_params(f: nat, params: Seq<Seq<char>>, vals: Seq<Value>) -> Seq<
    (nat, Seq<char>, Value),
> {
    Seq::new(params.len(), |k: int| (f, params[k], vals[k]))
}

/// Evaluates an expression in frame `f`: the environment after it, and its value.
pub open spec fn eval_expr(env: EnvView, f: nat, e: ExprV, fuel: nat) -> (EnvView, Value)
    decreases fuel, 0nat, 0nat,
{
    if fuel == 0 {
        (env, Value::Error(depth_message()))
    } else {
        let n = (fuel - 1) as nat;
        match e {
            ExprV::Ident(name) => (
                env,
                match lookup(env, f, name) {
                    Some(v) => v,
                    None => Value::Error("identifier not found: "@ + name),
                },
            ),
            ExprV::Lit(l) => (env, lit_value(l)),
            ExprV::Prefix(op, r) => {
                let (env1, v) = eval_expr(env, f, *r, n);
                (env1, prefix_value(op, v))
            },
            ExprV::Infix(op, l, r) => {
                let (env1, a) = eval_expr(env, f, *l, n);
                if is_abrupt(a) {
                    (env1, a)
                } else {
                    let (env2, b) = eval_expr(env1, f, *r, n);
                    (env2, infix_value(op, a, b))
                }
            },
            ExprV::If(c, cons, alt) => {
                let (env1, cv) = eval_expr(env, f, *c, n);
                if is_abrupt(cv) {
                    (env1, cv)
                } else {
                    match to_bool(cv) {
                        Err(e) => (env1, e),
                        Ok(true) => eval_block(env1, f, cons, 0, Value::Null, n),
                        Ok(false) => match alt {
                            Some(a) => eval_block(env1, f, a, 0, Value::Null, n),
                            None => (env1, Value::Null),
                        },
                    }
                }
            },
            ExprV::Func(params, body) => (env, Value::Func(params, body, f)),
            ExprV::Array(items) => {
                let (env1, r) = eval_list(env, f, items, 0, Seq::empty(), n);
                (
                    env1,
                    match r {
                        Ok(vs) => Value::Array(vs),
                        Err(v) => v,
                    },
                )
            },
            ExprV::Hash(pairs) => {
                let (env1, r) = eval_hash(env, f, pairs, 0, Seq::empty(), n);
                (
                    env1,
                    match r {
                        Ok(ps) => Value::Hash(ps),
                        Err(v) => v,
                    },
                )
            },
            ExprV::Call(fe, args) => {
                let (env1, fv) = eval_expr(env, f, *fe, n);
                if is_abrupt(fv) {
                    (env1, fv)
                } else {
                    eval_call(env1, f, fv, args, n)
                }
            },
            ExprV::Index(t, i) => {
                let (env1, tv) = eval_expr(env, f, *t, n);
                if is_abrupt(tv) {
                    (env1, tv)
                } else {
                    let (env2, iv) = eval_expr(env1, f, *i, n);
                    (
                        env2,
                        if is_abrupt(iv) {
                            iv
                        } else {
                            index_value(tv, iv)
                        },
                    )
                }
            },
        }
    }
}

/// Evaluates a statement in frame `f`.
pub open spec fn eval_stmt(env: EnvView, f: nat, s: StmtV, fuel: nat) -> (EnvView, Value)
    decreases fuel, 1nat, 0nat,
{
    match s {
        StmtV::Let(name, e) => {
            let (env1, v) = eval_expr(env, f, e, fuel);
            if is_abrupt(v) {
                (env1, v)
            } else {
                (bind(env1, f, name, v), v)
            }
        },
        StmtV::Return(e) => {
            let (env1, v) = eval_expr(env, f, e, fuel);
            if is_abrupt(v) {
                (env1, v)
            } else {
                (env1, Value::Ret(Box::new(v)))
            }
        },
        StmtV::Expr(e) => eval_expr(env, f, e, fuel),
    }
}

/// Evaluates the statements of a block from the `i`-th on, `last` being the
/// value of the one before; stops at the first abrupt value.
pub open spec fn eval_block(env: EnvView, f: nat, ss: Seq<StmtV>, i: nat, last: Value, fuel: nat) -> (
    EnvView,
    Value,
)
    decreases fuel, 2nat, ss.len() - i,
{
    if i >= ss.len() {
        (env, last)
    } else {
        let (env1, v) = eval_stmt(env, f, ss[i as int], fuel);
        if is_abrupt(v) {
            (env1, v)
        } else {
            eval_block(env1, f, ss, i + 1, v, fuel)
        }
    }
}

/// Evaluates expressions from the `i`-th on after the values `acc`: all the
/// values, or the first abrupt one.
pub open spec fn eval_list(env: EnvView, f: nat, es: Seq<ExprV>, i: nat, acc: Seq<Value>, fuel: nat) -> (
    EnvView,
    Result<Seq<Value>, Value>,
)
    decreases fuel, 2nat, es.len() - i,
{
    if i >= es.len() {
        (env, Ok(acc))
    } else {
        let (env1, v) = eval_expr(env, f, es[i as int], fuel);
        if is_abrupt(v) {
            (env1, Err(v))
        } else {
            eval_list(env1, f, es, i + 1, acc.push(v), fuel)
        }
    }
}

/// Evaluates the pairs of a hash literal from the `i`-th on into `acc`.
pub open spec fn eval_hash(
    env: EnvView,
    f: nat,
    ps: Seq<(LitV, ExprV)>,
    i: nat,
    acc: Seq<(Value, Value)>,
    fuel: nat,
) -> (EnvView, Result<Seq<(Value, Value)>, Value>)
    decreases fuel, 2nat, ps.len() - i,
{
    if i >= ps.len() {
        (env, Ok(acc))
    } else {
        let (env1, v) = eval_expr(env, f, ps[i as int].1, fuel);
        if is_abrupt(v) {
            (env1, Err(v))
        } else {
            eval_hash(env1, f, ps, i + 1, hash_insert(acc, lit_value(ps[i as int].0), v), fuel)
        }
    }
}

/// Calls an evaluated callee on argument expressions evaluated in frame `f`.
pub open spec fn eval_call(env: EnvView, f: nat, fv: Value, args: Seq<ExprV>, fuel: nat) -> (
    EnvView,
    Value,
)
    decreases fuel, 3nat, 0nat,
{
    match fv {
        Value::Func(params, body, cf) => if params.len() != args.len() {
            (env, arity_error(params.len(), args.len()))
        } else {
            let (env1, r) = eval_list(env, f, args, 0, Seq::empty(), fuel);
            match r {
                Err(v) => (env1, v),
                Ok(vals) => if cf >= env1.parents.len() {
                    (env1, Value::Error("invalid closure environment"@))
                } else {
                    let id = env1.parents.len();
                    let env2 = EnvView {
                        bindings: env1.bindings + bind_params(id, params, vals),
                        parents: env1.parents.push(Some(cf)),
                    };
                    let (env3, res) = eval_block(env2, id, body, 0, Value::Null, fuel);
                    (env3, unwrap_return(res))
                },
            }
        },
        Value::Builtin(b) => if builtin_arity(b) != args.len() {
            (env, arity_error(builtin_arity(b), args.len()))
        } else {
            let (env1, r) = eval_list(env, f, args, 0, Seq::empty(), fuel);
            match r {
                Err(v) => (env1, v),
                Ok(vals) => (env1, builtin_value(b, vals)),
            }
        },
        _ => (env, to_callable(fv)),
    }
}

/// Evaluates a program in the root frame; a surfacing return is unwrapped.
pub open spec fn eval_program(env: EnvView, prog: Seq<StmtV>) -> (EnvView, Value) {
    let (env1, v) = eval_block(env, 0, prog, 0, Value::Null, MAX_DEPTH as nat);
    (env1, unwrap_return(v))
}

} // verus!

verus! {

proof fn lemma_list_eq_prefix(xs: Seq<Value>, ys: Seq<Value>, n: nat, m: nat)
    requires
        m <= n,
        list_eq(xs, ys, n),
    ensures
        list_eq(xs, ys, m),
    decreases n,
{
    if m < n {
        lemma_list_eq_prefix(xs, ys, (n - 1) as nat, m);
    }
}

proof fn lemma_hash_within_prefix(xs: Seq<(Value, Value)>, ys: Seq<(Value, Value)>, n: nat, m: nat)
    requires
        m <= n,
        hash_within(xs, ys, n),
    ensures
        hash_within(xs, ys, m),
    decreases n,
{
    if m < n {
        lemma_hash_within_prefix(xs, ys, (n - 1) as nat, m);
    }
}

proof fn lemma_key_index_from_bound(ps: Seq<(Value, Value)>, k: Value, i: nat)
    ensures
        key_index_from(ps, k, i) matches Some(j) ==> i <= j < ps.len() && keys_match(
            ps[j as int].0,
            k,
        ),
    decreases ps.len() - i,
{
    if i < ps.len() && !keys_match(ps[i as int].0, k) {
        lemma_key_index_from_bound(ps, k, i + 1);
    }
}

proof fn lemma_eval_list_len(env: EnvView, f: nat, es: Seq<ExprV>, i: nat, acc: Seq<Value>, fuel: nat)
    requires
        i <= es.len(),
    ensures
        eval_list(env, f, es, i, acc, fuel).1 matches Ok(vs) ==> vs.len() == acc.len() + es.len() - i,
    decreases es.len() - i,
{
    if i < es.len() {
        let (env1, v) = eval_expr(env, f, es[i as int], fuel);
        if !is_abrupt(v) {
            lemma_eval_list_len(env1, f, es, i + 1, acc.push(v), fuel);
        }
    }
}

fn abrupt(o: &Object) -> (r: bool)
    ensures
        r == is_abrupt(o@),
{
    match o {
        Object::Return(_) | Object::Error(_) => true,
        _ => false,
    }
}

fn hashable(o: &Object) -> (r: bool)
    ensures
        r == is_hashable(o@),
{
    match o {
        Object::Integer(_) | Object::Boolean(_) | Object::String(_) => true,
        _ => false,
    }
}

/// Whether `a` is a hash key equal to `k`.
fn key_matches(a: &Object, k: &Object) -> (r: bool)
    ensures
        r == keys_match(a@, k@),
{
    match (a, k) {
        (Object::Integer(x), Object::Integer(y)) => *x == *y,
        (Object::Boolean(x), Object::Boolean(y)) => *x == *y,
        (Object::String(x), Object::String(y)) => *x == *y,
        _ => false,
    }
}

/// The position of key `k` among the pairs.
fn find_key(ps: &Vec<(Object, Object)>, k: &Object) -> (r: Option<usize>)
    ensures
        match r {
            Some(j) => key_index(view_obj_pairs(ps@), k@) == Some(j as nat),
            None => key_index(view_obj_pairs(ps@), k@) is None,
        },
{
    let ghost vp = view_obj_pairs(ps@);
    proof {
        crate::object::lemma_view_obj_pairs_index(ps@);
    }
    let mut i: usize = 0;
    while i < ps.len()
        invariant
            i <= ps@.len(),
            vp == view_obj_pairs(ps@),
            vp.len() == ps@.len(),
            forall|j: int| 0 <= j < ps@.len() ==> #[trigger] vp[j] == (ps@[j].0@, ps@[j].1@),
            key_index(vp, k@) == key_index_from(vp, k@, i as nat),
        decreases ps.len() - i,
    {
        if key_matches(&ps[i].0, k) {
            return Some(i);
        }
        i = i + 1;
    }
    None
}

/// Binds `k` to `v` in the pairs: in place when `k` is there, else at the end.
fn insert_pair(ps: &mut Vec<(Object, Object)>, k: Object, v: Object)
    ensures
        view_obj_pairs(final(ps)@) == hash_insert(view_obj_pairs(old(ps)@), k@, v@),
{
    proof {
        crate::object::lemma_view_obj_pairs_index(ps@);
    }
    match find_key(ps, &k) {
        Some(j) => {
            proof {
                lemma_key_index_from_bound(view_obj_pairs(ps@), k@, 0);
            }
            let ghost before = ps@;
            ps.set(j, (k, v));
            proof {
                crate::object::lemma_view_obj_pairs_index(ps@);
                assert(view_obj_pairs(ps@) =~= view_obj_pairs(before).update(j as int, (k@, v@)));
            }
        },
        None => {
            proof {
                crate::object::lemma_view_obj_pairs_push(ps@, (k, v));
            }
            ps.push((k, v));
        },
    }
}

/// Structural equality of values.
pub fn value_equal(a: &Object, b: &Object) -> (r: bool)
    ensures
        r == value_eq(a@, b@),
    decreases a,
{
    match (a, b) {
        (Object::Array(xs), Object::Array(ys)) => objs_equal(xs, ys),
        (Object::Hash(xs), Object::Hash(ys)) => hashes_equal(xs, ys),
        (Object::Return(x), Object::Return(y)) => value_equal(&**x, &**y),
        (Object::Integer(x), Object::Integer(y)) => *x == *y,
        (Object::Boolean(x), Object::Boolean(y)) => *x == *y,
        (Object::String(x), Object::String(y)) => *x == *y,
        (Object::NULL, Object::NULL) => true,
        (Object::Function(p1, b1, e1), Object::Function(p2, b2, e2)) => *e1 == *e2
            && crate::ast::idents_equal(p1, p2) && crate::ast::stmts_equal(b1, b2),
        (Object::Builtin(x), Object::Builtin(y)) => *x == *y,
        (Object::Error(x), Object::Error(y)) => *x == *y,
        _ => false,
    }
}

fn objs_equal(xs: &Vec<Object>, ys: &Vec<Object>) -> (r: bool)
    ensures
        r == (view_objs(xs@).len() == view_objs(ys@).len() && list_eq(
            view_objs(xs@),
            view_objs(ys@),
            view_objs(xs@).len(),
        )),
    decreases xs,
{
    let ghost vx = view_objs(xs@);
    let ghost vy = view_objs(ys@);
    proof {
        crate::object::lemma_view_objs_index(xs@);
        crate::object::lemma_view_objs_index(ys@);
    }
    if xs.len() != ys.len() {
        return false;
    }
    let mut i: usize = 0;
    while i < xs.len()
        invariant
            i <= xs@.len(),
            xs@.len() == ys@.len(),
            vx == view_objs(xs@),
            vy == view_objs(ys@),
            vx.len() == xs@.len(),
            vy.len() == ys@.len(),
            forall|k: int| 0 <= k < xs@.len() ==> #[trigger] vx[k] == xs@[k]@,
            forall|k: int| 0 <= k < ys@.len() ==> #[trigger] vy[k] == ys@[k]@,
            list_eq(vx, vy, i as nat),
        decreases xs.len() - i,
    {
        if !value_equal(&xs[i], &ys[i]) {
            proof {
                if list_eq(vx, vy, vx.len()) {
                    lemma_list_eq_prefix(vx, vy, vx.len(), (i + 1) as nat);
                }
            }
            return false;
        }
        i = i + 1;
    }
    true
}

fn hashes_equal(xs: &Vec<(Object, Object)>, ys: &Vec<(Object, Object)>) -> (r: bool)
    ensures
        r == (view_obj_pairs(xs@).len() == view_obj_pairs(ys@).len() && hash_within(
            view_obj_pairs(xs@),
            view_obj_pairs(ys@),
            view_obj_pairs(xs@).len(),
        )),
    decreases xs,
{
    let ghost vx = view_obj_pairs(xs@);
    let ghost vy = view_obj_pairs(ys@);
    proof {
        crate::object::lemma_view_obj_pairs_index(xs@);
        crate::object::lemma_view_obj_pairs_index(ys@);
    }
    if xs.len() != ys.len() {
        return false;
    }
    let mut i: usize = 0;
    while i < xs.len()
        invariant
            i <= xs@.len(),
            xs@.len() == ys@.len(),
            vx == view_obj_pairs(xs@),
            vy == view_obj_pairs(ys@),
            vx.len() == xs@.len(),
            vy.len() == ys@.len(),
            forall|k: int| 0 <= k < xs@.len() ==> #[trigger] vx[k] == (xs@[k].0@, xs@[k].1@),
            forall|k: int| 0 <= k < ys@.len() ==> #[trigger] vy[k] == (ys@[k].0@, ys@[k].1@),
            hash_within(vx, vy, i as nat),
        decreases xs.len() - i,
    {
        let ok = match find_key(ys, &xs[i].0) {
            Some(j) => {
                proof {
                    lemma_key_index_from_bound(vy, xs@[i as int].0@, 0);
                }
                value_equal(&xs[i].1, &ys[j].1)
            },
            None => false,
        };
        if !ok {
            proof {
                if hash_within(vx, vy, vx.len()) {
                    lemma_hash_within_prefix(vx, vy, vx.len(), (i + 1) as nat);
                }
            }
            return false;
        }
        i = i + 1;
    }
    true
}

} // verus!

verus! {

/// The error `display(v)` followed by `suffix`.
fn error_after(v: &Object, suffix: &str) -> (r: Object)
    ensures
        r@ == Value::Error(display(v@) + suffix@),
{
    let mut m = v.display_text();
    m.append(suffix);
    Object::Error(m)
}

/// The error `prefix` followed by `display(v)`.
fn error_before(prefix: &str, v: &Object) -> (r: Object)
    ensures
        r@ == Value::Error(prefix@ + display(v@)),
{
    let mut m = prefix.to_owned();
    let t = v.display_text();
    m.append(t.as_str());
    Object::Error(m)
}

fn arity_message(expected: usize, given: usize) -> (r: Object)
    ensures
        r@ == arity_error(expected as nat, given as nat),
{
    let mut m = "wrong number of arguments: ".to_owned();
    let e = crate::object::nat_string(expected as u64);
    m.append(e.as_str());
    m.append(" expected but ");
    let g = crate::object::nat_string(given as u64);
    m.append(g.as_str());
    m.append(" given");
    Object::Error(m)
}

fn literal_object(l: &Literal) -> (r: Object)
    ensures
        r@ == lit_value(l@),
{
    match l {
        Literal::IntLiteral(i) => Object::Integer(*i),
        Literal::BoolLiteral(b) => Object::Boolean(*b),
        Literal::StringLiteral(s) => Object::String(s.clone()),
    }
}

fn unwrap_return_object(o: Object) -> (r: Object)
    ensures
        r@ == unwrap_return(o@),
{
    match o {
        Object::Return(b) => *b,
        o => o,
    }
}

/// Copies of `xs` from position `from` on, after `first` when given.
fn copy_from(first: Option<&Object>, xs: &Vec<Object>, from: usize) -> (r: Vec<Object>)
    requires
        from <= xs@.len(),
    ensures
        view_objs(r@) == match first {
            Some(x) => seq![x@] + view_objs(xs@).subrange(from as int, xs@.len() as int),
            None => view_objs(xs@).subrange(from as int, xs@.len() as int),
        },
{
    let ghost vx = view_objs(xs@);
    proof {
        crate::object::lemma_view_objs_index(xs@);
    }
    let mut out: Vec<Object> = Vec::new();
    let ghost start: Seq<Value> = match first {
        Some(x) => seq![x@],
        None => Seq::empty(),
    };
    match first {
        Some(x) => {
            let c = x.copy();
            proof {
                crate::object::lemma_view_objs_push(out@, c);
            }
            out.push(c);
        },
        None => {},
    }
    assert(view_objs(out@) =~= start);
    let mut i = from;
    while i < xs.len()
        invariant
            from <= i <= xs@.len(),
            vx == view_objs(xs@),
            vx.len() == xs@.len(),
            forall|k: int| 0 <= k < xs@.len() ==> #[trigger] vx[k] == xs@[k]@,
            view_objs(out@) =~= start + vx.subrange(from as int, i as int),
        decreases xs.len() - i,
    {
        let c = xs[i].copy();
        proof {
            crate::object::lemma_view_objs_push(out@, c);
            assert(vx.subrange(from as int, i + 1) =~= vx.subrange(from as int, i as int).push(
                vx[i as int],
            ));
        }
        out.push(c);
        i = i + 1;
    }
    out
}

/// A built-in function applied to arguments of the right number.
fn builtin_apply(b: BuiltinFunction, args: &Vec<Object>) -> (r: Object)
    requires
        args@.len() == builtin_arity(b),
    ensures
        r@ == builtin_value(b, view_objs(args@)),
{
    proof {
        crate::object::lemma_view_objs_index(args@);
    }
    match b {
        BuiltinFunction::Len => match &args[0] {
            Object::String(s) => Object::Integer(s.as_str().unicode_len() as i64),
            Object::Array(xs) => {
                proof {
                    crate::object::lemma_view_objs_index(xs@);
                }
                Object::Integer(xs.len() as i64)
            },
            _ => error_before("invalid arguments for ", &Object::String(b.name().to_owned())),
        },
        BuiltinFunction::Head => match &args[0] {
            Object::Array(xs) => {
                proof {
                    crate::object::lemma_view_objs_index(xs@);
                }
                if xs.len() > 0 {
                    xs[0].copy()
                } else {
                    Object::Error("empty array".to_owned())
                }
            },
            _ => error_before("invalid arguments for ", &Object::String(b.name().to_owned())),
        },
        BuiltinFunction::Tail => match &args[0] {
            Object::Array(xs) => {
                proof {
                    crate::object::lemma_view_objs_index(xs@);
                }
                if xs.len() > 0 {
                    Object::Array(copy_from(None, xs, 1))
                } else {
                    Object::Error("empty array".to_owned())
                }
            },
            _ => error_before("invalid arguments for ", &Object::String(b.name().to_owned())),
        },
        BuiltinFunction::Cons => match &args[1] {
            Object::Array(xs) => {
                proof {
                    crate::object::lemma_view_objs_index(xs@);
                    assert(view_objs(xs@).subrange(0, xs@.len() as int) =~= view_objs(xs@));
                }
                Object::Array(copy_from(Some(&args[0]), xs, 0))
            },
            _ => error_before("invalid arguments for ", &Object::String(b.name().to_owned())),
        },
    }
}

/// An integer operator on two integers.
fn int_op_object(op: Infix, x: i64, y: i64) -> (r: Object)
    ensures
        r@ == int_op(op, x, y),
{
    match op {
        Infix::Minus => Object::Integer(x.wrapping_sub(y)),
        Infix::Multiply => Object::Integer(x.wrapping_mul(y)),
        Infix::Divide => if y == 0 {
            Object::Error("division by zero".to_owned())
        } else {
            match x.checked_div(y) {
                Some(q) => Object::Integer(q),
                None => Object::Integer(i64::MIN),
            }
        },
        Infix::GreaterThanEqual => Object::Boolean(x >= y),
        Infix::LessThanEqual => Object::Boolean(x <= y),
        Infix::GreaterThan => Object::Boolean(x > y),
        Infix::LessThan => Object::Boolean(x < y),
        _ => Object::NULL,
    }
}

/// Indexes an evaluated target with an evaluated index.
fn index_object(t: &Object, i: Object) -> (r: Object)
    ensures
        r@ == index_value(t@, i@),
{
    match t {
        Object::Array(xs) => {
            proof {
                crate::object::lemma_view_objs_index(xs@);
            }
            match to_integer(i) {
                Ok(k) => if 0 <= k && (k as u64) < (xs.len() as u64) {
                    xs[k as usize].copy()
                } else {
                    Object::NULL
                },
                Err(e) => e,
            }
        },
        Object::Hash(ps) => {
            let k = to_hash_key(i);
            if let Object::Error(_) = k {
                k
            } else {
                proof {
                    crate::object::lemma_view_obj_pairs_index(ps@);
                    lemma_key_index_from_bound(view_obj_pairs(ps@), k@, 0);
                }
                match find_key(ps, &k) {
                    Some(j) => ps[j].1.copy(),
                    None => Object::NULL,
                }
            }
        },
        _ => error_before("unexpected index target: ", t),
    }
}

fn to_boolean(object: Object) -> (r: Result<bool, Object>)
    ensures
        match r {
            Ok(b) => to_bool(object@) == Ok::<bool, Value>(b),
            Err(e) => to_bool(object@) == Err::<bool, Value>(e@),
        },
{
    match object {
        Object::Boolean(b) => Ok(b),
        Object::Error(s) => Err(Object::Error(s)),
        b => Err(error_after(&b, " is not a bool")),
    }
}

fn to_integer(object: Object) -> (r: Result<i64, Object>)
    ensures
        match r {
            Ok(i) => to_int(object@) == Ok::<i64, Value>(i),
            Err(e) => to_int(object@) == Err::<i64, Value>(e@),
        },
{
    match object {
        Object::Integer(i) => Ok(i),
        Object::Error(s) => Err(Object::Error(s)),
        i => Err(error_after(&i, " is not an integer")),
    }
}

fn to_hash_key(object: Object) -> (r: Object)
    ensures
        r@ == to_key(object@),
{
    match object {
        Object::Integer(i) => Object::Integer(i),
        Object::Boolean(b) => Object::Boolean(b),
        Object::String(s) => Object::String(s),
        Object::Error(s) => Object::Error(s),
        x => error_after(&x, " is not hashable"),
    }
}

/// A unary operator applied to an evaluated operand.
fn prefix_object(op: Prefix, v: Object) -> (r: Object)
    ensures
        r@ == prefix_value(op, v@),
{
    if abrupt(&v) {
        return v;
    }
    match op {
        Prefix::Plus => match to_integer(v) {
            Ok(i) => Object::Integer(i),
            Err(e) => e,
        },
        Prefix::Minus => match to_integer(v) {
            Ok(i) => Object::Integer(0i64.wrapping_sub(i)),
            Err(e) => e,
        },
        Prefix::Not => match to_boolean(v) {
            Ok(b) => Object::Boolean(!b),
            Err(e) => e,
        },
    }
}

/// A binary operator applied to evaluated operands.
fn infix_object(op: Infix, a: Object, b: Object) -> (r: Object)
    ensures
        r@ == infix_value(op, a@, b@),
{
    if abrupt(&a) {
        return a;
    }
    if abrupt(&b) {
        return b;
    }
    match op {
        Infix::Plus => match (a, b) {
            (Object::Integer(x), Object::Integer(y)) => Object::Integer(x.wrapping_add(y)),
            (Object::String(x), Object::String(y)) => {
                let mut s = x;
                s.append(y.as_str());
                Object::String(s)
            },
            (a, b) => {
                let mut m = a.display_text();
                m.append(" and ");
                let t = b.display_text();
                m.append(t.as_str());
                m.append(" are not addable");
                Object::Error(m)
            },
        },
        Infix::Equal => Object::Boolean(value_equal(&a, &b)),
        Infix::NotEqual => Object::Boolean(!value_equal(&a, &b)),
        _ => match to_integer(a) {
            Err(e) => e,
            Ok(x) => match to_integer(b) {
                Err(e) => e,
                Ok(y) => int_op_object(op, x, y),
            },
        },
    }
}

} // verus!

verus! {

/// An evaluator: it owns the environment, which persists across programs.
pub struct Evaluator {
    env: Environment,
}

impl Evaluator {
    /// The environment the next evaluation starts from.
    pub closed spec fn state(&self) -> EnvView {
        self.env@
    }

    /// A value as a boolean, or the error that takes its place.
    pub fn otb(&self, object: Object) -> (r: Result<bool, Object>)
        ensures
            match r {
                Ok(b) => to_bool(object@) == Ok::<bool, Value>(b),
                Err(e) => to_bool(object@) == Err::<bool, Value>(e@),
            },
    {
        to_boolean(object)
    }

    /// A value as an integer, or the error that takes its place.
    pub fn oti(&self, object: Object) -> (r: Result<i64, Object>)
        ensures
            match r {
                Ok(i) => to_int(object@) == Ok::<i64, Value>(i),
                Err(e) => to_int(object@) == Err::<i64, Value>(e@),
            },
    {
        to_integer(object)
    }

    /// The value itself when it can be called (or is an error), else an error.
    pub fn otfn(&self, object: Object) -> (r: Object)
        ensures
            r@ == to_callable(object@),
    {
        match object {
            Object::Function(p, b, e) => Object::Function(p, b, e),
            Object::Builtin(b) => Object::Builtin(b),
            Object::Error(s) => Object::Error(s),
            f => error_after(&f, " is not a valid function"),
        }
    }

    /// The value itself when it can be a hash key (or is an error), else an error.
    pub fn othash(&self, object: Object) -> (r: Object)
        ensures
            r@ == to_key(object@),
    {
        to_hash_key(object)
    }

    /// An evaluator whose environment holds only the built-in functions.
    pub fn new() -> (r: Self)
        ensures
            r.state() == root_env(),
    {
        Evaluator { env: Environment::new() }
    }

    /// Evaluates a program in the root frame; bindings it makes stay for the
    /// next program.
    pub fn evaluation(&mut self, program: Program) -> (r: Object)
        ensures
            (final(self).state(), r@) == eval_program(old(self).state(), view_stmts(program@)),
    {
        let v = self.eval_statements(&program, 0, MAX_DEPTH);
        unwrap_return_object(v)
    }

    fn eval_statements(&mut self, ss: &Vec<Stmt>, f: usize, fuel: u32) -> (r: Object)
        ensures
            (final(self).state(), r@) == eval_block(old(self).state(), f as nat, view_stmts(ss@), 0, Value::Null, fuel as nat),
        decreases fuel, 2nat, 0nat,
    {
        let ghost vs = view_stmts(ss@);
        proof {
            crate::ast::lemma_view_stmts_index(ss@);
        }
        let mut last = Object::NULL;
        let mut i: usize = 0;
        while i < ss.len()
            invariant
                i <= ss@.len(),
                vs == view_stmts(ss@),
                vs.len() == ss@.len(),
                forall|k: int| 0 <= k < ss@.len() ==> #[trigger] vs[k] == ss@[k]@,
                eval_block(old(self).state(), f as nat, vs, 0, Value::Null, fuel as nat)
                    == eval_block(self.state(), f as nat, vs, i as nat, last@, fuel as nat),
            decreases ss.len() - i,
        {
            let v = self.eval_stmt(&ss[i], f, fuel);
            if abrupt(&v) {
                return v;
            }
            last = v;
            i = i + 1;
        }
        last
    }

    fn eval_stmt(&mut self, s: &Stmt, f: usize, fuel: u32) -> (r: Object)
        ensures
            (final(self).state(), r@) == eval_stmt(old(self).state(), f as nat, s@, fuel as nat),
        decreases fuel, 1nat, 0nat,
    {
        match s {
            Stmt::ExprStmt(e) => self.eval_expr(e, f, fuel),
            Stmt::ReturnStmt(e) => {
                let v = self.eval_expr(e, f, fuel);
                if abrupt(&v) {
                    v
                } else {
                    Object::Return(Box::new(v))
                }
            },
            Stmt::LetStmt(Identifier(name), e) => {
                let v = self.eval_expr(e, f, fuel);
                if abrupt(&v) {
                    return v;
                }
                let stored = v.copy();
                self.env.set(f, name.as_str(), stored);
                v
            },
        }
    }

    fn eval_expr(&mut self, e: &Expr, f: usize, fuel: u32) -> (r: Object)
        ensures
            (final(self).state(), r@) == eval_expr(old(self).state(), f as nat, e@, fuel as nat),
        decreases fuel, 0nat, 0nat,
    {
        if fuel == 0 {
            return Object::Error("evaluation depth exceeded".to_owned());
        }
        let n = fuel - 1;
        match e {
            Expr::IdentExpr(Identifier(name)) => match self.env.get(f, name.as_str()) {
                Some(o) => o,
                None => {
                    let mut m = "identifier not found: ".to_owned();
                    m.append(name.as_str());
                    Object::Error(m)
                },
            },
            Expr::LiteralExpr(l) => self.eval_literal(l),
            Expr::PrefixExpr(op, right) => self.eval_prefix(*op, right, f, n),
            Expr::InfixExpr(op, left, right) => self.eval_infix(*op, left, right, f, n),
            Expr::IfExpr { cond, consequence, alternative } => self.eval_if(
                cond,
                consequence,
                alternative,
                f,
                n,
            ),
            Expr::FnExpr { parameters, body } => self.eval_fn(parameters, body, f),
            Expr::ArrayExpr(items) => self.eval_array(items, f, n),
            Expr::HashExpr(pairs) => self.eval_hash(pairs, f, n),
            Expr::CallExpr { function, arguments } => self.eval_call(function, arguments, f, n),
            Expr::IndexExpr { left, index } => self.eval_index(left, index, f, n),
        }
    }

    fn eval_literal(&self, literal: &Literal) -> (r: Object)
        ensures
            r@ == lit_value(literal@),
    {
        literal_object(literal)
    }

    fn eval_prefix(&mut self, op: Prefix, right: &Expr, f: usize, fuel: u32) -> (r: Object)
        ensures
            ({
                let (env1, v) = eval_expr(old(self).state(), f as nat, right@, fuel as nat);
                final(self).state() == env1 && r@ == prefix_value(op, v)
            }),
        decreases fuel, 4nat, 0nat,
    {
        let v = self.eval_expr(right, f, fuel);
        prefix_object(op, v)
    }

    fn eval_infix(&mut self, op: Infix, left: &Expr, right: &Expr, f: usize, fuel: u32) -> (r: Object)
        ensures
            ({
                let (env1, a) = eval_expr(old(self).state(), f as nat, left@, fuel as nat);
                if is_abrupt(a) {
                    final(self).state() == env1 && r@ == a
                } else {
                    let (env2, b) = eval_expr(env1, f as nat, right@, fuel as nat);
                    final(self).state() == env2 && r@ == infix_value(op, a, b)
                }
            }),
        decreases fuel, 4nat, 0nat,
    {
        let a = self.eval_expr(left, f, fuel);
        if abrupt(&a) {
            return a;
        }
        let b = self.eval_expr(right, f, fuel);
        infix_object(op, a, b)
    }

    fn eval_if(
        &mut self,
        cond: &Expr,
        consequence: &Vec<Stmt>,
        alternative: &Option<Vec<Stmt>>,
        f: usize,
        fuel: u32,
    ) -> (r: Object)
        ensures
            ({
                let (env1, cv) = eval_expr(old(self).state(), f as nat, cond@, fuel as nat);
                let alt = match alternative {
                    Some(a) => Some(view_stmts(a@)),
                    None => None,
                };
                let res = if is_abrupt(cv) {
                    (env1, cv)
                } else {
                    match to_bool(cv) {
                        Err(e) => (env1, e),
                        Ok(true) => eval_block(env1, f as nat, view_stmts(consequence@), 0, Value::Null, fuel as nat),
                        Ok(false) => match alt {
                            Some(a) => eval_block(env1, f as nat, a, 0, Value::Null, fuel as nat),
                            None => (env1, Value::Null),
                        },
                    }
                };
                (final(self).state(), r@) == res
            }),
        decreases fuel, 4nat, 0nat,
    {
        let cv = self.eval_expr(cond, f, fuel);
        if abrupt(&cv) {
            return cv;
        }
        match to_boolean(cv) {
            Err(e) => e,
            Ok(true) => self.eval_statements(consequence, f, fuel),
            Ok(false) => match alternative {
                Some(a) => self.eval_statements(a, f, fuel),
                None => Object::NULL,
            },
        }
    }

    fn eval_fn(&self, parameters: &Vec<Identifier>, body: &Vec<Stmt>, f: usize) -> (r: Object)
        ensures
            r@ == Value::Func(view_idents(parameters@), view_stmts(body@), f as nat),
    {
        Object::Function(crate::ast::copy_idents(parameters), crate::ast::copy_stmts(body), f)
    }

    /// Evaluates expressions in order: all the values, or the first abrupt one.
    fn eval_exprs(&mut self, es: &Vec<Expr>, f: usize, fuel: u32) -> (r: Result<Vec<Object>, Object>)
        ensures
            ({
                let (env1, res) = eval_list(old(self).state(), f as nat, view_exprs(es@), 0, Seq::empty(), fuel as nat);
                final(self).state() == env1 && match r {
                    Ok(vs) => res == Ok::<Seq<Value>, Value>(view_objs(vs@)),
                    Err(v) => res == Err::<Seq<Value>, Value>(v@),
                }
            }),
        decreases fuel, 2nat, 0nat,
    {
        let ghost ve = view_exprs(es@);
        proof {
            crate::ast::lemma_view_exprs_index(es@);
        }
        let mut out: Vec<Object> = Vec::new();
        let mut i: usize = 0;
        assert(view_objs(out@) =~= Seq::<Value>::empty());
        while i < es.len()
            invariant
                i <= es@.len(),
                ve == view_exprs(es@),
                ve.len() == es@.len(),
                forall|k: int| 0 <= k < es@.len() ==> #[trigger] ve[k] == es@[k]@,
                eval_list(old(self).state(), f as nat, ve, 0, Seq::empty(), fuel as nat)
                    == eval_list(self.state(), f as nat, ve, i as nat, view_objs(out@), fuel as nat),
            decreases es.len() - i,
        {
            let v = self.eval_expr(&es[i], f, fuel);
            if abrupt(&v) {
                return Err(v);
            }
            proof {
                crate::object::lemma_view_objs_push(out@, v);
            }
            out.push(v);
            i = i + 1;
        }
        Ok(out)
    }

    fn eval_array(&mut self, items: &Vec<Expr>, f: usize, fuel: u32) -> (r: Object)
        ensures
            ({
                let (env1, res) = eval_list(old(self).state(), f as nat, view_exprs(items@), 0, Seq::empty(), fuel as nat);
                final(self).state() == env1 && r@ == match res {
                    Ok(vs) => Value::Array(vs),
                    Err(v) => v,
                }
            }),
        decreases fuel, 4nat, 0nat,
    {
        match self.eval_exprs(items, f, fuel) {
            Ok(vs) => Object::Array(vs),
            Err(v) => v,
        }
    }

    fn eval_hash(&mut self, pairs: &Vec<(Literal, Expr)>, f: usize, fuel: u32) -> (r: Object)
        ensures
            ({
                let (env1, res) = eval_hash(old(self).state(), f as nat, view_pairs(pairs@), 0, Seq::empty(), fuel as nat);
                final(self).state() == env1 && r@ == match res {
                    Ok(ps) => Value::Hash(ps),
                    Err(v) => v,
                }
            }),
        decreases fuel, 4nat, 0nat,
    {
        let ghost vp = view_pairs(pairs@);
        proof {
            crate::ast::lemma_view_pairs_index(pairs@);
        }
        let mut out: Vec<(Object, Object)> = Vec::new();
        let mut i: usize = 0;
        assert(view_obj_pairs(out@) =~= Seq::<(Value, Value)>::empty());
        while i < pairs.len()
            invariant
                i <= pairs@.len(),
                vp == view_pairs(pairs@),
                vp.len() == pairs@.len(),
                forall|k: int| 0 <= k < pairs@.len() ==> #[trigger] vp[k] == (pairs@[k].0@, pairs@[k].1@),
                eval_hash(old(self).state(), f as nat, vp, 0, Seq::empty(), fuel as nat)
                    == eval_hash(self.state(), f as nat, vp, i as nat, view_obj_pairs(out@), fuel as nat),
            decreases pairs.len() - i,
        {
            let v = self.eval_expr(&pairs[i].1, f, fuel);
            if abrupt(&v) {
                return v;
            }
            let k = literal_object(&pairs[i].0);
            insert_pair(&mut out, k, v);
            i = i + 1;
        }
        Object::Hash(out)
    }

    fn eval_call(&mut self, function: &Expr, arguments: &Vec<Expr>, f: usize, fuel: u32) -> (r: Object)
        ensures
            ({
                let (env1, fv) = eval_expr(old(self).state(), f as nat, function@, fuel as nat);
                if is_abrupt(fv) {
                    final(self).state() == env1 && r@ == fv
                } else {
                    (final(self).state(), r@) == eval_call(env1, f as nat, fv, view_exprs(arguments@), fuel as nat)
                }
            }),
        decreases fuel, 4nat, 0nat,
    {
        let fv = self.eval_expr(function, f, fuel);
        if abrupt(&fv) {
            return fv;
        }
        proof {
            crate::ast::lemma_view_exprs_index(arguments@);
        }
        match fv {
            Object::Function(params, body, cf) => self.eval_fn_call(arguments, params, body, cf, f, fuel),
            Object::Builtin(b) => self.eval_builtin_call(arguments, b, f, fuel),
            o => self.otfn(o),
        }
    }

    fn eval_index(&mut self, left: &Expr, index: &Expr, f: usize, fuel: u32) -> (r: Object)
        ensures
            ({
                let (env1, tv) = eval_expr(old(self).state(), f as nat, left@, fuel as nat);
                if is_abrupt(tv) {
                    final(self).state() == env1 && r@ == tv
                } else {
                    let (env2, iv) = eval_expr(env1, f as nat, index@, fuel as nat);
                    final(self).state() == env2 && r@ == if is_abrupt(iv) {
                        iv
                    } else {
                        index_value(tv, iv)
                    }
                }
            }),
        decreases fuel, 4nat, 0nat,
    {
        let tv = self.eval_expr(left, f, fuel);
        if abrupt(&tv) {
            return tv;
        }
        let iv = self.eval_expr(index, f, fuel);
        if abrupt(&iv) {
            return iv;
        }
        index_object(&tv, iv)
    }

    fn eval_fn_call(
        &mut self,
        arguments: &Vec<Expr>,
        params: Vec<Identifier>,
        body: Vec<Stmt>,
        cf: usize,
        f: usize,
        fuel: u32,
    ) -> (r: Object)
        ensures
            (final(self).state(), r@) == eval_call(
                old(self).state(),
                f as nat,
                Value::Func(view_idents(params@), view_stmts(body@), cf as nat),
                view_exprs(arguments@),
                fuel as nat,
            ),
        decreases fuel, 3nat, 0nat,
    {
        proof {
            crate::ast::lemma_view_exprs_index(arguments@);
            crate::ast::lemma_view_idents_index(params@);
        }
        if arguments.len() != params.len() {
            return arity_message(params.len(), arguments.len());
        }
        proof {
            lemma_eval_list_len(old(self).state(), f as nat, view_exprs(arguments@), 0, Seq::empty(), fuel as nat);
        }
        let args = match self.eval_exprs(arguments, f, fuel) {
            Err(v) => {
                return v;
            },
            Ok(vs) => vs,
        };
        if cf >= self.env.frame_count() {
            return Object::Error("invalid closure environment".to_owned());
        }
        proof {
            crate::object::lemma_view_objs_index(args@);
        }
        let ghost env1 = self.state();
        let ghost vparams = view_idents(params@);
        let ghost vvals = view_objs(args@);
        let id = self.env.new_with_outer(cf);
        let mut k: usize = 0;
        while k < params.len()
            invariant
                k <= params@.len(),
                params@.len() == args@.len(),
                vparams == view_idents(params@),
                vvals == view_objs(args@),
                vparams.len() == params@.len(),
                vvals.len() == args@.len(),
                forall|j: int| 0 <= j < params@.len() ==> #[trigger] vparams[j] == params@[j]@,
                forall|j: int| 0 <= j < args@.len() ==> #[trigger] vvals[j] == args@[j]@,
                id == env1.parents.len(),
                self.state() == (EnvView {
                    bindings: env1.bindings + Seq::new(
                        k as nat,
                        |j: int| (id as nat, vparams[j], vvals[j]),
                    ),
                    parents: env1.parents.push(Some(cf as nat)),
                }),
            decreases params.len() - k,
        {
            let v = args[k].copy();
            self.env.set(id, params[k].0.as_str(), v);
            proof {
                assert(self.state().bindings =~= env1.bindings + Seq::new(
                    (k + 1) as nat,
                    |j: int| (id as nat, vparams[j], vvals[j]),
                ));
            }
            k = k + 1;
        }
        proof {
            assert(Seq::new(k as nat, |j: int| (id as nat, vparams[j], vvals[j])) =~= bind_params(
                id as nat,
                vparams,
                vvals,
            ));
        }
        let res = self.eval_statements(&body, id, fuel);
        unwrap_return_object(res)
    }

    fn eval_builtin_call(&mut self, arguments: &Vec<Expr>, b: BuiltinFunction, f: usize, fuel: u32) -> (r: Object)
        ensures
            (final(self).state(), r@) == eval_call(
                old(self).state(),
                f as nat,
                Value::Builtin(b),
                view_exprs(arguments@),
                fuel as nat,
            ),
        decreases fuel, 3nat, 0nat,
    {
        proof {
            crate::ast::lemma_view_exprs_index(arguments@);
        }
        let arity = b.arity();
        if arguments.len() != arity {
            return arity_message(arity, arguments.len());
        }
        proof {
            lemma_eval_list_len(old(self).state(), f as nat, view_exprs(arguments@), 0, Seq::empty(), fuel as nat);
        }
        match self.eval_exprs(arguments, f, fuel) {
            Err(v) => v,
            Ok(vs) => {
                proof {
                    crate::object::lemma_view_objs_index(vs@);
                    assert(vs@.len() == view_exprs(arguments@).len());
                }
                builtin_apply(b, &vs)
            },
        }
    }
}

} // verus!
