//! Laws of the language, proved over the spec functions that the lexer,
//! parser and evaluator are verified against.
use vstd::prelude::*;
use crate::ast::{ExprV, Infix, LitV, StmtV};
use crate::environment::{EnvView, find_in, lookup};
use crate::evaluator::{bind_params, eval_list, eval_block, eval_call, eval_expr, eval_stmt, index_value, infix_value, to_bool, to_key};
use crate::object::{Value, display, is_abrupt, is_hashable};
use crate::parser::{p_expr, p_infix, p_prefix, p_program, p_stmt, parse_spec};

verus! {

/// The operators that compute on integers or compare them.
pub open spec fn is_arithmetic_or_relational(op: Infix) -> bool {
    !(op is Equal || op is NotEqual)
}

/// An error in the left operand of a binary operator is the result, and the
/// right operand is not evaluated.
pub proof fn law_left_error_poisons(env: EnvView, f: nat, op: Infix, l: ExprV, r: ExprV, fuel: nat, m: Seq<char>)
    requires
        eval_expr(env, f, l, fuel).1 == Value::Error(m),
    ensures
        eval_expr(env, f, ExprV::Infix(op, Box::new(l), Box::new(r)), fuel + 1) == (
            eval_expr(env, f, l, fuel).0,
            Value::Error(m),
        ),
{
}

/// An error in the right operand of a binary operator, after a left operand
/// that is an ordinary value, is the result.
pub proof fn law_right_error_poisons(env: EnvView, f: nat, op: Infix, l: ExprV, r: ExprV, fuel: nat, m: Seq<char>)
    requires
        !is_abrupt(eval_expr(env, f, l, fuel).1),
        eval_expr(eval_expr(env, f, l, fuel).0, f, r, fuel).1 == Value::Error(m),
    ensures
        eval_expr(env, f, ExprV::Infix(op, Box::new(l), Box::new(r)), fuel + 1).1 == Value::Error(m),
{
}

/// Applying an arithmetic or relational operator to operands of which one is
/// an error gives the first such error, left to right.
pub proof fn law_error_operand_poisons(op: Infix, a: Value, b: Value)
    requires
        is_arithmetic_or_relational(op),
        a is Error || b is Error,
        !(a is Ret),
        !(b is Ret),
    ensures
        infix_value(op, a, b) == if a is Error {
            a
        } else {
            b
        },
{
}

/// Exactly integers, booleans and strings are hash keys: any other value
/// that is not itself an error becomes the error "V is not hashable".
pub proof fn law_hash_keys(v: Value)
    ensures
        is_hashable(v) <==> (v is Int || v is Bool || v is Str),
        is_hashable(v) ==> to_key(v) == v,
        !is_hashable(v) && !(v is Error) ==> to_key(v) == Value::Error(
            display(v) + " is not hashable"@,
        ),
{
}

/// Indexing a hash with a value that cannot be a key gives "V is not hashable".
pub proof fn law_unhashable_index(ps: Seq<(Value, Value)>, k: Value)
    requires
        !is_hashable(k),
        !(k is Error),
    ensures
        index_value(Value::Hash(ps), k) == Value::Error(display(k) + " is not hashable"@),
{
}

/// A block that is `k` nested `if (true) { ... }` around `return v`.
pub open spec fn return_nest(k: nat, v: LitV) -> Seq<StmtV>
    decreases k,
{
    if k == 0 {
        seq![StmtV::Return(ExprV::Lit(v))]
    } else {
        seq![
            StmtV::Expr(
                ExprV::If(Box::new(ExprV::Lit(LitV::Bool(true))), return_nest((k - 1) as nat, v), None),
            ),
        ]
    }
}

/// A `return` inside any nest of `if` blocks escapes all of them: the block
/// yields the return marker, with the environment unchanged.
pub proof fn law_return_escapes_ifs(env: EnvView, f: nat, k: nat, v: LitV, fuel: nat)
    requires
        fuel > k,
    ensures
        eval_block(env, f, return_nest(k, v), 0, Value::Null, fuel) == (
            env,
            Value::Ret(Box::new(crate::evaluator::lit_value(v))),
        ),
    decreases k,
{
    let ss = return_nest(k, v);
    if k == 0 {
        let (env1, r) = eval_stmt(env, f, ss[0], fuel);
        assert(eval_expr(env, f, ExprV::Lit(v), fuel) == (env, crate::evaluator::lit_value(v)));
        assert(r == Value::Ret(Box::new(crate::evaluator::lit_value(v))));
    } else {
        let inner = return_nest((k - 1) as nat, v);
        let n = (fuel - 1) as nat;
        law_return_escapes_ifs(env, f, (k - 1) as nat, v, n);
        let c = ExprV::Lit(LitV::Bool(true));
        assert(eval_expr(env, f, c, n) == (env, Value::Bool(true)));
        assert(to_bool(Value::Bool(true)) == Ok::<bool, Value>(true));
        assert(eval_expr(env, f, ExprV::If(Box::new(c), inner, None), fuel) == eval_block(
            env,
            f,
            inner,
            0,
            Value::Null,
            n,
        ));
        assert(eval_stmt(env, f, ss[0], fuel) == (
            env,
            Value::Ret(Box::new(crate::evaluator::lit_value(v))),
        ));
    }
}

/// The function whose body is such a nest returns `v` when called.
pub proof fn law_return_escapes_to_call(env: EnvView, f: nat, cf: nat, k: nat, v: LitV, fuel: nat)
    requires
        fuel > k,
        cf < env.parents.len(),
    ensures
        eval_call(env, f, Value::Func(seq![], return_nest(k, v), cf), seq![], fuel).1
            == crate::evaluator::lit_value(v),
{
    let id = env.parents.len();
    let env2 = EnvView {
        bindings: env.bindings + crate::evaluator::bind_params(id, seq![], seq![]),
        parents: env.parents.push(Some(cf)),
    };
    law_return_escapes_ifs(env2, id, k, v, fuel);
    assert(crate::evaluator::eval_list(env, f, seq![], 0, Seq::empty(), fuel) == (
        env,
        Ok::<Seq<Value>, Value>(Seq::empty()),
    ));
}

} // verus!

verus! {

pub open spec fn int_token(i: i64) -> crate::token::TokenView {
    crate::token::TokenView::Plain(crate::token::Token::IntLiteral(i))
}

pub open spec fn bare_token(t: crate::token::Token) -> crate::token::TokenView {
    crate::token::TokenView::Plain(t)
}

pub open spec fn int_lit(i: i64) -> ExprV {
    ExprV::Lit(LitV::Int(i))
}

pub open spec fn binary(op: Infix, l: ExprV, r: ExprV) -> ExprV {
    ExprV::Infix(op, Box::new(l), Box::new(r))
}

/// The tokens of `a op1 b op2 c`.
pub open spec fn three_operands(a: i64, op1: crate::token::Token, b: i64, op2: crate::token::Token, c: i64) -> Seq<
    crate::token::TokenView,
> {
    seq![
        int_token(a),
        bare_token(op1),
        int_token(b),
        bare_token(op2),
        int_token(c),
        bare_token(crate::token::Token::EOF),
    ]
}

/// `a + b * c` parses as `a + (b * c)` and evaluates to that sum.
pub proof fn law_product_binds_tighter(a: i64, b: i64, c: i64)
    ensures
        crate::parser::parse_spec(
            three_operands(a, crate::token::Token::Plus, b, crate::token::Token::Multiply, c),
        ) == Ok::<Seq<StmtV>, nat>(
            seq![
                StmtV::Expr(
                    binary(Infix::Plus, int_lit(a), binary(Infix::Multiply, int_lit(b), int_lit(c))),
                ),
            ],
        ),
        crate::evaluator::eval_program(
            crate::environment::root_env(),
            seq![
                StmtV::Expr(
                    binary(Infix::Plus, int_lit(a), binary(Infix::Multiply, int_lit(b), int_lit(c))),
                ),
            ],
        ).1 == Value::Int(a.wrapping_add(b.wrapping_mul(c))),
{
    let ts = three_operands(a, crate::token::Token::Plus, b, crate::token::Token::Multiply, c);
    let bc = binary(Infix::Multiply, int_lit(b), int_lit(c));
    let e = binary(Infix::Plus, int_lit(a), bc);
    assert(p_infix(ts, 5, 4, int_lit(c)) == Ok::<(ExprV, nat), nat>((int_lit(c), 5nat)));
    assert(p_prefix(ts, 4) == Ok::<(ExprV, nat), nat>((int_lit(c), 5nat)));
    assert(p_expr(ts, 4, 4) == Ok::<(ExprV, nat), nat>((int_lit(c), 5nat)));
    assert(p_infix(ts, 5, 3, bc) == Ok::<(ExprV, nat), nat>((bc, 5nat)));
    assert(p_infix(ts, 3, 3, int_lit(b)) == Ok::<(ExprV, nat), nat>((bc, 5nat)));
    assert(p_prefix(ts, 2) == Ok::<(ExprV, nat), nat>((int_lit(b), 3nat)));
    assert(p_expr(ts, 2, 3) == Ok::<(ExprV, nat), nat>((bc, 5nat)));
    assert(p_infix(ts, 5, 0, e) == Ok::<(ExprV, nat), nat>((e, 5nat)));
    assert(p_infix(ts, 1, 0, int_lit(a)) == Ok::<(ExprV, nat), nat>((e, 5nat)));
    assert(p_prefix(ts, 0) == Ok::<(ExprV, nat), nat>((int_lit(a), 1nat)));
    assert(p_expr(ts, 0, 0) == Ok::<(ExprV, nat), nat>((e, 5nat)));
    assert(p_stmt(ts, 0) == Ok::<(StmtV, nat), nat>((StmtV::Expr(e), 5nat)));
    assert(p_program(ts, 5, seq![StmtV::Expr(e)]) == Ok::<Seq<StmtV>, nat>(seq![StmtV::Expr(e)]));
    assert(Seq::<StmtV>::empty().push(StmtV::Expr(e)) =~= seq![StmtV::Expr(e)]);
    assert(parse_spec(ts) == Ok::<Seq<StmtV>, nat>(seq![StmtV::Expr(e)]));
    lemma_eval_three(a, b, c, Infix::Plus, Infix::Multiply, false);
}

/// `a + b + c` parses as `(a + b) + c` and evaluates to that sum.
pub proof fn law_sum_groups_left(a: i64, b: i64, c: i64)
    ensures
        crate::parser::parse_spec(
            three_operands(a, crate::token::Token::Plus, b, crate::token::Token::Plus, c),
        ) == Ok::<Seq<StmtV>, nat>(
            seq![
                StmtV::Expr(
                    binary(Infix::Plus, binary(Infix::Plus, int_lit(a), int_lit(b)), int_lit(c)),
                ),
            ],
        ),
        crate::evaluator::eval_program(
            crate::environment::root_env(),
            seq![
                StmtV::Expr(
                    binary(Infix::Plus, binary(Infix::Plus, int_lit(a), int_lit(b)), int_lit(c)),
                ),
            ],
        ).1 == Value::Int(a.wrapping_add(b).wrapping_add(c)),
{
    let ts = three_operands(a, crate::token::Token::Plus, b, crate::token::Token::Plus, c);
    let ab = binary(Infix::Plus, int_lit(a), int_lit(b));
    let e = binary(Infix::Plus, ab, int_lit(c));
    assert(p_infix(ts, 3, 3, int_lit(b)) == Ok::<(ExprV, nat), nat>((int_lit(b), 3nat)));
    assert(p_prefix(ts, 2) == Ok::<(ExprV, nat), nat>((int_lit(b), 3nat)));
    assert(p_expr(ts, 2, 3) == Ok::<(ExprV, nat), nat>((int_lit(b), 3nat)));
    assert(p_infix(ts, 5, 3, int_lit(c)) == Ok::<(ExprV, nat), nat>((int_lit(c), 5nat)));
    assert(p_prefix(ts, 4) == Ok::<(ExprV, nat), nat>((int_lit(c), 5nat)));
    assert(p_expr(ts, 4, 3) == Ok::<(ExprV, nat), nat>((int_lit(c), 5nat)));
    assert(p_infix(ts, 5, 0, e) == Ok::<(ExprV, nat), nat>((e, 5nat)));
    assert(p_infix(ts, 3, 0, ab) == Ok::<(ExprV, nat), nat>((e, 5nat)));
    assert(p_infix(ts, 1, 0, int_lit(a)) == Ok::<(ExprV, nat), nat>((e, 5nat)));
    assert(p_prefix(ts, 0) == Ok::<(ExprV, nat), nat>((int_lit(a), 1nat)));
    assert(p_expr(ts, 0, 0) == Ok::<(ExprV, nat), nat>((e, 5nat)));
    assert(p_stmt(ts, 0) == Ok::<(StmtV, nat), nat>((StmtV::Expr(e), 5nat)));
    assert(p_program(ts, 5, seq![StmtV::Expr(e)]) == Ok::<Seq<StmtV>, nat>(seq![StmtV::Expr(e)]));
    assert(Seq::<StmtV>::empty().push(StmtV::Expr(e)) =~= seq![StmtV::Expr(e)]);
    assert(parse_spec(ts) == Ok::<Seq<StmtV>, nat>(seq![StmtV::Expr(e)]));
    lemma_eval_three(a, b, c, Infix::Plus, Infix::Plus, true);
}

/// Evaluating `a op1 (b op2 c)` (or `(a op1 b) op2 c` when `left`) for
/// integer operators that cannot fail.
proof fn lemma_eval_three(a: i64, b: i64, c: i64, op1: Infix, op2: Infix, left: bool)
    requires
        op1 is Plus || op1 is Multiply,
        op2 is Plus || op2 is Multiply,
    ensures
        ({
            let e = if left {
                binary(op2, binary(op1, int_lit(a), int_lit(b)), int_lit(c))
            } else {
                binary(op1, int_lit(a), binary(op2, int_lit(b), int_lit(c)))
            };
            let f = |x: i64, y: i64, op: Infix| if op is Plus {
                x.wrapping_add(y)
            } else {
                x.wrapping_mul(y)
            };
            crate::evaluator::eval_program(crate::environment::root_env(), seq![StmtV::Expr(e)]).1
                == Value::Int(
                if left {
                    f(f(a, b, op1), c, op2)
                } else {
                    f(a, f(b, c, op2), op1)
                },
            )
        }),
{
    let env = crate::environment::root_env();
    let fuel = crate::evaluator::MAX_DEPTH as nat;
    let e = if left {
        binary(op2, binary(op1, int_lit(a), int_lit(b)), int_lit(c))
    } else {
        binary(op1, int_lit(a), binary(op2, int_lit(b), int_lit(c)))
    };
    let n = (fuel - 1) as nat;
    let m = (n - 1) as nat;
    assert(eval_expr(env, 0, int_lit(a), n) == (env, Value::Int(a)));
    assert(eval_expr(env, 0, int_lit(a), m) == (env, Value::Int(a)));
    assert(eval_expr(env, 0, int_lit(b), n) == (env, Value::Int(b)));
    assert(eval_expr(env, 0, int_lit(b), m) == (env, Value::Int(b)));
    assert(eval_expr(env, 0, int_lit(c), n) == (env, Value::Int(c)));
    assert(eval_expr(env, 0, int_lit(c), m) == (env, Value::Int(c)));
    let (env1, v) = eval_expr(env, 0, e, fuel);
    assert(eval_stmt(env, 0, StmtV::Expr(e), fuel) == (env1, v));
    assert(eval_block(env, 0, seq![StmtV::Expr(e)], 1, v, fuel) == (env1, v));
}

} // verus!

verus! {

/// Every binding of the environment belongs to one of its frames.
pub open spec fn bindings_in_frames(env: EnvView) -> bool {
    forall|k: int| 0 <= k < env.bindings.len() ==> (#[trigger] env.bindings[k]).0 < env.parents.len()
}

proof fn lemma_no_binding_in_new_frame(b: Seq<(nat, Seq<char>, Value)>, id: nat, name: Seq<char>)
    requires
        forall|k: int| 0 <= k < b.len() ==> (#[trigger] b[k]).0 < id,
    ensures
        crate::environment::find_in(b, id, name) is None,
    decreases b.len(),
{
    if b.len() > 0 {
        assert(b.last() == b[b.len() - 1]);
        lemma_no_binding_in_new_frame(b.drop_last(), id, name);
    }
}

/// The adder `fn(x) { fn(y) { x + y } }`, with parameter names `x` and `y`.
pub open spec fn adder(x: Seq<char>, y: Seq<char>) -> ExprV {
    ExprV::Func(
        seq![x],
        seq![
            StmtV::Expr(
                ExprV::Func(
                    seq![y],
                    seq![StmtV::Expr(binary(Infix::Plus, ExprV::Ident(x), ExprV::Ident(y)))],
                ),
            ),
        ],
    )
}

/// The environment after the adder is applied to `i`: a new frame under the
/// root with `x` bound to `i`.
pub open spec fn after_outer_call(env: EnvView, x: Seq<char>, i: i64) -> EnvView {
    EnvView {
        bindings: env.bindings + bind_params(env.parents.len(), seq![x], seq![Value::Int(i)]),
        parents: env.parents.push(Some(0)),
    }
}

/// The environment after the inner function is applied to `j`.
pub open spec fn after_inner_call(env: EnvView, x: Seq<char>, y: Seq<char>, i: i64, j: i64) -> EnvView {
    let env2 = after_outer_call(env, x, i);
    EnvView {
        bindings: env2.bindings + bind_params(env2.parents.len(), seq![y], seq![Value::Int(j)]),
        parents: env2.parents.push(Some(env.parents.len())),
    }
}

pub open spec fn inner_adder(x: Seq<char>, y: Seq<char>, frame: nat) -> Value {
    Value::Func(
        seq![y],
        seq![StmtV::Expr(binary(Infix::Plus, ExprV::Ident(x), ExprV::Ident(y)))],
        frame,
    )
}

proof fn lemma_outer_call(env: EnvView, fname: Seq<char>, x: Seq<char>, y: Seq<char>, i: i64, m: nat)
    requires
        m >= 2,
        env.parents.len() >= 1,
        lookup(env, 0, fname) == Some(eval_expr(env, 0, adder(x, y), 1).1),
    ensures
        eval_expr(env, 0, ExprV::Call(Box::new(ExprV::Ident(fname)), seq![int_lit(i)]), m + 1) == (
            after_outer_call(env, x, i),
            inner_adder(x, y, env.parents.len()),
        ),
{
    let body2 = seq![StmtV::Expr(binary(Infix::Plus, ExprV::Ident(x), ExprV::Ident(y)))];
    let inner = ExprV::Func(seq![y], body2);
    let body1 = seq![StmtV::Expr(inner)];
    let fv = Value::Func(seq![x], body1, 0);
    assert(eval_expr(env, 0, adder(x, y), 1).1 == fv);
    assert(eval_expr(env, 0, ExprV::Ident(fname), m) == (env, fv));
    assert(eval_expr(env, 0, int_lit(i), m) == (env, Value::Int(i)));
    assert(eval_list(env, 0, seq![int_lit(i)], 1, seq![Value::Int(i)], m) == (
        env,
        Ok::<Seq<Value>, Value>(seq![Value::Int(i)]),
    ));
    assert(Seq::<Value>::empty().push(Value::Int(i)) =~= seq![Value::Int(i)]);
    assert(eval_list(env, 0, seq![int_lit(i)], 0, Seq::empty(), m) == (
        env,
        Ok::<Seq<Value>, Value>(seq![Value::Int(i)]),
    ));
    let id1 = env.parents.len();
    let env2 = after_outer_call(env, x, i);
    let gv = inner_adder(x, y, id1);
    assert(eval_expr(env2, id1, inner, m) == (env2, gv));
    assert(eval_stmt(env2, id1, body1[0], m) == (env2, gv));
    assert(eval_block(env2, id1, body1, 1, gv, m) == (env2, gv));
    assert(eval_block(env2, id1, body1, 0, Value::Null, m) == (env2, gv));
    assert(eval_call(env, 0, fv, seq![int_lit(i)], m) == (env2, gv));
}

proof fn lemma_inner_lookups(env: EnvView, x: Seq<char>, y: Seq<char>, i: i64, j: i64)
    requires
        x != y,
        bindings_in_frames(env),
    ensures
        lookup(after_inner_call(env, x, y, i, j), env.parents.len() + 1, x) == Some(Value::Int(i)),
        lookup(after_inner_call(env, x, y, i, j), env.parents.len() + 1, y) == Some(Value::Int(j)),
{
    let id1 = env.parents.len();
    let id2 = id1 + 1;
    let env3 = after_inner_call(env, x, y, i, j);
    let b3 = env3.bindings;
    assert(b3.last() == (id2, y, Value::Int(j)));
    assert(b3.drop_last() =~= env.bindings.push((id1, x, Value::Int(i))));
    assert(b3.drop_last().last() == (id1, x, Value::Int(i)));
    assert(b3.drop_last().drop_last() =~= env.bindings);
    lemma_no_binding_in_new_frame(env.bindings, id2, x);
    assert(find_in(b3, id2, y) == Some(Value::Int(j)));
    assert(find_in(b3.drop_last(), id2, x) == find_in(env.bindings, id2, x));
    assert(find_in(b3, id2, x) is None);
    assert(find_in(b3.drop_last(), id1, x) == Some(Value::Int(i)));
    assert(find_in(b3, id1, x) == Some(Value::Int(i)));
    assert(env3.parents[id2 as int] == Some(id1));
    assert(lookup(env3, id1, x) == Some(Value::Int(i)));
}

proof fn lemma_inner_call(env: EnvView, x: Seq<char>, y: Seq<char>, i: i64, j: i64, n: nat)
    requires
        x != y,
        n >= 2,
        env.parents.len() >= 1,
        bindings_in_frames(env),
    ensures
        eval_call(
            after_outer_call(env, x, i),
            0,
            inner_adder(x, y, env.parents.len()),
            seq![int_lit(j)],
            n,
        ).1 == Value::Int(i.wrapping_add(j)),
{
    let env2 = after_outer_call(env, x, i);
    let id1 = env.parents.len();
    let id2 = id1 + 1;
    let body2 = seq![StmtV::Expr(binary(Infix::Plus, ExprV::Ident(x), ExprV::Ident(y)))];
    assert(eval_expr(env2, 0, int_lit(j), n) == (env2, Value::Int(j)));
    assert(eval_list(env2, 0, seq![int_lit(j)], 1, seq![Value::Int(j)], n) == (
        env2,
        Ok::<Seq<Value>, Value>(seq![Value::Int(j)]),
    ));
    assert(Seq::<Value>::empty().push(Value::Int(j)) =~= seq![Value::Int(j)]);
    assert(eval_list(env2, 0, seq![int_lit(j)], 0, Seq::empty(), n) == (
        env2,
        Ok::<Seq<Value>, Value>(seq![Value::Int(j)]),
    ));
    let env3 = after_inner_call(env, x, y, i, j);
    lemma_inner_lookups(env, x, y, i, j);
    let sum = binary(Infix::Plus, ExprV::Ident(x), ExprV::Ident(y));
    let k = (n - 1) as nat;
    let r = Value::Int(i.wrapping_add(j));
    assert(eval_expr(env3, id2, ExprV::Ident(x), k) == (env3, Value::Int(i)));
    assert(eval_expr(env3, id2, ExprV::Ident(y), k) == (env3, Value::Int(j)));
    assert(eval_expr(env3, id2, sum, n) == (env3, r));
    assert(eval_stmt(env3, id2, body2[0], n) == (env3, r));
    assert(eval_block(env3, id2, body2, 1, r, n) == (env3, r));
    assert(eval_block(env3, id2, body2, 0, Value::Null, n) == (env3, r));
}

/// Closures: when `f` names the adder made in the root frame, `f(i)(j)` is
/// `i + j`, whatever else the environment binds (other values for `x` and `y`
/// in the root frame included).
pub proof fn law_closure_adds(env: EnvView, fname: Seq<char>, x: Seq<char>, y: Seq<char>, i: i64, j: i64, fuel: nat)
    requires
        x != y,
        fuel >= 5,
        env.parents.len() >= 1,
        bindings_in_frames(env),
        lookup(env, 0, fname) == Some(eval_expr(env, 0, adder(x, y), 1).1),
    ensures
        eval_expr(
            env,
            0,
            ExprV::Call(
                Box::new(ExprV::Call(Box::new(ExprV::Ident(fname)), seq![int_lit(i)])),
                seq![int_lit(j)],
            ),
            fuel,
        ).1 == Value::Int(i.wrapping_add(j)),
{
    let n = (fuel - 1) as nat;
    lemma_outer_call(env, fname, x, y, i, (n - 1) as nat);
    lemma_inner_call(env, x, y, i, j, n);
}

} // verus!

verus! {

/// Every token sequence the lexer produces ends with the end marker.
pub proof fn law_tokens_end_with_eof(b: Seq<u8>)
    ensures
        crate::lexer::lex_spec(b) matches Ok(ts) ==> ts.len() > 0 && ts.last()
            == crate::token::TokenView::Plain(crate::token::Token::EOF),
{
}

} // verus!

verus! {

/// A valid state: every binding in an existing frame, and frame `f` exists.
pub open spec fn valid_at(env: EnvView, f: nat) -> bool {
    bindings_in_frames(env) && f < env.parents.len()
}

/// Evaluation only adds frames and keeps every binding inside one.
pub open spec fn grows(env: EnvView, env2: EnvView) -> bool {
    bindings_in_frames(env2) && env.parents.len() <= env2.parents.len()
}

proof fn lemma_expr_keeps_valid(env: EnvView, f: nat, e: ExprV, fuel: nat)
    requires
        valid_at(env, f),
    ensures
        grows(env, eval_expr(env, f, e, fuel).0),
    decreases fuel, 0nat, 0nat,
{
    if fuel > 0 {
        let n = (fuel - 1) as nat;
        match e {
            ExprV::Prefix(_, r) => {
                lemma_expr_keeps_valid(env, f, *r, n);
            },
            ExprV::Infix(_, l, r) => {
                lemma_expr_keeps_valid(env, f, *l, n);
                let env1 = eval_expr(env, f, *l, n).0;
                lemma_expr_keeps_valid(env1, f, *r, n);
            },
            ExprV::If(c, cons, alt) => {
                lemma_expr_keeps_valid(env, f, *c, n);
                let env1 = eval_expr(env, f, *c, n).0;
                lemma_block_keeps_valid(env1, f, cons, 0, Value::Null, n);
                if let Some(a) = alt {
                    lemma_block_keeps_valid(env1, f, a, 0, Value::Null, n);
                }
            },
            ExprV::Array(items) => {
                lemma_list_keeps_valid(env, f, items, 0, Seq::empty(), n);
            },
            ExprV::Hash(pairs) => {
                lemma_hash_keeps_valid(env, f, pairs, 0, Seq::empty(), n);
            },
            ExprV::Call(fe, args) => {
                lemma_expr_keeps_valid(env, f, *fe, n);
                let (env1, fv) = eval_expr(env, f, *fe, n);
                lemma_call_keeps_valid(env1, f, fv, args, n);
            },
            ExprV::Index(t, i) => {
                lemma_expr_keeps_valid(env, f, *t, n);
                let env1 = eval_expr(env, f, *t, n).0;
                lemma_expr_keeps_valid(env1, f, *i, n);
            },
            _ => {},
        }
    }
}

proof fn lemma_stmt_keeps_valid(env: EnvView, f: nat, s: StmtV, fuel: nat)
    requires
        valid_at(env, f),
    ensures
        grows(env, eval_stmt(env, f, s, fuel).0),
    decreases fuel, 1nat, 0nat,
{
    match s {
        StmtV::Let(name, e) => {
            lemma_expr_keeps_valid(env, f, e, fuel);
            let env1 = eval_expr(env, f, e, fuel).0;
            let env2 = crate::evaluator::bind(env1, f, name, eval_expr(env, f, e, fuel).1);
            assert forall|k: int| 0 <= k < env2.bindings.len() implies (#[trigger] env2.bindings[k]).0
                < env2.parents.len() by {
                if k < env1.bindings.len() {
                    assert(env2.bindings[k] == env1.bindings[k]);
                }
            }
        },
        StmtV::Return(e) => {
            lemma_expr_keeps_valid(env, f, e, fuel);
        },
        StmtV::Expr(e) => {
            lemma_expr_keeps_valid(env, f, e, fuel);
        },
    }
}

proof fn lemma_block_keeps_valid(env: EnvView, f: nat, ss: Seq<StmtV>, i: nat, last: Value, fuel: nat)
    requires
        valid_at(env, f),
    ensures
        grows(env, eval_block(env, f, ss, i, last, fuel).0),
    decreases fuel, 2nat, ss.len() - i,
{
    if i < ss.len() {
        lemma_stmt_keeps_valid(env, f, ss[i as int], fuel);
        let (env1, v) = eval_stmt(env, f, ss[i as int], fuel);
        if !is_abrupt(v) {
            lemma_block_keeps_valid(env1, f, ss, i + 1, v, fuel);
        }
    }
}

proof fn lemma_list_keeps_valid(env: EnvView, f: nat, es: Seq<ExprV>, i: nat, acc: Seq<Value>, fuel: nat)
    requires
        valid_at(env, f),
    ensures
        grows(env, eval_list(env, f, es, i, acc, fuel).0),
    decreases fuel, 2nat, es.len() - i,
{
    if i < es.len() {
        lemma_expr_keeps_valid(env, f, es[i as int], fuel);
        let (env1, v) = eval_expr(env, f, es[i as int], fuel);
        if !is_abrupt(v) {
            lemma_list_keeps_valid(env1, f, es, i + 1, acc.push(v), fuel);
        }
    }
}

proof fn lemma_hash_keeps_valid(
    env: EnvView,
    f: nat,
    ps: Seq<(LitV, ExprV)>,
    i: nat,
    acc: Seq<(Value, Value)>,
    fuel: nat,
)
    requires
        valid_at(env, f),
    ensures
        grows(env, crate::evaluator::eval_hash(env, f, ps, i, acc, fuel).0),
    decreases fuel, 2nat, ps.len() - i,
{
    if i < ps.len() {
        lemma_expr_keeps_valid(env, f, ps[i as int].1, fuel);
        let (env1, v) = eval_expr(env, f, ps[i as int].1, fuel);
        if !is_abrupt(v) {
            lemma_hash_keeps_valid(
                env1,
                f,
                ps,
                i + 1,
                crate::evaluator::hash_insert(acc, crate::evaluator::lit_value(ps[i as int].0), v),
                fuel,
            );
        }
    }
}

proof fn lemma_call_keeps_valid(env: EnvView, f: nat, fv: Value, args: Seq<ExprV>, fuel: nat)
    requires
        valid_at(env, f),
    ensures
        grows(env, eval_call(env, f, fv, args, fuel).0),
    decreases fuel, 3nat, 0nat,
{
    match fv {
        Value::Func(params, body, cf) => {
            if params.len() == args.len() {
                lemma_list_keeps_valid(env, f, args, 0, Seq::empty(), fuel);
                let (env1, r) = eval_list(env, f, args, 0, Seq::empty(), fuel);
                if let Ok(vals) = r {
                    if cf < env1.parents.len() {
                        let id = env1.parents.len();
                        let env2 = EnvView {
                            bindings: env1.bindings + bind_params(id, params, vals),
                            parents: env1.parents.push(Some(cf)),
                        };
                        assert forall|k: int| 0 <= k < env2.bindings.len() implies (
                        #[trigger] env2.bindings[k]).0 < env2.parents.len() by {
                            if k < env1.bindings.len() {
                                assert(env2.bindings[k] == env1.bindings[k]);
                            }
                        }
                        lemma_block_keeps_valid(env2, id, body, 0, Value::Null, fuel);
                    }
                }
            }
        },
        Value::Builtin(b) => {
            if crate::object::builtin_arity(b) == args.len() {
                lemma_list_keeps_valid(env, f, args, 0, Seq::empty(), fuel);
            }
        },
        _ => {},
    }
}

/// Every state the evaluator reaches from its start, program after program,
/// keeps each binding inside one of its frames.
pub proof fn law_programs_keep_bindings_in_frames(env: EnvView, prog: Seq<StmtV>)
    requires
        bindings_in_frames(env),
        env.parents.len() >= 1,
    ensures
        bindings_in_frames(crate::evaluator::eval_program(env, prog).0),
        crate::evaluator::eval_program(env, prog).0.parents.len() >= 1,
{
    lemma_block_keeps_valid(env, 0, prog, 0, Value::Null, crate::evaluator::MAX_DEPTH as nat);
}

/// The start state keeps each binding inside one of its frames.
pub proof fn law_root_bindings_in_frames()
    ensures
        bindings_in_frames(crate::environment::root_env()),
{
}

} // verus!
