//! Runtime values, their mathematical view, copying and display.
use vstd::prelude::*;
use crate::ast::{Identifier, Stmt, StmtV, view_idents, view_stmts};

verus! {

/// A built-in function.
#[derive(Debug, Clone, Copy, PartialEq, Eq, Structural)]
pub enum BuiltinFunction {
    Len,
    Head,
    Tail,
    Cons,
}

/// A runtime value. `Return` and `Error` are in-band markers for an early
/// return and a runtime error.
#[derive(Debug, PartialEq, Eq)]
pub enum Object {
    Integer(i64),
    Boolean(bool),
    String(String),
    NULL,
    Array(Vec<Object>),
    /// Parameters, body, and the frame the function was made in.
    Function(Vec<Identifier>, Vec<Stmt>, usize),
    Builtin(BuiltinFunction),
    /// Key and value pairs in insertion order, keys distinct.
    Hash(Vec<(Object, Object)>),
    Return(Box<Object>),
    Error(String),
}

/// The view of a value.
pub enum Value {
    Int(i64),
    Bool(bool),
    Str(Seq<char>),
    Null,
    Array(Seq<Value>),
    Func(Seq<Seq<char>>, Seq<StmtV>, nat),
    Builtin(BuiltinFunction),
    Hash(Seq<(Value, Value)>),
    Ret(Box<Value>),
    Error(Seq<char>),
}

pub open spec fn view_obj(o: Object) -> Value
    decreases o,
{
    match o {
        Object::Integer(i) => Value::Int(i),
        Object::Boolean(b) => Value::Bool(b),
        Object::String(s) => Value::Str(s@),
        Object::NULL => Value::Null,
        Object::Array(v) => Value::Array(view_objs(v@)),
        Object::Function(p, b, e) => Value::Func(view_idents(p@), view_stmts(b@), e as nat),
        Object::Builtin(b) => Value::Builtin(b),
        Object::Hash(v) => Value::Hash(view_obj_pairs(v@)),
        Object::Return(b) => Value::Ret(Box::new(view_obj(*b))),
        Object::Error(s) => Value::Error(s@),
    }
}

pub open spec fn view_objs(s: Seq<Object>) -> Seq<Value>
    decreases s,
{
    if s.len() == 0 {
        Seq::empty()
    } else {
        view_objs(s.subrange(0, s.len() - 1)).push(view_obj(s[s.len() - 1]))
    }
}

pub open spec fn view_obj_pairs(s: Seq<(Object, Object)>) -> Seq<(Value, Value)>
    decreases s,
{
    if s.len() == 0 {
        Seq::empty()
    } else {
        view_obj_pairs(s.subrange(0, s.len() - 1)).push(
            (view_obj(s[s.len() - 1].0), view_obj(s[s.len() - 1].1)),
        )
    }
}

impl View for Object {
    type V = Value;

    open spec fn view(&self) -> Value {
        view_obj(*self)
    }
}

pub proof fn lemma_view_objs_push(s: Seq<Object>, x: Object)
    ensures
        view_objs(s.push(x)) == view_objs(s).push(x@),
{
    assert(s.push(x).subrange(0, s.len() as int) =~= s);
}

pub proof fn lemma_view_obj_pairs_push(s: Seq<(Object, Object)>, x: (Object, Object))
    ensures
        view_obj_pairs(s.push(x)) == view_obj_pairs(s).push((x.0@, x.1@)),
{
    assert(s.push(x).subrange(0, s.len() as int) =~= s);
}

pub proof fn lemma_view_objs_index(s: Seq<Object>)
    ensures
        view_objs(s).len() == s.len(),
        forall|i: int| 0 <= i < s.len() ==> #[trigger] view_objs(s)[i] == s[i]@,
    decreases s.len(),
{
    if s.len() > 0 {
        lemma_view_objs_index(s.subrange(0, s.len() - 1));
    }
}

pub proof fn lemma_view_obj_pairs_index(s: Seq<(Object, Object)>)
    ensures
        view_obj_pairs(s).len() == s.len(),
        forall|i: int|
            0 <= i < s.len() ==> #[trigger] view_obj_pairs(s)[i] == (s[i].0@, s[i].1@),
    decreases s.len(),
{
    if s.len() > 0 {
        lemma_view_obj_pairs_index(s.subrange(0, s.len() - 1));
    }
}

/// Whether a value may be a hash key.
pub open spec fn is_hashable(v: Value) -> bool {
    v is Int || v is Bool || v is Str
}

/// Whether a value is an in-band marker that ends the evaluation around it.
pub open spec fn is_abrupt(v: Value) -> bool {
    v is Ret || v is Error
}

/// The name of a built-in function.
pub open spec fn builtin_name(b: BuiltinFunction) -> Seq<char> {
    match b {
        BuiltinFunction::Len => "len"@,
        BuiltinFunction::Head => "head"@,
        BuiltinFunction::Tail => "tail"@,
        BuiltinFunction::Cons => "cons"@,
    }
}

/// The number of arguments a built-in function takes.
pub open spec fn builtin_arity(b: BuiltinFunction) -> nat {
    match b {
        BuiltinFunction::Cons => 2,
        _ => 1,
    }
}

impl BuiltinFunction {
    pub fn name(&self) -> (r: &'static str)
        ensures
            r@ == builtin_name(*self),
    {
        match self {
            BuiltinFunction::Len => "len",
            BuiltinFunction::Head => "head",
            BuiltinFunction::Tail => "tail",
            BuiltinFunction::Cons => "cons",
        }
    }

    pub fn arity(&self) -> (r: usize)
        ensures
            r == builtin_arity(*self),
    {
        match self {
            BuiltinFunction::Cons => 2,
            _ => 1,
        }
    }
}

/// The decimal digit `d` as text.
pub open spec fn digit_text(d: nat) -> Seq<char> {
    if d == 0 {
        "0"@
    } else if d == 1 {
        "1"@
    } else if d == 2 {
        "2"@
    } else if d == 3 {
        "3"@
    } else if d == 4 {
        "4"@
    } else if d == 5 {
        "5"@
    } else if d == 6 {
        "6"@
    } else if d == 7 {
        "7"@
    } else if d == 8 {
        "8"@
    } else {
        "9"@
    }
}

/// The decimal digits of `n`.
pub open spec fn nat_text(n: nat) -> Seq<char>
    decreases n,
{
    if n < 10 {
        digit_text(n)
    } else {
        nat_text(n / 10) + digit_text(n % 10)
    }
}

/// An integer in decimal, with a leading `-` when negative.
pub open spec fn int_text(i: int) -> Seq<char> {
    if i < 0 {
        "-"@ + nat_text((-i) as nat)
    } else {
        nat_text(i as nat)
    }
}

/// How a value is displayed.
pub open spec fn display(v: Value) -> Seq<char>
    decreases v,
{
    match v {
        Value::Int(i) => int_text(i as int),
        Value::Bool(b) => if b {
            "true"@
        } else {
            "false"@
        },
        Value::Str(s) => s,
        Value::Null => "null"@,
        Value::Array(xs) => "["@ + display_list(xs) + "]"@,
        Value::Func(_, _, _) => "[function]"@,
        Value::Builtin(b) => "[built-in function: "@ + builtin_name(b) + "]"@,
        Value::Hash(ps) => "{"@ + display_pairs(ps) + "}"@,
        Value::Ret(inner) => display(*inner),
        Value::Error(m) => "Error: "@ + m,
    }
}

/// The displays of `xs`, separated by `, `.
pub open spec fn display_list(xs: Seq<Value>) -> Seq<char>
    decreases xs,
{
    if xs.len() == 0 {
        Seq::empty()
    } else if xs.len() == 1 {
        display(xs[0])
    } else {
        display_list(xs.subrange(0, xs.len() - 1)) + ", "@ + display(xs[xs.len() - 1])
    }
}

/// The pairs `k : v`, separated by `, `.
pub open spec fn display_pairs(ps: Seq<(Value, Value)>) -> Seq<char>
    decreases ps,
{
    if ps.len() == 0 {
        Seq::empty()
    } else if ps.len() == 1 {
        display(ps[0].0) + " : "@ + display(ps[0].1)
    } else {
        display_pairs(ps.subrange(0, ps.len() - 1)) + ", "@ + display(ps[ps.len() - 1].0)
            + " : "@ + display(ps[ps.len() - 1].1)
    }
}

} // verus!

verus! {

impl Object {
    /// A copy with the same view.
    pub fn copy(&self) -> (r: Object)
        ensures
            r@ == self@,
        decreases self,
    {
        match self {
            Object::Integer(i) => Object::Integer(*i),
            Object::Boolean(b) => Object::Boolean(*b),
            Object::String(s) => Object::String(s.clone()),
            Object::NULL => Object::NULL,
            Object::Array(v) => Object::Array(copy_objs(v)),
            Object::Function(p, b, e) => Object::Function(
                crate::ast::copy_idents(p),
                crate::ast::copy_stmts(b),
                *e,
            ),
            Object::Builtin(b) => Object::Builtin(*b),
            Object::Hash(v) => Object::Hash(copy_obj_pairs(v)),
            Object::Return(b) => Object::Return(Box::new((**b).copy())),
            Object::Error(s) => Object::Error(s.clone()),
        }
    }

    /// How this value is displayed.
    pub fn display_text(&self) -> (r: String)
        ensures
            r@ == display(self@),
        decreases self,
    {
        match self {
            Object::Integer(i) => int_string(*i),
            Object::Boolean(b) => if *b {
                "true".to_owned()
            } else {
                "false".to_owned()
            },
            Object::String(s) => s.clone(),
            Object::NULL => "null".to_owned(),
            Object::Array(v) => display_objs(v),
            Object::Function(_, _, _) => "[function]".to_owned(),
            Object::Builtin(b) => {
                let mut out = "[built-in function: ".to_owned();
                out.append(b.name());
                out.append("]");
                out
            },
            Object::Hash(v) => display_obj_pairs(v),
            Object::Return(b) => (**b).display_text(),
            Object::Error(s) => {
                let mut out = "Error: ".to_owned();
                out.append(s.as_str());
                out
            },
        }
    }
}

fn copy_objs(v: &Vec<Object>) -> (r: Vec<Object>)
    ensures
        view_objs(r@) == view_objs(v@),
    decreases v,
{
    let mut out: Vec<Object> = Vec::new();
    let mut i: usize = 0;
    while i < v.len()
        invariant
            i <= v@.len(),
            view_objs(out@) == view_objs(v@.subrange(0, i as int)),
        decreases v.len() - i,
    {
        let x = v[i].copy();
        proof {
            lemma_view_objs_push(out@, x);
            lemma_view_objs_push(v@.subrange(0, i as int), v@[i as int]);
            assert(v@.subrange(0, i as int).push(v@[i as int]) =~= v@.subrange(
                0,
                i + 1,
            ));
        }
        out.push(x);
        i = i + 1;
    }
    assert(v@.subrange(0, v@.len() as int) =~= v@);
    out
}

fn copy_obj_pairs(v: &Vec<(Object, Object)>) -> (r: Vec<(Object, Object)>)
    ensures
        view_obj_pairs(r@) == view_obj_pairs(v@),
    decreases v,
{
    let mut out: Vec<(Object, Object)> = Vec::new();
    let mut i: usize = 0;
    while i < v.len()
        invariant
            i <= v@.len(),
            view_obj_pairs(out@) == view_obj_pairs(v@.subrange(0, i as int)),
        decreases v.len() - i,
    {
        let x = (v[i].0.copy(), v[i].1.copy());
        proof {
            lemma_view_obj_pairs_push(out@, x);
            lemma_view_obj_pairs_push(v@.subrange(0, i as int), v@[i as int]);
            assert(v@.subrange(0, i as int).push(v@[i as int]) =~= v@.subrange(
                0,
                i + 1,
            ));
        }
        out.push(x);
        i = i + 1;
    }
    assert(v@.subrange(0, v@.len() as int) =~= v@);
    out
}

fn display_objs(v: &Vec<Object>) -> (r: String)
    ensures
        r@ == display(Value::Array(view_objs(v@))),
    decreases v,
{
    let mut out = "[".to_owned();
    let mut i: usize = 0;
    while i < v.len()
        invariant
            i <= v@.len(),
            out@ == "["@ + display_list(view_objs(v@.subrange(0, i as int))),
        decreases v.len() - i,
    {
        let ghost prev = view_objs(v@.subrange(0, i as int));
        proof {
            lemma_view_objs_push(v@.subrange(0, i as int), v@[i as int]);
            assert(v@.subrange(0, i as int).push(v@[i as int]) =~= v@.subrange(
                0,
                i + 1,
            ));
            lemma_view_objs_index(v@.subrange(0, i as int));
            let next = prev.push(v@[i as int]@);
            assert(next.subrange(0, next.len() - 1) =~= prev);
            if i == 0 {
                assert(prev.len() == 0);
            }
        }
        if i > 0 {
            out.append(", ");
        }
        let t = v[i].display_text();
        out.append(t.as_str());
        i = i + 1;
    }
    assert(v@.subrange(0, v@.len() as int) =~= v@);
    out.append("]");
    out
}

fn display_obj_pairs(v: &Vec<(Object, Object)>) -> (r: String)
    ensures
        r@ == display(Value::Hash(view_obj_pairs(v@))),
    decreases v,
{
    let mut out = "{".to_owned();
    let mut i: usize = 0;
    while i < v.len()
        invariant
            i <= v@.len(),
            out@ == "{"@ + display_pairs(view_obj_pairs(v@.subrange(0, i as int))),
        decreases v.len() - i,
    {
        let ghost prev = view_obj_pairs(v@.subrange(0, i as int));
        proof {
            lemma_view_obj_pairs_push(v@.subrange(0, i as int), v@[i as int]);
            assert(v@.subrange(0, i as int).push(v@[i as int]) =~= v@.subrange(
                0,
                i + 1,
            ));
            lemma_view_obj_pairs_index(v@.subrange(0, i as int));
            let next = prev.push((v@[i as int].0@, v@[i as int].1@));
            assert(next.subrange(0, next.len() - 1) =~= prev);
        }
        if i > 0 {
            out.append(", ");
        }
        let k = v[i].0.display_text();
        out.append(k.as_str());
        out.append(" : ");
        let t = v[i].1.display_text();
        out.append(t.as_str());
        i = i + 1;
    }
    assert(v@.subrange(0, v@.len() as int) =~= v@);
    out.append("}");
    out
}

fn digit_str(d: u64) -> (r: &'static str)
    requires
        d < 10,
    ensures
        r@ == digit_text(d as nat),
{
    if d == 0 {
        "0"
    } else if d == 1 {
        "1"
    } else if d == 2 {
        "2"
    } else if d == 3 {
        "3"
    } else if d == 4 {
        "4"
    } else if d == 5 {
        "5"
    } else if d == 6 {
        "6"
    } else if d == 7 {
        "7"
    } else if d == 8 {
        "8"
    } else {
        "9"
    }
}

/// The decimal digits of `n`.
pub fn nat_string(n: u64) -> (r: String)
    ensures
        r@ == nat_text(n as nat),
    decreases n,
{
    if n < 10 {
        digit_str(n).to_owned()
    } else {
        let mut s = nat_string(n / 10);
        s.append(digit_str(n % 10));
        s
    }
}

/// An integer in decimal.
pub fn int_string(i: i64) -> (r: String)
    ensures
        r@ == int_text(i as int),
{
    if i < 0 {
        let m: u64 = if i == i64::MIN {
            9223372036854775808u64
        } else {
            (-i) as u64
        };
        let mut s = "-".to_owned();
        let t = nat_string(m);
        s.append(t.as_str());
        s
    } else {
        nat_string(i as u64)
    }
}

} // verus!
