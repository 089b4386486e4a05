//! The syntax tree and its mathematical view.
use vstd::prelude::*;
use crate::token::{Token, TokenView};

verus! {

/// A program: its statements in order.
pub type Program = Vec<Stmt>;

/// The statements of a `{ ... }` block.
pub type BlockStatement = Vec<Stmt>;

/// A statement.
#[derive(Debug, PartialEq, Eq)]
pub enum Stmt {
    LetStmt(Identifier, Expr),
    ReturnStmt(Expr),
    ExprStmt(Expr),
}

/// An expression.
#[derive(Debug, PartialEq, Eq)]
pub enum Expr {
    IdentExpr(Identifier),
    LiteralExpr(Literal),
    PrefixExpr(Prefix, Box<Expr>),
    IfExpr { cond: Box<Expr>, consequence: BlockStatement, alternative: Option<BlockStatement> },
    FnExpr { parameters: Vec<Identifier>, body: BlockStatement },
    ArrayExpr(Vec<Expr>),
    HashExpr(Vec<(Literal, Expr)>),
    InfixExpr(Infix, Box<Expr>, Box<Expr>),
    CallExpr { function: Box<Expr>, arguments: Vec<Expr> },
    IndexExpr { left: Box<Expr>, index: Box<Expr> },
}

/// A unary operator.
#[derive(Debug, Clone, Copy, PartialEq, Eq, Structural)]
pub enum Prefix {
    Plus,
    Minus,
    Not,
}

/// A binary operator.
#[derive(Debug, Clone, Copy, PartialEq, Eq, Structural)]
pub enum Infix {
    Plus,
    Minus,
    Divide,
    Multiply,
    Equal,
    NotEqual,
    GreaterThanEqual,
    LessThanEqual,
    GreaterThan,
    LessThan,
}

/// A literal.
#[derive(Debug, Clone, PartialEq, Eq)]
pub enum Literal {
    IntLiteral(i64),
    BoolLiteral(bool),
    StringLiteral(String),
}

/// A name.
#[derive(Debug, Clone, PartialEq, Eq)]
pub struct Identifier(pub String);

/// Binding strength, weakest first.
#[derive(Debug, Clone, Copy, PartialEq, Eq, Structural)]
pub enum Precedence {
    PLowest,
    /// `==` `!=`
    PEquals,
    /// `<` `<=` `>` `>=`
    PCompare,
    /// `+` `-`
    PSum,
    /// `*` `/`
    PProduct,
    /// unary `+` `-` `!`
    PPrefix,
    /// `f(x)`
    PCall,
    /// `a[i]`
    PIndex,
}

/// The rank of a precedence level: a higher rank binds tighter.
pub open spec fn rank(p: Precedence) -> nat {
    match p {
        Precedence::PLowest => 0,
        Precedence::PEquals => 1,
        Precedence::PCompare => 2,
        Precedence::PSum => 3,
        Precedence::PProduct => 4,
        Precedence::PPrefix => 5,
        Precedence::PCall => 6,
        Precedence::PIndex => 7,
    }
}

impl Precedence {
    /// The rank of this level.
    pub fn level(&self) -> (r: u8)
        ensures
            r == rank(*self),
    {
        match self {
            Precedence::PLowest => 0,
            Precedence::PEquals => 1,
            Precedence::PCompare => 2,
            Precedence::PSum => 3,
            Precedence::PProduct => 4,
            Precedence::PPrefix => 5,
            Precedence::PCall => 6,
            Precedence::PIndex => 7,
        }
    }
}

/// The precedence a token has in infix position, and the operator it stands for.
pub open spec fn precedence_spec(t: TokenView) -> (Precedence, Option<Infix>) {
    match t {
        TokenView::Plain(Token::Equal) => (Precedence::PEquals, Some(Infix::Equal)),
        TokenView::Plain(Token::NotEqual) => (Precedence::PEquals, Some(Infix::NotEqual)),
        TokenView::Plain(Token::LessThanEqual) => (Precedence::PCompare, Some(Infix::LessThanEqual)),
        TokenView::Plain(Token::GreaterThanEqual) => (
            Precedence::PCompare,
            Some(Infix::GreaterThanEqual),
        ),
        TokenView::Plain(Token::LessThan) => (Precedence::PCompare, Some(Infix::LessThan)),
        TokenView::Plain(Token::GreaterThan) => (Precedence::PCompare, Some(Infix::GreaterThan)),
        TokenView::Plain(Token::Plus) => (Precedence::PSum, Some(Infix::Plus)),
        TokenView::Plain(Token::Minus) => (Precedence::PSum, Some(Infix::Minus)),
        TokenView::Plain(Token::Multiply) => (Precedence::PProduct, Some(Infix::Multiply)),
        TokenView::Plain(Token::Divide) => (Precedence::PProduct, Some(Infix::Divide)),
        TokenView::Plain(Token::LParen) => (Precedence::PCall, None),
        TokenView::Plain(Token::LBracket) => (Precedence::PIndex, None),
        _ => (Precedence::PLowest, None),
    }
}

/// The precedence of `t` in infix position, with the binary operator it
/// stands for, if any.
pub fn precedences(t: &Token) -> (r: (Precedence, Option<Infix>))
    ensures
        r == precedence_spec(t@),
{
    match t {
        Token::Equal => (Precedence::PEquals, Some(Infix::Equal)),
        Token::NotEqual => (Precedence::PEquals, Some(Infix::NotEqual)),
        Token::LessThanEqual => (Precedence::PCompare, Some(Infix::LessThanEqual)),
        Token::GreaterThanEqual => (Precedence::PCompare, Some(Infix::GreaterThanEqual)),
        Token::LessThan => (Precedence::PCompare, Some(Infix::LessThan)),
        Token::GreaterThan => (Precedence::PCompare, Some(Infix::GreaterThan)),
        Token::Plus => (Precedence::PSum, Some(Infix::Plus)),
        Token::Minus => (Precedence::PSum, Some(Infix::Minus)),
        Token::Multiply => (Precedence::PProduct, Some(Infix::Multiply)),
        Token::Divide => (Precedence::PProduct, Some(Infix::Divide)),
        Token::LParen => (Precedence::PCall, None),
        Token::LBracket => (Precedence::PIndex, None),
        _ => (Precedence::PLowest, None),
    }
}

/// The view of a literal.
pub enum LitV {
    Int(i64),
    Bool(bool),
    Str(Seq<char>),
}

/// The view of an expression: names and texts as characters.
pub enum ExprV {
    Ident(Seq<char>),
    Lit(LitV),
    Prefix(Prefix, Box<ExprV>),
    If(Box<ExprV>, Seq<StmtV>, Option<Seq<StmtV>>),
    Func(Seq<Seq<char>>, Seq<StmtV>),
    Array(Seq<ExprV>),
    Hash(Seq<(LitV, ExprV)>),
    Infix(Infix, Box<ExprV>, Box<ExprV>),
    Call(Box<ExprV>, Seq<ExprV>),
    Index(Box<ExprV>, Box<ExprV>),
}

/// The view of a statement.
pub enum StmtV {
    Let(Seq<char>, ExprV),
    Return(ExprV),
    Expr(ExprV),
}

impl View for Literal {
    type V = LitV;

    open spec fn view(&self) -> LitV {
        match self {
            Literal::IntLiteral(i) => LitV::Int(*i),
            Literal::BoolLiteral(b) => LitV::Bool(*b),
            Literal::StringLiteral(s) => LitV::Str(s@),
        }
    }
}

impl View for Identifier {
    type V = Seq<char>;

    open spec fn view(&self) -> Seq<char> {
        self.0@
    }
}

pub open spec fn view_idents(s: Seq<Identifier>) -> Seq<Seq<char>> {
    s.map_values(|i: Identifier| i@)
}

pub open spec fn view_expr(e: Expr) -> ExprV
    decreases e,
{
    match e {
        Expr::IdentExpr(i) => ExprV::Ident(i@),
        Expr::LiteralExpr(l) => ExprV::Lit(l@),
        Expr::PrefixExpr(p, b) => ExprV::Prefix(p, Box::new(view_expr(*b))),
        Expr::IfExpr { cond, consequence, alternative } => ExprV::If(
            Box::new(view_expr(*cond)),
            view_stmts(consequence@),
            match alternative {
                Some(a) => Some(view_stmts(a@)),
                None => None,
            },
        ),
        Expr::FnExpr { parameters, body } => ExprV::Func(
            view_idents(parameters@),
            view_stmts(body@),
        ),
        Expr::ArrayExpr(v) => ExprV::Array(view_exprs(v@)),
        Expr::HashExpr(v) => ExprV::Hash(view_pairs(v@)),
        Expr::InfixExpr(op, l, r) => ExprV::Infix(
            op,
            Box::new(view_expr(*l)),
            Box::new(view_expr(*r)),
        ),
        Expr::CallExpr { function, arguments } => ExprV::Call(
            Box::new(view_expr(*function)),
            view_exprs(arguments@),
        ),
        Expr::IndexExpr { left, index } => ExprV::Index(
            Box::new(view_expr(*left)),
            Box::new(view_expr(*index)),
        ),
    }
}

pub open spec fn view_exprs(s: Seq<Expr>) -> Seq<ExprV>
    decreases s,
{
    if s.len() == 0 {
        Seq::empty()
    } else {
        view_exprs(s.subrange(0, s.len() - 1)).push(view_expr(s[s.len() - 1]))
    }
}

pub open spec fn view_pairs(s: Seq<(Literal, Expr)>) -> Seq<(LitV, ExprV)>
    decreases s,
{
    if s.len() == 0 {
        Seq::empty()
    } else {
        view_pairs(s.subrange(0, s.len() - 1)).push(
            (s[s.len() - 1].0@, view_expr(s[s.len() - 1].1)),
        )
    }
}

pub open spec fn view_stmt(s: Stmt) -> StmtV
    decreases s,
{
    match s {
        Stmt::LetStmt(i, e) => StmtV::Let(i@, view_expr(e)),
        Stmt::ReturnStmt(e) => StmtV::Return(view_expr(e)),
        Stmt::ExprStmt(e) => StmtV::Expr(view_expr(e)),
    }
}

pub open spec fn view_stmts(s: Seq<Stmt>) -> Seq<StmtV>
    decreases s,
{
    if s.len() == 0 {
        Seq::empty()
    } else {
        view_stmts(s.subrange(0, s.len() - 1)).push(view_stmt(s[s.len() - 1]))
    }
}

impl View for Expr {
    type V = ExprV;

    open spec fn view(&self) -> ExprV {
        view_expr(*self)
    }
}

impl View for Stmt {
    type V = StmtV;

    open spec fn view(&self) -> StmtV {
        view_stmt(*self)
    }
}

} // verus!

verus! {

pub proof fn lemma_view_exprs_push(s: Seq<Expr>, x: Expr)
    ensures
        view_exprs(s.push(x)) == view_exprs(s).push(x@),
{
    assert(s.push(x).subrange(0, s.len() as int) =~= s);
}

pub proof fn lemma_view_pairs_push(s: Seq<(Literal, Expr)>, x: (Literal, Expr))
    ensures
        view_pairs(s.push(x)) == view_pairs(s).push((x.0@, x.1@)),
{
    assert(s.push(x).subrange(0, s.len() as int) =~= s);
}

pub proof fn lemma_view_stmts_push(s: Seq<Stmt>, x: Stmt)
    ensures
        view_stmts(s.push(x)) == view_stmts(s).push(x@),
{
    assert(s.push(x).subrange(0, s.len() as int) =~= s);
}

pub proof fn lemma_view_stmts_index(s: Seq<Stmt>)
    ensures
        view_stmts(s).len() == s.len(),
        forall|i: int| 0 <= i < s.len() ==> #[trigger] view_stmts(s)[i] == s[i]@,
    decreases s.len(),
{
    if s.len() > 0 {
        lemma_view_stmts_index(s.subrange(0, s.len() - 1));
    }
}

pub proof fn lemma_view_exprs_index(s: Seq<Expr>)
    ensures
        view_exprs(s).len() == s.len(),
        forall|i: int| 0 <= i < s.len() ==> #[trigger] view_exprs(s)[i] == s[i]@,
    decreases s.len(),
{
    if s.len() > 0 {
        lemma_view_exprs_index(s.subrange(0, s.len() - 1));
    }
}

pub proof fn lemma_view_pairs_index(s: Seq<(Literal, Expr)>)
    ensures
        view_pairs(s).len() == s.len(),
        forall|i: int| 0 <= i < s.len() ==> #[trigger] view_pairs(s)[i] == (s[i].0@, s[i].1@),
    decreases s.len(),
{
    if s.len() > 0 {
        lemma_view_pairs_index(s.subrange(0, s.len() - 1));
    }
}

impl Literal {
    /// A copy with the same view.
    pub fn copy(&self) -> (r: Literal)
        ensures
            r@ == self@,
    {
        match self {
            Literal::IntLiteral(i) => Literal::IntLiteral(*i),
            Literal::BoolLiteral(b) => Literal::BoolLiteral(*b),
            Literal::StringLiteral(s) => Literal::StringLiteral(s.clone()),
        }
    }
}

/// A copy of a list of names with the same view.
pub fn copy_idents(v: &Vec<Identifier>) -> (r: Vec<Identifier>)
    ensures
        view_idents(r@) == view_idents(v@),
{
    let mut out: Vec<Identifier> = Vec::new();
    let mut i: usize = 0;
    while i < v.len()
        invariant
            i <= v@.len(),
            view_idents(out@) =~= view_idents(v@.subrange(0, i as int)),
        decreases v.len() - i,
    {
        let ghost before = out@;
        out.push(Identifier(v[i].0.clone()));
        assert(view_idents(out@) =~= view_idents(before).push(v@[i as int]@));
        assert(view_idents(v@.subrange(0, i + 1)) =~= view_idents(v@.subrange(0, i as int)).push(
            v@[i as int]@,
        ));
        i = i + 1;
    }
    assert(v@.subrange(0, v@.len() as int) =~= v@);
    out
}

impl Expr {
    /// A copy with the same view.
    pub fn copy(&self) -> (r: Expr)
        ensures
            r@ == self@,
        decreases self,
    {
        match self {
            Expr::IdentExpr(i) => Expr::IdentExpr(Identifier(i.0.clone())),
            Expr::LiteralExpr(l) => Expr::LiteralExpr(l.copy()),
            Expr::PrefixExpr(p, b) => Expr::PrefixExpr(*p, Box::new((**b).copy())),
            Expr::IfExpr { cond, consequence, alternative } => {
                let c = (**cond).copy();
                let cons = copy_stmts(consequence);
                let alt = match alternative {
                    Some(a) => Some(copy_stmts(a)),
                    None => None,
                };
                Expr::IfExpr { cond: Box::new(c), consequence: cons, alternative: alt }
            },
            Expr::FnExpr { parameters, body } => Expr::FnExpr {
                parameters: copy_idents(parameters),
                body: copy_stmts(body),
            },
            Expr::ArrayExpr(v) => Expr::ArrayExpr(copy_exprs(v)),
            Expr::HashExpr(v) => Expr::HashExpr(copy_pairs(v)),
            Expr::InfixExpr(op, l, r) => Expr::InfixExpr(
                *op,
                Box::new((**l).copy()),
                Box::new((**r).copy()),
            ),
            Expr::CallExpr { function, arguments } => Expr::CallExpr {
                function: Box::new((**function).copy()),
                arguments: copy_exprs(arguments),
            },
            Expr::IndexExpr { left, index } => Expr::IndexExpr {
                left: Box::new((**left).copy()),
                index: Box::new((**index).copy()),
            },
        }
    }
}

/// A copy of a list of expressions with the same view.
pub fn copy_exprs(v: &Vec<Expr>) -> (r: Vec<Expr>)
    ensures
        view_exprs(r@) == view_exprs(v@),
    decreases v,
{
    let mut out: Vec<Expr> = Vec::new();
    let mut i: usize = 0;
    while i < v.len()
        invariant
            i <= v@.len(),
            view_exprs(out@) == view_exprs(v@.subrange(0, i as int)),
        decreases v.len() - i,
    {
        let e = v[i].copy();
        proof {
            lemma_view_exprs_push(out@, e);
            assert(v@.subrange(0, i + 1).subrange(0, i as int) =~= v@.subrange(0, i as int));
        }
        out.push(e);
        i = i + 1;
    }
    assert(v@.subrange(0, v@.len() as int) =~= v@);
    out
}

/// A copy of hash pairs with the same view.
pub fn copy_pairs(v: &Vec<(Literal, Expr)>) -> (r: Vec<(Literal, Expr)>)
    ensures
        view_pairs(r@) == view_pairs(v@),
    decreases v,
{
    let mut out: Vec<(Literal, Expr)> = Vec::new();
    let mut i: usize = 0;
    while i < v.len()
        invariant
            i <= v@.len(),
            view_pairs(out@) == view_pairs(v@.subrange(0, i as int)),
        decreases v.len() - i,
    {
        let p = (v[i].0.copy(), v[i].1.copy());
        proof {
            lemma_view_pairs_push(out@, p);
            assert(v@.subrange(0, i + 1).subrange(0, i as int) =~= v@.subrange(0, i as int));
        }
        out.push(p);
        i = i + 1;
    }
    assert(v@.subrange(0, v@.len() as int) =~= v@);
    out
}

impl Stmt {
    /// A copy with the same view.
    pub fn copy(&self) -> (r: Stmt)
        ensures
            r@ == self@,
        decreases self,
    {
        match self {
            Stmt::LetStmt(i, e) => Stmt::LetStmt(Identifier(i.0.clone()), e.copy()),
            Stmt::ReturnStmt(e) => Stmt::ReturnStmt(e.copy()),
            Stmt::ExprStmt(e) => Stmt::ExprStmt(e.copy()),
        }
    }
}

/// A copy of a list of statements with the same view.
pub fn copy_stmts(v: &Vec<Stmt>) -> (r: Vec<Stmt>)
    ensures
        view_stmts(r@) == view_stmts(v@),
    decreases v,
{
    let mut out: Vec<Stmt> = Vec::new();
    let mut i: usize = 0;
    while i < v.len()
        invariant
            i <= v@.len(),
            view_stmts(out@) == view_stmts(v@.subrange(0, i as int)),
        decreases v.len() - i,
    {
        let s = v[i].copy();
        proof {
            lemma_view_stmts_push(out@, s);
            assert(v@.subrange(0, i + 1).subrange(0, i as int) =~= v@.subrange(0, i as int));
        }
        out.push(s);
        i = i + 1;
    }
    assert(v@.subrange(0, v@.len() as int) =~= v@);
    out
}

} // verus!

verus! {

pub proof fn lemma_view_idents_index(s: Seq<Identifier>)
    ensures
        view_idents(s).len() == s.len(),
        forall|i: int| 0 <= i < s.len() ==> #[trigger] view_idents(s)[i] == s[i]@,
{
}

impl Literal {
    /// Whether two literals have the same view.
    pub fn same(&self, o: &Literal) -> (r: bool)
        ensures
            r == (self@ == o@),
    {
        match (self, o) {
            (Literal::IntLiteral(a), Literal::IntLiteral(b)) => *a == *b,
            (Literal::BoolLiteral(a), Literal::BoolLiteral(b)) => *a == *b,
            (Literal::StringLiteral(a), Literal::StringLiteral(b)) => *a == *b,
            _ => false,
        }
    }
}

/// Whether two lists of names have the same view.
pub fn idents_equal(a: &Vec<Identifier>, b: &Vec<Identifier>) -> (r: bool)
    ensures
        r == (view_idents(a@) == view_idents(b@)),
{
    proof {
        lemma_view_idents_index(a@);
        lemma_view_idents_index(b@);
    }
    if a.len() != b.len() {
        return false;
    }
    let mut i: usize = 0;
    while i < a.len()
        invariant
            i <= a@.len(),
            a@.len() == b@.len(),
            view_idents(a@).len() == a@.len(),
            view_idents(b@).len() == b@.len(),
            forall|k: int| 0 <= k < a@.len() ==> #[trigger] view_idents(a@)[k] == a@[k]@,
            forall|k: int| 0 <= k < b@.len() ==> #[trigger] view_idents(b@)[k] == b@[k]@,
            forall|k: int| 0 <= k < i ==> view_idents(a@)[k] == view_idents(b@)[k],
        decreases a.len() - i,
    {
        if a[i].0 != b[i].0 {
            assert(view_idents(a@)[i as int] != view_idents(b@)[i as int]);
            return false;
        }
        i = i + 1;
    }
    assert(view_idents(a@) =~= view_idents(b@));
    true
}

impl Expr {
    /// Whether two expressions have the same view.
    pub fn same(&self, o: &Expr) -> (r: bool)
        ensures
            r == (self@ == o@),
        decreases self,
    {
        match (self, o) {
            (Expr::IdentExpr(a), Expr::IdentExpr(b)) => a.0 == b.0,
            (Expr::LiteralExpr(a), Expr::LiteralExpr(b)) => a.same(b),
            (Expr::PrefixExpr(p, a), Expr::PrefixExpr(q, b)) => *p == *q && (**a).same(&**b),
            (
                Expr::IfExpr { cond: c1, consequence: s1, alternative: a1 },
                Expr::IfExpr { cond: c2, consequence: s2, alternative: a2 },
            ) => {
                if !(**c1).same(&**c2) || !stmts_equal(s1, s2) {
                    return false;
                }
                match (a1, a2) {
                    (Some(x), Some(y)) => stmts_equal(x, y),
                    (None, None) => true,
                    _ => false,
                }
            },
            (
                Expr::FnExpr { parameters: p1, body: b1 },
                Expr::FnExpr { parameters: p2, body: b2 },
            ) => idents_equal(p1, p2) && stmts_equal(b1, b2),
            (Expr::ArrayExpr(a), Expr::ArrayExpr(b)) => exprs_equal(a, b),
            (Expr::HashExpr(a), Expr::HashExpr(b)) => pairs_equal(a, b),
            (Expr::InfixExpr(p, a1, a2), Expr::InfixExpr(q, b1, b2)) => *p == *q && (**a1).same(
                &**b1,
            ) && (**a2).same(&**b2),
            (
                Expr::CallExpr { function: f1, arguments: x1 },
                Expr::CallExpr { function: f2, arguments: x2 },
            ) => (**f1).same(&**f2) && exprs_equal(x1, x2),
            (Expr::IndexExpr { left: l1, index: i1 }, Expr::IndexExpr { left: l2, index: i2 }) => (
            **l1).same(&**l2) && (**i1).same(&**i2),
            _ => false,
        }
    }
}

/// Whether two lists of expressions have the same view.
pub fn exprs_equal(a: &Vec<Expr>, b: &Vec<Expr>) -> (r: bool)
    ensures
        r == (view_exprs(a@) == view_exprs(b@)),
    decreases a,
{
    proof {
        lemma_view_exprs_index(a@);
        lemma_view_exprs_index(b@);
    }
    if a.len() != b.len() {
        return false;
    }
    let mut i: usize = 0;
    while i < a.len()
        invariant
            i <= a@.len(),
            a@.len() == b@.len(),
            view_exprs(a@).len() == a@.len(),
            view_exprs(b@).len() == b@.len(),
            forall|k: int| 0 <= k < a@.len() ==> #[trigger] view_exprs(a@)[k] == a@[k]@,
            forall|k: int| 0 <= k < b@.len() ==> #[trigger] view_exprs(b@)[k] == b@[k]@,
            forall|k: int| 0 <= k < i ==> view_exprs(a@)[k] == view_exprs(b@)[k],
        decreases a.len() - i,
    {
        if !a[i].same(&b[i]) {
            assert(view_exprs(a@)[i as int] != view_exprs(b@)[i as int]);
            return false;
        }
        i = i + 1;
    }
    assert(view_exprs(a@) =~= view_exprs(b@));
    true
}

/// Whether two lists of hash pairs have the same view.
pub fn pairs_equal(a: &Vec<(Literal, Expr)>, b: &Vec<(Literal, Expr)>) -> (r: bool)
    ensures
        r == (view_pairs(a@) == view_pairs(b@)),
    decreases a,
{
    proof {
        lemma_view_pairs_index(a@);
        lemma_view_pairs_index(b@);
    }
    if a.len() != b.len() {
        return false;
    }
    let mut i: usize = 0;
    while i < a.len()
        invariant
            i <= a@.len(),
            a@.len() == b@.len(),
            view_pairs(a@).len() == a@.len(),
            view_pairs(b@).len() == b@.len(),
            forall|k: int| 0 <= k < a@.len() ==> #[trigger] view_pairs(a@)[k] == (a@[k].0@, a@[k].1@),
            forall|k: int| 0 <= k < b@.len() ==> #[trigger] view_pairs(b@)[k] == (b@[k].0@, b@[k].1@),
            forall|k: int| 0 <= k < i ==> view_pairs(a@)[k] == view_pairs(b@)[k],
        decreases a.len() - i,
    {
        if !a[i].0.same(&b[i].0) || !a[i].1.same(&b[i].1) {
            assert(view_pairs(a@)[i as int] != view_pairs(b@)[i as int]);
            return false;
        }
        i = i + 1;
    }
    assert(view_pairs(a@) =~= view_pairs(b@));
    true
}

impl Stmt {
    /// Whether two statements have the same view.
    pub fn same(&self, o: &Stmt) -> (r: bool)
        ensures
            r == (self@ == o@),
        decreases self,
    {
        match (self, o) {
            (Stmt::LetStmt(a, x), Stmt::LetStmt(b, y)) => a.0 == b.0 && x.same(y),
            (Stmt::ReturnStmt(x), Stmt::ReturnStmt(y)) => x.same(y),
            (Stmt::ExprStmt(x), Stmt::ExprStmt(y)) => x.same(y),
            _ => false,
        }
    }
}

/// Whether two lists of statements have the same view.
pub fn stmts_equal(a: &Vec<Stmt>, b: &Vec<Stmt>) -> (r: bool)
    ensures
        r == (view_stmts(a@) == view_stmts(b@)),
    decreases a,
{
    proof {
        lemma_view_stmts_index(a@);
        lemma_view_stmts_index(b@);
    }
    if a.len() != b.len() {
        return false;
    }
    let mut i: usize = 0;
    while i < a.len()
        invariant
            i <= a@.len(),
            a@.len() == b@.len(),
            view_stmts(a@).len() == a@.len(),
            view_stmts(b@).len() == b@.len(),
            forall|k: int| 0 <= k < a@.len() ==> #[trigger] view_stmts(a@)[k] == a@[k]@,
            forall|k: int| 0 <= k < b@.len() ==> #[trigger] view_stmts(b@)[k] == b@[k]@,
            forall|k: int| 0 <= k < i ==> view_stmts(a@)[k] == view_stmts(b@)[k],
        decreases a.len() - i,
    {
        if !a[i].same(&b[i]) {
            assert(view_stmts(a@)[i as int] != view_stmts(b@)[i as int]);
            return false;
        }
        i = i + 1;
    }
    assert(view_stmts(a@) =~= view_stmts(b@));
    true
}

} // verus!
