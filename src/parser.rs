//! Tokens to a syntax tree: statements by recursive descent, expressions by
//! precedence climbing.
use vstd::prelude::*;
use crate::ast::{Program, Expr, ExprV, Identifier, Infix, LitV, Literal, Prefix, Precedence, Stmt, StmtV, precedence_spec, precedences, rank, view_exprs, view_idents, view_pairs, view_stmts};
use crate::token::{Token, TokenView, Tokens, view_tokens, clone_token};

verus! {

/// The token at `i`; past the end, the end marker.
pub open spec fn tok(ts: Seq<TokenView>, i: nat) -> TokenView {
    if i < ts.len() {
        ts[i as int]
    } else {
        TokenView::Plain(Token::EOF)
    }
}

pub open spec fn is_tok(ts: Seq<TokenView>, i: nat, t: Token) -> bool {
    tok(ts, i) == TokenView::Plain(t)
}

/// A parse that moved forward from `pos` to `end` and stayed within the tokens.
pub open spec fn advanced(ts: Seq<TokenView>, pos: nat, end: nat) -> bool {
    pos < end <= ts.len()
}

/// The position after an optional semicolon at `i`.
pub open spec fn skip_semi(ts: Seq<TokenView>, i: nat) -> nat {
    if is_tok(ts, i, Token::SemiColon) {
        i + 1
    } else {
        i
    }
}

pub open spec fn prefix_op(t: TokenView) -> Option<Prefix> {
    match t {
        TokenView::Plain(Token::Plus) => Some(Prefix::Plus),
        TokenView::Plain(Token::Minus) => Some(Prefix::Minus),
        TokenView::Plain(Token::Not) => Some(Prefix::Not),
        _ => None,
    }
}

pub open spec fn literal_of(t: TokenView) -> Option<LitV> {
    match t {
        TokenView::Str(s) => Some(LitV::Str(s)),
        TokenView::Plain(Token::IntLiteral(i)) => Some(LitV::Int(i)),
        TokenView::Plain(Token::BoolLiteral(b)) => Some(LitV::Bool(b)),
        _ => None,
    }
}

/// An expression at `pos` whose binary operators all bind tighter than `prec`;
/// with the position after it, or the position of the offending token.
pub open spec fn p_expr(ts: Seq<TokenView>, pos: nat, prec: nat) -> Result<(ExprV, nat), nat>
    decreases ts.len() - pos, 3nat,
{
    match p_prefix(ts, pos) {
        Err(e) => Err(e),
        Ok((left, end)) => if advanced(ts, pos, end) {
            p_infix(ts, end, prec, left)
        } else {
            Err(pos)
        },
    }
}

/// Extends `left` with the calls, indexings and binary operators at `pos`
/// that bind tighter than `prec`, grouping to the left.
pub open spec fn p_infix(ts: Seq<TokenView>, pos: nat, prec: nat, left: ExprV) -> Result<
    (ExprV, nat),
    nat,
>
    decreases ts.len() - pos, 1nat,
{
    let t = tok(ts, pos);
    if t == TokenView::Plain(Token::LParen) && prec < 6 {
        match p_list(ts, pos + 1, Token::RParen) {
            Err(e) => Err(e),
            Ok((args, end)) => if advanced(ts, pos, end) {
                p_infix(ts, end, prec, ExprV::Call(Box::new(left), args))
            } else {
                Err(pos)
            },
        }
    } else if t == TokenView::Plain(Token::LBracket) && prec < 7 {
        match p_expr(ts, pos + 1, 0) {
            Err(e) => Err(e),
            Ok((index, end)) => if !is_tok(ts, end, Token::RBracket) {
                Err(end)
            } else if advanced(ts, pos, end + 1) {
                p_infix(ts, end + 1, prec, ExprV::Index(Box::new(left), Box::new(index)))
            } else {
                Err(pos)
            },
        }
    } else if precedence_spec(t).1 is Some && prec < rank(precedence_spec(t).0) {
        match p_expr(ts, pos + 1, rank(precedence_spec(t).0)) {
            Err(e) => Err(e),
            Ok((right, end)) => if advanced(ts, pos, end) {
                p_infix(
                    ts,
                    end,
                    prec,
                    ExprV::Infix(precedence_spec(t).1->Some_0, Box::new(left), Box::new(right)),
                )
            } else {
                Err(pos)
            },
        }
    } else {
        Ok((left, pos))
    }
}

/// A prefix form at `pos`: a name, a literal, a unary operator applied to an
/// operand, a parenthesised expression, `if`, `fn`, an array or a hash.
pub open spec fn p_prefix(ts: Seq<TokenView>, pos: nat) -> Result<(ExprV, nat), nat>
    decreases ts.len() - pos, 2nat,
{
    let t = tok(ts, pos);
    if t is Ident {
        Ok((ExprV::Ident(t->Ident_0), pos + 1))
    } else if literal_of(t) is Some {
        Ok((ExprV::Lit(literal_of(t)->Some_0), pos + 1))
    } else if prefix_op(t) is Some {
        match p_expr(ts, pos + 1, 5) {
            Err(e) => Err(e),
            Ok((e, end)) => Ok((ExprV::Prefix(prefix_op(t)->Some_0, Box::new(e)), end)),
        }
    } else if t == TokenView::Plain(Token::LParen) {
        match p_expr(ts, pos + 1, 0) {
            Err(e) => Err(e),
            Ok((e, end)) => if is_tok(ts, end, Token::RParen) {
                Ok((e, end + 1))
            } else {
                Err(end)
            },
        }
    } else if t == TokenView::Plain(Token::If) {
        if !is_tok(ts, pos + 1, Token::LParen) {
            Err(pos + 1)
        } else {
            match p_expr(ts, pos + 2, 0) {
                Err(e) => Err(e),
                Ok((c, e1)) => if !is_tok(ts, e1, Token::RParen) {
                    Err(e1)
                } else if !advanced(ts, pos, e1 + 1) {
                    Err(pos)
                } else {
                    match p_block(ts, e1 + 1) {
                        Err(e) => Err(e),
                        Ok((cons, e2)) => if !is_tok(ts, e2, Token::Else) {
                            Ok((ExprV::If(Box::new(c), cons, None), e2))
                        } else if !advanced(ts, pos, e2 + 1) {
                            Err(pos)
                        } else {
                            match p_block(ts, e2 + 1) {
                                Err(e) => Err(e),
                                Ok((alt, e3)) => Ok((ExprV::If(Box::new(c), cons, Some(alt)), e3)),
                            }
                        },
                    }
                },
            }
        }
    } else if t == TokenView::Plain(Token::Function) {
        if !is_tok(ts, pos + 1, Token::LParen) {
            Err(pos + 1)
        } else {
            match p_params(ts, pos + 2) {
                Err(e) => Err(e),
                Ok((params, e1)) => if !advanced(ts, pos, e1) {
                    Err(pos)
                } else {
                    match p_block(ts, e1) {
                        Err(e) => Err(e),
                        Ok((body, e2)) => Ok((ExprV::Func(params, body), e2)),
                    }
                },
            }
        }
    } else if t == TokenView::Plain(Token::LBracket) {
        match p_list(ts, pos + 1, Token::RBracket) {
            Err(e) => Err(e),
            Ok((items, end)) => Ok((ExprV::Array(items), end)),
        }
    } else if t == TokenView::Plain(Token::LBrace) {
        match p_pairs(ts, pos + 1) {
            Err(e) => Err(e),
            Ok((pairs, end)) => Ok((ExprV::Hash(pairs), end)),
        }
    } else {
        Err(pos)
    }
}

/// A comma-separated list of expressions at `pos`, possibly empty, and the
/// closing token `close`.
pub open spec fn p_list(ts: Seq<TokenView>, pos: nat, close: Token) -> Result<
    (Seq<ExprV>, nat),
    nat,
>
    decreases ts.len() - pos, 4nat,
{
    if is_tok(ts, pos, close) {
        Ok((Seq::empty(), pos + 1))
    } else {
        match p_expr(ts, pos, 0) {
            Err(e) => Err(e),
            Ok((e, end)) => if advanced(ts, pos, end) {
                p_list_rest(ts, end, close, seq![e])
            } else {
                Err(pos)
            },
        }
    }
}

/// The rest of a list after the items `acc`: more `, item` and then `close`.
pub open spec fn p_list_rest(ts: Seq<TokenView>, pos: nat, close: Token, acc: Seq<ExprV>) -> Result<
    (Seq<ExprV>, nat),
    nat,
>
    decreases ts.len() - pos, 4nat,
{
    if is_tok(ts, pos, Token::Comma) {
        match p_expr(ts, pos + 1, 0) {
            Err(e) => Err(e),
            Ok((e, end)) => if advanced(ts, pos, end) {
                p_list_rest(ts, end, close, acc.push(e))
            } else {
                Err(pos)
            },
        }
    } else if is_tok(ts, pos, close) {
        Ok((acc, pos + 1))
    } else {
        Err(pos)
    }
}

/// One `literal : expression` pair of a hash at `pos`.
pub open spec fn p_pair(ts: Seq<TokenView>, pos: nat) -> Result<((LitV, ExprV), nat), nat>
    decreases ts.len() - pos, 4nat,
{
    if literal_of(tok(ts, pos)) is None {
        Err(pos)
    } else if !is_tok(ts, pos + 1, Token::Colon) {
        Err(pos + 1)
    } else {
        match p_expr(ts, pos + 2, 0) {
            Err(e) => Err(e),
            Ok((e, end)) => Ok(((literal_of(tok(ts, pos))->Some_0, e), end)),
        }
    }
}

/// The pairs of a hash after its `{`, and the closing `}`.
pub open spec fn p_pairs(ts: Seq<TokenView>, pos: nat) -> Result<(Seq<(LitV, ExprV)>, nat), nat>
    decreases ts.len() - pos, 5nat,
{
    if is_tok(ts, pos, Token::RBrace) {
        Ok((Seq::empty(), pos + 1))
    } else {
        match p_pair(ts, pos) {
            Err(e) => Err(e),
            Ok((p, end)) => if advanced(ts, pos, end) {
                p_pairs_rest(ts, end, seq![p])
            } else {
                Err(pos)
            },
        }
    }
}

pub open spec fn p_pairs_rest(ts: Seq<TokenView>, pos: nat, acc: Seq<(LitV, ExprV)>) -> Result<
    (Seq<(LitV, ExprV)>, nat),
    nat,
>
    decreases ts.len() - pos, 5nat,
{
    if is_tok(ts, pos, Token::Comma) {
        match p_pair(ts, pos + 1) {
            Err(e) => Err(e),
            Ok((p, end)) => if advanced(ts, pos, end) {
                p_pairs_rest(ts, end, acc.push(p))
            } else {
                Err(pos)
            },
        }
    } else if is_tok(ts, pos, Token::RBrace) {
        Ok((acc, pos + 1))
    } else {
        Err(pos)
    }
}

/// The parameter names of a function after its `(`, and the closing `)`.
pub open spec fn p_params(ts: Seq<TokenView>, pos: nat) -> Result<(Seq<Seq<char>>, nat), nat> {
    if is_tok(ts, pos, Token::RParen) {
        Ok((Seq::empty(), pos + 1))
    } else if tok(ts, pos) is Ident {
        p_params_rest(ts, pos + 1, seq![tok(ts, pos)->Ident_0])
    } else {
        Err(pos)
    }
}

pub open spec fn p_params_rest(ts: Seq<TokenView>, pos: nat, acc: Seq<Seq<char>>) -> Result<
    (Seq<Seq<char>>, nat),
    nat,
>
    decreases ts.len() - pos,
{
    if is_tok(ts, pos, Token::Comma) {
        if tok(ts, pos + 1) is Ident {
            p_params_rest(ts, pos + 2, acc.push(tok(ts, pos + 1)->Ident_0))
        } else {
            Err(pos + 1)
        }
    } else if is_tok(ts, pos, Token::RParen) {
        Ok((acc, pos + 1))
    } else {
        Err(pos)
    }
}

/// A `{ ... }` block at `pos`.
pub open spec fn p_block(ts: Seq<TokenView>, pos: nat) -> Result<(Seq<StmtV>, nat), nat>
    decreases ts.len() - pos, 7nat,
{
    if is_tok(ts, pos, Token::LBrace) {
        p_stmts(ts, pos + 1, Seq::empty())
    } else {
        Err(pos)
    }
}

/// The statements of a block after `acc`, up to its closing `}`.
pub open spec fn p_stmts(ts: Seq<TokenView>, pos: nat, acc: Seq<StmtV>) -> Result<
    (Seq<StmtV>, nat),
    nat,
>
    decreases ts.len() - pos, 7nat,
{
    if is_tok(ts, pos, Token::RBrace) {
        Ok((acc, pos + 1))
    } else {
        match p_stmt(ts, pos) {
            Err(e) => Err(e),
            Ok((s, end)) => if advanced(ts, pos, end) {
                p_stmts(ts, end, acc.push(s))
            } else {
                Err(pos)
            },
        }
    }
}

/// The statements of a program after `acc`, up to the end marker.
pub open spec fn p_program(ts: Seq<TokenView>, pos: nat, acc: Seq<StmtV>) -> Result<Seq<StmtV>, nat>
    decreases ts.len() - pos,
{
    if is_tok(ts, pos, Token::EOF) {
        Ok(acc)
    } else {
        match p_stmt(ts, pos) {
            Err(e) => Err(e),
            Ok((s, end)) => if advanced(ts, pos, end) {
                p_program(ts, end, acc.push(s))
            } else {
                Err(pos)
            },
        }
    }
}

/// One statement at `pos`, with its optional semicolon.
pub open spec fn p_stmt(ts: Seq<TokenView>, pos: nat) -> Result<(StmtV, nat), nat>
    decreases ts.len() - pos, 6nat,
{
    if is_tok(ts, pos, Token::Let) {
        if !(tok(ts, pos + 1) is Ident) {
            Err(pos + 1)
        } else if !is_tok(ts, pos + 2, Token::Assign) {
            Err(pos + 2)
        } else {
            match p_expr(ts, pos + 3, 0) {
                Err(e) => Err(e),
                Ok((e, end)) => Ok((StmtV::Let(tok(ts, pos + 1)->Ident_0, e), skip_semi(ts, end))),
            }
        }
    } else if is_tok(ts, pos, Token::Return) {
        match p_expr(ts, pos + 1, 0) {
            Err(e) => Err(e),
            Ok((e, end)) => Ok((StmtV::Return(e), skip_semi(ts, end))),
        }
    } else {
        match p_expr(ts, pos, 0) {
            Err(e) => Err(e),
            Ok((e, end)) => Ok((StmtV::Expr(e), skip_semi(ts, end))),
        }
    }
}

/// The program that the tokens spell: statements up to the end marker; or the
/// position of the first token that no production accepts.
pub open spec fn parse_spec(ts: Seq<TokenView>) -> Result<Seq<StmtV>, nat> {
    p_program(ts, 0, Seq::empty())
}

} // verus!

verus! {

/// Where parsing stopped: the position of the offending token, and that token.
#[derive(Debug)]
pub struct ParseError {
    pub position: usize,
    pub token: Token,
}

/// The error names the token at its position.
pub open spec fn names_token(ts: Seq<TokenView>, e: ParseError) -> bool {
    e.token@ == tok(ts, e.position as nat)
}

/// The executable result of parsing an expression agrees with the spec result `s`;
/// an error names the offending token.
pub open spec fn res_expr(ts: Seq<TokenView>, r: Result<(Expr, usize), ParseError>, s: Result<(ExprV, nat), nat>) -> bool {
    match r {
        Ok((e, k)) => s == Ok::<(ExprV, nat), nat>((e@, k as nat)),
        Err(err) => s == Err::<(ExprV, nat), nat>(err.position as nat) && names_token(ts, err),
    }
}

/// The executable result of parsing a list of expressions agrees with the spec result `s`;
/// an error names the offending token.
pub open spec fn res_exprs(ts: Seq<TokenView>, r: Result<(Vec<Expr>, usize), ParseError>, s: Result<(Seq<ExprV>, nat), nat>) -> bool {
    match r {
        Ok((e, k)) => s == Ok::<(Seq<ExprV>, nat), nat>((view_exprs(e@), k as nat)),
        Err(err) => s == Err::<(Seq<ExprV>, nat), nat>(err.position as nat) && names_token(ts, err),
    }
}

/// The executable result of parsing a hash pair agrees with the spec result `s`;
/// an error names the offending token.
pub open spec fn res_pair(ts: Seq<TokenView>, r: Result<((Literal, Expr), usize), ParseError>, s: Result<((LitV, ExprV), nat), nat>) -> bool {
    match r {
        Ok((p, k)) => s == Ok::<((LitV, ExprV), nat), nat>(((p.0@, p.1@), k as nat)),
        Err(err) => s == Err::<((LitV, ExprV), nat), nat>(err.position as nat) && names_token(ts, err),
    }
}

/// The executable result of parsing the pairs of a hash agrees with the spec result `s`;
/// an error names the offending token.
pub open spec fn res_pairs(ts: Seq<TokenView>, r: Result<(Vec<(Literal, Expr)>, usize), ParseError>, s: Result<(Seq<(LitV, ExprV)>, nat), nat>) -> bool {
    match r {
        Ok((e, k)) => s == Ok::<(Seq<(LitV, ExprV)>, nat), nat>((view_pairs(e@), k as nat)),
        Err(err) => s == Err::<(Seq<(LitV, ExprV)>, nat), nat>(err.position as nat) && names_token(ts, err),
    }
}

/// The executable result of parsing a parameter list agrees with the spec result `s`;
/// an error names the offending token.
pub open spec fn res_params(ts: Seq<TokenView>, r: Result<(Vec<Identifier>, usize), ParseError>, s: Result<(Seq<Seq<char>>, nat), nat>) -> bool {
    match r {
        Ok((e, k)) => s == Ok::<(Seq<Seq<char>>, nat), nat>((view_idents(e@), k as nat)),
        Err(err) => s == Err::<(Seq<Seq<char>>, nat), nat>(err.position as nat) && names_token(ts, err),
    }
}

/// The executable result of parsing a statement agrees with the spec result `s`;
/// an error names the offending token.
pub open spec fn res_stmt(ts: Seq<TokenView>, r: Result<(Stmt, usize), ParseError>, s: Result<(StmtV, nat), nat>) -> bool {
    match r {
        Ok((e, k)) => s == Ok::<(StmtV, nat), nat>((e@, k as nat)),
        Err(err) => s == Err::<(StmtV, nat), nat>(err.position as nat) && names_token(ts, err),
    }
}

/// The executable result of parsing a block agrees with the spec result `s`;
/// an error names the offending token.
pub open spec fn res_stmts(ts: Seq<TokenView>, r: Result<(Vec<Stmt>, usize), ParseError>, s: Result<(Seq<StmtV>, nat), nat>) -> bool {
    match r {
        Ok((e, k)) => s == Ok::<(Seq<StmtV>, nat), nat>((view_stmts(e@), k as nat)),
        Err(err) => s == Err::<(Seq<StmtV>, nat), nat>(err.position as nat) && names_token(ts, err),
    }
}

/// An error at `pos`.
fn fail(ts: &[Token], pos: usize) -> (r: ParseError)
    ensures
        r.position == pos,
        names_token(view_tokens(ts@), r),
{
    let token = if pos < ts.len() {
        clone_token(&ts[pos])
    } else {
        Token::EOF
    };
    ParseError { position: pos, token }
}

/// Whether the token at `pos` is the bare token `t`.
fn at(ts: &[Token], pos: usize, t: &Token) -> (r: bool)
    requires
        crate::token::is_bare(*t),
    ensures
        r == is_tok(view_tokens(ts@), pos as nat, *t),
        r && *t != Token::EOF ==> pos < ts@.len(),
        ts@.len() <= usize::MAX,
{
    if pos < ts.len() {
        ts[pos].is(t)
    } else {
        t.is(&Token::EOF)
    }
}

fn prefix_of(t: &Token) -> (r: Option<Prefix>)
    ensures
        r == prefix_op(t@),
{
    match t {
        Token::Plus => Some(Prefix::Plus),
        Token::Minus => Some(Prefix::Minus),
        Token::Not => Some(Prefix::Not),
        _ => None,
    }
}

fn literal_token(t: &Token) -> (r: Option<Literal>)
    ensures
        match r {
            Some(l) => literal_of(t@) == Some(l@),
            None => literal_of(t@) is None,
        },
{
    match t {
        Token::StringLiteral(s) => Some(Literal::StringLiteral(s.clone())),
        Token::IntLiteral(i) => Some(Literal::IntLiteral(*i)),
        Token::BoolLiteral(b) => Some(Literal::BoolLiteral(*b)),
        _ => None,
    }
}

fn parse_expr_at(ts: &[Token], pos: usize, prec: u8) -> (r: Result<(Expr, usize), ParseError>)
    requires
        pos <= ts@.len(),
    ensures
        res_expr(view_tokens(ts@), r, p_expr(view_tokens(ts@), pos as nat, prec as nat)),
        r matches Ok((_, k)) ==> advanced(view_tokens(ts@), pos as nat, k as nat),
    decreases ts@.len() - pos, 3nat,
{
    match parse_prefix_at(ts, pos) {
        Err(e) => Err(e),
        Ok((left, end)) => parse_infix_at(ts, end, prec, left),
    }
}

/// One binary operator at `pos` and its right operand, applied to `left`.
pub open spec fn p_binary(ts: Seq<TokenView>, pos: nat, left: ExprV) -> Result<(ExprV, nat), nat>
    decreases ts.len() - pos, 2nat,
{
    let t = tok(ts, pos);
    if precedence_spec(t).1 is Some {
        match p_expr(ts, pos + 1, rank(precedence_spec(t).0)) {
            Err(e) => Err(e),
            Ok((right, end)) => Ok(
                (ExprV::Infix(precedence_spec(t).1->Some_0, Box::new(left), Box::new(right)), end),
            ),
        }
    } else {
        Err(pos)
    }
}

fn parse_binary_at(ts: &[Token], pos: usize, left: Expr) -> (r: Result<(Expr, usize), ParseError>)
    requires
        pos <= ts@.len(),
    ensures
        res_expr(view_tokens(ts@), r, p_binary(view_tokens(ts@), pos as nat, left@)),
        r matches Ok((_, k)) ==> advanced(view_tokens(ts@), pos as nat, k as nat),
    decreases ts@.len() - pos, 1nat,
{
    if pos >= ts.len() {
        return Err(fail(ts, pos));
    }
    let (p, op) = precedences(&ts[pos]);
    match op {
        None => Err(fail(ts, pos)),
        Some(op) => {
            let level = p.level();
            match parse_expr_at(ts, pos + 1, level) {
                Err(e) => Err(e),
                Ok((right, end)) => Ok(
                    (Expr::InfixExpr(op, Box::new(left), Box::new(right)), end),
                ),
            }
        },
    }
}

fn parse_infix_at(ts: &[Token], pos: usize, prec: u8, left: Expr) -> (r: Result<(Expr, usize), ParseError>)
    requires
        pos <= ts@.len(),
    ensures
        res_expr(view_tokens(ts@), r, p_infix(view_tokens(ts@), pos as nat, prec as nat, left@)),
        r matches Ok((_, k)) ==> pos <= k <= ts@.len(),
    decreases ts@.len() - pos, 2nat,
{
    let ghost vt = view_tokens(ts@);
    let ghost left0 = left@;
    let mut cur = pos;
    let mut cur_left = left;
    loop
        invariant
            pos <= cur <= ts@.len(),
            vt == view_tokens(ts@),
            left0 == left@,
            p_infix(vt, pos as nat, prec as nat, left0) == p_infix(vt, cur as nat, prec as nat, cur_left@),
        decreases ts@.len() - cur,
    {
        if at(ts, cur, &Token::LParen) && prec < 6 {
            match parse_list_at(ts, cur + 1, &Token::RParen) {
                Err(e) => {
                    return Err(e);
                },
                Ok((args, end)) => {
                    cur_left = Expr::CallExpr { function: Box::new(cur_left), arguments: args };
                    cur = end;
                },
            }
        } else if at(ts, cur, &Token::LBracket) && prec < 7 {
            match parse_expr_at(ts, cur + 1, 0) {
                Err(e) => {
                    return Err(e);
                },
                Ok((index, end)) => {
                    if !at(ts, end, &Token::RBracket) {
                        return Err(fail(ts, end));
                    }
                    cur_left = Expr::IndexExpr { left: Box::new(cur_left), index: Box::new(index) };
                    cur = end + 1;
                },
            }
        } else {
            if cur >= ts.len() {
                return Ok((cur_left, cur));
            }
            let (p, op) = precedences(&ts[cur]);
            assert(tok(vt, cur as nat) == ts@[cur as int]@);
            if op.is_some() && prec < p.level() {
                match parse_binary_at(ts, cur, cur_left) {
                    Err(e) => {
                        return Err(e);
                    },
                    Ok((e, end)) => {
                        cur_left = e;
                        cur = end;
                    },
                }
            } else {
                return Ok((cur_left, cur));
            }
        }
    }
}

fn parse_list_at(ts: &[Token], pos: usize, close: &Token) -> (r: Result<(Vec<Expr>, usize), ParseError>)
    requires
        pos <= ts@.len(),
        crate::token::is_bare(*close),
        *close != Token::EOF,
    ensures
        res_exprs(view_tokens(ts@), r, p_list(view_tokens(ts@), pos as nat, *close)),
        r matches Ok((_, k)) ==> advanced(view_tokens(ts@), pos as nat, k as nat),
    decreases ts@.len() - pos, 4nat,
{
    let ghost vt = view_tokens(ts@);
    if at(ts, pos, close) {
        return Ok((Vec::new(), pos + 1));
    }
        let mut out: Vec<Expr> = Vec::new();
    let mut cur = pos;
    match parse_expr_at(ts, cur, 0) {
        Err(e) => {
            return Err(e);
        },
        Ok((e, end)) => {
            out.push(e);
            assert(out@.subrange(0, 0) =~= Seq::<Expr>::empty());
            assert(view_exprs(out@) =~= seq![out@[0]@]) by {
                reveal_with_fuel(view_exprs, 2);
            }
            cur = end;
        },
    }
    loop
        invariant
            pos < cur <= ts@.len(),
            vt == view_tokens(ts@),
            crate::token::is_bare(*close),
            *close != Token::EOF,
            p_list(vt, pos as nat, *close) == p_list_rest(vt, cur as nat, *close, view_exprs(out@)),
        decreases ts@.len() - cur,
    {
        if at(ts, cur, &Token::Comma) {
            match parse_expr_at(ts, cur + 1, 0) {
                Err(e) => {
                    return Err(e);
                },
                Ok((e, end)) => {
                    let ghost before = out@;
                    out.push(e);
                    assert(out@.subrange(0, out@.len() - 1) =~= before);
                    cur = end;
                },
            }
        } else if at(ts, cur, close) {
            return Ok((out, cur + 1));
        } else {
            return Err(fail(ts, cur));
        }
    }
}

fn parse_pair_at(ts: &[Token], pos: usize) -> (r: Result<((Literal, Expr), usize), ParseError>)
    requires
        pos <= ts@.len(),
    ensures
        res_pair(view_tokens(ts@), r, p_pair(view_tokens(ts@), pos as nat)),
        r matches Ok((_, k)) ==> advanced(view_tokens(ts@), pos as nat, k as nat),
    decreases ts@.len() - pos, 4nat,
{
    if pos >= ts.len() {
        return Err(fail(ts, pos));
    }
    match literal_token(&ts[pos]) {
        None => Err(fail(ts, pos)),
        Some(lit) => {
            if !at(ts, pos + 1, &Token::Colon) {
                return Err(fail(ts, pos + 1));
            }
            match parse_expr_at(ts, pos + 2, 0) {
                Err(e) => Err(e),
                Ok((e, end)) => Ok(((lit, e), end)),
            }
        },
    }
}

fn parse_pairs_at(ts: &[Token], pos: usize) -> (r: Result<(Vec<(Literal, Expr)>, usize), ParseError>)
    requires
        pos <= ts@.len(),
    ensures
        res_pairs(view_tokens(ts@), r, p_pairs(view_tokens(ts@), pos as nat)),
        r matches Ok((_, k)) ==> advanced(view_tokens(ts@), pos as nat, k as nat),
    decreases ts@.len() - pos, 5nat,
{
    let ghost vt = view_tokens(ts@);
    if at(ts, pos, &Token::RBrace) {
        return Ok((Vec::new(), pos + 1));
    }
        let mut out: Vec<(Literal, Expr)> = Vec::new();
    let mut cur = pos;
    match parse_pair_at(ts, cur) {
        Err(e) => {
            return Err(e);
        },
        Ok((p, end)) => {
            out.push(p);
            assert(out@.subrange(0, 0) =~= Seq::<(Literal, Expr)>::empty());
            assert(view_pairs(out@) =~= seq![(out@[0].0@, out@[0].1@)]) by {
                reveal_with_fuel(view_pairs, 2);
            }
            cur = end;
        },
    }
    loop
        invariant
            pos < cur <= ts@.len(),
            vt == view_tokens(ts@),
            p_pairs(vt, pos as nat) == p_pairs_rest(vt, cur as nat, view_pairs(out@)),
        decreases ts@.len() - cur,
    {
        if at(ts, cur, &Token::Comma) {
            match parse_pair_at(ts, cur + 1) {
                Err(e) => {
                    return Err(e);
                },
                Ok((p, end)) => {
                    let ghost before = out@;
                    out.push(p);
                    assert(out@.subrange(0, out@.len() - 1) =~= before);
                    cur = end;
                },
            }
        } else if at(ts, cur, &Token::RBrace) {
            return Ok((out, cur + 1));
        } else {
            return Err(fail(ts, cur));
        }
    }
}

fn parse_params_at(ts: &[Token], pos: usize) -> (r: Result<(Vec<Identifier>, usize), ParseError>)
    requires
        pos <= ts@.len(),
    ensures
        res_params(view_tokens(ts@), r, p_params(view_tokens(ts@), pos as nat)),
        r matches Ok((_, k)) ==> advanced(view_tokens(ts@), pos as nat, k as nat),
{
    let ghost vt = view_tokens(ts@);
    if at(ts, pos, &Token::RParen) {
        let out: Vec<Identifier> = Vec::new();
        assert(view_idents(out@) =~= Seq::<Seq<char>>::empty());
        return Ok((out, pos + 1));
    }
    if pos >= ts.len() {
        return Err(fail(ts, pos));
    }
    let mut out: Vec<Identifier> = Vec::new();
    match &ts[pos] {
        Token::Ident(name) => {
            out.push(Identifier(name.clone()));
        },
        _ => {
            return Err(fail(ts, pos));
        },
    }
    assert(view_idents(out@) =~= seq![tok(vt, pos as nat)->Ident_0]);
        let mut cur = pos + 1;
    loop
        invariant
            pos < cur <= ts@.len(),
            vt == view_tokens(ts@),
            p_params(vt, pos as nat) == p_params_rest(vt, cur as nat, view_idents(out@)),
        decreases ts@.len() - cur,
    {
        if at(ts, cur, &Token::Comma) {
            if cur + 1 >= ts.len() {
                return Err(fail(ts, cur + 1));
            }
            match &ts[cur + 1] {
                Token::Ident(name) => {
                    let ghost before = out@;
                    out.push(Identifier(name.clone()));
                    assert(view_idents(out@) =~= view_idents(before).push(tok(vt, (cur + 1) as nat)->Ident_0));
                    cur = cur + 2;
                },
                _ => {
                    return Err(fail(ts, cur + 1));
                },
            }
        } else if at(ts, cur, &Token::RParen) {
            return Ok((out, cur + 1));
        } else {
            return Err(fail(ts, cur));
        }
    }
}

fn parse_block_at(ts: &[Token], pos: usize) -> (r: Result<(Vec<Stmt>, usize), ParseError>)
    requires
        pos <= ts@.len(),
    ensures
        res_stmts(view_tokens(ts@), r, p_block(view_tokens(ts@), pos as nat)),
        r matches Ok((_, k)) ==> advanced(view_tokens(ts@), pos as nat, k as nat),
    decreases ts@.len() - pos, 7nat,
{
    let ghost vt = view_tokens(ts@);
    if !at(ts, pos, &Token::LBrace) {
        return Err(fail(ts, pos));
    }
        let mut out: Vec<Stmt> = Vec::new();
    let mut cur = pos + 1;
    assert(view_stmts(out@) =~= Seq::<StmtV>::empty());
    loop
        invariant
            pos < cur <= ts@.len(),
            vt == view_tokens(ts@),
            p_block(vt, pos as nat) == p_stmts(vt, cur as nat, view_stmts(out@)),
        decreases ts@.len() - cur,
    {
        if at(ts, cur, &Token::RBrace) {
            return Ok((out, cur + 1));
        }
        match parse_stmt_at(ts, cur) {
            Err(e) => {
                return Err(e);
            },
            Ok((st, end)) => {
                let ghost before = out@;
                out.push(st);
                assert(out@.subrange(0, out@.len() - 1) =~= before);
                cur = end;
            },
        }
    }
}

fn parse_stmt_at(ts: &[Token], pos: usize) -> (r: Result<(Stmt, usize), ParseError>)
    requires
        pos <= ts@.len(),
    ensures
        res_stmt(view_tokens(ts@), r, p_stmt(view_tokens(ts@), pos as nat)),
        r matches Ok((_, k)) ==> advanced(view_tokens(ts@), pos as nat, k as nat),
    decreases ts@.len() - pos, 6nat,
{
    if at(ts, pos, &Token::Let) {
        if pos + 1 >= ts.len() {
            return Err(fail(ts, pos + 1));
        }
        let name = match &ts[pos + 1] {
            Token::Ident(name) => name.clone(),
            _ => {
                return Err(fail(ts, pos + 1));
            },
        };
        if !at(ts, pos + 2, &Token::Assign) {
            return Err(fail(ts, pos + 2));
        }
        match parse_expr_at(ts, pos + 3, 0) {
            Err(e) => Err(e),
            Ok((e, end)) => {
                let end = skip_semicolon(ts, end);
                Ok((Stmt::LetStmt(Identifier(name), e), end))
            },
        }
    } else if at(ts, pos, &Token::Return) {
        match parse_expr_at(ts, pos + 1, 0) {
            Err(e) => Err(e),
            Ok((e, end)) => {
                let end = skip_semicolon(ts, end);
                Ok((Stmt::ReturnStmt(e), end))
            },
        }
    } else {
        match parse_expr_at(ts, pos, 0) {
            Err(e) => Err(e),
            Ok((e, end)) => {
                let end = skip_semicolon(ts, end);
                Ok((Stmt::ExprStmt(e), end))
            },
        }
    }
}

fn skip_semicolon(ts: &[Token], pos: usize) -> (r: usize)
    requires
        pos <= ts@.len(),
    ensures
        r == skip_semi(view_tokens(ts@), pos as nat),
        pos <= r <= ts@.len(),
{
    if at(ts, pos, &Token::SemiColon) {
        pos + 1
    } else {
        pos
    }
}

fn parse_prefix_at(ts: &[Token], pos: usize) -> (r: Result<(Expr, usize), ParseError>)
    requires
        pos <= ts@.len(),
    ensures
        res_expr(view_tokens(ts@), r, p_prefix(view_tokens(ts@), pos as nat)),
        r matches Ok((_, k)) ==> advanced(view_tokens(ts@), pos as nat, k as nat),
    decreases ts@.len() - pos, 2nat,
{
    if pos >= ts.len() {
        return Err(fail(ts, pos));
    }
    let t = &ts[pos];
    if let Token::Ident(name) = t {
        return Ok((Expr::IdentExpr(Identifier(name.clone())), pos + 1));
    }
    if let Some(lit) = literal_token(t) {
        return Ok((Expr::LiteralExpr(lit), pos + 1));
    }
    if let Some(op) = prefix_of(t) {
        return match parse_expr_at(ts, pos + 1, 5) {
            Err(e) => Err(e),
            Ok((e, end)) => Ok((Expr::PrefixExpr(op, Box::new(e)), end)),
        };
    }
    if t.is(&Token::LParen) {
        return match parse_expr_at(ts, pos + 1, 0) {
            Err(e) => Err(e),
            Ok((e, end)) => if at(ts, end, &Token::RParen) {
                Ok((e, end + 1))
            } else {
                Err(fail(ts, end))
            },
        };
    }
    if t.is(&Token::If) {
        if !at(ts, pos + 1, &Token::LParen) {
            return Err(fail(ts, pos + 1));
        }
        let (cond, e1) = match parse_expr_at(ts, pos + 2, 0) {
            Err(e) => {
                return Err(e);
            },
            Ok(x) => x,
        };
        if !at(ts, e1, &Token::RParen) {
            return Err(fail(ts, e1));
        }
        let (consequence, e2) = match parse_block_at(ts, e1 + 1) {
            Err(e) => {
                return Err(e);
            },
            Ok(x) => x,
        };
        if !at(ts, e2, &Token::Else) {
            return Ok(
                (Expr::IfExpr { cond: Box::new(cond), consequence, alternative: None }, e2),
            );
        }
        return match parse_block_at(ts, e2 + 1) {
            Err(e) => Err(e),
            Ok((alt, e3)) => Ok(
                (
                    Expr::IfExpr { cond: Box::new(cond), consequence, alternative: Some(alt) },
                    e3,
                ),
            ),
        };
    }
    if t.is(&Token::Function) {
        if !at(ts, pos + 1, &Token::LParen) {
            return Err(fail(ts, pos + 1));
        }
        let (parameters, e1) = match parse_params_at(ts, pos + 2) {
            Err(e) => {
                return Err(e);
            },
            Ok(x) => x,
        };
        return match parse_block_at(ts, e1) {
            Err(e) => Err(e),
            Ok((body, e2)) => Ok((Expr::FnExpr { parameters, body }, e2)),
        };
    }
    if t.is(&Token::LBracket) {
        return match parse_list_at(ts, pos + 1, &Token::RBracket) {
            Err(e) => Err(e),
            Ok((items, end)) => Ok((Expr::ArrayExpr(items), end)),
        };
    }
    if t.is(&Token::LBrace) {
        return match parse_pairs_at(ts, pos + 1) {
            Err(e) => Err(e),
            Ok((pairs, end)) => Ok((Expr::HashExpr(pairs), end)),
        };
    }
    Err(fail(ts, pos))
}

} // verus!

verus! {

/// The result of parsing a whole program agrees with `parse_spec`; an error
/// names the offending token.
pub open spec fn res_program(ts: Seq<TokenView>, r: Result<Program, ParseError>) -> bool {
    match r {
        Ok(p) => parse_spec(ts) == Ok::<Seq<StmtV>, nat>(view_stmts(p@)),
        Err(e) => parse_spec(ts) == Err::<Seq<StmtV>, nat>(e.position as nat) && names_token(ts, e),
    }
}

/// The expression at `pos`, with the position after it.
pub fn parse_expr(tokens: Tokens, pos: usize) -> (r: Result<(Expr, usize), ParseError>)
    requires
        pos <= tokens.tokens@.len(),
    ensures
        res_expr(view_tokens(tokens.tokens@), r, p_expr(view_tokens(tokens.tokens@), pos as nat, 0)),
{
    parse_expr_at(tokens.tokens, pos, 0)
}

/// Extends `left` with the calls, indexings and binary operators at `pos` that
/// bind tighter than `precedence`.
pub fn parse_infix(tokens: Tokens, pos: usize, precedence: Precedence, left: Expr) -> (r: Result<
    (Expr, usize),
    ParseError,
>)
    requires
        pos <= tokens.tokens@.len(),
    ensures
        res_expr(
            view_tokens(tokens.tokens@),
            r,
            p_infix(view_tokens(tokens.tokens@), pos as nat, rank(precedence), left@),
        ),
{
    let level = precedence.level();
    parse_infix_at(tokens.tokens, pos, level, left)
}

/// The binary operator at `pos` and its right operand, with `left` as the left one.
pub fn parse_infix_expr(tokens: Tokens, pos: usize, left: Expr) -> (r: Result<(Expr, usize), ParseError>)
    requires
        pos <= tokens.tokens@.len(),
    ensures
        res_expr(view_tokens(tokens.tokens@), r, p_binary(view_tokens(tokens.tokens@), pos as nat, left@)),
{
    parse_binary_at(tokens.tokens, pos, left)
}

/// The program that the tokens spell, up to the end marker.
pub fn parse_program(tokens: Tokens) -> (r: Result<Program, ParseError>)
    ensures
        res_program(view_tokens(tokens.tokens@), r),
{
    parse_program_at(tokens.tokens)
}

fn parse_program_at(ts: &[Token]) -> (r: Result<Program, ParseError>)
    ensures
        res_program(view_tokens(ts@), r),
{
    let ghost vt = view_tokens(ts@);
    let mut out: Vec<Stmt> = Vec::new();
    let mut cur: usize = 0;
    assert(view_stmts(out@) =~= Seq::<StmtV>::empty());
    loop
        invariant
            cur <= ts@.len(),
            vt == view_tokens(ts@),
            parse_spec(vt) == p_program(vt, cur as nat, view_stmts(out@)),
        decreases ts@.len() - cur,
    {
        if at(ts, cur, &Token::EOF) {
            return Ok(out);
        }
        match parse_stmt_at(ts, cur) {
            Err(e) => {
                return Err(e);
            },
            Ok((st, end)) => {
                proof {
                    crate::ast::lemma_view_stmts_push(out@, st);
                }
                out.push(st);
                cur = end;
            },
        }
    }
}

/// The parser.
pub struct Parser;

impl Parser {
    /// Parses a whole program: its statements up to the end marker, or the
    /// offending token and its position.
    pub fn parsing(tokens: Tokens) -> (r: Result<Program, ParseError>)
        ensures
            res_program(view_tokens(tokens.tokens@), r),
    {
        parse_program(tokens)
    }
}

} // verus!
