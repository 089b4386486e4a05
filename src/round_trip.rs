//! Printing a program and reading it back. A program is printed as its
//! canonical tokens (applications, calls and indexings in parentheses, every
//! statement with its semicolon), each spelled and followed by a space. The
//! parser recovers every program from its canonical tokens, and the lexer
//! recovers the tokens from their spelling.
use vstd::prelude::*;
use crate::ast::{
    Expr, ExprV, Identifier, Infix, LitV, Literal, Prefix, Program, Stmt, StmtV, lemma_view_exprs_index,
    lemma_view_pairs_index, lemma_view_stmts_index, view_exprs, view_idents, view_pairs, view_stmts,
};
use crate::laws::{bare_token, int_token};
use crate::lexer::{keyword, keyword_at, starts_with};
use crate::parser::{
    p_block, p_expr, p_infix, p_list, p_list_rest, p_pair, p_pairs, p_pairs_rest,
    p_params, p_params_rest, p_prefix, p_program, p_stmt, p_stmts, parse_spec, tok,
};
use crate::token::{Token, TokenView, view_tokens};

verus! {

pub open spec fn bt(t: Token) -> Seq<TokenView> {
    seq![bare_token(t)]
}

/// The canonical tokens of an expression: every unary and binary
/// application, call and indexing in parentheses.
pub open spec fn ct_expr(e: ExprV) -> Seq<TokenView>
    decreases e, 0nat,
{
    match e {
        ExprV::Ident(n) => seq![TokenView::Ident(n)],
        ExprV::Lit(l) => seq![literal_token(l)],
        ExprV::Prefix(op, x) => bt(Token::LParen) + bt(prefix_token(op)) + ct_expr(*x) + bt(
            Token::RParen,
        ),
        ExprV::Infix(op, l, r) => bt(Token::LParen) + ct_expr(*l) + bt(infix_token(op)) + ct_expr(*r)
            + bt(Token::RParen),
        ExprV::If(c, cons, alt) => bt(Token::If) + bt(Token::LParen) + ct_expr(*c) + bt(Token::RParen)
            + ct_block(cons) + match alt {
            Some(a) => bt(Token::Else) + ct_block(a),
            None => Seq::empty(),
        },
        ExprV::Func(ps, body) => bt(Token::Function) + bt(Token::LParen) + ct_params(ps) + bt(
            Token::RParen,
        ) + ct_block(body),
        ExprV::Array(items) => bt(Token::LBracket) + ct_list(items) + bt(Token::RBracket),
        ExprV::Hash(pairs) => bt(Token::LBrace) + ct_pairs(pairs) + bt(Token::RBrace),
        ExprV::Call(f, args) => bt(Token::LParen) + ct_expr(*f) + bt(Token::LParen) + ct_list(args)
            + bt(Token::RParen) + bt(Token::RParen),
        ExprV::Index(l, i) => bt(Token::LParen) + ct_expr(*l) + bt(Token::LBracket) + ct_expr(*i)
            + bt(Token::RBracket) + bt(Token::RParen),
    }
}

/// Expressions separated by commas.
pub open spec fn ct_list(es: Seq<ExprV>) -> Seq<TokenView>
    decreases es, 1nat,
{
    if es.len() == 0 {
        Seq::empty()
    } else {
        ct_expr(es[0]) + ct_items(es.subrange(1, es.len() as int))
    }
}

/// Expressions, each after a comma.
pub open spec fn ct_items(es: Seq<ExprV>) -> Seq<TokenView>
    decreases es, 1nat,
{
    if es.len() == 0 {
        Seq::empty()
    } else {
        bt(Token::Comma) + ct_expr(es[0]) + ct_items(es.subrange(1, es.len() as int))
    }
}

pub open spec fn ct_pair(p: (LitV, ExprV)) -> Seq<TokenView>
    decreases p, 0nat,
{
    seq![literal_token(p.0)] + bt(Token::Colon) + ct_expr(p.1)
}

/// Hash pairs separated by commas.
pub open spec fn ct_pairs(ps: Seq<(LitV, ExprV)>) -> Seq<TokenView>
    decreases ps, 1nat,
{
    if ps.len() == 0 {
        Seq::empty()
    } else {
        ct_pair(ps[0]) + ct_pair_items(ps.subrange(1, ps.len() as int))
    }
}

pub open spec fn ct_pair_items(ps: Seq<(LitV, ExprV)>) -> Seq<TokenView>
    decreases ps, 1nat,
{
    if ps.len() == 0 {
        Seq::empty()
    } else {
        bt(Token::Comma) + ct_pair(ps[0]) + ct_pair_items(ps.subrange(1, ps.len() as int))
    }
}

/// Parameter names separated by commas.
pub open spec fn ct_params(ps: Seq<Seq<char>>) -> Seq<TokenView> {
    if ps.len() == 0 {
        Seq::empty()
    } else {
        seq![TokenView::Ident(ps[0])] + ct_param_items(ps.subrange(1, ps.len() as int))
    }
}

pub open spec fn ct_param_items(ps: Seq<Seq<char>>) -> Seq<TokenView>
    decreases ps.len(),
{
    if ps.len() == 0 {
        Seq::empty()
    } else {
        bt(Token::Comma) + seq![TokenView::Ident(ps[0])] + ct_param_items(
            ps.subrange(1, ps.len() as int),
        )
    }
}

pub open spec fn ct_block(ss: Seq<StmtV>) -> Seq<TokenView>
    decreases ss, 2nat,
{
    bt(Token::LBrace) + ct_stmts(ss) + bt(Token::RBrace)
}

pub open spec fn ct_stmts(ss: Seq<StmtV>) -> Seq<TokenView>
    decreases ss, 1nat,
{
    if ss.len() == 0 {
        Seq::empty()
    } else {
        ct_stmt(ss[0]) + ct_stmts(ss.subrange(1, ss.len() as int))
    }
}

/// A statement, always with its semicolon.
pub open spec fn ct_stmt(s: StmtV) -> Seq<TokenView>
    decreases s, 0nat,
{
    match s {
        StmtV::Let(n, e) => bt(Token::Let) + seq![TokenView::Ident(n)] + bt(Token::Assign) + ct_expr(e)
            + bt(Token::SemiColon),
        StmtV::Return(e) => bt(Token::Return) + ct_expr(e) + bt(Token::SemiColon),
        StmtV::Expr(e) => ct_expr(e) + bt(Token::SemiColon),
    }
}

/// The canonical tokens of a program, with the end marker.
pub open spec fn ct_program(ss: Seq<StmtV>) -> Seq<TokenView> {
    ct_stmts(ss) + bt(Token::EOF)
}

} // verus!

verus! {

/// The tokens from `pos` on begin with `seg`.
pub open spec fn at_seg(ts: Seq<TokenView>, pos: nat, seg: Seq<TokenView>) -> bool {
    pos + seg.len() <= ts.len() && ts.subrange(pos as int, pos + seg.len() as int) == seg
}

/// Tokens that end an expression in canonical tokens.
pub open spec fn is_stopper(t: TokenView) -> bool {
    t == bare_token(Token::RParen) || t == bare_token(Token::RBracket) || t == bare_token(
        Token::Comma,
    ) || t == bare_token(Token::SemiColon) || t == bare_token(Token::RBrace)
}

/// Tokens that can begin a canonical expression.
pub open spec fn starts_expr(t: TokenView) -> bool {
    t is Ident || t is Str || t == bare_token(Token::LParen) || t == bare_token(Token::If) || t
        == bare_token(Token::Function) || t == bare_token(Token::LBracket) || t == bare_token(
        Token::LBrace,
    ) || (t is Plain && (t->Plain_0 is IntLiteral || t->Plain_0 is BoolLiteral))
}

proof fn lemma_seg_sub(ts: Seq<TokenView>, pos: nat, seg: Seq<TokenView>, off: int, piece: Seq<TokenView>)
    requires
        at_seg(ts, pos, seg),
        0 <= off,
        off + piece.len() <= seg.len(),
        seg.subrange(off, off + piece.len()) == piece,
    ensures
        at_seg(ts, (pos + off) as nat, piece),
{
    assert forall|k: int| 0 <= k < piece.len() implies ts.subrange(pos + off, pos + off + piece.len())[k]
        == piece[k] by {
        assert(ts.subrange(pos as int, pos + seg.len() as int)[off + k] == seg[off + k]);
        assert(seg.subrange(off, off + piece.len())[k] == seg[off + k]);
    }
    assert(ts.subrange(pos + off, pos + off + piece.len()) =~= piece);
}

proof fn lemma_seg_tok(ts: Seq<TokenView>, pos: nat, seg: Seq<TokenView>, k: int)
    requires
        at_seg(ts, pos, seg),
        0 <= k < seg.len(),
    ensures
        tok(ts, (pos + k) as nat) == seg[k],
{
    assert(ts.subrange(pos as int, pos + seg.len() as int)[k] == ts[pos + k]);
}

proof fn lemma_infix_stops(ts: Seq<TokenView>, pos: nat, prec: nat, left: ExprV)
    requires
        is_stopper(tok(ts, pos)),
    ensures
        p_infix(ts, pos, prec, left) == Ok::<(ExprV, nat), nat>((left, pos)),
{
}

proof fn lemma_ct_expr_first(e: ExprV)
    ensures
        ct_expr(e).len() >= 1,
        starts_expr(ct_expr(e)[0]),
{
    match e {
        ExprV::Lit(l) => {},
        _ => {},
    }
}

} // verus!

verus! {

/// An expression in canonical tokens, followed by a token that ends it,
/// parses back to itself at any binding strength.
proof fn lemma_full_expr(ts: Seq<TokenView>, pos: nat, prec: nat, e: ExprV)
    requires
        at_seg(ts, pos, ct_expr(e)),
        is_stopper(tok(ts, pos + ct_expr(e).len())),
    ensures
        p_expr(ts, pos, prec) == Ok::<(ExprV, nat), nat>((e, pos + ct_expr(e).len())),
    decreases e, 2nat,
{
    lemma_ct_expr_first(e);
    lemma_prefix_expr(ts, pos, e);
    lemma_infix_stops(ts, pos + ct_expr(e).len(), prec, e);
}

/// An expression in canonical tokens is read back by `p_prefix`.
proof fn lemma_prefix_expr(ts: Seq<TokenView>, pos: nat, e: ExprV)
    requires
        at_seg(ts, pos, ct_expr(e)),
        tok(ts, pos + ct_expr(e).len()) != bare_token(Token::Else),
    ensures
        p_prefix(ts, pos) == Ok::<(ExprV, nat), nat>((e, pos + ct_expr(e).len())),
    decreases e, 1nat,
{
    lemma_ct_expr_first(e);
    lemma_seg_tok(ts, pos, ct_expr(e), 0);
    match e {
        ExprV::Ident(_) => {},
        ExprV::Lit(_) => {},
        ExprV::Prefix(..) => {
            lemma_prefix_prefix(ts, pos, e);
        },
        ExprV::Infix(..) => {
            lemma_prefix_infix(ts, pos, e);
        },
        ExprV::If(..) => {
            lemma_prefix_if(ts, pos, e);
        },
        ExprV::Func(..) => {
            lemma_prefix_func(ts, pos, e);
        },
        ExprV::Array(..) => {
            lemma_prefix_array(ts, pos, e);
        },
        ExprV::Hash(..) => {
            lemma_prefix_hash(ts, pos, e);
        },
        ExprV::Call(..) => {
            lemma_prefix_call(ts, pos, e);
        },
        ExprV::Index(..) => {
            lemma_prefix_index(ts, pos, e);
        },
    }
}

#[verifier::spinoff_prover]
proof fn lemma_prefix_prefix(ts: Seq<TokenView>, pos: nat, e: ExprV)
    requires
        e is Prefix,
        at_seg(ts, pos, ct_expr(e)),
        tok(ts, pos + ct_expr(e).len()) != bare_token(Token::Else),
    ensures
        p_prefix(ts, pos) == Ok::<(ExprV, nat), nat>((e, pos + ct_expr(e).len())),
    decreases e, 0nat,
{
    let s = ct_expr(e);
    lemma_seg_tok(ts, pos, s, 0);
    if let ExprV::Prefix(op, x) = e {
        let xs = ct_expr(*x);
        let q = (pos + 2 + xs.len()) as nat;
        lemma_seg_tok(ts, pos, s, 1);
        assert(s.subrange(2, (2 + xs.len()) as int) =~= xs);
        lemma_seg_sub(ts, pos, s, 2, xs);
        lemma_seg_tok(ts, pos, s, (2 + xs.len()) as int);
        lemma_full_expr(ts, pos + 2, 5, *x);
        assert(p_prefix(ts, pos + 1) == Ok::<(ExprV, nat), nat>((e, q)));
        lemma_infix_stops(ts, q, 0, e);
        assert(p_expr(ts, pos + 1, 0) == Ok::<(ExprV, nat), nat>((e, q)));
    }
}

#[verifier::spinoff_prover]
proof fn lemma_prefix_infix(ts: Seq<TokenView>, pos: nat, e: ExprV)
    requires
        e is Infix,
        at_seg(ts, pos, ct_expr(e)),
        tok(ts, pos + ct_expr(e).len()) != bare_token(Token::Else),
    ensures
        p_prefix(ts, pos) == Ok::<(ExprV, nat), nat>((e, pos + ct_expr(e).len())),
    decreases e, 0nat,
{
    let s = ct_expr(e);
    lemma_seg_tok(ts, pos, s, 0);
    if let ExprV::Infix(op, l, r) = e {
        let ls = ct_expr(*l);
        let rs = ct_expr(*r);
        let a = pos + 1 + ls.len();
        let b = a + 1 + rs.len();
        assert(s.subrange(1, (1 + ls.len()) as int) =~= ls);
        lemma_seg_sub(ts, pos, s, 1, ls);
        assert(s.subrange((2 + ls.len()) as int, (2 + ls.len() + rs.len()) as int) =~= rs);
        lemma_seg_sub(ts, pos, s, (2 + ls.len()) as int, rs);
        lemma_seg_tok(ts, pos, s, (1 + ls.len()) as int);
        lemma_seg_tok(ts, pos, s, (2 + ls.len() + rs.len()) as int);
        lemma_prefix_expr(ts, pos + 1, *l);
        let p = crate::ast::rank(precedence_spec_of(op));
        lemma_full_expr(ts, a + 1, p, *r);
        lemma_infix_stops(ts, b, 0, e);
        assert(p_infix(ts, a, 0, *l) == Ok::<(ExprV, nat), nat>((e, b)));
    }
}

#[verifier::spinoff_prover]
#[verifier::rlimit(60)]
proof fn lemma_prefix_if(ts: Seq<TokenView>, pos: nat, e: ExprV)
    requires
        e is If,
        at_seg(ts, pos, ct_expr(e)),
        tok(ts, pos + ct_expr(e).len()) != bare_token(Token::Else),
    ensures
        p_prefix(ts, pos) == Ok::<(ExprV, nat), nat>((e, pos + ct_expr(e).len())),
    decreases e, 0nat,
{
    let s = ct_expr(e);
    let end = pos + s.len();
    lemma_seg_tok(ts, pos, s, 0);
    if let ExprV::If(c, cons, alt) = e {
        let cs = ct_expr(*c);
        let bs = ct_block(cons);
        let a = (pos + 2 + cs.len()) as nat;
        let e2 = (a + 1 + bs.len()) as nat;
        lemma_seg_tok(ts, pos, s, 1);
        assert(s.subrange(2, (2 + cs.len()) as int) =~= cs);
        lemma_seg_sub(ts, pos, s, 2, cs);
        lemma_seg_tok(ts, pos, s, (2 + cs.len()) as int);
        lemma_full_expr(ts, pos + 2, 0, *c);
        assert(s.subrange((3 + cs.len()) as int, (3 + cs.len() + bs.len()) as int) =~= bs);
        lemma_seg_sub(ts, pos, s, (3 + cs.len()) as int, bs);
        lemma_block(ts, a + 1, cons);
        assert(p_expr(ts, pos + 2, 0) == Ok::<(ExprV, nat), nat>((*c, a)));
        assert(p_block(ts, a + 1) == Ok::<(Seq<StmtV>, nat), nat>((cons, e2)));
        match alt {
            Some(al) => {
                let als = ct_block(al);
                lemma_seg_tok(ts, pos, s, (3 + cs.len() + bs.len()) as int);
                assert(s.subrange((4 + cs.len() + bs.len()) as int, (4 + cs.len() + bs.len() + als.len()) as int)
                    =~= als);
                lemma_seg_sub(ts, pos, s, (4 + cs.len() + bs.len()) as int, als);
                lemma_block(ts, e2 + 1, al);
                assert(tok(ts, e2) == bare_token(Token::Else));
                assert(end == e2 + 1 + als.len());
            },
            None => {
                assert(e2 == end);
            },
        }
    }
}

#[verifier::spinoff_prover]
proof fn lemma_prefix_func(ts: Seq<TokenView>, pos: nat, e: ExprV)
    requires
        e is Func,
        at_seg(ts, pos, ct_expr(e)),
        tok(ts, pos + ct_expr(e).len()) != bare_token(Token::Else),
    ensures
        p_prefix(ts, pos) == Ok::<(ExprV, nat), nat>((e, pos + ct_expr(e).len())),
    decreases e, 0nat,
{
    let s = ct_expr(e);
    lemma_seg_tok(ts, pos, s, 0);
    if let ExprV::Func(ps, body) = e {
        let pts = ct_params(ps);
        let bs = ct_block(body);
        lemma_seg_tok(ts, pos, s, 1);
        assert(s.subrange(2, (3 + pts.len()) as int) =~= pts + bt(Token::RParen));
        lemma_seg_sub(ts, pos, s, 2, pts + bt(Token::RParen));
        lemma_params(ts, pos + 2, ps);
        assert(s.subrange((3 + pts.len()) as int, (3 + pts.len() + bs.len()) as int) =~= bs);
        lemma_seg_sub(ts, pos, s, (3 + pts.len()) as int, bs);
        lemma_block(ts, pos + 3 + pts.len(), body);
    }
}

#[verifier::spinoff_prover]
proof fn lemma_prefix_array(ts: Seq<TokenView>, pos: nat, e: ExprV)
    requires
        e is Array,
        at_seg(ts, pos, ct_expr(e)),
        tok(ts, pos + ct_expr(e).len()) != bare_token(Token::Else),
    ensures
        p_prefix(ts, pos) == Ok::<(ExprV, nat), nat>((e, pos + ct_expr(e).len())),
    decreases e, 0nat,
{
    let s = ct_expr(e);
    lemma_seg_tok(ts, pos, s, 0);
    if let ExprV::Array(items) = e {
        let ls = ct_list(items);
        assert(s.subrange(1, (2 + ls.len()) as int) =~= ls + bt(Token::RBracket));
        lemma_seg_sub(ts, pos, s, 1, ls + bt(Token::RBracket));
        lemma_list(ts, pos + 1, items, Token::RBracket);
    }
}

#[verifier::spinoff_prover]
proof fn lemma_prefix_hash(ts: Seq<TokenView>, pos: nat, e: ExprV)
    requires
        e is Hash,
        at_seg(ts, pos, ct_expr(e)),
        tok(ts, pos + ct_expr(e).len()) != bare_token(Token::Else),
    ensures
        p_prefix(ts, pos) == Ok::<(ExprV, nat), nat>((e, pos + ct_expr(e).len())),
    decreases e, 0nat,
{
    let s = ct_expr(e);
    lemma_seg_tok(ts, pos, s, 0);
    if let ExprV::Hash(pairs) = e {
        let ps = ct_pairs(pairs);
        assert(s.subrange(1, (2 + ps.len()) as int) =~= ps + bt(Token::RBrace));
        lemma_seg_sub(ts, pos, s, 1, ps + bt(Token::RBrace));
        lemma_pairs(ts, pos + 1, pairs);
    }
}

#[verifier::spinoff_prover]
proof fn lemma_prefix_call(ts: Seq<TokenView>, pos: nat, e: ExprV)
    requires
        e is Call,
        at_seg(ts, pos, ct_expr(e)),
        tok(ts, pos + ct_expr(e).len()) != bare_token(Token::Else),
    ensures
        p_prefix(ts, pos) == Ok::<(ExprV, nat), nat>((e, pos + ct_expr(e).len())),
    decreases e, 0nat,
{
    let s = ct_expr(e);
    lemma_seg_tok(ts, pos, s, 0);
    if let ExprV::Call(f, args) = e {
        let fs = ct_expr(*f);
        let ls = ct_list(args);
        let a = pos + 1 + fs.len();
        let b = a + 1 + ls.len() + 1;
        assert(s.subrange(1, (1 + fs.len()) as int) =~= fs);
        lemma_seg_sub(ts, pos, s, 1, fs);
        lemma_seg_tok(ts, pos, s, (1 + fs.len()) as int);
        lemma_prefix_expr(ts, pos + 1, *f);
        assert(s.subrange((2 + fs.len()) as int, (3 + fs.len() + ls.len()) as int) =~= ls + bt(Token::RParen));
        lemma_seg_sub(ts, pos, s, (2 + fs.len()) as int, ls + bt(Token::RParen));
        lemma_list(ts, a + 1, args, Token::RParen);
        lemma_seg_tok(ts, pos, s, (3 + fs.len() + ls.len()) as int);
        lemma_infix_stops(ts, b, 0, e);
        assert(p_infix(ts, a, 0, *f) == Ok::<(ExprV, nat), nat>((e, b)));
    }
}

#[verifier::spinoff_prover]
proof fn lemma_prefix_index(ts: Seq<TokenView>, pos: nat, e: ExprV)
    requires
        e is Index,
        at_seg(ts, pos, ct_expr(e)),
        tok(ts, pos + ct_expr(e).len()) != bare_token(Token::Else),
    ensures
        p_prefix(ts, pos) == Ok::<(ExprV, nat), nat>((e, pos + ct_expr(e).len())),
    decreases e, 0nat,
{
    let s = ct_expr(e);
    lemma_seg_tok(ts, pos, s, 0);
    if let ExprV::Index(l, i) = e {
        let ls = ct_expr(*l);
        let is = ct_expr(*i);
        let a = pos + 1 + ls.len();
        let b = a + 1 + is.len();
        assert(s.subrange(1, (1 + ls.len()) as int) =~= ls);
        lemma_seg_sub(ts, pos, s, 1, ls);
        lemma_seg_tok(ts, pos, s, (1 + ls.len()) as int);
        lemma_prefix_expr(ts, pos + 1, *l);
        assert(s.subrange((2 + ls.len()) as int, (2 + ls.len() + is.len()) as int) =~= is);
        lemma_seg_sub(ts, pos, s, (2 + ls.len()) as int, is);
        lemma_seg_tok(ts, pos, s, (2 + ls.len() + is.len()) as int);
        lemma_full_expr(ts, a + 1, 0, *i);
        lemma_seg_tok(ts, pos, s, (3 + ls.len() + is.len()) as int);
        lemma_infix_stops(ts, b + 1, 0, e);
        assert(p_infix(ts, a, 0, *l) == Ok::<(ExprV, nat), nat>((e, b + 1)));
    }
}

/// A canonical list of expressions and its closing token.
proof fn lemma_list(ts: Seq<TokenView>, pos: nat, es: Seq<ExprV>, close: Token)
    requires
        close == Token::RParen || close == Token::RBracket,
        at_seg(ts, pos, ct_list(es) + bt(close)),
    ensures
        p_list(ts, pos, close) == Ok::<(Seq<ExprV>, nat), nat>((es, pos + ct_list(es).len() + 1)),
    decreases es, 2nat,
{
    let s = ct_list(es) + bt(close);
    lemma_seg_tok(ts, pos, s, 0);
    if es.len() == 0 {
        assert(es =~= Seq::<ExprV>::empty());
    } else {
        let first = ct_expr(es[0]);
        let rest = es.subrange(1, es.len() as int);
        let rs = ct_items(rest);
        lemma_ct_expr_first(es[0]);
        assert(s.subrange(0, first.len() as int) =~= first);
        lemma_seg_sub(ts, pos, s, 0, first);
        lemma_seg_tok(ts, pos, s, first.len() as int);
        lemma_full_expr(ts, pos, 0, es[0]);
        assert(s.subrange(first.len() as int, s.len() as int) =~= rs + bt(close));
        lemma_seg_sub(ts, pos, s, first.len() as int, rs + bt(close));
        lemma_items(ts, pos + first.len(), rest, close, seq![es[0]]);
        assert(seq![es[0]] + rest =~= es);
    }
}

/// The rest of a canonical list, each item after a comma, and the closing token.
proof fn lemma_items(ts: Seq<TokenView>, pos: nat, es: Seq<ExprV>, close: Token, acc: Seq<ExprV>)
    requires
        close == Token::RParen || close == Token::RBracket,
        at_seg(ts, pos, ct_items(es) + bt(close)),
    ensures
        p_list_rest(ts, pos, close, acc) == Ok::<(Seq<ExprV>, nat), nat>(
            (acc + es, pos + ct_items(es).len() + 1),
        ),
    decreases es, 2nat,
{
    let s = ct_items(es) + bt(close);
    lemma_seg_tok(ts, pos, s, 0);
    if es.len() == 0 {
        assert(acc + es =~= acc);
    } else {
        let first = ct_expr(es[0]);
        let rest = es.subrange(1, es.len() as int);
        let rs = ct_items(rest);
        assert(s.subrange(1, (1 + first.len()) as int) =~= first);
        lemma_seg_sub(ts, pos, s, 1, first);
        lemma_seg_tok(ts, pos, s, (1 + first.len()) as int);
        lemma_ct_expr_first(es[0]);
        lemma_full_expr(ts, pos + 1, 0, es[0]);
        assert(s.subrange((1 + first.len()) as int, s.len() as int) =~= rs + bt(close));
        lemma_seg_sub(ts, pos, s, (1 + first.len()) as int, rs + bt(close));
        lemma_items(ts, pos + 1 + first.len(), rest, close, acc.push(es[0]));
        assert(acc.push(es[0]) + rest =~= acc + es);
    }
}

/// One canonical hash pair, followed by a token that ends its value.
proof fn lemma_pair(ts: Seq<TokenView>, pos: nat, p: (LitV, ExprV))
    requires
        at_seg(ts, pos, ct_pair(p)),
        is_stopper(tok(ts, pos + ct_pair(p).len())),
    ensures
        p_pair(ts, pos) == Ok::<((LitV, ExprV), nat), nat>((p, pos + ct_pair(p).len())),
    decreases p, 1nat,
{
    let s = ct_pair(p);
    let vs = ct_expr(p.1);
    lemma_seg_tok(ts, pos, s, 0);
    lemma_seg_tok(ts, pos, s, 1);
    assert(s.subrange(2, (2 + vs.len()) as int) =~= vs);
    lemma_seg_sub(ts, pos, s, 2, vs);
    lemma_full_expr(ts, pos + 2, 0, p.1);
}

/// Canonical hash pairs and the closing brace.
proof fn lemma_pairs(ts: Seq<TokenView>, pos: nat, ps: Seq<(LitV, ExprV)>)
    requires
        at_seg(ts, pos, ct_pairs(ps) + bt(Token::RBrace)),
    ensures
        p_pairs(ts, pos) == Ok::<(Seq<(LitV, ExprV)>, nat), nat>(
            (ps, pos + ct_pairs(ps).len() + 1),
        ),
    decreases ps, 2nat,
{
    let s = ct_pairs(ps) + bt(Token::RBrace);
    lemma_seg_tok(ts, pos, s, 0);
    if ps.len() == 0 {
        assert(ps =~= Seq::<(LitV, ExprV)>::empty());
    } else {
        let first = ct_pair(ps[0]);
        let rest = ps.subrange(1, ps.len() as int);
        let rs = ct_pair_items(rest);
        assert(s.subrange(0, first.len() as int) =~= first);
        lemma_seg_sub(ts, pos, s, 0, first);
        lemma_seg_tok(ts, pos, s, first.len() as int);
        lemma_pair(ts, pos, ps[0]);
        assert(s.subrange(first.len() as int, s.len() as int) =~= rs + bt(Token::RBrace));
        lemma_seg_sub(ts, pos, s, first.len() as int, rs + bt(Token::RBrace));
        lemma_pair_items(ts, pos + first.len(), rest, seq![ps[0]]);
        assert(seq![ps[0]] + rest =~= ps);
    }
}

proof fn lemma_pair_items(ts: Seq<TokenView>, pos: nat, ps: Seq<(LitV, ExprV)>, acc: Seq<(LitV, ExprV)>)
    requires
        at_seg(ts, pos, ct_pair_items(ps) + bt(Token::RBrace)),
    ensures
        p_pairs_rest(ts, pos, acc) == Ok::<(Seq<(LitV, ExprV)>, nat), nat>(
            (acc + ps, pos + ct_pair_items(ps).len() + 1),
        ),
    decreases ps, 2nat,
{
    let s = ct_pair_items(ps) + bt(Token::RBrace);
    lemma_seg_tok(ts, pos, s, 0);
    if ps.len() == 0 {
        assert(acc + ps =~= acc);
    } else {
        let first = ct_pair(ps[0]);
        let rest = ps.subrange(1, ps.len() as int);
        let rs = ct_pair_items(rest);
        assert(s.subrange(1, (1 + first.len()) as int) =~= first);
        lemma_seg_sub(ts, pos, s, 1, first);
        lemma_seg_tok(ts, pos, s, (1 + first.len()) as int);
        lemma_pair(ts, pos + 1, ps[0]);
        assert(s.subrange((1 + first.len()) as int, s.len() as int) =~= rs + bt(Token::RBrace));
        lemma_seg_sub(ts, pos, s, (1 + first.len()) as int, rs + bt(Token::RBrace));
        lemma_pair_items(ts, pos + 1 + first.len(), rest, acc.push(ps[0]));
        assert(acc.push(ps[0]) + rest =~= acc + ps);
    }
}

/// A canonical block.
proof fn lemma_block(ts: Seq<TokenView>, pos: nat, ss: Seq<StmtV>)
    requires
        at_seg(ts, pos, ct_block(ss)),
    ensures
        p_block(ts, pos) == Ok::<(Seq<StmtV>, nat), nat>((ss, pos + ct_block(ss).len())),
    decreases ss, 3nat,
{
    let s = ct_block(ss);
    let body = ct_stmts(ss);
    lemma_seg_tok(ts, pos, s, 0);
    assert(s.subrange(1, s.len() as int) =~= body + bt(Token::RBrace));
    lemma_seg_sub(ts, pos, s, 1, body + bt(Token::RBrace));
    lemma_stmts(ts, pos + 1, ss, Seq::empty());
    assert(Seq::<StmtV>::empty() + ss =~= ss);
}

/// Canonical statements up to a closing brace.
proof fn lemma_stmts(ts: Seq<TokenView>, pos: nat, ss: Seq<StmtV>, acc: Seq<StmtV>)
    requires
        at_seg(ts, pos, ct_stmts(ss) + bt(Token::RBrace)),
    ensures
        p_stmts(ts, pos, acc) == Ok::<(Seq<StmtV>, nat), nat>(
            (acc + ss, pos + ct_stmts(ss).len() + 1),
        ),
    decreases ss, 2nat,
{
    let s = ct_stmts(ss) + bt(Token::RBrace);
    lemma_seg_tok(ts, pos, s, 0);
    if ss.len() == 0 {
        assert(acc + ss =~= acc);
    } else {
        let first = ct_stmt(ss[0]);
        let rest = ss.subrange(1, ss.len() as int);
        let rs = ct_stmts(rest);
        lemma_ct_stmt_first(ss[0]);
        assert(s.subrange(0, first.len() as int) =~= first);
        lemma_seg_sub(ts, pos, s, 0, first);
        lemma_stmt(ts, pos, ss[0]);
        assert(s.subrange(first.len() as int, s.len() as int) =~= rs + bt(Token::RBrace));
        lemma_seg_sub(ts, pos, s, first.len() as int, rs + bt(Token::RBrace));
        lemma_stmts(ts, pos + first.len(), rest, acc.push(ss[0]));
        assert(acc.push(ss[0]) + rest =~= acc + ss);
    }
}

proof fn lemma_ct_stmt_first(s: StmtV)
    ensures
        ct_stmt(s).len() >= 2,
        ct_stmt(s)[0] != bare_token(Token::RBrace),
        ct_stmt(s)[0] != bare_token(Token::EOF),
{
    match s {
        StmtV::Expr(e) => {
            lemma_ct_expr_first(e);
        },
        _ => {},
    }
}

/// A canonical statement.
proof fn lemma_stmt(ts: Seq<TokenView>, pos: nat, st: StmtV)
    requires
        at_seg(ts, pos, ct_stmt(st)),
    ensures
        p_stmt(ts, pos) == Ok::<(StmtV, nat), nat>((st, pos + ct_stmt(st).len())),
    decreases st, 0nat,
{
    let s = ct_stmt(st);
    lemma_seg_tok(ts, pos, s, 0);
    match st {
        StmtV::Let(n, e) => {
            let es = ct_expr(e);
            lemma_seg_tok(ts, pos, s, 1);
            lemma_seg_tok(ts, pos, s, 2);
            assert(s.subrange(3, (3 + es.len()) as int) =~= es);
            lemma_seg_sub(ts, pos, s, 3, es);
            lemma_seg_tok(ts, pos, s, (3 + es.len()) as int);
            lemma_full_expr(ts, pos + 3, 0, e);
        },
        StmtV::Return(e) => {
            let es = ct_expr(e);
            assert(s.subrange(1, (1 + es.len()) as int) =~= es);
            lemma_seg_sub(ts, pos, s, 1, es);
            lemma_seg_tok(ts, pos, s, (1 + es.len()) as int);
            lemma_full_expr(ts, pos + 1, 0, e);
        },
        StmtV::Expr(e) => {
            let es = ct_expr(e);
            lemma_ct_expr_first(e);
            assert(s.subrange(0, es.len() as int) =~= es);
            lemma_seg_sub(ts, pos, s, 0, es);
            lemma_seg_tok(ts, pos, s, es.len() as int);
            lemma_full_expr(ts, pos, 0, e);
        },
    }
}

/// Canonical parameter names and the closing parenthesis.
proof fn lemma_params(ts: Seq<TokenView>, pos: nat, ps: Seq<Seq<char>>)
    requires
        at_seg(ts, pos, ct_params(ps) + bt(Token::RParen)),
    ensures
        p_params(ts, pos) == Ok::<(Seq<Seq<char>>, nat), nat>((ps, pos + ct_params(ps).len() + 1)),
{
    let s = ct_params(ps) + bt(Token::RParen);
    lemma_seg_tok(ts, pos, s, 0);
    if ps.len() == 0 {
        assert(ps =~= Seq::<Seq<char>>::empty());
    } else {
        let rest = ps.subrange(1, ps.len() as int);
        let rs = ct_param_items(rest);
        assert(s.subrange(1, s.len() as int) =~= rs + bt(Token::RParen));
        lemma_seg_sub(ts, pos, s, 1, rs + bt(Token::RParen));
        lemma_param_items(ts, pos + 1, rest, seq![ps[0]]);
        assert(seq![ps[0]] + rest =~= ps);
    }
}

proof fn lemma_param_items(ts: Seq<TokenView>, pos: nat, ps: Seq<Seq<char>>, acc: Seq<Seq<char>>)
    requires
        at_seg(ts, pos, ct_param_items(ps) + bt(Token::RParen)),
    ensures
        p_params_rest(ts, pos, acc) == Ok::<(Seq<Seq<char>>, nat), nat>(
            (acc + ps, pos + ct_param_items(ps).len() + 1),
        ),
    decreases ps.len(),
{
    let s = ct_param_items(ps) + bt(Token::RParen);
    lemma_seg_tok(ts, pos, s, 0);
    if ps.len() == 0 {
        assert(acc + ps =~= acc);
    } else {
        let rest = ps.subrange(1, ps.len() as int);
        let rs = ct_param_items(rest);
        lemma_seg_tok(ts, pos, s, 1);
        assert(s.subrange(2, s.len() as int) =~= rs + bt(Token::RParen));
        lemma_seg_sub(ts, pos, s, 2, rs + bt(Token::RParen));
        lemma_param_items(ts, pos + 2, rest, acc.push(ps[0]));
        assert(acc.push(ps[0]) + rest =~= acc + ps);
    }
}

/// Canonical statements up to the end marker.
proof fn lemma_program(ts: Seq<TokenView>, pos: nat, ss: Seq<StmtV>, acc: Seq<StmtV>)
    requires
        at_seg(ts, pos, ct_stmts(ss) + bt(Token::EOF)),
    ensures
        p_program(ts, pos, acc) == Ok::<Seq<StmtV>, nat>(acc + ss),
    decreases ss.len(),
{
    let s = ct_stmts(ss) + bt(Token::EOF);
    lemma_seg_tok(ts, pos, s, 0);
    if ss.len() == 0 {
        assert(acc + ss =~= acc);
    } else {
        let first = ct_stmt(ss[0]);
        let rest = ss.subrange(1, ss.len() as int);
        let rs = ct_stmts(rest);
        lemma_ct_stmt_first(ss[0]);
        assert(s.subrange(0, first.len() as int) =~= first);
        lemma_seg_sub(ts, pos, s, 0, first);
        lemma_stmt(ts, pos, ss[0]);
        assert(s.subrange(first.len() as int, s.len() as int) =~= rs + bt(Token::EOF));
        lemma_seg_sub(ts, pos, s, first.len() as int, rs + bt(Token::EOF));
        lemma_program(ts, pos + first.len(), rest, acc.push(ss[0]));
        assert(acc.push(ss[0]) + rest =~= acc + ss);
    }
}

/// The parser reads every program back from its canonical tokens.
pub proof fn law_canonical_tokens_parse_back(ss: Seq<StmtV>)
    ensures
        parse_spec(ct_program(ss)) == Ok::<Seq<StmtV>, nat>(ss),
{
    let ts = ct_program(ss);
    assert(ts.subrange(0, ts.len() as int) =~= ts);
    lemma_program(ts, 0, ss, Seq::empty());
    assert(Seq::<StmtV>::empty() + ss =~= ss);
}

} // verus!

verus! {

/// Every token of the program's canonical form has a spelling: its names
/// are identifiers that do not start with a keyword, and its integers are
/// not negative (as in any program the lexer and parser produce).
pub open spec fn is_spellable_program(ss: Seq<StmtV>) -> bool {
    forall|k: int| 0 <= k < ct_stmts(ss).len() ==> spelled_token(#[trigger] ct_stmts(ss)[k])
}

/// The printed form of a program: its canonical tokens, each spelled and
/// followed by a space.
pub open spec fn printed(ss: Seq<StmtV>) -> Seq<u8> {
    spell(ct_stmts(ss))
}

/// Print and re-read: the printed form of a program (what `print_program`
/// returns) lexes to its canonical tokens, which parse back to the same
/// program.
pub proof fn law_print_then_reparse(ss: Seq<StmtV>)
    requires
        is_spellable_program(ss),
    ensures
        crate::lexer::lex_spec(printed(ss)) == Ok::<Seq<TokenView>, crate::lexer::LexError>(
            ct_program(ss),
        ),
        parse_spec(ct_program(ss)) == Ok::<Seq<StmtV>, nat>(ss),
{
    let b = printed(ss);
    assert(b.subrange(0, b.len() as int) =~= b);
    lemma_spell_lexes(b, 0, ct_stmts(ss));
    assert(ct_stmts(ss).push(bare_token(Token::EOF)) =~= ct_program(ss));
    law_canonical_tokens_parse_back(ss);
}

} // verus!

verus! {

pub open spec fn infix_token(op: Infix) -> Token {
    match op {
        Infix::Plus => Token::Plus,
        Infix::Minus => Token::Minus,
        Infix::Divide => Token::Divide,
        Infix::Multiply => Token::Multiply,
        Infix::Equal => Token::Equal,
        Infix::NotEqual => Token::NotEqual,
        Infix::GreaterThanEqual => Token::GreaterThanEqual,
        Infix::LessThanEqual => Token::LessThanEqual,
        Infix::GreaterThan => Token::GreaterThan,
        Infix::LessThan => Token::LessThan,
    }
}

pub open spec fn prefix_token(op: crate::ast::Prefix) -> Token {
    match op {
        crate::ast::Prefix::Plus => Token::Plus,
        crate::ast::Prefix::Minus => Token::Minus,
        crate::ast::Prefix::Not => Token::Not,
    }
}

pub open spec fn literal_token(l: LitV) -> TokenView {
    match l {
        LitV::Int(i) => int_token(i),
        LitV::Bool(b) => bare_token(Token::BoolLiteral(b)),
        LitV::Str(s) => TokenView::Str(s),
    }
}

pub open spec fn precedence_spec_of(op: Infix) -> crate::ast::Precedence {
    crate::ast::precedence_spec(bare_token(infix_token(op))).0
}

} // verus!

verus! {

/// The decimal digits of `n` as ASCII bytes.
pub open spec fn decimal_bytes(n: nat) -> Seq<u8>
    decreases n,
{
    if n < 10 {
        seq![(48 + n) as u8]
    } else {
        decimal_bytes(n / 10).push((48 + n % 10) as u8)
    }
}

/// The spelling of a token of arithmetic and boolean expressions.
pub open spec fn token_bytes(t: TokenView) -> Seq<u8> {
    match t {
        TokenView::Plain(tok) => match tok {
            Token::LParen => seq![40u8],
            Token::RParen => seq![41u8],
            Token::Plus => seq![43u8],
            Token::Minus => seq![45u8],
            Token::Multiply => seq![42u8],
            Token::Divide => seq![47u8],
            Token::Not => seq![33u8],
            Token::Equal => seq![61u8, 61],
            Token::NotEqual => seq![33u8, 61],
            Token::LessThan => seq![60u8],
            Token::LessThanEqual => seq![60u8, 61],
            Token::GreaterThan => seq![62u8],
            Token::GreaterThanEqual => seq![62u8, 61],
            Token::Comma => seq![44u8],
            Token::Colon => seq![58u8],
            Token::SemiColon => seq![59u8],
            Token::LBracket => seq![91u8],
            Token::RBracket => seq![93u8],
            Token::LBrace => seq![123u8],
            Token::RBrace => seq![125u8],
            Token::Assign => seq![61u8],
            Token::Let => keyword(0).0,
            Token::Function => keyword(1).0,
            Token::If => keyword(2).0,
            Token::Else => keyword(3).0,
            Token::Return => keyword(4).0,
            Token::BoolLiteral(true) => keyword(5).0,
            Token::BoolLiteral(false) => keyword(6).0,
            Token::IntLiteral(i) => decimal_bytes(i as nat),
            _ => Seq::empty(),
        },
        TokenView::Ident(n) => vstd::utf8::encode_utf8(n),
        TokenView::Str(text) => seq![34u8] + escaped(vstd::utf8::encode_utf8(text))
            + seq![34u8],
    }
}

/// Bytes with a backslash before each quote and backslash.
pub open spec fn escaped(x: Seq<u8>) -> Seq<u8>
    decreases x.len(),
{
    if x.len() == 0 {
        Seq::empty()
    } else {
        (if x[0] == 34 || x[0] == 92 {
            seq![92u8, x[0]]
        } else {
            seq![x[0]]
        }) + escaped(x.subrange(1, x.len() as int))
    }
}

/// The body of a literal spelled with `escaped` reads back as the bytes.
proof fn lemma_string_body_escaped(b: Seq<u8>, j: nat, x: Seq<u8>)
    requires
        j + escaped(x).len() < b.len(),
        b.subrange(j as int, j + escaped(x).len() as int) == escaped(x),
        b[j + escaped(x).len() as int] == 34,
    ensures
        crate::lexer::string_body(b, j) == Some((x, (j + escaped(x).len() + 1) as nat)),
    decreases x.len(),
{
    let ex = escaped(x);
    assert forall|m: int| 0 <= m < ex.len() implies #[trigger] b[j + m] == ex[m] by {
        assert(b.subrange(j as int, j + ex.len() as int)[m] == b[j + m]);
    }
    if x.len() == 0 {
        assert(x =~= Seq::<u8>::empty());
    } else {
        let rest = x.subrange(1, x.len() as int);
        let er = escaped(rest);
        let w: nat = if x[0] == 34 || x[0] == 92 { 2 } else { 1 };
        assert(ex.len() == w + er.len());
        assert(b.subrange((j + w) as int, (j + w + er.len()) as int) =~= er) by {
            assert forall|m: int| 0 <= m < er.len() implies b.subrange((j + w) as int, (j + w + er.len()) as int)[m] == er[m] by {
                assert(b[j + (m + w)] == ex[m + w]);
            }
        }
        assert(b[(j + w + er.len()) as int] == 34);
        lemma_string_body_escaped(b, j + w, rest);
        assert(b[j as int] == ex[0]);
        if w == 2 {
            assert(b[j + 1int] == ex[1]);
        }
        assert(seq![x[0]] + rest =~= x);
    }
}

/// A name that reads back as one identifier: ASCII identifier characters,
/// not starting with a digit, and not starting with the spelling of a keyword.
pub open spec fn spellable_name(n: Seq<char>) -> bool {
    &&& n.len() >= 1
    &&& vstd::utf8::is_ascii_chars(n)
    &&& forall|k: int| 0 <= k < n.len() ==> crate::lexer::is_ident_byte(#[trigger] n[k] as u8)
    &&& crate::lexer::is_ident_start(n[0] as u8)
    &&& keyword_at(vstd::utf8::encode_utf8(n).push(32u8), 0, 0) is None
}

/// The tokens that `token_bytes` spells: parentheses, operators, booleans and
/// non-negative integers.
pub open spec fn spelled_token(t: TokenView) -> bool {
    match t {
        TokenView::Plain(tok) => match tok {
            Token::IntLiteral(i) => i >= 0,
            Token::LParen | Token::RParen | Token::Plus
            | Token::Minus | Token::Multiply
            | Token::Divide | Token::Not | Token::Equal
            | Token::NotEqual | Token::LessThan
            | Token::LessThanEqual | Token::GreaterThan
            | Token::GreaterThanEqual | Token::BoolLiteral(_)
            | Token::Comma | Token::Colon
            | Token::SemiColon | Token::LBracket
            | Token::RBracket | Token::LBrace
            | Token::RBrace | Token::Assign | Token::Let
            | Token::Function | Token::If | Token::Else
            | Token::Return => true,
            _ => false,
        },
        TokenView::Ident(n) => spellable_name(n),
        TokenView::Str(_) => true,
    }
}

/// Tokens written out, each followed by a space.
pub open spec fn spell(ts: Seq<TokenView>) -> Seq<u8>
    decreases ts.len(),
{
    if ts.len() == 0 {
        Seq::empty()
    } else {
        token_bytes(ts[0]) + seq![32u8] + spell(ts.subrange(1, ts.len() as int))
    }
}

proof fn lemma_decimal_bytes(n: nat)
    ensures
        decimal_bytes(n).len() >= 1,
        forall|k: int| 0 <= k < decimal_bytes(n).len() ==> crate::lexer::is_digit(
            #[trigger] decimal_bytes(n)[k],
        ),
    decreases n,
{
    if n >= 10 {
        lemma_decimal_bytes(n / 10);
    }
}

/// A run of digits spelled by `decimal_bytes(n)` has the value `n`.
proof fn lemma_decimal_value(b: Seq<u8>, i: int, n: nat)
    requires
        0 <= i,
        i + decimal_bytes(n).len() <= b.len(),
        b.subrange(i, i + decimal_bytes(n).len()) == decimal_bytes(n),
    ensures
        crate::lexer::digits_value(b, i, i + decimal_bytes(n).len()) == n,
    decreases n,
{
    let d = decimal_bytes(n);
    let j = i + d.len();
    assert(b[j - 1] == d[d.len() - 1]) by {
        assert(b.subrange(i, j)[d.len() - 1] == b[j - 1]);
    }
    assert(crate::lexer::digits_value(b, i, i) == 0);
    if n < 10 {
        assert(d[0] == (48 + n) as u8);
        assert(((48 + n) as u8) as int == 48 + n);
        assert(crate::lexer::digits_value(b, i, i + 1) == crate::lexer::digits_value(b, i, i) * 10 + (b[i] - 48));
    } else {
        let p = decimal_bytes(n / 10);
        assert(d.len() == p.len() + 1);
        assert(d[d.len() - 1] == (48 + n % 10) as u8);
        assert(((48 + n % 10) as u8) as int == 48 + n % 10);
        assert(b.subrange(i, i + p.len()) =~= p) by {
            assert forall|k: int| 0 <= k < p.len() implies b.subrange(i, i + p.len())[k] == p[k] by {
                assert(b.subrange(i, j)[k] == b[i + k]);
            }
        }
        lemma_decimal_value(b, i, n / 10);
        assert((n / 10) * 10 + n % 10 == n) by (nonlinear_arith);
    }
}

/// The digits end where the spelled run does, before a space.
proof fn lemma_digits_end_at(b: Seq<u8>, i: nat, j: nat)
    requires
        i <= j < b.len(),
        forall|k: int| i <= k < j ==> crate::lexer::is_digit(#[trigger] b[k]),
        b[j as int] == 32,
    ensures
        crate::lexer::digits_end(b, i) == j,
    decreases j - i,
{
    if i < j {
        lemma_digits_end_at(b, i + 1, j);
    }
}

proof fn lemma_starts_with_first(b: Seq<u8>, i: nat, w: Seq<u8>)
    requires
        w.len() >= 2,
        crate::lexer::starts_with(b, i, w),
    ensures
        b[i as int] == w[0],
        b[i + 1int] == w[1],
{
    assert(b.subrange(i as int, (i + w.len()) as int)[0] == b[i as int]);
    assert(b.subrange(i as int, (i + w.len()) as int)[1] == b[i + 1int]);
}

/// The identifier bytes end where the spelled name does, before a space.
proof fn lemma_ident_end_at(b: Seq<u8>, i: nat, j: nat)
    requires
        i <= j < b.len(),
        forall|k: int| i <= k < j ==> crate::lexer::is_ident_byte(#[trigger] b[k]),
        b[j as int] == 32,
    ensures
        crate::lexer::ident_end(b, i) == j,
    decreases j - i,
{
    if i < j {
        lemma_ident_end_at(b, i + 1, j);
    }
}

/// Whether a keyword is spelled at `i` depends only on the bytes up to the
/// next space, since no keyword holds a space.
proof fn lemma_keyword_window(b: Seq<u8>, i: nat, win: Seq<u8>, k: nat)
    requires
        k < 7,
        win.len() >= 1,
        i + win.len() <= b.len(),
        b.subrange(i as int, i + win.len() as int) == win,
        win.last() == 32,
    ensures
        starts_with(b, i, keyword(k).0) == starts_with(win, 0, keyword(k).0),
{
    let w = keyword(k).0;
    assert forall|m: int| 0 <= m < win.len() implies #[trigger] b[i + m] == win[m] by {
        assert(b.subrange(i as int, i + win.len() as int)[m] == b[i + m]);
    }
    if w.len() <= win.len() {
        assert(b.subrange(i as int, i + w.len() as int) =~= win.subrange(0, w.len() as int));
    } else {
        assert(b[i + (win.len() - 1)] == 32);
        if starts_with(b, i, w) {
            assert(b.subrange(i as int, i + w.len() as int)[win.len() - 1] == b[i + (win.len() - 1)]);
        }
    }
}

proof fn lemma_keyword_at_window(b: Seq<u8>, i: nat, win: Seq<u8>)
    requires
        win.len() >= 1,
        i + win.len() <= b.len(),
        b.subrange(i as int, i + win.len() as int) == win,
        win.last() == 32,
        keyword_at(win, 0, 0) is None,
    ensures
        keyword_at(b, i, 0) is None,
{
    lemma_keyword_window(b, i, win, 0);
    lemma_keyword_window(b, i, win, 1);
    lemma_keyword_window(b, i, win, 2);
    lemma_keyword_window(b, i, win, 3);
    lemma_keyword_window(b, i, win, 4);
    lemma_keyword_window(b, i, win, 5);
    lemma_keyword_window(b, i, win, 6);
    assert(keyword_at(win, 0, 1) is None);
    assert(keyword_at(win, 0, 2) is None);
    assert(keyword_at(win, 0, 3) is None);
    assert(keyword_at(win, 0, 4) is None);
    assert(keyword_at(win, 0, 5) is None);
    assert(keyword_at(win, 0, 6) is None);
    assert(keyword_at(b, i, 7) is None);
    assert(keyword_at(b, i, 6) is None);
    assert(keyword_at(b, i, 5) is None);
    assert(keyword_at(b, i, 4) is None);
    assert(keyword_at(b, i, 3) is None);
    assert(keyword_at(b, i, 2) is None);
    assert(keyword_at(b, i, 1) is None);
}

proof fn lemma_keyword_from(b: Seq<u8>, i: nat, k: nat, m: nat)
    requires
        k <= m < 7,
        forall|j: nat| k <= j < m ==> !starts_with(b, i, #[trigger] keyword(j).0),
    ensures
        keyword_at(b, i, k) == keyword_at(b, i, m),
    decreases m - k,
{
    if k < m {
        lemma_keyword_from(b, i, k + 1, m);
    }
}

/// The spelling of the `m`-th keyword reads back as that keyword.
proof fn lemma_keyword_spelled(b: Seq<u8>, i: nat, m: nat)
    requires
        m < 7,
        i + keyword(m).0.len() <= b.len(),
        b.subrange(i as int, i + keyword(m).0.len() as int) == keyword(m).0,
    ensures
        keyword_at(b, i, 0) == Some((keyword(m).1, i + keyword(m).0.len())),
{
    let w = keyword(m).0;
    assert(b[i as int] == w[0]) by {
        assert(b.subrange(i as int, i + w.len() as int)[0] == b[i as int]);
    }
    assert(b[i + 1int] == w[1]) by {
        assert(b.subrange(i as int, i + w.len() as int)[1] == b[i + 1int]);
    }
    assert forall|j: nat| 0 <= j < m implies !starts_with(b, i, #[trigger] keyword(j).0) by {
        if starts_with(b, i, keyword(j).0) {
            lemma_starts_with_first(b, i, keyword(j).0);
        }
    }
    lemma_keyword_from(b, i, 0, m);
}

/// A spelled token followed by a space is read back as that token.
proof fn lemma_token_spelled(b: Seq<u8>, i: nat, t: TokenView)
    requires
        spelled_token(t),
        i + token_bytes(t).len() < b.len(),
        b.subrange(i as int, i + token_bytes(t).len() as int) == token_bytes(t),
        b[i + token_bytes(t).len() as int] == 32,
    ensures
        token_bytes(t).len() >= 1,
        !crate::lexer::is_space(b[i as int]),
        crate::lexer::token_at(b, i) == Ok::<(TokenView, nat), crate::lexer::LexError>(
            (t, i + token_bytes(t).len()),
        ),
{
    let tb = token_bytes(t);
    if let TokenView::Ident(n) = t {
        vstd::utf8::is_ascii_chars_encode_utf8(n);
        assert forall|k: int| 0 <= k < tb.len() implies #[trigger] b[i + k] == tb[k] by {
            assert(b.subrange(i as int, i + tb.len() as int)[k] == b[i + k]);
        }
        assert(b[i as int] == n[0] as u8);
        let win = tb.push(32u8);
        assert(b.subrange(i as int, i + win.len() as int) =~= win) by {
            assert forall|k: int| 0 <= k < win.len() implies b.subrange(i as int, i + win.len() as int)[k]
                == win[k] by {
                if k < tb.len() {
                    assert(b[i + k] == tb[k]);
                }
            }
        }
        lemma_keyword_at_window(b, i, win);
        assert forall|k: int| i <= k < i + tb.len() implies crate::lexer::is_ident_byte(#[trigger] b[k]) by {
            assert(b[i + (k - i)] == tb[k - i]);
            assert(tb[k - i] == n[k - i] as u8);
        }
        lemma_ident_end_at(b, i, i + tb.len());
        assert(b.subrange(i as int, i + tb.len() as int) == vstd::utf8::encode_utf8(n));
        vstd::utf8::encode_utf8_decode_utf8(n);
        return;
    }
    if let TokenView::Str(text) = t {
        let body = vstd::utf8::encode_utf8(text);
        let ex = escaped(body);
        assert forall|k: int| 0 <= k < tb.len() implies #[trigger] b[i + k] == tb[k] by {
            assert(b.subrange(i as int, i + tb.len() as int)[k] == b[i + k]);
        }
        assert(tb.len() == ex.len() + 2);
        assert(b[i as int] == tb[0]);
        assert(b.subrange(i + 1int, (i + 1 + ex.len()) as int) =~= ex) by {
            assert forall|m: int| 0 <= m < ex.len() implies b.subrange(i + 1int, (i + 1 + ex.len()) as int)[m] == ex[m] by {
                assert(b[i + (m + 1)] == tb[m + 1]);
            }
        }
        assert(b[i + (ex.len() + 1) as int] == tb[ex.len() + 1int]);
        lemma_string_body_escaped(b, i + 1, body);
        vstd::utf8::encode_utf8_valid_utf8(text);
        vstd::utf8::encode_utf8_decode_utf8(text);
        return;
    }
    let tok = t->Plain_0;
    if let Token::IntLiteral(v) = tok {
        lemma_decimal_bytes(v as nat);
    }
    assert forall|k: int| 0 <= k < tb.len() implies #[trigger] b[i + k] == tb[k] by {
        assert(b.subrange(i as int, i + tb.len() as int)[k] == b[i + k]);
    }
    assert(b[i as int] == tb[0]);
    if tb.len() > 1 {
        assert(b[i + 1int] == tb[1]);
    }
    match tok {
        Token::Let => {
            lemma_keyword_spelled(b, i, 0);
        },
        Token::Function => {
            lemma_keyword_spelled(b, i, 1);
        },
        Token::If => {
            lemma_keyword_spelled(b, i, 2);
        },
        Token::Else => {
            lemma_keyword_spelled(b, i, 3);
        },
        Token::Return => {
            lemma_keyword_spelled(b, i, 4);
        },
        Token::BoolLiteral(v) => {
            lemma_keyword_spelled(b, i, if v { 5 } else { 6 });
        },
        Token::IntLiteral(v) => {
            let n = v as nat;
            assert forall|k: nat| k < 7 implies !starts_with(b, i, #[trigger] keyword(k).0) by {
                if starts_with(b, i, keyword(k).0) {
                    lemma_starts_with_first(b, i, keyword(k).0);
                }
            }
            assert(!starts_with(b, i, keyword(0).0));
            assert(!starts_with(b, i, keyword(1).0));
            assert(!starts_with(b, i, keyword(2).0));
            assert(!starts_with(b, i, keyword(3).0));
            assert(!starts_with(b, i, keyword(4).0));
            assert(!starts_with(b, i, keyword(5).0));
            assert(!starts_with(b, i, keyword(6).0));
            assert(keyword_at(b, i, 7) is None);
            assert(keyword_at(b, i, 6) is None);
            assert(keyword_at(b, i, 5) is None);
            assert(keyword_at(b, i, 4) is None);
            assert(keyword_at(b, i, 3) is None);
            assert(keyword_at(b, i, 2) is None);
            assert(keyword_at(b, i, 1) is None);
            assert(keyword_at(b, i, 0) is None);
            assert forall|k: int| i <= k < i + tb.len() implies crate::lexer::is_digit(#[trigger] b[k]) by {
                assert(b[i + (k - i)] == tb[k - i]);
            }
            lemma_digits_end_at(b, i, i + tb.len());
            lemma_decimal_value(b, i as int, n);
            assert(crate::lexer::digits_value(b, i as int, i + tb.len() as int) == v);
        },
        _ => {},
    }
}

/// Spelled tokens lex back to themselves.
proof fn lemma_spell_lexes(b: Seq<u8>, i: nat, ts: Seq<TokenView>)
    requires
        forall|k: int| 0 <= k < ts.len() ==> spelled_token(#[trigger] ts[k]),
        i + spell(ts).len() == b.len(),
        b.subrange(i as int, b.len() as int) == spell(ts),
    ensures
        crate::lexer::lex_from(b, i) == Ok::<Seq<TokenView>, crate::lexer::LexError>(ts),
    decreases ts.len(),
{
    if ts.len() == 0 {
        assert(i >= b.len());
        assert(ts =~= Seq::<TokenView>::empty());
    } else {
        let t = ts[0];
        let tb = token_bytes(t);
        let rest = ts.subrange(1, ts.len() as int);
        let sp = spell(ts);
        assert(sp =~= tb + seq![32u8] + spell(rest));
        let j = i + tb.len();
        assert forall|k: int| 0 <= k < sp.len() implies #[trigger] b[i + k] == sp[k] by {
            assert(b.subrange(i as int, b.len() as int)[k] == b[i + k]);
        }
        assert(b.subrange(i as int, j as int) =~= tb) by {
            assert forall|k: int| 0 <= k < tb.len() implies b.subrange(i as int, j as int)[k] == tb[k] by {
                assert(b[i + k] == sp[k]);
            }
        }
        assert(b[j as int] == sp[tb.len() as int]);
        lemma_token_spelled(b, i, t);
        assert(b.subrange(j + 1int, b.len() as int) =~= spell(rest)) by {
            assert forall|k: int| 0 <= k < spell(rest).len() implies b.subrange(j + 1int, b.len() as int)[k]
                == spell(rest)[k] by {
                assert(b[i + (k + tb.len() + 1)] == sp[k + tb.len() + 1]);
            }
        }
        lemma_spell_lexes(b, j + 1, rest);
        assert(b[j as int] == 32);
        assert(crate::lexer::lex_from(b, j) == crate::lexer::lex_from(b, j + 1));
        assert(!crate::lexer::is_space(b[i as int]));
        assert(crate::lexer::lex_from(b, i) == Ok::<Seq<TokenView>, crate::lexer::LexError>(seq![t] + rest));
        assert(seq![t] + rest =~= ts);
    }
}

} // verus!

verus! {

proof fn lemma_ct_items_push(s: Seq<ExprV>, x: ExprV)
    ensures
        ct_items(s.push(x)) == ct_items(s) + bt(Token::Comma) + ct_expr(x),
    decreases s.len(),
{
    let t = s.push(x);
    if s.len() == 0 {
        assert(t.subrange(1, 1) =~= Seq::<ExprV>::empty());
        assert(t[0] == x);
        assert(ct_items(t.subrange(1, 1)) =~= Seq::<TokenView>::empty());
        assert(ct_items(s) =~= Seq::<TokenView>::empty());
        assert(ct_items(t) =~= ct_items(s) + bt(Token::Comma) + ct_expr(x));
    } else {
        assert(t.subrange(1, t.len() as int) =~= s.subrange(1, s.len() as int).push(x));
        lemma_ct_items_push(s.subrange(1, s.len() as int), x);
        assert(t[0] == s[0]);
        assert(ct_items(t) =~= ct_items(s) + bt(Token::Comma) + ct_expr(x));
    }
}

proof fn lemma_ct_list_push(s: Seq<ExprV>, x: ExprV)
    requires
        s.len() >= 1,
    ensures
        ct_list(s.push(x)) == ct_list(s) + bt(Token::Comma) + ct_expr(x),
{
    let t = s.push(x);
    assert(t.subrange(1, t.len() as int) =~= s.subrange(1, s.len() as int).push(x));
    lemma_ct_items_push(s.subrange(1, s.len() as int), x);
    assert(ct_list(t) =~= ct_list(s) + bt(Token::Comma) + ct_expr(x));
}

proof fn lemma_ct_pair_items_push(s: Seq<(LitV, ExprV)>, x: (LitV, ExprV))
    ensures
        ct_pair_items(s.push(x)) == ct_pair_items(s) + bt(Token::Comma) + ct_pair(x),
    decreases s.len(),
{
    let t = s.push(x);
    if s.len() == 0 {
        assert(t.subrange(1, 1) =~= Seq::<(LitV, ExprV)>::empty());
        assert(t[0] == x);
        assert(ct_pair_items(t.subrange(1, 1)) =~= Seq::<TokenView>::empty());
        assert(ct_pair_items(s) =~= Seq::<TokenView>::empty());
        assert(ct_pair_items(t) =~= ct_pair_items(s) + bt(Token::Comma) + ct_pair(x));
    } else {
        assert(t.subrange(1, t.len() as int) =~= s.subrange(1, s.len() as int).push(x));
        lemma_ct_pair_items_push(s.subrange(1, s.len() as int), x);
        assert(t[0] == s[0]);
        assert(ct_pair_items(t) =~= ct_pair_items(s) + bt(Token::Comma) + ct_pair(x));
    }
}

proof fn lemma_ct_pairs_push(s: Seq<(LitV, ExprV)>, x: (LitV, ExprV))
    requires
        s.len() >= 1,
    ensures
        ct_pairs(s.push(x)) == ct_pairs(s) + bt(Token::Comma) + ct_pair(x),
{
    let t = s.push(x);
    assert(t.subrange(1, t.len() as int) =~= s.subrange(1, s.len() as int).push(x));
    lemma_ct_pair_items_push(s.subrange(1, s.len() as int), x);
    assert(ct_pairs(t) =~= ct_pairs(s) + bt(Token::Comma) + ct_pair(x));
}

proof fn lemma_ct_param_items_push(s: Seq<Seq<char>>, x: Seq<char>)
    ensures
        ct_param_items(s.push(x)) == ct_param_items(s) + bt(Token::Comma) + seq![TokenView::Ident(x)],
    decreases s.len(),
{
    let t = s.push(x);
    if s.len() == 0 {
        assert(t.subrange(1, 1) =~= Seq::<Seq<char>>::empty());
        assert(t[0] == x);
        assert(ct_param_items(t.subrange(1, 1)) =~= Seq::<TokenView>::empty());
        assert(ct_param_items(s) =~= Seq::<TokenView>::empty());
        assert(ct_param_items(t) =~= ct_param_items(s) + bt(Token::Comma) + seq![TokenView::Ident(x)]);
    } else {
        assert(t.subrange(1, t.len() as int) =~= s.subrange(1, s.len() as int).push(x));
        lemma_ct_param_items_push(s.subrange(1, s.len() as int), x);
        assert(t[0] == s[0]);
        assert(ct_param_items(t) =~= ct_param_items(s) + bt(Token::Comma) + seq![TokenView::Ident(x)]);
    }
}

proof fn lemma_ct_stmts_push(s: Seq<StmtV>, x: StmtV)
    ensures
        ct_stmts(s.push(x)) == ct_stmts(s) + ct_stmt(x),
    decreases s.len(),
{
    let t = s.push(x);
    if s.len() == 0 {
        assert(t.subrange(1, 1) =~= Seq::<StmtV>::empty());
        assert(t[0] == x);
        assert(ct_stmts(t.subrange(1, 1)) =~= Seq::<TokenView>::empty());
        assert(ct_stmts(s) =~= Seq::<TokenView>::empty());
        assert(ct_stmts(t) =~= ct_stmts(s) + ct_stmt(x));
    } else {
        assert(t.subrange(1, t.len() as int) =~= s.subrange(1, s.len() as int).push(x));
        lemma_ct_stmts_push(s.subrange(1, s.len() as int), x);
        assert(t[0] == s[0]);
        assert(ct_stmts(t) =~= ct_stmts(s) + ct_stmt(x));
    }
}

} // verus!

verus! {

fn push_token(out: &mut Vec<Token>, t: Token)
    ensures
        view_tokens(final(out)@) == view_tokens(old(out)@).push(t@),
{
    let ghost before = out@;
    out.push(t);
    assert(view_tokens(out@) =~= view_tokens(before).push(t@));
}

fn literal_tok(l: &Literal) -> (r: Token)
    ensures
        r@ == literal_token(l@),
{
    match l {
        Literal::IntLiteral(i) => Token::IntLiteral(*i),
        Literal::BoolLiteral(b) => Token::BoolLiteral(*b),
        Literal::StringLiteral(s) => Token::StringLiteral(s.clone()),
    }
}

fn infix_tok(op: Infix) -> (r: Token)
    ensures
        r == infix_token(op),
{
    match op {
        Infix::Plus => Token::Plus,
        Infix::Minus => Token::Minus,
        Infix::Divide => Token::Divide,
        Infix::Multiply => Token::Multiply,
        Infix::Equal => Token::Equal,
        Infix::NotEqual => Token::NotEqual,
        Infix::GreaterThanEqual => Token::GreaterThanEqual,
        Infix::LessThanEqual => Token::LessThanEqual,
        Infix::GreaterThan => Token::GreaterThan,
        Infix::LessThan => Token::LessThan,
    }
}

fn prefix_tok(op: Prefix) -> (r: Token)
    ensures
        r == prefix_token(op),
{
    match op {
        Prefix::Plus => Token::Plus,
        Prefix::Minus => Token::Minus,
        Prefix::Not => Token::Not,
    }
}

/// Appends the canonical tokens of an expression.
fn push_expr(out: &mut Vec<Token>, e: &Expr)
    ensures
        view_tokens(final(out)@) == view_tokens(old(out)@) + ct_expr(e@),
    decreases e,
{
    let ghost start = view_tokens(out@);
    match e {
        Expr::IdentExpr(i) => {
            push_token(out, Token::Ident(i.0.clone()));
        },
        Expr::LiteralExpr(l) => {
            push_token(out, literal_tok(l));
        },
        Expr::PrefixExpr(op, x) => {
            push_token(out, Token::LParen);
            push_token(out, prefix_tok(*op));
            push_expr(out, x);
            push_token(out, Token::RParen);
        },
        Expr::InfixExpr(op, l, r) => {
            push_token(out, Token::LParen);
            push_expr(out, l);
            push_token(out, infix_tok(*op));
            push_expr(out, r);
            push_token(out, Token::RParen);
        },
        Expr::IfExpr { cond, consequence, alternative } => {
            push_token(out, Token::If);
            push_token(out, Token::LParen);
            push_expr(out, cond);
            push_token(out, Token::RParen);
            push_block(out, consequence);
            match alternative {
                Some(a) => {
                    push_token(out, Token::Else);
                    push_block(out, a);
                },
                None => {},
            }
        },
        Expr::FnExpr { parameters, body } => {
            push_token(out, Token::Function);
            push_token(out, Token::LParen);
            push_params(out, parameters);
            push_token(out, Token::RParen);
            push_block(out, body);
        },
        Expr::ArrayExpr(items) => {
            push_token(out, Token::LBracket);
            push_list(out, items);
            push_token(out, Token::RBracket);
        },
        Expr::HashExpr(pairs) => {
            push_token(out, Token::LBrace);
            push_pairs(out, pairs);
            push_token(out, Token::RBrace);
        },
        Expr::CallExpr { function, arguments } => {
            push_token(out, Token::LParen);
            push_expr(out, function);
            push_token(out, Token::LParen);
            push_list(out, arguments);
            push_token(out, Token::RParen);
            push_token(out, Token::RParen);
        },
        Expr::IndexExpr { left, index } => {
            push_token(out, Token::LParen);
            push_expr(out, left);
            push_token(out, Token::LBracket);
            push_expr(out, index);
            push_token(out, Token::RBracket);
            push_token(out, Token::RParen);
        },
    }
    assert(view_tokens(out@) =~= start + ct_expr(e@));
}

/// Appends expressions separated by commas.
fn push_list(out: &mut Vec<Token>, es: &Vec<Expr>)
    ensures
        view_tokens(final(out)@) == view_tokens(old(out)@) + ct_list(view_exprs(es@)),
    decreases es,
{
    let ghost start = view_tokens(out@);
    let ghost ve = view_exprs(es@);
    proof {
        lemma_view_exprs_index(es@);
    }
    let mut i: usize = 0;
    assert(ve.subrange(0, 0) =~= Seq::<ExprV>::empty());
    assert(view_tokens(out@) =~= start + ct_list(ve.subrange(0, 0)));
    while i < es.len()
        invariant
            i <= es@.len(),
            ve == view_exprs(es@),
            ve.len() == es@.len(),
            forall|k: int| 0 <= k < es@.len() ==> #[trigger] ve[k] == es@[k]@,
            view_tokens(out@) == start + ct_list(ve.subrange(0, i as int)),
        decreases es.len() - i,
    {
        let ghost prev = ve.subrange(0, i as int);
        assert(ve.subrange(0, i + 1) =~= prev.push(ve[i as int]));
        if i > 0 {
            push_token(out, Token::Comma);
            proof {
                lemma_ct_list_push(prev, ve[i as int]);
            }
        } else {
            assert(prev.push(ve[0]).subrange(1, 1) =~= Seq::<ExprV>::empty());
        }
        push_expr(out, &es[i]);
        assert(view_tokens(out@) =~= start + ct_list(ve.subrange(0, i + 1)));
        i = i + 1;
    }
    assert(ve.subrange(0, es@.len() as int) =~= ve);
}

/// Appends hash pairs separated by commas.
fn push_pairs(out: &mut Vec<Token>, ps: &Vec<(Literal, Expr)>)
    ensures
        view_tokens(final(out)@) == view_tokens(old(out)@) + ct_pairs(view_pairs(ps@)),
    decreases ps,
{
    let ghost start = view_tokens(out@);
    let ghost vp = view_pairs(ps@);
    proof {
        lemma_view_pairs_index(ps@);
    }
    let mut i: usize = 0;
    assert(vp.subrange(0, 0) =~= Seq::<(LitV, ExprV)>::empty());
    assert(view_tokens(out@) =~= start + ct_pairs(vp.subrange(0, 0)));
    while i < ps.len()
        invariant
            i <= ps@.len(),
            vp == view_pairs(ps@),
            vp.len() == ps@.len(),
            forall|k: int| 0 <= k < ps@.len() ==> #[trigger] vp[k] == (ps@[k].0@, ps@[k].1@),
            view_tokens(out@) == start + ct_pairs(vp.subrange(0, i as int)),
        decreases ps.len() - i,
    {
        let ghost prev = vp.subrange(0, i as int);
        assert(vp.subrange(0, i + 1) =~= prev.push(vp[i as int]));
        if i > 0 {
            push_token(out, Token::Comma);
            proof {
                lemma_ct_pairs_push(prev, vp[i as int]);
            }
        } else {
            assert(prev.push(vp[0]).subrange(1, 1) =~= Seq::<(LitV, ExprV)>::empty());
        }
        push_token(out, literal_tok(&ps[i].0));
        push_token(out, Token::Colon);
        push_expr(out, &ps[i].1);
        assert(view_tokens(out@) =~= start + ct_pairs(vp.subrange(0, i + 1)));
        i = i + 1;
    }
    assert(vp.subrange(0, ps@.len() as int) =~= vp);
}

/// Appends parameter names separated by commas.
fn push_params(out: &mut Vec<Token>, ps: &Vec<Identifier>)
    ensures
        view_tokens(final(out)@) == view_tokens(old(out)@) + ct_params(view_idents(ps@)),
{
    let ghost start = view_tokens(out@);
    let ghost vp = view_idents(ps@);
    let mut i: usize = 0;
    assert(vp.subrange(0, 0) =~= Seq::<Seq<char>>::empty());
    assert(view_tokens(out@) =~= start + ct_params(vp.subrange(0, 0)));
    while i < ps.len()
        invariant
            i <= ps@.len(),
            vp == view_idents(ps@),
            vp.len() == ps@.len(),
            forall|k: int| 0 <= k < ps@.len() ==> #[trigger] vp[k] == ps@[k]@,
            view_tokens(out@) == start + ct_params(vp.subrange(0, i as int)),
        decreases ps.len() - i,
    {
        let ghost prev = vp.subrange(0, i as int);
        assert(vp.subrange(0, i + 1) =~= prev.push(vp[i as int]));
        if i > 0 {
            push_token(out, Token::Comma);
            proof {
                let t = prev.push(vp[i as int]);
                assert(t.subrange(1, t.len() as int) =~= prev.subrange(1, prev.len() as int).push(vp[i as int]));
                lemma_ct_param_items_push(prev.subrange(1, prev.len() as int), vp[i as int]);
            }
        } else {
            assert(prev.push(vp[0]).subrange(1, 1) =~= Seq::<Seq<char>>::empty());
        }
        push_token(out, Token::Ident(ps[i].0.clone()));
        assert(view_tokens(out@) =~= start + ct_params(vp.subrange(0, i + 1)));
        i = i + 1;
    }
    assert(vp.subrange(0, ps@.len() as int) =~= vp);
}

/// Appends statements.
fn push_stmts(out: &mut Vec<Token>, ss: &Vec<Stmt>)
    ensures
        view_tokens(final(out)@) == view_tokens(old(out)@) + ct_stmts(view_stmts(ss@)),
    decreases ss, 1nat,
{
    let ghost start = view_tokens(out@);
    let ghost vs = view_stmts(ss@);
    proof {
        lemma_view_stmts_index(ss@);
    }
    let mut i: usize = 0;
    assert(vs.subrange(0, 0) =~= Seq::<StmtV>::empty());
    assert(view_tokens(out@) =~= start + ct_stmts(vs.subrange(0, 0)));
    while i < ss.len()
        invariant
            i <= ss@.len(),
            vs == view_stmts(ss@),
            vs.len() == ss@.len(),
            forall|k: int| 0 <= k < ss@.len() ==> #[trigger] vs[k] == ss@[k]@,
            view_tokens(out@) == start + ct_stmts(vs.subrange(0, i as int)),
        decreases ss.len() - i,
    {
        let ghost prev = vs.subrange(0, i as int);
        assert(vs.subrange(0, i + 1) =~= prev.push(vs[i as int]));
        proof {
            lemma_ct_stmts_push(prev, vs[i as int]);
        }
        push_stmt(out, &ss[i]);
        assert(view_tokens(out@) =~= start + ct_stmts(vs.subrange(0, i + 1)));
        i = i + 1;
    }
    assert(vs.subrange(0, ss@.len() as int) =~= vs);
}

/// Appends a block.
fn push_block(out: &mut Vec<Token>, ss: &Vec<Stmt>)
    ensures
        view_tokens(final(out)@) == view_tokens(old(out)@) + ct_block(view_stmts(ss@)),
    decreases ss, 2nat,
{
    let ghost start = view_tokens(out@);
    push_token(out, Token::LBrace);
    push_stmts(out, ss);
    push_token(out, Token::RBrace);
    assert(view_tokens(out@) =~= start + ct_block(view_stmts(ss@)));
}

/// Appends a statement with its semicolon.
fn push_stmt(out: &mut Vec<Token>, s: &Stmt)
    ensures
        view_tokens(final(out)@) == view_tokens(old(out)@) + ct_stmt(s@),
    decreases s,
{
    let ghost start = view_tokens(out@);
    match s {
        Stmt::LetStmt(i, e) => {
            push_token(out, Token::Let);
            push_token(out, Token::Ident(i.0.clone()));
            push_token(out, Token::Assign);
            push_expr(out, e);
        },
        Stmt::ReturnStmt(e) => {
            push_token(out, Token::Return);
            push_expr(out, e);
        },
        Stmt::ExprStmt(e) => {
            push_expr(out, e);
        },
    }
    push_token(out, Token::SemiColon);
    assert(view_tokens(out@) =~= start + ct_stmt(s@));
}

/// The canonical tokens of a program, without the end marker.
pub fn canonical_tokens(program: &Program) -> (r: Vec<Token>)
    ensures
        view_tokens(r@) == ct_stmts(view_stmts(program@)),
{
    let mut out: Vec<Token> = Vec::new();
    assert(view_tokens(out@) =~= Seq::<TokenView>::empty());
    push_stmts(&mut out, program);
    assert(Seq::<TokenView>::empty() + ct_stmts(view_stmts(program@)) =~= ct_stmts(view_stmts(program@)));
    out
}

} // verus!

verus! {

proof fn lemma_escaped_push(s: Seq<u8>, b: u8)
    ensures
        escaped(s.push(b)) == escaped(s) + (if b == 34 || b == 92 {
            seq![92u8, b]
        } else {
            seq![b]
        }),
    decreases s.len(),
{
    let t = s.push(b);
    if s.len() == 0 {
        assert(t.subrange(1, 1) =~= Seq::<u8>::empty());
        assert(t[0] == b);
        assert(escaped(t.subrange(1, 1)) =~= Seq::<u8>::empty());
        assert(escaped(s) =~= Seq::<u8>::empty());
    } else {
        assert(t.subrange(1, t.len() as int) =~= s.subrange(1, s.len() as int).push(b));
        lemma_escaped_push(s.subrange(1, s.len() as int), b);
        assert(t[0] == s[0]);
    }
    assert(escaped(t) =~= escaped(s) + (if b == 34 || b == 92 {
        seq![92u8, b]
    } else {
        seq![b]
    }));
}

proof fn lemma_spell_push(s: Seq<TokenView>, t: TokenView)
    ensures
        spell(s.push(t)) == spell(s) + token_bytes(t) + seq![32u8],
    decreases s.len(),
{
    let u = s.push(t);
    if s.len() == 0 {
        assert(u.subrange(1, 1) =~= Seq::<TokenView>::empty());
        assert(u[0] == t);
        assert(spell(u.subrange(1, 1)) =~= Seq::<u8>::empty());
        assert(spell(s) =~= Seq::<u8>::empty());
    } else {
        assert(u.subrange(1, u.len() as int) =~= s.subrange(1, s.len() as int).push(t));
        lemma_spell_push(s.subrange(1, s.len() as int), t);
        assert(u[0] == s[0]);
    }
    assert(spell(u) =~= spell(s) + token_bytes(t) + seq![32u8]);
}

/// The decimal digits of `n` as ASCII bytes.
fn decimal_vec(n: u64) -> (r: Vec<u8>)
    ensures
        r@ == decimal_bytes(n as nat),
    decreases n,
{
    if n < 10 {
        vec![(48 + n) as u8]
    } else {
        let mut v = decimal_vec(n / 10);
        v.push((48 + n % 10) as u8);
        v
    }
}

/// Appends bytes with a backslash before each quote and backslash.
fn escape_into(out: &mut Vec<u8>, x: &Vec<u8>)
    ensures
        final(out)@ == old(out)@ + escaped(x@),
{
    let ghost start = out@;
    let mut i: usize = 0;
    assert(x@.subrange(0, 0) =~= Seq::<u8>::empty());
    assert(out@ =~= start + escaped(x@.subrange(0, 0)));
    while i < x.len()
        invariant
            i <= x@.len(),
            out@ == start + escaped(x@.subrange(0, i as int)),
        decreases x.len() - i,
    {
        let b = x[i];
        proof {
            assert(x@.subrange(0, i + 1) =~= x@.subrange(0, i as int).push(b));
            lemma_escaped_push(x@.subrange(0, i as int), b);
        }
        if b == 34 || b == 92 {
            out.push(92);
        }
        out.push(b);
        assert(out@ =~= start + escaped(x@.subrange(0, i + 1)));
        i = i + 1;
    }
    assert(x@.subrange(0, x@.len() as int) =~= x@);
}

/// Whether a name reads back as one identifier.
fn name_has_spelling(s: &String) -> (r: bool)
    ensures
        r == spellable_name(s@),
{
    if !s.is_ascii() {
        return false;
    }
    let mut bytes = s.as_str().as_bytes_vec();
    proof {
        vstd::utf8::is_ascii_chars_encode_utf8(s@);
    }
    if bytes.len() == 0 {
        return false;
    }
    if !crate::lexer::is_ident_start_byte(bytes[0]) {
        return false;
    }
    let mut i: usize = 0;
    while i < bytes.len()
        invariant
            i <= bytes@.len(),
            bytes@ == vstd::utf8::encode_utf8(s@),
            bytes@.len() == s@.len(),
            forall|k: int| 0 <= k < s@.len() ==> s@[k] as u8 == #[trigger] bytes@[k],
            forall|k: int| 0 <= k < i ==> crate::lexer::is_ident_byte(#[trigger] s@[k] as u8),
        decreases bytes.len() - i,
    {
        if !crate::lexer::is_ident_byte_exec(bytes[i]) {
            assert(!crate::lexer::is_ident_byte(s@[i as int] as u8));
            return false;
        }
        i = i + 1;
    }
    let ghost enc = bytes@;
    bytes.push(32u8);
    let none = crate::lexer::keyword_token(bytes.as_slice(), 0).is_none();
    assert(bytes@ == enc.push(32u8));
    none
}

/// The spelling of a token, when it has one.
fn spell_token(t: &Token) -> (r: Option<Vec<u8>>)
    ensures
        r is Some <==> spelled_token(t@),
        r matches Some(b) ==> b@ == token_bytes(t@),
{
    match t {
        Token::LParen => Some(vec![40u8]),
        Token::RParen => Some(vec![41u8]),
        Token::Plus => Some(vec![43u8]),
        Token::Minus => Some(vec![45u8]),
        Token::Multiply => Some(vec![42u8]),
        Token::Divide => Some(vec![47u8]),
        Token::Not => Some(vec![33u8]),
        Token::Equal => Some(vec![61u8, 61]),
        Token::NotEqual => Some(vec![33u8, 61]),
        Token::LessThan => Some(vec![60u8]),
        Token::LessThanEqual => Some(vec![60u8, 61]),
        Token::GreaterThan => Some(vec![62u8]),
        Token::GreaterThanEqual => Some(vec![62u8, 61]),
        Token::Comma => Some(vec![44u8]),
        Token::Colon => Some(vec![58u8]),
        Token::SemiColon => Some(vec![59u8]),
        Token::LBracket => Some(vec![91u8]),
        Token::RBracket => Some(vec![93u8]),
        Token::LBrace => Some(vec![123u8]),
        Token::RBrace => Some(vec![125u8]),
        Token::Assign => Some(vec![61u8]),
        Token::Let => Some(vec![108u8, 101, 116]),
        Token::Function => Some(vec![102u8, 110]),
        Token::If => Some(vec![105u8, 102]),
        Token::Else => Some(vec![101u8, 108, 115, 101]),
        Token::Return => Some(vec![114u8, 101, 116, 117, 114, 110]),
        Token::BoolLiteral(true) => Some(vec![116u8, 114, 117, 101]),
        Token::BoolLiteral(false) => Some(vec![102u8, 97, 108, 115, 101]),
        Token::IntLiteral(i) => if *i >= 0 {
            Some(decimal_vec(*i as u64))
        } else {
            None
        },
        Token::Ident(s) => if name_has_spelling(s) {
            Some(s.as_str().as_bytes_vec())
        } else {
            None
        },
        Token::StringLiteral(s) => {
            let body = s.as_str().as_bytes_vec();
            let mut out: Vec<u8> = vec![34u8];
            escape_into(&mut out, &body);
            out.push(34u8);
            assert(out@ =~= seq![34u8] + escaped(vstd::utf8::encode_utf8(s@)) + seq![34u8]);
            Some(out)
        },
        _ => None,
    }
}

/// Tokens spelled out, each followed by a space; `None` when one of them has
/// no spelling.
fn spell_tokens(ts: &Vec<Token>) -> (r: Option<Vec<u8>>)
    ensures
        r is Some <==> forall|k: int| 0 <= k < ts@.len() ==> spelled_token(#[trigger] ts@[k]@),
        r matches Some(b) ==> b@ == spell(view_tokens(ts@)),
{
    let ghost vt = view_tokens(ts@);
    let mut out: Vec<u8> = Vec::new();
    let mut i: usize = 0;
    assert(vt.subrange(0, 0) =~= Seq::<TokenView>::empty());
    assert(out@ =~= spell(vt.subrange(0, 0)));
    while i < ts.len()
        invariant
            i <= ts@.len(),
            vt == view_tokens(ts@),
            vt.len() == ts@.len(),
            forall|k: int| 0 <= k < i ==> spelled_token(#[trigger] ts@[k]@),
            out@ == spell(vt.subrange(0, i as int)),
        decreases ts.len() - i,
    {
        match spell_token(&ts[i]) {
            None => {
                return None;
            },
            Some(b) => {
                proof {
                    assert(vt.subrange(0, i + 1) =~= vt.subrange(0, i as int).push(ts@[i as int]@));
                    lemma_spell_push(vt.subrange(0, i as int), ts@[i as int]@);
                }
                let mut b = b;
                out.append(&mut b);
                out.push(32u8);
            },
        }
        i = i + 1;
    }
    assert(vt.subrange(0, ts@.len() as int) =~= vt);
    Some(out)
}

/// Prints a program: its canonical tokens, each spelled and followed by a
/// space. `None` when a name does not read back as an identifier or an
/// integer is negative.
pub fn print_program(program: &Program) -> (r: Option<Vec<u8>>)
    ensures
        r is Some <==> is_spellable_program(view_stmts(program@)),
        r matches Some(b) ==> b@ == printed(view_stmts(program@)),
{
    let ts = canonical_tokens(program);
    let ghost ct = ct_stmts(view_stmts(program@));
    assert forall|k: int| 0 <= k < ts@.len() implies #[trigger] view_tokens(ts@)[k] == ts@[k]@ by {}
    let r = spell_tokens(&ts);
    proof {
        if r is Some {
            assert forall|k: int| 0 <= k < ct.len() implies spelled_token(#[trigger] ct[k]) by {
                assert(spelled_token(ts@[k]@));
            }
        }
        if is_spellable_program(view_stmts(program@)) {
            assert forall|k: int| 0 <= k < ts@.len() implies spelled_token(#[trigger] ts@[k]@) by {
                assert(spelled_token(ct[k]));
            }
        }
    }
    r
}

} // verus!
