//! Bytes to tokens.
use vstd::prelude::*;
use vstd::utf8::{decode_utf8, valid_utf8, valid_first_scalar, pop_first_scalar};
use crate::token::{Token, TokenView, view_tokens};

verus! {

/// Why lexing stopped; each carries the byte offset where the offending token starts.
#[derive(Debug, Clone, Copy, PartialEq, Eq, Structural)]
pub enum LexError {
    /// A string literal with no closing quote.
    UnclosedString(usize),
    /// A run of digits whose value does not fit in a signed 64-bit integer.
    IntegerOverflow(usize),
}

pub open spec fn is_space(c: u8) -> bool {
    c == 32 || c == 9 || c == 10 || c == 13
}

pub open spec fn is_alpha(c: u8) -> bool {
    (65 <= c <= 90) || (97 <= c <= 122)
}

pub open spec fn is_digit(c: u8) -> bool {
    48 <= c <= 57
}

pub open spec fn is_ident_start(c: u8) -> bool {
    is_alpha(c) || c == 95
}

pub open spec fn is_ident_byte(c: u8) -> bool {
    is_alpha(c) || is_digit(c) || c == 95
}

/// The end of the run of identifier bytes that starts at `i`.
pub open spec fn ident_end(b: Seq<u8>, i: nat) -> nat
    decreases b.len() - i,
{
    if i < b.len() && is_ident_byte(b[i as int]) {
        ident_end(b, i + 1)
    } else {
        i
    }
}

/// The end of the run of digits that starts at `i`.
pub open spec fn digits_end(b: Seq<u8>, i: nat) -> nat
    decreases b.len() - i,
{
    if i < b.len() && is_digit(b[i as int]) {
        digits_end(b, i + 1)
    } else {
        i
    }
}

/// The decimal value of the digits `b[i..j]`.
pub open spec fn digits_value(b: Seq<u8>, i: int, j: int) -> int
    decreases j - i,
{
    if j <= i {
        0
    } else {
        digits_value(b, i, j - 1) * 10 + (b[j - 1] - 48)
    }
}

/// The body of a string literal whose opening quote precedes `i`: the bytes it
/// stands for (a backslash takes the next byte as it is) and the position after
/// the closing quote; `None` when no closing quote comes.
pub open spec fn string_body(b: Seq<u8>, i: nat) -> Option<(Seq<u8>, nat)>
    decreases b.len() - i,
{
    if i >= b.len() {
        None
    } else if b[i as int] == 34 {
        Some((Seq::empty(), i + 1))
    } else if b[i as int] == 92 {
        if i + 1 >= b.len() {
            None
        } else {
            match string_body(b, i + 2) {
                Some((s, k)) => Some((seq![b[i + 1int]] + s, k)),
                None => None,
            }
        }
    } else {
        match string_body(b, i + 1) {
            Some((s, k)) => Some((seq![b[i as int]] + s, k)),
            None => None,
        }
    }
}

/// The keywords, in the order they are tried.
pub open spec fn keyword(k: nat) -> (Seq<u8>, Token) {
    if k == 0 {
        (seq![108u8, 101, 116], Token::Let)
    } else if k == 1 {
        (seq![102u8, 110], Token::Function)
    } else if k == 2 {
        (seq![105u8, 102], Token::If)
    } else if k == 3 {
        (seq![101u8, 108, 115, 101], Token::Else)
    } else if k == 4 {
        (seq![114u8, 101, 116, 117, 114, 110], Token::Return)
    } else if k == 5 {
        (seq![116u8, 114, 117, 101], Token::BoolLiteral(true))
    } else {
        (seq![102u8, 97, 108, 115, 101], Token::BoolLiteral(false))
    }
}

pub open spec fn starts_with(b: Seq<u8>, i: nat, w: Seq<u8>) -> bool {
    i + w.len() <= b.len() && b.subrange(i as int, (i + w.len()) as int) == w
}

/// The first keyword, from the `k`-th on, that the input spells at `i`.
pub open spec fn keyword_at(b: Seq<u8>, i: nat, k: nat) -> Option<(Token, nat)>
    decreases 7 - k,
{
    if k >= 7 {
        None
    } else if starts_with(b, i, keyword(k).0) {
        Some((keyword(k).1, i + keyword(k).0.len()))
    } else {
        keyword_at(b, i, k + 1)
    }
}

/// The operator or punctuation token that the input spells at `i`, two-byte
/// operators before their one-byte prefixes.
pub open spec fn symbol_at(b: Seq<u8>, i: nat) -> Option<(Token, nat)> {
    if i >= b.len() {
        None
    } else {
        let c = b[i as int];
        let eq_next = i + 1 < b.len() && b[i + 1int] == 61;
        if c == 61 && eq_next {
            Some((Token::Equal, i + 2))
        } else if c == 33 && eq_next {
            Some((Token::NotEqual, i + 2))
        } else if c == 62 && eq_next {
            Some((Token::GreaterThanEqual, i + 2))
        } else if c == 60 && eq_next {
            Some((Token::LessThanEqual, i + 2))
        } else if c == 61 {
            Some((Token::Assign, i + 1))
        } else if c == 43 {
            Some((Token::Plus, i + 1))
        } else if c == 45 {
            Some((Token::Minus, i + 1))
        } else if c == 47 {
            Some((Token::Divide, i + 1))
        } else if c == 42 {
            Some((Token::Multiply, i + 1))
        } else if c == 62 {
            Some((Token::GreaterThan, i + 1))
        } else if c == 60 {
            Some((Token::LessThan, i + 1))
        } else if c == 33 {
            Some((Token::Not, i + 1))
        } else if c == 44 {
            Some((Token::Comma, i + 1))
        } else if c == 59 {
            Some((Token::SemiColon, i + 1))
        } else if c == 58 {
            Some((Token::Colon, i + 1))
        } else if c == 40 {
            Some((Token::LParen, i + 1))
        } else if c == 41 {
            Some((Token::RParen, i + 1))
        } else if c == 123 {
            Some((Token::LBrace, i + 1))
        } else if c == 125 {
            Some((Token::RBrace, i + 1))
        } else if c == 91 {
            Some((Token::LBracket, i + 1))
        } else if c == 93 {
            Some((Token::RBracket, i + 1))
        } else {
            None
        }
    }
}

/// The token that starts at `i` (which is in range and holds no whitespace)
/// and the position after it.
pub open spec fn token_at(b: Seq<u8>, i: nat) -> Result<(TokenView, nat), LexError> {
    let c = b[i as int];
    if symbol_at(b, i) is Some {
        let (t, k) = symbol_at(b, i)->Some_0;
        Ok((t@, k))
    } else if c == 34 {
        match string_body(b, i + 1) {
            None => Err(LexError::UnclosedString(i as usize)),
            Some((s, k)) => if valid_utf8(s) {
                Ok((TokenView::Str(decode_utf8(s)), k))
            } else {
                Ok((TokenView::Plain(Token::Illegal), i + 1))
            },
        }
    } else if keyword_at(b, i, 0) is Some {
        let (t, k) = keyword_at(b, i, 0)->Some_0;
        Ok((t@, k))
    } else if is_ident_start(c) {
        let e = ident_end(b, i);
        Ok((TokenView::Ident(decode_utf8(b.subrange(i as int, e as int))), e))
    } else if is_digit(c) {
        let e = digits_end(b, i);
        let v = digits_value(b, i as int, e as int);
        if v > i64::MAX {
            Err(LexError::IntegerOverflow(i as usize))
        } else {
            Ok((TokenView::Plain(Token::IntLiteral(v as i64)), e))
        }
    } else {
        Ok((TokenView::Plain(Token::Illegal), i + 1))
    }
}

/// The tokens of `b` from position `i` on, without the end marker:
/// whitespace is skipped, and each token is the one `token_at` reads.
pub open spec fn lex_from(b: Seq<u8>, i: nat) -> Result<Seq<TokenView>, LexError>
    decreases b.len() - i,
{
    if i >= b.len() {
        Ok(Seq::empty())
    } else if is_space(b[i as int]) {
        lex_from(b, i + 1)
    } else {
        match token_at(b, i) {
            Err(e) => Err(e),
            Ok((t, k)) => if k <= i || k > b.len() {
                Ok(Seq::empty())
            } else {
                match lex_from(b, k) {
                    Err(e) => Err(e),
                    Ok(ts) => Ok(seq![t] + ts),
                }
            },
        }
    }
}

/// What the lexer makes of `b`: its tokens followed by the end marker.
pub open spec fn lex_spec(b: Seq<u8>) -> Result<Seq<TokenView>, LexError> {
    match lex_from(b, 0) {
        Err(e) => Err(e),
        Ok(ts) => Ok(ts.push(TokenView::Plain(Token::EOF))),
    }
}

/// Prepends `done` to a successful result.
pub open spec fn prepend(done: Seq<TokenView>, r: Result<Seq<TokenView>, LexError>) -> Result<
    Seq<TokenView>,
    LexError,
> {
    match r {
        Err(e) => Err(e),
        Ok(ts) => Ok(done + ts),
    }
}

} // verus!

verus! {

proof fn lemma_string_body_bounds(b: Seq<u8>, i: nat)
    ensures
        string_body(b, i) matches Some((s, k)) ==> i < k <= b.len(),
    decreases b.len() - i,
{
    if i < b.len() && b[i as int] != 34 {
        if b[i as int] == 92 {
            if i + 1 < b.len() {
                lemma_string_body_bounds(b, i + 2);
            }
        } else {
            lemma_string_body_bounds(b, i + 1);
        }
    }
}

proof fn lemma_keyword_bounds(b: Seq<u8>, i: nat, k: nat)
    ensures
        keyword_at(b, i, k) matches Some((t, e)) ==> i < e <= b.len() && !(t is Ident)
            && !(t is StringLiteral),
    decreases 7 - k,
{
    if k < 7 && !starts_with(b, i, keyword(k).0) {
        lemma_keyword_bounds(b, i, k + 1);
    }
}

proof fn lemma_scan_end(b: Seq<u8>, i: nat)
    ensures
        i <= ident_end(b, i) <= if i <= b.len() { b.len() } else { i },
        i <= digits_end(b, i) <= if i <= b.len() { b.len() } else { i },
    decreases b.len() - i,
{
    if i < b.len() {
        lemma_scan_end(b, i + 1);
    }
}

/// A token always moves the position forward and stays within the input.
proof fn lemma_token_at_advances(b: Seq<u8>, i: nat)
    requires
        i < b.len(),
    ensures
        token_at(b, i) matches Ok((t, k)) ==> i < k <= b.len(),
{
    lemma_string_body_bounds(b, i + 1);
    lemma_keyword_bounds(b, i, 0);
    lemma_scan_end(b, i + 1);
    if is_ident_start(b[i as int]) {
        assert(ident_end(b, i) == ident_end(b, i + 1));
    }
    if is_digit(b[i as int]) {
        assert(digits_end(b, i) == digits_end(b, i + 1));
    }
}

proof fn lemma_ascii_valid_utf8(b: Seq<u8>)
    requires
        forall|k: int| 0 <= k < b.len() ==> b[k] < 128,
    ensures
        valid_utf8(b),
    decreases b.len(),
{
    if b.len() != 0 {
        let c = b[0];
        assert(c & 0x7f == c) by (bit_vector)
            requires
                c < 128,
        ;
        assert(valid_first_scalar(b));
        let rest = pop_first_scalar(b);
        assert(rest =~= b.subrange(1, b.len() as int));
        lemma_ascii_valid_utf8(rest);
    }
}

/// Relies on std's `String::from_utf8`: it succeeds exactly on valid UTF-8 and
/// then holds the characters that the bytes encode.
#[verifier::external_body]
fn string_from_utf8(bytes: Vec<u8>) -> (r: Option<String>)
    ensures
        r is Some <==> valid_utf8(bytes@),
        r matches Some(s) ==> s@ == decode_utf8(bytes@),
{
    String::from_utf8(bytes).ok()
}

fn is_space_byte(c: u8) -> (r: bool)
    ensures
        r == is_space(c),
{
    c == 32 || c == 9 || c == 10 || c == 13
}

pub(crate) fn is_ident_start_byte(c: u8) -> (r: bool)
    ensures
        r == is_ident_start(c),
{
    (65 <= c && c <= 90) || (97 <= c && c <= 122) || c == 95
}

pub(crate) fn is_ident_byte_exec(c: u8) -> (r: bool)
    ensures
        r == is_ident_byte(c),
{
    (65 <= c && c <= 90) || (97 <= c && c <= 122) || (48 <= c && c <= 57) || c == 95
}

fn is_digit_byte(c: u8) -> (r: bool)
    ensures
        r == is_digit(c),
{
    48 <= c && c <= 57
}

/// Reads the operator or punctuation token at `i`, if there is one.
fn symbol_token(b: &[u8], i: usize) -> (r: Option<(Token, usize)>)
    ensures
        match r {
            None => symbol_at(b@, i as nat) is None,
            Some((t, k)) => symbol_at(b@, i as nat) == Some((t, k as nat)),
        },
{
    if i >= b.len() {
        return None;
    }
    let c = b[i];
    let eq_next = i + 1 < b.len() && b[i + 1] == 61;
    if c == 61 && eq_next {
        Some((Token::Equal, i + 2))
    } else if c == 33 && eq_next {
        Some((Token::NotEqual, i + 2))
    } else if c == 62 && eq_next {
        Some((Token::GreaterThanEqual, i + 2))
    } else if c == 60 && eq_next {
        Some((Token::LessThanEqual, i + 2))
    } else if c == 61 {
        Some((Token::Assign, i + 1))
    } else if c == 43 {
        Some((Token::Plus, i + 1))
    } else if c == 45 {
        Some((Token::Minus, i + 1))
    } else if c == 47 {
        Some((Token::Divide, i + 1))
    } else if c == 42 {
        Some((Token::Multiply, i + 1))
    } else if c == 62 {
        Some((Token::GreaterThan, i + 1))
    } else if c == 60 {
        Some((Token::LessThan, i + 1))
    } else if c == 33 {
        Some((Token::Not, i + 1))
    } else if c == 44 {
        Some((Token::Comma, i + 1))
    } else if c == 59 {
        Some((Token::SemiColon, i + 1))
    } else if c == 58 {
        Some((Token::Colon, i + 1))
    } else if c == 40 {
        Some((Token::LParen, i + 1))
    } else if c == 41 {
        Some((Token::RParen, i + 1))
    } else if c == 123 {
        Some((Token::LBrace, i + 1))
    } else if c == 125 {
        Some((Token::RBrace, i + 1))
    } else if c == 91 {
        Some((Token::LBracket, i + 1))
    } else if c == 93 {
        Some((Token::RBracket, i + 1))
    } else {
        None
    }
}

/// The spelling and token of the `k`-th keyword.
fn keyword_entry(k: usize) -> (r: (Vec<u8>, Token))
    ensures
        r.0@ == keyword(k as nat).0,
        r.1 == keyword(k as nat).1,
{
    if k == 0 {
        (vec![108u8, 101, 116], Token::Let)
    } else if k == 1 {
        (vec![102u8, 110], Token::Function)
    } else if k == 2 {
        (vec![105u8, 102], Token::If)
    } else if k == 3 {
        (vec![101u8, 108, 115, 101], Token::Else)
    } else if k == 4 {
        (vec![114u8, 101, 116, 117, 114, 110], Token::Return)
    } else if k == 5 {
        (vec![116u8, 114, 117, 101], Token::BoolLiteral(true))
    } else {
        (vec![102u8, 97, 108, 115, 101], Token::BoolLiteral(false))
    }
}

fn starts_with_exec(b: &[u8], i: usize, w: &Vec<u8>) -> (r: bool)
    ensures
        r == starts_with(b@, i as nat, w@),
{
    if w.len() > b.len() || i > b.len() - w.len() {
        return false;
    }
    let mut k: usize = 0;
    while k < w.len()
        invariant
            k <= w.len(),
            i + w.len() <= b.len(),
            forall|m: int| 0 <= m < k ==> b@[i + m] == w@[m],
        decreases w.len() - k,
    {
        if b[i + k] != w[k] {
            assert(b@.subrange(i as int, (i + w.len()) as int)[k as int] != w@[k as int]);
            return false;
        }
        k = k + 1;
    }
    assert(b@.subrange(i as int, (i + w.len()) as int) =~= w@);
    true
}

/// Reads the keyword at `i`, if one is spelled there.
pub(crate) fn keyword_token(b: &[u8], i: usize) -> (r: Option<(Token, usize)>)
    ensures
        match r {
            None => keyword_at(b@, i as nat, 0) is None,
            Some((t, k)) => keyword_at(b@, i as nat, 0) == Some((t, k as nat)),
        },
{
    let mut k: usize = 0;
    while k < 7
        invariant
            k <= 7,
            keyword_at(b@, i as nat, 0) == keyword_at(b@, i as nat, k as nat),
        decreases 7 - k,
    {
        let (w, t) = keyword_entry(k);
        if starts_with_exec(b, i, &w) {
            let wl = w.len();
            let bl = b.len();
            assert(i + wl <= bl);
            return Some((t, i + wl));
        }
        k = k + 1;
    }
    None
}

fn in_run(c: u8, ident: bool) -> (r: bool)
    ensures
        r == if ident { is_ident_byte(c) } else { is_digit(c) },
{
    if ident {
        is_ident_byte_exec(c)
    } else {
        is_digit_byte(c)
    }
}

/// The end of the run of bytes from `i` on that satisfy `ident` (identifier
/// bytes) or, when `ident` is false, digits.
fn scan_run(b: &[u8], i: usize, ident: bool) -> (r: usize)
    requires
        i <= b.len(),
    ensures
        r as nat == if ident { ident_end(b@, i as nat) } else { digits_end(b@, i as nat) },
{
    let mut k = i;
    while k < b.len() && in_run(b[k], ident)
        invariant
            i <= k <= b.len(),
            ident ==> ident_end(b@, i as nat) == ident_end(b@, k as nat),
            !ident ==> digits_end(b@, i as nat) == digits_end(b@, k as nat),
        decreases b.len() - k,
    {
        k = k + 1;
    }
    k
}

} // verus!

verus! {

pub open spec fn prepend_body(p: Seq<u8>, r: Option<(Seq<u8>, nat)>) -> Option<(Seq<u8>, nat)> {
    match r {
        Some((s, k)) => Some((p + s, k)),
        None => None,
    }
}

/// Reads the body of a string literal whose opening quote precedes `start`.
fn scan_string(b: &[u8], start: usize) -> (r: Option<(Vec<u8>, usize)>)
    requires
        start <= b@.len(),
    ensures
        match r {
            None => string_body(b@, start as nat) is None,
            Some((s, k)) => string_body(b@, start as nat) == Some((s@, k as nat)),
        },
{
    let mut out: Vec<u8> = Vec::new();
    let mut i = start;
    let bl = b.len();
    loop
        invariant
            start <= i <= bl + 1,
            bl == b@.len(),
            string_body(b@, start as nat) == prepend_body(out@, string_body(b@, i as nat)),
        decreases bl + 1 - i,
    {
        if i >= bl {
            return None;
        }
        let c = b[i];
        if c == 34 {
            assert(out@ + Seq::<u8>::empty() =~= out@);
            return Some((out, i + 1));
        }
        if c == 92 {
            if i + 1 >= bl {
                return None;
            }
            let ghost before = out@;
            out.push(b[i + 1]);
            assert forall|s: Seq<u8>| before + (seq![b@[i + 1]] + s) =~= out@ + s by {}
            i = i + 2;
        } else {
            let ghost before = out@;
            out.push(c);
            assert forall|s: Seq<u8>| before + (seq![c] + s) =~= out@ + s by {}
            i = i + 1;
        }
    }
}

proof fn lemma_ident_end_all_ident(b: Seq<u8>, i: nat)
    ensures
        forall|m: int| i <= m < ident_end(b, i) ==> is_ident_byte(#[trigger] b[m]),
    decreases b.len() - i,
{
    if i < b.len() && is_ident_byte(b[i as int]) {
        lemma_ident_end_all_ident(b, i + 1);
    }
}

proof fn lemma_digits_value_grows(b: Seq<u8>, i: int, k: int, j: int)
    requires
        i <= k <= j <= b.len(),
        forall|m: int| i <= m < j ==> is_digit(#[trigger] b[m]),
    ensures
        digits_value(b, i, j) >= digits_value(b, i, k) >= 0,
    decreases j - i,
{
    if j > k {
        lemma_digits_value_grows(b, i, k, j - 1);
    } else if k > i {
        lemma_digits_value_grows(b, i, k - 1, k - 1);
    }
}

proof fn lemma_digits_end_all_digits(b: Seq<u8>, i: nat)
    ensures
        forall|m: int| i <= m < digits_end(b, i) ==> is_digit(#[trigger] b[m]),
        i <= digits_end(b, i) && (i <= b.len() ==> digits_end(b, i) <= b.len()),
    decreases b.len() - i,
{
    if i < b.len() && is_digit(b[i as int]) {
        lemma_digits_end_all_digits(b, i + 1);
    }
}

/// Reads the run of digits at `i`: its value, or `None` when that does not
/// fit in an `i64`.
fn scan_integer(b: &[u8], i: usize) -> (r: Option<(i64, usize)>)
    requires
        i < b@.len(),
    ensures
        match r {
            None => digits_value(b@, i as int, digits_end(b@, i as nat) as int) > i64::MAX,
            Some((v, k)) => k == digits_end(b@, i as nat) && v == digits_value(
                b@,
                i as int,
                k as int,
            ),
        },
{
    proof {
        lemma_digits_end_all_digits(b@, i as nat);
    }
    let ghost e = digits_end(b@, i as nat);
    let mut k = i;
    let mut v: i64 = 0;
    let bl = b.len();
    while k < bl && is_digit_byte(b[k])
        invariant
            i <= k <= bl,
            bl == b@.len(),
            e == digits_end(b@, i as nat),
            digits_end(b@, i as nat) == digits_end(b@, k as nat),
            v == digits_value(b@, i as int, k as int),
            forall|m: int| i <= m < e ==> is_digit(#[trigger] b@[m]),
            i <= e <= b@.len(),
        decreases bl - k,
    {
        let d = (b[k] - 48) as i64;
        proof {
            lemma_digits_end_all_digits(b@, k as nat + 1);
            lemma_digits_value_grows(b@, i as int, k as int + 1, e as int);
        }
        match v.checked_mul(10) {
            None => {
                return None;
            },
            Some(t) => match t.checked_add(d) {
                None => {
                    return None;
                },
                Some(w) => {
                    v = w;
                },
            },
        }
        k = k + 1;
    }
    Some((v, k))
}

/// Reads the token that starts at `i`, which holds no whitespace.
fn next_token(b: &[u8], i: usize) -> (r: Result<(Token, usize), LexError>)
    requires
        i < b@.len(),
    ensures
        match r {
            Ok((t, k)) => token_at(b@, i as nat) == Ok::<(TokenView, nat), LexError>((t@, k as nat)),
            Err(e) => token_at(b@, i as nat) == Err::<(TokenView, nat), LexError>(e),
        },
{
    let c = b[i];
    if let Some((t, k)) = symbol_token(b, i) {
        return Ok((t, k));
    }
    if c == 34 {
        return match scan_string(b, i + 1) {
            None => Err(LexError::UnclosedString(i)),
            Some((s, k)) => match string_from_utf8(s) {
                Some(text) => Ok((Token::StringLiteral(text), k)),
                None => Ok((Token::Illegal, i + 1)),
            },
        };
    }
    if let Some((t, k)) = keyword_token(b, i) {
        proof {
            lemma_keyword_bounds(b@, i as nat, 0);
        }
        return Ok((t, k));
    }
    if is_ident_start_byte(c) {
        let e = scan_run(b, i, true);
        proof {
            lemma_scan_end(b@, i as nat);
        }
        let mut bytes: Vec<u8> = Vec::new();
        let mut k = i;
        while k < e
            invariant
                i <= k <= e <= b@.len(),
                bytes@ =~= b@.subrange(i as int, k as int),
            decreases e - k,
        {
            bytes.push(b[k]);
            k = k + 1;
        }
        proof {
            lemma_ident_end_all_ident(b@, i as nat);
            assert forall|m: int| 0 <= m < bytes@.len() implies bytes@[m] < 128 by {
                assert(is_ident_byte(b@[i + m]));
            }
            lemma_ascii_valid_utf8(bytes@);
        }
        return match string_from_utf8(bytes) {
            Some(text) => Ok((Token::Ident(text), e)),
            None => Ok((Token::Illegal, i + 1)),
        };
    }
    if is_digit_byte(c) {
        return match scan_integer(b, i) {
            None => Err(LexError::IntegerOverflow(i)),
            Some((v, k)) => Ok((Token::IntLiteral(v), k)),
        };
    }
    Ok((Token::Illegal, i + 1))
}

} // verus!

verus! {

/// The text of the string literal at the start of `b` and the number of bytes
/// it takes.
pub open spec fn string_literal_spec(b: Seq<u8>) -> Option<(Seq<char>, nat)> {
    if b.len() > 0 && b[0] == 34 {
        match string_body(b, 1) {
            Some((body, e)) => if valid_utf8(body) {
                Some((decode_utf8(body), e))
            } else {
                None
            },
            None => None,
        }
    } else {
        None
    }
}

/// Reads the string literal at the start of `input`: its text and the number
/// of bytes it takes, quotes included. `None` when `input` does not start with
/// a quote, the literal never closes, or its bytes are not valid UTF-8.
pub fn stringliteral(input: &[u8]) -> (r: Option<(String, usize)>)
    ensures
        match r {
            Some((s, k)) => string_literal_spec(input@) == Some((s@, k as nat)),
            None => string_literal_spec(input@) is None,
        },
{
    if input.len() == 0 || input[0] != 34 {
        return None;
    }
    match scan_string(input, 1) {
        None => None,
        Some((body, k)) => match string_from_utf8(body) {
            Some(text) => Some((text, k)),
            None => None,
        },
    }
}

/// The tokens of `input`, without the end marker.
pub fn lex_tokens(input: &[u8]) -> (r: Result<Vec<Token>, LexError>)
    ensures
        match r {
            Ok(ts) => lex_from(input@, 0) == Ok::<Seq<TokenView>, LexError>(view_tokens(ts@)),
            Err(e) => lex_from(input@, 0) == Err::<Seq<TokenView>, LexError>(e),
        },
{
    let mut out: Vec<Token> = Vec::new();
    let mut i: usize = 0;
    let bl = input.len();
    while i < bl
        invariant
            i <= bl,
            bl == input@.len(),
            lex_from(input@, 0) == prepend(view_tokens(out@), lex_from(input@, i as nat)),
        decreases bl - i,
    {
        if is_space_byte(input[i]) {
            i = i + 1;
        } else {
            match next_token(input, i) {
                Err(e) => {
                    return Err(e);
                },
                Ok((t, k)) => {
                    proof {
                        lemma_token_at_advances(input@, i as nat);
                    }
                    let ghost before = out@;
                    out.push(t);
                    proof {
                        assert(view_tokens(out@) =~= view_tokens(before).push(t@));
                        assert forall|s: Seq<TokenView>|
                            view_tokens(before) + (seq![t@] + s) =~= view_tokens(out@) + s by {}
                    }
                    i = k;
                },
            }
        }
    }
    assert(view_tokens(out@) + Seq::<TokenView>::empty() =~= view_tokens(out@));
    Ok(out)
}

/// The lexer.
pub struct Lexer;

impl Lexer {
    /// The tokens of `bytes` followed by `EOF`, or the first lexical error.
    pub fn lexing(bytes: &[u8]) -> (r: Result<Vec<Token>, LexError>)
        ensures
            match r {
                Ok(ts) => lex_spec(bytes@) == Ok::<Seq<TokenView>, LexError>(view_tokens(ts@)),
                Err(e) => lex_spec(bytes@) == Err::<Seq<TokenView>, LexError>(e),
            },
            r matches Ok(ts) ==> ts@.len() > 0 && ts@.last() == Token::EOF,
    {
        match lex_tokens(bytes) {
            Err(e) => Err(e),
            Ok(ts) => {
                let mut ts = ts;
                let ghost before = ts@;
                ts.push(Token::EOF);
                assert(view_tokens(ts@) =~= view_tokens(before).push(TokenView::Plain(Token::EOF)));
                Ok(ts)
            },
        }
    }
}

} // verus!
