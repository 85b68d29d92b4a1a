//! The parser: a token sequence to a statement sequence, by recursive
//! descent with explicit precedence levels.
//!
//! The `sp_*` spec functions form the mathematical parser over token
//! views: each yields the parsed node and how many tokens it consumed, or
//! nothing where the construct cannot be parsed. Every executable parsing
//! method is proved to agree with its spec function exactly.
use crate::ast::{ExprView, Expression, LitView, Literal, Operator, Statement, StmtView};
use crate::ast::{exprs_view, names_view, stmts_view};
use crate::token::{toks_view, Token, TokenView};
use vstd::prelude::*;

verus! {

/// The token at position `i`, or the end-of-input marker beyond the end.
pub open spec fn cur(tv: Seq<TokenView>, i: int) -> TokenView {
    if 0 <= i < tv.len() {
        tv[i]
    } else {
        TokenView::EOF
    }
}

/// How many tokens stand between position `i` and the end.
pub open spec fn toks_remaining(tv: Seq<TokenView>, i: int) -> int {
    if i <= tv.len() {
        tv.len() - i
    } else {
        0
    }
}

/// A small integer naming each token's variant, payload disregarded.
#[verifier::opaque]
pub open spec fn kind_code(t: TokenView) -> int {
    match t {
        TokenView::LeftParen => 0,
        TokenView::RightParen => 1,
        TokenView::LeftBrace => 2,
        TokenView::RightBrace => 3,
        TokenView::Comma => 4,
        TokenView::Dot => 5,
        TokenView::Minus => 6,
        TokenView::Plus => 7,
        TokenView::Semicolon => 8,
        TokenView::Slash => 9,
        TokenView::Star => 10,
        TokenView::Percent => 11,
        TokenView::Equal => 12,
        TokenView::BangEqual => 13,
        TokenView::EqualEqual => 14,
        TokenView::Greater => 15,
        TokenView::GreaterEqual => 16,
        TokenView::Less => 17,
        TokenView::LessEqual => 18,
        TokenView::Tilde => 19,
        TokenView::TildeEqual => 20,
        TokenView::Identifier(_) => 21,
        TokenView::StringLiteral(_) => 22,
        TokenView::Number(_) => 23,
        TokenView::And => 24,
        TokenView::Or => 25,
        TokenView::If => 26,
        TokenView::Else => 27,
        TokenView::True => 28,
        TokenView::False => 29,
        TokenView::Nil => 30,
        TokenView::Let => 31,
        TokenView::Const => 32,
        TokenView::Func => 33,
        TokenView::Return => 34,
        TokenView::For => 35,
        TokenView::While => 36,
        TokenView::Print => 37,
        TokenView::Pub => 38,
        TokenView::Sym => 39,
        TokenView::Module => 40,
        TokenView::Import => 41,
        TokenView::SomeKw => 42,
        TokenView::Not => 43,
        TokenView::Comment(_) => 44,
        TokenView::Error(_) => 45,
        TokenView::EOF => 46,
    }
}

/// Two tokens of the same variant, payloads disregarded.
#[verifier::opaque]
pub open spec fn same_kind(a: TokenView, b: TokenView) -> bool {
    kind_code(a) == kind_code(b)
}

/// Each law below lets a variant test stand for a `same_kind` check
/// against that variant, without unfolding the kind table.
pub broadcast proof fn lemma_kind_leftparen(t: TokenView)
    ensures
        #[trigger] same_kind(t, TokenView::LeftParen) == (t is LeftParen),
{
    reveal(same_kind);
    reveal(kind_code);
}

pub broadcast proof fn lemma_kind_rightparen(t: TokenView)
    ensures
        #[trigger] same_kind(t, TokenView::RightParen) == (t is RightParen),
{
    reveal(same_kind);
    reveal(kind_code);
}

pub broadcast proof fn lemma_kind_leftbrace(t: TokenView)
    ensures
        #[trigger] same_kind(t, TokenView::LeftBrace) == (t is LeftBrace),
{
    reveal(same_kind);
    reveal(kind_code);
}

pub broadcast proof fn lemma_kind_rightbrace(t: TokenView)
    ensures
        #[trigger] same_kind(t, TokenView::RightBrace) == (t is RightBrace),
{
    reveal(same_kind);
    reveal(kind_code);
}

pub broadcast proof fn lemma_kind_comma(t: TokenView)
    ensures
        #[trigger] same_kind(t, TokenView::Comma) == (t is Comma),
{
    reveal(same_kind);
    reveal(kind_code);
}

pub broadcast proof fn lemma_kind_dot(t: TokenView)
    ensures
        #[trigger] same_kind(t, TokenView::Dot) == (t is Dot),
{
    reveal(same_kind);
    reveal(kind_code);
}

pub broadcast proof fn lemma_kind_minus(t: TokenView)
    ensures
        #[trigger] same_kind(t, TokenView::Minus) == (t is Minus),
{
    reveal(same_kind);
    reveal(kind_code);
}

pub broadcast proof fn lemma_kind_plus(t: TokenView)
    ensures
        #[trigger] same_kind(t, TokenView::Plus) == (t is Plus),
{
    reveal(same_kind);
    reveal(kind_code);
}

pub broadcast proof fn lemma_kind_semicolon(t: TokenView)
    ensures
        #[trigger] same_kind(t, TokenView::Semicolon) == (t is Semicolon),
{
    reveal(same_kind);
    reveal(kind_code);
}

pub broadcast proof fn lemma_kind_slash(t: TokenView)
    ensures
        #[trigger] same_kind(t, TokenView::Slash) == (t is Slash),
{
    reveal(same_kind);
    reveal(kind_code);
}

pub broadcast proof fn lemma_kind_star(t: TokenView)
    ensures
        #[trigger] same_kind(t, TokenView::Star) == (t is Star),
{
    reveal(same_kind);
    reveal(kind_code);
}

pub broadcast proof fn lemma_kind_percent(t: TokenView)
    ensures
        #[trigger] same_kind(t, TokenView::Percent) == (t is Percent),
{
    reveal(same_kind);
    reveal(kind_code);
}

pub broadcast proof fn lemma_kind_equal(t: TokenView)
    ensures
        #[trigger] same_kind(t, TokenView::Equal) == (t is Equal),
{
    reveal(same_kind);
    reveal(kind_code);
}

pub broadcast proof fn lemma_kind_bangequal(t: TokenView)
    ensures
        #[trigger] same_kind(t, TokenView::BangEqual) == (t is BangEqual),
{
    reveal(same_kind);
    reveal(kind_code);
}

pub broadcast proof fn lemma_kind_equalequal(t: TokenView)
    ensures
        #[trigger] same_kind(t, TokenView::EqualEqual) == (t is EqualEqual),
{
    reveal(same_kind);
    reveal(kind_code);
}

pub broadcast proof fn lemma_kind_greater(t: TokenView)
    ensures
        #[trigger] same_kind(t, TokenView::Greater) == (t is Greater),
{
    reveal(same_kind);
    reveal(kind_code);
}

pub broadcast proof fn lemma_kind_greaterequal(t: TokenView)
    ensures
        #[trigger] same_kind(t, TokenView::GreaterEqual) == (t is GreaterEqual),
{
    reveal(same_kind);
    reveal(kind_code);
}

pub broadcast proof fn lemma_kind_less(t: TokenView)
    ensures
        #[trigger] same_kind(t, TokenView::Less) == (t is Less),
{
    reveal(same_kind);
    reveal(kind_code);
}

pub broadcast proof fn lemma_kind_lessequal(t: TokenView)
    ensures
        #[trigger] same_kind(t, TokenView::LessEqual) == (t is LessEqual),
{
    reveal(same_kind);
    reveal(kind_code);
}

pub broadcast proof fn lemma_kind_tilde(t: TokenView)
    ensures
        #[trigger] same_kind(t, TokenView::Tilde) == (t is Tilde),
{
    reveal(same_kind);
    reveal(kind_code);
}

pub broadcast proof fn lemma_kind_tildeequal(t: TokenView)
    ensures
        #[trigger] same_kind(t, TokenView::TildeEqual) == (t is TildeEqual),
{
    reveal(same_kind);
    reveal(kind_code);
}

pub broadcast proof fn lemma_kind_and(t: TokenView)
    ensures
        #[trigger] same_kind(t, TokenView::And) == (t is And),
{
    reveal(same_kind);
    reveal(kind_code);
}

pub broadcast proof fn lemma_kind_or(t: TokenView)
    ensures
        #[trigger] same_kind(t, TokenView::Or) == (t is Or),
{
    reveal(same_kind);
    reveal(kind_code);
}

pub broadcast proof fn lemma_kind_if(t: TokenView)
    ensures
        #[trigger] same_kind(t, TokenView::If) == (t is If),
{
    reveal(same_kind);
    reveal(kind_code);
}

pub broadcast proof fn lemma_kind_else(t: TokenView)
    ensures
        #[trigger] same_kind(t, TokenView::Else) == (t is Else),
{
    reveal(same_kind);
    reveal(kind_code);
}

pub broadcast proof fn lemma_kind_true(t: TokenView)
    ensures
        #[trigger] same_kind(t, TokenView::True) == (t is True),
{
    reveal(same_kind);
    reveal(kind_code);
}

pub broadcast proof fn lemma_kind_false(t: TokenView)
    ensures
        #[trigger] same_kind(t, TokenView::False) == (t is False),
{
    reveal(same_kind);
    reveal(kind_code);
}

pub broadcast proof fn lemma_kind_nil(t: TokenView)
    ensures
        #[trigger] same_kind(t, TokenView::Nil) == (t is Nil),
{
    reveal(same_kind);
    reveal(kind_code);
}

pub broadcast proof fn lemma_kind_let(t: TokenView)
    ensures
        #[trigger] same_kind(t, TokenView::Let) == (t is Let),
{
    reveal(same_kind);
    reveal(kind_code);
}

pub broadcast proof fn lemma_kind_const(t: TokenView)
    ensures
        #[trigger] same_kind(t, TokenView::Const) == (t is Const),
{
    reveal(same_kind);
    reveal(kind_code);
}

pub broadcast proof fn lemma_kind_func(t: TokenView)
    ensures
        #[trigger] same_kind(t, TokenView::Func) == (t is Func),
{
    reveal(same_kind);
    reveal(kind_code);
}

pub broadcast proof fn lemma_kind_return(t: TokenView)
    ensures
        #[trigger] same_kind(t, TokenView::Return) == (t is Return),
{
    reveal(same_kind);
    reveal(kind_code);
}

pub broadcast proof fn lemma_kind_for(t: TokenView)
    ensures
        #[trigger] same_kind(t, TokenView::For) == (t is For),
{
    reveal(same_kind);
    reveal(kind_code);
}

pub broadcast proof fn lemma_kind_while(t: TokenView)
    ensures
        #[trigger] same_kind(t, TokenView::While) == (t is While),
{
    reveal(same_kind);
    reveal(kind_code);
}

pub broadcast proof fn lemma_kind_print(t: TokenView)
    ensures
        #[trigger] same_kind(t, TokenView::Print) == (t is Print),
{
    reveal(same_kind);
    reveal(kind_code);
}

pub broadcast proof fn lemma_kind_pub(t: TokenView)
    ensures
        #[trigger] same_kind(t, TokenView::Pub) == (t is Pub),
{
    reveal(same_kind);
    reveal(kind_code);
}

pub broadcast proof fn lemma_kind_sym(t: TokenView)
    ensures
        #[trigger] same_kind(t, TokenView::Sym) == (t is Sym),
{
    reveal(same_kind);
    reveal(kind_code);
}

pub broadcast proof fn lemma_kind_module(t: TokenView)
    ensures
        #[trigger] same_kind(t, TokenView::Module) == (t is Module),
{
    reveal(same_kind);
    reveal(kind_code);
}

pub broadcast proof fn lemma_kind_import(t: TokenView)
    ensures
        #[trigger] same_kind(t, TokenView::Import) == (t is Import),
{
    reveal(same_kind);
    reveal(kind_code);
}

pub broadcast proof fn lemma_kind_somekw(t: TokenView)
    ensures
        #[trigger] same_kind(t, TokenView::SomeKw) == (t is SomeKw),
{
    reveal(same_kind);
    reveal(kind_code);
}

pub broadcast proof fn lemma_kind_not(t: TokenView)
    ensures
        #[trigger] same_kind(t, TokenView::Not) == (t is Not),
{
    reveal(same_kind);
    reveal(kind_code);
}

pub broadcast proof fn lemma_kind_eof(t: TokenView)
    ensures
        #[trigger] same_kind(t, TokenView::EOF) == (t is EOF),
{
    reveal(same_kind);
    reveal(kind_code);
}

pub broadcast group group_token_kinds {
    lemma_kind_leftparen,
    lemma_kind_rightparen,
    lemma_kind_leftbrace,
    lemma_kind_rightbrace,
    lemma_kind_comma,
    lemma_kind_dot,
    lemma_kind_minus,
    lemma_kind_plus,
    lemma_kind_semicolon,
    lemma_kind_slash,
    lemma_kind_star,
    lemma_kind_percent,
    lemma_kind_equal,
    lemma_kind_bangequal,
    lemma_kind_equalequal,
    lemma_kind_greater,
    lemma_kind_greaterequal,
    lemma_kind_less,
    lemma_kind_lessequal,
    lemma_kind_tilde,
    lemma_kind_tildeequal,
    lemma_kind_and,
    lemma_kind_or,
    lemma_kind_if,
    lemma_kind_else,
    lemma_kind_true,
    lemma_kind_false,
    lemma_kind_nil,
    lemma_kind_let,
    lemma_kind_const,
    lemma_kind_func,
    lemma_kind_return,
    lemma_kind_for,
    lemma_kind_while,
    lemma_kind_print,
    lemma_kind_pub,
    lemma_kind_sym,
    lemma_kind_module,
    lemma_kind_import,
    lemma_kind_somekw,
    lemma_kind_not,
    lemma_kind_eof,
}


/// A parsed expression with the number of tokens it consumed.
pub type ExprRes = Option<(ExprView, nat)>;

/// A parsed statement with the number of tokens it consumed.
pub type StmtRes = Option<(StmtView, nat)>;

/// Parse a primary expression: a literal, a variable, or a parenthesized
/// sub-expression.
#[verifier::opaque]
pub open spec fn sp_primary(tv: Seq<TokenView>, i: int) -> ExprRes
    decreases toks_remaining(tv, i), 4int,
{
    match cur(tv, i) {
        TokenView::Number(n) => Some((ExprView::Literal(LitView::Number(n)), 1nat)),
        TokenView::StringLiteral(s) => Some((ExprView::Literal(LitView::Text(s)), 1nat)),
        TokenView::True => Some((ExprView::Literal(LitView::Boolean(true)), 1nat)),
        TokenView::False => Some((ExprView::Literal(LitView::Boolean(false)), 1nat)),
        TokenView::Nil => Some((ExprView::Literal(LitView::Nil), 1nat)),
        TokenView::Identifier(name) => Some((ExprView::Variable(name), 1nat)),
        TokenView::LeftParen => match sp_expression(tv, i + 1) {
            Some((e, n)) => if cur(tv, i + 1 + n) is RightParen {
                Some((ExprView::Grouping(Box::new(e)), (n + 2) as nat))
            } else {
                None
            },
            None => None,
        },
        _ => None,
    }
}

/// Parse zero or more comma-separated arguments, stopped before a `)`.
#[verifier::opaque]
pub open spec fn sp_arguments(tv: Seq<TokenView>, i: int) -> Option<(Seq<ExprView>, nat)>
    decreases toks_remaining(tv, i), 22int,
{
    if cur(tv, i) is RightParen {
        Some((Seq::empty(), 0nat))
    } else {
        match sp_expression(tv, i) {
            Some((e, n)) => match sp_args_rest(tv, i + n) {
                Some((rest, m)) => Some((seq![e] + rest, (n + m) as nat)),
                None => None,
            },
            None => None,
        }
    }
}

/// Parse the remaining `, expression` argument pairs.
#[verifier::opaque]
pub open spec fn sp_args_rest(tv: Seq<TokenView>, i: int) -> Option<(Seq<ExprView>, nat)>
    decreases toks_remaining(tv, i), 21int,
{
    if cur(tv, i) is Comma {
        match sp_expression(tv, i + 1) {
            Some((e, n)) => match sp_args_rest(tv, i + 1 + n) {
                Some((rest, m)) => Some((seq![e] + rest, (1 + n + m) as nat)),
                None => None,
            },
            None => None,
        }
    } else {
        Some((Seq::empty(), 0nat))
    }
}

/// Parse postfix call syntax after a parsed callee.
#[verifier::opaque]
pub open spec fn sp_call_rest(tv: Seq<TokenView>, i: int, acc: ExprView) -> ExprRes
    decreases toks_remaining(tv, i), 5int,
{
    if cur(tv, i) is LeftParen {
        match sp_arguments(tv, i + 1) {
            Some((args, m)) => if cur(tv, i + 1 + m) is RightParen {
                match sp_call_rest(
                    tv,
                    i + 2 + m,
                    ExprView::FunctionCall(Box::new(acc), args),
                ) {
                    Some((e, r)) => Some((e, (2 + m + r) as nat)),
                    None => None,
                }
            } else {
                None
            },
            None => None,
        }
    } else {
        Some((acc, 0nat))
    }
}

/// Parse a primary expression with any postfix calls.
#[verifier::opaque]
pub open spec fn sp_call(tv: Seq<TokenView>, i: int) -> ExprRes
    decreases toks_remaining(tv, i), 6int,
{
    match sp_primary(tv, i) {
        Some((e, n)) => match sp_call_rest(tv, i + n, e) {
            Some((e2, m)) => Some((e2, (n + m) as nat)),
            None => None,
        },
        None => None,
    }
}

/// Parse a unary expression: right-associative prefix `- ~ some not`.
#[verifier::opaque]
pub open spec fn sp_unary(tv: Seq<TokenView>, i: int) -> ExprRes
    decreases toks_remaining(tv, i), 7int,
{
    let op = if cur(tv, i) is Minus {
        Some(Operator::Minus)
    } else if cur(tv, i) is Tilde {
        Some(Operator::Almost)
    } else if cur(tv, i) is SomeKw {
        Some(Operator::SomeKw)
    } else if cur(tv, i) is Not {
        Some(Operator::Not)
    } else {
        None
    };
    match op {
        Some(o) => match sp_unary(tv, i + 1) {
            Some((e, n)) => Some((ExprView::Unary(o, Box::new(e)), (1 + n) as nat)),
            None => None,
        },
        None => sp_call(tv, i),
    }
}

/// Fold further `* / %` operands onto a parsed left operand.
#[verifier::opaque]
pub open spec fn sp_factor_rest(tv: Seq<TokenView>, i: int, acc: ExprView) -> ExprRes
    decreases toks_remaining(tv, i), 8int,
{
    let op = if cur(tv, i) is Star {
        Some(Operator::Multiply)
    } else if cur(tv, i) is Slash {
        Some(Operator::Divide)
    } else if cur(tv, i) is Percent {
        Some(Operator::Modulus)
    } else {
        None
    };
    match op {
        Some(o) => match sp_unary(tv, i + 1) {
            Some((rhs, n)) => match sp_factor_rest(
                tv,
                i + 1 + n,
                ExprView::Binary(Box::new(acc), o, Box::new(rhs)),
            ) {
                Some((e, m)) => Some((e, (1 + n + m) as nat)),
                None => None,
            },
            None => None,
        },
        None => Some((acc, 0nat)),
    }
}

/// Parse a multiplicative chain, folding left.
#[verifier::opaque]
pub open spec fn sp_factor(tv: Seq<TokenView>, i: int) -> ExprRes
    decreases toks_remaining(tv, i), 9int,
{
    match sp_unary(tv, i) {
        Some((e, n)) => match sp_factor_rest(tv, i + n, e) {
            Some((e2, m)) => Some((e2, (n + m) as nat)),
            None => None,
        },
        None => None,
    }
}

/// Fold further `+ -` operands onto a parsed left operand.
#[verifier::opaque]
pub open spec fn sp_term_rest(tv: Seq<TokenView>, i: int, acc: ExprView) -> ExprRes
    decreases toks_remaining(tv, i), 10int,
{
    let op = if cur(tv, i) is Plus {
        Some(Operator::Plus)
    } else if cur(tv, i) is Minus {
        Some(Operator::Minus)
    } else {
        None
    };
    match op {
        Some(o) => match sp_factor(tv, i + 1) {
            Some((rhs, n)) => match sp_term_rest(
                tv,
                i + 1 + n,
                ExprView::Binary(Box::new(acc), o, Box::new(rhs)),
            ) {
                Some((e, m)) => Some((e, (1 + n + m) as nat)),
                None => None,
            },
            None => None,
        },
        None => Some((acc, 0nat)),
    }
}

/// Parse an additive chain, folding left.
#[verifier::opaque]
pub open spec fn sp_term(tv: Seq<TokenView>, i: int) -> ExprRes
    decreases toks_remaining(tv, i), 11int,
{
    match sp_factor(tv, i) {
        Some((e, n)) => match sp_term_rest(tv, i + n, e) {
            Some((e2, m)) => Some((e2, (n + m) as nat)),
            None => None,
        },
        None => None,
    }
}

/// Fold further comparison operands onto a parsed left operand.
#[verifier::opaque]
pub open spec fn sp_cmp_rest(tv: Seq<TokenView>, i: int, acc: ExprView) -> ExprRes
    decreases toks_remaining(tv, i), 12int,
{
    let op = if cur(tv, i) is Greater {
        Some(Operator::Greater)
    } else if cur(tv, i) is GreaterEqual {
        Some(Operator::GreaterEqual)
    } else if cur(tv, i) is Less {
        Some(Operator::Less)
    } else if cur(tv, i) is LessEqual {
        Some(Operator::LessEqual)
    } else {
        None
    };
    match op {
        Some(o) => match sp_term(tv, i + 1) {
            Some((rhs, n)) => match sp_cmp_rest(
                tv,
                i + 1 + n,
                ExprView::Binary(Box::new(acc), o, Box::new(rhs)),
            ) {
                Some((e, m)) => Some((e, (1 + n + m) as nat)),
                None => None,
            },
            None => None,
        },
        None => Some((acc, 0nat)),
    }
}

/// Parse a comparison chain, folding left.
#[verifier::opaque]
pub open spec fn sp_comparison(tv: Seq<TokenView>, i: int) -> ExprRes
    decreases toks_remaining(tv, i), 13int,
{
    match sp_term(tv, i) {
        Some((e, n)) => match sp_cmp_rest(tv, i + n, e) {
            Some((e2, m)) => Some((e2, (n + m) as nat)),
            None => None,
        },
        None => None,
    }
}

/// Fold further `== !=` operands onto a parsed left operand.
#[verifier::opaque]
pub open spec fn sp_eq_rest(tv: Seq<TokenView>, i: int, acc: ExprView) -> ExprRes
    decreases toks_remaining(tv, i), 14int,
{
    let op = if cur(tv, i) is EqualEqual {
        Some(Operator::EqualEqual)
    } else if cur(tv, i) is BangEqual {
        Some(Operator::NotEqual)
    } else {
        None
    };
    match op {
        Some(o) => match sp_comparison(tv, i + 1) {
            Some((rhs, n)) => match sp_eq_rest(
                tv,
                i + 1 + n,
                ExprView::Binary(Box::new(acc), o, Box::new(rhs)),
            ) {
                Some((e, m)) => Some((e, (1 + n + m) as nat)),
                None => None,
            },
            None => None,
        },
        None => Some((acc, 0nat)),
    }
}

/// Parse an equality chain, folding left.
#[verifier::opaque]
pub open spec fn sp_equality(tv: Seq<TokenView>, i: int) -> ExprRes
    decreases toks_remaining(tv, i), 15int,
{
    match sp_comparison(tv, i) {
        Some((e, n)) => match sp_eq_rest(tv, i + n, e) {
            Some((e2, m)) => Some((e2, (n + m) as nat)),
            None => None,
        },
        None => None,
    }
}

/// Fold further `and` operands onto a parsed left operand.
#[verifier::opaque]
pub open spec fn sp_and_rest(tv: Seq<TokenView>, i: int, acc: ExprView) -> ExprRes
    decreases toks_remaining(tv, i), 16int,
{
    if cur(tv, i) is And {
        match sp_equality(tv, i + 1) {
            Some((rhs, n)) => match sp_and_rest(
                tv,
                i + 1 + n,
                ExprView::Binary(Box::new(acc), Operator::And, Box::new(rhs)),
            ) {
                Some((e, m)) => Some((e, (1 + n + m) as nat)),
                None => None,
            },
            None => None,
        }
    } else {
        Some((acc, 0nat))
    }
}

/// Parse a logical-and chain, folding left.
#[verifier::opaque]
pub open spec fn sp_logical_and(tv: Seq<TokenView>, i: int) -> ExprRes
    decreases toks_remaining(tv, i), 17int,
{
    match sp_equality(tv, i) {
        Some((e, n)) => match sp_and_rest(tv, i + n, e) {
            Some((e2, m)) => Some((e2, (n + m) as nat)),
            None => None,
        },
        None => None,
    }
}

/// Fold further `or` operands onto a parsed left operand.
#[verifier::opaque]
pub open spec fn sp_or_rest(tv: Seq<TokenView>, i: int, acc: ExprView) -> ExprRes
    decreases toks_remaining(tv, i), 18int,
{
    if cur(tv, i) is Or {
        match sp_logical_and(tv, i + 1) {
            Some((rhs, n)) => match sp_or_rest(
                tv,
                i + 1 + n,
                ExprView::Binary(Box::new(acc), Operator::Or, Box::new(rhs)),
            ) {
                Some((e, m)) => Some((e, (1 + n + m) as nat)),
                None => None,
            },
            None => None,
        }
    } else {
        Some((acc, 0nat))
    }
}

/// Parse a logical-or chain, folding left.
#[verifier::opaque]
pub open spec fn sp_logical_or(tv: Seq<TokenView>, i: int) -> ExprRes
    decreases toks_remaining(tv, i), 19int,
{
    match sp_logical_and(tv, i) {
        Some((e, n)) => match sp_or_rest(tv, i + n, e) {
            Some((e2, m)) => Some((e2, (n + m) as nat)),
            None => None,
        },
        None => None,
    }
}

/// Parse one full expression: the logical-or level.
#[verifier::opaque]
pub open spec fn sp_expression(tv: Seq<TokenView>, i: int) -> ExprRes
    decreases toks_remaining(tv, i), 20int,
{
    sp_logical_or(tv, i)
}


/// A small integer naming a token's variant, payload disregarded.
fn kind_u8(t: &Token) -> (k: u8)
    ensures
        k as int == kind_code(t@),
{
    proof {
        reveal(kind_code);
    }
    match t {
        Token::LeftParen => 0,
        Token::RightParen => 1,
        Token::LeftBrace => 2,
        Token::RightBrace => 3,
        Token::Comma => 4,
        Token::Dot => 5,
        Token::Minus => 6,
        Token::Plus => 7,
        Token::Semicolon => 8,
        Token::Slash => 9,
        Token::Star => 10,
        Token::Percent => 11,
        Token::Equal => 12,
        Token::BangEqual => 13,
        Token::EqualEqual => 14,
        Token::Greater => 15,
        Token::GreaterEqual => 16,
        Token::Less => 17,
        Token::LessEqual => 18,
        Token::Tilde => 19,
        Token::TildeEqual => 20,
        Token::Identifier(_) => 21,
        Token::StringLiteral(_) => 22,
        Token::Number(_) => 23,
        Token::And => 24,
        Token::Or => 25,
        Token::If => 26,
        Token::Else => 27,
        Token::True => 28,
        Token::False => 29,
        Token::Nil => 30,
        Token::Let => 31,
        Token::Const => 32,
        Token::Func => 33,
        Token::Return => 34,
        Token::For => 35,
        Token::While => 36,
        Token::Print => 37,
        Token::Pub => 38,
        Token::Sym => 39,
        Token::Module => 40,
        Token::Import => 41,
        Token::SomeKw => 42,
        Token::Not => 43,
        Token::Comment(_) => 44,
        Token::Error(_) => 45,
        Token::EOF => 46,
    }
}

/// The parser: a cursor over a token sequence.
pub struct Parser {
    pub tokens: Vec<Token>,
    pub current: usize,
}

impl Parser {
    /// The views of the tokens.
    pub open spec fn tv(self) -> Seq<TokenView> {
        toks_view(self.tokens@)
    }

    /// The cursor lies within the token sequence.
    pub open spec fn wf(self) -> bool {
        self.current <= self.tokens.len()
    }

    pub fn new(tokens: Vec<Token>) -> (r: Parser)
        ensures
            r.tokens == tokens,
            r.current == 0,
            r.wf(),
    {
        Parser { tokens, current: 0 }
    }

    /// Whether the cursor has reached the end: past the last token, or at
    /// the end-of-input marker.
    pub fn is_at_end(&self) -> (r: bool)
        ensures
            r == (cur(self.tv(), self.current as int) is EOF),
    {
        if self.current >= self.tokens.len() {
            true
        } else {
            proof {
                broadcast use group_token_kinds;

                assert(cur(self.tv(), self.current as int) == self.tokens@[self.current as int]@);
            }
            matches!(&self.tokens[self.current], Token::EOF)
        }
    }

    /// Whether the current token has the same variant as `expected`.
    fn check(&self, expected: &Token) -> (r: bool)
        ensures
            r == (!(cur(self.tv(), self.current as int) is EOF) && same_kind(
                cur(self.tv(), self.current as int),
                expected@,
            )),
    {
        if self.is_at_end() {
            false
        } else {
            proof {
                broadcast use group_token_kinds;

                assert(cur(self.tv(), self.current as int) == self.tokens@[self.current as int]@);
            }
            let ka = kind_u8(&self.tokens[self.current]);
            let kb = kind_u8(expected);
            proof {
                reveal(same_kind);
            }
            ka == kb
        }
    }

    /// Move past the current token, unless the end is reached.
    fn advance(&mut self)
        requires
            old(self).wf(),
        ensures
            final(self).tokens == old(self).tokens,
            final(self).wf(),
            cur(old(self).tv(), old(self).current as int) is EOF ==> final(self).current == old(self).current,
            !(cur(old(self).tv(), old(self).current as int) is EOF) ==> final(self).current == old(self).current + 1,
    {
        if !self.is_at_end() {
            proof {
                broadcast use group_token_kinds;

                assert(old(self).current < old(self).tokens.len());
            }
            self.current = self.current + 1;
        }
    }

    /// Consume the current token when it has the same variant as
    /// `expected`.
    fn match_token(&mut self, expected: Token) -> (r: bool)
        requires
            old(self).wf(),
        ensures
            final(self).tokens == old(self).tokens,
            final(self).wf(),
            r == same_kind(cur(old(self).tv(), old(self).current as int), expected@),
            (r && !(cur(old(self).tv(), old(self).current as int) is EOF)) ==> final(self).current
                == old(self).current + 1,
            (r && cur(old(self).tv(), old(self).current as int) is EOF) ==> final(self).current
                == old(self).current,
            !r ==> final(self).current == old(self).current,
    {
        proof {
            reveal(same_kind);
        }
        let matches_now = if self.current >= self.tokens.len() {
            kind_u8(&Token::EOF) == kind_u8(&expected)
        } else {
            proof {
                broadcast use group_token_kinds;

                assert(cur(self.tv(), self.current as int) == self.tokens@[self.current as int]@);
            }
            let ka = kind_u8(&self.tokens[self.current]);
            let kb = kind_u8(&expected);
            ka == kb
        };
        if matches_now {
            self.advance();
            true
        } else {
            false
        }
    }

    /// Parse a primary expression: a literal, a variable, or a
    /// parenthesized sub-expression.
    #[verifier::rlimit(100)]
    #[verifier::spinoff_prover]
    fn parse_primary(&mut self) -> (r: Option<Expression>)
        requires
            old(self).wf(),
        ensures
            final(self).tokens == old(self).tokens,
            final(self).wf(),
            final(self).current >= old(self).current,
            r is Some ==> final(self).current > old(self).current,
            ({
                let res = sp_primary(old(self).tv(), old(self).current as int);
                match (r, res) {
                    (Option::Some(e), Option::Some(p)) => e@ == p.0 && final(self).current == old(self).current + p.1,
                    (Option::None, Option::None) => true,
                    _ => false,
                }
            }),
        decreases toks_remaining(self.tv(), self.current as int), 4int,
    {
        let ghost tv = self.tv();
        let ghost i = self.current as int;
        proof {
            broadcast use group_token_kinds;

            reveal(sp_primary);
        }
        if self.current >= self.tokens.len() {
            proof {
                broadcast use group_token_kinds;

                assert(cur(tv, i) is EOF);
            }
            return Option::None;
        }
        proof {
            broadcast use group_token_kinds;

            assert(cur(tv, i) == self.tokens@[i]@);
        }
        match &self.tokens[self.current] {
            Token::Number(n) => {
                let v = *n;
                self.current = self.current + 1;
                Option::Some(Expression::Literal(Literal::Number(v)))
            },
            Token::StringLiteral(s) => {
                let v = s.clone();
                self.current = self.current + 1;
                Option::Some(Expression::Literal(Literal::Text(v)))
            },
            Token::True => {
                self.current = self.current + 1;
                Option::Some(Expression::Literal(Literal::Boolean(true)))
            },
            Token::False => {
                self.current = self.current + 1;
                Option::Some(Expression::Literal(Literal::Boolean(false)))
            },
            Token::Nil => {
                self.current = self.current + 1;
                Option::Some(Expression::Literal(Literal::Nil))
            },
            Token::Identifier(name) => {
                let v = name.clone();
                self.current = self.current + 1;
                Option::Some(Expression::Variable(v))
            },
            Token::LeftParen => {
                self.current = self.current + 1;
                match self.parse_expression() {
                    Option::Some(e) => {
                        if self.match_token(Token::RightParen) {
                            Option::Some(Expression::Grouping(Box::new(e)))
                        } else {
                            Option::None
                        }
                    },
                    Option::None => Option::None,
                }
            },
            _ => Option::None,
        }
    }

    /// Parse the comma-separated arguments of a call, stopped before `)`.
    #[verifier::loop_isolation(false)]
    #[verifier::rlimit(100)]
    #[verifier::spinoff_prover]
    fn parse_arguments(&mut self) -> (r: Option<Vec<Expression>>)
        requires
            old(self).wf(),
        ensures
            final(self).tokens == old(self).tokens,
            final(self).wf(),
            final(self).current >= old(self).current,
            ({
                let res = sp_arguments(old(self).tv(), old(self).current as int);
                match (r, res) {
                    (Option::Some(es), Option::Some(p)) => exprs_view(es@) == p.0 && final(self).current == old(self).current + p.1,
                    (Option::None, Option::None) => true,
                    _ => false,
                }
            }),
        decreases toks_remaining(self.tv(), self.current as int), 22int,
    {
        let ghost tv = self.tv();
        let ghost i0 = self.current as int;
        proof {
            broadcast use group_token_kinds;

            reveal(sp_arguments);
            reveal(sp_args_rest);
        }
        let mut arguments: Vec<Expression> = Vec::new();
        if self.check(&Token::RightParen) {
            proof {
                assert(exprs_view(arguments@) =~= Seq::<ExprView>::empty());
            }
            return Option::Some(arguments);
        }
        match self.parse_expression() {
            Option::Some(arg) => {
                proof {
                    assert((arguments@.push(arg)).drop_last() =~= arguments@);
                    assert((arguments@.push(arg)).last() == arg);
                    assert(exprs_view(arguments@) =~= Seq::<ExprView>::empty());
                    assert(exprs_view(arguments@.push(arg)) =~= seq![arg@]);
                }
                arguments.push(arg);
            },
            Option::None => {
                return Option::None;
            },
        }
        while self.match_token(Token::Comma)
            invariant
                self.wf(),
                self.tokens == old(self).tokens,
                i0 < self.current,
                ({
                    match sp_args_rest(tv, self.current as int) {
                        Option::Some(p) => sp_arguments(tv, i0) == Option::Some(
                            (
                                exprs_view(arguments@) + p.0,
                                ((self.current - i0) + p.1) as nat,
                            ),
                        ),
                        Option::None => sp_arguments(tv, i0) is None,
                    }
                }),
            decreases toks_remaining(tv, self.current as int),
        {
            let ghost j = (self.current - 1) as int;
            let ghost args_old = arguments@;
            proof {
                broadcast use group_token_kinds;

                reveal(sp_args_rest);
                assert(cur(tv, j) is Comma);
            }
            match self.parse_expression() {
                Option::Some(arg) => {
                    proof {
                        broadcast use group_token_kinds;

                        reveal(sp_args_rest);
                        let after = sp_args_rest(tv, self.current as int);
                        assert((args_old.push(arg)).drop_last() =~= args_old);
                        assert((args_old.push(arg)).last() == arg);
                        assert(exprs_view(args_old.push(arg)) =~= exprs_view(args_old).push(
                            arg@,
                        ));
                        if after is Some {
                            let rest = after.unwrap().0;
                            assert(exprs_view(args_old).push(arg@) + rest =~= exprs_view(args_old)
                                + (seq![arg@] + rest));
                        }
                    }
                    arguments.push(arg);
                },
                Option::None => {
                    return Option::None;
                },
            }
        }
        proof {
            broadcast use group_token_kinds;

            reveal(sp_args_rest);
            assert(sp_args_rest(tv, self.current as int) == Option::<(Seq<ExprView>, nat)>::Some(
                (Seq::empty(), 0nat),
            ));
            assert(exprs_view(arguments@) + Seq::<ExprView>::empty() =~= exprs_view(arguments@));
        }
        Option::Some(arguments)
    }

    /// Parse one call's argument list and closing parenthesis; the `(`
    /// stands at the cursor.
    #[verifier::rlimit(100)]
    #[verifier::spinoff_prover]
    fn finish_call(&mut self, callee: Expression) -> (r: Option<Expression>)
        requires
            old(self).wf(),
            cur(old(self).tv(), old(self).current as int) is LeftParen,
        ensures
            final(self).tokens == old(self).tokens,
            final(self).wf(),
            final(self).current >= old(self).current,
            final(self).current > old(self).current,
            ({
                match sp_arguments(old(self).tv(), old(self).current + 1) {
                    Option::Some(p) => {
                        if cur(old(self).tv(), old(self).current + 1 + p.1) is RightParen {
                            match r {
                                Option::Some(e) => e@ == ExprView::FunctionCall(
                                    Box::new(callee@),
                                    p.0,
                                ) && final(self).current == old(self).current + 2 + p.1,
                                Option::None => false,
                            }
                        } else {
                            r is None
                        }
                    },
                    Option::None => r is None,
                }
            }),
        decreases toks_remaining(self.tv(), self.current as int), 5int,
    {
        proof {
            broadcast use group_token_kinds;

        }
        self.advance();
        let args = match self.parse_arguments() {
            Option::Some(a) => a,
            Option::None => {
                return Option::None;
            },
        };
        if !self.match_token(Token::RightParen) {
            return Option::None;
        }
        Option::Some(Expression::FunctionCall(Box::new(callee), args))
    }

    /// Parse a primary expression with any postfix call syntax.
    #[verifier::loop_isolation(false)]
    #[verifier::rlimit(100)]
    #[verifier::spinoff_prover]
    fn parse_call_expression(&mut self) -> (r: Option<Expression>)
        requires
            old(self).wf(),
        ensures
            final(self).tokens == old(self).tokens,
            final(self).wf(),
            final(self).current >= old(self).current,
            r is Some ==> final(self).current > old(self).current,
            ({
                let res = sp_call(old(self).tv(), old(self).current as int);
                match (r, res) {
                    (Option::Some(e), Option::Some(p)) => e@ == p.0 && final(self).current == old(self).current + p.1,
                    (Option::None, Option::None) => true,
                    _ => false,
                }
            }),
        decreases toks_remaining(self.tv(), self.current as int), 6int,
    {
        let ghost tv = self.tv();
        let ghost i0 = self.current as int;
        proof {
            broadcast use group_token_kinds;

            reveal(sp_call);
            reveal(sp_call_rest);
        }
        let mut expr: Expression;
        match self.parse_primary() {
            Option::Some(e) => {
                expr = e;
            },
            Option::None => {
                return Option::None;
            },
        }
        while self.check(&Token::LeftParen)
            invariant
                self.wf(),
                self.tokens == old(self).tokens,
                i0 < self.current,
                ({
                    match sp_call_rest(tv, self.current as int, expr@) {
                        Option::Some(p) => sp_call(tv, i0) == Option::Some(
                            (p.0, ((self.current - i0) + p.1) as nat),
                        ),
                        Option::None => sp_call(tv, i0) is None,
                    }
                }),
            decreases toks_remaining(tv, self.current as int),
        {
            proof {
                broadcast use group_token_kinds;

                reveal(sp_call);
                reveal(sp_call_rest);
            }
            match self.finish_call(expr) {
                Option::Some(e) => {
                    expr = e;
                },
                Option::None => {
                    return Option::None;
                },
            }
        }
        proof {
            broadcast use group_token_kinds;

            reveal(sp_call);
            reveal(sp_call_rest);
        }
        Option::Some(expr)
    }

    /// Parse a unary expression: right-associative prefix `- ~ some not`.
    #[verifier::rlimit(100)]
    #[verifier::spinoff_prover]
    fn parse_unary(&mut self) -> (r: Option<Expression>)
        requires
            old(self).wf(),
        ensures
            final(self).tokens == old(self).tokens,
            final(self).wf(),
            final(self).current >= old(self).current,
            r is Some ==> final(self).current > old(self).current,
            ({
                let res = sp_unary(old(self).tv(), old(self).current as int);
                match (r, res) {
                    (Option::Some(e), Option::Some(p)) => e@ == p.0 && final(self).current == old(self).current + p.1,
                    (Option::None, Option::None) => true,
                    _ => false,
                }
            }),
        decreases toks_remaining(self.tv(), self.current as int), 7int,
    {
        proof {
            broadcast use group_token_kinds;

            reveal(sp_unary);
        }
        let op: Option<Operator> = if self.check(&Token::Minus) {
            Option::Some(Operator::Minus)
        } else if self.check(&Token::Tilde) {
            Option::Some(Operator::Almost)
        } else if self.check(&Token::SomeKw) {
            Option::Some(Operator::SomeKw)
        } else if self.check(&Token::Not) {
            Option::Some(Operator::Not)
        } else {
            Option::None
        };
        match op {
            Option::Some(o) => {
                proof {
                    broadcast use group_token_kinds;

                    reveal(sp_unary);
                    assert(!(cur(old(self).tv(), old(self).current as int) is EOF));
                }
                self.advance();
                let ghost prev = sp_unary(old(self).tv(), old(self).current + 1);
                match self.parse_unary() {
                    Option::Some(e) => {
                        let result = Expression::Unary(o, Box::new(e));
                        proof {
                            broadcast use group_token_kinds;

                            assert(prev is Some && e@ == prev.unwrap().0);
                            assert(result@ == ExprView::Unary(o, Box::new(e@)));
                            assert(sp_unary(old(self).tv(), old(self).current as int)
                                == Option::Some((result@, (1 + prev.unwrap().1) as nat)));
                            assert(self.current == old(self).current + 1 + prev.unwrap().1);
                        }
                        Option::Some(result)
                    },
                    Option::None => {
                        proof {
                            broadcast use group_token_kinds;

                            assert(sp_unary(old(self).tv(), old(self).current as int) is None);
                        }
                        Option::None
                    },
                }
            },
            Option::None => {
                proof {
                    broadcast use group_token_kinds;

                    reveal(sp_unary);
                    let t = cur(old(self).tv(), old(self).current as int);
                    assert(!(t is Minus));
                    assert(!(t is Tilde));
                    assert(!(t is SomeKw));
                    assert(!(t is Not));
                    assert(sp_unary(old(self).tv(), old(self).current as int) == sp_call(
                        old(self).tv(),
                        old(self).current as int,
                    ));
                }
                self.parse_call_expression()
            },
        }
    }
}

impl Parser {
    /// Parse a multiplicative chain, folding left.
    #[verifier::loop_isolation(false)]
    #[verifier::rlimit(100)]
    #[verifier::spinoff_prover]
    fn parse_factor(&mut self) -> (r: Option<Expression>)
        requires
            old(self).wf(),
        ensures
            final(self).tokens == old(self).tokens,
            final(self).wf(),
            final(self).current >= old(self).current,
            r is Some ==> final(self).current > old(self).current,
            ({
                let res = sp_factor(old(self).tv(), old(self).current as int);
                match (r, res) {
                    (Option::Some(e), Option::Some(p)) => e@ == p.0 && final(self).current == old(self).current + p.1,
                    (Option::None, Option::None) => true,
                    _ => false,
                }
            }),
        decreases toks_remaining(self.tv(), self.current as int), 9int,
    {
        let ghost tv = self.tv();
        let ghost i0 = self.current as int;
        proof {
            broadcast use group_token_kinds;

            reveal(sp_factor);
            reveal(sp_factor_rest);
        }
        let mut expr: Expression;
        match self.parse_unary() {
            Option::Some(e) => {
                expr = e;
            },
            Option::None => {
                return Option::None;
            },
        }
        while self.check(&Token::Star) || self.check(&Token::Slash) || self.check(&Token::Percent)
            invariant
                self.wf(),
                self.tokens == old(self).tokens,
                i0 < self.current,
                ({
                    match sp_factor_rest(tv, self.current as int, expr@) {
                        Option::Some(p) => sp_factor(tv, i0) == Option::Some(
                            (p.0, ((self.current - i0) + p.1) as nat),
                        ),
                        Option::None => sp_factor(tv, i0) is None,
                    }
                }),
            decreases toks_remaining(tv, self.current as int),
        {
            proof {
                broadcast use group_token_kinds;

                reveal(sp_factor);
                reveal(sp_factor_rest);
            }
            let op: Operator = if self.check(&Token::Star) {
                Operator::Multiply
            } else if self.check(&Token::Slash) {
                Operator::Divide
            } else {
                Operator::Modulus
            };
            self.advance();
            match self.parse_unary() {
                Option::Some(rhs) => {
                    expr = Expression::Binary(Box::new(expr), op, Box::new(rhs));
                },
                Option::None => {
                    return Option::None;
                },
            }
        }
        proof {
            broadcast use group_token_kinds;

            reveal(sp_factor);
            reveal(sp_factor_rest);
        }
        Option::Some(expr)
    }

    /// Parse an additive chain, folding left.
    #[verifier::loop_isolation(false)]
    #[verifier::rlimit(100)]
    #[verifier::spinoff_prover]
    fn parse_term(&mut self) -> (r: Option<Expression>)
        requires
            old(self).wf(),
        ensures
            final(self).tokens == old(self).tokens,
            final(self).wf(),
            final(self).current >= old(self).current,
            r is Some ==> final(self).current > old(self).current,
            ({
                let res = sp_term(old(self).tv(), old(self).current as int);
                match (r, res) {
                    (Option::Some(e), Option::Some(p)) => e@ == p.0 && final(self).current == old(self).current + p.1,
                    (Option::None, Option::None) => true,
                    _ => false,
                }
            }),
        decreases toks_remaining(self.tv(), self.current as int), 11int,
    {
        let ghost tv = self.tv();
        let ghost i0 = self.current as int;
        proof {
            broadcast use group_token_kinds;

            reveal(sp_term);
            reveal(sp_term_rest);
        }
        let mut expr: Expression;
        match self.parse_factor() {
            Option::Some(e) => {
                expr = e;
            },
            Option::None => {
                return Option::None;
            },
        }
        while self.check(&Token::Plus) || self.check(&Token::Minus)
            invariant
                self.wf(),
                self.tokens == old(self).tokens,
                i0 < self.current,
                ({
                    match sp_term_rest(tv, self.current as int, expr@) {
                        Option::Some(p) => sp_term(tv, i0) == Option::Some(
                            (p.0, ((self.current - i0) + p.1) as nat),
                        ),
                        Option::None => sp_term(tv, i0) is None,
                    }
                }),
            decreases toks_remaining(tv, self.current as int),
        {
            proof {
                broadcast use group_token_kinds;

                reveal(sp_term);
                reveal(sp_term_rest);
            }
            let op: Operator = if self.check(&Token::Plus) {
                Operator::Plus
            } else {
                Operator::Minus
            };
            self.advance();
            match self.parse_factor() {
                Option::Some(rhs) => {
                    expr = Expression::Binary(Box::new(expr), op, Box::new(rhs));
                },
                Option::None => {
                    return Option::None;
                },
            }
        }
        proof {
            broadcast use group_token_kinds;

            reveal(sp_term);
            reveal(sp_term_rest);
        }
        Option::Some(expr)
    }

    /// Parse a comparison chain, folding left.
    #[verifier::loop_isolation(false)]
    #[verifier::rlimit(100)]
    #[verifier::spinoff_prover]
    fn parse_comparison(&mut self) -> (r: Option<Expression>)
        requires
            old(self).wf(),
        ensures
            final(self).tokens == old(self).tokens,
            final(self).wf(),
            final(self).current >= old(self).current,
            r is Some ==> final(self).current > old(self).current,
            ({
                let res = sp_comparison(old(self).tv(), old(self).current as int);
                match (r, res) {
                    (Option::Some(e), Option::Some(p)) => e@ == p.0 && final(self).current == old(self).current + p.1,
                    (Option::None, Option::None) => true,
                    _ => false,
                }
            }),
        decreases toks_remaining(self.tv(), self.current as int), 13int,
    {
        let ghost tv = self.tv();
        let ghost i0 = self.current as int;
        proof {
            broadcast use group_token_kinds;

            reveal(sp_comparison);
            reveal(sp_cmp_rest);
        }
        let mut expr: Expression;
        match self.parse_term() {
            Option::Some(e) => {
                expr = e;
            },
            Option::None => {
                return Option::None;
            },
        }
        while self.check(&Token::Greater) || self.check(&Token::GreaterEqual) || self.check(&Token::Less) || self.check(&Token::LessEqual)
            invariant
                self.wf(),
                self.tokens == old(self).tokens,
                i0 < self.current,
                ({
                    match sp_cmp_rest(tv, self.current as int, expr@) {
                        Option::Some(p) => sp_comparison(tv, i0) == Option::Some(
                            (p.0, ((self.current - i0) + p.1) as nat),
                        ),
                        Option::None => sp_comparison(tv, i0) is None,
                    }
                }),
            decreases toks_remaining(tv, self.current as int),
        {
            proof {
                broadcast use group_token_kinds;

                reveal(sp_comparison);
                reveal(sp_cmp_rest);
            }
            let op: Operator = if self.check(&Token::Greater) {
                Operator::Greater
            } else if self.check(&Token::GreaterEqual) {
                Operator::GreaterEqual
            } else if self.check(&Token::Less) {
                Operator::Less
            } else {
                Operator::LessEqual
            };
            self.advance();
            match self.parse_term() {
                Option::Some(rhs) => {
                    expr = Expression::Binary(Box::new(expr), op, Box::new(rhs));
                },
                Option::None => {
                    return Option::None;
                },
            }
        }
        proof {
            broadcast use group_token_kinds;

            reveal(sp_comparison);
            reveal(sp_cmp_rest);
        }
        Option::Some(expr)
    }

    /// Parse an equality chain, folding left.
    #[verifier::loop_isolation(false)]
    #[verifier::rlimit(100)]
    #[verifier::spinoff_prover]
    fn parse_equality(&mut self) -> (r: Option<Expression>)
        requires
            old(self).wf(),
        ensures
            final(self).tokens == old(self).tokens,
            final(self).wf(),
            final(self).current >= old(self).current,
            r is Some ==> final(self).current > old(self).current,
            ({
                let res = sp_equality(old(self).tv(), old(self).current as int);
                match (r, res) {
                    (Option::Some(e), Option::Some(p)) => e@ == p.0 && final(self).current == old(self).current + p.1,
                    (Option::None, Option::None) => true,
                    _ => false,
                }
            }),
        decreases toks_remaining(self.tv(), self.current as int), 15int,
    {
        let ghost tv = self.tv();
        let ghost i0 = self.current as int;
        proof {
            broadcast use group_token_kinds;

            reveal(sp_equality);
            reveal(sp_eq_rest);
        }
        let mut expr: Expression;
        match self.parse_comparison() {
            Option::Some(e) => {
                expr = e;
            },
            Option::None => {
                return Option::None;
            },
        }
        while self.check(&Token::EqualEqual) || self.check(&Token::BangEqual)
            invariant
                self.wf(),
                self.tokens == old(self).tokens,
                i0 < self.current,
                ({
                    match sp_eq_rest(tv, self.current as int, expr@) {
                        Option::Some(p) => sp_equality(tv, i0) == Option::Some(
                            (p.0, ((self.current - i0) + p.1) as nat),
                        ),
                        Option::None => sp_equality(tv, i0) is None,
                    }
                }),
            decreases toks_remaining(tv, self.current as int),
        {
            proof {
                broadcast use group_token_kinds;

                reveal(sp_equality);
                reveal(sp_eq_rest);
            }
            let op: Operator = if self.check(&Token::EqualEqual) {
                Operator::EqualEqual
            } else {
                Operator::NotEqual
            };
            self.advance();
            match self.parse_comparison() {
                Option::Some(rhs) => {
                    expr = Expression::Binary(Box::new(expr), op, Box::new(rhs));
                },
                Option::None => {
                    return Option::None;
                },
            }
        }
        proof {
            broadcast use group_token_kinds;

            reveal(sp_equality);
            reveal(sp_eq_rest);
        }
        Option::Some(expr)
    }

    /// Parse a logical-and chain, folding left.
    #[verifier::loop_isolation(false)]
    #[verifier::rlimit(100)]
    #[verifier::spinoff_prover]
    fn parse_logical_and(&mut self) -> (r: Option<Expression>)
        requires
            old(self).wf(),
        ensures
            final(self).tokens == old(self).tokens,
            final(self).wf(),
            final(self).current >= old(self).current,
            r is Some ==> final(self).current > old(self).current,
            ({
                let res = sp_logical_and(old(self).tv(), old(self).current as int);
                match (r, res) {
                    (Option::Some(e), Option::Some(p)) => e@ == p.0 && final(self).current == old(self).current + p.1,
                    (Option::None, Option::None) => true,
                    _ => false,
                }
            }),
        decreases toks_remaining(self.tv(), self.current as int), 17int,
    {
        let ghost tv = self.tv();
        let ghost i0 = self.current as int;
        proof {
            broadcast use group_token_kinds;

            reveal(sp_logical_and);
            reveal(sp_and_rest);
        }
        let mut expr: Expression;
        match self.parse_equality() {
            Option::Some(e) => {
                expr = e;
            },
            Option::None => {
                return Option::None;
            },
        }
        while self.check(&Token::And)
            invariant
                self.wf(),
                self.tokens == old(self).tokens,
                i0 < self.current,
                ({
                    match sp_and_rest(tv, self.current as int, expr@) {
                        Option::Some(p) => sp_logical_and(tv, i0) == Option::Some(
                            (p.0, ((self.current - i0) + p.1) as nat),
                        ),
                        Option::None => sp_logical_and(tv, i0) is None,
                    }
                }),
            decreases toks_remaining(tv, self.current as int),
        {
            proof {
                broadcast use group_token_kinds;

                reveal(sp_logical_and);
                reveal(sp_and_rest);
            }
            let op: Operator = Operator::And;
            self.advance();
            match self.parse_equality() {
                Option::Some(rhs) => {
                    expr = Expression::Binary(Box::new(expr), op, Box::new(rhs));
                },
                Option::None => {
                    return Option::None;
                },
            }
        }
        proof {
            broadcast use group_token_kinds;

            reveal(sp_logical_and);
            reveal(sp_and_rest);
        }
        Option::Some(expr)
    }

    /// Parse a logical-or chain, folding left.
    #[verifier::loop_isolation(false)]
    #[verifier::rlimit(100)]
    #[verifier::spinoff_prover]
    fn parse_logical_or(&mut self) -> (r: Option<Expression>)
        requires
            old(self).wf(),
        ensures
            final(self).tokens == old(self).tokens,
            final(self).wf(),
            final(self).current >= old(self).current,
            r is Some ==> final(self).current > old(self).current,
            ({
                let res = sp_logical_or(old(self).tv(), old(self).current as int);
                match (r, res) {
                    (Option::Some(e), Option::Some(p)) => e@ == p.0 && final(self).current == old(self).current + p.1,
                    (Option::None, Option::None) => true,
                    _ => false,
                }
            }),
        decreases toks_remaining(self.tv(), self.current as int), 19int,
    {
        let ghost tv = self.tv();
        let ghost i0 = self.current as int;
        proof {
            broadcast use group_token_kinds;

            reveal(sp_logical_or);
            reveal(sp_or_rest);
        }
        let mut expr: Expression;
        match self.parse_logical_and() {
            Option::Some(e) => {
                expr = e;
            },
            Option::None => {
                return Option::None;
            },
        }
        while self.check(&Token::Or)
            invariant
                self.wf(),
                self.tokens == old(self).tokens,
                i0 < self.current,
                ({
                    match sp_or_rest(tv, self.current as int, expr@) {
                        Option::Some(p) => sp_logical_or(tv, i0) == Option::Some(
                            (p.0, ((self.current - i0) + p.1) as nat),
                        ),
                        Option::None => sp_logical_or(tv, i0) is None,
                    }
                }),
            decreases toks_remaining(tv, self.current as int),
        {
            proof {
                broadcast use group_token_kinds;

                reveal(sp_logical_or);
                reveal(sp_or_rest);
            }
            let op: Operator = Operator::Or;
            self.advance();
            match self.parse_logical_and() {
                Option::Some(rhs) => {
                    expr = Expression::Binary(Box::new(expr), op, Box::new(rhs));
                },
                Option::None => {
                    return Option::None;
                },
            }
        }
        proof {
            broadcast use group_token_kinds;

            reveal(sp_logical_or);
            reveal(sp_or_rest);
        }
        Option::Some(expr)
    }

    /// Parse one full expression.
    #[verifier::rlimit(100)]
    #[verifier::spinoff_prover]
    fn parse_expression(&mut self) -> (r: Option<Expression>)
        requires
            old(self).wf(),
        ensures
            final(self).tokens == old(self).tokens,
            final(self).wf(),
            final(self).current >= old(self).current,
            r is Some ==> final(self).current > old(self).current,
            ({
                let res = sp_expression(old(self).tv(), old(self).current as int);
                match (r, res) {
                    (Option::Some(e), Option::Some(p)) => e@ == p.0 && final(self).current == old(self).current + p.1,
                    (Option::None, Option::None) => true,
                    _ => false,
                }
            }),
        decreases toks_remaining(self.tv(), self.current as int), 20int,
    {
        proof {
            broadcast use group_token_kinds;

            reveal(sp_expression);
        }
        self.parse_logical_or()
    }
}


/// How many comment tokens stand at `i`.
#[verifier::opaque]
pub open spec fn skip_len(tv: Seq<TokenView>, i: int) -> nat
    decreases toks_remaining(tv, i), 1int,
{
    if cur(tv, i) is Comment {
        1 + skip_len(tv, i + 1)
    } else {
        0
    }
}

/// Parse a print statement; the `print` keyword stands at `i`.
#[verifier::opaque]
pub open spec fn sp_print(tv: Seq<TokenView>, i: int) -> StmtRes
    decreases toks_remaining(tv, i), 27int,
{
    if cur(tv, i) is Print {
        match sp_expression(tv, i + 1) {
            Some((e, n)) => if cur(tv, i + 1 + n) is Semicolon {
                Some((StmtView::PrintStatement(e), (n + 2) as nat))
            } else {
                None
            },
            None => None,
        }
    } else {
        None
    }
}

/// Parse a variable declaration; the `let` keyword stands at `i`. A `=`
/// must be followed by a parseable initializer expression.
#[verifier::opaque]
pub open spec fn sp_var_decl(tv: Seq<TokenView>, i: int) -> StmtRes
    decreases toks_remaining(tv, i), 27int,
{
    if cur(tv, i) is Let {
        match cur(tv, i + 1) {
            TokenView::Identifier(name) => {
                if cur(tv, i + 2) is Equal {
                    match sp_expression(tv, i + 3) {
                        Some((e, m)) => if cur(tv, i + 3 + m) is Semicolon {
                            Some(
                                (
                                    StmtView::VariableDeclaration(name, Some(e)),
                                    (m + 4) as nat,
                                ),
                            )
                        } else {
                            None
                        },
                        None => None,
                    }
                } else if cur(tv, i + 2) is Semicolon {
                    Some((StmtView::VariableDeclaration(name, None), 3nat))
                } else {
                    None
                }
            },
            _ => None,
        }
    } else {
        None
    }
}

/// Parse an assignment or an expression statement: a full expression,
/// then either `= expression ;` onto a bare variable, or `;` alone.
#[verifier::opaque]
pub open spec fn sp_assign_or_expr(tv: Seq<TokenView>, i: int) -> StmtRes
    decreases toks_remaining(tv, i), 27int,
{
    match sp_expression(tv, i) {
        Some((e, n)) => {
            let j = i + n + skip_len(tv, i + n);
            if cur(tv, j) is Equal {
                match e {
                    ExprView::Variable(name) => {
                        let k = j + 1 + skip_len(tv, j + 1);
                        match sp_expression(tv, k) {
                            Some((v, m)) => {
                                let s2 = k + m + skip_len(tv, k + m);
                                if cur(tv, s2) is Semicolon {
                                    Some(
                                        (
                                            StmtView::Assignment { target_name: name, value: v },
                                            (s2 + 1 - i) as nat,
                                        ),
                                    )
                                } else {
                                    None
                                }
                            },
                            None => None,
                        }
                    },
                    _ => None,
                }
            } else if cur(tv, j) is Semicolon {
                Some((StmtView::ExpressionStatement(e), (j + 1 - i) as nat))
            } else {
                None
            }
        },
        None => None,
    }
}

/// Parse the statements of a block, stopped before the closing `}` or at
/// the end of input.
#[verifier::opaque]
pub open spec fn sp_block_rest(tv: Seq<TokenView>, i: int) -> Option<(Seq<StmtView>, nat)>
    decreases toks_remaining(tv, i), 29int,
{
    if cur(tv, i) is RightBrace || cur(tv, i) is EOF {
        Some((Seq::empty(), 0nat))
    } else {
        match sp_statement(tv, i) {
            Some((s, n)) => {
                let n1: nat = if n < 1 {
                    1
                } else {
                    n
                };
                match sp_block_rest(tv, i + n1) {
                    Some((rest, m)) => Some((seq![s] + rest, (n1 + m) as nat)),
                    None => None,
                }
            },
            None => None,
        }
    }
}

/// Parse a block statement; the `{` stands at `i`.
#[verifier::opaque]
pub open spec fn sp_block(tv: Seq<TokenView>, i: int) -> StmtRes
    decreases toks_remaining(tv, i), 27int,
{
    if cur(tv, i) is LeftBrace {
        match sp_block_rest(tv, i + 1) {
            Some((ss, n)) => if cur(tv, i + 1 + n) is RightBrace {
                Some((StmtView::Block(ss), (n + 2) as nat))
            } else {
                None
            },
            None => None,
        }
    } else {
        None
    }
}

/// Parse an if statement; the `if` keyword stands at `i`. Both branches
/// must be blocks.
#[verifier::opaque]
pub open spec fn sp_if(tv: Seq<TokenView>, i: int) -> StmtRes
    decreases toks_remaining(tv, i), 27int,
{
    if cur(tv, i) is If && cur(tv, i + 1) is LeftParen {
        match sp_expression(tv, i + 2) {
            Some((c, n)) => if cur(tv, i + 2 + n) is RightParen {
                let p = i + 3 + n;
                if cur(tv, p) is LeftBrace {
                    match sp_statement(tv, p) {
                        Some((thn, m)) => {
                            let q = p + m;
                            if cur(tv, q) is Else {
                                if cur(tv, q + 1) is LeftBrace {
                                    match sp_statement(tv, q + 1) {
                                        Some((els, r)) => Some(
                                            (
                                                StmtView::IfStatement(
                                                    c,
                                                    Box::new(thn),
                                                    Some(Box::new(els)),
                                                ),
                                                (q + 1 + r - i) as nat,
                                            ),
                                        ),
                                        None => None,
                                    }
                                } else {
                                    None
                                }
                            } else {
                                Some(
                                    (
                                        StmtView::IfStatement(c, Box::new(thn), None),
                                        (q - i) as nat,
                                    ),
                                )
                            }
                        },
                        None => None,
                    }
                } else {
                    None
                }
            } else {
                None
            },
            None => None,
        }
    } else {
        None
    }
}

/// Parse a while statement; the `while` keyword stands at `i`. The body
/// must be a block.
#[verifier::opaque]
pub open spec fn sp_while(tv: Seq<TokenView>, i: int) -> StmtRes
    decreases toks_remaining(tv, i), 27int,
{
    if cur(tv, i) is While && cur(tv, i + 1) is LeftParen {
        match sp_expression(tv, i + 2) {
            Some((c, n)) => if cur(tv, i + 2 + n) is RightParen {
                let p = i + 3 + n;
                if cur(tv, p) is LeftBrace {
                    match sp_statement(tv, p) {
                        Some((body, m)) => Some(
                            (
                                StmtView::WhileStatement(c, Box::new(body)),
                                (p + m - i) as nat,
                            ),
                        ),
                        None => None,
                    }
                } else {
                    None
                }
            } else {
                None
            },
            None => None,
        }
    } else {
        None
    }
}

/// Parse a for initializer clause at `a` (comments already skipped):
/// a `let` declaration, an empty `;`, or an expression, each closed by
/// `;`. Yields the clause and the position just past its `;`.
#[verifier::opaque]
pub open spec fn sp_for_init(tv: Seq<TokenView>, a: int) -> Option<(StmtView, int)>
    decreases toks_remaining(tv, a), 26int,
{
    if cur(tv, a) is Let {
        match cur(tv, a + 1) {
            TokenView::Identifier(name) => {
                if cur(tv, a + 2) is Equal {
                    match sp_expression(tv, a + 3 + skip_len(tv, a + 3)) {
                        Some((e, m)) => {
                            let p0 = a + 3 + skip_len(tv, a + 3) + m;
                            let p = p0 + skip_len(tv, p0);
                            if cur(tv, p) is Semicolon {
                                Some(
                                    (
                                        StmtView::VariableDeclaration(name, Some(e)),
                                        p + 1,
                                    ),
                                )
                            } else {
                                None
                            }
                        },
                        None => None,
                    }
                } else {
                    let p = a + 2 + skip_len(tv, a + 2);
                    if cur(tv, p) is Semicolon {
                        Some((StmtView::VariableDeclaration(name, None), p + 1))
                    } else {
                        None
                    }
                }
            },
            _ => None,
        }
    } else if cur(tv, a) is Semicolon {
        Some(
            (
                StmtView::ExpressionStatement(ExprView::Literal(LitView::Nil)),
                a + 1,
            ),
        )
    } else {
        match sp_expression(tv, a) {
            Some((e, n)) => {
                let p = a + n + skip_len(tv, a + n);
                if cur(tv, p) is Semicolon {
                    Some((StmtView::ExpressionStatement(e), p + 1))
                } else {
                    None
                }
            },
            None => None,
        }
    }
}

/// Parse a for condition clause at `b` (comments already skipped): empty
/// means true; otherwise an expression. Yields the condition and the
/// position just past its `;`.
#[verifier::opaque]
pub open spec fn sp_for_cond(tv: Seq<TokenView>, b: int) -> Option<(ExprView, int)>
    decreases toks_remaining(tv, b), 26int,
{
    if cur(tv, b) is Semicolon {
        Some((ExprView::Literal(LitView::Boolean(true)), b + 1))
    } else {
        match sp_expression(tv, b) {
            Some((c, n)) => {
                let p = b + n + skip_len(tv, b + n);
                if cur(tv, p) is Semicolon {
                    Some((c, p + 1))
                } else {
                    None
                }
            },
            None => None,
        }
    }
}

/// Parse a for increment clause at `c1` (comments already skipped): empty
/// before `)` means no work; otherwise an expression. Yields the clause
/// and the position just past it, the `)` not consumed.
#[verifier::opaque]
pub open spec fn sp_for_incr(tv: Seq<TokenView>, c1: int) -> Option<(StmtView, int)>
    decreases toks_remaining(tv, c1), 26int,
{
    if cur(tv, c1) is RightParen {
        Some(
            (
                StmtView::ExpressionStatement(ExprView::Literal(LitView::Nil)),
                c1,
            ),
        )
    } else {
        match sp_expression(tv, c1) {
            Some((e, n)) => Some((StmtView::ExpressionStatement(e), c1 + n)),
            None => None,
        }
    }
}

/// Parse a for statement; the `for` keyword stands at `i`. The clauses
/// follow the written form: an optional `let` or expression initializer,
/// an optional condition (missing means true), an optional increment
/// expression, and a block body.
#[verifier::opaque]
pub open spec fn sp_for(tv: Seq<TokenView>, i: int) -> StmtRes
    decreases toks_remaining(tv, i), 27int,
{
    if cur(tv, i) is For && cur(tv, i + 1) is LeftParen {
        let a = i + 2 + skip_len(tv, i + 2);
        match sp_for_init(tv, a) {
            Some((init_stmt, b0raw)) => {
                let b0 = if b0raw < a + 1 {
                    a + 1
                } else {
                    b0raw
                };
                let b = b0 + skip_len(tv, b0);
                match sp_for_cond(tv, b) {
                    Some((cond, c0raw)) => {
                        let c0 = if c0raw < b + 1 {
                            b + 1
                        } else {
                            c0raw
                        };
                        let c1 = c0 + skip_len(tv, c0);
                        match sp_for_incr(tv, c1) {
                            Some((incr, d0raw)) => {
                                let d0 = if d0raw < c1 {
                                    c1
                                } else {
                                    d0raw
                                };
                                let d = d0 + skip_len(tv, d0);
                                if cur(tv, d) is RightParen {
                                    let e0 = d + 1 + skip_len(tv, d + 1);
                                    if cur(tv, e0) is LeftBrace {
                                        match sp_statement(tv, e0) {
                                            Some((body, m)) => Some(
                                                (
                                                    StmtView::ForStatement(
                                                        Box::new(init_stmt),
                                                        cond,
                                                        Box::new(incr),
                                                        Box::new(body),
                                                    ),
                                                    (e0 + m - i) as nat,
                                                ),
                                            ),
                                            None => None,
                                        }
                                    } else {
                                        None
                                    }
                                } else {
                                    None
                                }
                            },
                            None => None,
                        }
                    },
                    None => None,
                }
            },
            None => None,
        }
    } else {
        None
    }
}

/// Parse the parameters after the first one.
#[verifier::opaque]
pub open spec fn sp_params_rest(tv: Seq<TokenView>, i: int) -> Option<(Seq<Seq<char>>, nat)>
    decreases toks_remaining(tv, i), 23int,
{
    if cur(tv, i) is Comma {
        match cur(tv, i + 1) {
            TokenView::Identifier(p) => match sp_params_rest(tv, i + 2) {
                Some((rest, m)) => Some((seq![p] + rest, (2 + m) as nat)),
                None => None,
            },
            _ => None,
        }
    } else {
        Some((Seq::empty(), 0nat))
    }
}

/// Parse a comma-separated parameter list, stopped before a `)`.
#[verifier::opaque]
pub open spec fn sp_parameters(tv: Seq<TokenView>, i: int) -> Option<(Seq<Seq<char>>, nat)>
    decreases toks_remaining(tv, i), 24int,
{
    if cur(tv, i) is RightParen {
        Some((Seq::empty(), 0nat))
    } else {
        match cur(tv, i) {
            TokenView::Identifier(p) => match sp_params_rest(tv, i + 1) {
                Some((rest, m)) => Some((seq![p] + rest, (1 + m) as nat)),
                None => None,
            },
            _ => None,
        }
    }
}

/// Parse a function declaration; the `func` keyword stands at `i`. The
/// body must be a block.
#[verifier::opaque]
pub open spec fn sp_func_decl(tv: Seq<TokenView>, i: int) -> StmtRes
    decreases toks_remaining(tv, i), 27int,
{
    if cur(tv, i) is Func {
        match cur(tv, i + 1) {
            TokenView::Identifier(name) => if cur(tv, i + 2) is LeftParen {
                match sp_parameters(tv, i + 3) {
                    Some((ps, n)) => if cur(tv, i + 3 + n) is RightParen {
                        let b = i + 4 + n;
                        if cur(tv, b) is LeftBrace {
                            match sp_statement(tv, b) {
                                Some((body, m)) => match body {
                                    StmtView::Block(ss) => Some(
                                        (
                                            StmtView::FunctionDeclaration {
                                                name: name,
                                                params: ps,
                                                body: ss,
                                            },
                                            (b + m - i) as nat,
                                        ),
                                    ),
                                    _ => None,
                                },
                                None => None,
                            }
                        } else {
                            None
                        }
                    } else {
                        None
                    },
                    None => None,
                }
            } else {
                None
            },
            _ => None,
        }
    } else {
        None
    }
}

/// Parse a return statement; the `return` keyword stands at `i`.
#[verifier::opaque]
pub open spec fn sp_return(tv: Seq<TokenView>, i: int) -> StmtRes
    decreases toks_remaining(tv, i), 27int,
{
    if cur(tv, i) is Return {
        let j = i + 1 + skip_len(tv, i + 1);
        if cur(tv, j) is Semicolon {
            Some((StmtView::ReturnStatement(None), (j + 1 - i) as nat))
        } else if cur(tv, j) is EOF {
            None
        } else {
            match sp_expression(tv, j) {
                Some((e, n)) => {
                    let k = j + n + skip_len(tv, j + n);
                    if cur(tv, k) is Semicolon {
                        Some((StmtView::ReturnStatement(Some(e)), (k + 1 - i) as nat))
                    } else {
                        None
                    }
                },
                None => None,
            }
        }
    } else {
        None
    }
}

/// Parse one statement: comments are skipped, then the statement form is
/// chosen by one-token lookahead.
#[verifier::opaque]
pub open spec fn sp_statement(tv: Seq<TokenView>, i: int) -> StmtRes
    decreases toks_remaining(tv, i), 28int,
{
    let j = i + skip_len(tv, i);
    let sub: StmtRes = if cur(tv, j) is EOF {
        None
    } else if cur(tv, j) is Return {
        sp_return(tv, j)
    } else if cur(tv, j) is For {
        sp_for(tv, j)
    } else if cur(tv, j) is Func {
        sp_func_decl(tv, j)
    } else if cur(tv, j) is Print {
        sp_print(tv, j)
    } else if cur(tv, j) is Let {
        sp_var_decl(tv, j)
    } else if cur(tv, j) is LeftBrace {
        sp_block(tv, j)
    } else if cur(tv, j) is If {
        sp_if(tv, j)
    } else if cur(tv, j) is While {
        sp_while(tv, j)
    } else {
        sp_assign_or_expr(tv, j)
    };
    match sub {
        Some((s, n)) => Some((s, (j - i + n) as nat)),
        None => None,
    }
}

/// Parse a whole program: statements until the end of input, stopped
/// early (keeping what was parsed) at the first statement that cannot be
/// parsed.
#[verifier::opaque]
pub open spec fn sp_program(tv: Seq<TokenView>, i: int) -> (Seq<StmtView>, nat)
    decreases toks_remaining(tv, i), 30int,
{
    if cur(tv, i) is EOF {
        (Seq::empty(), 0nat)
    } else {
        match sp_statement(tv, i) {
            Some((s, n)) => {
                let n1: nat = if n < 1 {
                    1
                } else {
                    n
                };
                let rest = sp_program(tv, i + n1);
                (seq![s] + rest.0, (n1 + rest.1) as nat)
            },
            None => (Seq::empty(), 0nat),
        }
    }
}


impl Parser {
    /// Whether the current token is a comment.
    fn at_comment(&self) -> (r: bool)
        ensures
            r == (cur(self.tv(), self.current as int) is Comment),
    {
        if self.current >= self.tokens.len() {
            false
        } else {
            proof {
                assert(cur(self.tv(), self.current as int) == self.tokens@[self.current as int]@);
            }
            matches!(&self.tokens[self.current], Token::Comment(_))
        }
    }

    /// Move past any run of comment tokens.
    #[verifier::loop_isolation(false)]
    fn skip_comments(&mut self)
        requires
            old(self).wf(),
        ensures
            final(self).tokens == old(self).tokens,
            final(self).wf(),
            final(self).current == old(self).current + skip_len(
                old(self).tv(),
                old(self).current as int,
            ),
    {
        let ghost tv = self.tv();
        let ghost i0 = self.current as int;
        while self.at_comment()
            invariant
                self.wf(),
                self.tokens == old(self).tokens,
                i0 <= self.current,
                skip_len(tv, i0) == (self.current - i0) + skip_len(tv, self.current as int),
            decreases toks_remaining(tv, self.current as int),
        {
            proof {
                reveal(skip_len);
                assert(skip_len(tv, self.current as int) == 1 + skip_len(tv, self.current + 1));
            }
            self.current = self.current + 1;
        }
        proof {
            reveal(skip_len);
            assert(skip_len(tv, self.current as int) == 0);
        }
    }

    /// Parse a print statement; the cursor stands on `print`.
    #[verifier::rlimit(100)]
    #[verifier::spinoff_prover]
    fn parse_print_statement(&mut self) -> (r: Option<Statement>)
        requires
            old(self).wf(),
        ensures
            final(self).tokens == old(self).tokens,
            final(self).wf(),
            final(self).current >= old(self).current,
            r is Some ==> final(self).current > old(self).current,
            ({
                let res = sp_print(old(self).tv(), old(self).current as int);
                match (r, res) {
                    (Option::Some(st), Option::Some(p)) => st@ == p.0 && final(self).current == old(self).current + p.1,
                    (Option::None, Option::None) => true,
                    _ => false,
                }
            }),
        decreases toks_remaining(self.tv(), self.current as int), 27int,
    {
        proof {
            broadcast use group_token_kinds;

            reveal(sp_print);
        }
        if !self.match_token(Token::Print) {
            return Option::None;
        }
        let value = match self.parse_expression() {
            Option::Some(e) => e,
            Option::None => {
                return Option::None;
            },
        };
        if !self.match_token(Token::Semicolon) {
            Option::None
        } else {
            Option::Some(Statement::PrintStatement(value))
        }
    }

    /// Parse a variable declaration; the cursor stands on `let`.
    #[verifier::rlimit(100)]
    #[verifier::spinoff_prover]
    fn parse_variable_declaration(&mut self) -> (r: Option<Statement>)
        requires
            old(self).wf(),
        ensures
            final(self).tokens == old(self).tokens,
            final(self).wf(),
            final(self).current >= old(self).current,
            r is Some ==> final(self).current > old(self).current,
            ({
                let res = sp_var_decl(old(self).tv(), old(self).current as int);
                match (r, res) {
                    (Option::Some(st), Option::Some(p)) => st@ == p.0 && final(self).current == old(self).current + p.1,
                    (Option::None, Option::None) => true,
                    _ => false,
                }
            }),
        decreases toks_remaining(self.tv(), self.current as int), 27int,
    {
        proof {
            broadcast use group_token_kinds;

            reveal(sp_var_decl);
        }
        if !self.match_token(Token::Let) {
            return Option::None;
        }
        let name: String;
        if self.current < self.tokens.len() {
            proof {
                assert(cur(self.tv(), self.current as int) == self.tokens@[self.current as int]@);
            }
            match &self.tokens[self.current] {
                Token::Identifier(nm) => {
                    name = nm.clone();
                    self.current = self.current + 1;
                },
                _ => {
                    return Option::None;
                },
            }
        } else {
            return Option::None;
        }
        let initializer: Option<Expression>;
        if self.match_token(Token::Equal) {
            match self.parse_expression() {
                Option::Some(e) => {
                    initializer = Option::Some(e);
                },
                Option::None => {
                    return Option::None;
                },
            }
        } else {
            initializer = Option::None;
        }
        if !self.match_token(Token::Semicolon) {
            Option::None
        } else {
            Option::Some(Statement::VariableDeclaration(name, initializer))
        }
    }

    /// Parse an assignment or an expression statement.
    #[verifier::rlimit(100)]
    #[verifier::spinoff_prover]
    fn parse_assignment_or_expression_statement(&mut self) -> (r: Option<Statement>)
        requires
            old(self).wf(),
        ensures
            final(self).tokens == old(self).tokens,
            final(self).wf(),
            final(self).current >= old(self).current,
            r is Some ==> final(self).current > old(self).current,
            ({
                let res = sp_assign_or_expr(old(self).tv(), old(self).current as int);
                match (r, res) {
                    (Option::Some(st), Option::Some(p)) => st@ == p.0 && final(self).current == old(self).current + p.1,
                    (Option::None, Option::None) => true,
                    _ => false,
                }
            }),
        decreases toks_remaining(self.tv(), self.current as int), 27int,
    {
        proof {
            broadcast use group_token_kinds;

            reveal(sp_assign_or_expr);
        }
        let expr = match self.parse_expression() {
            Option::Some(e) => e,
            Option::None => {
                return Option::None;
            },
        };
        self.skip_comments();
        if self.check(&Token::Equal) {
            self.advance();
            match expr {
                Expression::Variable(target_name) => {
                    self.skip_comments();
                    let value_expr = match self.parse_expression() {
                        Option::Some(v) => v,
                        Option::None => {
                            return Option::None;
                        },
                    };
                    self.skip_comments();
                    if !self.match_token(Token::Semicolon) {
                        return Option::None;
                    }
                    Option::Some(Statement::Assignment { target_name, value: value_expr })
                },
                _ => Option::None,
            }
        } else if self.match_token(Token::Semicolon) {
            Option::Some(Statement::ExpressionStatement(expr))
        } else {
            Option::None
        }
    }

    /// Parse a block statement; the cursor stands on `{`.
    #[verifier::loop_isolation(false)]
    #[verifier::rlimit(100)]
    #[verifier::spinoff_prover]
    fn parse_block_statement(&mut self) -> (r: Option<Statement>)
        requires
            old(self).wf(),
        ensures
            final(self).tokens == old(self).tokens,
            final(self).wf(),
            final(self).current >= old(self).current,
            r is Some ==> final(self).current > old(self).current,
            ({
                let res = sp_block(old(self).tv(), old(self).current as int);
                match (r, res) {
                    (Option::Some(st), Option::Some(p)) => st@ == p.0 && final(self).current == old(self).current + p.1,
                    (Option::None, Option::None) => true,
                    _ => false,
                }
            }),
        decreases toks_remaining(self.tv(), self.current as int), 27int,
    {
        let ghost tv = self.tv();
        let ghost i0 = self.current as int;
        proof {
            broadcast use group_token_kinds;

            reveal(sp_block);
            reveal(sp_block_rest);
        }
        if !self.match_token(Token::LeftBrace) {
            return Option::None;
        }
        let mut statements: Vec<Statement> = Vec::new();
        proof {
            assert(stmts_view(statements@) =~= Seq::<StmtView>::empty());
        }
        while !self.check(&Token::RightBrace) && !self.is_at_end()
            invariant
                self.wf(),
                self.tokens == old(self).tokens,
                i0 < self.current,
                ({
                    match sp_block_rest(tv, self.current as int) {
                        Option::Some(p) => sp_block_rest(tv, i0 + 1) == Option::Some(
                            (
                                stmts_view(statements@) + p.0,
                                ((self.current - (i0 + 1)) + p.1) as nat,
                            ),
                        ),
                        Option::None => sp_block_rest(tv, i0 + 1) is None,
                    }
                }),
            decreases toks_remaining(tv, self.current as int),
        {
            let ghost stmts_old = statements@;
            let ghost c0 = self.current as int;
            match self.parse_statement() {
                Option::Some(stmt) => {
                    proof {
                        broadcast use group_token_kinds;

                        reveal(sp_block_rest);
                        let after = sp_block_rest(tv, self.current as int);
                        assert((stmts_old.push(stmt)).drop_last() =~= stmts_old);
                        assert((stmts_old.push(stmt)).last() == stmt);
                        assert(stmts_view(stmts_old.push(stmt)) =~= stmts_view(stmts_old).push(
                            stmt@,
                        ));
                        if after is Some {
                            let rest = after.unwrap().0;
                            assert(stmts_view(stmts_old).push(stmt@) + rest =~= stmts_view(
                                stmts_old,
                            ) + (seq![stmt@] + rest));
                        }
                    }
                    statements.push(stmt);
                },
                Option::None => {
                    return Option::None;
                },
            }
        }
        proof {
            broadcast use group_token_kinds;

            reveal(sp_block_rest);
            assert(sp_block_rest(tv, self.current as int) == Option::<(Seq<StmtView>, nat)>::Some(
                (Seq::empty(), 0nat),
            ));
            assert(stmts_view(statements@) + Seq::<StmtView>::empty() =~= stmts_view(statements@));
        }
        if !self.match_token(Token::RightBrace) {
            return Option::None;
        }
        Option::Some(Statement::Block(statements))
    }

    /// Parse an if statement; the cursor stands on `if`.
    #[verifier::rlimit(100)]
    #[verifier::spinoff_prover]
    fn parse_if_statement(&mut self) -> (r: Option<Statement>)
        requires
            old(self).wf(),
        ensures
            final(self).tokens == old(self).tokens,
            final(self).wf(),
            final(self).current >= old(self).current,
            r is Some ==> final(self).current > old(self).current,
            ({
                let res = sp_if(old(self).tv(), old(self).current as int);
                match (r, res) {
                    (Option::Some(st), Option::Some(p)) => st@ == p.0 && final(self).current == old(self).current + p.1,
                    (Option::None, Option::None) => true,
                    _ => false,
                }
            }),
        decreases toks_remaining(self.tv(), self.current as int), 27int,
    {
        proof {
            broadcast use group_token_kinds;

            reveal(sp_if);
        }
        if !self.match_token(Token::If) {
            return Option::None;
        }
        if !self.match_token(Token::LeftParen) {
            return Option::None;
        }
        let condition = match self.parse_expression() {
            Option::Some(c) => c,
            Option::None => {
                return Option::None;
            },
        };
        if !self.match_token(Token::RightParen) {
            return Option::None;
        }
        if !self.check(&Token::LeftBrace) {
            return Option::None;
        }
        let then_branch = match self.parse_statement() {
            Option::Some(s) => Box::new(s),
            Option::None => {
                return Option::None;
            },
        };
        let mut else_branch_opt: Option<Box<Statement>> = Option::None;
        if self.match_token(Token::Else) {
            if self.check(&Token::LeftBrace) {
                match self.parse_statement() {
                    Option::Some(s) => {
                        else_branch_opt = Option::Some(Box::new(s));
                    },
                    Option::None => {
                        return Option::None;
                    },
                }
            } else {
                return Option::None;
            }
        }
        Option::Some(Statement::IfStatement(condition, then_branch, else_branch_opt))
    }

    /// Parse a while statement; the cursor stands on `while`.
    #[verifier::rlimit(100)]
    #[verifier::spinoff_prover]
    fn parse_while_statement(&mut self) -> (r: Option<Statement>)
        requires
            old(self).wf(),
        ensures
            final(self).tokens == old(self).tokens,
            final(self).wf(),
            final(self).current >= old(self).current,
            r is Some ==> final(self).current > old(self).current,
            ({
                let res = sp_while(old(self).tv(), old(self).current as int);
                match (r, res) {
                    (Option::Some(st), Option::Some(p)) => st@ == p.0 && final(self).current == old(self).current + p.1,
                    (Option::None, Option::None) => true,
                    _ => false,
                }
            }),
        decreases toks_remaining(self.tv(), self.current as int), 27int,
    {
        proof {
            broadcast use group_token_kinds;

            reveal(sp_while);
        }
        if !self.match_token(Token::While) {
            return Option::None;
        }
        if !self.match_token(Token::LeftParen) {
            return Option::None;
        }
        let condition = match self.parse_expression() {
            Option::Some(c) => c,
            Option::None => {
                return Option::None;
            },
        };
        if !self.match_token(Token::RightParen) {
            return Option::None;
        }
        if !self.check(&Token::LeftBrace) {
            return Option::None;
        }
        let body = match self.parse_statement() {
            Option::Some(s) => Box::new(s),
            Option::None => {
                return Option::None;
            },
        };
        Option::Some(Statement::WhileStatement(condition, body))
    }
}


impl Parser {
    /// Parse a for statement; the cursor stands on `for`.
    #[verifier::rlimit(100)]
    #[verifier::spinoff_prover]
    fn parse_for_statement(&mut self) -> (r: Option<Statement>)
        requires
            old(self).wf(),
        ensures
            final(self).tokens == old(self).tokens,
            final(self).wf(),
            final(self).current >= old(self).current,
            r is Some ==> final(self).current > old(self).current,
            ({
                let res = sp_for(old(self).tv(), old(self).current as int);
                match (r, res) {
                    (Option::Some(st), Option::Some(p)) => st@ == p.0 && final(self).current == old(self).current + p.1,
                    (Option::None, Option::None) => true,
                    _ => false,
                }
            }),
        decreases toks_remaining(self.tv(), self.current as int), 27int,
    {
        let ghost tv = self.tv();
        let ghost i0 = self.current as int;
        proof {
            broadcast use group_token_kinds;

            reveal(sp_for);
        }
        if !self.match_token(Token::For) {
            return Option::None;
        }
        if !self.match_token(Token::LeftParen) {
            return Option::None;
        }
        self.skip_comments();
        let ghost a = self.current as int;
        let initializer: Statement;
        if self.check(&Token::Let) {
            self.advance();
            let var_name: String;
            if self.current < self.tokens.len() {
                proof {
                    assert(cur(tv, self.current as int) == self.tokens@[self.current as int]@);
                }
                match &self.tokens[self.current] {
                    Token::Identifier(nm) => {
                        var_name = nm.clone();
                        self.current = self.current + 1;
                    },
                    _ => {
                        proof {
                            reveal(sp_for_init);
                        }
                        return Option::None;
                    },
                }
            } else {
                proof {
                    reveal(sp_for_init);
                }
                return Option::None;
            }
            let var_initializer_expr: Option<Expression>;
            if self.match_token(Token::Equal) {
                self.skip_comments();
                match self.parse_expression() {
                    Option::Some(e) => {
                        var_initializer_expr = Option::Some(e);
                    },
                    Option::None => {
                        proof {
                            reveal(sp_for_init);
                        }
                        return Option::None;
                    },
                }
            } else {
                var_initializer_expr = Option::None;
            }
            initializer = Statement::VariableDeclaration(var_name, var_initializer_expr);
            self.skip_comments();
            if !self.match_token(Token::Semicolon) {
                proof {
                    reveal(sp_for_init);
                }
                return Option::None;
            }
            proof {
                reveal(sp_for_init);
                assert(sp_for_init(tv, a) == Option::Some((initializer@, self.current as int)));
            }
        } else if self.check(&Token::Semicolon) {
            self.advance();
            initializer = Statement::ExpressionStatement(Expression::Literal(Literal::Nil));
            proof {
                reveal(sp_for_init);
                assert(sp_for_init(tv, a) == Option::Some((initializer@, self.current as int)));
            }
        } else {
            let init_expr = match self.parse_expression() {
                Option::Some(e) => e,
                Option::None => {
                    proof {
                        reveal(sp_for_init);
                    }
                    return Option::None;
                },
            };
            initializer = Statement::ExpressionStatement(init_expr);
            self.skip_comments();
            if !self.match_token(Token::Semicolon) {
                proof {
                    reveal(sp_for_init);
                }
                return Option::None;
            }
            proof {
                reveal(sp_for_init);
                assert(sp_for_init(tv, a) == Option::Some((initializer@, self.current as int)));
            }
        }
        self.skip_comments();
        let ghost b = self.current as int;
        let condition: Expression;
        if self.check(&Token::Semicolon) {
            self.advance();
            condition = Expression::Literal(Literal::Boolean(true));
            proof {
                reveal(sp_for_cond);
                assert(sp_for_cond(tv, b) == Option::Some((condition@, self.current as int)));
            }
        } else {
            condition = match self.parse_expression() {
                Option::Some(c) => c,
                Option::None => {
                    proof {
                        reveal(sp_for_cond);
                    }
                    return Option::None;
                },
            };
            self.skip_comments();
            if !self.match_token(Token::Semicolon) {
                proof {
                    reveal(sp_for_cond);
                }
                return Option::None;
            }
            proof {
                reveal(sp_for_cond);
                assert(sp_for_cond(tv, b) == Option::Some((condition@, self.current as int)));
            }
        }
        self.skip_comments();
        let ghost c1 = self.current as int;
        let increment: Statement;
        if self.check(&Token::RightParen) {
            increment = Statement::ExpressionStatement(Expression::Literal(Literal::Nil));
            proof {
                reveal(sp_for_incr);
                assert(sp_for_incr(tv, c1) == Option::Some((increment@, self.current as int)));
            }
        } else {
            let incr_expr = match self.parse_expression() {
                Option::Some(e) => e,
                Option::None => {
                    proof {
                        reveal(sp_for_incr);
                    }
                    return Option::None;
                },
            };
            increment = Statement::ExpressionStatement(incr_expr);
            proof {
                reveal(sp_for_incr);
                assert(sp_for_incr(tv, c1) == Option::Some((increment@, self.current as int)));
            }
        }
        self.skip_comments();
        if !self.match_token(Token::RightParen) {
            return Option::None;
        }
        self.skip_comments();
        if !self.check(&Token::LeftBrace) {
            return Option::None;
        }
        let ghost e0 = self.current as int;
        let body = match self.parse_statement() {
            Option::Some(s) => Box::new(s),
            Option::None => {
                return Option::None;
            },
        };
        let result = Statement::ForStatement(
            Box::new(initializer),
            condition,
            Box::new(increment),
            body,
        );
        proof {
            assert(sp_for(tv, i0) == Option::Some((result@, (self.current - i0) as nat)));
        }
        Option::Some(result)
    }

    /// Parse a comma-separated parameter list, stopped before `)`.
    #[verifier::loop_isolation(false)]
    #[verifier::rlimit(100)]
    #[verifier::spinoff_prover]
    fn parse_parameters(&mut self) -> (r: Option<Vec<String>>)
        requires
            old(self).wf(),
        ensures
            final(self).tokens == old(self).tokens,
            final(self).wf(),
            final(self).current >= old(self).current,
            ({
                let res = sp_parameters(old(self).tv(), old(self).current as int);
                match (r, res) {
                    (Option::Some(ps), Option::Some(p)) => names_view(ps@) == p.0 && final(self).current == old(self).current + p.1,
                    (Option::None, Option::None) => true,
                    _ => false,
                }
            }),
        decreases toks_remaining(self.tv(), self.current as int), 24int,
    {
        let ghost tv = self.tv();
        let ghost i0 = self.current as int;
        proof {
            broadcast use group_token_kinds;

            reveal(sp_parameters);
            reveal(sp_params_rest);
        }
        let mut parameters: Vec<String> = Vec::new();
        if self.check(&Token::RightParen) {
            proof {
                assert(names_view(parameters@) =~= Seq::<Seq<char>>::empty());
            }
            return Option::Some(parameters);
        }
        if self.current < self.tokens.len() {
            proof {
                assert(cur(tv, self.current as int) == self.tokens@[self.current as int]@);
            }
            match &self.tokens[self.current] {
                Token::Identifier(nm) => {
                    let v = nm.clone();
                    proof {
                        assert(names_view(parameters@.push(v)) =~= seq![v@]);
                    }
                    parameters.push(v);
                    self.current = self.current + 1;
                },
                _ => {
                    return Option::None;
                },
            }
        } else {
            proof {
                assert(cur(tv, i0) is EOF);
            }
            return Option::None;
        }
        while self.match_token(Token::Comma)
            invariant
                self.wf(),
                self.tokens == old(self).tokens,
                i0 < self.current,
                ({
                    match sp_params_rest(tv, self.current as int) {
                        Option::Some(p) => sp_parameters(tv, i0) == Option::Some(
                            (
                                names_view(parameters@) + p.0,
                                ((self.current - i0) + p.1) as nat,
                            ),
                        ),
                        Option::None => sp_parameters(tv, i0) is None,
                    }
                }),
            decreases toks_remaining(tv, self.current as int),
        {
            let ghost j = (self.current - 1) as int;
            let ghost params_old = parameters@;
            proof {
                broadcast use group_token_kinds;

                reveal(sp_params_rest);
                assert(cur(tv, j) is Comma);
            }
            if self.current < self.tokens.len() {
                proof {
                    assert(cur(tv, self.current as int) == self.tokens@[self.current as int]@);
                }
                match &self.tokens[self.current] {
                    Token::Identifier(nm) => {
                        let v = nm.clone();
                        self.current = self.current + 1;
                        proof {
                            broadcast use group_token_kinds;

                            reveal(sp_params_rest);
                            let after = sp_params_rest(tv, self.current as int);
                            assert((params_old.push(v)).drop_last() =~= params_old);
                            assert((params_old.push(v)).last() == v);
                            assert(names_view(params_old.push(v)) =~= names_view(
                                params_old,
                            ).push(v@));
                            if after is Some {
                                let rest = after.unwrap().0;
                                assert(names_view(params_old).push(v@) + rest =~= names_view(
                                    params_old,
                                ) + (seq![v@] + rest));
                            }
                        }
                        parameters.push(v);
                    },
                    _ => {
                        return Option::None;
                    },
                }
            } else {
                proof {
                    assert(cur(tv, self.current as int) is EOF);
                }
                return Option::None;
            }
        }
        proof {
            broadcast use group_token_kinds;

            reveal(sp_params_rest);
            assert(sp_params_rest(tv, self.current as int) == Option::<(
                Seq<Seq<char>>,
                nat,
            )>::Some((Seq::empty(), 0nat)));
            assert(names_view(parameters@) + Seq::<Seq<char>>::empty() =~= names_view(
                parameters@,
            ));
        }
        Option::Some(parameters)
    }

    /// Parse a function declaration; the cursor stands on `func`. The
    /// body must be a block.
    #[verifier::rlimit(100)]
    #[verifier::spinoff_prover]
    fn parse_function_declaration(&mut self) -> (r: Option<Statement>)
        requires
            old(self).wf(),
        ensures
            final(self).tokens == old(self).tokens,
            final(self).wf(),
            final(self).current >= old(self).current,
            r is Some ==> final(self).current > old(self).current,
            ({
                let res = sp_func_decl(old(self).tv(), old(self).current as int);
                match (r, res) {
                    (Option::Some(st), Option::Some(p)) => st@ == p.0 && final(self).current == old(self).current + p.1,
                    (Option::None, Option::None) => true,
                    _ => false,
                }
            }),
        decreases toks_remaining(self.tv(), self.current as int), 27int,
    {
        proof {
            broadcast use group_token_kinds;

            reveal(sp_func_decl);
        }
        if !self.match_token(Token::Func) {
            return Option::None;
        }
        let name: String;
        if self.current < self.tokens.len() {
            proof {
                assert(cur(self.tv(), self.current as int) == self.tokens@[self.current as int]@);
            }
            match &self.tokens[self.current] {
                Token::Identifier(nm) => {
                    name = nm.clone();
                    self.current = self.current + 1;
                },
                _ => {
                    return Option::None;
                },
            }
        } else {
            return Option::None;
        }
        if !self.match_token(Token::LeftParen) {
            return Option::None;
        }
        let params = match self.parse_parameters() {
            Option::Some(ps) => ps,
            Option::None => {
                return Option::None;
            },
        };
        if !self.match_token(Token::RightParen) {
            return Option::None;
        }
        if !self.check(&Token::LeftBrace) {
            return Option::None;
        }
        let body_statement = match self.parse_statement() {
            Option::Some(s) => s,
            Option::None => {
                return Option::None;
            },
        };
        match body_statement {
            Statement::Block(body_statements) => Option::Some(
                Statement::FunctionDeclaration { name, params, body: body_statements },
            ),
            _ => Option::None,
        }
    }

    /// Parse a return statement; the cursor stands on `return`.
    #[verifier::rlimit(100)]
    #[verifier::spinoff_prover]
    fn parse_return_statement(&mut self) -> (r: Option<Statement>)
        requires
            old(self).wf(),
        ensures
            final(self).tokens == old(self).tokens,
            final(self).wf(),
            final(self).current >= old(self).current,
            r is Some ==> final(self).current > old(self).current,
            ({
                let res = sp_return(old(self).tv(), old(self).current as int);
                match (r, res) {
                    (Option::Some(st), Option::Some(p)) => st@ == p.0 && final(self).current == old(self).current + p.1,
                    (Option::None, Option::None) => true,
                    _ => false,
                }
            }),
        decreases toks_remaining(self.tv(), self.current as int), 27int,
    {
        proof {
            broadcast use group_token_kinds;

            reveal(sp_return);
        }
        if !self.match_token(Token::Return) {
            return Option::None;
        }
        self.skip_comments();
        if self.check(&Token::Semicolon) {
            self.advance();
            return Option::Some(Statement::ReturnStatement(Option::None));
        }
        if self.is_at_end() {
            return Option::None;
        }
        let expr = match self.parse_expression() {
            Option::Some(e) => e,
            Option::None => {
                return Option::None;
            },
        };
        self.skip_comments();
        if !self.match_token(Token::Semicolon) {
            return Option::None;
        }
        Option::Some(Statement::ReturnStatement(Option::Some(expr)))
    }

    /// Parse one statement, comments before it skipped; the statement
    /// form is chosen by one-token lookahead.
    #[verifier::rlimit(100)]
    #[verifier::spinoff_prover]
    pub fn parse_statement(&mut self) -> (r: Option<Statement>)
        requires
            old(self).wf(),
        ensures
            final(self).tokens == old(self).tokens,
            final(self).wf(),
            final(self).current >= old(self).current,
            r is Some ==> final(self).current > old(self).current,
            ({
                let res = sp_statement(old(self).tv(), old(self).current as int);
                match (r, res) {
                    (Option::Some(st), Option::Some(p)) => st@ == p.0 && final(self).current == old(self).current + p.1,
                    (Option::None, Option::None) => true,
                    _ => false,
                }
            }),
        decreases toks_remaining(self.tv(), self.current as int), 28int,
    {
        proof {
            broadcast use group_token_kinds;

            reveal(sp_statement);
        }
        self.skip_comments();
        if self.is_at_end() {
            return Option::None;
        }
        if self.check(&Token::Return) {
            self.parse_return_statement()
        } else if self.check(&Token::For) {
            self.parse_for_statement()
        } else if self.check(&Token::Func) {
            self.parse_function_declaration()
        } else if self.check(&Token::Print) {
            self.parse_print_statement()
        } else if self.check(&Token::Let) {
            self.parse_variable_declaration()
        } else if self.check(&Token::LeftBrace) {
            self.parse_block_statement()
        } else if self.check(&Token::If) {
            self.parse_if_statement()
        } else if self.check(&Token::While) {
            self.parse_while_statement()
        } else {
            self.parse_assignment_or_expression_statement()
        }
    }

    /// Whether only insignificant input (the end marker) remains.
    fn is_at_end_of_significant_tokens(&self) -> (r: bool)
        ensures
            r == (cur(self.tv(), self.current as int) is EOF),
    {
        self.is_at_end()
    }

    /// Parse a whole program: statements until the end of input, stopped
    /// early (keeping what was parsed) at the first statement that cannot
    /// be parsed.
    #[verifier::loop_isolation(false)]
    #[verifier::rlimit(100)]
    #[verifier::spinoff_prover]
    pub fn parse_program(&mut self) -> (r: Vec<Statement>)
        requires
            old(self).wf(),
        ensures
            final(self).tokens == old(self).tokens,
            final(self).wf(),
            final(self).current >= old(self).current,
            stmts_view(r@) == sp_program(old(self).tv(), old(self).current as int).0,
    {
        let ghost tv = self.tv();
        let ghost i0 = self.current as int;
        proof {
            broadcast use group_token_kinds;

            reveal(sp_program);
        }
        let mut statements: Vec<Statement> = Vec::new();
        let mut stopped = false;
        proof {
            assert(stmts_view(statements@) =~= Seq::<StmtView>::empty());
        }
        while !stopped && !self.is_at_end_of_significant_tokens()
            invariant
                self.wf(),
                self.tokens == old(self).tokens,
                i0 <= self.current,
                !stopped ==> sp_program(tv, i0) == (
                    stmts_view(statements@) + sp_program(tv, self.current as int).0,
                    ((self.current - i0) + sp_program(tv, self.current as int).1) as nat,
                ),
                stopped ==> sp_program(tv, i0).0 == stmts_view(statements@),
            decreases
                    (if stopped {
                        0int
                    } else {
                        1int
                    }),
                    toks_remaining(tv, self.current as int),
        {
            let ghost stmts_old = statements@;
            let ghost c0 = self.current as int;
            match self.parse_statement() {
                Option::Some(stmt) => {
                    proof {
                        broadcast use group_token_kinds;

                        reveal(sp_program);
                        let after = sp_program(tv, self.current as int);
                        assert((stmts_old.push(stmt)).drop_last() =~= stmts_old);
                        assert((stmts_old.push(stmt)).last() == stmt);
                        assert(stmts_view(stmts_old.push(stmt)) =~= stmts_view(stmts_old).push(
                            stmt@,
                        ));
                        assert(stmts_view(stmts_old).push(stmt@) + after.0 =~= stmts_view(
                            stmts_old,
                        ) + (seq![stmt@] + after.0));
                    }
                    statements.push(stmt);
                },
                Option::None => {
                    proof {
                        broadcast use group_token_kinds;

                        reveal(sp_program);
                        assert(sp_program(tv, c0).0 =~= Seq::<StmtView>::empty());
                        assert(stmts_view(statements@) + Seq::<StmtView>::empty() =~= stmts_view(
                            statements@,
                        ));
                    }
                    stopped = true;
                },
            }
        }
        proof {
            broadcast use group_token_kinds;

            reveal(sp_program);
            if !stopped {
                assert(sp_program(tv, self.current as int) == (Seq::<StmtView>::empty(), 0nat));
                assert(stmts_view(statements@) + Seq::<StmtView>::empty() =~= stmts_view(
                    statements@,
                ));
            }
        }
        statements
    }
}

} // verus!
