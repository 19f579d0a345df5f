//! A Pratt parser over the lexer's token stream.
//!
//! The parser's abstract state is the token stream its lexer yields (fixed
//! when the parser is made) and the index `k` of the current token; the next
//! ("peek") token is the one after it, or the final `EOF` again. Each parsing
//! function is specified by a function over the stream (`p_*` below) giving
//! what it returns, the index it leaves the parser at, and the errors it
//! records, in order.

use vstd::prelude::*;
use crate::ast::{
    exprs_view, stmts_view, params_view, branches_view, size_view, let_view, opt_expr_view,
    opt_stmt_view, lemma_exprs_view_push, lemma_stmts_view_push, lemma_params_view_push,
    lemma_branches_view_push, lemma_views_empty, Expr, Stmt, Branch, LetDecl, Param, Statement, Expression, LetStatement, BlockStatement,
    ReturnStatement, FunctionParameter, FunctionStatement, AssignStatement, WhileStatement,
    ForStatement, ArrayLiteral, IndexExpression, PrefixExpression, InfixExpression,
    PostfixExpression, IfBranch, IfExpression, CallExpression, Program,
};
use crate::token::{Token, TokenType, TokenKind, TokenView, literal_of};
use crate::text::utf8_len;
use crate::lexer::{Lexer, LexerView, source_lexes, lex_next, lex_ok, lex_stream, stream_ok, wf_stream, lemma_stream_wf, lemma_stream_step};

verus! {

/// Binding strength of operators, weakest first.
#[derive(Debug, PartialEq, Eq, Structural, PartialOrd, Clone, Copy)]
pub enum Precedence {
    LOWEST,
    EQUALS,
    LESSGREATER,
    SUM,
    PRODUCT,
    EXPONENT,
    PREFIX,
    CALL,
    INDEX,
}

impl Precedence {
    /// The rank of a precedence: 0 for `LOWEST` up to 8 for `INDEX`.
    pub open spec fn level(self) -> int {
        match self {
            Precedence::LOWEST => 0,
            Precedence::EQUALS => 1,
            Precedence::LESSGREATER => 2,
            Precedence::SUM => 3,
            Precedence::PRODUCT => 4,
            Precedence::EXPONENT => 5,
            Precedence::PREFIX => 6,
            Precedence::CALL => 7,
            Precedence::INDEX => 8,
        }
    }

    fn rank(&self) -> (r: u8)
        ensures
            r == self.level(),
    {
        match self {
            Precedence::LOWEST => 0,
            Precedence::EQUALS => 1,
            Precedence::LESSGREATER => 2,
            Precedence::SUM => 3,
            Precedence::PRODUCT => 4,
            Precedence::EXPONENT => 5,
            Precedence::PREFIX => 6,
            Precedence::CALL => 7,
            Precedence::INDEX => 8,
        }
    }

    /// Whether `self` binds strictly less tightly than `other`.
    fn binds_less(&self, other: &Precedence) -> (r: bool)
        ensures
            r == (self.level() < other.level()),
    {
        self.rank() < other.rank()
    }
}

/// The precedence a token has as an operator after an expression.
pub open spec fn prec_of(k: TokenKind) -> Precedence {
    match k {
        TokenKind::PLUS | TokenKind::MINUS => Precedence::SUM,
        TokenKind::SLASH | TokenKind::ASTERISK | TokenKind::MODULUS => Precedence::PRODUCT,
        TokenKind::POW => Precedence::EXPONENT,
        TokenKind::EE | TokenKind::NE => Precedence::EQUALS,
        TokenKind::LT | TokenKind::GT | TokenKind::LTE | TokenKind::GTE => Precedence::LESSGREATER,
        TokenKind::LPAREN => Precedence::CALL,
        TokenKind::LBRACKET => Precedence::INDEX,
        TokenKind::PLUSPLUS | TokenKind::MINUSMINUS => Precedence::INDEX,
        _ => Precedence::LOWEST,
    }
}

impl<'a> TokenType<'a> {
    /// The precedence of this token as an operator following an expression.
    pub fn precedence(&self) -> (r: Precedence)
        ensures
            r == prec_of(self@),
    {
        match self {
            TokenType::PLUS | TokenType::MINUS => Precedence::SUM,
            TokenType::SLASH | TokenType::ASTERISK | TokenType::MODULUS => Precedence::PRODUCT,
            TokenType::POW => Precedence::EXPONENT,
            TokenType::EE | TokenType::NE => Precedence::EQUALS,
            TokenType::LT | TokenType::GT | TokenType::LTE | TokenType::GTE => Precedence::LESSGREATER,
            TokenType::LPAREN => Precedence::CALL,
            TokenType::LBRACKET => Precedence::INDEX,
            TokenType::PLUSPLUS | TokenType::MINUSMINUS => Precedence::INDEX,
            _ => Precedence::LOWEST,
        }
    }
}

/// What the parser was looking for when it found another token.
#[derive(Debug, Clone, Copy, PartialEq)]
pub enum Expected {
    Identifier,
    Type,
    FunctionName,
    ReturnType,
}

/// A syntax error the parser recorded.
#[derive(Debug, Clone, Copy, PartialEq)]
pub enum ParseError<'a> {
    /// No expression can start with this token.
    NoPrefix(TokenType<'a>),
    /// The next token (at `line`, byte offset `col`) was `got`, not `expected`.
    UnexpectedToken { line: usize, col: usize, expected: TokenType<'a>, got: TokenType<'a> },
    /// The next token was `got`, not the kind of thing `expected` names.
    Missing { expected: Expected, got: TokenType<'a> },
}

/// The abstract value of a syntax error.
pub enum PErr {
    NoPrefix(TokenKind),
    UnexpectedToken { line: nat, col: nat, expected: TokenKind, got: TokenKind },
    Missing { expected: Expected, got: TokenKind },
}

impl<'a> ParseError<'a> {
    pub open spec fn view(&self) -> PErr {
        match *self {
            ParseError::NoPrefix(t) => PErr::NoPrefix(t@),
            ParseError::UnexpectedToken { line, col, expected, got } => PErr::UnexpectedToken {
                line: line as nat,
                col: col as nat,
                expected: expected@,
                got: got@,
            },
            ParseError::Missing { expected, got } => PErr::Missing { expected, got: got@ },
        }
    }
}

// ---------------------------------------------------------------------------
// The parser as functions over a token stream.
pub open spec fn at(t: Seq<TokenView>, k: int) -> TokenKind {
    t[k].kind
}

/// The index after advancing one token; the final `EOF` repeats.
pub open spec fn nx(t: Seq<TokenView>, k: int) -> int {
    if k + 1 < t.len() {
        k + 1
    } else {
        k
    }
}

/// The kind of the token after the current one.
pub open spec fn peek_kind(t: Seq<TokenView>, k: int) -> TokenKind {
    t[nx(t, k)].kind
}

/// `kc` lies strictly after `k` in the stream (or just past it).
pub open spec fn forward(t: Seq<TokenView>, k: int, kc: int) -> bool {
    k < kc <= t.len()
}

/// Expecting the next token to be of a kind: on a match, advance to it;
/// otherwise record an error naming the next token's line, offset and kind.
pub open spec fn expect(t: Seq<TokenView>, k: int, kind: TokenKind) -> (bool, int, Seq<PErr>) {
    let p = nx(t, k);
    if t[p].kind.tag() == kind.tag() {
        (true, p, seq![])
    } else {
        (
            false,
            k,
            seq![
                PErr::UnexpectedToken {
                    line: t[p].line_no,
                    col: t[p].position,
                    expected: kind,
                    got: t[p].kind,
                },
            ],
        )
    }
}

pub open spec fn is_assign_kind(k: TokenKind) -> bool {
    k is EQ || k is PLUSEQ || k is MINUSEQ || k is MULEQ || k is DIVEQ || k is MODEQ
}

pub open spec fn is_infix_kind(k: TokenKind) -> bool {
    k is PLUS || k is MINUS || k is SLASH || k is ASTERISK || k is MODULUS || k is POW || k is EE
        || k is NE || k is LT || k is GT || k is LTE || k is GTE
}

pub open spec fn opt_seq(s: Option<Stmt>) -> Seq<Stmt> {
    match s {
        Some(x) => seq![x],
        None => seq![],
    }
}

/// After a `let` value: skip to the next `;` (or `EOF`).
#[verifier::opaque]
pub open spec fn skip_semi(t: Seq<TokenView>, k: int) -> int
    decreases t.len() - k,
{
    if at(t, k) is SEMICOLON || at(t, k) is EOF || !forward(t, k, nx(t, k)) {
        k
    } else {
        skip_semi(t, nx(t, k))
    }
}

/// Statements up to the end of the stream.
#[verifier::opaque]
pub open spec fn p_program(t: Seq<TokenView>, k: int) -> (Seq<Stmt>, int, Seq<PErr>)
    decreases t.len() - k,
{
    if at(t, k) is EOF {
        (seq![], k, seq![])
    } else {
        let (s, k1, e1) = p_statement(t, k);
        let k2 = nx(t, k1);
        if !forward(t, k, k2) {
            (opt_seq(s), k2, e1)
        } else {
            let (rest, k3, e3) = p_program(t, k2);
            (opt_seq(s) + rest, k3, e1 + e3)
        }
    }
}

/// One statement starting at the current token.
#[verifier::opaque]
pub open spec fn p_statement(t: Seq<TokenView>, k: int) -> (Option<Stmt>, int, Seq<PErr>)
    decreases t.len() - k, 30int,
{
    match at(t, k) {
        TokenKind::LET => {
            let (r, k1, e) = p_let(t, k);
            (
                match r {
                    Some(d) => Some(Stmt::Let(d)),
                    None => None,
                },
                k1,
                e,
            )
        },
        TokenKind::DEF => p_function(t, k),
        TokenKind::RETURN => p_return(t, k),
        TokenKind::WHILE => p_while(t, k),
        TokenKind::FOR => p_for(t, k),
        TokenKind::BREAK => (Some(Stmt::Break), nx(t, k), seq![]),
        TokenKind::CONTINUE => (Some(Stmt::Continue), nx(t, k), seq![]),
        _ => p_expr_stmt(t, k),
    }
}

/// `let name: type [size] = value` up to the next `;`.
#[verifier::opaque]
pub open spec fn p_let(t: Seq<TokenView>, k: int) -> (Option<LetDecl>, int, Seq<PErr>)
    decreases t.len() - k, 20int,
{
    match peek_kind(t, k) {
        TokenKind::IDENT(name) => {
            let k1 = nx(t, k);
            let (ok, k2, e2) = expect(t, k1, TokenKind::COLON);
            if !ok {
                (None, k2, e2)
            } else {
                match peek_kind(t, k2) {
                    TokenKind::TYPE(vt) => {
                        let k3 = nx(t, k2);
                        if peek_kind(t, k3) is LBRACKET {
                            let k4 = nx(t, nx(t, k3));
                            if !forward(t, k, k4) {
                                (None, k4, e2)
                            } else {
                                let (sz, k5, e5) = p_expression(t, k4, Precedence::LOWEST);
                                match sz {
                                    None => (None, k5, e2 + e5),
                                    Some(x) => {
                                        let (ok6, k6, e6) = expect(t, k5, TokenKind::RBRACKET);
                                        if !ok6 || !forward(t, k, k6) {
                                            (None, k6, e2 + e5 + e6)
                                        } else {
                                            let (r, k7, e7) = p_let_value(
                                                t,
                                                k6,
                                                name,
                                                vt,
                                                Some(seq![x]),
                                            );
                                            (r, k7, e2 + e5 + e6 + e7)
                                        }
                                    },
                                }
                            }
                        } else if !forward(t, k, k3) {
                            (None, k3, e2)
                        } else {
                            let (r, k7, e7) = p_let_value(t, k3, name, vt, None);
                            (r, k7, e2 + e7)
                        }
                    },
                    _ => (
                        None,
                        k2,
                        e2 + seq![PErr::Missing { expected: Expected::Type, got: peek_kind(t, k2) }],
                    ),
                }
            }
        },
        _ => (
            None,
            k,
            seq![PErr::Missing { expected: Expected::Identifier, got: peek_kind(t, k) }],
        ),
    }
}

/// The `= value` part of a `let`, then up to the next `;`.
#[verifier::opaque]
pub open spec fn p_let_value(
    t: Seq<TokenView>,
    k: int,
    name: Seq<char>,
    vt: Seq<char>,
    asz: Option<Seq<Expr>>,
) -> (Option<LetDecl>, int, Seq<PErr>)
    decreases t.len() - k, 19int,
{
    let (ok, k1, e1) = expect(t, k, TokenKind::EQ);
    if !ok {
        (None, k1, e1)
    } else {
        let k2 = nx(t, k1);
        if !forward(t, k, k2) {
            (None, k2, e1)
        } else {
            let (v, k3, e3) = p_expression(t, k2, Precedence::LOWEST);
            match v {
                None => (None, k3, e1 + e3),
                Some(x) => (
                    Some(LetDecl { name, value_type: vt, array_size: asz, value: x }),
                    skip_semi(t, k3),
                    e1 + e3,
                ),
            }
        }
    }
}

/// `def name(params) -> type { body }`.
#[verifier::opaque]
pub open spec fn p_function(t: Seq<TokenView>, k: int) -> (Option<Stmt>, int, Seq<PErr>)
    decreases t.len() - k, 20int,
{
    match peek_kind(t, k) {
        TokenKind::IDENT(name) => {
            let k1 = nx(t, k);
            let (ok, k2, e2) = expect(t, k1, TokenKind::LPAREN);
            if !ok {
                (None, k2, e2)
            } else {
                let (ps, k3, e3) = p_params(t, k2);
                match ps {
                    None => (None, k3, e2 + e3),
                    Some(params) => {
                        let (ok4, k4, e4) = expect(t, k3, TokenKind::ARROW);
                        if !ok4 {
                            (None, k4, e2 + e3 + e4)
                        } else {
                            match peek_kind(t, k4) {
                                TokenKind::TYPE(rt) => {
                                    let k5 = nx(t, k4);
                                    let (ok6, k6, e6) = expect(t, k5, TokenKind::LBRACE);
                                    if !ok6 || !forward(t, k, k6) {
                                        (None, k6, e2 + e3 + e4 + e6)
                                    } else {
                                        let (body, k7, e7) = p_block(t, k6);
                                        (
                                            Some(Stmt::Function(name, params, rt, body)),
                                            k7,
                                            e2 + e3 + e4 + e6 + e7,
                                        )
                                    }
                                },
                                _ => (
                                    None,
                                    k4,
                                    e2 + e3 + e4 + seq![
                                        PErr::Missing {
                                            expected: Expected::ReturnType,
                                            got: peek_kind(t, k4),
                                        },
                                    ],
                                ),
                            }
                        }
                    },
                }
            }
        },
        _ => (
            None,
            k,
            seq![PErr::Missing { expected: Expected::FunctionName, got: peek_kind(t, k) }],
        ),
    }
}

/// Function parameters after `(`: `name: type` separated by commas, then `)`.
/// A missing name or type fails without recording an error.
#[verifier::opaque]
pub open spec fn p_params(t: Seq<TokenView>, k: int) -> (Option<Seq<Param>>, int, Seq<PErr>) {
    if peek_kind(t, k) is RPAREN {
        (Some(seq![]), nx(t, k), seq![])
    } else {
        let k1 = nx(t, k);
        match at(t, k1) {
            TokenKind::IDENT(name) => {
                let (ok, k2, e2) = expect(t, k1, TokenKind::COLON);
                if !ok {
                    (None, k2, e2)
                } else {
                    match peek_kind(t, k2) {
                        TokenKind::TYPE(vt) => {
                            let k3 = nx(t, k2);
                            let (rest, k4, e4) = p_params_tail(t, k3);
                            (
                                match rest {
                                    Some(r) => Some(
                                        seq![Param { name, value_type: vt, array_size: None }]
                                            + r,
                                    ),
                                    None => None,
                                },
                                k4,
                                e2 + e4,
                            )
                        },
                        _ => (None, k2, e2),
                    }
                }
            },
            _ => (None, k1, seq![]),
        }
    }
}

/// Further `, name: type` parameters, then `)`.
#[verifier::opaque]
pub open spec fn p_params_tail(t: Seq<TokenView>, k: int) -> (Option<Seq<Param>>, int, Seq<PErr>)
    decreases t.len() - k,
{
    if peek_kind(t, k) is COMMA {
        let k1 = nx(t, nx(t, k));
        match at(t, k1) {
            TokenKind::IDENT(name) => {
                let (ok, k2, e2) = expect(t, k1, TokenKind::COLON);
                if !ok {
                    (None, k2, e2)
                } else {
                    match peek_kind(t, k2) {
                        TokenKind::TYPE(vt) => {
                            let k3 = nx(t, k2);
                            if !forward(t, k, k3) {
                                (None, k3, e2)
                            } else {
                                let (rest, k4, e4) = p_params_tail(t, k3);
                                (
                                    match rest {
                                        Some(r) => Some(
                                            seq![Param { name, value_type: vt, array_size: None }]
                                                + r,
                                        ),
                                        None => None,
                                    },
                                    k4,
                                    e2 + e4,
                                )
                            }
                        },
                        _ => (None, k2, e2),
                    }
                }
            },
            _ => (None, k1, seq![]),
        }
    } else {
        let (ok, k1, e1) = expect(t, k, TokenKind::RPAREN);
        (
            if ok {
                Some(seq![])
            } else {
                None
            },
            k1,
            e1,
        )
    }
}

/// `return;` or `return value;`.
#[verifier::opaque]
pub open spec fn p_return(t: Seq<TokenView>, k: int) -> (Option<Stmt>, int, Seq<PErr>)
    decreases t.len() - k, 20int,
{
    let k1 = nx(t, k);
    if at(t, k1) is SEMICOLON {
        (Some(Stmt::Return(Expr::Void)), k1, seq![])
    } else if !forward(t, k, k1) {
        (None, k1, seq![])
    } else {
        let (v, k2, e2) = p_expression(t, k1, Precedence::LOWEST);
        match v {
            None => (None, k2, e2),
            Some(x) => {
                let (ok, k3, e3) = expect(t, k2, TokenKind::SEMICOLON);
                (
                    if ok {
                        Some(Stmt::Return(x))
                    } else {
                        None
                    },
                    k3,
                    e2 + e3,
                )
            },
        }
    }
}

/// `while condition { body }`.
#[verifier::opaque]
pub open spec fn p_while(t: Seq<TokenView>, k: int) -> (Option<Stmt>, int, Seq<PErr>)
    decreases t.len() - k, 20int,
{
    let k1 = nx(t, k);
    if !forward(t, k, k1) {
        (None, k1, seq![])
    } else {
        let (c, k2, e2) = p_expression(t, k1, Precedence::LOWEST);
        match c {
            None => (None, k2, e2),
            Some(x) => {
                let (ok, k3, e3) = expect(t, k2, TokenKind::LBRACE);
                if !ok || !forward(t, k, k3) {
                    (None, k3, e2 + e3)
                } else {
                    let (b, k4, e4) = p_block(t, k3);
                    (Some(Stmt::While(x, b)), k4, e2 + e3 + e4)
                }
            },
        }
    }
}

/// `for let ...; condition; action { body }`.
#[verifier::opaque]
pub open spec fn p_for(t: Seq<TokenView>, k: int) -> (Option<Stmt>, int, Seq<PErr>)
    decreases t.len() - k, 20int,
{
    let (ok, k1, e1) = expect(t, k, TokenKind::LET);
    if !ok || !forward(t, k, k1) {
        (None, k1, e1)
    } else {
        let (d, k2, e2) = p_let(t, k1);
        match d {
            None => (None, k2, e1 + e2),
            Some(decl) => {
                let k3 = nx(t, k2);
                if !forward(t, k, k3) {
                    (None, k3, e1 + e2)
                } else {
                    let (c, k4, e4) = p_expression(t, k3, Precedence::LOWEST);
                    match c {
                        None => (None, k4, e1 + e2 + e4),
                        Some(cond) => {
                            let (ok5, k5, e5) = expect(t, k4, TokenKind::SEMICOLON);
                            let k6 = nx(t, k5);
                            if !ok5 || !forward(t, k, k6) {
                                (None, k5, e1 + e2 + e4 + e5)
                            } else {
                                let (a, k7, e7) = p_expression(t, k6, Precedence::LOWEST);
                                match a {
                                    None => (None, k7, e1 + e2 + e4 + e5 + e7),
                                    Some(act) => {
                                        let (ok8, k8, e8) = expect(t, k7, TokenKind::LBRACE);
                                        if !ok8 || !forward(t, k, k8) {
                                            (None, k8, e1 + e2 + e4 + e5 + e7 + e8)
                                        } else {
                                            let (b, k9, e9) = p_block(t, k8);
                                            (
                                                Some(Stmt::For(decl, cond, act, b)),
                                                k9,
                                                e1 + e2 + e4 + e5 + e7 + e8 + e9,
                                            )
                                        }
                                    },
                                }
                            }
                        },
                    }
                }
            }
        }
    }
}

/// A block whose `{` is the current token: statements up to `}` or `EOF`.
#[verifier::opaque]
pub open spec fn p_block(t: Seq<TokenView>, k: int) -> (Seq<Stmt>, int, Seq<PErr>)
    decreases t.len() - k, 20int,
{
    let k1 = nx(t, k);
    if !forward(t, k, k1) {
        (seq![], k1, seq![])
    } else {
        p_block_loop(t, k1)
    }
}

#[verifier::opaque]
pub open spec fn p_block_loop(t: Seq<TokenView>, k: int) -> (Seq<Stmt>, int, Seq<PErr>)
    decreases t.len() - k, 31int,
{
    if at(t, k) is RBRACE || at(t, k) is EOF {
        (seq![], k, seq![])
    } else {
        let (s, k1, e1) = p_statement(t, k);
        let k2 = nx(t, k1);
        if !forward(t, k, k2) {
            (opt_seq(s), k2, e1)
        } else {
            let (rest, k3, e3) = p_block_loop(t, k2);
            (opt_seq(s) + rest, k3, e1 + e3)
        }
    }
}

/// An expression, possibly followed by an assignment operator and a value.
#[verifier::opaque]
pub open spec fn p_expr_stmt(t: Seq<TokenView>, k: int) -> (Option<Stmt>, int, Seq<PErr>)
    decreases t.len() - k, 20int,
{
    let (l, k1, e1) = p_expression(t, k, Precedence::LOWEST);
    match l {
        None => (None, k1, e1),
        Some(left) => {
            if is_assign_kind(peek_kind(t, k1)) {
                let k2 = nx(t, k1);
                let op = literal_of(at(t, k2));
                let k3 = nx(t, k2);
                if !forward(t, k, k3) {
                    (None, k3, e1)
                } else {
                    let (r, k4, e4) = p_expression(t, k3, Precedence::LOWEST);
                    match r {
                        None => (None, k4, e1 + e4),
                        Some(rv) => {
                            let k5 = if peek_kind(t, k4) is SEMICOLON {
                                nx(t, k4)
                            } else {
                                k4
                            };
                            (Some(Stmt::Assign(left, op, rv)), k5, e1 + e4)
                        },
                    }
                }
            } else {
                let k2 = if peek_kind(t, k1) is SEMICOLON {
                    nx(t, k1)
                } else {
                    k1
                };
                (Some(Stmt::Expression(left)), k2, e1)
            }
        },
    }
}

/// Continues after a prefix part that ended at `k1` (from `k`).
#[verifier::opaque]
pub open spec fn p_then_loop(
    t: Seq<TokenView>,
    k: int,
    prec: Precedence,
    r: Option<Expr>,
    k1: int,
    e1: Seq<PErr>,
) -> (Option<Expr>, int, Seq<PErr>)
    decreases t.len() - k, 16int,
{
    match r {
        None => (None, k1, e1),
        Some(x) => if !(k <= k1 <= t.len()) {
            (None, k1, e1)
        } else {
            let (r2, k2, e2) = p_expr_loop(t, k1, prec, x);
            (r2, k2, e1 + e2)
        },
    }
}

/// An expression binding tighter than `prec`, starting at the current token.
#[verifier::opaque]
pub open spec fn p_expression(t: Seq<TokenView>, k: int, prec: Precedence) -> (
    Option<Expr>,
    int,
    Seq<PErr>,
)
    decreases t.len() - k, 17int,
{
    match at(t, k) {
        TokenKind::INT(v) => p_expr_loop(t, k, prec, Expr::Integer(v)),
        TokenKind::FLOAT(s) => p_expr_loop(t, k, prec, Expr::Float(s)),
        TokenKind::TRUE => p_expr_loop(t, k, prec, Expr::Boolean(true)),
        TokenKind::FALSE => p_expr_loop(t, k, prec, Expr::Boolean(false)),
        TokenKind::IDENT(s) => p_expr_loop(t, k, prec, Expr::Identifier(s)),
        TokenKind::STRING(s) => p_expr_loop(t, k, prec, Expr::Str(s)),
        TokenKind::MINUS | TokenKind::PLUS | TokenKind::BANG => {
            let (r, k1, e1) = p_prefix(t, k);
            p_then_loop(t, k, prec, r, k1, e1)
        },
        TokenKind::LPAREN => {
            let (r, k1, e1) = p_grouped(t, k);
            p_then_loop(t, k, prec, r, k1, e1)
        },
        TokenKind::LBRACKET => {
            let (r, k1, e1) = p_array(t, k);
            p_then_loop(t, k, prec, r, k1, e1)
        },
        TokenKind::IF => {
            let (r, k1, e1) = p_if(t, k);
            p_then_loop(t, k, prec, r, k1, e1)
        },
        _ => (None, k, seq![PErr::NoPrefix(at(t, k))]),
    }
}

/// After a sub-expression that ended at `k2`, continue the operator loop.
#[verifier::opaque]
pub open spec fn p_loop_cont(
    t: Seq<TokenView>,
    k: int,
    prec: Precedence,
    r: Option<Expr>,
    k2: int,
    e2: Seq<PErr>,
) -> (Option<Expr>, int, Seq<PErr>)
    decreases t.len() - k, 13int,
{
    match r {
        None => (None, k2, e2),
        Some(x) => if !forward(t, k, k2) {
            (None, k2, e2)
        } else {
            let (r3, k3, e3) = p_expr_loop(t, k2, prec, x);
            (r3, k3, e2 + e3)
        },
    }
}

/// The operator loop: while the next token is an operator binding tighter
/// than `prec` (and not `;`), extend `left` with it.
#[verifier::opaque]
pub open spec fn p_expr_loop(t: Seq<TokenView>, k: int, prec: Precedence, left: Expr) -> (
    Option<Expr>,
    int,
    Seq<PErr>,
)
    decreases t.len() - k, 14int,
{
    let p = peek_kind(t, k);
    let k1 = nx(t, k);
    if !(p is SEMICOLON) && prec.level() < prec_of(p).level() && forward(t, k, k1) {
        if is_infix_kind(p) {
            let (r, k2, e2) = p_infix(t, k1, left);
            p_loop_cont(t, k, prec, r, k2, e2)
        } else if p is LPAREN {
            let (r, k2, e2) = p_call(t, k1, left);
            p_loop_cont(t, k, prec, r, k2, e2)
        } else if p is LBRACKET {
            let (r, k2, e2) = p_index(t, k1, left);
            p_loop_cont(t, k, prec, r, k2, e2)
        } else if p is PLUSPLUS || p is MINUSMINUS {
            p_expr_loop(t, k1, prec, Expr::Postfix(literal_of(at(t, k1)), Box::new(left)))
        } else {
            (Some(left), k, seq![])
        }
    } else {
        (Some(left), k, seq![])
    }
}

/// A prefix operator applied to what follows it.
#[verifier::opaque]
pub open spec fn p_prefix(t: Seq<TokenView>, k: int) -> (Option<Expr>, int, Seq<PErr>)
    decreases t.len() - k, 10int,
{
    let op = literal_of(at(t, k));
    let k1 = nx(t, k);
    if !forward(t, k, k1) {
        (None, k1, seq![])
    } else {
        let (r, k2, e2) = p_expression(t, k1, Precedence::PREFIX);
        match r {
            None => (None, k2, e2),
            Some(x) => (Some(Expr::Prefix(op, Box::new(x))), k2, e2),
        }
    }
}

/// A binary operator (the current token) applied to `left` and what follows.
#[verifier::opaque]
pub open spec fn p_infix(t: Seq<TokenView>, k: int, left: Expr) -> (Option<Expr>, int, Seq<PErr>)
    decreases t.len() - k, 10int,
{
    let op = literal_of(at(t, k));
    let pr = prec_of(at(t, k));
    let k1 = nx(t, k);
    if !forward(t, k, k1) {
        (None, k1, seq![])
    } else {
        let (r, k2, e2) = p_expression(t, k1, pr);
        match r {
            None => (None, k2, e2),
            Some(x) => (Some(Expr::Infix(Box::new(left), op, Box::new(x))), k2, e2),
        }
    }
}

/// `( expression )`.
#[verifier::opaque]
pub open spec fn p_grouped(t: Seq<TokenView>, k: int) -> (Option<Expr>, int, Seq<PErr>)
    decreases t.len() - k, 10int,
{
    let k1 = nx(t, k);
    if !forward(t, k, k1) {
        (None, k1, seq![])
    } else {
        let (r, k2, e2) = p_expression(t, k1, Precedence::LOWEST);
        match r {
            None => (None, k2, e2),
            Some(x) => {
                let (ok, k3, e3) = expect(t, k2, TokenKind::RPAREN);
                (
                    if ok {
                        Some(x)
                    } else {
                        None
                    },
                    k3,
                    e2 + e3,
                )
            },
        }
    }
}

/// `left [ index ]`, the `[` being the current token.
#[verifier::opaque]
pub open spec fn p_index(t: Seq<TokenView>, k: int, left: Expr) -> (Option<Expr>, int, Seq<PErr>)
    decreases t.len() - k, 10int,
{
    let k1 = nx(t, k);
    if !forward(t, k, k1) {
        (None, k1, seq![])
    } else {
        let (r, k2, e2) = p_expression(t, k1, Precedence::LOWEST);
        match r {
            None => (None, k2, e2),
            Some(x) => {
                let (ok, k3, e3) = expect(t, k2, TokenKind::RBRACKET);
                (
                    if ok {
                        Some(Expr::Index(Box::new(left), Box::new(x)))
                    } else {
                        None
                    },
                    k3,
                    e2 + e3,
                )
            },
        }
    }
}

/// `function ( arguments )`, the `(` being the current token.
#[verifier::opaque]
pub open spec fn p_call(t: Seq<TokenView>, k: int, function: Expr) -> (
    Option<Expr>,
    int,
    Seq<PErr>,
)
    decreases t.len() - k, 10int,
{
    let (a, k1, e1) = p_list(t, k, TokenKind::RPAREN);
    match a {
        None => (None, k1, e1),
        Some(args) => (Some(Expr::Call(Box::new(function), args)), k1, e1),
    }
}

/// `[ elements ]`, the `[` being the current token.
#[verifier::opaque]
pub open spec fn p_array(t: Seq<TokenView>, k: int) -> (Option<Expr>, int, Seq<PErr>)
    decreases t.len() - k, 10int,
{
    let (a, k1, e1) = p_list(t, k, TokenKind::RBRACKET);
    match a {
        None => (None, k1, e1),
        Some(elts) => (Some(Expr::Array(elts, elts.len())), k1, e1),
    }
}

/// Comma-separated expressions up to the token kind `end`.
#[verifier::opaque]
pub open spec fn p_list(t: Seq<TokenView>, k: int, end: TokenKind) -> (
    Option<Seq<Expr>>,
    int,
    Seq<PErr>,
)
    decreases t.len() - k, 9int,
{
    let k1 = nx(t, k);
    if peek_kind(t, k).tag() == end.tag() {
        (Some(seq![]), k1, seq![])
    } else if !forward(t, k, k1) {
        (None, k1, seq![])
    } else {
        let (r, k2, e2) = p_expression(t, k1, Precedence::LOWEST);
        match r {
            None => (None, k2, e2),
            Some(x) => if !forward(t, k, k2) {
                (None, k2, e2)
            } else {
                let (rest, k3, e3) = p_list_tail(t, k2, end);
                (
                    match rest {
                        Some(r) => Some(seq![x] + r),
                        None => None,
                    },
                    k3,
                    e2 + e3,
                )
            },
        }
    }
}

/// Further `, expression` items, then the closing token kind `end`.
#[verifier::opaque]
pub open spec fn p_list_tail(t: Seq<TokenView>, k: int, end: TokenKind) -> (
    Option<Seq<Expr>>,
    int,
    Seq<PErr>,
)
    decreases t.len() - k, 9int,
{
    if peek_kind(t, k) is COMMA {
        let k1 = nx(t, nx(t, k));
        if !forward(t, k, k1) {
            (None, k1, seq![])
        } else {
            let (r, k2, e2) = p_expression(t, k1, Precedence::LOWEST);
            match r {
                None => (None, k2, e2),
                Some(x) => if !forward(t, k, k2) {
                    (None, k2, e2)
                } else {
                    let (rest, k3, e3) = p_list_tail(t, k2, end);
                    (
                        match rest {
                            Some(r) => Some(seq![x] + r),
                            None => None,
                        },
                        k3,
                        e2 + e3,
                    )
                },
            }
        }
    } else {
        let (ok, k1, e1) = expect(t, k, end);
        (
            if ok {
                Some(seq![])
            } else {
                None
            },
            k1,
            e1,
        )
    }
}

/// `if condition { ... }` with `else if` arms and an optional `else`.
#[verifier::opaque]
pub open spec fn p_if(t: Seq<TokenView>, k: int) -> (Option<Expr>, int, Seq<PErr>)
    decreases t.len() - k, 10int,
{
    let k1 = nx(t, k);
    if !forward(t, k, k1) {
        (None, k1, seq![])
    } else {
        let (c, k2, e2) = p_expression(t, k1, Precedence::LOWEST);
        match c {
            None => (None, k2, e2),
            Some(cond) => {
                let (ok, k3, e3) = expect(t, k2, TokenKind::LBRACE);
                if !ok || !forward(t, k, k3) {
                    (None, k3, e2 + e3)
                } else {
                    let (b, k4, e4) = p_block(t, k3);
                    if !forward(t, k, k4) {
                        (None, k4, e2 + e3 + e4)
                    } else {
                        let (rest, k5, e5) = p_else(t, k4);
                        (
                            match rest {
                                Some((brs, alt)) => Some(
                                    Expr::If(
                                        seq![Branch { condition: cond, consequence: b }] + brs,
                                        alt,
                                    ),
                                ),
                                None => None,
                            },
                            k5,
                            e2 + e3 + e4 + e5,
                        )
                    }
                }
            },
        }
    }
}

/// The `else if` arms and `else` block after an `if` arm.
#[verifier::opaque]
pub open spec fn p_else(t: Seq<TokenView>, k: int) -> (
    Option<(Seq<Branch>, Option<Seq<Stmt>>)>,
    int,
    Seq<PErr>,
)
    decreases t.len() - k, 9int,
{
    if peek_kind(t, k) is ELSE {
        let k1 = nx(t, k);
        if !forward(t, k, k1) {
            (None, k1, seq![])
        } else if peek_kind(t, k1) is IF {
            let k2 = nx(t, nx(t, k1));
            if !forward(t, k, k2) {
                (None, k2, seq![])
            } else {
                let (c, k3, e3) = p_expression(t, k2, Precedence::LOWEST);
                match c {
                    None => (None, k3, e3),
                    Some(cond) => {
                        let (ok, k4, e4) = expect(t, k3, TokenKind::LBRACE);
                        if !ok || !forward(t, k, k4) {
                            (None, k4, e3 + e4)
                        } else {
                            let (b, k5, e5) = p_block(t, k4);
                            if !forward(t, k, k5) {
                                (None, k5, e3 + e4 + e5)
                            } else {
                                let (rest, k6, e6) = p_else(t, k5);
                                (
                                    match rest {
                                        Some((brs, alt)) => Some(
                                            (
                                                seq![Branch { condition: cond, consequence: b }]
                                                    + brs,
                                                alt,
                                            ),
                                        ),
                                        None => None,
                                    },
                                    k6,
                                    e3 + e4 + e5 + e6,
                                )
                            }
                        }
                    },
                }
            }
        } else {
            let (ok, k2, e2) = expect(t, k1, TokenKind::LBRACE);
            if !ok || !forward(t, k, k2) {
                (None, k2, e2)
            } else {
                let (b, k3, e3) = p_block(t, k2);
                (Some((seq![], Some(b))), k3, e2 + e3)
            }
        }
    } else {
        (Some((seq![], None)), k, seq![])
    }
}

// ---------------------------------------------------------------------------
// The parser.
pub struct Parser<'a> {
    lexer: Lexer<'a>,
    pub errors: Vec<ParseError<'a>>,
    currtok: Token<'a>,
    peektok: Token<'a>,
    toks: Ghost<Seq<TokenView>>,
    k: Ghost<int>,
}

/// The abstract values of a sequence of errors.
pub open spec fn errors_view<'a>(v: Seq<ParseError<'a>>) -> Seq<PErr> {
    Seq::new(v.len(), |i: int| v[i]@)
}

/// Whether the next two tokens from a lexer state can be lexed.
pub open spec fn two_tokens_ok(s: Seq<char>, i: int, line: int) -> bool {
    &&& lex_ok(s, i, line)
    &&& lex_ok(s, lex_next(s, i, line).1, lex_next(s, i, line).2)
}

/// Where the lexer's remaining stream starts, for a parser at `k`.
pub open spec fn rest_from(t: Seq<TokenView>, k: int) -> int {
    if k + 2 < t.len() {
        k + 2
    } else {
        t.len() - 1
    }
}

/// The lexer's remaining tokens are those of the stream after the parser's
/// next token, and can all be lexed.
#[verifier::opaque]
pub closed spec fn lexer_agrees(lv: LexerView, t: Seq<TokenView>, k: int) -> bool {
    &&& 0 <= lv.idx <= lv.source.len()
    &&& lex_stream(lv.source, lv.idx, lv.line) == t.skip(rest_from(t, k))
    &&& stream_ok(lv.source, lv.idx, lv.line)
}

impl<'a> Parser<'a> {
    /// The token stream the parser reads.
    pub closed spec fn tokens(&self) -> Seq<TokenView> {
        self.toks@
    }

    /// The index of the current token in the stream.
    pub closed spec fn pos(&self) -> int {
        self.k@
    }

    /// The abstract values of the recorded errors.
    pub closed spec fn errs(&self) -> Seq<PErr> {
        errors_view(self.errors@)
    }

    /// Same stream, now at index `k`, not before where it was.
    pub closed spec fn after(self, before: Self, k: int) -> bool {
        &&& self.wf()
        &&& self.toks@ == before.toks@
        &&& self.k@ == k
        &&& before.k@ <= k
    }

    /// The current and next tokens and the lexer agree with the stream.
    pub closed spec fn wf(&self) -> bool {
        let t = self.toks@;
        let k = self.k@;
        let lv = self.lexer@;
        &&& wf_stream(t)
        &&& 0 <= k < t.len()
        &&& self.currtok@ == t[k]
        &&& self.peektok@ == t[nx(t, k)]
        &&& self.lexer.wf()
        &&& lexer_agrees(lv, t, k)
    }

    /// The current token.
    pub closed spec fn current(&self) -> TokenView {
        self.currtok@
    }

    /// The next token.
    pub closed spec fn peek(&self) -> TokenView {
        self.peektok@
    }

    /// The state of the lexer the parser reads from.
    pub closed spec fn lexer_view(&self) -> LexerView {
        self.lexer@
    }

    /// A well-formed parser reads a well-formed stream: its current token is
    /// the one at its position, and its next token the one after (the final
    /// `EOF` again at the end).
    pub proof fn lemma_current_tokens(&self)
        requires
            self.wf(),
        ensures
            wf_stream(self.tokens()),
            0 <= self.pos() < self.tokens().len(),
            self.current() == self.tokens()[self.pos()],
            self.peek() == self.tokens()[nx(self.tokens(), self.pos())],
    {
    }

    /// Reads the first two tokens: they become the current and the next
    /// token, and the lexer stands after them. No error is recorded. The
    /// parser reads the stream the lexer yields from its state; it is well
    /// formed, ready to parse, when that whole stream can be lexed.
    pub fn new(lexer: Lexer<'a>) -> (p: Self)
        requires
            lexer.wf(),
            two_tokens_ok(lexer@.source, lexer@.idx, lexer@.line),
        ensures
            ({
                let s = lexer@.source;
                let (t1, i1, l1) = lex_next(s, lexer@.idx, lexer@.line);
                let (t2, i2, l2) = lex_next(s, i1, l1);
                &&& p.current() == t1
                &&& p.peek() == t2
                &&& p.lexer_view() == (LexerView { source: s, idx: i2, line: l2 })
            }),
            p.tokens() == lex_stream(lexer@.source, lexer@.idx, lexer@.line),
            p.pos() == 0,
            p.errs() == Seq::<PErr>::empty(),
            stream_ok(lexer@.source, lexer@.idx, lexer@.line) ==> p.wf(),
    {
        reveal(lexer_agrees);
        let mut lexer = lexer;
        let ghost l0 = lexer@;
        proof {
            lexer.lemma_view_bounds();
            lemma_stream_wf(l0.source, l0.idx, l0.line);
            lemma_stream_step(l0.source, l0.idx, l0.line);
        }
        let currtok = lexer.next_token();
        let ghost l1 = lexer@;
        proof {
            lexer.lemma_view_bounds();
            lemma_stream_wf(l1.source, l1.idx, l1.line);
            lemma_stream_step(l1.source, l1.idx, l1.line);
        }
        let peektok = lexer.next_token();
        let ghost l2 = lexer@;
        let ghost t = lex_stream(l0.source, l0.idx, l0.line);
        proof {
            lexer.lemma_view_bounds();
            if currtok.token_type@ is EOF {
                assert(t.skip(0) =~= t);
            } else if peektok.token_type@ is EOF {
                assert(t =~= seq![currtok@, peektok@]);
                assert(t.skip(1) =~= seq![peektok@]);
            } else {
                assert(t.skip(2) =~= lex_stream(l2.source, l2.idx, l2.line));
            }
        }
        let p = Parser { lexer, errors: Vec::new(), currtok, peektok, toks: Ghost(t), k: Ghost(0) };
        proof {
            assert(p.errs() =~= Seq::<PErr>::empty());
        }
        p
    }

    /// Advances one token: the next token becomes current, and the lexer
    /// supplies a new next token.
    fn next_token(&mut self)
        requires
            old(self).wf(),
        ensures
            final(self).after(*old(self), nx(old(self).tokens(), old(self).pos())),
            !(at(old(self).tokens(), old(self).pos()) is EOF) ==> final(self).pos() == old(
                self,
            ).pos() + 1,
            final(self).errors == old(self).errors,
            final(self).errs() == old(self).errs(),
    {
        reveal(lexer_agrees);
        let ghost t = self.toks@;
        let ghost k = self.k@;
        let ghost lv = self.lexer@;
        let ghost m = rest_from(t, k);
        self.currtok = self.peektok;
        proof {
            lemma_stream_step(lv.source, lv.idx, lv.line);
            lemma_stream_wf(lv.source, lv.idx, lv.line);
            assert(t.skip(m)[0] == t[m]);
        }
        self.peektok = self.lexer.next_token();
        self.k = Ghost(nx(t, k));
        proof {
            self.lexer.lemma_view_bounds();
            let lv2 = self.lexer@;
            if !(t[m].kind is EOF) {
                assert(t.skip(m + 1) =~= t.skip(m).drop_first());
                assert(lex_stream(lv2.source, lv2.idx, lv2.line) =~= t.skip(m).drop_first());
            } else {
                assert(m == t.len() - 1);
                assert(t.skip(m) =~= seq![t[m]]);
            }
        }
    }

    /// Whether the next token is of the given kind; if so, advances to it,
    /// else records which kind was expected and which came.
    fn expect_peek_type(&mut self, tt: TokenType<'a>) -> (r: bool)
        requires
            old(self).wf(),
        ensures
            ({
                let (ok, k1, e1) = expect(old(self).tokens(), old(self).pos(), tt@);
                &&& r == ok
                &&& final(self).after(*old(self), k1)
                &&& final(self).errs() == old(self).errs() + e1
            }),
    {
        if self.peektok.token_type.same_kind(&tt) {
            self.next_token();
            true
        } else {
            let line = self.peektok.line_no;
            let pos = self.peektok.position;
            let e = ParseError::UnexpectedToken {
                line,
                col: pos,
                expected: tt,
                got: self.peektok.token_type,
            };
            self.errors.push(e);
            proof {
                assert(self.errs() =~= old(self).errs() + seq![e@]);
            }
            false
        }
    }

    /// Whether the next token is an assignment operator.
    fn peek_token_is_assignment(&self) -> (r: bool)
        requires
            self.wf(),
        ensures
            r == is_assign_kind(peek_kind(self.tokens(), self.pos())),
    {
        matches!(
            self.peektok.token_type,
            TokenType::EQ | TokenType::PLUSEQ | TokenType::MINUSEQ | TokenType::MULEQ
                | TokenType::DIVEQ | TokenType::MODEQ
        )
    }

    /// Records that the next token is not the `expected` kind of thing.
    fn peek_error(&mut self, expected: Expected)
        requires
            old(self).wf(),
        ensures
            final(self).after(*old(self), old(self).pos()),
            final(self).errs() == old(self).errs() + seq![
                PErr::Missing {
                    expected,
                    got: peek_kind(old(self).tokens(), old(self).pos()),
                },
            ],
    {
        let e = ParseError::Missing { expected, got: self.peektok.token_type };
        self.errors.push(e);
        proof {
            assert(self.errs() =~= old(self).errs() + seq![e@]);
        }
    }
}

impl<'a> Parser<'a> {
    /// Records an error.
    fn record(&mut self, e: ParseError<'a>)
        requires
            old(self).wf(),
        ensures
            final(self).after(*old(self), old(self).pos()),
            final(self).errs() == old(self).errs() + seq![e@],
    {
        self.errors.push(e);
        proof {
            assert(self.errs() =~= old(self).errs() + seq![e@]);
        }
    }

    /// One statement starting at the current token; the parser is left on
    /// its last token.
    #[verifier::rlimit(100)]
    fn parse_statement(&mut self) -> (r: Option<Statement<'a>>)
        requires
            old(self).wf(),
        ensures
            ({
                let (v, k, e) = p_statement(old(self).tokens(), old(self).pos());
                &&& opt_stmt_view(r) == v
                &&& final(self).after(*old(self), k)
                &&& final(self).errs() == old(self).errs() + e
                &&& (v is None && !(at(old(self).tokens(), old(self).pos()) is DEF) ==> e.len()
                    > 0)
            }),
        decreases old(self).toks@.len() - old(self).k@, 30int,
    {
        proof {
            lemma_unfold_p_statement(self.toks@, self.k@);
        }
        match self.currtok.token_type {
            TokenType::LET => {
                self.parse_let_statement()
            },
            TokenType::DEF => {
                self.parse_function_statement()
            },
            TokenType::RETURN => {
                self.parse_return_statement()
            },
            TokenType::WHILE => {
                self.parse_while_statement()
            },
            TokenType::FOR => {
                self.parse_for_statement()
            },
            TokenType::BREAK => {
                self.next_token();
                Some(Statement::Break)
            },
            TokenType::CONTINUE => {
                self.next_token();
                Some(Statement::Continue)
            },
            _ => {
                self.parse_expression_statement()
            },
        }
    }

    #[verifier::rlimit(40)]
    fn parse_let_statement(&mut self) -> (r: Option<Statement<'a>>)
        requires
            old(self).wf(),
        ensures
            ({
                let (v, k, e) = p_let(old(self).tokens(), old(self).pos());
                &&& opt_stmt_view(r) == match v {
                    Some(d) => Some(Stmt::Let(d)),
                    None => None,
                }
                &&& final(self).after(*old(self), k)
                &&& final(self).errs() == old(self).errs() + e
                &&& (v is None ==> e.len() > 0)
            }),
        decreases old(self).toks@.len() - old(self).k@, 20int,
    {
        proof {
            lemma_unfold_p_let(self.toks@, self.k@);
        }
        let ghost t = self.toks@;
        let ghost k0 = self.k@;
        let name = match self.peektok.token_type {
            TokenType::IDENT(lit) => lit,
            _ => {
                self.peek_error(Expected::Identifier);
                return None;
            },
        };
        self.next_token();
        if !self.expect_peek_type(TokenType::COLON) {
            return None;
        }
        let value_type = match self.peektok.token_type {
            TokenType::TYPE(lit) => lit,
            _ => {
                self.peek_error(Expected::Type);
                return None;
            },
        };
        self.next_token();
        let ghost k3 = self.k@;
        let mut array_size: Option<Vec<Expression<'a>>> = None;
        if matches!(self.peektok.token_type, TokenType::LBRACKET) {
            self.next_token();
            self.next_token();
            let size = match self.parse_expression(Precedence::LOWEST) {
                Some(e) => e,
                None => {
                    return None;
                },
            };
            if !self.expect_peek_type(TokenType::RBRACKET) {
                return None;
            }
            let mut v = Vec::new();
            v.push(size);
            proof {
                lemma_views_empty::<'a>();
                lemma_exprs_view_push(Seq::empty(), size);
                assert(Seq::<Expression<'a>>::empty().push(size) == v@);
            }
            array_size = Some(v);
        }
        let ghost k6 = self.k@;
        let ghost e_before = self.errs();
        proof {
            assert(k0 < k6);
        }
        let r = self.parse_let_value(name, value_type, array_size);
        r
    }

    /// The `= value` of a `let` whose type (and size) are parsed, then on to
    /// the next `;`.
    fn parse_let_value(
        &mut self,
        name: &'a str,
        value_type: &'a str,
        array_size: Option<Vec<Expression<'a>>>,
    ) -> (r: Option<Statement<'a>>)
        requires
            old(self).wf(),
        ensures
            ({
                let (v, k, e) = p_let_value(
                    old(self).tokens(),
                    old(self).pos(),
                    name@,
                    value_type@,
                    size_view(array_size),
                );
                &&& opt_stmt_view(r) == match v {
                    Some(d) => Some(Stmt::Let(d)),
                    None => None,
                }
                &&& final(self).after(*old(self), k)
                &&& final(self).errs() == old(self).errs() + e
                &&& (v is None ==> e.len() > 0)
            }),
        decreases old(self).toks@.len() - old(self).k@, 19int,
    {
        proof {
            lemma_unfold_p_let_value(self.toks@, self.k@, name@, value_type@, size_view(array_size));
        }
        let ghost t = self.toks@;
        if !self.expect_peek_type(TokenType::EQ) {
            return None;
        }
        self.next_token();
        let value = match self.parse_expression(Precedence::LOWEST) {
            Some(v) => v,
            None => {
                return None;
            },
        };
        let ghost k3 = self.k@;
        let ghost errs3 = self.errs();
        while !matches!(self.currtok.token_type, TokenType::SEMICOLON) && !matches!(
            self.currtok.token_type,
            TokenType::EOF
        )
            invariant
                self.after(*old(self), self.pos()),
                self.toks@ == t,
                self.errs() == errs3,
                skip_semi(t, self.k@) == skip_semi(t, k3),
            decreases t.len() - self.k@,
        {
            proof {
                lemma_unfold_skip_semi(t, self.k@);
            }
            self.next_token();
        }
        proof {
            lemma_unfold_skip_semi(t, self.k@);
        }
        Some(Statement::Let(LetStatement { name, value_type, array_size, value }))
    }

    fn parse_function_statement(&mut self) -> (r: Option<Statement<'a>>)
        requires
            old(self).wf(),
        ensures
            ({
                let (v, k, e) = p_function(old(self).tokens(), old(self).pos());
                &&& opt_stmt_view(r) == v
                &&& final(self).after(*old(self), k)
                &&& final(self).errs() == old(self).errs() + e
            }),
        decreases old(self).toks@.len() - old(self).k@, 20int,
    {
        proof {
            lemma_unfold_p_function(self.toks@, self.k@);
        }
        let name = match self.peektok.token_type {
            TokenType::IDENT(lit) => lit,
            _ => {
                self.peek_error(Expected::FunctionName);
                return None;
            },
        };
        self.next_token();
        if !self.expect_peek_type(TokenType::LPAREN) {
            return None;
        }
        let parameters = match self.parse_function_parameters() {
            Some(p) => p,
            None => {
                return None;
            },
        };
        if !self.expect_peek_type(TokenType::ARROW) {
            return None;
        }
        let return_type = match self.peektok.token_type {
            TokenType::TYPE(lit) => lit,
            _ => {
                self.peek_error(Expected::ReturnType);
                return None;
            },
        };
        self.next_token();
        if !self.expect_peek_type(TokenType::LBRACE) {
            return None;
        }
        let body = self.parse_block_statement();
        Some(Statement::Function(FunctionStatement { name, parameters, return_type, body }))
    }

    /// Parameters after `(`: `name: type` separated by commas, then `)`.
    fn parse_function_parameters(&mut self) -> (r: Option<Vec<FunctionParameter<'a>>>)
        requires
            old(self).wf(),
        ensures
            ({
                let (v, k, e) = p_params(old(self).tokens(), old(self).pos());
                &&& match r {
                    Some(ps) => v == Some(params_view(ps@)),
                    None => v is None,
                }
                &&& final(self).after(*old(self), k)
                &&& final(self).errs() == old(self).errs() + e
            }),
    {
        proof {
            lemma_unfold_p_params(self.toks@, self.k@);
        }
        let ghost t = self.toks@;
        let mut params: Vec<FunctionParameter<'a>> = Vec::new();
        proof {
            lemma_views_empty::<'a>();
        }
        if matches!(self.peektok.token_type, TokenType::RPAREN) {
            self.next_token();
            return Some(params);
        }
        self.next_token();
        let name = match self.currtok.token_type {
            TokenType::IDENT(lit) => lit,
            _ => {
                return None;
            },
        };
        if !self.expect_peek_type(TokenType::COLON) {
            return None;
        }
        let value_type = match self.peektok.token_type {
            TokenType::TYPE(lit) => lit,
            _ => {
                return None;
            },
        };
        self.next_token();
        let ghost first = Param { name: name@, value_type: value_type@, array_size: None };
        let p0 = FunctionParameter { name, value_type, array_size: None };
        proof {
            lemma_params_view_push(params@, p0);
        }
        params.push(p0);
        let ghost spec_all = p_params(t, old(self).pos());
        loop
            invariant
                self.wf(),
                self.toks@ == t,
                t == old(self).toks@,
                spec_all == p_params(t, old(self).pos()),
                old(self).pos() <= self.pos(),
                ({
                    let (v2, k2, e2) = p_params_tail(t, self.pos());
                    &&& spec_all.1 == k2
                    &&& old(self).errs() + spec_all.2 == self.errs() + e2
                    &&& spec_all.0 == match v2 {
                        Some(rest) => Some(params_view(params@) + rest),
                        None => None,
                    }
                }),
            ensures
                self.wf(),
                self.toks@ == t,
                old(self).pos() <= self.pos(),
                !(peek_kind(t, self.pos()) is COMMA),
                ({
                    let (v2, k2, e2) = p_params_tail(t, self.pos());
                    &&& spec_all.1 == k2
                    &&& old(self).errs() + spec_all.2 == self.errs() + e2
                    &&& spec_all.0 == match v2 {
                        Some(rest) => Some(params_view(params@) + rest),
                        None => None,
                    }
                }),
            decreases t.len() - self.k@,
        {
            proof {
                lemma_unfold_p_params_tail(t, self.k@);
            }
            if !matches!(self.peektok.token_type, TokenType::COMMA) {
                break ;
            }
            self.next_token();
            self.next_token();
            let p_name = match self.currtok.token_type {
                TokenType::IDENT(lit) => lit,
                _ => {
                    return None;
                },
            };
            if !self.expect_peek_type(TokenType::COLON) {
                return None;
            }
            let p_type = match self.peektok.token_type {
                TokenType::TYPE(lit) => lit,
                _ => {
                    return None;
                },
            };
            self.next_token();
            let p = FunctionParameter { name: p_name, value_type: p_type, array_size: None };
            proof {
                lemma_params_view_push(params@, p);
            }
            params.push(p);
        }
        proof {
            lemma_unfold_p_params_tail(t, self.k@);
            assert(params_view(params@) + Seq::<Param>::empty() =~= params_view(params@));
        }
        if !self.expect_peek_type(TokenType::RPAREN) {
            return None;
        }
        Some(params)
    }

    fn parse_return_statement(&mut self) -> (r: Option<Statement<'a>>)
        requires
            old(self).wf(),
            !(at(old(self).tokens(), old(self).pos()) is EOF),
        ensures
            ({
                let (v, k, e) = p_return(old(self).tokens(), old(self).pos());
                &&& opt_stmt_view(r) == v
                &&& final(self).after(*old(self), k)
                &&& final(self).errs() == old(self).errs() + e
                &&& (v is None ==> e.len() > 0)
            }),
        decreases old(self).toks@.len() - old(self).k@, 20int,
    {
        proof {
            lemma_unfold_p_return(self.toks@, self.k@);
        }
        self.next_token();
        if matches!(self.currtok.token_type, TokenType::SEMICOLON) {
            return Some(Statement::Return(ReturnStatement { return_value: Expression::Void }));
        }
        let return_value = match self.parse_expression(Precedence::LOWEST) {
            Some(v) => v,
            None => {
                return None;
            },
        };
        if !self.expect_peek_type(TokenType::SEMICOLON) {
            return None;
        }
        Some(Statement::Return(ReturnStatement { return_value }))
    }

    fn parse_while_statement(&mut self) -> (r: Option<Statement<'a>>)
        requires
            old(self).wf(),
            !(at(old(self).tokens(), old(self).pos()) is EOF),
        ensures
            ({
                let (v, k, e) = p_while(old(self).tokens(), old(self).pos());
                &&& opt_stmt_view(r) == v
                &&& final(self).after(*old(self), k)
                &&& final(self).errs() == old(self).errs() + e
                &&& (v is None ==> e.len() > 0)
            }),
        decreases old(self).toks@.len() - old(self).k@, 20int,
    {
        proof {
            lemma_unfold_p_while(self.toks@, self.k@);
        }
        self.next_token();
        let condition = match self.parse_expression(Precedence::LOWEST) {
            Some(c) => c,
            None => {
                return None;
            },
        };
        if !self.expect_peek_type(TokenType::LBRACE) {
            return None;
        }
        let body = self.parse_block_statement();
        Some(Statement::While(WhileStatement { condition, body }))
    }

    fn parse_for_statement(&mut self) -> (r: Option<Statement<'a>>)
        requires
            old(self).wf(),
        ensures
            ({
                let (v, k, e) = p_for(old(self).tokens(), old(self).pos());
                &&& opt_stmt_view(r) == v
                &&& final(self).after(*old(self), k)
                &&& final(self).errs() == old(self).errs() + e
                &&& (v is None ==> e.len() > 0)
            }),
        decreases old(self).toks@.len() - old(self).k@, 20int,
    {
        proof {
            lemma_unfold_p_for(self.toks@, self.k@);
        }
        if !self.expect_peek_type(TokenType::LET) {
            return None;
        }
        let var_declaration = match self.parse_let_statement() {
            Some(Statement::Let(s)) => s,
            _ => {
                return None;
            },
        };
        self.next_token();
        let condition = match self.parse_expression(Precedence::LOWEST) {
            Some(c) => c,
            None => {
                return None;
            },
        };
        if !self.expect_peek_type(TokenType::SEMICOLON) {
            return None;
        }
        self.next_token();
        let action = match self.parse_expression(Precedence::LOWEST) {
            Some(a) => a,
            None => {
                return None;
            },
        };
        if !self.expect_peek_type(TokenType::LBRACE) {
            return None;
        }
        let body = self.parse_block_statement();
        Some(Statement::For(ForStatement { var_declaration, condition, action, body }))
    }

    /// The statements of a block whose `{` is the current token, up to `}`
    /// (or `EOF`), where the parser is left.
    fn parse_block_statement(&mut self) -> (r: BlockStatement<'a>)
        requires
            old(self).wf(),
            !(at(old(self).tokens(), old(self).pos()) is EOF),
        ensures
            ({
                let (v, k, e) = p_block(old(self).tokens(), old(self).pos());
                &&& stmts_view(r.statements@) == v
                &&& final(self).after(*old(self), k)
                &&& final(self).errs() == old(self).errs() + e
            }),
        decreases old(self).toks@.len() - old(self).k@, 20int,
    {
        proof {
            lemma_unfold_p_block(self.toks@, self.k@);
        }
        let ghost t = self.toks@;
        let ghost k0 = self.k@;
        let mut statements: Vec<Statement<'a>> = Vec::new();
        proof {
            lemma_views_empty::<'a>();
        }
        self.next_token();
        let ghost spec_all = p_block(t, k0);
        while !matches!(self.currtok.token_type, TokenType::RBRACE) && !matches!(
            self.currtok.token_type,
            TokenType::EOF
        )
            invariant
                t == old(self).toks@,
                k0 == old(self).k@,
                spec_all == p_block(t, k0),
                self.wf(),
                self.toks@ == t,
                k0 < self.pos(),
                ({
                    let (v2, k2, e2) = p_block_loop(t, self.pos());
                    &&& spec_all.1 == k2
                    &&& old(self).errs() + spec_all.2 == self.errs() + e2
                    &&& spec_all.0 == stmts_view(statements@) + v2
                }),
            decreases t.len() - self.k@,
        {
            proof {
                lemma_unfold_p_block_loop(t, self.k@);
            }
            let s = self.parse_statement();
            match s {
                Some(stm) => {
                    proof {
                        lemma_stmts_view_push(statements@, stm);
                    }
                    statements.push(stm);
                },
                None => {},
            }
            self.next_token();
        }
        proof {
            lemma_unfold_p_block_loop(t, self.k@);
            assert(stmts_view(statements@) + Seq::<Stmt>::empty() =~= stmts_view(statements@));
            assert(self.errs() + Seq::<PErr>::empty() =~= self.errs());
        }
        BlockStatement { statements }
    }

    fn parse_expression_statement(&mut self) -> (r: Option<Statement<'a>>)
        requires
            old(self).wf(),
        ensures
            ({
                let (v, k, e) = p_expr_stmt(old(self).tokens(), old(self).pos());
                &&& opt_stmt_view(r) == v
                &&& final(self).after(*old(self), k)
                &&& final(self).errs() == old(self).errs() + e
                &&& (v is None ==> e.len() > 0)
            }),
        decreases old(self).toks@.len() - old(self).k@, 20int,
    {
        proof {
            lemma_unfold_p_expr_stmt(self.toks@, self.k@);
        }
        let left_expr = match self.parse_expression(Precedence::LOWEST) {
            Some(l) => l,
            None => {
                return None;
            },
        };
        if self.peek_token_is_assignment() {
            self.next_token();
            let operator = self.currtok.token_type.get_literal();
            self.next_token();
            let rvalue = match self.parse_expression(Precedence::LOWEST) {
                Some(r) => r,
                None => {
                    return None;
                },
            };
            if matches!(self.peektok.token_type, TokenType::SEMICOLON) {
                self.next_token();
            }
            return Some(Statement::Assign(AssignStatement { ident: left_expr, operator, rvalue }));
        }
        if matches!(self.peektok.token_type, TokenType::SEMICOLON) {
            self.next_token();
        }
        Some(Statement::Expression(left_expr))
    }

    /// An expression binding tighter than `precedence`, starting at the
    /// current token; the parser is left on its last token.
    fn parse_expression(&mut self, precedence: Precedence) -> (r: Option<Expression<'a>>)
        requires
            old(self).wf(),
        ensures
            ({
                let (v, k, e) = p_expression(old(self).tokens(), old(self).pos(), precedence);
                &&& opt_expr_view(r) == v
                &&& final(self).after(*old(self), k)
                &&& final(self).errs() == old(self).errs() + e
                &&& (v is None ==> e.len() > 0)
            }),
        decreases old(self).toks@.len() - old(self).k@, 17int,
    {
        proof {
            lemma_unfold_p_expression(self.toks@, self.k@, precedence);
        }
        let ghost t = self.toks@;
        let ghost k0 = self.k@;
        let ghost spec_all = p_expression(t, k0, precedence);
        let mut left_expr = match self.currtok.token_type {
            TokenType::INT(val) => Expression::Integer(val),
            TokenType::FLOAT(val) => Expression::Float(val),
            TokenType::TRUE => Expression::Boolean(true),
            TokenType::FALSE => Expression::Boolean(false),
            TokenType::IDENT(lit) => Expression::Identifier(lit),
            TokenType::STRING(lit) => Expression::String(lit),
            TokenType::MINUS | TokenType::PLUS | TokenType::BANG => {
                proof {
                    let pr = p_prefix(t, k0);
                    lemma_unfold_p_then_loop(t, k0, precedence, pr.0, pr.1, pr.2);
                }
                match self.parse_prefix_expr() {
                    Some(e) => e,
                    None => {
                        return None;
                    },
                }
            },
            TokenType::LPAREN => {
                proof {
                    let pr = p_grouped(t, k0);
                    lemma_unfold_p_then_loop(t, k0, precedence, pr.0, pr.1, pr.2);
                }
                match self.parse_grouped_expr() {
                    Some(e) => e,
                    None => {
                        return None;
                    },
                }
            },
            TokenType::LBRACKET => {
                proof {
                    let pr = p_array(t, k0);
                    lemma_unfold_p_then_loop(t, k0, precedence, pr.0, pr.1, pr.2);
                }
                match self.parse_array_literal() {
                    Some(e) => e,
                    None => {
                        return None;
                    },
                }
            },
            TokenType::IF => {
                proof {
                    let pr = p_if(t, k0);
                    lemma_unfold_p_then_loop(t, k0, precedence, pr.0, pr.1, pr.2);
                }
                match self.parse_if_expr() {
                    Some(e) => e,
                    None => {
                        return None;
                    },
                }
            },
            _ => {
                let e = ParseError::NoPrefix(self.currtok.token_type);
                self.record(e);
                return None;
            },
        };
        loop
            invariant
                t == old(self).toks@,
                k0 == old(self).k@,
                spec_all == p_expression(t, k0, precedence),
                old(self).errs().len() <= self.errs().len(),
                self.wf(),
                self.toks@ == t,
                k0 <= self.pos(),
                ({
                    let (v2, k2, e2) = p_expr_loop(t, self.pos(), precedence, left_expr.view());
                    &&& spec_all.1 == k2
                    &&& old(self).errs() + spec_all.2 == self.errs() + e2
                    &&& spec_all.0 == v2
                }),
            ensures
                self.wf(),
                self.toks@ == t,
                k0 <= self.pos(),
                spec_all.0 == Some(left_expr.view()),
                spec_all.1 == self.pos(),
                self.errs() == old(self).errs() + spec_all.2,
            decreases t.len() - self.k@,
        {
            let ghost kk = self.k@;
            let ghost lv = left_expr.view();
            proof {
                lemma_unfold_p_expr_loop(t, kk, precedence, lv);
                let k1 = nx(t, kk);
                let a = p_infix(t, k1, lv);
                lemma_unfold_p_loop_cont(t, kk, precedence, a.0, a.1, a.2);
                let b = p_call(t, k1, lv);
                lemma_unfold_p_loop_cont(t, kk, precedence, b.0, b.1, b.2);
                let c = p_index(t, k1, lv);
                lemma_unfold_p_loop_cont(t, kk, precedence, c.0, c.1, c.2);
            }
            if matches!(self.peektok.token_type, TokenType::SEMICOLON)
                || !precedence.binds_less(&self.peektok.token_type.precedence()) {
                proof {
                    assert(self.errs() + Seq::<PErr>::empty() =~= self.errs());
                }
                break ;
            }
            match self.peektok.token_type {
                TokenType::PLUS
                | TokenType::MINUS
                | TokenType::SLASH
                | TokenType::ASTERISK
                | TokenType::MODULUS
                | TokenType::POW
                | TokenType::EE
                | TokenType::NE
                | TokenType::LT
                | TokenType::GT
                | TokenType::LTE
                | TokenType::GTE => {
                    self.next_token();
                    left_expr = match self.parse_infix_expr(left_expr) {
                        Some(e) => e,
                        None => {
                            return None;
                        },
                    };
                },
                TokenType::LPAREN => {
                    self.next_token();
                    left_expr = match self.parse_call_expr(left_expr) {
                        Some(e) => e,
                        None => {
                            return None;
                        },
                    };
                },
                TokenType::LBRACKET => {
                    self.next_token();
                    left_expr = match self.parse_index_expr(left_expr) {
                        Some(e) => e,
                        None => {
                            return None;
                        },
                    };
                },
                TokenType::PLUSPLUS | TokenType::MINUSMINUS => {
                    self.next_token();
                    left_expr = match self.parse_postfix_expr(left_expr) {
                        Some(e) => e,
                        None => {
                            return None;
                        },
                    };
                },
                _ => {
                    proof {
                        assert(self.errs() + Seq::<PErr>::empty() =~= self.errs());
                    }
                    return Some(left_expr);
                },
            }
        }
        Some(left_expr)
    }

    fn parse_prefix_expr(&mut self) -> (r: Option<Expression<'a>>)
        requires
            old(self).wf(),
            !(at(old(self).tokens(), old(self).pos()) is EOF),
        ensures
            ({
                let (v, k, e) = p_prefix(old(self).tokens(), old(self).pos());
                &&& opt_expr_view(r) == v
                &&& final(self).after(*old(self), k)
                &&& final(self).errs() == old(self).errs() + e
                &&& (v is None ==> e.len() > 0)
            }),
        decreases old(self).toks@.len() - old(self).k@, 10int,
    {
        proof {
            lemma_unfold_p_prefix(self.toks@, self.k@);
        }
        let operator = self.currtok.token_type.get_literal();
        self.next_token();
        let right = match self.parse_expression(Precedence::PREFIX) {
            Some(e) => e,
            None => {
                return None;
            },
        };
        Some(Expression::Prefix(Box::new(PrefixExpression { operator, right })))
    }

    fn parse_infix_expr(&mut self, left: Expression<'a>) -> (r: Option<Expression<'a>>)
        requires
            old(self).wf(),
            !(at(old(self).tokens(), old(self).pos()) is EOF),
        ensures
            ({
                let (v, k, e) = p_infix(old(self).tokens(), old(self).pos(), left.view());
                &&& opt_expr_view(r) == v
                &&& final(self).after(*old(self), k)
                &&& final(self).errs() == old(self).errs() + e
                &&& (v is None ==> e.len() > 0)
            }),
        decreases old(self).toks@.len() - old(self).k@, 10int,
    {
        proof {
            lemma_unfold_p_infix(self.toks@, self.k@, left.view());
        }
        let operator = self.currtok.token_type.get_literal();
        let precedence = self.currtok.token_type.precedence();
        self.next_token();
        let right = match self.parse_expression(precedence) {
            Some(e) => e,
            None => {
                return None;
            },
        };
        Some(Expression::Infix(Box::new(InfixExpression { left, operator, right })))
    }

    fn parse_postfix_expr(&mut self, left: Expression<'a>) -> (r: Option<Expression<'a>>)
        requires
            old(self).wf(),
        ensures
            *final(self) == *old(self),
            opt_expr_view(r) == Some(
                Expr::Postfix(
                    literal_of(at(old(self).tokens(), old(self).pos())),
                    Box::new(left.view()),
                ),
            ),
    {
        let operator = self.currtok.token_type.get_literal();
        Some(Expression::Postfix(Box::new(PostfixExpression { operator, left })))
    }

    fn parse_grouped_expr(&mut self) -> (r: Option<Expression<'a>>)
        requires
            old(self).wf(),
            !(at(old(self).tokens(), old(self).pos()) is EOF),
        ensures
            ({
                let (v, k, e) = p_grouped(old(self).tokens(), old(self).pos());
                &&& opt_expr_view(r) == v
                &&& final(self).after(*old(self), k)
                &&& final(self).errs() == old(self).errs() + e
                &&& (v is None ==> e.len() > 0)
            }),
        decreases old(self).toks@.len() - old(self).k@, 10int,
    {
        proof {
            lemma_unfold_p_grouped(self.toks@, self.k@);
        }
        self.next_token();
        let expr = match self.parse_expression(Precedence::LOWEST) {
            Some(e) => e,
            None => {
                return None;
            },
        };
        if !self.expect_peek_type(TokenType::RPAREN) {
            return None;
        }
        Some(expr)
    }

    fn parse_index_expr(&mut self, left: Expression<'a>) -> (r: Option<Expression<'a>>)
        requires
            old(self).wf(),
            !(at(old(self).tokens(), old(self).pos()) is EOF),
        ensures
            ({
                let (v, k, e) = p_index(old(self).tokens(), old(self).pos(), left.view());
                &&& opt_expr_view(r) == v
                &&& final(self).after(*old(self), k)
                &&& final(self).errs() == old(self).errs() + e
                &&& (v is None ==> e.len() > 0)
            }),
        decreases old(self).toks@.len() - old(self).k@, 10int,
    {
        proof {
            lemma_unfold_p_index(self.toks@, self.k@, left.view());
        }
        self.next_token();
        let index = match self.parse_expression(Precedence::LOWEST) {
            Some(e) => e,
            None => {
                return None;
            },
        };
        if !self.expect_peek_type(TokenType::RBRACKET) {
            return None;
        }
        Some(Expression::Index(Box::new(IndexExpression { left, index })))
    }

    fn parse_call_expr(&mut self, function: Expression<'a>) -> (r: Option<Expression<'a>>)
        requires
            old(self).wf(),
            !(at(old(self).tokens(), old(self).pos()) is EOF),
        ensures
            ({
                let (v, k, e) = p_call(old(self).tokens(), old(self).pos(), function.view());
                &&& opt_expr_view(r) == v
                &&& final(self).after(*old(self), k)
                &&& final(self).errs() == old(self).errs() + e
                &&& (v is None ==> e.len() > 0)
            }),
        decreases old(self).toks@.len() - old(self).k@, 10int,
    {
        proof {
            lemma_unfold_p_call(self.toks@, self.k@, function.view());
        }
        let arguments = match self.parse_expression_list(TokenType::RPAREN) {
            Some(a) => a,
            None => {
                return None;
            },
        };
        Some(Expression::Call(Box::new(CallExpression { function, arguments })))
    }

    fn parse_if_expr(&mut self) -> (r: Option<Expression<'a>>)
        requires
            old(self).wf(),
            !(at(old(self).tokens(), old(self).pos()) is EOF),
        ensures
            ({
                let (v, k, e) = p_if(old(self).tokens(), old(self).pos());
                &&& opt_expr_view(r) == v
                &&& final(self).after(*old(self), k)
                &&& final(self).errs() == old(self).errs() + e
                &&& (v is None ==> e.len() > 0)
            }),
        decreases old(self).toks@.len() - old(self).k@, 10int,
    {
        proof {
            lemma_unfold_p_if(self.toks@, self.k@);
        }
        let ghost t = self.toks@;
        let ghost k0 = self.k@;
        let mut branches: Vec<IfBranch<'a>> = Vec::new();
        let mut alternative: Option<BlockStatement<'a>> = None;
        self.next_token();
        let first_condition = match self.parse_expression(Precedence::LOWEST) {
            Some(c) => c,
            None => {
                return None;
            },
        };
        if !self.expect_peek_type(TokenType::LBRACE) {
            return None;
        }
        let first_consequence = self.parse_block_statement();
        let b0 = IfBranch { condition: first_condition, consequence: first_consequence };
        proof {
            lemma_views_empty::<'a>();
            lemma_branches_view_push(branches@, b0);
        }
        branches.push(b0);
        let ghost spec_all = p_if(t, k0);
        loop
            invariant_except_break
                t == old(self).toks@,
                k0 == old(self).k@,
                spec_all == p_if(t, k0),
                old(self).errs().len() <= self.errs().len(),
                self.wf(),
                self.toks@ == t,
                k0 < self.pos(),
                alternative is None,
                ({
                    let (v2, k2, e2) = p_else(t, self.pos());
                    &&& spec_all.1 == k2
                    &&& old(self).errs() + spec_all.2 == self.errs() + e2
                    &&& spec_all.0 == match v2 {
                        Some((brs, alt)) => Some(Expr::If(branches_view(branches@) + brs, alt)),
                        None => None,
                    }
                }),
            invariant
                self.wf(),
                self.toks@ == t,
            ensures
                self.after(*old(self), self.pos()),
                self.pos() == spec_all.1,
                self.errs() == old(self).errs() + spec_all.2,
                spec_all.0 == Some(
                    Expr::If(
                        branches_view(branches@),
                        match alternative {
                            Some(blk) => Some(stmts_view(blk.statements@)),
                            None => None,
                        },
                    ),
                ),
            decreases t.len() - self.k@,
        {
            proof {
                lemma_unfold_p_else(t, self.k@);
            }
            if !matches!(self.peektok.token_type, TokenType::ELSE) {
                proof {
                    assert(branches_view(branches@) + Seq::<Branch>::empty() =~= branches_view(
                        branches@,
                    ));
                    assert(self.errs() + Seq::<PErr>::empty() =~= self.errs());
                }
                break ;
            }
            self.next_token();
            if matches!(self.peektok.token_type, TokenType::IF) {
                self.next_token();
                self.next_token();
                let next_condition = match self.parse_expression(Precedence::LOWEST) {
                    Some(c) => c,
                    None => {
                        return None;
                    },
                };
                if !self.expect_peek_type(TokenType::LBRACE) {
                    return None;
                }
                let next_consequence = self.parse_block_statement();
                let b = IfBranch { condition: next_condition, consequence: next_consequence };
                let ghost bv_old = branches_view(branches@);
                proof {
                    lemma_branches_view_push(branches@, b);
                }
                branches.push(b);
                proof {
                    let nxt = p_else(t, self.k@);
                    match nxt.0 {
                        Some((brs, alt)) => {
                            let bv = Branch {
                                condition: b.condition.view(),
                                consequence: stmts_view(b.consequence.statements@),
                            };
                            assert(bv_old + (seq![bv] + brs) =~= bv_old.push(bv) + brs);
                        },
                        None => {},
                    }
                }
            } else {
                if !self.expect_peek_type(TokenType::LBRACE) {
                    return None;
                }
                alternative = Some(self.parse_block_statement());
                proof {
                    assert(branches_view(branches@) + Seq::<Branch>::empty() =~= branches_view(
                        branches@,
                    ));
                }
                break ;
            }
        }
        Some(Expression::If(Box::new(IfExpression { branches, alternative })))
    }

    /// Comma-separated expressions after the current token, up to `end`.
    fn parse_expression_list(&mut self, end: TokenType<'a>) -> (r: Option<Vec<Expression<'a>>>)
        requires
            old(self).wf(),
            !(at(old(self).tokens(), old(self).pos()) is EOF),
            end@ is RPAREN || end@ is RBRACKET,
        ensures
            ({
                let (v, k, e) = p_list(old(self).tokens(), old(self).pos(), end@);
                &&& match r {
                    Some(l) => v == Some(exprs_view(l@)),
                    None => v is None,
                }
                &&& final(self).after(*old(self), k)
                &&& final(self).errs() == old(self).errs() + e
                &&& (v is None ==> e.len() > 0)
            }),
        decreases old(self).toks@.len() - old(self).k@, 9int,
    {
        proof {
            lemma_unfold_p_list(self.toks@, self.k@, end@);
        }
        let ghost t = self.toks@;
        let ghost k0 = self.k@;
        let mut list: Vec<Expression<'a>> = Vec::new();
        proof {
            lemma_views_empty::<'a>();
        }
        if self.peektok.token_type.same_kind(&end) {
            self.next_token();
            return Some(list);
        }
        self.next_token();
        let first = match self.parse_expression(Precedence::LOWEST) {
            Some(e) => e,
            None => {
                return None;
            },
        };
        proof {
            lemma_exprs_view_push(list@, first);
        }
        list.push(first);
        let ghost spec_all = p_list(t, k0, end@);
        loop
            invariant_except_break
                t == old(self).toks@,
                k0 == old(self).k@,
                spec_all == p_list(t, k0, end@),
                old(self).errs().len() <= self.errs().len(),
                self.wf(),
                self.toks@ == t,
                k0 < self.pos(),
                ({
                    let (v2, k2, e2) = p_list_tail(t, self.pos(), end@);
                    &&& spec_all.1 == k2
                    &&& old(self).errs() + spec_all.2 == self.errs() + e2
                    &&& spec_all.0 == match v2 {
                        Some(rest) => Some(exprs_view(list@) + rest),
                        None => None,
                    }
                }),
            invariant
                self.wf(),
                self.toks@ == t,
            ensures
                k0 < self.pos(),
                old(self).errs().len() <= self.errs().len(),
                ({
                    let (v2, k2, e2) = p_list_tail(t, self.pos(), end@);
                    &&& !(peek_kind(t, self.pos()) is COMMA)
                    &&& spec_all.1 == k2
                    &&& old(self).errs() + spec_all.2 == self.errs() + e2
                    &&& spec_all.0 == match v2 {
                        Some(rest) => Some(exprs_view(list@) + rest),
                        None => None,
                    }
                }),
            decreases t.len() - self.k@,
        {
            proof {
                lemma_unfold_p_list_tail(t, self.k@, end@);
            }
            if !matches!(self.peektok.token_type, TokenType::COMMA) {
                break ;
            }
            self.next_token();
            self.next_token();
            let e = match self.parse_expression(Precedence::LOWEST) {
                Some(e) => e,
                None => {
                    return None;
                },
            };
            proof {
                lemma_exprs_view_push(list@, e);
            }
            list.push(e);
        }
        proof {
            lemma_unfold_p_list_tail(t, self.k@, end@);
            assert(exprs_view(list@) + Seq::<Expr>::empty() =~= exprs_view(list@));
        }
        if !self.expect_peek_type(end) {
            return None;
        }
        Some(list)
    }

    fn parse_array_literal(&mut self) -> (r: Option<Expression<'a>>)
        requires
            old(self).wf(),
            !(at(old(self).tokens(), old(self).pos()) is EOF),
        ensures
            ({
                let (v, k, e) = p_array(old(self).tokens(), old(self).pos());
                &&& opt_expr_view(r) == v
                &&& final(self).after(*old(self), k)
                &&& final(self).errs() == old(self).errs() + e
                &&& (v is None ==> e.len() > 0)
            }),
        decreases old(self).toks@.len() - old(self).k@, 10int,
    {
        proof {
            lemma_unfold_p_array(self.toks@, self.k@);
        }
        let elements = match self.parse_expression_list(TokenType::RBRACKET) {
            Some(l) => l,
            None => {
                return None;
            },
        };
        let size = elements.len();
        Some(Expression::Array(ArrayLiteral { elements, size }))
    }

    /// Parses statements until the end of the token stream: the parser is
    /// left on the final `EOF`, and the errors met are appended to `errors`.
    pub fn parse_program(&mut self) -> (r: Program<'a>)
        requires
            old(self).wf(),
        ensures
            ({
                let (v, k, e) = p_program(old(self).tokens(), old(self).pos());
                &&& stmts_view(r.statements@) == v
                &&& final(self).wf()
                &&& final(self).tokens() == old(self).tokens()
                &&& final(self).pos() == k
                &&& final(self).errs() == old(self).errs() + e
            }),
            final(self).pos() == final(self).tokens().len() - 1,
    {
        let ghost t = self.toks@;
        let ghost k0 = self.k@;
        let mut program = Program { statements: Vec::new() };
        proof {
            lemma_views_empty::<'a>();
        }
        let ghost spec_all = p_program(t, k0);
        while !matches!(self.currtok.token_type, TokenType::EOF)
            invariant
                t == old(self).toks@,
                k0 == old(self).k@,
                spec_all == p_program(t, k0),
                self.wf(),
                self.toks@ == t,
                k0 <= self.pos(),
                ({
                    let (v2, k2, e2) = p_program(t, self.pos());
                    &&& spec_all.1 == k2
                    &&& old(self).errs() + spec_all.2 == self.errs() + e2
                    &&& spec_all.0 == stmts_view(program.statements@) + v2
                }),
            decreases t.len() - self.k@,
        {
            proof {
                lemma_unfold_p_program(t, self.k@);
            }
            match self.parse_statement() {
                Some(stm) => {
                    proof {
                        lemma_stmts_view_push(program.statements@, stm);
                    }
                    program.statements.push(stm);
                },
                None => {},
            }
            self.next_token();
        }
        proof {
            lemma_unfold_p_program(t, self.k@);
            assert(stmts_view(program.statements@) + Seq::<Stmt>::empty() =~= stmts_view(
                program.statements@,
            ));
            assert(self.errs() + Seq::<PErr>::empty() =~= self.errs());
        }
        program
    }
}

/// A stream that can be lexed whole lets its first two tokens be lexed.
proof fn lemma_stream_two_tokens(s: Seq<char>, i: int, line: int)
    requires
        0 <= i <= s.len(),
        stream_ok(s, i, line),
    ensures
        two_tokens_ok(s, i, line),
{
    lemma_stream_step(s, i, line);
}

/// Parses a whole source text: `None` when some token of it cannot be
/// lexed (an opening quote as its last character), else the program and the
/// errors met, those of the spec parser on the source's token stream.
pub fn parse_source<'a>(source: &'a str) -> (r: Option<(Program<'a>, Vec<ParseError<'a>>)>)
    requires
        utf8_len(source@) + 1 < usize::MAX,
    ensures
        r is None <==> !stream_ok(source@, 0, 1),
        r matches Some((prog, errs)) ==> ({
            let (v, k, e) = p_program(lex_stream(source@, 0, 1), 0);
            &&& stmts_view(prog.statements@) == v
            &&& errors_view(errs@) == e
        }),
{
    if !source_lexes(source) {
        return None;
    }
    let lexer = Lexer::new(source);
    proof {
        lemma_stream_two_tokens(source@, 0, 1);
    }
    let mut parser = Parser::new(lexer);
    let program = parser.parse_program();
    proof {
        assert(Seq::<PErr>::empty() + p_program(lex_stream(source@, 0, 1), 0).2 =~= p_program(
            lex_stream(source@, 0, 1),
            0,
        ).2);
    }
    Some((program, parser.errors))
}

/// The precedence table. From loosest to tightest: nothing (`LOWEST`),
/// `==` and `!=`, the comparisons `<`, `>`, `<=`, `>=`, then `+` and `-`,
/// then `*`, `/` and `%`, then `^`, then prefix operators, then calls `(`,
/// then indexing `[` and the postfix `++` and `--`. Every other token binds
/// as loosely as nothing, so it ends an expression. Hence `x > y + 1`
/// groups as `x > (y + 1)`, and `a == b < c` as `a == (b < c)`.
pub proof fn law_precedence_table(k: TokenKind)
    ensures
        Precedence::LOWEST.level() < Precedence::EQUALS.level(),
        Precedence::EQUALS.level() < Precedence::LESSGREATER.level(),
        Precedence::LESSGREATER.level() < Precedence::SUM.level(),
        Precedence::SUM.level() < Precedence::PRODUCT.level(),
        Precedence::PRODUCT.level() < Precedence::EXPONENT.level(),
        Precedence::EXPONENT.level() < Precedence::PREFIX.level(),
        Precedence::PREFIX.level() < Precedence::CALL.level(),
        Precedence::CALL.level() < Precedence::INDEX.level(),
        k is EE || k is NE ==> prec_of(k) == Precedence::EQUALS,
        k is LT || k is GT || k is LTE || k is GTE ==> prec_of(k) == Precedence::LESSGREATER,
        k is PLUS || k is MINUS ==> prec_of(k) == Precedence::SUM,
        k is ASTERISK || k is SLASH || k is MODULUS ==> prec_of(k) == Precedence::PRODUCT,
        k is POW ==> prec_of(k) == Precedence::EXPONENT,
        k is LPAREN ==> prec_of(k) == Precedence::CALL,
        k is LBRACKET || k is PLUSPLUS || k is MINUSMINUS ==> prec_of(k) == Precedence::INDEX,
        !(k is EE || k is NE || k is LT || k is GT || k is LTE || k is GTE || k is PLUS
            || k is MINUS || k is ASTERISK || k is SLASH || k is MODULUS || k is POW
            || k is LPAREN || k is LBRACKET || k is PLUSPLUS || k is MINUSMINUS) ==> prec_of(k)
            == Precedence::LOWEST,
{
}

// ---- positions stay inside the stream ----
/// `k2` lies at or after `k`, inside the stream.
pub open spec fn within(t: Seq<TokenView>, k: int, k2: int) -> bool {
    k <= k2 < t.len()
}

proof fn lemma_range_skip_semi(t: Seq<TokenView>, k: int)
    requires
        0 <= k < t.len(),
    ensures
        within(t, k, skip_semi(t, k)),
    decreases t.len() - k,
{
    lemma_unfold_skip_semi(t, k);
    if !(at(t, k) is SEMICOLON || at(t, k) is EOF || !forward(t, k, nx(t, k))) {
        lemma_range_skip_semi(t, nx(t, k));
    }
}

proof fn lemma_range_p_params_tail(t: Seq<TokenView>, k: int)
    requires
        0 <= k < t.len(),
    ensures
        within(t, k, p_params_tail(t, k).1),
    decreases t.len() - k,
{
    lemma_unfold_p_params_tail(t, k);
    if peek_kind(t, k) is COMMA {
        let k1 = nx(t, nx(t, k));
        let k2 = expect(t, k1, TokenKind::COLON).1;
        let k3 = nx(t, k2);
        if forward(t, k, k3) && k3 < t.len() {
            lemma_range_p_params_tail(t, k3);
        }
    }
}

proof fn lemma_range_p_params(t: Seq<TokenView>, k: int)
    requires
        0 <= k < t.len(),
    ensures
        within(t, k, p_params(t, k).1),
{
    lemma_unfold_p_params(t, k);
    let k1 = nx(t, k);
    let k2 = expect(t, k1, TokenKind::COLON).1;
    let k3 = nx(t, k2);
    lemma_range_p_params_tail(t, k3);
}

proof fn lemma_range_p_statement(t: Seq<TokenView>, k: int)
    requires
        0 <= k < t.len(),
    ensures
        within(t, k, p_statement(t, k).1),
    decreases t.len() - k, 30int,
{
    lemma_unfold_p_statement(t, k);
    match at(t, k) {
        TokenKind::LET => lemma_range_p_let(t, k),
        TokenKind::DEF => lemma_range_p_function(t, k),
        TokenKind::RETURN => lemma_range_p_return(t, k),
        TokenKind::WHILE => lemma_range_p_while(t, k),
        TokenKind::FOR => lemma_range_p_for(t, k),
        TokenKind::BREAK => {},
        TokenKind::CONTINUE => {},
        _ => lemma_range_p_expr_stmt(t, k),
    }
}

proof fn lemma_range_p_let(t: Seq<TokenView>, k: int)
    requires
        0 <= k < t.len(),
    ensures
        within(t, k, p_let(t, k).1),
    decreases t.len() - k, 20int,
{
    lemma_unfold_p_let(t, k);
    match peek_kind(t, k) {
        TokenKind::IDENT(name) => {
            let k1 = nx(t, k);
            let (ok, k2, e2) = expect(t, k1, TokenKind::COLON);
            if ok {
                match peek_kind(t, k2) {
                    TokenKind::TYPE(vt) => {
                        let k3 = nx(t, k2);
                        if peek_kind(t, k3) is LBRACKET {
                            let k4 = nx(t, nx(t, k3));
                            if forward(t, k, k4) {
                                lemma_range_p_expression(t, k4, Precedence::LOWEST);
                                let (sz, k5, e5) = p_expression(t, k4, Precedence::LOWEST);
                                match sz {
                                    Some(x) => {
                                        let (ok6, k6, e6) = expect(t, k5, TokenKind::RBRACKET);
                                        if ok6 && forward(t, k, k6) {
                                            lemma_range_p_let_value(t, k6, name, vt, Some(seq![x]));
                                        }
                                    },
                                    None => {},
                                }
                            }
                        } else if forward(t, k, k3) {
                            lemma_range_p_let_value(t, k3, name, vt, None);
                        }
                    },
                    _ => {},
                }
            }
        },
        _ => {},
    }
}

proof fn lemma_range_p_let_value(
    t: Seq<TokenView>,
    k: int,
    name: Seq<char>,
    vt: Seq<char>,
    asz: Option<Seq<Expr>>,
)
    requires
        0 <= k < t.len(),
    ensures
        within(t, k, p_let_value(t, k, name, vt, asz).1),
    decreases t.len() - k, 19int,
{
    lemma_unfold_p_let_value(t, k, name, vt, asz);
    let (ok, k1, e1) = expect(t, k, TokenKind::EQ);
    if ok {
        let k2 = nx(t, k1);
        if forward(t, k, k2) {
            lemma_range_p_expression(t, k2, Precedence::LOWEST);
            let k3 = p_expression(t, k2, Precedence::LOWEST).1;
            lemma_range_skip_semi(t, k3);
        }
    }
}

proof fn lemma_range_p_function(t: Seq<TokenView>, k: int)
    requires
        0 <= k < t.len(),
    ensures
        within(t, k, p_function(t, k).1),
    decreases t.len() - k, 20int,
{
    lemma_unfold_p_function(t, k);
    let k1 = nx(t, k);
    let (ok, k2, e2) = expect(t, k1, TokenKind::LPAREN);
    lemma_range_p_params(t, k2);
    let k3 = p_params(t, k2).1;
    let (ok4, k4, e4) = expect(t, k3, TokenKind::ARROW);
    let k5 = nx(t, k4);
    let (ok6, k6, e6) = expect(t, k5, TokenKind::LBRACE);
    if forward(t, k, k6) && k6 < t.len() {
        lemma_range_p_block(t, k6);
    }
}

proof fn lemma_range_p_return(t: Seq<TokenView>, k: int)
    requires
        0 <= k < t.len(),
    ensures
        within(t, k, p_return(t, k).1),
    decreases t.len() - k, 20int,
{
    lemma_unfold_p_return(t, k);
    let k1 = nx(t, k);
    if forward(t, k, k1) && k1 < t.len() {
        lemma_range_p_expression(t, k1, Precedence::LOWEST);
    }
}

proof fn lemma_range_p_while(t: Seq<TokenView>, k: int)
    requires
        0 <= k < t.len(),
    ensures
        within(t, k, p_while(t, k).1),
    decreases t.len() - k, 20int,
{
    lemma_unfold_p_while(t, k);
    let k1 = nx(t, k);
    if forward(t, k, k1) && k1 < t.len() {
        lemma_range_p_expression(t, k1, Precedence::LOWEST);
        let k2 = p_expression(t, k1, Precedence::LOWEST).1;
        let k3 = expect(t, k2, TokenKind::LBRACE).1;
        if forward(t, k, k3) {
            lemma_range_p_block(t, k3);
        }
    }
}

proof fn lemma_range_p_for(t: Seq<TokenView>, k: int)
    requires
        0 <= k < t.len(),
    ensures
        within(t, k, p_for(t, k).1),
    decreases t.len() - k, 20int,
{
    lemma_unfold_p_for(t, k);
    let (ok, k1, e1) = expect(t, k, TokenKind::LET);
    if ok && forward(t, k, k1) {
        lemma_range_p_let(t, k1);
        let k2 = p_let(t, k1).1;
        let k3 = nx(t, k2);
        if forward(t, k, k3) && k3 < t.len() {
            lemma_range_p_expression(t, k3, Precedence::LOWEST);
            let k4 = p_expression(t, k3, Precedence::LOWEST).1;
            let k5 = expect(t, k4, TokenKind::SEMICOLON).1;
            let k6 = nx(t, k5);
            if forward(t, k, k6) && k6 < t.len() {
                lemma_range_p_expression(t, k6, Precedence::LOWEST);
                let k7 = p_expression(t, k6, Precedence::LOWEST).1;
                let k8 = expect(t, k7, TokenKind::LBRACE).1;
                if forward(t, k, k8) {
                    lemma_range_p_block(t, k8);
                }
            }
        }
    }
}

proof fn lemma_range_p_block(t: Seq<TokenView>, k: int)
    requires
        0 <= k < t.len(),
    ensures
        within(t, k, p_block(t, k).1),
    decreases t.len() - k, 20int,
{
    lemma_unfold_p_block(t, k);
    let k1 = nx(t, k);
    if forward(t, k, k1) && k1 < t.len() {
        lemma_range_p_block_loop(t, k1);
    }
}

proof fn lemma_range_p_block_loop(t: Seq<TokenView>, k: int)
    requires
        0 <= k < t.len(),
    ensures
        within(t, k, p_block_loop(t, k).1),
    decreases t.len() - k, 31int,
{
    lemma_unfold_p_block_loop(t, k);
    if !(at(t, k) is RBRACE || at(t, k) is EOF) {
        lemma_range_p_statement(t, k);
        let k1 = p_statement(t, k).1;
        let k2 = nx(t, k1);
        if forward(t, k, k2) && k2 < t.len() {
            lemma_range_p_block_loop(t, k2);
        }
    }
}

proof fn lemma_range_p_expr_stmt(t: Seq<TokenView>, k: int)
    requires
        0 <= k < t.len(),
    ensures
        within(t, k, p_expr_stmt(t, k).1),
    decreases t.len() - k, 20int,
{
    lemma_unfold_p_expr_stmt(t, k);
    lemma_range_p_expression(t, k, Precedence::LOWEST);
    let k1 = p_expression(t, k, Precedence::LOWEST).1;
    let k2 = nx(t, k1);
    let k3 = nx(t, k2);
    if forward(t, k, k3) && k3 < t.len() {
        lemma_range_p_expression(t, k3, Precedence::LOWEST);
    }
}

proof fn lemma_range_p_then_loop(
    t: Seq<TokenView>,
    k: int,
    prec: Precedence,
    r: Option<Expr>,
    k1: int,
    e1: Seq<PErr>,
)
    requires
        0 <= k <= k1 < t.len(),
    ensures
        within(t, k, p_then_loop(t, k, prec, r, k1, e1).1),
    decreases t.len() - k, 16int,
{
    lemma_unfold_p_then_loop(t, k, prec, r, k1, e1);
    match r {
        Some(x) => lemma_range_p_expr_loop(t, k1, prec, x),
        None => {},
    }
}

proof fn lemma_range_p_expression(t: Seq<TokenView>, k: int, prec: Precedence)
    requires
        0 <= k < t.len(),
    ensures
        within(t, k, p_expression(t, k, prec).1),
    decreases t.len() - k, 17int,
{
    lemma_unfold_p_expression(t, k, prec);
    match at(t, k) {
        TokenKind::INT(v) => lemma_range_p_expr_loop(t, k, prec, Expr::Integer(v)),
        TokenKind::FLOAT(s) => lemma_range_p_expr_loop(t, k, prec, Expr::Float(s)),
        TokenKind::TRUE => lemma_range_p_expr_loop(t, k, prec, Expr::Boolean(true)),
        TokenKind::FALSE => lemma_range_p_expr_loop(t, k, prec, Expr::Boolean(false)),
        TokenKind::IDENT(s) => lemma_range_p_expr_loop(t, k, prec, Expr::Identifier(s)),
        TokenKind::STRING(s) => lemma_range_p_expr_loop(t, k, prec, Expr::Str(s)),
        TokenKind::MINUS | TokenKind::PLUS | TokenKind::BANG => {
            lemma_range_p_prefix(t, k);
            let (r, k1, e1) = p_prefix(t, k);
            lemma_range_p_then_loop(t, k, prec, r, k1, e1);
        },
        TokenKind::LPAREN => {
            lemma_range_p_grouped(t, k);
            let (r, k1, e1) = p_grouped(t, k);
            lemma_range_p_then_loop(t, k, prec, r, k1, e1);
        },
        TokenKind::LBRACKET => {
            lemma_range_p_array(t, k);
            let (r, k1, e1) = p_array(t, k);
            lemma_range_p_then_loop(t, k, prec, r, k1, e1);
        },
        TokenKind::IF => {
            lemma_range_p_if(t, k);
            let (r, k1, e1) = p_if(t, k);
            lemma_range_p_then_loop(t, k, prec, r, k1, e1);
        },
        _ => {},
    }
}

proof fn lemma_range_p_loop_cont(
    t: Seq<TokenView>,
    k: int,
    prec: Precedence,
    r: Option<Expr>,
    k2: int,
    e2: Seq<PErr>,
)
    requires
        0 <= k <= k2 < t.len(),
    ensures
        within(t, k, p_loop_cont(t, k, prec, r, k2, e2).1),
    decreases t.len() - k, 13int,
{
    lemma_unfold_p_loop_cont(t, k, prec, r, k2, e2);
    match r {
        Some(x) => if forward(t, k, k2) {
            lemma_range_p_expr_loop(t, k2, prec, x);
        },
        None => {},
    }
}

proof fn lemma_range_p_expr_loop(t: Seq<TokenView>, k: int, prec: Precedence, left: Expr)
    requires
        0 <= k < t.len(),
    ensures
        within(t, k, p_expr_loop(t, k, prec, left).1),
    decreases t.len() - k, 14int,
{
    lemma_unfold_p_expr_loop(t, k, prec, left);
    let p = peek_kind(t, k);
    let k1 = nx(t, k);
    if !(p is SEMICOLON) && prec.level() < prec_of(p).level() && forward(t, k, k1) {
        if is_infix_kind(p) {
            lemma_range_p_infix(t, k1, left);
            let (r, k2, e2) = p_infix(t, k1, left);
            lemma_range_p_loop_cont(t, k, prec, r, k2, e2);
        } else if p is LPAREN {
            lemma_range_p_call(t, k1, left);
            let (r, k2, e2) = p_call(t, k1, left);
            lemma_range_p_loop_cont(t, k, prec, r, k2, e2);
        } else if p is LBRACKET {
            lemma_range_p_index(t, k1, left);
            let (r, k2, e2) = p_index(t, k1, left);
            lemma_range_p_loop_cont(t, k, prec, r, k2, e2);
        } else if p is PLUSPLUS || p is MINUSMINUS {
            lemma_range_p_expr_loop(t, k1, prec, Expr::Postfix(literal_of(at(t, k1)), Box::new(left)));
        }
    }
}

proof fn lemma_range_p_prefix(t: Seq<TokenView>, k: int)
    requires
        0 <= k < t.len(),
    ensures
        within(t, k, p_prefix(t, k).1),
    decreases t.len() - k, 10int,
{
    lemma_unfold_p_prefix(t, k);
    let k1 = nx(t, k);
    if forward(t, k, k1) && k1 < t.len() {
        lemma_range_p_expression(t, k1, Precedence::PREFIX);
    }
}

proof fn lemma_range_p_infix(t: Seq<TokenView>, k: int, left: Expr)
    requires
        0 <= k < t.len(),
    ensures
        within(t, k, p_infix(t, k, left).1),
    decreases t.len() - k, 10int,
{
    lemma_unfold_p_infix(t, k, left);
    let k1 = nx(t, k);
    if forward(t, k, k1) && k1 < t.len() {
        lemma_range_p_expression(t, k1, prec_of(at(t, k)));
    }
}

proof fn lemma_range_p_grouped(t: Seq<TokenView>, k: int)
    requires
        0 <= k < t.len(),
    ensures
        within(t, k, p_grouped(t, k).1),
    decreases t.len() - k, 10int,
{
    lemma_unfold_p_grouped(t, k);
    let k1 = nx(t, k);
    if forward(t, k, k1) && k1 < t.len() {
        lemma_range_p_expression(t, k1, Precedence::LOWEST);
    }
}

proof fn lemma_range_p_index(t: Seq<TokenView>, k: int, left: Expr)
    requires
        0 <= k < t.len(),
    ensures
        within(t, k, p_index(t, k, left).1),
    decreases t.len() - k, 10int,
{
    lemma_unfold_p_index(t, k, left);
    let k1 = nx(t, k);
    if forward(t, k, k1) && k1 < t.len() {
        lemma_range_p_expression(t, k1, Precedence::LOWEST);
    }
}

proof fn lemma_range_p_call(t: Seq<TokenView>, k: int, function: Expr)
    requires
        0 <= k < t.len(),
    ensures
        within(t, k, p_call(t, k, function).1),
    decreases t.len() - k, 10int,
{
    lemma_unfold_p_call(t, k, function);
    lemma_range_p_list(t, k, TokenKind::RPAREN);
}

proof fn lemma_range_p_array(t: Seq<TokenView>, k: int)
    requires
        0 <= k < t.len(),
    ensures
        within(t, k, p_array(t, k).1),
    decreases t.len() - k, 10int,
{
    lemma_unfold_p_array(t, k);
    lemma_range_p_list(t, k, TokenKind::RBRACKET);
}

proof fn lemma_range_p_list(t: Seq<TokenView>, k: int, end: TokenKind)
    requires
        0 <= k < t.len(),
    ensures
        within(t, k, p_list(t, k, end).1),
    decreases t.len() - k, 9int,
{
    lemma_unfold_p_list(t, k, end);
    let k1 = nx(t, k);
    if !(peek_kind(t, k).tag() == end.tag()) && forward(t, k, k1) && k1 < t.len() {
        lemma_range_p_expression(t, k1, Precedence::LOWEST);
        let k2 = p_expression(t, k1, Precedence::LOWEST).1;
        if forward(t, k, k2) {
            lemma_range_p_list_tail(t, k2, end);
        }
    }
}

proof fn lemma_range_p_list_tail(t: Seq<TokenView>, k: int, end: TokenKind)
    requires
        0 <= k < t.len(),
    ensures
        within(t, k, p_list_tail(t, k, end).1),
    decreases t.len() - k, 9int,
{
    lemma_unfold_p_list_tail(t, k, end);
    if peek_kind(t, k) is COMMA {
        let k1 = nx(t, nx(t, k));
        if forward(t, k, k1) && k1 < t.len() {
            lemma_range_p_expression(t, k1, Precedence::LOWEST);
            let k2 = p_expression(t, k1, Precedence::LOWEST).1;
            if forward(t, k, k2) {
                lemma_range_p_list_tail(t, k2, end);
            }
        }
    }
}

proof fn lemma_range_p_if(t: Seq<TokenView>, k: int)
    requires
        0 <= k < t.len(),
    ensures
        within(t, k, p_if(t, k).1),
    decreases t.len() - k, 10int,
{
    lemma_unfold_p_if(t, k);
    let k1 = nx(t, k);
    if forward(t, k, k1) && k1 < t.len() {
        lemma_range_p_expression(t, k1, Precedence::LOWEST);
        let k2 = p_expression(t, k1, Precedence::LOWEST).1;
        let k3 = expect(t, k2, TokenKind::LBRACE).1;
        if forward(t, k, k3) {
            lemma_range_p_block(t, k3);
            let k4 = p_block(t, k3).1;
            if forward(t, k, k4) {
                lemma_range_p_else(t, k4);
            }
        }
    }
}

proof fn lemma_range_p_else(t: Seq<TokenView>, k: int)
    requires
        0 <= k < t.len(),
    ensures
        within(t, k, p_else(t, k).1),
    decreases t.len() - k, 9int,
{
    lemma_unfold_p_else(t, k);
    if peek_kind(t, k) is ELSE {
        let k1 = nx(t, k);
        if forward(t, k, k1) && k1 < t.len() {
            if peek_kind(t, k1) is IF {
                let k2 = nx(t, nx(t, k1));
                if forward(t, k, k2) && k2 < t.len() {
                    lemma_range_p_expression(t, k2, Precedence::LOWEST);
                    let k3 = p_expression(t, k2, Precedence::LOWEST).1;
                    let k4 = expect(t, k3, TokenKind::LBRACE).1;
                    if forward(t, k, k4) {
                        lemma_range_p_block(t, k4);
                        let k5 = p_block(t, k4).1;
                        if forward(t, k, k5) {
                            lemma_range_p_else(t, k5);
                        }
                    }
                }
            } else {
                let k2 = expect(t, k1, TokenKind::LBRACE).1;
                if forward(t, k, k2) {
                    lemma_range_p_block(t, k2);
                }
            }
        }
    }
}

// ---- laws of the parser ----
/// Where an expression that binds tighter than `prec` ends at `k`: the next
/// token is `;`, or binds no tighter than `prec` (the final `EOF` binds
/// least of all).
pub open spec fn stops_before(t: Seq<TokenView>, k: int, prec: Precedence) -> bool {
    peek_kind(t, k) is SEMICOLON || prec_of(peek_kind(t, k)).level() <= prec.level()
}

proof fn lemma_stops_expr_loop(t: Seq<TokenView>, k: int, prec: Precedence, left: Expr)
    requires
        wf_stream(t),
        0 <= k < t.len(),
    ensures
        p_expr_loop(t, k, prec, left).0 is Some ==> stops_before(
            t,
            p_expr_loop(t, k, prec, left).1,
            prec,
        ),
    decreases t.len() - k,
{
    lemma_unfold_p_expr_loop(t, k, prec, left);
    let p = peek_kind(t, k);
    let k1 = nx(t, k);
    if !(p is SEMICOLON) && prec.level() < prec_of(p).level() && forward(t, k, k1) {
        if is_infix_kind(p) || p is LPAREN || p is LBRACKET {
            let (r, k2, e2) = if is_infix_kind(p) {
                lemma_range_p_infix(t, k1, left);
                p_infix(t, k1, left)
            } else if p is LPAREN {
                lemma_range_p_call(t, k1, left);
                p_call(t, k1, left)
            } else {
                lemma_range_p_index(t, k1, left);
                p_index(t, k1, left)
            };
            lemma_unfold_p_loop_cont(t, k, prec, r, k2, e2);
            if let Some(x) = r {
                if forward(t, k, k2) {
                    lemma_stops_expr_loop(t, k2, prec, x);
                }
            }
        } else if p is PLUSPLUS || p is MINUSMINUS {
            lemma_stops_expr_loop(
                t,
                k1,
                prec,
                Expr::Postfix(literal_of(at(t, k1)), Box::new(left)),
            );
        }
    } else if !forward(t, k, k1) {
        assert(k == t.len() - 1);
    }
}

/// A successful expression parse stops just before a `;` or before an
/// operator that binds no tighter than the precedence it was asked for; it
/// ends inside the stream, at or after where it began.
pub proof fn law_expression_stops(t: Seq<TokenView>, k: int, prec: Precedence)
    requires
        wf_stream(t),
        0 <= k < t.len(),
    ensures
        within(t, k, p_expression(t, k, prec).1),
        p_expression(t, k, prec).0 is Some ==> stops_before(t, p_expression(t, k, prec).1, prec),
{
    lemma_range_p_expression(t, k, prec);
    lemma_unfold_p_expression(t, k, prec);
    match at(t, k) {
        TokenKind::INT(v) => lemma_stops_expr_loop(t, k, prec, Expr::Integer(v)),
        TokenKind::FLOAT(s) => lemma_stops_expr_loop(t, k, prec, Expr::Float(s)),
        TokenKind::TRUE => lemma_stops_expr_loop(t, k, prec, Expr::Boolean(true)),
        TokenKind::FALSE => lemma_stops_expr_loop(t, k, prec, Expr::Boolean(false)),
        TokenKind::IDENT(s) => lemma_stops_expr_loop(t, k, prec, Expr::Identifier(s)),
        TokenKind::STRING(s) => lemma_stops_expr_loop(t, k, prec, Expr::Str(s)),
        TokenKind::MINUS | TokenKind::PLUS | TokenKind::BANG | TokenKind::LPAREN
        | TokenKind::LBRACKET | TokenKind::IF => {
            let (r, k1, e1) = if at(t, k) is LPAREN {
                lemma_range_p_grouped(t, k);
                p_grouped(t, k)
            } else if at(t, k) is LBRACKET {
                lemma_range_p_array(t, k);
                p_array(t, k)
            } else if at(t, k) is IF {
                lemma_range_p_if(t, k);
                p_if(t, k)
            } else {
                lemma_range_p_prefix(t, k);
                p_prefix(t, k)
            };
            lemma_unfold_p_then_loop(t, k, prec, r, k1, e1);
            if let Some(x) = r {
                lemma_stops_expr_loop(t, k1, prec, x);
            }
        },
        _ => {},
    }
}

/// A block ends on its `}`, or on the final `EOF`.
proof fn lemma_block_end(t: Seq<TokenView>, k: int)
    requires
        wf_stream(t),
        0 <= k < t.len(),
    ensures
        at(t, p_block(t, k).1) is RBRACE || at(t, p_block(t, k).1) is EOF,
{
    lemma_unfold_p_block(t, k);
    let k1 = nx(t, k);
    if forward(t, k, k1) && k1 < t.len() {
        lemma_block_loop_end(t, k1);
    }
}

proof fn lemma_block_loop_end(t: Seq<TokenView>, k: int)
    requires
        wf_stream(t),
        0 <= k < t.len(),
    ensures
        at(t, p_block_loop(t, k).1) is RBRACE || at(t, p_block_loop(t, k).1) is EOF,
    decreases t.len() - k,
{
    lemma_unfold_p_block_loop(t, k);
    if !(at(t, k) is RBRACE || at(t, k) is EOF) {
        lemma_range_p_statement(t, k);
        let k1 = p_statement(t, k).1;
        let k2 = nx(t, k1);
        if forward(t, k, k2) && k2 < t.len() {
            lemma_block_loop_end(t, k2);
        }
    }
}

/// The `else` arms after a block that ended at `k`: a successful parse ends
/// on a `}` or `EOF`, and, without a final `else` block, before no `else`.
proof fn lemma_else_end(t: Seq<TokenView>, k: int)
    requires
        wf_stream(t),
        0 <= k < t.len(),
        at(t, k) is RBRACE || at(t, k) is EOF,
    ensures
        ({
            let (r, k2, e) = p_else(t, k);
            r matches Some((brs, alt)) ==> {
                &&& at(t, k2) is RBRACE || at(t, k2) is EOF
                &&& alt is None ==> !(peek_kind(t, k2) is ELSE)
            }
        }),
    decreases t.len() - k,
{
    lemma_unfold_p_else(t, k);
    if peek_kind(t, k) is ELSE {
        let k1 = nx(t, k);
        if forward(t, k, k1) && k1 < t.len() {
            if peek_kind(t, k1) is IF {
                let k2 = nx(t, nx(t, k1));
                if forward(t, k, k2) && k2 < t.len() {
                    lemma_range_p_expression(t, k2, Precedence::LOWEST);
                    let k3 = p_expression(t, k2, Precedence::LOWEST).1;
                    let k4 = expect(t, k3, TokenKind::LBRACE).1;
                    if forward(t, k, k4) {
                        lemma_range_p_block(t, k4);
                        lemma_block_end(t, k4);
                        let k5 = p_block(t, k4).1;
                        if forward(t, k, k5) {
                            lemma_else_end(t, k5);
                        }
                    }
                }
            } else {
                let k2 = expect(t, k1, TokenKind::LBRACE).1;
                if forward(t, k, k2) {
                    lemma_block_end(t, k2);
                }
            }
        }
    }
}

/// A successful `if` parse has at least one arm, ends on the `}` of its last
/// block (or on the final `EOF`), and, when it has no `else` block, leaves
/// no `else` after it.
pub proof fn law_if_ends(t: Seq<TokenView>, k: int)
    requires
        wf_stream(t),
        0 <= k < t.len(),
    ensures
        within(t, k, p_if(t, k).1),
        ({
            let (r, k2, e) = p_if(t, k);
            r is Some ==> (r matches Some(Expr::If(brs, alt)) && {
                &&& brs.len() >= 1
                &&& at(t, k2) is RBRACE || at(t, k2) is EOF
                &&& alt is None ==> !(peek_kind(t, k2) is ELSE)
            })
        }),
{
    lemma_range_p_if(t, k);
    lemma_unfold_p_if(t, k);
    let k1 = nx(t, k);
    if forward(t, k, k1) && k1 < t.len() {
        lemma_range_p_expression(t, k1, Precedence::LOWEST);
        let k2 = p_expression(t, k1, Precedence::LOWEST).1;
        let k3 = expect(t, k2, TokenKind::LBRACE).1;
        if forward(t, k, k3) {
            lemma_range_p_block(t, k3);
            lemma_block_end(t, k3);
            let k4 = p_block(t, k3).1;
            if forward(t, k, k4) {
                lemma_else_end(t, k4);
            }
        }
    }
}

// ---- unfolding lemmas ----
/// `skip_semi` unfolded once.
proof fn lemma_unfold_skip_semi(t: Seq<TokenView>, k: int)
    ensures
        skip_semi(t, k) == ({
            if at(t, k) is SEMICOLON || at(t, k) is EOF || !forward(t, k, nx(t, k)) {
                k
            } else {
                skip_semi(t, nx(t, k))
            }
        }),
{
    reveal_with_fuel(skip_semi, 2);
}

/// `p_program` unfolded once.
proof fn lemma_unfold_p_program(t: Seq<TokenView>, k: int)
    ensures
        p_program(t, k) == ({
            if at(t, k) is EOF {
                (seq![], k, seq![])
            } else {
                let (s, k1, e1) = p_statement(t, k);
                let k2 = nx(t, k1);
                if !forward(t, k, k2) {
                    (opt_seq(s), k2, e1)
                } else {
                    let (rest, k3, e3) = p_program(t, k2);
                    (opt_seq(s) + rest, k3, e1 + e3)
                }
            }
        }),
{
    reveal_with_fuel(p_program, 2);
    reveal(p_statement);
}

/// `p_statement` unfolded once.
proof fn lemma_unfold_p_statement(t: Seq<TokenView>, k: int)
    ensures
        p_statement(t, k) == ({
            match at(t, k) {
                TokenKind::LET => {
                    let (r, k1, e) = p_let(t, k);
                    (
                        match r {
                            Some(d) => Some(Stmt::Let(d)),
                            None => None,
                        },
                        k1,
                        e,
                    )
                },
                TokenKind::DEF => p_function(t, k),
                TokenKind::RETURN => p_return(t, k),
                TokenKind::WHILE => p_while(t, k),
                TokenKind::FOR => p_for(t, k),
                TokenKind::BREAK => (Some(Stmt::Break), nx(t, k), seq![]),
                TokenKind::CONTINUE => (Some(Stmt::Continue), nx(t, k), seq![]),
                _ => p_expr_stmt(t, k),
            }
        }),
{
    reveal_with_fuel(p_statement, 2);
    reveal(p_expr_stmt);
    reveal(p_for);
    reveal(p_function);
    reveal(p_let);
    reveal(p_return);
    reveal(p_while);
}

/// `p_let` unfolded once.
proof fn lemma_unfold_p_let(t: Seq<TokenView>, k: int)
    ensures
        p_let(t, k) == ({
            match peek_kind(t, k) {
                TokenKind::IDENT(name) => {
                    let k1 = nx(t, k);
                    let (ok, k2, e2) = expect(t, k1, TokenKind::COLON);
                    if !ok {
                        (None, k2, e2)
                    } else {
                        match peek_kind(t, k2) {
                            TokenKind::TYPE(vt) => {
                                let k3 = nx(t, k2);
                                if peek_kind(t, k3) is LBRACKET {
                                    let k4 = nx(t, nx(t, k3));
                                    if !forward(t, k, k4) {
                                        (None, k4, e2)
                                    } else {
                                        let (sz, k5, e5) = p_expression(t, k4, Precedence::LOWEST);
                                        match sz {
                                            None => (None, k5, e2 + e5),
                                            Some(x) => {
                                                let (ok6, k6, e6) = expect(t, k5, TokenKind::RBRACKET);
                                                if !ok6 || !forward(t, k, k6) {
                                                    (None, k6, e2 + e5 + e6)
                                                } else {
                                                    let (r, k7, e7) = p_let_value(
                                                        t,
                                                        k6,
                                                        name,
                                                        vt,
                                                        Some(seq![x]),
                                                    );
                                                    (r, k7, e2 + e5 + e6 + e7)
                                                }
                                            },
                                        }
                                    }
                                } else if !forward(t, k, k3) {
                                    (None, k3, e2)
                                } else {
                                    let (r, k7, e7) = p_let_value(t, k3, name, vt, None);
                                    (r, k7, e2 + e7)
                                }
                            },
                            _ => (
                                None,
                                k2,
                                e2 + seq![PErr::Missing { expected: Expected::Type, got: peek_kind(t, k2) }],
                            ),
                        }
                    }
                },
                _ => (
                    None,
                    k,
                    seq![PErr::Missing { expected: Expected::Identifier, got: peek_kind(t, k) }],
                ),
            }
        }),
{
    reveal_with_fuel(p_let, 2);
    reveal(p_expression);
    reveal(p_let_value);
}

/// `p_let_value` unfolded once.
proof fn lemma_unfold_p_let_value(
    t: Seq<TokenView>,
    k: int,
    name: Seq<char>,
    vt: Seq<char>,
    asz: Option<Seq<Expr>>,
)
    ensures
        p_let_value(t, k, name, vt, asz) == ({
            let (ok, k1, e1) = expect(t, k, TokenKind::EQ);
            if !ok {
                (None, k1, e1)
            } else {
                let k2 = nx(t, k1);
                if !forward(t, k, k2) {
                    (None, k2, e1)
                } else {
                    let (v, k3, e3) = p_expression(t, k2, Precedence::LOWEST);
                    match v {
                        None => (None, k3, e1 + e3),
                        Some(x) => (
                            Some(LetDecl { name, value_type: vt, array_size: asz, value: x }),
                            skip_semi(t, k3),
                            e1 + e3,
                        ),
                    }
                }
            }
        }),
{
    reveal_with_fuel(p_let_value, 2);
    reveal(p_expression);
    reveal(skip_semi);
}

/// `p_function` unfolded once.
proof fn lemma_unfold_p_function(t: Seq<TokenView>, k: int)
    ensures
        p_function(t, k) == ({
            match peek_kind(t, k) {
                TokenKind::IDENT(name) => {
                    let k1 = nx(t, k);
                    let (ok, k2, e2) = expect(t, k1, TokenKind::LPAREN);
                    if !ok {
                        (None, k2, e2)
                    } else {
                        let (ps, k3, e3) = p_params(t, k2);
                        match ps {
                            None => (None, k3, e2 + e3),
                            Some(params) => {
                                let (ok4, k4, e4) = expect(t, k3, TokenKind::ARROW);
                                if !ok4 {
                                    (None, k4, e2 + e3 + e4)
                                } else {
                                    match peek_kind(t, k4) {
                                        TokenKind::TYPE(rt) => {
                                            let k5 = nx(t, k4);
                                            let (ok6, k6, e6) = expect(t, k5, TokenKind::LBRACE);
                                            if !ok6 || !forward(t, k, k6) {
                                                (None, k6, e2 + e3 + e4 + e6)
                                            } else {
                                                let (body, k7, e7) = p_block(t, k6);
                                                (
                                                    Some(Stmt::Function(name, params, rt, body)),
                                                    k7,
                                                    e2 + e3 + e4 + e6 + e7,
                                                )
                                            }
                                        },
                                        _ => (
                                            None,
                                            k4,
                                            e2 + e3 + e4 + seq![
                                                PErr::Missing {
                                                    expected: Expected::ReturnType,
                                                    got: peek_kind(t, k4),
                                                },
                                            ],
                                        ),
                                    }
                                }
                            },
                        }
                    }
                },
                _ => (
                    None,
                    k,
                    seq![PErr::Missing { expected: Expected::FunctionName, got: peek_kind(t, k) }],
                ),
            }
        }),
{
    reveal_with_fuel(p_function, 2);
    reveal(p_block);
    reveal(p_params);
}

/// `p_params` unfolded once.
proof fn lemma_unfold_p_params(t: Seq<TokenView>, k: int)
    ensures
        p_params(t, k) == ({
            if peek_kind(t, k) is RPAREN {
                (Some(seq![]), nx(t, k), seq![])
            } else {
                let k1 = nx(t, k);
                match at(t, k1) {
                    TokenKind::IDENT(name) => {
                        let (ok, k2, e2) = expect(t, k1, TokenKind::COLON);
                        if !ok {
                            (None, k2, e2)
                        } else {
                            match peek_kind(t, k2) {
                                TokenKind::TYPE(vt) => {
                                    let k3 = nx(t, k2);
                                    let (rest, k4, e4) = p_params_tail(t, k3);
                                    (
                                        match rest {
                                            Some(r) => Some(
                                                seq![Param { name, value_type: vt, array_size: None }]
                                                    + r,
                                            ),
                                            None => None,
                                        },
                                        k4,
                                        e2 + e4,
                                    )
                                },
                                _ => (None, k2, e2),
                            }
                        }
                    },
                    _ => (None, k1, seq![]),
                }
            }
        }),
{
    reveal(p_params);
    reveal(p_params_tail);
}

/// `p_params_tail` unfolded once.
proof fn lemma_unfold_p_params_tail(t: Seq<TokenView>, k: int)
    ensures
        p_params_tail(t, k) == ({
            if peek_kind(t, k) is COMMA {
                let k1 = nx(t, nx(t, k));
                match at(t, k1) {
                    TokenKind::IDENT(name) => {
                        let (ok, k2, e2) = expect(t, k1, TokenKind::COLON);
                        if !ok {
                            (None, k2, e2)
                        } else {
                            match peek_kind(t, k2) {
                                TokenKind::TYPE(vt) => {
                                    let k3 = nx(t, k2);
                                    if !forward(t, k, k3) {
                                        (None, k3, e2)
                                    } else {
                                        let (rest, k4, e4) = p_params_tail(t, k3);
                                        (
                                            match rest {
                                                Some(r) => Some(
                                                    seq![Param { name, value_type: vt, array_size: None }]
                                                        + r,
                                                ),
                                                None => None,
                                            },
                                            k4,
                                            e2 + e4,
                                        )
                                    }
                                },
                                _ => (None, k2, e2),
                            }
                        }
                    },
                    _ => (None, k1, seq![]),
                }
            } else {
                let (ok, k1, e1) = expect(t, k, TokenKind::RPAREN);
                (
                    if ok {
                        Some(seq![])
                    } else {
                        None
                    },
                    k1,
                    e1,
                )
            }
        }),
{
    reveal_with_fuel(p_params_tail, 2);
}

/// `p_return` unfolded once.
proof fn lemma_unfold_p_return(t: Seq<TokenView>, k: int)
    ensures
        p_return(t, k) == ({
            let k1 = nx(t, k);
            if at(t, k1) is SEMICOLON {
                (Some(Stmt::Return(Expr::Void)), k1, seq![])
            } else if !forward(t, k, k1) {
                (None, k1, seq![])
            } else {
                let (v, k2, e2) = p_expression(t, k1, Precedence::LOWEST);
                match v {
                    None => (None, k2, e2),
                    Some(x) => {
                        let (ok, k3, e3) = expect(t, k2, TokenKind::SEMICOLON);
                        (
                            if ok {
                                Some(Stmt::Return(x))
                            } else {
                                None
                            },
                            k3,
                            e2 + e3,
                        )
                    },
                }
            }
        }),
{
    reveal_with_fuel(p_return, 2);
    reveal(p_expression);
}

/// `p_while` unfolded once.
proof fn lemma_unfold_p_while(t: Seq<TokenView>, k: int)
    ensures
        p_while(t, k) == ({
            let k1 = nx(t, k);
            if !forward(t, k, k1) {
                (None, k1, seq![])
            } else {
                let (c, k2, e2) = p_expression(t, k1, Precedence::LOWEST);
                match c {
                    None => (None, k2, e2),
                    Some(x) => {
                        let (ok, k3, e3) = expect(t, k2, TokenKind::LBRACE);
                        if !ok || !forward(t, k, k3) {
                            (None, k3, e2 + e3)
                        } else {
                            let (b, k4, e4) = p_block(t, k3);
                            (Some(Stmt::While(x, b)), k4, e2 + e3 + e4)
                        }
                    },
                }
            }
        }),
{
    reveal_with_fuel(p_while, 2);
    reveal(p_block);
    reveal(p_expression);
}

/// `p_for` unfolded once.
proof fn lemma_unfold_p_for(t: Seq<TokenView>, k: int)
    ensures
        p_for(t, k) == ({
            let (ok, k1, e1) = expect(t, k, TokenKind::LET);
            if !ok || !forward(t, k, k1) {
                (None, k1, e1)
            } else {
                let (d, k2, e2) = p_let(t, k1);
                match d {
                    None => (None, k2, e1 + e2),
                    Some(decl) => {
                        let k3 = nx(t, k2);
                        if !forward(t, k, k3) {
                            (None, k3, e1 + e2)
                        } else {
                            let (c, k4, e4) = p_expression(t, k3, Precedence::LOWEST);
                            match c {
                                None => (None, k4, e1 + e2 + e4),
                                Some(cond) => {
                                    let (ok5, k5, e5) = expect(t, k4, TokenKind::SEMICOLON);
                                    let k6 = nx(t, k5);
                                    if !ok5 || !forward(t, k, k6) {
                                        (None, k5, e1 + e2 + e4 + e5)
                                    } else {
                                        let (a, k7, e7) = p_expression(t, k6, Precedence::LOWEST);
                                        match a {
                                            None => (None, k7, e1 + e2 + e4 + e5 + e7),
                                            Some(act) => {
                                                let (ok8, k8, e8) = expect(t, k7, TokenKind::LBRACE);
                                                if !ok8 || !forward(t, k, k8) {
                                                    (None, k8, e1 + e2 + e4 + e5 + e7 + e8)
                                                } else {
                                                    let (b, k9, e9) = p_block(t, k8);
                                                    (
                                                        Some(Stmt::For(decl, cond, act, b)),
                                                        k9,
                                                        e1 + e2 + e4 + e5 + e7 + e8 + e9,
                                                    )
                                                }
                                            },
                                        }
                                    }
                                },
                            }
                        }
                    }
                }
            }
        }),
{
    reveal_with_fuel(p_for, 2);
    reveal(p_block);
    reveal(p_expression);
    reveal(p_let);
}

/// `p_block` unfolded once.
proof fn lemma_unfold_p_block(t: Seq<TokenView>, k: int)
    ensures
        p_block(t, k) == ({
            let k1 = nx(t, k);
            if !forward(t, k, k1) {
                (seq![], k1, seq![])
            } else {
                p_block_loop(t, k1)
            }
        }),
{
    reveal_with_fuel(p_block, 2);
    reveal(p_block_loop);
}

/// `p_block_loop` unfolded once.
proof fn lemma_unfold_p_block_loop(t: Seq<TokenView>, k: int)
    ensures
        p_block_loop(t, k) == ({
            if at(t, k) is RBRACE || at(t, k) is EOF {
                (seq![], k, seq![])
            } else {
                let (s, k1, e1) = p_statement(t, k);
                let k2 = nx(t, k1);
                if !forward(t, k, k2) {
                    (opt_seq(s), k2, e1)
                } else {
                    let (rest, k3, e3) = p_block_loop(t, k2);
                    (opt_seq(s) + rest, k3, e1 + e3)
                }
            }
        }),
{
    reveal_with_fuel(p_block_loop, 2);
    reveal(p_statement);
}

/// `p_expr_stmt` unfolded once.
proof fn lemma_unfold_p_expr_stmt(t: Seq<TokenView>, k: int)
    ensures
        p_expr_stmt(t, k) == ({
            let (l, k1, e1) = p_expression(t, k, Precedence::LOWEST);
            match l {
                None => (None, k1, e1),
                Some(left) => {
                    if is_assign_kind(peek_kind(t, k1)) {
                        let k2 = nx(t, k1);
                        let op = literal_of(at(t, k2));
                        let k3 = nx(t, k2);
                        if !forward(t, k, k3) {
                            (None, k3, e1)
                        } else {
                            let (r, k4, e4) = p_expression(t, k3, Precedence::LOWEST);
                            match r {
                                None => (None, k4, e1 + e4),
                                Some(rv) => {
                                    let k5 = if peek_kind(t, k4) is SEMICOLON {
                                        nx(t, k4)
                                    } else {
                                        k4
                                    };
                                    (Some(Stmt::Assign(left, op, rv)), k5, e1 + e4)
                                },
                            }
                        }
                    } else {
                        let k2 = if peek_kind(t, k1) is SEMICOLON {
                            nx(t, k1)
                        } else {
                            k1
                        };
                        (Some(Stmt::Expression(left)), k2, e1)
                    }
                },
            }
        }),
{
    reveal_with_fuel(p_expr_stmt, 2);
    reveal(p_expression);
}

/// `p_then_loop` unfolded once.
proof fn lemma_unfold_p_then_loop(
    t: Seq<TokenView>,
    k: int,
    prec: Precedence,
    r: Option<Expr>,
    k1: int,
    e1: Seq<PErr>,
)
    ensures
        p_then_loop(t, k, prec, r, k1, e1) == ({
            match r {
                None => (None, k1, e1),
                Some(x) => if !(k <= k1 <= t.len()) {
                    (None, k1, e1)
                } else {
                    let (r2, k2, e2) = p_expr_loop(t, k1, prec, x);
                    (r2, k2, e1 + e2)
                },
            }
        }),
{
    reveal_with_fuel(p_then_loop, 2);
    reveal(p_expr_loop);
}

/// `p_expression` unfolded once.
proof fn lemma_unfold_p_expression(t: Seq<TokenView>, k: int, prec: Precedence)
    ensures
        p_expression(t, k, prec) == ({
            match at(t, k) {
                TokenKind::INT(v) => p_expr_loop(t, k, prec, Expr::Integer(v)),
                TokenKind::FLOAT(s) => p_expr_loop(t, k, prec, Expr::Float(s)),
                TokenKind::TRUE => p_expr_loop(t, k, prec, Expr::Boolean(true)),
                TokenKind::FALSE => p_expr_loop(t, k, prec, Expr::Boolean(false)),
                TokenKind::IDENT(s) => p_expr_loop(t, k, prec, Expr::Identifier(s)),
                TokenKind::STRING(s) => p_expr_loop(t, k, prec, Expr::Str(s)),
                TokenKind::MINUS | TokenKind::PLUS | TokenKind::BANG => {
                    let (r, k1, e1) = p_prefix(t, k);
                    p_then_loop(t, k, prec, r, k1, e1)
                },
                TokenKind::LPAREN => {
                    let (r, k1, e1) = p_grouped(t, k);
                    p_then_loop(t, k, prec, r, k1, e1)
                },
                TokenKind::LBRACKET => {
                    let (r, k1, e1) = p_array(t, k);
                    p_then_loop(t, k, prec, r, k1, e1)
                },
                TokenKind::IF => {
                    let (r, k1, e1) = p_if(t, k);
                    p_then_loop(t, k, prec, r, k1, e1)
                },
                _ => (None, k, seq![PErr::NoPrefix(at(t, k))]),
            }
        }),
{
    reveal_with_fuel(p_expression, 2);
    reveal(p_array);
    reveal(p_expr_loop);
    reveal(p_grouped);
    reveal(p_if);
    reveal(p_prefix);
    reveal(p_then_loop);
}

/// `p_loop_cont` unfolded once.
proof fn lemma_unfold_p_loop_cont(
    t: Seq<TokenView>,
    k: int,
    prec: Precedence,
    r: Option<Expr>,
    k2: int,
    e2: Seq<PErr>,
)
    ensures
        p_loop_cont(t, k, prec, r, k2, e2) == ({
            match r {
                None => (None, k2, e2),
                Some(x) => if !forward(t, k, k2) {
                    (None, k2, e2)
                } else {
                    let (r3, k3, e3) = p_expr_loop(t, k2, prec, x);
                    (r3, k3, e2 + e3)
                },
            }
        }),
{
    reveal_with_fuel(p_loop_cont, 2);
    reveal(p_expr_loop);
}

/// `p_expr_loop` unfolded once.
proof fn lemma_unfold_p_expr_loop(t: Seq<TokenView>, k: int, prec: Precedence, left: Expr)
    ensures
        p_expr_loop(t, k, prec, left) == ({
            let p = peek_kind(t, k);
            let k1 = nx(t, k);
            if !(p is SEMICOLON) && prec.level() < prec_of(p).level() && forward(t, k, k1) {
                if is_infix_kind(p) {
                    let (r, k2, e2) = p_infix(t, k1, left);
                    p_loop_cont(t, k, prec, r, k2, e2)
                } else if p is LPAREN {
                    let (r, k2, e2) = p_call(t, k1, left);
                    p_loop_cont(t, k, prec, r, k2, e2)
                } else if p is LBRACKET {
                    let (r, k2, e2) = p_index(t, k1, left);
                    p_loop_cont(t, k, prec, r, k2, e2)
                } else if p is PLUSPLUS || p is MINUSMINUS {
                    p_expr_loop(t, k1, prec, Expr::Postfix(literal_of(at(t, k1)), Box::new(left)))
                } else {
                    (Some(left), k, seq![])
                }
            } else {
                (Some(left), k, seq![])
            }
        }),
{
    reveal_with_fuel(p_expr_loop, 2);
    reveal(p_call);
    reveal(p_index);
    reveal(p_infix);
    reveal(p_loop_cont);
}

/// `p_prefix` unfolded once.
proof fn lemma_unfold_p_prefix(t: Seq<TokenView>, k: int)
    ensures
        p_prefix(t, k) == ({
            let op = literal_of(at(t, k));
            let k1 = nx(t, k);
            if !forward(t, k, k1) {
                (None, k1, seq![])
            } else {
                let (r, k2, e2) = p_expression(t, k1, Precedence::PREFIX);
                match r {
                    None => (None, k2, e2),
                    Some(x) => (Some(Expr::Prefix(op, Box::new(x))), k2, e2),
                }
            }
        }),
{
    reveal_with_fuel(p_prefix, 2);
    reveal(p_expression);
}

/// `p_infix` unfolded once.
proof fn lemma_unfold_p_infix(t: Seq<TokenView>, k: int, left: Expr)
    ensures
        p_infix(t, k, left) == ({
            let op = literal_of(at(t, k));
            let pr = prec_of(at(t, k));
            let k1 = nx(t, k);
            if !forward(t, k, k1) {
                (None, k1, seq![])
            } else {
                let (r, k2, e2) = p_expression(t, k1, pr);
                match r {
                    None => (None, k2, e2),
                    Some(x) => (Some(Expr::Infix(Box::new(left), op, Box::new(x))), k2, e2),
                }
            }
        }),
{
    reveal_with_fuel(p_infix, 2);
    reveal(p_expression);
}

/// `p_grouped` unfolded once.
proof fn lemma_unfold_p_grouped(t: Seq<TokenView>, k: int)
    ensures
        p_grouped(t, k) == ({
            let k1 = nx(t, k);
            if !forward(t, k, k1) {
                (None, k1, seq![])
            } else {
                let (r, k2, e2) = p_expression(t, k1, Precedence::LOWEST);
                match r {
                    None => (None, k2, e2),
                    Some(x) => {
                        let (ok, k3, e3) = expect(t, k2, TokenKind::RPAREN);
                        (
                            if ok {
                                Some(x)
                            } else {
                                None
                            },
                            k3,
                            e2 + e3,
                        )
                    },
                }
            }
        }),
{
    reveal_with_fuel(p_grouped, 2);
    reveal(p_expression);
}

/// `p_index` unfolded once.
proof fn lemma_unfold_p_index(t: Seq<TokenView>, k: int, left: Expr)
    ensures
        p_index(t, k, left) == ({
            let k1 = nx(t, k);
            if !forward(t, k, k1) {
                (None, k1, seq![])
            } else {
                let (r, k2, e2) = p_expression(t, k1, Precedence::LOWEST);
                match r {
                    None => (None, k2, e2),
                    Some(x) => {
                        let (ok, k3, e3) = expect(t, k2, TokenKind::RBRACKET);
                        (
                            if ok {
                                Some(Expr::Index(Box::new(left), Box::new(x)))
                            } else {
                                None
                            },
                            k3,
                            e2 + e3,
                        )
                    },
                }
            }
        }),
{
    reveal_with_fuel(p_index, 2);
    reveal(p_expression);
}

/// `p_call` unfolded once.
proof fn lemma_unfold_p_call(t: Seq<TokenView>, k: int, function: Expr)
    ensures
        p_call(t, k, function) == ({
            let (a, k1, e1) = p_list(t, k, TokenKind::RPAREN);
            match a {
                None => (None, k1, e1),
                Some(args) => (Some(Expr::Call(Box::new(function), args)), k1, e1),
            }
        }),
{
    reveal_with_fuel(p_call, 2);
    reveal(p_list);
}

/// `p_array` unfolded once.
proof fn lemma_unfold_p_array(t: Seq<TokenView>, k: int)
    ensures
        p_array(t, k) == ({
            let (a, k1, e1) = p_list(t, k, TokenKind::RBRACKET);
            match a {
                None => (None, k1, e1),
                Some(elts) => (Some(Expr::Array(elts, elts.len())), k1, e1),
            }
        }),
{
    reveal_with_fuel(p_array, 2);
    reveal(p_list);
}

/// `p_list` unfolded once.
proof fn lemma_unfold_p_list(t: Seq<TokenView>, k: int, end: TokenKind)
    ensures
        p_list(t, k, end) == ({
            let k1 = nx(t, k);
            if peek_kind(t, k).tag() == end.tag() {
                (Some(seq![]), k1, seq![])
            } else if !forward(t, k, k1) {
                (None, k1, seq![])
            } else {
                let (r, k2, e2) = p_expression(t, k1, Precedence::LOWEST);
                match r {
                    None => (None, k2, e2),
                    Some(x) => if !forward(t, k, k2) {
                        (None, k2, e2)
                    } else {
                        let (rest, k3, e3) = p_list_tail(t, k2, end);
                        (
                            match rest {
                                Some(r) => Some(seq![x] + r),
                                None => None,
                            },
                            k3,
                            e2 + e3,
                        )
                    },
                }
            }
        }),
{
    reveal_with_fuel(p_list, 2);
    reveal(p_expression);
    reveal(p_list_tail);
}

/// `p_list_tail` unfolded once.
proof fn lemma_unfold_p_list_tail(t: Seq<TokenView>, k: int, end: TokenKind)
    ensures
        p_list_tail(t, k, end) == ({
            if peek_kind(t, k) is COMMA {
                let k1 = nx(t, nx(t, k));
                if !forward(t, k, k1) {
                    (None, k1, seq![])
                } else {
                    let (r, k2, e2) = p_expression(t, k1, Precedence::LOWEST);
                    match r {
                        None => (None, k2, e2),
                        Some(x) => if !forward(t, k, k2) {
                            (None, k2, e2)
                        } else {
                            let (rest, k3, e3) = p_list_tail(t, k2, end);
                            (
                                match rest {
                                    Some(r) => Some(seq![x] + r),
                                    None => None,
                                },
                                k3,
                                e2 + e3,
                            )
                        },
                    }
                }
            } else {
                let (ok, k1, e1) = expect(t, k, end);
                (
                    if ok {
                        Some(seq![])
                    } else {
                        None
                    },
                    k1,
                    e1,
                )
            }
        }),
{
    reveal_with_fuel(p_list_tail, 2);
    reveal(p_expression);
}

/// `p_if` unfolded once.
proof fn lemma_unfold_p_if(t: Seq<TokenView>, k: int)
    ensures
        p_if(t, k) == ({
            let k1 = nx(t, k);
            if !forward(t, k, k1) {
                (None, k1, seq![])
            } else {
                let (c, k2, e2) = p_expression(t, k1, Precedence::LOWEST);
                match c {
                    None => (None, k2, e2),
                    Some(cond) => {
                        let (ok, k3, e3) = expect(t, k2, TokenKind::LBRACE);
                        if !ok || !forward(t, k, k3) {
                            (None, k3, e2 + e3)
                        } else {
                            let (b, k4, e4) = p_block(t, k3);
                            if !forward(t, k, k4) {
                                (None, k4, e2 + e3 + e4)
                            } else {
                                let (rest, k5, e5) = p_else(t, k4);
                                (
                                    match rest {
                                        Some((brs, alt)) => Some(
                                            Expr::If(
                                                seq![Branch { condition: cond, consequence: b }] + brs,
                                                alt,
                                            ),
                                        ),
                                        None => None,
                                    },
                                    k5,
                                    e2 + e3 + e4 + e5,
                                )
                            }
                        }
                    },
                }
            }
        }),
{
    reveal_with_fuel(p_if, 2);
    reveal(p_block);
    reveal(p_else);
    reveal(p_expression);
}

/// `p_else` unfolded once.
proof fn lemma_unfold_p_else(t: Seq<TokenView>, k: int)
    ensures
        p_else(t, k) == ({
            if peek_kind(t, k) is ELSE {
                let k1 = nx(t, k);
                if !forward(t, k, k1) {
                    (None, k1, seq![])
                } else if peek_kind(t, k1) is IF {
                    let k2 = nx(t, nx(t, k1));
                    if !forward(t, k, k2) {
                        (None, k2, seq![])
                    } else {
                        let (c, k3, e3) = p_expression(t, k2, Precedence::LOWEST);
                        match c {
                            None => (None, k3, e3),
                            Some(cond) => {
                                let (ok, k4, e4) = expect(t, k3, TokenKind::LBRACE);
                                if !ok || !forward(t, k, k4) {
                                    (None, k4, e3 + e4)
                                } else {
                                    let (b, k5, e5) = p_block(t, k4);
                                    if !forward(t, k, k5) {
                                        (None, k5, e3 + e4 + e5)
                                    } else {
                                        let (rest, k6, e6) = p_else(t, k5);
                                        (
                                            match rest {
                                                Some((brs, alt)) => Some(
                                                    (
                                                        seq![Branch { condition: cond, consequence: b }]
                                                            + brs,
                                                        alt,
                                                    ),
                                                ),
                                                None => None,
                                            },
                                            k6,
                                            e3 + e4 + e5 + e6,
                                        )
                                    }
                                }
                            },
                        }
                    }
                } else {
                    let (ok, k2, e2) = expect(t, k1, TokenKind::LBRACE);
                    if !ok || !forward(t, k, k2) {
                        (None, k2, e2)
                    } else {
                        let (b, k3, e3) = p_block(t, k2);
                        (Some((seq![], Some(b))), k3, e2 + e3)
                    }
                }
            } else {
                (Some((seq![], None)), k, seq![])
            }
        }),
{
    reveal_with_fuel(p_else, 2);
    reveal(p_block);
    reveal(p_expression);
}

// ---- end unfolding lemmas ----
} // verus!
