//! Tokens produced by the lexer, their abstract views, and the keyword table.

use vstd::prelude::*;
use crate::text::{chars_of, spells};

verus! {

/// The kind of a token. Text-carrying kinds borrow their text from the source.
/// A floating-point literal keeps the source text of the number; its value is
/// what that text denotes.
#[derive(Debug, Clone, Copy, PartialEq)]
pub enum TokenType<'a> {
    EOF,
    ILLEGAL(&'a str),
    IDENT(&'a str),
    INT(i32),
    FLOAT(&'a str),
    STRING(&'a str),
    PLUS,
    MINUS,
    ASTERISK,
    SLASH,
    MODULUS,
    POW,
    EQ,
    PLUSEQ,
    MINUSEQ,
    MULEQ,
    DIVEQ,
    MODEQ,
    PLUSPLUS,
    MINUSMINUS,
    LBRACKET,
    RBRACKET,
    LPAREN,
    RPAREN,
    LBRACE,
    RBRACE,
    COLON,
    SEMICOLON,
    ARROW,
    COMMA,
    BANG,
    LT,
    LTE,
    GT,
    GTE,
    EE,
    NE,
    LET,
    DEF,
    RETURN,
    IF,
    ELSE,
    TRUE,
    FALSE,
    WHILE,
    CONTINUE,
    BREAK,
    FOR,
    TYPE(&'a str),
}

/// The abstract value of a token kind: borrowed text becomes its characters.
pub enum TokenKind {
    EOF,
    ILLEGAL(Seq<char>),
    IDENT(Seq<char>),
    INT(i32),
    FLOAT(Seq<char>),
    STRING(Seq<char>),
    PLUS,
    MINUS,
    ASTERISK,
    SLASH,
    MODULUS,
    POW,
    EQ,
    PLUSEQ,
    MINUSEQ,
    MULEQ,
    DIVEQ,
    MODEQ,
    PLUSPLUS,
    MINUSMINUS,
    LBRACKET,
    RBRACKET,
    LPAREN,
    RPAREN,
    LBRACE,
    RBRACE,
    COLON,
    SEMICOLON,
    ARROW,
    COMMA,
    BANG,
    LT,
    LTE,
    GT,
    GTE,
    EE,
    NE,
    LET,
    DEF,
    RETURN,
    IF,
    ELSE,
    TRUE,
    FALSE,
    WHILE,
    CONTINUE,
    BREAK,
    FOR,
    TYPE(Seq<char>),
}

impl<'a> TokenType<'a> {
    pub open spec fn view(&self) -> TokenKind {
        match *self {
            TokenType::EOF => TokenKind::EOF,
            TokenType::ILLEGAL(s) => TokenKind::ILLEGAL(s@),
            TokenType::IDENT(s) => TokenKind::IDENT(s@),
            TokenType::INT(v) => TokenKind::INT(v),
            TokenType::FLOAT(s) => TokenKind::FLOAT(s@),
            TokenType::STRING(s) => TokenKind::STRING(s@),
            TokenType::PLUS => TokenKind::PLUS,
            TokenType::MINUS => TokenKind::MINUS,
            TokenType::ASTERISK => TokenKind::ASTERISK,
            TokenType::SLASH => TokenKind::SLASH,
            TokenType::MODULUS => TokenKind::MODULUS,
            TokenType::POW => TokenKind::POW,
            TokenType::EQ => TokenKind::EQ,
            TokenType::PLUSEQ => TokenKind::PLUSEQ,
            TokenType::MINUSEQ => TokenKind::MINUSEQ,
            TokenType::MULEQ => TokenKind::MULEQ,
            TokenType::DIVEQ => TokenKind::DIVEQ,
            TokenType::MODEQ => TokenKind::MODEQ,
            TokenType::PLUSPLUS => TokenKind::PLUSPLUS,
            TokenType::MINUSMINUS => TokenKind::MINUSMINUS,
            TokenType::LBRACKET => TokenKind::LBRACKET,
            TokenType::RBRACKET => TokenKind::RBRACKET,
            TokenType::LPAREN => TokenKind::LPAREN,
            TokenType::RPAREN => TokenKind::RPAREN,
            TokenType::LBRACE => TokenKind::LBRACE,
            TokenType::RBRACE => TokenKind::RBRACE,
            TokenType::COLON => TokenKind::COLON,
            TokenType::SEMICOLON => TokenKind::SEMICOLON,
            TokenType::ARROW => TokenKind::ARROW,
            TokenType::COMMA => TokenKind::COMMA,
            TokenType::BANG => TokenKind::BANG,
            TokenType::LT => TokenKind::LT,
            TokenType::LTE => TokenKind::LTE,
            TokenType::GT => TokenKind::GT,
            TokenType::GTE => TokenKind::GTE,
            TokenType::EE => TokenKind::EE,
            TokenType::NE => TokenKind::NE,
            TokenType::LET => TokenKind::LET,
            TokenType::DEF => TokenKind::DEF,
            TokenType::RETURN => TokenKind::RETURN,
            TokenType::IF => TokenKind::IF,
            TokenType::ELSE => TokenKind::ELSE,
            TokenType::TRUE => TokenKind::TRUE,
            TokenType::FALSE => TokenKind::FALSE,
            TokenType::WHILE => TokenKind::WHILE,
            TokenType::CONTINUE => TokenKind::CONTINUE,
            TokenType::BREAK => TokenKind::BREAK,
            TokenType::FOR => TokenKind::FOR,
            TokenType::TYPE(s) => TokenKind::TYPE(s@),
        }
    }
}

/// A token with the line it ends on and the byte offset the lexer stood at.
#[derive(Debug, Clone, Copy)]
pub struct Token<'a> {
    pub token_type: TokenType<'a>,
    pub line_no: usize,
    pub position: usize,
}

/// The abstract value of a token.
pub struct TokenView {
    pub kind: TokenKind,
    pub line_no: nat,
    pub position: nat,
}

impl<'a> Token<'a> {
    pub open spec fn view(&self) -> TokenView {
        TokenView {
            kind: self.token_type@,
            line_no: self.line_no as nat,
            position: self.position as nat,
        }
    }
}

/// The built-in type names.
pub open spec fn is_type_name(s: Seq<char>) -> bool {
    s == "int"@ || s == "float"@ || s == "str"@ || s == "bool"@ || s == "void"@
}

/// A type name followed by `[]`, naming an array type.
pub open spec fn is_array_type_name(s: Seq<char>) -> bool {
    &&& s.len() >= 2
    &&& s.subrange(s.len() - 2, s.len() as int) == "[]"@
    &&& is_type_name(s.subrange(0, s.len() - 2))
}

/// What a word of the source means: a keyword, a type name, or an identifier.
pub open spec fn keyword_kind(s: Seq<char>) -> TokenKind {
    if s == "let"@ {
        TokenKind::LET
    } else if s == "def"@ {
        TokenKind::DEF
    } else if s == "return"@ {
        TokenKind::RETURN
    } else if s == "if"@ {
        TokenKind::IF
    } else if s == "else"@ {
        TokenKind::ELSE
    } else if s == "true"@ {
        TokenKind::TRUE
    } else if s == "false"@ {
        TokenKind::FALSE
    } else if s == "while"@ {
        TokenKind::WHILE
    } else if s == "for"@ {
        TokenKind::FOR
    } else if s == "continue"@ {
        TokenKind::CONTINUE
    } else if s == "break"@ {
        TokenKind::BREAK
    } else if is_type_name(s) || is_array_type_name(s) {
        TokenKind::TYPE(s)
    } else {
        TokenKind::IDENT(s)
    }
}

/// The source text an operator token stands for, or the text of an
/// identifier or type token; empty for every other kind.
pub open spec fn literal_of(k: TokenKind) -> Seq<char> {
    match k {
        TokenKind::PLUS => "+"@,
        TokenKind::MINUS => "-"@,
        TokenKind::ASTERISK => "*"@,
        TokenKind::SLASH => "/"@,
        TokenKind::MODULUS => "%"@,
        TokenKind::POW => "^"@,
        TokenKind::BANG => "!"@,
        TokenKind::EQ => "="@,
        TokenKind::PLUSEQ => "+="@,
        TokenKind::MINUSEQ => "-="@,
        TokenKind::MULEQ => "*="@,
        TokenKind::DIVEQ => "/="@,
        TokenKind::MODEQ => "%="@,
        TokenKind::PLUSPLUS => "++"@,
        TokenKind::MINUSMINUS => "--"@,
        TokenKind::LT => "<"@,
        TokenKind::LTE => "<="@,
        TokenKind::GT => ">"@,
        TokenKind::GTE => ">="@,
        TokenKind::EE => "=="@,
        TokenKind::NE => "!="@,
        TokenKind::IDENT(s) => s,
        TokenKind::TYPE(s) => s,
        _ => ""@,
    }
}

impl<'a> TokenType<'a> {
    /// The token for a word: a keyword, a built-in type name (possibly with
    /// `[]`), or else an identifier. Type and identifier tokens carry `ident`.
    pub fn lookup_ident(ident: &'a str) -> (r: TokenType<'a>)
        ensures
            r@ == keyword_kind(ident@),
            r matches TokenType::IDENT(s) ==> s == ident,
            r matches TokenType::TYPE(s) ==> s == ident,
    {
        let v = chars_of(ident);
        let n = v.len();
        proof {
            assert(v@.subrange(0, n as int) =~= v@);
        }
        if spells(&v, 0, n, "let") {
            TokenType::LET
        } else if spells(&v, 0, n, "def") {
            TokenType::DEF
        } else if spells(&v, 0, n, "return") {
            TokenType::RETURN
        } else if spells(&v, 0, n, "if") {
            TokenType::IF
        } else if spells(&v, 0, n, "else") {
            TokenType::ELSE
        } else if spells(&v, 0, n, "true") {
            TokenType::TRUE
        } else if spells(&v, 0, n, "false") {
            TokenType::FALSE
        } else if spells(&v, 0, n, "while") {
            TokenType::WHILE
        } else if spells(&v, 0, n, "for") {
            TokenType::FOR
        } else if spells(&v, 0, n, "continue") {
            TokenType::CONTINUE
        } else if spells(&v, 0, n, "break") {
            TokenType::BREAK
        } else if names_type(&v, n) {
            TokenType::TYPE(ident)
        } else if n >= 2 && spells(&v, n - 2, n, "[]") && names_type(&v, n - 2) {
            TokenType::TYPE(ident)
        } else {
            TokenType::IDENT(ident)
        }
    }

    /// The text of an operator, identifier or type token; "" for the rest.
    pub fn get_literal(&self) -> (r: &'a str)
        ensures
            r@ == literal_of(self@),
    {
        match *self {
            TokenType::PLUS => "+",
            TokenType::MINUS => "-",
            TokenType::ASTERISK => "*",
            TokenType::SLASH => "/",
            TokenType::MODULUS => "%",
            TokenType::POW => "^",
            TokenType::BANG => "!",
            TokenType::EQ => "=",
            TokenType::PLUSEQ => "+=",
            TokenType::MINUSEQ => "-=",
            TokenType::MULEQ => "*=",
            TokenType::DIVEQ => "/=",
            TokenType::MODEQ => "%=",
            TokenType::PLUSPLUS => "++",
            TokenType::MINUSMINUS => "--",
            TokenType::LT => "<",
            TokenType::LTE => "<=",
            TokenType::GT => ">",
            TokenType::GTE => ">=",
            TokenType::EE => "==",
            TokenType::NE => "!=",
            TokenType::IDENT(lit) => lit,
            TokenType::TYPE(lit) => lit,
            _ => "",
        }
    }
}

/// Whether `v[0..n]` is one of the built-in type names.
fn names_type(v: &Vec<char>, n: usize) -> (r: bool)
    requires
        n <= v.len(),
    ensures
        r == is_type_name(v@.subrange(0, n as int)),
{
    spells(v, 0, n, "int") || spells(v, 0, n, "float") || spells(v, 0, n, "str") || spells(
        v,
        0,
        n,
        "bool",
    ) || spells(v, 0, n, "void")
}


impl TokenKind {
    /// Which kind of token this is, ignoring any text or value it carries.
    pub open spec fn tag(self) -> int {
        match self {
            TokenKind::EOF => 0,
            TokenKind::ILLEGAL(_) => 1,
            TokenKind::IDENT(_) => 2,
            TokenKind::INT(_) => 3,
            TokenKind::FLOAT(_) => 4,
            TokenKind::STRING(_) => 5,
            TokenKind::PLUS => 6,
            TokenKind::MINUS => 7,
            TokenKind::ASTERISK => 8,
            TokenKind::SLASH => 9,
            TokenKind::MODULUS => 10,
            TokenKind::POW => 11,
            TokenKind::EQ => 12,
            TokenKind::PLUSEQ => 13,
            TokenKind::MINUSEQ => 14,
            TokenKind::MULEQ => 15,
            TokenKind::DIVEQ => 16,
            TokenKind::MODEQ => 17,
            TokenKind::PLUSPLUS => 18,
            TokenKind::MINUSMINUS => 19,
            TokenKind::LBRACKET => 20,
            TokenKind::RBRACKET => 21,
            TokenKind::LPAREN => 22,
            TokenKind::RPAREN => 23,
            TokenKind::LBRACE => 24,
            TokenKind::RBRACE => 25,
            TokenKind::COLON => 26,
            TokenKind::SEMICOLON => 27,
            TokenKind::ARROW => 28,
            TokenKind::COMMA => 29,
            TokenKind::BANG => 30,
            TokenKind::LT => 31,
            TokenKind::LTE => 32,
            TokenKind::GT => 33,
            TokenKind::GTE => 34,
            TokenKind::EE => 35,
            TokenKind::NE => 36,
            TokenKind::LET => 37,
            TokenKind::DEF => 38,
            TokenKind::RETURN => 39,
            TokenKind::IF => 40,
            TokenKind::ELSE => 41,
            TokenKind::TRUE => 42,
            TokenKind::FALSE => 43,
            TokenKind::WHILE => 44,
            TokenKind::CONTINUE => 45,
            TokenKind::BREAK => 46,
            TokenKind::FOR => 47,
            TokenKind::TYPE(_) => 48,
        }
    }
}

impl<'a> TokenType<'a> {
    /// The variant number of a token kind (its payload ignored).
    pub fn tag(&self) -> (r: u8)
        ensures
            r == self@.tag(),
    {
        match *self {
            TokenType::EOF => 0,
            TokenType::ILLEGAL(_) => 1,
            TokenType::IDENT(_) => 2,
            TokenType::INT(_) => 3,
            TokenType::FLOAT(_) => 4,
            TokenType::STRING(_) => 5,
            TokenType::PLUS => 6,
            TokenType::MINUS => 7,
            TokenType::ASTERISK => 8,
            TokenType::SLASH => 9,
            TokenType::MODULUS => 10,
            TokenType::POW => 11,
            TokenType::EQ => 12,
            TokenType::PLUSEQ => 13,
            TokenType::MINUSEQ => 14,
            TokenType::MULEQ => 15,
            TokenType::DIVEQ => 16,
            TokenType::MODEQ => 17,
            TokenType::PLUSPLUS => 18,
            TokenType::MINUSMINUS => 19,
            TokenType::LBRACKET => 20,
            TokenType::RBRACKET => 21,
            TokenType::LPAREN => 22,
            TokenType::RPAREN => 23,
            TokenType::LBRACE => 24,
            TokenType::RBRACE => 25,
            TokenType::COLON => 26,
            TokenType::SEMICOLON => 27,
            TokenType::ARROW => 28,
            TokenType::COMMA => 29,
            TokenType::BANG => 30,
            TokenType::LT => 31,
            TokenType::LTE => 32,
            TokenType::GT => 33,
            TokenType::GTE => 34,
            TokenType::EE => 35,
            TokenType::NE => 36,
            TokenType::LET => 37,
            TokenType::DEF => 38,
            TokenType::RETURN => 39,
            TokenType::IF => 40,
            TokenType::ELSE => 41,
            TokenType::TRUE => 42,
            TokenType::FALSE => 43,
            TokenType::WHILE => 44,
            TokenType::CONTINUE => 45,
            TokenType::BREAK => 46,
            TokenType::FOR => 47,
            TokenType::TYPE(_) => 48,
        }
    }

    /// Whether two token kinds are the same variant, whatever they carry.
    pub fn same_kind(&self, other: &TokenType<'a>) -> (r: bool)
        ensures
            r == (self@.tag() == other@.tag()),
    {
        self.tag() == other.tag()
    }
}

/// The reserved words.
pub open spec fn is_keyword(w: Seq<char>) -> bool {
    w == "let"@ || w == "def"@ || w == "return"@ || w == "if"@ || w == "else"@ || w == "true"@
        || w == "false"@ || w == "while"@ || w == "for"@ || w == "continue"@ || w == "break"@
}

/// A word that is not reserved becomes a token whose literal is the word
/// itself (an identifier or a type name); a reserved word becomes a keyword
/// token with no literal.
pub proof fn law_word_literal(w: Seq<char>)
    ensures
        !is_keyword(w) ==> literal_of(keyword_kind(w)) == w,
        !is_keyword(w) ==> (keyword_kind(w) is IDENT || keyword_kind(w) is TYPE),
        is_keyword(w) ==> literal_of(keyword_kind(w)) == ""@,
{
}

/// Distinct words give distinct tokens: no two keywords share a token, and
/// type names and identifiers carry their word.
pub proof fn law_keyword_kind_injective(w1: Seq<char>, w2: Seq<char>)
    ensures
        w1 != w2 ==> keyword_kind(w1) != keyword_kind(w2),
{
    reveal_strlit("let");
    reveal_strlit("def");
    reveal_strlit("return");
    reveal_strlit("if");
    reveal_strlit("else");
    reveal_strlit("true");
    reveal_strlit("false");
    reveal_strlit("while");
    reveal_strlit("for");
    reveal_strlit("continue");
    reveal_strlit("break");
    reveal_strlit("int");
    reveal_strlit("float");
    reveal_strlit("str");
    reveal_strlit("bool");
    reveal_strlit("void");
    reveal_strlit("[]");
}

} // verus!
