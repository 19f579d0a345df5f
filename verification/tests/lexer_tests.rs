use toylang::lexer::{source_lexes, Lexer};
use toylang::token::{Token, TokenType};

fn lex_all(src: &str) -> Vec<Token<'_>> {
    let mut l = Lexer::new(src);
    let mut out = Vec::new();
    loop {
        let t = l.next_token();
        out.push(t);
        if t.token_type == TokenType::EOF {
            break;
        }
    }
    out
}

fn kinds(src: &str) -> Vec<TokenType<'_>> {
    lex_all(src).into_iter().map(|t| t.token_type).collect()
}

#[test]
fn let_statement_tokens_and_positions() {
    let toks = lex_all("let x = 5;");
    let got: Vec<(TokenType, usize, usize)> =
        toks.iter().map(|t| (t.token_type, t.line_no, t.position)).collect();
    assert_eq!(
        got,
        vec![
            (TokenType::LET, 1, 3),
            (TokenType::IDENT("x"), 1, 5),
            (TokenType::EQ, 1, 6),
            (TokenType::INT(5), 1, 9),
            (TokenType::SEMICOLON, 1, 9),
            (TokenType::EOF, 1, 9),
        ]
    );
}

#[test]
fn two_character_operators_win() {
    assert_eq!(
        kinds("+= ++ + -> -= -- - ** *= * /= / %= % == = != ! <= < >= > ;"),
        vec![
            TokenType::PLUSEQ,
            TokenType::PLUSPLUS,
            TokenType::PLUS,
            TokenType::ARROW,
            TokenType::MINUSEQ,
            TokenType::MINUSMINUS,
            TokenType::MINUS,
            TokenType::POW,
            TokenType::MULEQ,
            TokenType::ASTERISK,
            TokenType::DIVEQ,
            TokenType::SLASH,
            TokenType::MODEQ,
            TokenType::MODULUS,
            TokenType::EE,
            TokenType::EQ,
            TokenType::NE,
            TokenType::BANG,
            TokenType::LTE,
            TokenType::LT,
            TokenType::GTE,
            TokenType::GT,
            TokenType::SEMICOLON,
            TokenType::EOF,
        ]
    );
}

#[test]
fn delimiters() {
    assert_eq!(
        kinds("[](){}:;,"),
        vec![
            TokenType::LBRACKET,
            TokenType::RBRACKET,
            TokenType::LPAREN,
            TokenType::RPAREN,
            TokenType::LBRACE,
            TokenType::RBRACE,
            TokenType::COLON,
            TokenType::SEMICOLON,
            TokenType::COMMA,
            TokenType::EOF,
        ]
    );
}

#[test]
fn keywords_and_types() {
    assert_eq!(
        kinds("let def return if else true false while for continue break int str x ;"),
        vec![
            TokenType::LET,
            TokenType::DEF,
            TokenType::RETURN,
            TokenType::IF,
            TokenType::ELSE,
            TokenType::TRUE,
            TokenType::FALSE,
            TokenType::WHILE,
            TokenType::FOR,
            TokenType::CONTINUE,
            TokenType::BREAK,
            TokenType::TYPE("int"),
            TokenType::TYPE("str"),
            TokenType::IDENT("x"),
            TokenType::SEMICOLON,
            TokenType::EOF,
        ]
    );
}

#[test]
fn word_at_end_of_source_loses_its_last_character() {
    let toks = lex_all("abc");
    assert_eq!(toks[0].token_type, TokenType::IDENT("ab"));
    assert_eq!(toks[0].position, 2);
    assert_eq!(toks[1].token_type, TokenType::EOF);
    assert_eq!(toks[1].position, 2);
}

#[test]
fn numbers() {
    assert_eq!(kinds("42 ;"), vec![TokenType::INT(42), TokenType::SEMICOLON, TokenType::EOF]);
    assert_eq!(kinds("3.25 ;"), vec![TokenType::FLOAT("3.25"), TokenType::SEMICOLON, TokenType::EOF]);
    assert_eq!(kinds("007 ;"), vec![TokenType::INT(7), TokenType::SEMICOLON, TokenType::EOF]);
    // i32::MAX fits; one more does not parse and becomes 0.
    assert_eq!(kinds("2147483647 ;")[0], TokenType::INT(2147483647));
    assert_eq!(kinds("2147483648 ;")[0], TokenType::INT(0));
    assert_eq!(kinds("99999999999999999999 ;")[0], TokenType::INT(0));
}

#[test]
fn second_dot_makes_an_illegal_token() {
    let toks = lex_all("1.2.3 ");
    assert_eq!(toks[0].token_type, TokenType::ILLEGAL("1.2."));
    assert_eq!(toks[0].position, 4);
    assert_eq!(toks[1].token_type, TokenType::INT(3));
    assert_eq!(toks[2].token_type, TokenType::EOF);
}

#[test]
fn number_at_end_of_source_loses_its_last_digit() {
    assert_eq!(kinds("12"), vec![TokenType::INT(1), TokenType::EOF]);
    assert_eq!(kinds("7"), vec![TokenType::INT(0), TokenType::EOF]);
    assert_eq!(kinds("1.5"), vec![TokenType::FLOAT("1."), TokenType::EOF]);
}

#[test]
fn strings() {
    let toks = lex_all("\"hi there\" ;");
    assert_eq!(toks[0].token_type, TokenType::STRING("hi there"));
    assert_eq!(toks[0].position, 9);
    assert_eq!(toks[1].token_type, TokenType::SEMICOLON);
    // An unterminated string runs to the end, short of the last character.
    assert_eq!(kinds("\"abc"), vec![TokenType::STRING("ab"), TokenType::EOF]);
}

#[test]
fn comments_and_lines() {
    let toks = lex_all("// note\nx // more\n\ny;");
    let got: Vec<(TokenType, usize)> = toks.iter().map(|t| (t.token_type, t.line_no)).collect();
    assert_eq!(
        got,
        vec![
            (TokenType::IDENT("x"), 2),
            (TokenType::IDENT("y"), 4),
            (TokenType::SEMICOLON, 4),
            (TokenType::EOF, 4),
        ]
    );
}

#[test]
fn illegal_character() {
    let toks = lex_all("@ ;");
    assert_eq!(toks[0].token_type, TokenType::ILLEGAL("@"));
    assert_eq!(toks[0].position, 0);
}

#[test]
fn unicode_words_and_offsets() {
    // 'é' is alphabetic: it starts a word; offsets count bytes.
    let toks = lex_all("é1 + €;");
    assert_eq!(toks[0].token_type, TokenType::IDENT("é1"));
    assert_eq!(toks[0].position, 3);
    assert_eq!(toks[1].token_type, TokenType::PLUS);
    assert_eq!(toks[1].position, 4);
    // '€' is neither alphabetic nor a digit.
    assert_eq!(toks[2].token_type, TokenType::ILLEGAL("€"));
    assert_eq!(toks[2].position, 6);
    assert_eq!(toks[3].token_type, TokenType::SEMICOLON);
    assert_eq!(toks[3].position, 9);
}

#[test]
fn unicode_digits_continue_words() {
    // '٣' is numeric, so alphanumeric: it continues a word.
    assert_eq!(kinds("a٣b ;")[0], TokenType::IDENT("a٣b"));
}

#[test]
fn eof_repeats() {
    let mut l = Lexer::new("x; ");
    let mut last = l.next_token();
    while last.token_type != TokenType::EOF {
        last = l.next_token();
    }
    for _ in 0..3 {
        let again = l.next_token();
        assert_eq!(again.token_type, TokenType::EOF);
        assert_eq!(again.line_no, last.line_no);
        assert_eq!(again.position, last.position);
    }
}

#[test]
fn stream_is_bounded_and_ordered() {
    let src = "let a: int = 1 + 2 * 3;\nwhile a < 10 { a += 1; }\n";
    let toks = lex_all(src);
    assert!(toks.len() <= src.chars().count() + 1);
    for w in toks.windows(2) {
        assert!(w[0].line_no <= w[1].line_no);
        assert!(w[0].position <= w[1].position);
    }
}

#[test]
fn empty_source() {
    let toks = lex_all("");
    assert_eq!(toks.len(), 1);
    assert_eq!(toks[0].token_type, TokenType::EOF);
    assert_eq!(toks[0].line_no, 1);
    assert_eq!(toks[0].position, 0);
}

#[test]
fn read_identifier_reads_a_word() {
    let mut l = Lexer::new("foo_1 bar");
    assert_eq!(l.read_identifier(), "foo_1");
    let t = l.next_token();
    assert_eq!(t.token_type, TokenType::IDENT("ba"));
}

#[test]
fn whole_source_check() {
    assert!(source_lexes("let s: str = \"x\";"));
    assert!(source_lexes(""));
    assert!(source_lexes("// \""));
    assert!(!source_lexes("let s: str = \""));
    assert!(!source_lexes("x;\n  \""));
}

#[test]
fn next_token_ok_reports_the_trailing_quote() {
    let mut l = Lexer::new("a \"");
    assert!(l.next_token_ok());
    let _ = l.next_token();
    assert!(!l.next_token_ok());
}

use toylang::lexer::{classify_start, StartClass};

#[test]
fn start_classes() {
    assert_eq!(classify_start('a', true), StartClass::Word);
    assert_eq!(classify_start('_', false), StartClass::Word);
    assert_eq!(classify_start('7', false), StartClass::Number);
    assert_eq!(classify_start('7', true), StartClass::Word);
    assert_eq!(classify_start('^', false), StartClass::Illegal);
    assert_eq!(classify_start('💝', false), StartClass::Illegal);
}

#[test]
fn operator_literals_lex_back() {
    let ops = [
        TokenType::PLUS,
        TokenType::MINUS,
        TokenType::ASTERISK,
        TokenType::SLASH,
        TokenType::MODULUS,
        TokenType::BANG,
        TokenType::EQ,
        TokenType::PLUSEQ,
        TokenType::MINUSEQ,
        TokenType::MULEQ,
        TokenType::DIVEQ,
        TokenType::MODEQ,
        TokenType::PLUSPLUS,
        TokenType::MINUSMINUS,
        TokenType::LT,
        TokenType::LTE,
        TokenType::GT,
        TokenType::GTE,
        TokenType::EE,
        TokenType::NE,
    ];
    for op in ops {
        let lit = op.get_literal();
        assert_eq!(Lexer::new(lit).next_token().token_type, op);
    }
    assert_eq!(Lexer::new(TokenType::POW.get_literal()).next_token().token_type, TokenType::ILLEGAL("^"));
}
