use toylang::parser::Precedence;
use toylang::token::TokenType;

#[test]
fn lookup_keywords() {
    assert_eq!(TokenType::lookup_ident("let"), TokenType::LET);
    assert_eq!(TokenType::lookup_ident("def"), TokenType::DEF);
    assert_eq!(TokenType::lookup_ident("return"), TokenType::RETURN);
    assert_eq!(TokenType::lookup_ident("if"), TokenType::IF);
    assert_eq!(TokenType::lookup_ident("else"), TokenType::ELSE);
    assert_eq!(TokenType::lookup_ident("true"), TokenType::TRUE);
    assert_eq!(TokenType::lookup_ident("false"), TokenType::FALSE);
    assert_eq!(TokenType::lookup_ident("while"), TokenType::WHILE);
    assert_eq!(TokenType::lookup_ident("for"), TokenType::FOR);
    assert_eq!(TokenType::lookup_ident("continue"), TokenType::CONTINUE);
    assert_eq!(TokenType::lookup_ident("break"), TokenType::BREAK);
}

#[test]
fn lookup_types_and_identifiers() {
    for ty in ["int", "float", "str", "bool", "void", "int[]", "float[]", "str[]", "bool[]", "void[]"] {
        assert_eq!(TokenType::lookup_ident(ty), TokenType::TYPE(ty));
    }
    for id in ["x", "lets", "Int", "int[", "[]", "intx[]", "int[][]", ""] {
        assert_eq!(TokenType::lookup_ident(id), TokenType::IDENT(id));
    }
}

#[test]
fn literal_round_trip() {
    for w in ["x", "count_2", "int", "bool[]"] {
        assert_eq!(TokenType::lookup_ident(w).get_literal(), w);
    }
    for w in ["let", "while", "break"] {
        assert_eq!(TokenType::lookup_ident(w).get_literal(), "");
    }
}

#[test]
fn operator_literals() {
    let pairs = [
        (TokenType::PLUS, "+"),
        (TokenType::MINUS, "-"),
        (TokenType::ASTERISK, "*"),
        (TokenType::SLASH, "/"),
        (TokenType::MODULUS, "%"),
        (TokenType::POW, "^"),
        (TokenType::BANG, "!"),
        (TokenType::EQ, "="),
        (TokenType::PLUSEQ, "+="),
        (TokenType::MINUSEQ, "-="),
        (TokenType::MULEQ, "*="),
        (TokenType::DIVEQ, "/="),
        (TokenType::MODEQ, "%="),
        (TokenType::PLUSPLUS, "++"),
        (TokenType::MINUSMINUS, "--"),
        (TokenType::LT, "<"),
        (TokenType::LTE, "<="),
        (TokenType::GT, ">"),
        (TokenType::GTE, ">="),
        (TokenType::EE, "=="),
        (TokenType::NE, "!="),
        (TokenType::IDENT("abc"), "abc"),
        (TokenType::TYPE("int"), "int"),
        (TokenType::STRING("s"), ""),
        (TokenType::INT(3), ""),
        (TokenType::LET, ""),
        (TokenType::EOF, ""),
    ];
    for (t, lit) in pairs {
        assert_eq!(t.get_literal(), lit);
    }
}

#[test]
fn precedences() {
    assert_eq!(TokenType::PLUS.precedence(), Precedence::SUM);
    assert_eq!(TokenType::MINUS.precedence(), Precedence::SUM);
    assert_eq!(TokenType::ASTERISK.precedence(), Precedence::PRODUCT);
    assert_eq!(TokenType::SLASH.precedence(), Precedence::PRODUCT);
    assert_eq!(TokenType::MODULUS.precedence(), Precedence::PRODUCT);
    assert_eq!(TokenType::POW.precedence(), Precedence::EXPONENT);
    assert_eq!(TokenType::EE.precedence(), Precedence::EQUALS);
    assert_eq!(TokenType::NE.precedence(), Precedence::EQUALS);
    assert_eq!(TokenType::LT.precedence(), Precedence::LESSGREATER);
    assert_eq!(TokenType::GTE.precedence(), Precedence::LESSGREATER);
    assert_eq!(TokenType::LPAREN.precedence(), Precedence::CALL);
    assert_eq!(TokenType::LBRACKET.precedence(), Precedence::INDEX);
    assert_eq!(TokenType::PLUSPLUS.precedence(), Precedence::INDEX);
    assert_eq!(TokenType::MINUSMINUS.precedence(), Precedence::INDEX);
    assert_eq!(TokenType::SEMICOLON.precedence(), Precedence::LOWEST);
    assert_eq!(TokenType::IDENT("x").precedence(), Precedence::LOWEST);
    assert!(Precedence::LOWEST < Precedence::EQUALS);
    assert!(Precedence::EQUALS < Precedence::LESSGREATER);
    assert!(Precedence::SUM < Precedence::PRODUCT);
    assert!(Precedence::PREFIX < Precedence::CALL);
    assert!(Precedence::CALL < Precedence::INDEX);
}

#[test]
fn same_kind_ignores_payloads() {
    assert!(TokenType::IDENT("a").same_kind(&TokenType::IDENT("b")));
    assert!(TokenType::INT(1).same_kind(&TokenType::INT(2)));
    assert!(!TokenType::IDENT("a").same_kind(&TokenType::TYPE("a")));
    assert!(TokenType::RPAREN.same_kind(&TokenType::RPAREN));
    assert!(!TokenType::RPAREN.same_kind(&TokenType::RBRACKET));
}
