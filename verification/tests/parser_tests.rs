use toylang::ast::{
    ArrayLiteral, AssignStatement, BlockStatement, CallExpression, Expression, ForStatement,
    FunctionParameter, FunctionStatement, IfBranch, IfExpression, IndexExpression,
    InfixExpression, LetStatement, PostfixExpression, PrefixExpression, Program,
    ReturnStatement, Statement, WhileStatement,
};
use toylang::lexer::Lexer;
use toylang::parser::{parse_source, Expected, ParseError, Parser};
use toylang::token::TokenType;

fn parse(src: &str) -> (Program<'_>, Vec<ParseError<'_>>) {
    let mut p = Parser::new(Lexer::new(src));
    let prog = p.parse_program();
    (prog, p.errors)
}

fn ident(s: &str) -> Expression<'_> {
    Expression::Identifier(s)
}

fn infix<'a>(l: Expression<'a>, op: &'a str, r: Expression<'a>) -> Expression<'a> {
    Expression::Infix(Box::new(InfixExpression { left: l, operator: op, right: r }))
}

#[test]
fn let_with_value() {
    let (prog, errs) = parse("let x: int = 5;");
    assert!(errs.is_empty());
    assert_eq!(
        prog.statements,
        vec![Statement::Let(LetStatement {
            name: "x",
            value_type: "int",
            array_size: None,
            value: Expression::Integer(5),
        })]
    );
}

#[test]
fn let_with_array_size() {
    let (prog, errs) = parse("let a: int[3] = [1, 2, 3];");
    assert!(errs.is_empty());
    assert_eq!(
        prog.statements,
        vec![Statement::Let(LetStatement {
            name: "a",
            value_type: "int",
            array_size: Some(vec![Expression::Integer(3)]),
            value: Expression::Array(ArrayLiteral {
                elements: vec![Expression::Integer(1), Expression::Integer(2), Expression::Integer(3)],
                size: 3,
            }),
        })]
    );
}

#[test]
fn precedence_and_grouping() {
    let (prog, errs) = parse("1 + 2 * 3; (1 + 2) * 3; -a ** b;");
    assert!(errs.is_empty());
    assert_eq!(
        prog.statements,
        vec![
            Statement::Expression(infix(
                Expression::Integer(1),
                "+",
                infix(Expression::Integer(2), "*", Expression::Integer(3))
            )),
            Statement::Expression(infix(
                infix(Expression::Integer(1), "+", Expression::Integer(2)),
                "*",
                Expression::Integer(3)
            )),
            Statement::Expression(infix(
                Expression::Prefix(Box::new(PrefixExpression { operator: "-", right: ident("a") })),
                "^",
                ident("b")
            )),
        ]
    );
}

#[test]
fn comparisons_are_left_associative() {
    let (prog, errs) = parse("a < b == c;");
    assert!(errs.is_empty());
    assert_eq!(
        prog.statements,
        vec![Statement::Expression(infix(infix(ident("a"), "<", ident("b")), "==", ident("c")))]
    );
}

#[test]
fn calls_indexes_postfix_and_literals() {
    let (prog, errs) = parse("f(1, \"s\", true)[0]++; g(); !false;");
    assert!(errs.is_empty());
    let call = Expression::Call(Box::new(CallExpression {
        function: ident("f"),
        arguments: vec![Expression::Integer(1), Expression::String("s"), Expression::Boolean(true)],
    }));
    let index = Expression::Index(Box::new(IndexExpression { left: call, index: Expression::Integer(0) }));
    let post = Expression::Postfix(Box::new(PostfixExpression { operator: "++", left: index }));
    assert_eq!(
        prog.statements,
        vec![
            Statement::Expression(post),
            Statement::Expression(Expression::Call(Box::new(CallExpression {
                function: ident("g"),
                arguments: vec![],
            }))),
            Statement::Expression(Expression::Prefix(Box::new(PrefixExpression {
                operator: "!",
                right: Expression::Boolean(false),
            }))),
        ]
    );
}

#[test]
fn float_literal_keeps_its_text() {
    let (prog, errs) = parse("2.50;");
    assert!(errs.is_empty());
    assert_eq!(prog.statements, vec![Statement::Expression(Expression::Float("2.50"))]);
}

#[test]
fn assignments() {
    let (prog, errs) = parse("x = 1; y += 2; z -= 3; a *= 4; b /= 5; c %= 6;");
    assert!(errs.is_empty());
    let ops: Vec<&str> = prog
        .statements
        .iter()
        .map(|s| match s {
            Statement::Assign(AssignStatement { operator, .. }) => *operator,
            _ => panic!("not an assignment"),
        })
        .collect();
    assert_eq!(ops, vec!["=", "+=", "-=", "*=", "/=", "%="]);
    assert_eq!(
        prog.statements[0],
        Statement::Assign(AssignStatement { ident: ident("x"), operator: "=", rvalue: Expression::Integer(1) })
    );
}

#[test]
fn function_definition() {
    let (prog, errs) = parse("def add(a: int, b: int) -> int { return a + b; }");
    assert!(errs.is_empty());
    assert_eq!(
        prog.statements,
        vec![Statement::Function(FunctionStatement {
            name: "add",
            parameters: vec![
                FunctionParameter { name: "a", value_type: "int", array_size: None },
                FunctionParameter { name: "b", value_type: "int", array_size: None },
            ],
            return_type: "int",
            body: BlockStatement {
                statements: vec![Statement::Return(ReturnStatement {
                    return_value: infix(ident("a"), "+", ident("b")),
                })],
            },
        })]
    );
}

#[test]
fn function_without_parameters_and_void_return() {
    let (prog, errs) = parse("def f() -> void { return; }");
    assert!(errs.is_empty());
    assert_eq!(
        prog.statements,
        vec![Statement::Function(FunctionStatement {
            name: "f",
            parameters: vec![],
            return_type: "void",
            body: BlockStatement {
                statements: vec![Statement::Return(ReturnStatement { return_value: Expression::Void })],
            },
        })]
    );
}

#[test]
fn while_with_break_and_continue() {
    let (prog, errs) = parse("while x < 3 { x += 1; continue; break; }");
    assert!(errs.is_empty());
    assert_eq!(
        prog.statements,
        vec![Statement::While(WhileStatement {
            condition: infix(ident("x"), "<", Expression::Integer(3)),
            body: BlockStatement {
                statements: vec![
                    Statement::Assign(AssignStatement {
                        ident: ident("x"),
                        operator: "+=",
                        rvalue: Expression::Integer(1),
                    }),
                    Statement::Continue,
                    Statement::Break,
                ],
            },
        })]
    );
}

#[test]
fn for_loop() {
    let (prog, errs) = parse("for let i: int = 0; i < 10; i++ { f(i); }");
    assert!(errs.is_empty());
    assert_eq!(
        prog.statements,
        vec![Statement::For(ForStatement {
            var_declaration: LetStatement {
                name: "i",
                value_type: "int",
                array_size: None,
                value: Expression::Integer(0),
            },
            condition: infix(ident("i"), "<", Expression::Integer(10)),
            action: Expression::Postfix(Box::new(PostfixExpression { operator: "++", left: ident("i") })),
            body: BlockStatement {
                statements: vec![Statement::Expression(Expression::Call(Box::new(CallExpression {
                    function: ident("f"),
                    arguments: vec![ident("i")],
                })))],
            },
        })]
    );
}

#[test]
fn if_else_if_else() {
    let (prog, errs) = parse("if a { 1; } else if b { 2; } else { 3; }");
    assert!(errs.is_empty());
    assert_eq!(
        prog.statements,
        vec![Statement::Expression(Expression::If(Box::new(IfExpression {
            branches: vec![
                IfBranch {
                    condition: ident("a"),
                    consequence: BlockStatement {
                        statements: vec![Statement::Expression(Expression::Integer(1))],
                    },
                },
                IfBranch {
                    condition: ident("b"),
                    consequence: BlockStatement {
                        statements: vec![Statement::Expression(Expression::Integer(2))],
                    },
                },
            ],
            alternative: Some(BlockStatement {
                statements: vec![Statement::Expression(Expression::Integer(3))],
            }),
        })))]
    );
}

#[test]
fn if_without_else() {
    let (prog, errs) = parse("if x { }");
    assert!(errs.is_empty());
    assert_eq!(
        prog.statements,
        vec![Statement::Expression(Expression::If(Box::new(IfExpression {
            branches: vec![IfBranch { condition: ident("x"), consequence: BlockStatement { statements: vec![] } }],
            alternative: None,
        })))]
    );
}

#[test]
fn error_no_prefix() {
    let (prog, errs) = parse(") ;");
    assert_eq!(errs, vec![ParseError::NoPrefix(TokenType::RPAREN), ParseError::NoPrefix(TokenType::SEMICOLON)]);
    assert!(prog.statements.is_empty());
}

#[test]
fn error_unexpected_token() {
    let (prog, errs) = parse("let x int = 5;");
    assert_eq!(
        errs[0],
        ParseError::UnexpectedToken {
            line: 1,
            col: 9,
            expected: TokenType::COLON,
            got: TokenType::TYPE("int"),
        }
    );
    // Parsing resumes after the failed statement.
    assert!(!prog.statements.is_empty());
}

#[test]
fn error_missing_identifier_and_type() {
    let (_, errs) = parse("let 5");
    assert_eq!(errs[0], ParseError::Missing { expected: Expected::Identifier, got: TokenType::INT(0) });
    let (_, errs) = parse("let x: y = 1;");
    assert_eq!(errs[0], ParseError::Missing { expected: Expected::Type, got: TokenType::IDENT("y") });
}

#[test]
fn error_missing_function_name_and_return_type() {
    let (_, errs) = parse("def (");
    assert_eq!(errs[0], ParseError::Missing { expected: Expected::FunctionName, got: TokenType::LPAREN });
    let (_, errs) = parse("def f() -> x { }");
    assert_eq!(errs[0], ParseError::Missing { expected: Expected::ReturnType, got: TokenType::IDENT("x") });
}

#[test]
fn bad_parameter_fails_without_an_error() {
    let (prog, errs) = parse("def f(1) -> int { }");
    // The function statement is dropped; the rest of the input is parsed
    // as it comes, so errors come only from what follows.
    assert!(!prog.statements.iter().any(|s| matches!(s, Statement::Function(_))));
    assert!(errs.iter().all(|e| !matches!(e, ParseError::Missing { expected: Expected::FunctionName, .. })));
}

#[test]
fn empty_source_parses_to_nothing() {
    let (prog, errs) = parse("");
    assert!(prog.statements.is_empty());
    assert!(errs.is_empty());
}

#[test]
fn parse_source_matches_a_parser_run() {
    let src = "let x: int = 1 + 2; y = x * 3;";
    let (prog, errs) = parse_source(src).unwrap();
    let (prog2, errs2) = parse(src);
    assert_eq!(prog, prog2);
    assert_eq!(errs, errs2);
    assert_eq!(prog.statements.len(), 2);
    assert!(errs.is_empty());
}

#[test]
fn parse_source_reports_errors() {
    let (prog, errs) = parse_source(")").unwrap();
    assert!(prog.statements.is_empty());
    assert_eq!(errs, vec![ParseError::NoPrefix(TokenType::RPAREN)]);
}

#[test]
fn parse_source_refuses_a_trailing_quote() {
    assert!(parse_source("let s = \"").is_none());
    assert!(parse_source("\"").is_none());
}

#[test]
fn new_parser_reads_only_two_tokens() {
    let p = Parser::new(Lexer::new("a b c \""));
    assert!(p.errors.is_empty());
}

#[test]
fn if_ends_on_its_last_block() {
    let (prog, errs) = parse("if a { b } c;");
    assert!(errs.is_empty());
    assert_eq!(prog.statements.len(), 2);
    match &prog.statements[0] {
        Statement::Expression(Expression::If(e)) => {
            assert_eq!(e.branches.len(), 1);
            assert!(e.alternative.is_none());
        }
        other => panic!("unexpected {:?}", other),
    }
    assert_eq!(prog.statements[1], Statement::Expression(ident("c")));
}

#[test]
fn else_after_an_else_block_is_left_behind() {
    let (prog, errs) = parse("if a { } else { } else { }");
    match &prog.statements[0] {
        Statement::Expression(Expression::If(e)) => {
            assert_eq!(e.branches.len(), 1);
            assert!(e.alternative.is_some());
        }
        other => panic!("unexpected {:?}", other),
    }
    assert_eq!(errs[0], ParseError::NoPrefix(TokenType::ELSE));
}

#[test]
fn expression_stops_before_a_looser_operator() {
    let (prog, errs) = parse("-a * b;");
    assert!(errs.is_empty());
    let neg = Expression::Prefix(Box::new(PrefixExpression { operator: "-", right: ident("a") }));
    assert_eq!(prog.statements, vec![Statement::Expression(infix(neg, "*", ident("b")))]);
}
