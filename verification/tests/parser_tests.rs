use klurigt::ast::{ArithmeticOp, Expression, Statement, Type};
use klurigt::lexer::Lexer;
use klurigt::parser::Parser;

fn parse(input: &str) -> Result<klurigt::ast::Program, String> {
    let tokens = Lexer::new(input.to_string()).tokenize();
    Parser::new(tokens).parse_program()
}

#[test]
fn test_valid_code() {
    let input = "make a: number be 5 STOP";
    let mut lexer = Lexer::new(input.to_string());
    let tokens: Vec<_> = lexer.tokenize();
    let mut parser = Parser::new(tokens);

    let program = parser.parse_program();
    assert!(program.is_ok());
}

#[test]
fn test_illegal_code() {
    let input = "make a: 5 be 5 STOP";
    let mut lexer = Lexer::new(input.to_string());
    let tokens: Vec<_> = lexer.tokenize();
    let mut parser = Parser::new(tokens);

    let program = parser.parse_program();
    assert!(program.is_err());
}

#[test]
fn empty_token_sequence_fails() {
    let mut parser = Parser::new(Vec::new());
    assert!(parser.parse_program().is_err());
}

#[test]
fn whitespace_only_program_fails() {
    assert!(parse("   \n\t ").is_err());
}

#[test]
fn simple_declaration_tree() {
    let program = parse("make x: number be 42 STOP").unwrap();
    assert_eq!(program.statements.len(), 1);
    assert_eq!(
        program.statements[0],
        Statement::VarDeclaration {
            name: "x".to_string(),
            var_type: Type::Number,
            value: Expression::Number(42),
        }
    );
}

#[test]
fn string_declaration_tree() {
    let program = parse("make s: string be \"hi\" STOP").unwrap();
    assert_eq!(
        program.statements[0],
        Statement::VarDeclaration {
            name: "s".to_string(),
            var_type: Type::String,
            value: Expression::StringLiteral("hi".to_string()),
        }
    );
}

#[test]
fn numeric_type_with_string_literal_fails() {
    assert!(parse("make s: number be \"hi\" STOP").is_err());
}

#[test]
fn string_type_with_number_literal_fails() {
    assert!(parse("make s: string be 42 STOP").is_err());
}

#[test]
fn declaration_with_identifier_initializer_fails() {
    assert!(parse("make x: number be y STOP").is_err());
}

#[test]
fn declaration_with_arithmetic_initializer_fails() {
    assert!(parse("make x: number be 1+2 STOP").is_err());
}

#[test]
fn addition_is_right_associative() {
    let program = parse("x be a+b+c STOP").unwrap();
    assert_eq!(
        program.statements[0],
        Statement::Assignment {
            name: "x".to_string(),
            value: Expression::ArithmeticOp {
                left: Box::new(Expression::Identifier("a".to_string())),
                op: ArithmeticOp::Add,
                right: Box::new(Expression::ArithmeticOp {
                    left: Box::new(Expression::Identifier("b".to_string())),
                    op: ArithmeticOp::Add,
                    right: Box::new(Expression::Identifier("c".to_string())),
                }),
            },
        }
    );
}

#[test]
fn conditional_without_else() {
    let program = parse("maybe(x tinyerthan y){ SCREAM(x)QUIET } ENDMAYBE").unwrap();
    match &program.statements[0] {
        Statement::If {
            condition: _,
            then_block,
            else_block,
        } => {
            assert_eq!(then_block.statements.len(), 1);
            assert!(else_block.is_none());
        }
        other => panic!("expected a conditional, got {:?}", other),
    }
}

#[test]
fn conditional_with_else() {
    let program = parse(
        "maybe(x tinyerthan y){ SCREAM(x)QUIET } letsdothisinstead { SCREAM(y)QUIET } ENDMAYBE",
    )
    .unwrap();
    match &program.statements[0] {
        Statement::If {
            condition: _,
            then_block: _,
            else_block,
        } => {
            let else_block = else_block.as_ref().expect("expected a populated else-block");
            assert_eq!(else_block.statements.len(), 1);
        }
        other => panic!("expected a conditional, got {:?}", other),
    }
}

#[test]
fn while_loop_parses() {
    let program = parse("keeponswimming(count tinyerthan depth){ count be count+1 STOP } STOPSWIMMING")
        .unwrap();
    match &program.statements[0] {
        Statement::While { condition: _, body } => {
            assert_eq!(body.statements.len(), 1);
        }
        other => panic!("expected a loop, got {:?}", other),
    }
}

#[test]
fn missing_terminator_fails() {
    assert!(parse("make a: number be 5").is_err());
}

#[test]
fn numeric_literal_too_large_fails() {
    assert!(parse("x be 99999999999999999999 STOP").is_err());
}

#[test]
fn largest_numeric_literal_parses() {
    let program = parse("x be 9223372036854775807 STOP").unwrap();
    assert_eq!(
        program.statements[0],
        Statement::Assignment {
            name: "x".to_string(),
            value: Expression::Number(i64::MAX),
        }
    );
}

#[test]
fn expect_failure_names_both_tokens() {
    let err = parse("make x number be 1 STOP").unwrap_err();
    assert_eq!(err, "expected :, but found number");
}

#[test]
fn expect_failure_at_end_of_input_says_so() {
    let err = parse("make a: number be 5").unwrap_err();
    assert_eq!(err, "expected STOP, but there is no token");
}
