use klurigt::ast::{Block, Condition, CompOp, Expression, Program, Statement, Type};
use klurigt::codegen::generate_rust;
use klurigt::lexer::Lexer;
use klurigt::parser::Parser;

fn transpile(input: &str) -> String {
    let tokens = Lexer::new(input.to_string()).tokenize();
    let program = Parser::new(tokens).parse_program().unwrap();
    generate_rust(&program)
}

#[test]
fn declaration_output_exact() {
    let out = transpile("make x: number be 42 STOP");
    assert_eq!(out, "fn main() {\nlet mut x: usize = 42;\n}\n");
}

#[test]
fn string_declaration_output_exact() {
    let out = transpile("make s: string be \"hi\" STOP");
    assert_eq!(out, "fn main() {\nlet mut s: String = \"hi\";\n}\n");
}

#[test]
fn assignment_output_parenthesizes_addition() {
    let out = transpile("x be a+b+c STOP");
    assert_eq!(out, "fn main() {\nx = (a + (b + c));\n}\n");
}

#[test]
fn print_output_exact() {
    let out = transpile("SCREAM(x)QUIET");
    assert_eq!(out, "fn main() {\nprintln!(\"{}\", x);\n}\n");
}

#[test]
fn conditional_output_exact() {
    let out = transpile("maybe(x tinyerthan y){ SCREAM(x)QUIET } ENDMAYBE");
    assert_eq!(
        out,
        "fn main() {\nif (x < y) {\nprintln!(\"{}\", x);\n}\n}\n"
    );
}

#[test]
fn conditional_with_else_output_exact() {
    let out = transpile(
        "maybe(x notalmostthesamethesame y){ SCREAM(x)QUIET } letsdothisinstead { SCREAM(y)QUIET } ENDMAYBE",
    );
    assert_eq!(
        out,
        "fn main() {\nif (x == y) {\nprintln!(\"{}\", x);\n} else {\nprintln!(\"{}\", y);\n}\n}\n"
    );
}

#[test]
fn while_output_exact() {
    let out = transpile("keeponswimming(a oppositeoftinyerthan b){ a be a+1 STOP } STOPSWIMMING");
    assert_eq!(out, "fn main() {\nwhile (a > b) {\na = (a + 1);\n}\n}\n");
}

#[test]
fn negative_number_emitted_with_sign() {
    let program = Program {
        statements: vec![Statement::Print {
            value: Expression::Number(-5),
        }],
    };
    assert_eq!(
        generate_rust(&program),
        "fn main() {\nprintln!(\"{}\", -5);\n}\n"
    );
}

#[test]
fn smallest_number_emitted_exactly() {
    let program = Program {
        statements: vec![Statement::Print {
            value: Expression::Number(i64::MIN),
        }],
    };
    assert_eq!(
        generate_rust(&program),
        "fn main() {\nprintln!(\"{}\", -9223372036854775808);\n}\n"
    );
}

#[test]
fn generation_is_idempotent() {
    let tokens = Lexer::new(
        "make a: number be 0 STOP keeponswimming(a tinyerthan b){ a be a+1 STOP } STOPSWIMMING"
            .to_string(),
    )
    .tokenize();
    let program = Parser::new(tokens).parse_program().unwrap();
    let first = generate_rust(&program);
    let second = generate_rust(&program);
    assert_eq!(first, second);
}

#[test]
fn output_is_well_formed_in_target_grammar() {
    let out = transpile(
        "make a: number be 0 STOP \
         make b: number be 1 STOP \
         keeponswimming(a tinyerthan b){ \
             maybe(a notalmostthesamethesame b){ SCREAM(a)QUIET } ENDMAYBE \
             a be a+1 STOP \
         } STOPSWIMMING \
         SCREAM(b)QUIET",
    );
    let opens = out.chars().filter(|c| *c == '{').count();
    let closes = out.chars().filter(|c| *c == '}').count();
    assert_eq!(opens, closes);
    assert_eq!(out.matches("fn main() {").count(), 1);
    assert!(out.starts_with("fn main() {\n"));
    assert!(out.ends_with("}\n"));
    for line in out.lines() {
        assert!(!line.is_empty());
    }
}

#[test]
fn generation_total_over_hand_built_tree() {
    let program = Program {
        statements: vec![
            Statement::VarDeclaration {
                name: "n".to_string(),
                var_type: Type::Number,
                value: Expression::Number(7),
            },
            Statement::If {
                condition: Condition {
                    left: Expression::Identifier("n".to_string()),
                    op: CompOp::GreaterThan,
                    right: Expression::Number(0),
                },
                then_block: Block {
                    statements: vec![Statement::Assignment {
                        name: "n".to_string(),
                        value: Expression::Number(0),
                    }],
                },
                else_block: None,
            },
        ],
    };
    let out = generate_rust(&program);
    assert_eq!(
        out,
        "fn main() {\nlet mut n: usize = 7;\nif (n > 0) {\nn = 0;\n}\n}\n"
    );
}
