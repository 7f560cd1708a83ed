//! Code generation: walks a syntax tree and emits equivalent source text in
//! the target systems language, one statement per line, the whole program
//! wrapped in a single entry-point block.
//!
//! Generation is total and deterministic: the emitted text is exactly the
//! sequence given by [`spec_program_text`], for every tree.

use vstd::prelude::*;
use vstd::string::StringExecFns;

use crate::ast::{ArithmeticOp, Block, CompOp, Condition, Expression, Program, Statement, Type};
use crate::numeral::{i64_text, int_text};
use crate::text::push_char;

verus! {

/// The target-language type name for a declared type.
pub open spec fn spec_type_text(ty: Type) -> Seq<char> {
    match ty {
        Type::Number => "usize"@,
        Type::String => "String"@,
    }
}

/// The target-language comparison operator.
pub open spec fn spec_comp_op_text(op: CompOp) -> Seq<char> {
    match op {
        CompOp::Equal => "=="@,
        CompOp::LessThan => "<"@,
        CompOp::GreaterThan => ">"@,
    }
}

/// The target-language arithmetic operator.
pub open spec fn spec_arith_op_text(op: ArithmeticOp) -> Seq<char> {
    match op {
        ArithmeticOp::Add => "+"@,
    }
}

/// The emitted text of an expression.  Arithmetic is fully parenthesized so
/// grouping is unambiguous whatever the target language's precedence; string
/// literals are emitted re-quoted.
pub open spec fn spec_expr_text(e: Expression) -> Seq<char>
    decreases e,
{
    match e {
        Expression::Number(n) => int_text(n as int),
        Expression::Identifier(id) => id@,
        Expression::StringLiteral(s) => seq!['"'] + s@ + seq!['"'],
        Expression::ArithmeticOp { left, op, right } => "("@ + spec_expr_text(*left) + " "@
            + spec_arith_op_text(op) + " "@ + spec_expr_text(*right) + ")"@,
    }
}

/// The emitted text of a condition: a fully parenthesized infix comparison.
pub open spec fn spec_cond_text(c: Condition) -> Seq<char> {
    "("@ + spec_expr_text(c.left) + " "@ + spec_comp_op_text(c.op) + " "@ + spec_expr_text(
        c.right,
    ) + ")"@
}

/// The emitted text of a variable declaration: a mutable local with an
/// explicit type annotation.
pub open spec fn spec_var_decl_text(name: Seq<char>, ty: Type, value: Expression) -> Seq<char> {
    "let mut "@ + name + ": "@ + spec_type_text(ty) + " = "@ + spec_expr_text(value) + ";\n"@
}

/// The emitted text of an assignment.
pub open spec fn spec_assignment_text(name: Seq<char>, value: Expression) -> Seq<char> {
    name + " = "@ + spec_expr_text(value) + ";\n"@
}

/// The emitted text of a print statement: a console-output line with one
/// format placeholder.
pub open spec fn spec_print_text(value: Expression) -> Seq<char> {
    "println!(\"{}\", "@ + spec_expr_text(value) + ");\n"@
}

/// The emitted text of one statement.
pub open spec fn spec_stmt_text(s: Statement) -> Seq<char>
    decreases s, 3int,
{
    match s {
        Statement::VarDeclaration { name, var_type, value } => spec_var_decl_text(
            name@,
            var_type,
            value,
        ),
        Statement::Assignment { name, value } => spec_assignment_text(name@, value),
        Statement::If { condition, then_block, else_block } => {
            let head = "if "@ + spec_cond_text(condition) + " {\n"@ + spec_block_text(then_block);
            match else_block {
                Some(eb) => head + "} else {\n"@ + spec_block_text(eb) + "}\n"@,
                None => head + "}\n"@,
            }
        },
        Statement::While { condition, body } => "while "@ + spec_cond_text(condition) + " {\n"@
            + spec_block_text(body) + "}\n"@,
        Statement::Print { value } => spec_print_text(value),
    }
}

/// The emitted text of a statement sequence, in order.
pub open spec fn spec_stmts_text(ss: Seq<Statement>) -> Seq<char>
    decreases ss, 1int,
{
    if ss.len() == 0 {
        Seq::empty()
    } else {
        spec_stmt_text(ss[0]) + spec_stmts_text(ss.drop_first())
    }
}

/// The emitted text of a block's statements.
pub open spec fn spec_block_text(b: Block) -> Seq<char>
    decreases b, 4int,
{
    spec_stmts_text(b.statements@)
}

/// The emitted text of a whole program: its statements inside a single
/// entry-point block.
pub open spec fn spec_program_text(p: Program) -> Seq<char> {
    "fn main() {\n"@ + spec_stmts_text(p.statements@) + "}\n"@
}

/// Emitting one more statement extends the emitted text of a run.
pub proof fn lemma_stmts_text_snoc(ss: Seq<Statement>, s: Statement)
    ensures
        spec_stmts_text(ss.push(s)) == spec_stmts_text(ss) + spec_stmt_text(s),
    decreases ss.len(),
{
    reveal_with_fuel(spec_stmts_text, 3);
    let s2 = ss.push(s);
    if ss.len() == 0 {
        assert(s2.drop_first() =~= Seq::<Statement>::empty());
        assert(spec_stmts_text(s2) =~= spec_stmts_text(ss) + spec_stmt_text(s));
    } else {
        lemma_stmts_text_snoc(ss.drop_first(), s);
        assert(s2.drop_first() =~= ss.drop_first().push(s));
        assert(spec_stmts_text(s2) =~= spec_stmts_text(ss) + spec_stmt_text(s));
    }
}

/// The target-language type name for a declared type.
fn emit_type_rs(var_type: &Type) -> (r: String)
    ensures
        r@ == spec_type_text(*var_type),
{
    match var_type {
        Type::Number => String::from_str("usize"),
        Type::String => String::from_str("String"),
    }
}

/// The target-language comparison operator.
fn emit_comp_op_rs(comp_op: &CompOp) -> (r: String)
    ensures
        r@ == spec_comp_op_text(*comp_op),
{
    match comp_op {
        CompOp::Equal => String::from_str("=="),
        CompOp::LessThan => String::from_str("<"),
        CompOp::GreaterThan => String::from_str(">"),
    }
}

/// The target-language arithmetic operator.
fn emit_arithmetic_op_rs(arithmetic_op: &ArithmeticOp) -> (r: String)
    ensures
        r@ == spec_arith_op_text(*arithmetic_op),
{
    match arithmetic_op {
        ArithmeticOp::Add => String::from_str("+"),
    }
}

/// The emitted text of an expression.
fn emit_expression_rs(expression: &Expression) -> (r: String)
    ensures
        r@ == spec_expr_text(*expression),
    decreases expression,
{
    match expression {
        Expression::Number(n) => i64_text(*n),
        Expression::Identifier(id) => id.clone(),
        Expression::StringLiteral(s) => {
            let mut out = String::new();
            push_char(&mut out, '"');
            out.append(s.as_str());
            push_char(&mut out, '"');
            proof {
                assert(out@ =~= spec_expr_text(*expression));
            }
            out
        },
        Expression::ArithmeticOp { left, op, right } => {
            let mut out = String::from_str("(");
            let left_text = emit_expression_rs(left);
            out.append(left_text.as_str());
            out.append(" ");
            let op_text = emit_arithmetic_op_rs(op);
            out.append(op_text.as_str());
            out.append(" ");
            let right_text = emit_expression_rs(right);
            out.append(right_text.as_str());
            out.append(")");
            proof {
                assert(out@ =~= spec_expr_text(*expression));
            }
            out
        },
    }
}

/// The emitted text of a condition.
fn emit_condition_rs(condition: &Condition) -> (r: String)
    ensures
        r@ == spec_cond_text(*condition),
{
    let mut out = String::from_str("(");
    let left_text = emit_expression_rs(&condition.left);
    out.append(left_text.as_str());
    out.append(" ");
    let op_text = emit_comp_op_rs(&condition.op);
    out.append(op_text.as_str());
    out.append(" ");
    let right_text = emit_expression_rs(&condition.right);
    out.append(right_text.as_str());
    out.append(")");
    proof {
        assert(out@ =~= spec_cond_text(*condition));
    }
    out
}

/// The emitted text of a block's statements, in order.
fn emit_block_rs(block: &Block) -> (r: String)
    ensures
        r@ == spec_block_text(*block),
    decreases block, 0int,
{
    let mut out = String::new();
    let n = block.statements.len();
    let mut i: usize = 0;
    while i < n
        invariant
            n == block.statements@.len(),
            0 <= i <= n,
            out@ == spec_stmts_text(block.statements@.subrange(0, i as int)),
        decreases n - i,
    {
        let stmt_text = emit_statement_rs(&block.statements[i]);
        out.append(stmt_text.as_str());
        proof {
            let prefix = block.statements@.subrange(0, i as int);
            lemma_stmts_text_snoc(prefix, block.statements@[i as int]);
            assert(prefix.push(block.statements@[i as int]) =~= block.statements@.subrange(
                0,
                i as int + 1,
            ));
        }
        i += 1;
    }
    proof {
        assert(block.statements@.subrange(0, n as int) =~= block.statements@);
    }
    out
}

/// The emitted text of a variable declaration.
fn emit_var_decl_rs(name: &str, var_type: &Type, value: &Expression) -> (r: String)
    ensures
        r@ == spec_var_decl_text(name@, *var_type, *value),
{
    let mut out = String::from_str("let mut ");
    out.append(name);
    out.append(": ");
    let ty_text = emit_type_rs(var_type);
    out.append(ty_text.as_str());
    out.append(" = ");
    let value_text = emit_expression_rs(value);
    out.append(value_text.as_str());
    out.append(";\n");
    proof {
        assert(out@ =~= spec_var_decl_text(name@, *var_type, *value));
    }
    out
}

/// The emitted text of an assignment.
fn emit_assignment_rs(name: &str, value: &Expression) -> (r: String)
    ensures
        r@ == spec_assignment_text(name@, *value),
{
    let mut out = String::new();
    out.append(name);
    out.append(" = ");
    let value_text = emit_expression_rs(value);
    out.append(value_text.as_str());
    out.append(";\n");
    proof {
        assert(out@ =~= spec_assignment_text(name@, *value));
    }
    out
}

/// The emitted text of a conditional.  The whole statement is taken so the
/// walk goes down one tree.
fn emit_if_rs(stmt: &Statement) -> (r: String)
    requires
        stmt is If,
    ensures
        r@ == spec_stmt_text(*stmt),
    decreases stmt, 1int,
{
    match stmt {
        Statement::If { condition, then_block, else_block } => {
            let mut out = String::from_str("if ");
            let cond_text = emit_condition_rs(condition);
            out.append(cond_text.as_str());
            out.append(" {\n");
            let then_text = emit_block_rs(then_block);
            out.append(then_text.as_str());
            match else_block {
                Some(block) => {
                    out.append("} else {\n");
                    let else_text = emit_block_rs(block);
                    out.append(else_text.as_str());
                    out.append("}\n");
                },
                None => {
                    out.append("}\n");
                },
            }
            proof {
                assert(out@ =~= spec_stmt_text(*stmt));
            }
            out
        },
        _ => String::new(),
    }
}

/// The emitted text of a loop.
fn emit_while_rs(condition: &Condition, body: &Block) -> (r: String)
    ensures
        r@ == "while "@ + spec_cond_text(*condition) + " {\n"@ + spec_block_text(*body) + "}\n"@,
    decreases body, 1int,
{
    let mut out = String::from_str("while ");
    let cond_text = emit_condition_rs(condition);
    out.append(cond_text.as_str());
    out.append(" {\n");
    let body_text = emit_block_rs(body);
    out.append(body_text.as_str());
    out.append("}\n");
    proof {
        assert(out@ =~= "while "@ + spec_cond_text(*condition) + " {\n"@ + spec_block_text(*body)
            + "}\n"@);
    }
    out
}

/// The emitted text of a print statement.
fn emit_print_rs(value: &Expression) -> (r: String)
    ensures
        r@ == spec_print_text(*value),
{
    let mut out = String::from_str("println!(\"{}\", ");
    let value_text = emit_expression_rs(value);
    out.append(value_text.as_str());
    out.append(");\n");
    proof {
        assert(out@ =~= spec_print_text(*value));
    }
    out
}

/// The emitted text of one statement.
fn emit_statement_rs(stmt: &Statement) -> (r: String)
    ensures
        r@ == spec_stmt_text(*stmt),
    decreases stmt, 2int,
{
    match stmt {
        Statement::VarDeclaration { name, var_type, value } => emit_var_decl_rs(
            name.as_str(),
            var_type,
            value,
        ),
        Statement::Assignment { name, value } => emit_assignment_rs(name.as_str(), value),
        Statement::If { .. } => emit_if_rs(stmt),
        Statement::While { condition, body } => emit_while_rs(condition, body),
        Statement::Print { value } => emit_print_rs(value),
    }
}

/// Translates a whole program: its statements in order, wrapped in a single
/// entry-point block.  Generation never fails and is deterministic: the
/// result is exactly `spec_program_text`, for any tree.
pub fn generate_rust(program: &Program) -> (r: String)
    ensures
        r@ == spec_program_text(*program),
{
    let mut out = String::from_str("fn main() {\n");
    let n = program.statements.len();
    let mut i: usize = 0;
    while i < n
        invariant
            n == program.statements@.len(),
            0 <= i <= n,
            out@ == "fn main() {\n"@ + spec_stmts_text(program.statements@.subrange(0, i as int)),
        decreases n - i,
    {
        let stmt_text = emit_statement_rs(&program.statements[i]);
        out.append(stmt_text.as_str());
        proof {
            let prefix = program.statements@.subrange(0, i as int);
            lemma_stmts_text_snoc(prefix, program.statements@[i as int]);
            assert(prefix.push(program.statements@[i as int]) =~= program.statements@.subrange(
                0,
                i as int + 1,
            ));
            assert(out@ =~= "fn main() {\n"@ + spec_stmts_text(
                program.statements@.subrange(0, i as int + 1),
            ));
        }
        i += 1;
    }
    out.append("}\n");
    proof {
        assert(program.statements@.subrange(0, n as int) =~= program.statements@);
        assert(out@ =~= spec_program_text(*program));
    }
    out
}

/// Generation is idempotent: two runs over the same tree give byte-identical
/// text, because each result is exactly `spec_program_text` of the tree.
pub proof fn lemma_generation_deterministic(p: Program, a: Seq<char>, b: Seq<char>)
    requires
        a == spec_program_text(p),
        b == spec_program_text(p),
    ensures
        a == b,
{
}

/// How often a character occurs in a text.
pub open spec fn count_char(s: Seq<char>, c: char) -> int
    decreases s.len(),
{
    if s.len() == 0 {
        0
    } else {
        count_char(s.drop_last(), c) + if s.last() == c {
            1int
        } else {
            0int
        }
    }
}

/// A text holding neither kind of curly bracket.
pub open spec fn brace_free(s: Seq<char>) -> bool {
    forall|i: int| 0 <= i < s.len() ==> #[trigger] s[i] != '{' && s[i] != '}'
}

/// An expression whose identifier and string-literal texts hold no brackets.
pub open spec fn expr_safe(e: Expression) -> bool
    decreases e,
{
    match e {
        Expression::Number(n) => true,
        Expression::Identifier(id) => brace_free(id@),
        Expression::StringLiteral(s) => brace_free(s@),
        Expression::ArithmeticOp { left, op, right } => expr_safe(*left) && expr_safe(*right),
    }
}

/// A condition whose texts hold no brackets.
pub open spec fn cond_safe(c: Condition) -> bool {
    expr_safe(c.left) && expr_safe(c.right)
}

/// A statement whose identifier and string-literal texts hold no brackets.
pub open spec fn stmt_safe(s: Statement) -> bool
    decreases s, 2int,
{
    match s {
        Statement::VarDeclaration { name, var_type, value } => brace_free(name@) && expr_safe(
            value,
        ),
        Statement::Assignment { name, value } => brace_free(name@) && expr_safe(value),
        Statement::If { condition, then_block, else_block } => cond_safe(condition) && block_safe(
            then_block,
        ) && match else_block {
            Some(eb) => block_safe(eb),
            None => true,
        },
        Statement::While { condition, body } => cond_safe(condition) && block_safe(body),
        Statement::Print { value } => expr_safe(value),
    }
}

/// A statement sequence whose texts hold no brackets.
pub open spec fn stmts_safe(ss: Seq<Statement>) -> bool
    decreases ss, 1int,
{
    forall|i: int| 0 <= i < ss.len() ==> stmt_safe(#[trigger] ss[i])
}

/// A block whose texts hold no brackets.
pub open spec fn block_safe(b: Block) -> bool
    decreases b, 3int,
{
    stmts_safe(b.statements@)
}

/// A program whose identifier and string-literal texts hold no brackets.
pub open spec fn program_safe(p: Program) -> bool {
    stmts_safe(p.statements@)
}

/// Occurrences add up over concatenation.
pub proof fn lemma_count_char_add(a: Seq<char>, b: Seq<char>, c: char)
    ensures
        count_char(a + b, c) == count_char(a, c) + count_char(b, c),
    decreases b.len(),
{
    if b.len() == 0 {
        assert(a + b =~= a);
    } else {
        assert((a + b).drop_last() =~= a + b.drop_last());
        lemma_count_char_add(a, b.drop_last(), c);
    }
}

/// A bracket-free text holds zero brackets.
pub proof fn lemma_brace_free_count(s: Seq<char>, c: char)
    requires
        brace_free(s),
        c == '{' || c == '}',
    ensures
        count_char(s, c) == 0,
    decreases s.len(),
{
    if s.len() > 0 {
        assert(forall|i: int|
            0 <= i < s.drop_last().len() ==> #[trigger] s.drop_last()[i] != '{'
                && s.drop_last()[i] != '}');
        lemma_brace_free_count(s.drop_last(), c);
    }
}

/// Decimal digit text holds no brackets.
pub proof fn lemma_dec_rep_no_brace(n: nat, c: char)
    requires
        c == '{' || c == '}',
    ensures
        count_char(crate::numeral::dec_rep(n), c) == 0,
    decreases n,
{
    reveal_with_fuel(count_char, 3);
    if n >= 10 {
        lemma_dec_rep_no_brace(n / 10, c);
        let d = crate::numeral::char_of_digit((n % 10) as int);
        assert(crate::numeral::dec_rep(n).drop_last() =~= crate::numeral::dec_rep(n / 10));
    }
}

/// The text of an integer holds no brackets.
pub proof fn lemma_int_text_no_brace(n: int, c: char)
    requires
        c == '{' || c == '}',
    ensures
        count_char(int_text(n), c) == 0,
{
    reveal_with_fuel(count_char, 3);
    if n < 0 {
        lemma_dec_rep_no_brace((-n) as nat, c);
        lemma_count_char_add(seq!['-'], crate::numeral::dec_rep((-n) as nat), c);
    } else {
        lemma_dec_rep_no_brace(n as nat, c);
    }
}

/// The bracket counts of every fixed text piece the generator emits.
proof fn lemma_piece_counts()
    ensures
        count_char("fn main() {\n"@, '{') == 1 && count_char("fn main() {\n"@, '}') == 0,
        count_char("}\n"@, '{') == 0 && count_char("}\n"@, '}') == 1,
        count_char(" {\n"@, '{') == 1 && count_char(" {\n"@, '}') == 0,
        count_char("} else {\n"@, '{') == 1 && count_char("} else {\n"@, '}') == 1,
        count_char("if "@, '{') == 0 && count_char("if "@, '}') == 0,
        count_char("while "@, '{') == 0 && count_char("while "@, '}') == 0,
        count_char("let mut "@, '{') == 0 && count_char("let mut "@, '}') == 0,
        count_char(": "@, '{') == 0 && count_char(": "@, '}') == 0,
        count_char(" = "@, '{') == 0 && count_char(" = "@, '}') == 0,
        count_char(";\n"@, '{') == 0 && count_char(";\n"@, '}') == 0,
        count_char("println!(\"{}\", "@, '{') == 1 && count_char("println!(\"{}\", "@, '}') == 1,
        count_char(");\n"@, '{') == 0 && count_char(");\n"@, '}') == 0,
        count_char("("@, '{') == 0 && count_char("("@, '}') == 0,
        count_char(")"@, '{') == 0 && count_char(")"@, '}') == 0,
        count_char(" "@, '{') == 0 && count_char(" "@, '}') == 0,
        count_char("+"@, '{') == 0 && count_char("+"@, '}') == 0,
        count_char("=="@, '{') == 0 && count_char("=="@, '}') == 0,
        count_char("<"@, '{') == 0 && count_char("<"@, '}') == 0,
        count_char(">"@, '{') == 0 && count_char(">"@, '}') == 0,
        count_char("usize"@, '{') == 0 && count_char("usize"@, '}') == 0,
        count_char("String"@, '{') == 0 && count_char("String"@, '}') == 0,
        count_char(seq!['"'], '{') == 0 && count_char(seq!['"'], '}') == 0,
{
    reveal_strlit("fn main() {\n");
    reveal_strlit("}\n");
    reveal_strlit(" {\n");
    reveal_strlit("} else {\n");
    reveal_strlit("if ");
    reveal_strlit("while ");
    reveal_strlit("let mut ");
    reveal_strlit(": ");
    reveal_strlit(" = ");
    reveal_strlit(";\n");
    reveal_strlit("println!(\"{}\", ");
    reveal_strlit(");\n");
    reveal_strlit("(");
    reveal_strlit(")");
    reveal_strlit(" ");
    reveal_strlit("+");
    reveal_strlit("==");
    reveal_strlit("<");
    reveal_strlit(">");
    reveal_strlit("usize");
    reveal_strlit("String");
    reveal_with_fuel(count_char, 20);
}

/// The text of a safe expression holds no brackets.
pub proof fn lemma_expr_text_no_brace(e: Expression, c: char)
    requires
        expr_safe(e),
        c == '{' || c == '}',
    ensures
        count_char(spec_expr_text(e), c) == 0,
    decreases e,
{
    lemma_piece_counts();
    match e {
        Expression::Number(n) => {
            lemma_int_text_no_brace(n as int, c);
        },
        Expression::Identifier(id) => {
            lemma_brace_free_count(id@, c);
        },
        Expression::StringLiteral(s) => {
            lemma_brace_free_count(s@, c);
            lemma_count_char_add(seq!['"'], s@, c);
            lemma_count_char_add(seq!['"'] + s@, seq!['"'], c);
        },
        Expression::ArithmeticOp { left, op, right } => {
            lemma_expr_text_no_brace(*left, c);
            lemma_expr_text_no_brace(*right, c);
            let p1 = "("@ + spec_expr_text(*left);
            let p2 = p1 + " "@;
            let p3 = p2 + spec_arith_op_text(op);
            let p4 = p3 + " "@;
            let p5 = p4 + spec_expr_text(*right);
            lemma_count_char_add("("@, spec_expr_text(*left), c);
            lemma_count_char_add(p1, " "@, c);
            lemma_count_char_add(p2, spec_arith_op_text(op), c);
            lemma_count_char_add(p3, " "@, c);
            lemma_count_char_add(p4, spec_expr_text(*right), c);
            lemma_count_char_add(p5, ")"@, c);
        },
    }
}

/// The text of a safe condition holds no brackets.
pub proof fn lemma_cond_text_no_brace(cd: Condition, c: char)
    requires
        cond_safe(cd),
        c == '{' || c == '}',
    ensures
        count_char(spec_cond_text(cd), c) == 0,
{
    lemma_piece_counts();
    lemma_expr_text_no_brace(cd.left, c);
    lemma_expr_text_no_brace(cd.right, c);
    let p1 = "("@ + spec_expr_text(cd.left);
    let p2 = p1 + " "@;
    let p3 = p2 + spec_comp_op_text(cd.op);
    let p4 = p3 + " "@;
    let p5 = p4 + spec_expr_text(cd.right);
    lemma_count_char_add("("@, spec_expr_text(cd.left), c);
    lemma_count_char_add(p1, " "@, c);
    lemma_count_char_add(p2, spec_comp_op_text(cd.op), c);
    lemma_count_char_add(p3, " "@, c);
    lemma_count_char_add(p4, spec_expr_text(cd.right), c);
    lemma_count_char_add(p5, ")"@, c);
}

/// The emitted text of a safe statement has as many opening as closing
/// curly brackets.
pub proof fn lemma_stmt_text_braces(s: Statement)
    requires
        stmt_safe(s),
    ensures
        count_char(spec_stmt_text(s), '{') == count_char(spec_stmt_text(s), '}'),
    decreases s, 2int,
{
    lemma_piece_counts();
    match s {
        Statement::VarDeclaration { name, var_type, value } => {
            lemma_var_decl_zero(name@, var_type, value, '{');
            lemma_var_decl_zero(name@, var_type, value, '}');
        },
        Statement::Assignment { name, value } => {
            lemma_assignment_zero(name@, value, '{');
            lemma_assignment_zero(name@, value, '}');
        },
        Statement::If { condition, then_block, else_block } => {
            lemma_block_text_braces(then_block);
            let head = "if "@ + spec_cond_text(condition) + " {\n"@ + spec_block_text(then_block);
            lemma_if_head_counts(condition, then_block, '{');
            lemma_if_head_counts(condition, then_block, '}');
            match else_block {
                Some(eb) => {
                    lemma_block_text_braces(eb);
                    let q1 = head + "} else {\n"@;
                    let q2 = q1 + spec_block_text(eb);
                    lemma_count_char_add(head, "} else {\n"@, '{');
                    lemma_count_char_add(head, "} else {\n"@, '}');
                    lemma_count_char_add(q1, spec_block_text(eb), '{');
                    lemma_count_char_add(q1, spec_block_text(eb), '}');
                    lemma_count_char_add(q2, "}\n"@, '{');
                    lemma_count_char_add(q2, "}\n"@, '}');
                },
                None => {
                    lemma_count_char_add(head, "}\n"@, '{');
                    lemma_count_char_add(head, "}\n"@, '}');
                },
            }
        },
        Statement::While { condition, body } => {
            lemma_block_text_braces(body);
            lemma_cond_text_no_brace(condition, '{');
            lemma_cond_text_no_brace(condition, '}');
            let p1 = "while "@ + spec_cond_text(condition);
            let p2 = p1 + " {\n"@;
            let p3 = p2 + spec_block_text(body);
            lemma_count_char_add("while "@, spec_cond_text(condition), '{');
            lemma_count_char_add("while "@, spec_cond_text(condition), '}');
            lemma_count_char_add(p1, " {\n"@, '{');
            lemma_count_char_add(p1, " {\n"@, '}');
            lemma_count_char_add(p2, spec_block_text(body), '{');
            lemma_count_char_add(p2, spec_block_text(body), '}');
            lemma_count_char_add(p3, "}\n"@, '{');
            lemma_count_char_add(p3, "}\n"@, '}');
        },
        Statement::Print { value } => {
            lemma_expr_text_no_brace(value, '{');
            lemma_expr_text_no_brace(value, '}');
            let p1 = "println!(\"{}\", "@ + spec_expr_text(value);
            lemma_count_char_add("println!(\"{}\", "@, spec_expr_text(value), '{');
            lemma_count_char_add("println!(\"{}\", "@, spec_expr_text(value), '}');
            lemma_count_char_add(p1, ");\n"@, '{');
            lemma_count_char_add(p1, ");\n"@, '}');
        },
    }
}

/// A safe declaration's text holds no brackets at all.
proof fn lemma_var_decl_zero(name: Seq<char>, ty: Type, value: Expression, c: char)
    requires
        brace_free(name),
        expr_safe(value),
        c == '{' || c == '}',
    ensures
        count_char(spec_var_decl_text(name, ty, value), c) == 0,
{
    lemma_piece_counts();
    lemma_brace_free_count(name, c);
    lemma_expr_text_no_brace(value, c);
    let p1 = "let mut "@ + name;
    let p2 = p1 + ": "@;
    let p3 = p2 + spec_type_text(ty);
    let p4 = p3 + " = "@;
    let p5 = p4 + spec_expr_text(value);
    lemma_count_char_add("let mut "@, name, c);
    lemma_count_char_add(p1, ": "@, c);
    lemma_count_char_add(p2, spec_type_text(ty), c);
    lemma_count_char_add(p3, " = "@, c);
    lemma_count_char_add(p4, spec_expr_text(value), c);
    lemma_count_char_add(p5, ";\n"@, c);
}

/// A safe assignment's text holds no brackets at all.
proof fn lemma_assignment_zero(name: Seq<char>, value: Expression, c: char)
    requires
        brace_free(name),
        expr_safe(value),
        c == '{' || c == '}',
    ensures
        count_char(spec_assignment_text(name, value), c) == 0,
{
    lemma_piece_counts();
    lemma_brace_free_count(name, c);
    lemma_expr_text_no_brace(value, c);
    let p1 = name + " = "@;
    let p2 = p1 + spec_expr_text(value);
    lemma_count_char_add(name, " = "@, c);
    lemma_count_char_add(p1, spec_expr_text(value), c);
    lemma_count_char_add(p2, ";\n"@, c);
}

/// Bracket counts of a conditional's text up to its then-block.
proof fn lemma_if_head_counts(condition: Condition, then_block: Block, c: char)
    requires
        cond_safe(condition),
        c == '{' || c == '}',
    ensures
        count_char(
            "if "@ + spec_cond_text(condition) + " {\n"@ + spec_block_text(then_block),
            c,
        ) == count_char(spec_block_text(then_block), c) + if c == '{' {
            1int
        } else {
            0int
        },
{
    lemma_piece_counts();
    lemma_cond_text_no_brace(condition, c);
    let p1 = "if "@ + spec_cond_text(condition);
    let p2 = p1 + " {\n"@;
    lemma_count_char_add("if "@, spec_cond_text(condition), c);
    lemma_count_char_add(p1, " {\n"@, c);
    lemma_count_char_add(p2, spec_block_text(then_block), c);
}

/// The emitted text of a safe statement run has as many opening as closing
/// curly brackets.
pub proof fn lemma_stmts_text_braces(ss: Seq<Statement>)
    requires
        stmts_safe(ss),
    ensures
        count_char(spec_stmts_text(ss), '{') == count_char(spec_stmts_text(ss), '}'),
    decreases ss, 1int,
{
    if ss.len() > 0 {
        lemma_stmt_text_braces(ss[0]);
        assert(stmts_safe(ss.drop_first()));
        lemma_stmts_text_braces(ss.drop_first());
        lemma_count_char_add(spec_stmt_text(ss[0]), spec_stmts_text(ss.drop_first()), '{');
        lemma_count_char_add(spec_stmt_text(ss[0]), spec_stmts_text(ss.drop_first()), '}');
    }
}

/// The emitted text of a safe block has as many opening as closing curly
/// brackets.
pub proof fn lemma_block_text_braces(b: Block)
    requires
        block_safe(b),
    ensures
        count_char(spec_block_text(b), '{') == count_char(spec_block_text(b), '}'),
    decreases b, 3int,
{
    lemma_stmts_text_braces(b.statements@);
}

/// The generated output is well formed in the target grammar: for a program
/// whose identifier and string-literal texts hold no curly brackets, the
/// output's curly brackets balance; by `spec_program_text` it also starts
/// with the one entry-point wrapper line and ends with its closing bracket.
pub proof fn lemma_output_braces_balanced(p: Program)
    requires
        program_safe(p),
    ensures
        count_char(spec_program_text(p), '{') == count_char(spec_program_text(p), '}'),
{
    lemma_piece_counts();
    lemma_stmts_text_braces(p.statements@);
    let p1 = "fn main() {\n"@ + spec_stmts_text(p.statements@);
    lemma_count_char_add("fn main() {\n"@, spec_stmts_text(p.statements@), '{');
    lemma_count_char_add("fn main() {\n"@, spec_stmts_text(p.statements@), '}');
    lemma_count_char_add(p1, "}\n"@, '{');
    lemma_count_char_add(p1, "}\n"@, '}');
}

} // verus!
