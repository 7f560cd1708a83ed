//! Recursive-descent parsing: turns a token sequence into a [`Program`], or
//! fails with a diagnostic.
//!
//! Parsing is deterministic with single-token lookahead and no backtracking;
//! any mismatch fails the whole parse with no partial tree.  What it means
//! for a tree to be derived from a token range is captured by the `*_at`
//! relations.  The contracts characterize each parser completely: an `Ok`
//! result carries a derivation of the consumed range, and an `Err` means no
//! derivation exists at the cursor, so parsing succeeds on exactly the token
//! sequences the grammar derives.
//!
//! A declaration's initializer must be a literal of the declared type; any
//! other initializer is rejected as an ordinary parse failure.

use vstd::prelude::*;
use vstd::string::StringExecFns;

use crate::ast::{ArithmeticOp, Block, CompOp, Condition, Expression, Program, Statement, Type};
use crate::lexer::{token_same, Token};
use crate::numeral::{all_digits, digits_to_i64, seq_to_int};
use crate::text::str_eq;

verus! {

/// The token denoting this declared type.
pub open spec fn type_token(t: Token, ty: Type) -> bool {
    match ty {
        Type::Number => t is TypeNumber,
        Type::String => t is TypeString,
    }
}

/// The token denoting this comparison operator.
pub open spec fn comp_op_token(t: Token, op: CompOp) -> bool {
    match op {
        CompOp::Equal => t is Equal,
        CompOp::LessThan => t is LessThan,
        CompOp::GreaterThan => t is GreaterThan,
    }
}

/// Whether a statement can begin with this token.
pub open spec fn stmt_starter(t: Token) -> bool {
    t is Let || t is Identifier || t is If || t is While || t is Print
}

/// A declaration's initializer is a literal of the declared type.
pub open spec fn decl_compatible(ty: Type, e: Expression) -> bool {
    match ty {
        Type::Number => e is Number,
        Type::String => e is StringLiteral,
    }
}

/// The expression `e` is a single term derived from the token at `lo`: a
/// numeric literal (digits only, value fitting an `i64`), an identifier, or a
/// string literal.
pub open spec fn term_at(t: Seq<Token>, lo: int, e: Expression) -> bool {
    0 <= lo < t.len() && match e {
        Expression::Number(v) => t[lo] matches Token::Number(x) && x@.len() > 0 && all_digits(x@)
            && v as int == seq_to_int(x@),
        Expression::Identifier(name) => t[lo] matches Token::Identifier(x) && name@ == x@,
        Expression::StringLiteral(s) => t[lo] matches Token::StringLiteral(x) && s@ == x@,
        Expression::ArithmeticOp { .. } => false,
    }
}

/// Addition is right-associative: the left operand of an addition is always a
/// single term, and the remainder of the range derives the right operand.
pub open spec fn expr_at(t: Seq<Token>, lo: int, hi: int, e: Expression) -> bool
    decreases hi - lo,
{
    match e {
        Expression::ArithmeticOp { left, op, right } => {
            &&& lo + 2 < hi <= t.len()
            &&& term_at(t, lo, *left)
            &&& t[lo + 1] is Plus
            &&& op == ArithmeticOp::Add
            &&& expr_at(t, lo + 2, hi, *right)
        },
        _ => hi == lo + 1 && term_at(t, lo, e),
    }
}

/// The number of tokens an expression spans.
pub open spec fn expr_tokens(e: Expression) -> int
    decreases e,
{
    match e {
        Expression::ArithmeticOp { left, op, right } => 2 + expr_tokens(*right),
        _ => 1,
    }
}

/// The number of tokens a condition spans.
pub open spec fn cond_tokens(c: Condition) -> int {
    expr_tokens(c.left) + 1 + expr_tokens(c.right)
}

/// The condition `c` is derived from exactly the token range `[lo, hi)`: a
/// left expression, one comparison operator, a right expression.
pub open spec fn cond_at(t: Seq<Token>, lo: int, hi: int, c: Condition) -> bool {
    &&& expr_at(t, lo, lo + expr_tokens(c.left), c.left)
    &&& comp_op_token(t[lo + expr_tokens(c.left)], c.op)
    &&& expr_at(t, lo + expr_tokens(c.left) + 1, hi, c.right)
}

/// The number of tokens a statement spans.
pub open spec fn stmt_tokens(s: Statement) -> int
    decreases s, 2int,
{
    match s {
        Statement::VarDeclaration { name, var_type, value } => 6 + expr_tokens(value),
        Statement::Assignment { name, value } => 3 + expr_tokens(value),
        Statement::If { condition, then_block, else_block } => match else_block {
            None => 4 + cond_tokens(condition) + block_tokens(then_block),
            Some(eb) => 5 + cond_tokens(condition) + block_tokens(then_block) + block_tokens(
                eb,
            ),
        },
        Statement::While { condition, body } => 4 + cond_tokens(condition) + block_tokens(body),
        Statement::Print { value } => 4 + expr_tokens(value),
    }
}

/// The number of tokens a statement sequence spans.
pub open spec fn stmts_tokens(ss: Seq<Statement>) -> int
    decreases ss, 1int,
{
    if ss.len() == 0 {
        0
    } else {
        stmt_tokens(ss[0]) + stmts_tokens(ss.drop_first())
    }
}

/// The number of tokens a block spans, brackets included.
pub open spec fn block_tokens(b: Block) -> int
    decreases b, 3int,
{
    2 + stmts_tokens(b.statements@)
}

/// The statement `s` is derived from exactly the token range `[lo, hi)`.
pub open spec fn stmt_at(t: Seq<Token>, lo: int, hi: int, s: Statement) -> bool
    decreases s, 2int,
{
    match s {
        Statement::VarDeclaration { name, var_type, value } => {
            &&& 0 <= lo && lo + 6 < hi <= t.len()
            &&& t[lo] is Let
            &&& (t[lo + 1] matches Token::Identifier(x) && name@ == x@)
            &&& t[lo + 2] is Colon
            &&& type_token(t[lo + 3], var_type)
            &&& t[lo + 4] is Assign
            &&& expr_at(t, lo + 5, hi - 1, value)
            &&& t[hi - 1] is Semicolon
            &&& decl_compatible(var_type, value)
        },
        Statement::Assignment { name, value } => {
            &&& 0 <= lo && lo + 3 < hi <= t.len()
            &&& (t[lo] matches Token::Identifier(x) && name@ == x@)
            &&& t[lo + 1] is Assign
            &&& expr_at(t, lo + 2, hi - 1, value)
            &&& t[hi - 1] is Semicolon
        },
        Statement::If { condition, then_block, else_block } => {
            let m = lo + 2 + cond_tokens(condition);
            &&& 0 <= lo && lo + 1 < hi <= t.len()
            &&& t[lo] is If
            &&& t[lo + 1] is LParen
            &&& cond_at(t, lo + 2, m, condition)
            &&& t[m] is RParen
            &&& t[hi - 1] is EndIf
            &&& match else_block {
                None => block_at(t, m + 1, hi - 1, then_block),
                Some(eb) => {
                    let b2 = m + 1 + block_tokens(then_block);
                    &&& block_at(t, m + 1, b2, then_block)
                    &&& t[b2] is Else
                    &&& block_at(t, b2 + 1, hi - 1, eb)
                },
            }
        },
        Statement::While { condition, body } => {
            let m = lo + 2 + cond_tokens(condition);
            &&& 0 <= lo && lo + 1 < hi <= t.len()
            &&& t[lo] is While
            &&& t[lo + 1] is LParen
            &&& cond_at(t, lo + 2, m, condition)
            &&& t[m] is RParen
            &&& block_at(t, m + 1, hi - 1, body)
            &&& t[hi - 1] is EndWhile
        },
        Statement::Print { value } => {
            &&& 0 <= lo && lo + 3 < hi <= t.len()
            &&& t[lo] is Print
            &&& t[lo + 1] is LParen
            &&& expr_at(t, lo + 2, hi - 2, value)
            &&& t[hi - 2] is RParen
            &&& t[hi - 1] is EndPrint
        },
    }
}

/// The statement sequence `ss` is derived from exactly the token range
/// `[lo, hi)`, one statement after the other.
pub open spec fn stmts_at(t: Seq<Token>, lo: int, hi: int, ss: Seq<Statement>) -> bool
    decreases ss, 1int,
{
    if ss.len() == 0 {
        lo == hi
    } else {
        stmt_at(t, lo, lo + stmt_tokens(ss[0]), ss[0]) && stmts_at(
            t,
            lo + stmt_tokens(ss[0]),
            hi,
            ss.drop_first(),
        )
    }
}

/// The block `b` is derived from exactly the token range `[lo, hi)`: an
/// opening bracket, the statements, a closing bracket.
pub open spec fn block_at(t: Seq<Token>, lo: int, hi: int, b: Block) -> bool
    decreases b, 3int,
{
    &&& 0 <= lo && lo + 1 < hi <= t.len()
    &&& t[lo] is LBracket
    &&& t[hi - 1] is RBracket
    &&& stmts_at(t, lo + 1, hi - 1, b.statements@)
}

/// The program `p` is derived from the whole token sequence: a non-empty run
/// of top-level statements covering every token.
pub open spec fn program_matches(t: Seq<Token>, p: Program) -> bool {
    p.statements@.len() > 0 && stmts_at(t, 0, t.len() as int, p.statements@)
}

/// A derived expression spans exactly its token count.
pub proof fn lemma_expr_extent(t: Seq<Token>, lo: int, hi: int, e: Expression)
    requires
        expr_at(t, lo, hi, e),
    ensures
        hi == lo + expr_tokens(e),
    decreases e,
{
    match e {
        Expression::ArithmeticOp { left, op, right } => {
            lemma_expr_extent(t, lo + 2, hi, *right);
        },
        _ => {},
    }
}

/// A derived condition spans exactly its token count.
pub proof fn lemma_cond_extent(t: Seq<Token>, lo: int, hi: int, c: Condition)
    requires
        cond_at(t, lo, hi, c),
    ensures
        hi == lo + cond_tokens(c),
{
    lemma_expr_extent(t, lo + expr_tokens(c.left) + 1, hi, c.right);
}

/// A derived statement sequence spans exactly its token count.
pub proof fn lemma_stmts_extent(t: Seq<Token>, lo: int, hi: int, ss: Seq<Statement>)
    requires
        stmts_at(t, lo, hi, ss),
    ensures
        hi == lo + stmts_tokens(ss),
    decreases ss.len(),
{
    if ss.len() > 0 {
        lemma_stmts_extent(t, lo + stmt_tokens(ss[0]), hi, ss.drop_first());
    }
}

/// A derived block spans exactly its token count.
pub proof fn lemma_block_extent(t: Seq<Token>, lo: int, hi: int, b: Block)
    requires
        block_at(t, lo, hi, b),
    ensures
        hi == lo + block_tokens(b),
{
    lemma_stmts_extent(t, lo + 1, hi - 1, b.statements@);
}

/// A derived statement spans exactly its token count.
pub proof fn lemma_stmt_extent(t: Seq<Token>, lo: int, hi: int, s: Statement)
    requires
        stmt_at(t, lo, hi, s),
    ensures
        hi == lo + stmt_tokens(s),
{
    match s {
        Statement::VarDeclaration { name, var_type, value } => {
            lemma_expr_extent(t, lo + 5, hi - 1, value);
        },
        Statement::Assignment { name, value } => {
            lemma_expr_extent(t, lo + 2, hi - 1, value);
        },
        Statement::If { condition, then_block, else_block } => {
            let m = lo + 2 + cond_tokens(condition);
            match else_block {
                None => {
                    lemma_block_extent(t, m + 1, hi - 1, then_block);
                },
                Some(eb) => {
                    let b2 = m + 1 + block_tokens(then_block);
                    lemma_block_extent(t, b2 + 1, hi - 1, eb);
                },
            }
        },
        Statement::While { condition, body } => {
            let m = lo + 2 + cond_tokens(condition);
            lemma_block_extent(t, m + 1, hi - 1, body);
        },
        Statement::Print { value } => {
            lemma_expr_extent(t, lo + 2, hi - 2, value);
        },
    }
}

/// Appending one more derived statement extends a derived statement run.
pub proof fn lemma_stmts_snoc(
    t: Seq<Token>,
    lo: int,
    mid: int,
    hi: int,
    ss: Seq<Statement>,
    s: Statement,
)
    requires
        stmts_at(t, lo, mid, ss),
        stmt_at(t, mid, hi, s),
    ensures
        stmts_at(t, lo, hi, ss.push(s)),
    decreases ss.len(),
{
    reveal_with_fuel(stmts_at, 3);
    let s2 = ss.push(s);
    if ss.len() == 0 {
        lemma_stmt_extent(t, mid, hi, s);
        assert(s2[0] == s);
        assert(s2.drop_first() =~= Seq::<Statement>::empty());
    } else {
        let k0 = stmt_tokens(ss[0]);
        lemma_stmts_snoc(t, lo + k0, mid, hi, ss.drop_first(), s);
        assert(s2[0] == ss[0]);
        assert(s2.drop_first() =~= ss.drop_first().push(s));
    }
}

/// A derived expression lies inside the token sequence.
pub proof fn lemma_expr_in_range(t: Seq<Token>, lo: int, hi: int, e: Expression)
    requires
        expr_at(t, lo, hi, e),
    ensures
        0 <= lo < hi <= t.len(),
{
}

/// A derived statement lies inside the token sequence.
pub proof fn lemma_stmt_in_range(t: Seq<Token>, lo: int, hi: int, s: Statement)
    requires
        stmt_at(t, lo, hi, s),
    ensures
        0 <= lo < hi <= t.len(),
{
}

/// A derived statement begins with a statement-starting token.
pub proof fn lemma_stmt_starts(t: Seq<Token>, lo: int, hi: int, s: Statement)
    requires
        stmt_at(t, lo, hi, s),
    ensures
        stmt_starter(t[lo]),
{
}

/// A derived statement run never runs backwards.
pub proof fn lemma_stmts_le(t: Seq<Token>, lo: int, hi: int, ss: Seq<Statement>)
    requires
        stmts_at(t, lo, hi, ss),
    ensures
        lo <= hi,
    decreases ss,
{
    if ss.len() > 0 {
        lemma_stmt_in_range(t, lo, lo + stmt_tokens(ss[0]), ss[0]);
        lemma_stmts_le(t, lo + stmt_tokens(ss[0]), hi, ss.drop_first());
    }
}

/// Expressions are parsed greedily: two derivations from one position whose
/// follow tokens are not `+` end at the same position.
pub proof fn lemma_expr_extent_unique(
    t: Seq<Token>,
    lo: int,
    h1: int,
    e1: Expression,
    h2: int,
    e2: Expression,
)
    requires
        expr_at(t, lo, h1, e1),
        expr_at(t, lo, h2, e2),
        h1 == t.len() || !(t[h1] is Plus),
        h2 == t.len() || !(t[h2] is Plus),
    ensures
        h1 == h2,
    decreases e1,
{
    match e1 {
        Expression::ArithmeticOp { left, op, right } => {
            match e2 {
                Expression::ArithmeticOp { left: l2, op: o2, right: r2 } => {
                    lemma_expr_extent_unique(t, lo + 2, h1, *right, h2, *r2);
                },
                _ => {
                    lemma_expr_in_range(t, lo + 2, h1, *right);
                },
            }
        },
        _ => {
            match e2 {
                Expression::ArithmeticOp { left: l2, op: o2, right: r2 } => {
                    lemma_expr_in_range(t, lo + 2, h2, *r2);
                },
                _ => {},
            }
        },
    }
}

/// Two derivations over the same token range are literals of the same kind.
pub proof fn lemma_expr_same_kind(t: Seq<Token>, lo: int, hi: int, e1: Expression, e2: Expression)
    requires
        expr_at(t, lo, hi, e1),
        expr_at(t, lo, hi, e2),
    ensures
        e1 is Number <==> e2 is Number,
        e1 is StringLiteral <==> e2 is StringLiteral,
        e1 is Identifier <==> e2 is Identifier,
{
}

/// Two condition derivations from one position whose follow tokens are not
/// `+` end at the same position.
pub proof fn lemma_cond_extent_unique(
    t: Seq<Token>,
    lo: int,
    h1: int,
    c1: Condition,
    h2: int,
    c2: Condition,
)
    requires
        cond_at(t, lo, h1, c1),
        cond_at(t, lo, h2, c2),
        h1 == t.len() || !(t[h1] is Plus),
        h2 == t.len() || !(t[h2] is Plus),
    ensures
        h1 == h2,
{
    let m1 = lo + expr_tokens(c1.left);
    let m2 = lo + expr_tokens(c2.left);
    lemma_expr_in_range(t, m1 + 1, h1, c1.right);
    lemma_expr_in_range(t, m2 + 1, h2, c2.right);
    lemma_expr_extent_unique(t, lo, m1, c1.left, m2, c2.left);
    lemma_expr_extent_unique(t, m1 + 1, h1, c1.right, h2, c2.right);
}

/// Statements are self-delimiting: two statement derivations from one
/// position end at the same position.
pub proof fn lemma_stmt_extent_unique(
    t: Seq<Token>,
    lo: int,
    h1: int,
    s1: Statement,
    h2: int,
    s2: Statement,
)
    requires
        stmt_at(t, lo, h1, s1),
        stmt_at(t, lo, h2, s2),
    ensures
        h1 == h2,
    decreases s1,
{
    match (s1, s2) {
        (
            Statement::VarDeclaration { name: n1, var_type: ty1, value: v1 },
            Statement::VarDeclaration { name: n2, var_type: ty2, value: v2 },
        ) => {
            lemma_expr_extent_unique(t, lo + 5, h1 - 1, v1, h2 - 1, v2);
        },
        (
            Statement::Assignment { name: n1, value: v1 },
            Statement::Assignment { name: n2, value: v2 },
        ) => {
            lemma_expr_extent_unique(t, lo + 2, h1 - 1, v1, h2 - 1, v2);
        },
        (Statement::Print { value: v1 }, Statement::Print { value: v2 }) => {
            lemma_expr_extent_unique(t, lo + 2, h1 - 2, v1, h2 - 2, v2);
        },
        (
            Statement::While { condition: c1, body: b1 },
            Statement::While { condition: c2, body: b2 },
        ) => {
            let m1 = lo + 2 + cond_tokens(c1);
            let m2 = lo + 2 + cond_tokens(c2);
            lemma_cond_extent_unique(t, lo + 2, m1, c1, m2, c2);
            lemma_block_extent_unique(t, m1 + 1, h1 - 1, b1, h2 - 1, b2);
        },
        (
            Statement::If { condition: c1, then_block: tb1, else_block: eb1 },
            Statement::If { condition: c2, then_block: tb2, else_block: eb2 },
        ) => {
            let m1 = lo + 2 + cond_tokens(c1);
            let m2 = lo + 2 + cond_tokens(c2);
            lemma_cond_extent_unique(t, lo + 2, m1, c1, m2, c2);
            let e1 = match eb1 {
                None => h1 - 1,
                Some(_) => m1 + 1 + block_tokens(tb1),
            };
            let e2 = match eb2 {
                None => h2 - 1,
                Some(_) => m2 + 1 + block_tokens(tb2),
            };
            lemma_block_extent_unique(t, m1 + 1, e1, tb1, e2, tb2);
            match (eb1, eb2) {
                (Some(x1), Some(x2)) => {
                    lemma_block_extent_unique(t, e1 + 1, h1 - 1, x1, h2 - 1, x2);
                },
                _ => {},
            }
        },
        _ => {},
    }
}

/// Two block derivations from one position end at the same position.
pub proof fn lemma_block_extent_unique(
    t: Seq<Token>,
    lo: int,
    h1: int,
    b1: Block,
    h2: int,
    b2: Block,
)
    requires
        block_at(t, lo, h1, b1),
        block_at(t, lo, h2, b2),
    ensures
        h1 == h2,
    decreases b1,
{
    lemma_runs_align(t, lo + 1, h1 - 1, b1.statements@, h2 - 1, b2.statements@);
}

/// Two statement runs from one position that both stop at a closing bracket
/// stop at the same one.
pub proof fn lemma_runs_align(
    t: Seq<Token>,
    lo: int,
    q1: int,
    ss1: Seq<Statement>,
    q2: int,
    ss2: Seq<Statement>,
)
    requires
        stmts_at(t, lo, q1, ss1),
        stmts_at(t, lo, q2, ss2),
        q1 < t.len(),
        q2 < t.len(),
        t[q1] is RBracket,
        t[q2] is RBracket,
    ensures
        q1 == q2,
    decreases ss1,
{
    if ss1.len() == 0 && ss2.len() == 0 {
    } else if ss1.len() == 0 {
        lemma_stmt_starts(t, lo, lo + stmt_tokens(ss2[0]), ss2[0]);
    } else if ss2.len() == 0 {
        lemma_stmt_starts(t, lo, lo + stmt_tokens(ss1[0]), ss1[0]);
    } else {
        lemma_stmt_extent_unique(
            t,
            lo,
            lo + stmt_tokens(ss1[0]),
            ss1[0],
            lo + stmt_tokens(ss2[0]),
            ss2[0],
        );
        lemma_runs_align(t, lo + stmt_tokens(ss1[0]), q1, ss1.drop_first(), q2, ss2.drop_first());
    }
}

/// A statement run cannot reach a closing bracket once the parser is blocked:
/// where no statement derives and no closing bracket stands, no run from the
/// same start ends at a closing bracket.
pub proof fn lemma_run_blocked(
    t: Seq<Token>,
    lo: int,
    q: int,
    ssa: Seq<Statement>,
    rb: int,
    ssb: Seq<Statement>,
)
    requires
        stmts_at(t, lo, q, ssa),
        stmts_at(t, lo, rb, ssb),
        q <= t.len(),
        q == t.len() || !(t[q] is RBracket),
        forall|hi: int, s: Statement| !(q < t.len() && #[trigger] stmt_at(t, q, hi, s)),
    ensures
        !(rb < t.len() && t[rb] is RBracket),
    decreases ssa,
{
    if ssb.len() == 0 {
        if ssa.len() > 0 {
            lemma_stmt_starts(t, lo, lo + stmt_tokens(ssa[0]), ssa[0]);
        }
    } else if ssa.len() == 0 {
        lemma_stmt_in_range(t, lo, lo + stmt_tokens(ssb[0]), ssb[0]);
        assert(stmt_at(t, q, q + stmt_tokens(ssb[0]), ssb[0]));
    } else {
        lemma_stmt_extent_unique(
            t,
            lo,
            lo + stmt_tokens(ssa[0]),
            ssa[0],
            lo + stmt_tokens(ssb[0]),
            ssb[0],
        );
        lemma_run_blocked(t, lo + stmt_tokens(ssa[0]), q, ssa.drop_first(), rb, ssb.drop_first());
    }
}

/// A statement run cannot reach the end of the tokens once the parser is
/// blocked before it.
pub proof fn lemma_run_all(
    t: Seq<Token>,
    lo: int,
    q: int,
    ssa: Seq<Statement>,
    rb: int,
    ssb: Seq<Statement>,
)
    requires
        stmts_at(t, lo, q, ssa),
        stmts_at(t, lo, rb, ssb),
        q < t.len(),
        forall|hi: int, s: Statement| !(#[trigger] stmt_at(t, q, hi, s)),
    ensures
        rb != t.len(),
    decreases ssa,
{
    if ssb.len() == 0 {
        lemma_stmts_le(t, lo, q, ssa);
    } else if ssa.len() == 0 {
        assert(stmt_at(t, q, q + stmt_tokens(ssb[0]), ssb[0]));
    } else {
        lemma_stmt_extent_unique(
            t,
            lo,
            lo + stmt_tokens(ssa[0]),
            ssa[0],
            lo + stmt_tokens(ssb[0]),
            ssb[0],
        );
        lemma_run_all(t, lo + stmt_tokens(ssa[0]), q, ssa.drop_first(), rb, ssb.drop_first());
    }
}

/// Where an expression ends and no comparison operator follows, no condition
/// derives whose own follow token is not `+`.
pub proof fn lemma_no_condition(t: Seq<Token>, lo: int, m: int, left: Expression)
    requires
        expr_at(t, lo, m, left),
        m == t.len() || !(t[m] is Plus),
        m == t.len() || (!(t[m] is Equal) && !(t[m] is LessThan) && !(t[m] is GreaterThan)),
    ensures
        forall|hi: int, c: Condition|
            !(#[trigger] cond_at(t, lo, hi, c) && (hi == t.len() || !(t[hi] is Plus))),
{
    assert forall|hi: int, c: Condition|
        !(#[trigger] cond_at(t, lo, hi, c) && (hi == t.len() || !(t[hi] is Plus))) by {
        if cond_at(t, lo, hi, c) && (hi == t.len() || !(t[hi] is Plus)) {
            let mid = lo + expr_tokens(c.left);
            lemma_expr_in_range(t, mid + 1, hi, c.right);
            lemma_expr_extent_unique(t, lo, m, left, mid, c.left);
        }
    }
}

/// Addition is right-associative: a parsed addition's left operand is always
/// a single term, never another addition, so `a+b+c` is read as `a+(b+c)`.
pub proof fn lemma_addition_right_associative(t: Seq<Token>, lo: int, hi: int, e: Expression)
    requires
        expr_at(t, lo, hi, e),
        e is ArithmeticOp,
    ensures
        !(*e->ArithmeticOp_left is ArithmeticOp),
{
    assert(term_at(t, lo, *e->ArithmeticOp_left));
}

/// The source spelling of a token, for diagnostics.
pub open spec fn token_name_text(t: Token) -> Seq<char> {
    match t {
        Token::LParen => "("@,
        Token::RParen => ")"@,
        Token::LBracket => "{"@,
        Token::RBracket => "}"@,
        Token::Colon => ":"@,
        Token::Plus => "+"@,
        Token::Equal => "notalmostthesamethesame"@,
        Token::LessThan => "tinyerthan"@,
        Token::GreaterThan => "oppositeoftinyerthan"@,
        Token::Let => "make"@,
        Token::Assign => "be"@,
        Token::Semicolon => "STOP"@,
        Token::If => "maybe"@,
        Token::Else => "letsdothisinstead"@,
        Token::EndIf => "ENDMAYBE"@,
        Token::While => "keeponswimming"@,
        Token::EndWhile => "STOPSWIMMING"@,
        Token::Print => "SCREAM"@,
        Token::EndPrint => "QUIET"@,
        Token::TypeNumber => "number"@,
        Token::TypeString => "string"@,
        Token::Identifier(x) => x@,
        Token::Number(x) => x@,
        Token::StringLiteral(x) => x@,
    }
}

/// The diagnostic for a token that was expected but not found: it names the
/// expected token and the token under the cursor, or says that none remains.
pub open spec fn expect_err_text(t: Seq<Token>, pos: int, expected: Token) -> Seq<char> {
    if 0 <= pos < t.len() {
        "expected "@ + token_name_text(expected) + ", but found "@ + token_name_text(t[pos])
    } else {
        "expected "@ + token_name_text(expected) + ", but there is no token"@
    }
}

/// The source spelling of a token, for diagnostics.
fn token_name(t: &Token) -> (r: String)
    ensures
        r@ == token_name_text(*t),
{
    match t {
        Token::LParen => String::from_str("("),
        Token::RParen => String::from_str(")"),
        Token::LBracket => String::from_str("{"),
        Token::RBracket => String::from_str("}"),
        Token::Colon => String::from_str(":"),
        Token::Plus => String::from_str("+"),
        Token::Equal => String::from_str("notalmostthesamethesame"),
        Token::LessThan => String::from_str("tinyerthan"),
        Token::GreaterThan => String::from_str("oppositeoftinyerthan"),
        Token::Let => String::from_str("make"),
        Token::Assign => String::from_str("be"),
        Token::Semicolon => String::from_str("STOP"),
        Token::If => String::from_str("maybe"),
        Token::Else => String::from_str("letsdothisinstead"),
        Token::EndIf => String::from_str("ENDMAYBE"),
        Token::While => String::from_str("keeponswimming"),
        Token::EndWhile => String::from_str("STOPSWIMMING"),
        Token::Print => String::from_str("SCREAM"),
        Token::EndPrint => String::from_str("QUIET"),
        Token::TypeNumber => String::from_str("number"),
        Token::TypeString => String::from_str("string"),
        Token::Identifier(x) => x.clone(),
        Token::Number(x) => x.clone(),
        Token::StringLiteral(x) => x.clone(),
    }
}

/// Two tokens are the same lexical unit.
fn token_eq(a: &Token, b: &Token) -> (r: bool)
    ensures
        r == token_same(*a, *b),
{
    match (a, b) {
        (Token::Identifier(x), Token::Identifier(y)) => str_eq(x.as_str(), y.as_str()),
        (Token::Number(x), Token::Number(y)) => str_eq(x.as_str(), y.as_str()),
        (Token::StringLiteral(x), Token::StringLiteral(y)) => str_eq(x.as_str(), y.as_str()),
        (Token::LParen, Token::LParen) => true,
        (Token::RParen, Token::RParen) => true,
        (Token::LBracket, Token::LBracket) => true,
        (Token::RBracket, Token::RBracket) => true,
        (Token::Colon, Token::Colon) => true,
        (Token::Plus, Token::Plus) => true,
        (Token::Equal, Token::Equal) => true,
        (Token::LessThan, Token::LessThan) => true,
        (Token::GreaterThan, Token::GreaterThan) => true,
        (Token::Let, Token::Let) => true,
        (Token::Assign, Token::Assign) => true,
        (Token::Semicolon, Token::Semicolon) => true,
        (Token::If, Token::If) => true,
        (Token::Else, Token::Else) => true,
        (Token::EndIf, Token::EndIf) => true,
        (Token::While, Token::While) => true,
        (Token::EndWhile, Token::EndWhile) => true,
        (Token::Print, Token::Print) => true,
        (Token::EndPrint, Token::EndPrint) => true,
        (Token::TypeNumber, Token::TypeNumber) => true,
        (Token::TypeString, Token::TypeString) => true,
        _ => false,
    }
}

/// The parser: a cursor over the token sequence of one program.
pub struct Parser {
    tokens: Vec<Token>,
    position: usize,
}

impl Parser {
    /// The token sequence being parsed.
    pub closed spec fn toks(&self) -> Seq<Token> {
        self.tokens@
    }

    /// The current cursor position.
    pub closed spec fn pos(&self) -> int {
        self.position as int
    }

    /// The cursor never passes the end of the token sequence.
    pub open spec fn wf(&self) -> bool {
        0 <= self.pos() <= self.toks().len()
    }

    /// A fresh parser over the given tokens, with the cursor at the start.
    pub fn new(tokens: Vec<Token>) -> (r: Parser)
        ensures
            r.toks() == tokens@,
            r.pos() == 0,
            r.wf(),
    {
        Parser { tokens, position: 0 }
    }

    /// The token under the cursor, or `None` at the end of the sequence.
    fn current_token(&self) -> (r: Option<&Token>)
        requires
            self.wf(),
        ensures
            r is Some <==> self.pos() < self.toks().len(),
            r matches Some(t) ==> *t == self.toks()[self.pos()],
    {
        if self.position < self.tokens.len() {
            Some(&self.tokens[self.position])
        } else {
            None
        }
    }

    /// Moves the cursor one token forward.
    fn advance(&mut self)
        requires
            old(self).wf(),
            old(self).pos() < old(self).toks().len(),
        ensures
            final(self).toks() == old(self).toks(),
            final(self).pos() == old(self).pos() + 1,
            final(self).wf(),
    {
        let n = self.tokens.len();
        proof {
            assert(self.position < n);
        }
        self.position = self.position + 1;
    }

    /// Consumes the token under the cursor when it is the expected one, and
    /// fails otherwise.
    fn expect(&mut self, expected: Token) -> (r: Result<(), String>)
        requires
            old(self).wf(),
        ensures
            final(self).toks() == old(self).toks(),
            final(self).wf(),
            r is Ok <==> old(self).pos() < old(self).toks().len() && token_same(
                old(self).toks()[old(self).pos()],
                expected,
            ),
            r is Ok ==> final(self).pos() == old(self).pos() + 1,
            r is Err ==> final(self).pos() == old(self).pos(),
            r matches Err(m) ==> m@ == expect_err_text(
                old(self).toks(),
                old(self).pos(),
                expected,
            ),
    {
        if self.position < self.tokens.len() {
            if token_eq(&self.tokens[self.position], &expected) {
                self.advance();
                return Ok(());
            }
            let mut msg = String::from_str("expected ");
            let en = token_name(&expected);
            msg.append(en.as_str());
            msg.append(", but found ");
            let fname = token_name(&self.tokens[self.position]);
            msg.append(fname.as_str());
            proof {
                assert(msg@ =~= expect_err_text(self.toks(), self.pos(), expected));
            }
            Err(msg)
        } else {
            let mut msg = String::from_str("expected ");
            let en = token_name(&expected);
            msg.append(en.as_str());
            msg.append(", but there is no token");
            proof {
                assert(msg@ =~= expect_err_text(self.toks(), self.pos(), expected));
            }
            Err(msg)
        }
    }

    /// Parses a single term: a numeric literal, an identifier, or a string
    /// literal.  A numeric literal whose value does not fit an `i64` is a
    /// parse failure.
    fn parse_term(&mut self) -> (r: Result<Expression, String>)
        requires
            old(self).wf(),
        ensures
            final(self).toks() == old(self).toks(),
            final(self).wf(),
            r matches Ok(e) ==> term_at(old(self).toks(), old(self).pos(), e) && final(self).pos()
                == old(self).pos() + 1,
            r is Err ==> final(self).pos() == old(self).pos(),
            r is Err ==> forall|e: Expression| !term_at(old(self).toks(), old(self).pos(), e),
    {
        let num = match self.current_token() {
            Some(Token::Number(n)) => match digits_to_i64(n.as_str()) {
                Some(num) => num,
                None => return Err(String::from_str("numeric literal out of range")),
            },
            Some(Token::Identifier(id)) => {
                let identifier = id.clone();
                self.advance();
                return Ok(Expression::Identifier(identifier));
            },
            Some(Token::StringLiteral(s)) => {
                let string = s.clone();
                self.advance();
                return Ok(Expression::StringLiteral(string));
            },
            Some(_) => return Err(String::from_str("expected a term")),
            None => return Err(String::from_str("expected a term")),
        };
        self.advance();
        Ok(Expression::Number(num))
    }

    /// Parses an expression: a term, optionally followed by `+` and a whole
    /// expression, which makes addition right-associative.
    fn parse_expression(&mut self) -> (r: Result<Expression, String>)
        requires
            old(self).wf(),
        ensures
            final(self).toks() == old(self).toks(),
            final(self).wf(),
            r matches Ok(e) ==> expr_at(
                old(self).toks(),
                old(self).pos(),
                final(self).pos(),
                e,
            ) && old(self).pos() < final(self).pos() && (final(self).pos()
                == final(self).toks().len() || !(final(self).toks()[final(self).pos()] is Plus)),
            r is Err ==> forall|hi: int, e: Expression|
                !(#[trigger] expr_at(old(self).toks(), old(self).pos(), hi, e) && (hi
                    == old(self).toks().len() || !(old(self).toks()[hi] is Plus))),
        decreases self.toks().len() - self.pos(), 1int,
    {
        let left = match self.parse_term() {
            Ok(e) => e,
            Err(e) => {
                proof {
                    assert forall|hi: int, e2: Expression|
                        !(#[trigger] expr_at(old(self).toks(), old(self).pos(), hi, e2) && (hi
                            == old(self).toks().len() || !(old(self).toks()[hi] is Plus))) by {
                        if expr_at(old(self).toks(), old(self).pos(), hi, e2) {
                            match e2 {
                                Expression::ArithmeticOp { left, op, right } => {
                                    assert(!term_at(old(self).toks(), old(self).pos(), *left));
                                },
                                _ => {
                                    assert(!term_at(old(self).toks(), old(self).pos(), e2));
                                },
                            }
                        }
                    }
                }
                return Err(e);
            },
        };
        let plus = match self.current_token() {
            Some(Token::Plus) => true,
            _ => false,
        };
        if plus {
            self.advance();
            let right = match self.parse_expression() {
                Ok(e) => e,
                Err(e) => {
                    proof {
                        let t = old(self).toks();
                        let lo = old(self).pos();
                        assert forall|hi: int, e2: Expression|
                            !(#[trigger] expr_at(t, lo, hi, e2) && (hi == t.len() || !(t[hi]
                                is Plus))) by {
                            if expr_at(t, lo, hi, e2) && (hi == t.len() || !(t[hi] is Plus)) {
                                match e2 {
                                    Expression::ArithmeticOp { left, op, right } => {
                                        assert(expr_at(t, lo + 2, hi, *right));
                                    },
                                    _ => {
                                        assert(hi == lo + 1 && t[lo + 1] is Plus);
                                    },
                                }
                            }
                        }
                    }
                    return Err(e);
                },
            };
            let result = Expression::ArithmeticOp {
                left: Box::new(left),
                op: ArithmeticOp::Add,
                right: Box::new(right),
            };
            proof {
                assert(expr_at(old(self).toks(), old(self).pos(), self.pos(), result));
            }
            Ok(result)
        } else {
            Ok(left)
        }
    }

    /// Parses a condition: an expression, a comparison operator, an
    /// expression.
    fn parse_condition(&mut self) -> (r: Result<Condition, String>)
        requires
            old(self).wf(),
        ensures
            final(self).toks() == old(self).toks(),
            final(self).wf(),
            r matches Ok(c) ==> cond_at(old(self).toks(), old(self).pos(), final(self).pos(), c)
                && old(self).pos() < final(self).pos() && (final(self).pos()
                == final(self).toks().len() || !(final(self).toks()[final(self).pos()] is Plus)),
            r is Err ==> forall|hi: int, c: Condition|
                !(#[trigger] cond_at(old(self).toks(), old(self).pos(), hi, c) && (hi == old(
                    self,
                ).toks().len() || !(old(self).toks()[hi] is Plus))),
    {
        let left = match self.parse_expression() {
            Ok(e) => e,
            Err(e) => {
                proof {
                    let t = old(self).toks();
                    let lo = old(self).pos();
                    assert forall|hi: int, c: Condition|
                        !(#[trigger] cond_at(t, lo, hi, c) && (hi == t.len() || !(t[hi]
                            is Plus))) by {
                        if cond_at(t, lo, hi, c) {
                            let mid = lo + expr_tokens(c.left);
                            lemma_expr_in_range(t, mid + 1, hi, c.right);
                            assert(!(expr_at(t, lo, mid, c.left) && (mid == t.len() || !(t[mid]
                                is Plus))));
                        }
                    }
                }
                return Err(e);
            },
        };
        let ghost m = self.pos();
        let op = match self.current_token() {
            Some(Token::Equal) => CompOp::Equal,
            Some(Token::LessThan) => CompOp::LessThan,
            Some(Token::GreaterThan) => CompOp::GreaterThan,
            Some(_) => {
                proof {
                    lemma_no_condition(old(self).toks(), old(self).pos(), m, left);
                }
                return Err(String::from_str("expected a comparison operator"));
            },
            None => {
                proof {
                    lemma_no_condition(old(self).toks(), old(self).pos(), m, left);
                }
                return Err(String::from_str("expected a comparison operator"));
            },
        };
        self.advance();
        let right = match self.parse_expression() {
            Ok(e) => e,
            Err(e) => {
                proof {
                    let t = old(self).toks();
                    let lo = old(self).pos();
                    assert forall|hi: int, c: Condition|
                        !(#[trigger] cond_at(t, lo, hi, c) && (hi == t.len() || !(t[hi]
                            is Plus))) by {
                        if cond_at(t, lo, hi, c) && (hi == t.len() || !(t[hi] is Plus)) {
                            let mid = lo + expr_tokens(c.left);
                            lemma_expr_in_range(t, mid + 1, hi, c.right);
                            lemma_expr_extent_unique(t, lo, m, left, mid, c.left);
                            assert(!(expr_at(t, m + 1, hi, c.right) && (hi == t.len() || !(t[hi]
                                is Plus))));
                        }
                    }
                }
                return Err(e);
            },
        };
        let result = Condition { left, op, right };
        proof {
            lemma_expr_extent(old(self).toks(), old(self).pos(), m, result.left);
            assert(cond_at(old(self).toks(), old(self).pos(), self.pos(), result));
        }
        Ok(result)
    }

    /// Parses a block: `{`, any number of statements, `}`.
    fn parse_block(&mut self) -> (r: Result<Block, String>)
        requires
            old(self).wf(),
        ensures
            final(self).toks() == old(self).toks(),
            final(self).wf(),
            r matches Ok(b) ==> block_at(old(self).toks(), old(self).pos(), final(self).pos(), b)
                && old(self).pos() < final(self).pos(),
            r is Err ==> forall|hi: int, b: Block|
                !(#[trigger] block_at(old(self).toks(), old(self).pos(), hi, b)),
        decreases self.toks().len() - self.pos(), 5int,
    {
        match self.expect(Token::LBracket) {
            Ok(()) => {},
            Err(e) => return Err(e),
        }
        let mut statements: Vec<Statement> = Vec::new();
        loop
            invariant
                self.wf(),
                self.toks() == old(self).toks(),
                old(self).pos() + 1 <= self.pos() <= self.toks().len(),
                stmts_at(self.toks(), old(self).pos() + 1, self.pos(), statements@),
            ensures
                self.wf(),
                self.toks() == old(self).toks(),
                old(self).pos() + 1 <= self.pos() <= self.toks().len(),
                stmts_at(self.toks(), old(self).pos() + 1, self.pos(), statements@),
                self.pos() == self.toks().len() || self.toks()[self.pos()] is RBracket,
            decreases self.toks().len() - self.pos(),
        {
            let at_end = match self.current_token() {
                Some(Token::RBracket) => true,
                Some(_) => false,
                None => true,
            };
            if at_end {
                break;
            }
            let ghost pre = self.pos();
            let stmt = match self.parse_statement() {
                Ok(s) => s,
                Err(e) => {
                    proof {
                        let t = old(self).toks();
                        let lo = old(self).pos();
                        assert forall|hi: int, b: Block|
                            !(#[trigger] block_at(t, lo, hi, b)) by {
                            if block_at(t, lo, hi, b) {
                                lemma_run_blocked(
                                    t,
                                    lo + 1,
                                    pre,
                                    statements@,
                                    hi - 1,
                                    b.statements@,
                                );
                            }
                        }
                    }
                    return Err(e);
                },
            };
            proof {
                lemma_stmts_snoc(
                    self.toks(),
                    old(self).pos() + 1,
                    pre,
                    self.pos(),
                    statements@,
                    stmt,
                );
            }
            statements.push(stmt);
        }
        match self.expect(Token::RBracket) {
            Ok(()) => {},
            Err(e) => {
                proof {
                    let t = old(self).toks();
                    let lo = old(self).pos();
                    assert(self.pos() == t.len());
                    assert forall|hi: int, b: Block| !(#[trigger] block_at(t, lo, hi, b)) by {
                        if block_at(t, lo, hi, b) {
                            lemma_run_blocked(
                                t,
                                lo + 1,
                                self.pos(),
                                statements@,
                                hi - 1,
                                b.statements@,
                            );
                        }
                    }
                }
                return Err(e);
            },
        }
        let result = Block { statements };
        Ok(result)
    }

    /// Parses one statement, chosen by its leading token.
    fn parse_statement(&mut self) -> (r: Result<Statement, String>)
        requires
            old(self).wf(),
        ensures
            final(self).toks() == old(self).toks(),
            final(self).wf(),
            r matches Ok(s) ==> stmt_at(old(self).toks(), old(self).pos(), final(self).pos(), s)
                && old(self).pos() < final(self).pos(),
            old(self).pos() >= old(self).toks().len() || !stmt_starter(
                old(self).toks()[old(self).pos()],
            ) ==> r is Err,
            r is Err ==> forall|hi: int, s: Statement|
                !(#[trigger] stmt_at(old(self).toks(), old(self).pos(), hi, s)),
        decreases self.toks().len() - self.pos(), 4int,
    {
        let starter: usize = match self.current_token() {
            Some(Token::Let) => 0,
            Some(Token::Identifier(_)) => 1,
            Some(Token::If) => 2,
            Some(Token::While) => 3,
            Some(Token::Print) => 4,
            Some(_) => return Err(String::from_str("unexpected token at statement start")),
            None => return Err(String::from_str("unexpected end of input")),
        };
        if starter == 0 {
            self.parse_var_declaration()
        } else if starter == 1 {
            self.parse_assignment()
        } else if starter == 2 {
            self.parse_if_statement()
        } else if starter == 3 {
            self.parse_while_statement()
        } else {
            self.parse_print_statement()
        }
    }

    /// Parses a variable declaration: keyword, name, `:`, type, the
    /// assignment keyword, an initializer, the terminator.  The initializer
    /// must be a literal of the declared type.
    fn parse_var_declaration(&mut self) -> (r: Result<Statement, String>)
        requires
            old(self).wf(),
            old(self).pos() < old(self).toks().len(),
            old(self).toks()[old(self).pos()] is Let,
        ensures
            final(self).toks() == old(self).toks(),
            final(self).wf(),
            r matches Ok(s) ==> stmt_at(old(self).toks(), old(self).pos(), final(self).pos(), s)
                && old(self).pos() < final(self).pos(),
            r is Err ==> forall|hi: int, s: Statement|
                !(#[trigger] stmt_at(old(self).toks(), old(self).pos(), hi, s)),
    {
        self.advance();
        let name = match self.current_token() {
            Some(Token::Identifier(id)) => id.clone(),
            Some(_) => return Err(String::from_str("expected an identifier")),
            None => return Err(String::from_str("expected an identifier")),
        };
        self.advance();
        match self.expect(Token::Colon) {
            Ok(()) => {},
            Err(e) => return Err(e),
        }
        let var_type = match self.current_token() {
            Some(Token::TypeNumber) => Type::Number,
            Some(Token::TypeString) => Type::String,
            Some(_) => return Err(String::from_str("expected a type name")),
            None => return Err(String::from_str("expected a type name")),
        };
        self.advance();
        match self.expect(Token::Assign) {
            Ok(()) => {},
            Err(e) => return Err(e),
        }
        let value = match self.parse_expression() {
            Ok(e) => e,
            Err(e) => {
                proof {
                    let t = old(self).toks();
                    let lo = old(self).pos();
                    assert forall|hi: int, s: Statement| !(#[trigger] stmt_at(t, lo, hi, s)) by {
                        if stmt_at(t, lo, hi, s) {
                            match s {
                                Statement::VarDeclaration { name: n2, var_type: ty2, value: v2 } => {
                                    assert(!(expr_at(t, lo + 5, hi - 1, v2) && (hi - 1 == t.len()
                                        || !(t[hi - 1] is Plus))));
                                },
                                _ => {},
                            }
                        }
                    }
                }
                return Err(e);
            },
        };
        let ghost m_expr = self.pos();
        match self.expect(Token::Semicolon) {
            Ok(()) => {},
            Err(e) => {
                proof {
                    let t = old(self).toks();
                    let lo = old(self).pos();
                    assert forall|hi: int, s: Statement| !(#[trigger] stmt_at(t, lo, hi, s)) by {
                        if stmt_at(t, lo, hi, s) {
                            match s {
                                Statement::VarDeclaration { name: n2, var_type: ty2, value: v2 } => {
                                    lemma_expr_extent_unique(t, lo + 5, m_expr, value, hi - 1, v2);
                                },
                                _ => {},
                            }
                        }
                    }
                }
                return Err(e);
            },
        }
        let compatible = match (&var_type, &value) {
            (Type::Number, Expression::Number(_)) => true,
            (Type::String, Expression::StringLiteral(_)) => true,
            _ => false,
        };
        if !compatible {
            proof {
                let t = old(self).toks();
                let lo = old(self).pos();
                assert forall|hi: int, s: Statement| !(#[trigger] stmt_at(t, lo, hi, s)) by {
                    if stmt_at(t, lo, hi, s) {
                        match s {
                            Statement::VarDeclaration { name: n2, var_type: ty2, value: v2 } => {
                                lemma_expr_extent_unique(t, lo + 5, m_expr, value, hi - 1, v2);
                                lemma_expr_same_kind(t, lo + 5, m_expr, value, v2);
                            },
                            _ => {},
                        }
                    }
                }
            }
            return Err(String::from_str("declared type does not match its initializer"));
        }
        let result = Statement::VarDeclaration { name, var_type, value };
        proof {
            assert(stmt_at(old(self).toks(), old(self).pos(), self.pos(), result));
        }
        Ok(result)
    }

    /// Parses an assignment: name, the assignment keyword, an expression,
    /// the terminator.
    fn parse_assignment(&mut self) -> (r: Result<Statement, String>)
        requires
            old(self).wf(),
            old(self).pos() < old(self).toks().len(),
            old(self).toks()[old(self).pos()] is Identifier,
        ensures
            final(self).toks() == old(self).toks(),
            final(self).wf(),
            r matches Ok(s) ==> stmt_at(old(self).toks(), old(self).pos(), final(self).pos(), s)
                && old(self).pos() < final(self).pos(),
            r is Err ==> forall|hi: int, s: Statement|
                !(#[trigger] stmt_at(old(self).toks(), old(self).pos(), hi, s)),
    {
        let name = match self.current_token() {
            Some(Token::Identifier(id)) => id.clone(),
            _ => return Err(String::from_str("expected an identifier")),
        };
        self.advance();
        match self.expect(Token::Assign) {
            Ok(()) => {},
            Err(e) => return Err(e),
        }
        let value = match self.parse_expression() {
            Ok(e) => e,
            Err(e) => {
                proof {
                    let t = old(self).toks();
                    let lo = old(self).pos();
                    assert forall|hi: int, s: Statement| !(#[trigger] stmt_at(t, lo, hi, s)) by {
                        if stmt_at(t, lo, hi, s) {
                            match s {
                                Statement::Assignment { name: n2, value: v2 } => {
                                    assert(!(expr_at(t, lo + 2, hi - 1, v2) && (hi - 1 == t.len()
                                        || !(t[hi - 1] is Plus))));
                                },
                                _ => {},
                            }
                        }
                    }
                }
                return Err(e);
            },
        };
        let ghost m_expr = self.pos();
        match self.expect(Token::Semicolon) {
            Ok(()) => {},
            Err(e) => {
                proof {
                    let t = old(self).toks();
                    let lo = old(self).pos();
                    assert forall|hi: int, s: Statement| !(#[trigger] stmt_at(t, lo, hi, s)) by {
                        if stmt_at(t, lo, hi, s) {
                            match s {
                                Statement::Assignment { name: n2, value: v2 } => {
                                    lemma_expr_extent_unique(t, lo + 2, m_expr, value, hi - 1, v2);
                                },
                                _ => {},
                            }
                        }
                    }
                }
                return Err(e);
            },
        }
        let result = Statement::Assignment { name, value };
        proof {
            assert(stmt_at(old(self).toks(), old(self).pos(), self.pos(), result));
        }
        Ok(result)
    }

    /// Parses a conditional: keyword, parenthesized condition, then-block,
    /// optional else keyword and block, end marker.
    fn parse_if_statement(&mut self) -> (r: Result<Statement, String>)
        requires
            old(self).wf(),
            old(self).pos() < old(self).toks().len(),
            old(self).toks()[old(self).pos()] is If,
        ensures
            final(self).toks() == old(self).toks(),
            final(self).wf(),
            r matches Ok(s) ==> stmt_at(old(self).toks(), old(self).pos(), final(self).pos(), s)
                && old(self).pos() < final(self).pos(),
            r is Err ==> forall|hi: int, s: Statement|
                !(#[trigger] stmt_at(old(self).toks(), old(self).pos(), hi, s)),
        decreases self.toks().len() - self.pos(), 3int,
    {
        self.advance();
        match self.expect(Token::LParen) {
            Ok(()) => {},
            Err(e) => return Err(e),
        }
        let condition = match self.parse_condition() {
            Ok(c) => c,
            Err(e) => {
                proof {
                    let t = old(self).toks();
                    let lo = old(self).pos();
                    assert forall|hi: int, s: Statement| !(#[trigger] stmt_at(t, lo, hi, s)) by {
                        if stmt_at(t, lo, hi, s) {
                            match s {
                                Statement::If { condition: c2, then_block: tb2, else_block: eb2 } => {
                                    let mh = lo + 2 + cond_tokens(c2);
                                    assert(!(cond_at(t, lo + 2, mh, c2) && (mh == t.len() || !(
                                    t[mh] is Plus))));
                                },
                                _ => {},
                            }
                        }
                    }
                }
                return Err(e);
            },
        };
        let ghost m = self.pos();
        match self.expect(Token::RParen) {
            Ok(()) => {},
            Err(e) => {
                proof {
                    let t = old(self).toks();
                    let lo = old(self).pos();
                    assert forall|hi: int, s: Statement| !(#[trigger] stmt_at(t, lo, hi, s)) by {
                        if stmt_at(t, lo, hi, s) {
                            match s {
                                Statement::If { condition: c2, then_block: tb2, else_block: eb2 } => {
                                    let mh = lo + 2 + cond_tokens(c2);
                                    lemma_cond_extent_unique(t, lo + 2, m, condition, mh, c2);
                                },
                                _ => {},
                            }
                        }
                    }
                }
                return Err(e);
            },
        }
        let then_block = match self.parse_block() {
            Ok(b) => b,
            Err(e) => {
                proof {
                    let t = old(self).toks();
                    let lo = old(self).pos();
                    assert forall|hi: int, s: Statement| !(#[trigger] stmt_at(t, lo, hi, s)) by {
                        if stmt_at(t, lo, hi, s) {
                            match s {
                                Statement::If { condition: c2, then_block: tb2, else_block: eb2 } => {
                                    let mh = lo + 2 + cond_tokens(c2);
                                    lemma_cond_extent_unique(t, lo + 2, m, condition, mh, c2);
                                    match eb2 {
                                        None => {
                                            assert(!block_at(t, m + 1, hi - 1, tb2));
                                        },
                                        Some(_) => {
                                            assert(!block_at(
                                                t,
                                                m + 1,
                                                m + 1 + block_tokens(tb2),
                                                tb2,
                                            ));
                                        },
                                    }
                                },
                                _ => {},
                            }
                        }
                    }
                }
                return Err(e);
            },
        };
        let ghost b2 = self.pos();
        let has_else = match self.current_token() {
            Some(Token::Else) => true,
            _ => false,
        };
        let else_block = if has_else {
            self.advance();
            match self.parse_block() {
                Ok(b) => Some(b),
                Err(e) => {
                    proof {
                        let t = old(self).toks();
                        let lo = old(self).pos();
                        assert forall|hi: int, s: Statement|
                            !(#[trigger] stmt_at(t, lo, hi, s)) by {
                            if stmt_at(t, lo, hi, s) {
                                match s {
                                    Statement::If {
                                        condition: c2,
                                        then_block: tb2,
                                        else_block: eb2,
                                    } => {
                                        let mh = lo + 2 + cond_tokens(c2);
                                        lemma_cond_extent_unique(t, lo + 2, m, condition, mh, c2);
                                        let e2 = match eb2 {
                                            None => hi - 1,
                                            Some(_) => mh + 1 + block_tokens(tb2),
                                        };
                                        lemma_block_extent_unique(
                                            t,
                                            m + 1,
                                            b2,
                                            then_block,
                                            e2,
                                            tb2,
                                        );
                                        match eb2 {
                                            Some(x2) => {
                                                assert(!block_at(t, b2 + 1, hi - 1, x2));
                                            },
                                            None => {},
                                        }
                                    },
                                    _ => {},
                                }
                            }
                        }
                    }
                    return Err(e);
                },
            }
        } else {
            None
        };
        let ghost b3 = self.pos();
        match self.expect(Token::EndIf) {
            Ok(()) => {},
            Err(e) => {
                proof {
                    let t = old(self).toks();
                    let lo = old(self).pos();
                    assert forall|hi: int, s: Statement| !(#[trigger] stmt_at(t, lo, hi, s)) by {
                        if stmt_at(t, lo, hi, s) {
                            match s {
                                Statement::If { condition: c2, then_block: tb2, else_block: eb2 } => {
                                    let mh = lo + 2 + cond_tokens(c2);
                                    lemma_cond_extent_unique(t, lo + 2, m, condition, mh, c2);
                                    let e2 = match eb2 {
                                        None => hi - 1,
                                        Some(_) => mh + 1 + block_tokens(tb2),
                                    };
                                    lemma_block_extent_unique(t, m + 1, b2, then_block, e2, tb2);
                                    if has_else {
                                        match (&else_block, eb2) {
                                            (Some(ebx), Some(x2)) => {
                                                lemma_block_extent_unique(
                                                    t,
                                                    b2 + 1,
                                                    b3,
                                                    *ebx,
                                                    hi - 1,
                                                    x2,
                                                );
                                            },
                                            _ => {},
                                        }
                                    }
                                },
                                _ => {},
                            }
                        }
                    }
                }
                return Err(e);
            },
        }
        let result = Statement::If { condition, then_block, else_block };
        proof {
            let t = old(self).toks();
            let lo = old(self).pos();
            let hi = self.pos();
            lemma_cond_extent(t, lo + 2, m, result->If_condition);
            lemma_block_extent(t, m + 1, b2, result->If_then_block);
            assert(stmt_at(t, lo, hi, result));
        }
        Ok(result)
    }

    /// Parses a loop: keyword, parenthesized condition, body block, end
    /// marker.
    fn parse_while_statement(&mut self) -> (r: Result<Statement, String>)
        requires
            old(self).wf(),
            old(self).pos() < old(self).toks().len(),
            old(self).toks()[old(self).pos()] is While,
        ensures
            final(self).toks() == old(self).toks(),
            final(self).wf(),
            r matches Ok(s) ==> stmt_at(old(self).toks(), old(self).pos(), final(self).pos(), s)
                && old(self).pos() < final(self).pos(),
            r is Err ==> forall|hi: int, s: Statement|
                !(#[trigger] stmt_at(old(self).toks(), old(self).pos(), hi, s)),
        decreases self.toks().len() - self.pos(), 3int,
    {
        self.advance();
        match self.expect(Token::LParen) {
            Ok(()) => {},
            Err(e) => return Err(e),
        }
        let condition = match self.parse_condition() {
            Ok(c) => c,
            Err(e) => {
                proof {
                    let t = old(self).toks();
                    let lo = old(self).pos();
                    assert forall|hi: int, s: Statement| !(#[trigger] stmt_at(t, lo, hi, s)) by {
                        if stmt_at(t, lo, hi, s) {
                            match s {
                                Statement::While { condition: c2, body: b2 } => {
                                    let mh = lo + 2 + cond_tokens(c2);
                                    assert(!(cond_at(t, lo + 2, mh, c2) && (mh == t.len() || !(
                                    t[mh] is Plus))));
                                },
                                _ => {},
                            }
                        }
                    }
                }
                return Err(e);
            },
        };
        let ghost m = self.pos();
        match self.expect(Token::RParen) {
            Ok(()) => {},
            Err(e) => {
                proof {
                    let t = old(self).toks();
                    let lo = old(self).pos();
                    assert forall|hi: int, s: Statement| !(#[trigger] stmt_at(t, lo, hi, s)) by {
                        if stmt_at(t, lo, hi, s) {
                            match s {
                                Statement::While { condition: c2, body: b2 } => {
                                    let mh = lo + 2 + cond_tokens(c2);
                                    lemma_cond_extent_unique(t, lo + 2, m, condition, mh, c2);
                                },
                                _ => {},
                            }
                        }
                    }
                }
                return Err(e);
            },
        }
        let body = match self.parse_block() {
            Ok(b) => b,
            Err(e) => {
                proof {
                    let t = old(self).toks();
                    let lo = old(self).pos();
                    assert forall|hi: int, s: Statement| !(#[trigger] stmt_at(t, lo, hi, s)) by {
                        if stmt_at(t, lo, hi, s) {
                            match s {
                                Statement::While { condition: c2, body: b2 } => {
                                    let mh = lo + 2 + cond_tokens(c2);
                                    lemma_cond_extent_unique(t, lo + 2, m, condition, mh, c2);
                                    assert(!block_at(t, m + 1, hi - 1, b2));
                                },
                                _ => {},
                            }
                        }
                    }
                }
                return Err(e);
            },
        };
        let ghost b_end = self.pos();
        match self.expect(Token::EndWhile) {
            Ok(()) => {},
            Err(e) => {
                proof {
                    let t = old(self).toks();
                    let lo = old(self).pos();
                    assert forall|hi: int, s: Statement| !(#[trigger] stmt_at(t, lo, hi, s)) by {
                        if stmt_at(t, lo, hi, s) {
                            match s {
                                Statement::While { condition: c2, body: b2 } => {
                                    let mh = lo + 2 + cond_tokens(c2);
                                    lemma_cond_extent_unique(t, lo + 2, m, condition, mh, c2);
                                    lemma_block_extent_unique(t, m + 1, b_end, body, hi - 1, b2);
                                },
                                _ => {},
                            }
                        }
                    }
                }
                return Err(e);
            },
        }
        let result = Statement::While { condition, body };
        proof {
            let t = old(self).toks();
            let lo = old(self).pos();
            lemma_cond_extent(t, lo + 2, m, result->While_condition);
            assert(stmt_at(t, lo, self.pos(), result));
        }
        Ok(result)
    }

    /// Parses a print statement: keyword, parenthesized expression, end
    /// marker.
    fn parse_print_statement(&mut self) -> (r: Result<Statement, String>)
        requires
            old(self).wf(),
            old(self).pos() < old(self).toks().len(),
            old(self).toks()[old(self).pos()] is Print,
        ensures
            final(self).toks() == old(self).toks(),
            final(self).wf(),
            r matches Ok(s) ==> stmt_at(old(self).toks(), old(self).pos(), final(self).pos(), s)
                && old(self).pos() < final(self).pos(),
            r is Err ==> forall|hi: int, s: Statement|
                !(#[trigger] stmt_at(old(self).toks(), old(self).pos(), hi, s)),
    {
        self.advance();
        match self.expect(Token::LParen) {
            Ok(()) => {},
            Err(e) => return Err(e),
        }
        let value = match self.parse_expression() {
            Ok(e) => e,
            Err(e) => {
                proof {
                    let t = old(self).toks();
                    let lo = old(self).pos();
                    assert forall|hi: int, s: Statement| !(#[trigger] stmt_at(t, lo, hi, s)) by {
                        if stmt_at(t, lo, hi, s) {
                            match s {
                                Statement::Print { value: v2 } => {
                                    assert(!(expr_at(t, lo + 2, hi - 2, v2) && (hi - 2 == t.len()
                                        || !(t[hi - 2] is Plus))));
                                },
                                _ => {},
                            }
                        }
                    }
                }
                return Err(e);
            },
        };
        let ghost m_expr = self.pos();
        match self.expect(Token::RParen) {
            Ok(()) => {},
            Err(e) => {
                proof {
                    let t = old(self).toks();
                    let lo = old(self).pos();
                    assert forall|hi: int, s: Statement| !(#[trigger] stmt_at(t, lo, hi, s)) by {
                        if stmt_at(t, lo, hi, s) {
                            match s {
                                Statement::Print { value: v2 } => {
                                    lemma_expr_extent_unique(t, lo + 2, m_expr, value, hi - 2, v2);
                                },
                                _ => {},
                            }
                        }
                    }
                }
                return Err(e);
            },
        }
        match self.expect(Token::EndPrint) {
            Ok(()) => {},
            Err(e) => {
                proof {
                    let t = old(self).toks();
                    let lo = old(self).pos();
                    assert forall|hi: int, s: Statement| !(#[trigger] stmt_at(t, lo, hi, s)) by {
                        if stmt_at(t, lo, hi, s) {
                            match s {
                                Statement::Print { value: v2 } => {
                                    lemma_expr_extent_unique(t, lo + 2, m_expr, value, hi - 2, v2);
                                },
                                _ => {},
                            }
                        }
                    }
                }
                return Err(e);
            },
        }
        let result = Statement::Print { value };
        proof {
            assert(stmt_at(old(self).toks(), old(self).pos(), self.pos(), result));
        }
        Ok(result)
    }

    /// Parses the whole token sequence as a program.  Every token must be
    /// consumed, and a program with zero statements — in particular, an empty
    /// token sequence — is rejected.
    pub fn parse_program(&mut self) -> (r: Result<Program, String>)
        requires
            old(self).wf(),
        ensures
            final(self).toks() == old(self).toks(),
            final(self).wf(),
            r matches Ok(p) ==> p.statements@.len() > 0 && stmts_at(
                old(self).toks(),
                old(self).pos(),
                old(self).toks().len() as int,
                p.statements@,
            ),
            r matches Ok(p) ==> (old(self).pos() == 0 ==> program_matches(old(self).toks(), p)),
            r is Ok ==> final(self).pos() == final(self).toks().len(),
            old(self).pos() >= old(self).toks().len() ==> r is Err,
            r is Err ==> forall|ss: Seq<Statement>|
                !(ss.len() > 0 && #[trigger] stmts_at(
                    old(self).toks(),
                    old(self).pos(),
                    old(self).toks().len() as int,
                    ss,
                )),
            r is Err ==> forall|p: Program|
                !(old(self).pos() == 0 && #[trigger] program_matches(old(self).toks(), p)),
    {
        let mut statements: Vec<Statement> = Vec::new();
        while self.position < self.tokens.len()
            invariant
                self.wf(),
                self.toks() == old(self).toks(),
                old(self).pos() <= self.pos() <= self.toks().len(),
                stmts_at(self.toks(), old(self).pos(), self.pos(), statements@),
                statements@.len() == 0 ==> self.pos() == old(self).pos(),
                statements@.len() > 0 ==> old(self).pos() < self.toks().len(),
            decreases self.toks().len() - self.pos(),
        {
            let ghost pre = self.pos();
            let stmt = match self.parse_statement() {
                Ok(s) => s,
                Err(e) => {
                    proof {
                        let t = old(self).toks();
                        let lo = old(self).pos();
                        assert forall|ss: Seq<Statement>|
                            !(ss.len() > 0 && #[trigger] stmts_at(t, lo, t.len() as int, ss)) by {
                            if ss.len() > 0 && stmts_at(t, lo, t.len() as int, ss) {
                                lemma_run_all(t, lo, pre, statements@, t.len() as int, ss);
                            }
                        }
                        assert forall|p: Program|
                            !(lo == 0 && #[trigger] program_matches(t, p)) by {
                            if lo == 0 && program_matches(t, p) {
                                assert(!(p.statements@.len() > 0 && stmts_at(
                                    t,
                                    lo,
                                    t.len() as int,
                                    p.statements@,
                                )));
                            }
                        }
                    }
                    return Err(e);
                },
            };
            proof {
                lemma_stmts_snoc(self.toks(), old(self).pos(), pre, self.pos(), statements@, stmt);
            }
            statements.push(stmt);
        }
        if statements.is_empty() {
            proof {
                let t = old(self).toks();
                let lo = old(self).pos();
                assert forall|ss: Seq<Statement>|
                    !(ss.len() > 0 && #[trigger] stmts_at(t, lo, t.len() as int, ss)) by {
                    if ss.len() > 0 && stmts_at(t, lo, t.len() as int, ss) {
                        assert(stmt_at(t, lo, lo + stmt_tokens(ss[0]), ss[0]));
                        lemma_stmt_in_range(t, lo, lo + stmt_tokens(ss[0]), ss[0]);
                    }
                }
                assert forall|p: Program| !(lo == 0 && #[trigger] program_matches(t, p)) by {
                    if lo == 0 && program_matches(t, p) {
                        assert(!(p.statements@.len() > 0 && stmts_at(
                            t,
                            lo,
                            t.len() as int,
                            p.statements@,
                        )));
                    }
                }
            }
            return Err(String::from_str("empty program"));
        }
        let result = Program { statements };
        Ok(result)
    }
}

} // verus!
