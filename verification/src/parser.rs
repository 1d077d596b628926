use vstd::prelude::*;

use crate::error::CompileError;
use crate::lexer::Token;

verus! {

/// The two-level operator vocabulary of expressions: add and subtract bind
/// at the lower precedence, multiply and divide at the higher; all four are
/// left-associative.
#[derive(Debug, Clone, Copy, PartialEq, Eq, Structural)]
pub enum BinaryOp {
    Add,
    Subtract,
    Multiply,
    Divide,
}

/// An expression of the source language. A numeric literal keeps its exact
/// spelling: the compiler is handed the double bit pattern for each
/// spelling separately, since the library performs no double arithmetic.
#[derive(Debug)]
pub enum Expr {
    Num(String),
    Str(String),
    Variable(String),
    Binary { op: BinaryOp, left: Box<Expr>, right: Box<Expr> },
    FunctionCall { name: String, arg: Option<Box<Expr>> },
    UserFunctionCall { name: String, args: Vec<Expr> },
}

/// A statement. Assignment and copy are distinct at the surface and
/// identical in meaning.
#[derive(Debug)]
pub enum Statement {
    Assign(String, Expr),
    Copy { dest: String, source: Expr },
    Print(Expr),
    If { condition: Expr, then_block: Vec<Statement>, else_block: Option<Vec<Statement>> },
    While { condition: Expr, body: Vec<Statement> },
    Return(Expr),
    Halt,
}

/// A user function definition: name, ordered parameter names, body.
#[derive(Debug)]
pub struct Function {
    pub name: String,
    pub params: Vec<String>,
    pub body: Vec<Statement>,
}

/// A whole program: the function definitions in declaration order,
/// followed by the statements of the main block.
#[derive(Debug)]
pub struct Program {
    pub functions: Vec<Function>,
    pub main_statements: Vec<Statement>,
}


// ---------------------------------------------------------------------------
// Shape of a parsed tree
// ---------------------------------------------------------------------------

/// The expression is rooted in an addition or subtraction.
pub open spec fn is_addsub(e: Expr) -> bool {
    match e {
        Expr::Binary { op, .. } => op == BinaryOp::Add || op == BinaryOp::Subtract,
        _ => false,
    }
}

/// The operator shape the grammar guarantees: both operator levels are
/// left-associative, multiplication and division bind tighter, a built-in
/// call names one of the three built-ins, and a variable is never spelled
/// like a built-in (those spellings always parse as calls).
pub open spec fn prec_ok(e: Expr) -> bool
    decreases e,
{
    match e {
        Expr::Binary { op, left, right } => prec_ok(*left) && prec_ok(*right) && (match op {
            BinaryOp::Add => !is_addsub(*right),
            BinaryOp::Subtract => !is_addsub(*right),
            BinaryOp::Multiply => !is_addsub(*left) && !(*right is Binary),
            BinaryOp::Divide => !is_addsub(*left) && !(*right is Binary),
        }),
        Expr::FunctionCall { name, arg } => (name@ == "TOUCHY"@ || name@ == "TRANSFORM"@ || name@
            == "RIZZED"@) && (match arg {
            Some(a) => prec_ok(*a),
            None => true,
        }),
        Expr::UserFunctionCall { args, .. } => exprs_ok(args),
        Expr::Variable(n) => n@ != "TRANSFORM"@ && n@ != "RIZZED"@,
        _ => true,
    }
}

pub open spec fn exprs_ok(args: Vec<Expr>) -> bool
    decreases args,
{
    forall|i: int| 0 <= i < args@.len() ==> prec_ok(#[trigger] args@[i])
}

pub open spec fn stmt_ok(s: Statement) -> bool
    decreases s,
{
    match s {
        Statement::Assign(_, e) => prec_ok(e),
        Statement::Copy { source, .. } => prec_ok(source),
        Statement::Print(e) => prec_ok(e),
        Statement::Return(e) => prec_ok(e),
        Statement::Halt => true,
        Statement::If { condition, then_block, else_block } => prec_ok(condition) && stmts_ok(
            then_block,
        ) && (match else_block {
            Some(eb) => stmts_ok(eb),
            None => true,
        }),
        Statement::While { condition, body } => prec_ok(condition) && stmts_ok(body),
    }
}

pub open spec fn stmts_ok(b: Vec<Statement>) -> bool
    decreases b,
{
    forall|i: int| 0 <= i < b@.len() ==> stmt_ok(#[trigger] b@[i])
}

/// Every expression of the program has the grammar's shape.
pub open spec fn program_ok(p: &Program) -> bool {
    (forall|i: int| 0 <= i < p.functions@.len() ==> stmts_ok(#[trigger] p.functions@[i].body))
        && stmts_ok(p.main_statements)
}

// ---------------------------------------------------------------------------
// The parser
// ---------------------------------------------------------------------------

/// Recursive-descent parser over the token stream. Diagnostics carry the
/// file name; as positions are not threaded through tokens, they point at
/// line and column one.
pub struct Parser {
    pub tokens: Vec<Token>,
    pub position: usize,
    pub filename: String,
}

/// Parses a token stream into a program: function definitions first, then
/// the required main block, with nothing but the end sentinel after it.
/// Every expression of the result has the grammar's operator shape.
pub fn parse(tokens: Vec<Token>, filename: &str) -> (r: Result<Program, CompileError>)
    ensures
        r matches Ok(p) ==> program_ok(&p),
        r matches Ok(p) ==> toks_wf(tokens@) ==> unparse_program(&p).len() < tokens@.len()
            && crate::lexer::toks_v(tokens@).subrange(0, unparse_program(&p).len() as int + 1)
            == unparse_program(&p) + seq![crate::lexer::TokenV::Eof],
{
    let mut parser = Parser::new(tokens, filename);
    let ghost tv = parser.tokens@;
    let r = parser.parse_program();
    proof {
        if toks_wf(tv) && r is Ok {
            let p = r->Ok_0;
            let q = parser.position as int;
            assert(unparse_program(&p).len() == q);
            assert(crate::lexer::toks_v(tv).subrange(0, q + 1) =~= tok_span(tv, 0, q) + seq![
                tv[q]@,
            ]);
        }
    }
    r
}

impl Parser {
    pub open spec fn wf(self) -> bool {
        self.position <= self.tokens@.len()
    }

    fn new(tokens: Vec<Token>, filename: &str) -> (p: Parser)
        ensures
            p.wf(),
            p.tokens@ == tokens@,
            p.position == 0,
    {
        Parser { tokens, position: 0, filename: filename.to_owned() }
    }

    fn error(&self, message: &str) -> (e: CompileError)
        ensures
            e.message@ == message@,
    {
        CompileError::new(self.filename.as_str(), self.get_line(), self.get_col(), message)
    }

    /// Whether the current token exists and is of the same kind as
    /// `expected` (which carries no payload).
    fn check(&self, expected: &Token) -> (r: bool)
        ensures
            r ==> self.position < self.tokens@.len() && self.tokens@[self.position as int]@
                == expected@,
            (!r && simple_tok(expected@) && self.position < self.tokens@.len())
                ==> self.tokens@[self.position as int]@ != expected@,
    {
        if self.position >= self.tokens.len() {
            return false;
        }
        let t = &self.tokens[self.position];
        match (t, expected) {
            (Token::Lock, Token::Lock) => true,
            (Token::In, Token::In) => true,
            (Token::Its, Token::Its) => true,
            (Token::Over, Token::Over) => true,
            (Token::Tralalero, Token::Tralalero) => true,
            (Token::Tralala, Token::Tralala) => true,
            (Token::Fanumtax, Token::Fanumtax) => true,
            (Token::Fr, Token::Fr) => true,
            (Token::Diddle, Token::Diddle) => true,
            (Token::Say, Token::Say) => true,
            (Token::Touchy, Token::Touchy) => true,
            (Token::Retreat, Token::Retreat) => true,
            (Token::Youshallnotpass, Token::Youshallnotpass) => true,
            (Token::Ongod, Token::Ongod) => true,
            (Token::No, Token::No) => true,
            (Token::Cap, Token::Cap) => true,
            (Token::Deadass, Token::Deadass) => true,
            (Token::Skibidi, Token::Skibidi) => true,
            (Token::Rizzup, Token::Rizzup) => true,
            (Token::Ring, Token::Ring) => true,
            (Token::Yas, Token::Yas) => true,
            (Token::Add, Token::Add) => true,
            (Token::Subtract, Token::Subtract) => true,
            (Token::Multiply, Token::Multiply) => true,
            (Token::Divide, Token::Divide) => true,
            (Token::LParen, Token::LParen) => true,
            (Token::RParen, Token::RParen) => true,
            (Token::Comma, Token::Comma) => true,
            (Token::Eof, Token::Eof) => true,
            _ => false,
        }
    }

    /// Consumes the current token if it is of the expected kind.
    fn consume(&mut self, expected: &Token) -> (r: bool)
        requires
            old(self).wf(),
        ensures
            final(self).wf(),
            final(self).tokens@ == old(self).tokens@,
            final(self).filename@ == old(self).filename@,
            r ==> final(self).position == old(self).position + 1 && old(self).tokens@[old(
                self,
            ).position as int]@ == expected@,
            !r ==> final(self).position == old(self).position,
            (!r && simple_tok(expected@) && old(self).position < old(self).tokens@.len())
                ==> old(self).tokens@[old(self).position as int]@ != expected@,
    {
        if self.check(expected) {
            self.advance();
            true
        } else {
            false
        }
    }

    fn get_line(&self) -> (r: usize)
        ensures
            r == 1,
    {
        1
    }

    fn get_col(&self) -> (r: usize)
        ensures
            r == 1,
    {
        1
    }
}


/// The binary operator and its precedence at a token position, if any.
pub open spec fn spec_current_op(toks: Seq<Token>, pos: int) -> Option<(BinaryOp, u8)> {
    if 0 <= pos < toks.len() {
        match toks[pos] {
            Token::Add => Some((BinaryOp::Add, 1u8)),
            Token::Subtract => Some((BinaryOp::Subtract, 1u8)),
            Token::Multiply => Some((BinaryOp::Multiply, 2u8)),
            Token::Divide => Some((BinaryOp::Divide, 2u8)),
            _ => None,
        }
    } else {
        None
    }
}

// ---------------------------------------------------------------------------
// The token spelling of an expression
// ---------------------------------------------------------------------------

/// The single token a built-in call is introduced by: the input keyword
/// for the input built-in, the bare name for the other two.
pub open spec fn call_head(n: Seq<char>) -> Seq<crate::lexer::TokenV> {
    if n == "TOUCHY"@ {
        seq![crate::lexer::TokenV::Touchy]
    } else {
        seq![crate::lexer::TokenV::Identifier(n)]
    }
}

/// The token of a binary operator.
pub open spec fn op_token(op: BinaryOp) -> crate::lexer::TokenV {
    match op {
        BinaryOp::Add => crate::lexer::TokenV::Add,
        BinaryOp::Subtract => crate::lexer::TokenV::Subtract,
        BinaryOp::Multiply => crate::lexer::TokenV::Multiply,
        BinaryOp::Divide => crate::lexer::TokenV::Divide,
    }
}

/// The token spelling of an expression: exactly the tokens it was parsed
/// from, since the grammar writes no grouping of its own.
pub open spec fn unparse_expr(e: Expr) -> Seq<crate::lexer::TokenV>
    decreases e, 1nat,
{
    match e {
        Expr::Num(t) => seq![crate::lexer::TokenV::Num(t@)],
        Expr::Str(t) => seq![crate::lexer::TokenV::Str(t@)],
        Expr::Variable(n) => (match crate::compiler::spec_braincell_index(n@) {
            Some(i) => seq![crate::lexer::TokenV::Braincell(i)],
            None => seq![crate::lexer::TokenV::Identifier(n@)],
        }),
        Expr::Binary { op, left, right } => unparse_expr(*left) + seq![op_token(op)]
            + unparse_expr(*right),
        Expr::FunctionCall { name, arg } => call_head(name@) + seq![
            crate::lexer::TokenV::LParen,
        ] + (match arg {
            Some(a) => unparse_expr(*a),
            None => Seq::empty(),
        }) + seq![crate::lexer::TokenV::RParen],
        Expr::UserFunctionCall { name, args } => seq![
            crate::lexer::TokenV::Ring,
            crate::lexer::TokenV::Yas,
            crate::lexer::TokenV::Identifier(name@),
            crate::lexer::TokenV::LParen,
        ] + unparse_args(args, 0) + seq![crate::lexer::TokenV::RParen],
    }
}

/// The comma-separated spellings of the arguments from index `i` on.
pub open spec fn unparse_args(args: Vec<Expr>, i: int) -> Seq<crate::lexer::TokenV>
    decreases args, args@.len() - i, 2nat,
{
    if i < 0 || i >= args@.len() {
        Seq::empty()
    } else if i == args@.len() - 1 {
        unparse_expr(args@[i])
    } else {
        unparse_expr(args@[i]) + seq![crate::lexer::TokenV::Comma] + unparse_args(args, i + 1)
    }
}

/// The token views of a span of the token stream.
pub open spec fn tok_span(toks: Seq<crate::lexer::Token>, a: int, b: int) -> Seq<
    crate::lexer::TokenV,
> {
    crate::lexer::toks_v(toks).subrange(a, b)
}

/// A stream the lexer can produce: slot tokens carry one of the seven
/// indices, and an identifier never spells a slot name.
pub open spec fn toks_wf(toks: Seq<crate::lexer::Token>) -> bool {
    forall|i: int| 0 <= i < toks.len() ==> match #[trigger] toks[i] {
        crate::lexer::Token::Braincell(b) => b < 7,
        crate::lexer::Token::Identifier(n) => crate::compiler::spec_braincell_index(n@) is None,
        _ => true,
    }
}

/// Each of the first `i` arguments' spelling, each followed by a comma.
pub open spec fn comma_chain(args: Seq<Expr>, i: int) -> Seq<crate::lexer::TokenV>
    decreases i,
{
    if i <= 0 {
        Seq::empty()
    } else {
        comma_chain(args, i - 1) + unparse_expr(args[i - 1]) + seq![crate::lexer::TokenV::Comma]
    }
}

proof fn lemma_comma_chain_push(args: Seq<Expr>, e: Expr, i: int)
    requires
        0 <= i <= args.len(),
    ensures
        comma_chain(args.push(e), i) == comma_chain(args, i),
    decreases i,
{
    if i > 0 {
        lemma_comma_chain_push(args, e, i - 1);
        assert(args.push(e)[i - 1] == args[i - 1]);
    }
}

proof fn lemma_comma_chain_closes(args: Vec<Expr>, i: int)
    requires
        0 <= i < args@.len(),
        i == args@.len() - 1,
    ensures
        comma_chain(args@, i) + unparse_expr(args@[i]) == unparse_args(args, 0),
    decreases i,
{
    lemma_comma_chain_closes_gen(args, i, 0);
}

proof fn lemma_comma_chain_closes_gen(args: Vec<Expr>, last: int, i: int)
    requires
        0 <= i <= last,
        last == args@.len() - 1,
    ensures
        comma_chain_from(args@, i, last) + unparse_expr(args@[last]) == unparse_args(args, i),
        i == 0 ==> comma_chain_from(args@, 0, last) == comma_chain(args@, last),
    decreases last - i,
{
    if i < last {
        lemma_comma_chain_closes_gen(args, last, i + 1);
        assert(comma_chain_from(args@, i, last) =~= unparse_expr(args@[i]) + seq![
            crate::lexer::TokenV::Comma,
        ] + comma_chain_from(args@, i + 1, last));
        assert(comma_chain_from(args@, i, last) + unparse_expr(args@[last]) =~= unparse_expr(
            args@[i],
        ) + seq![crate::lexer::TokenV::Comma] + (comma_chain_from(args@, i + 1, last)
            + unparse_expr(args@[last])));
    } else {
        assert(comma_chain_from(args@, i, last) =~= Seq::<crate::lexer::TokenV>::empty());
        assert(comma_chain_from(args@, i, last) + unparse_expr(args@[last]) =~= unparse_expr(
            args@[last],
        ));
    }
    if i == 0 {
        lemma_chain_forms(args@, last);
    }
}

/// The chain of arguments `i` up to (excluding) `last`, each followed by
/// a comma.
pub open spec fn comma_chain_from(args: Seq<Expr>, i: int, last: int) -> Seq<
    crate::lexer::TokenV,
>
    decreases last - i,
{
    if i >= last {
        Seq::empty()
    } else {
        unparse_expr(args[i]) + seq![crate::lexer::TokenV::Comma] + comma_chain_from(
            args,
            i + 1,
            last,
        )
    }
}

proof fn lemma_chain_forms(args: Seq<Expr>, k: int)
    requires
        0 <= k <= args.len(),
    ensures
        comma_chain_from(args, 0, k) == comma_chain(args, k),
    decreases k,
{
    if k > 0 {
        lemma_chain_forms(args, k - 1);
        lemma_chain_from_snoc(args, 0, k);
    }
}

proof fn lemma_chain_from_snoc(args: Seq<Expr>, i: int, k: int)
    requires
        0 <= i < k <= args.len(),
    ensures
        comma_chain_from(args, i, k) == comma_chain_from(args, i, k - 1) + unparse_expr(
            args[k - 1],
        ) + seq![crate::lexer::TokenV::Comma],
    decreases k - i,
{
    if i < k - 1 {
        lemma_chain_from_snoc(args, i + 1, k);
        assert(comma_chain_from(args, i, k) == unparse_expr(args[i]) + seq![
            crate::lexer::TokenV::Comma,
        ] + comma_chain_from(args, i + 1, k));
        assert(comma_chain_from(args, i, k - 1) == unparse_expr(args[i]) + seq![
            crate::lexer::TokenV::Comma,
        ] + comma_chain_from(args, i + 1, k - 1));
        assert(unparse_expr(args[i]) + seq![crate::lexer::TokenV::Comma] + (comma_chain_from(
            args,
            i + 1,
            k - 1,
        ) + unparse_expr(args[k - 1]) + seq![crate::lexer::TokenV::Comma]) =~= (unparse_expr(
            args[i],
        ) + seq![crate::lexer::TokenV::Comma] + comma_chain_from(args, i + 1, k - 1))
            + unparse_expr(args[k - 1]) + seq![crate::lexer::TokenV::Comma]);
    } else {
        assert(comma_chain_from(args, i, k - 1) =~= Seq::<crate::lexer::TokenV>::empty());
        assert(comma_chain_from(args, i, k) == unparse_expr(args[i]) + seq![
            crate::lexer::TokenV::Comma,
        ] + comma_chain_from(args, i + 1, k));
        assert(comma_chain_from(args, i + 1, k) =~= Seq::<crate::lexer::TokenV>::empty());
        assert(comma_chain_from(args, i, k) =~= comma_chain_from(args, i, k - 1) + unparse_expr(
            args[k - 1],
        ) + seq![crate::lexer::TokenV::Comma]);
    }
}

/// Looking a slot name back up yields the slot it names, and no slot name
/// spells a built-in.
proof fn lemma_braincell_roundtrip(i: u8)
    requires
        i < 7,
    ensures
        crate::compiler::spec_braincell_index(crate::vm::spec_braincell_name(i)) == Some(i),
        crate::vm::spec_braincell_name(i) != "TRANSFORM"@,
        crate::vm::spec_braincell_name(i) != "RIZZED"@,
{
    reveal_strlit("aura");
    reveal_strlit("peak");
    reveal_strlit("goon");
    reveal_strlit("mog");
    reveal_strlit("npc");
    reveal_strlit("sigma");
    reveal_strlit("gyatt");
    reveal_strlit("TRANSFORM");
    reveal_strlit("RIZZED");
    assert("aura"@.len() == 4);
    assert("peak"@.len() == 4);
    assert("goon"@.len() == 4);
    assert("mog"@.len() == 3);
    assert("npc"@.len() == 3);
    assert("sigma"@.len() == 5);
    assert("gyatt"@.len() == 5);
    assert("TRANSFORM"@.len() == 9);
    assert("RIZZED"@.len() == 6);
    assert("aura"@[0] == 'a' && "peak"@[0] == 'p' && "goon"@[0] == 'g' && "mog"@[0] == 'm');
    assert("npc"@[0] == 'n' && "sigma"@[0] == 's' && "gyatt"@[0] == 'g' && "gyatt"@[1] == 'y');
    assert("goon"@[1] == 'o');
}

/// The three built-in names are pairwise distinct.
proof fn lemma_builtin_names()
    ensures
        "TOUCHY"@ != "TRANSFORM"@,
        "TOUCHY"@ != "RIZZED"@,
        "TRANSFORM"@ != "RIZZED"@,
{
    reveal_strlit("TOUCHY");
    reveal_strlit("TRANSFORM");
    reveal_strlit("RIZZED");
    assert("TOUCHY"@.len() == 6);
    assert("TRANSFORM"@.len() == 9);
    assert("RIZZED"@.len() == 6);
    assert("TOUCHY"@[0] == 'T' && "RIZZED"@[0] == 'R');
}

proof fn lemma_span_one(toks: Seq<crate::lexer::Token>, p: int)
    requires
        0 <= p < toks.len(),
    ensures
        tok_span(toks, p, p + 1) == seq![toks[p]@],
{
    assert(tok_span(toks, p, p + 1) =~= seq![toks[p]@]);
}

proof fn lemma_span_split(toks: Seq<crate::lexer::Token>, a: int, b: int, c: int)
    requires
        0 <= a <= b <= c <= toks.len(),
    ensures
        tok_span(toks, a, c) == tok_span(toks, a, b) + tok_span(toks, b, c),
{
    assert(tok_span(toks, a, c) =~= tok_span(toks, a, b) + tok_span(toks, b, c));
}


/// A token kind that carries no payload, so kind and view coincide.
pub open spec fn simple_tok(t: crate::lexer::TokenV) -> bool {
    !(t is Num || t is Str || t is Identifier || t is Braincell)
}

/// The tokens a statement can start with.
pub open spec fn stmt_starts(t: crate::lexer::TokenV) -> bool {
    t is Fanumtax || t is Diddle || t is Say || t is Retreat || t is Youshallnotpass
        || t is Ongod || t is Skibidi
}

/// The tokens a term can start with.
pub open spec fn term_starts(t: crate::lexer::TokenV) -> bool {
    t is Num || t is Str || t is Braincell || t is Identifier || t is Touchy || t is Ring
}

/// The token an assignment target is spelled by: the slot token for a slot
/// name, a bare identifier otherwise.
pub open spec fn target_tok(n: Seq<char>) -> crate::lexer::TokenV {
    match crate::compiler::spec_braincell_index(n) {
        Some(i) => crate::lexer::TokenV::Braincell(i),
        None => crate::lexer::TokenV::Identifier(n),
    }
}

/// The token spelling of a statement.
pub open spec fn unparse_stmt(s: Statement) -> Seq<crate::lexer::TokenV>
    decreases s, 1nat,
{
    match s {
        Statement::Assign(n, e) => seq![
            crate::lexer::TokenV::Fanumtax,
            target_tok(n@),
            crate::lexer::TokenV::Fr,
        ] + unparse_expr(e),
        Statement::Copy { dest, source } => seq![
            crate::lexer::TokenV::Diddle,
            target_tok(dest@),
            crate::lexer::TokenV::Fr,
        ] + unparse_expr(source),
        Statement::Print(e) => seq![crate::lexer::TokenV::Say] + unparse_expr(e),
        Statement::Return(e) => seq![crate::lexer::TokenV::Retreat] + unparse_expr(e),
        Statement::Halt => seq![crate::lexer::TokenV::Youshallnotpass],
        Statement::If { condition, then_block, else_block } => seq![crate::lexer::TokenV::Ongod]
            + unparse_expr(condition) + unparse_block(then_block, 0) + (match else_block {
            Some(eb) => seq![crate::lexer::TokenV::No, crate::lexer::TokenV::Cap]
                + unparse_block(eb, 0),
            None => Seq::empty(),
        }) + seq![crate::lexer::TokenV::Deadass],
        Statement::While { condition, body } => seq![crate::lexer::TokenV::Skibidi]
            + unparse_expr(condition) + unparse_block(body, 0) + seq![
            crate::lexer::TokenV::Rizzup,
        ],
    }
}

/// The token spelling of the statements of a block, from index `i` on.
pub open spec fn unparse_block(b: Vec<Statement>, i: int) -> Seq<crate::lexer::TokenV>
    decreases b, b@.len() - i, 2nat,
{
    if i < 0 || i >= b@.len() {
        Seq::empty()
    } else {
        unparse_stmt(b@[i]) + unparse_block(b, i + 1)
    }
}

/// The comma-separated parameter names from index `i` on.
pub open spec fn unparse_params(params: Vec<String>, i: int) -> Seq<crate::lexer::TokenV>
    decreases params@.len() - i,
{
    if i < 0 || i >= params@.len() {
        Seq::empty()
    } else if i == params@.len() - 1 {
        seq![crate::lexer::TokenV::Identifier(params@[i]@)]
    } else {
        seq![crate::lexer::TokenV::Identifier(params@[i]@), crate::lexer::TokenV::Comma]
            + unparse_params(params, i + 1)
    }
}

/// The token spelling of one function definition.
pub open spec fn unparse_function(f: Function) -> Seq<crate::lexer::TokenV>
    decreases f, 3nat,
{
    seq![
        crate::lexer::TokenV::Tralalero,
        crate::lexer::TokenV::Identifier(f.name@),
        crate::lexer::TokenV::LParen,
    ] + unparse_params(f.params, 0) + seq![crate::lexer::TokenV::RParen] + unparse_block(
        f.body,
        0,
    ) + seq![crate::lexer::TokenV::Tralala]
}

pub open spec fn unparse_functions(fs: Vec<Function>, i: int) -> Seq<crate::lexer::TokenV>
    decreases fs, fs@.len() - i, 4nat,
{
    if i < 0 || i >= fs@.len() {
        Seq::empty()
    } else {
        unparse_function(fs@[i]) + unparse_functions(fs, i + 1)
    }
}

/// The token spelling of a whole program: the functions in order, then the
/// delimited main block.
pub open spec fn unparse_program(p: &Program) -> Seq<crate::lexer::TokenV> {
    unparse_functions(p.functions, 0) + seq![crate::lexer::TokenV::Lock, crate::lexer::TokenV::In]
        + unparse_block(p.main_statements, 0) + seq![
        crate::lexer::TokenV::Its,
        crate::lexer::TokenV::Over,
    ]
}

proof fn lemma_unparse_block_push(b1: Vec<Statement>, b2: Vec<Statement>, s: Statement, i: int)
    requires
        b2@ == b1@.push(s),
        0 <= i <= b1@.len(),
    ensures
        unparse_block(b2, i) == unparse_block(b1, i) + unparse_stmt(s),
    decreases b1@.len() - i,
{
    if i < b1@.len() {
        assert(b2@[i] == b1@[i]);
        lemma_unparse_block_push(b1, b2, s, i + 1);
        assert(unparse_block(b2, i) =~= unparse_block(b1, i) + unparse_stmt(s));
    } else {
        assert(b2@[i] == s);
        assert(unparse_block(b2, i + 1) =~= Seq::<crate::lexer::TokenV>::empty());
        assert(unparse_block(b1, i) =~= Seq::<crate::lexer::TokenV>::empty());
        assert(unparse_block(b2, i) =~= unparse_block(b1, i) + unparse_stmt(s));
    }
}

proof fn lemma_unparse_functions_push(
    b1: Vec<Function>,
    b2: Vec<Function>,
    f: Function,
    i: int,
)
    requires
        b2@ == b1@.push(f),
        0 <= i <= b1@.len(),
    ensures
        unparse_functions(b2, i) == unparse_functions(b1, i) + unparse_function(f),
    decreases b1@.len() - i,
{
    if i < b1@.len() {
        assert(b2@[i] == b1@[i]);
        lemma_unparse_functions_push(b1, b2, f, i + 1);
        assert(unparse_functions(b2, i) =~= unparse_functions(b1, i) + unparse_function(f));
    } else {
        assert(b2@[i] == f);
        assert(unparse_functions(b2, i + 1) =~= Seq::<crate::lexer::TokenV>::empty());
        assert(unparse_functions(b1, i) =~= Seq::<crate::lexer::TokenV>::empty());
        assert(unparse_functions(b2, i) =~= unparse_functions(b1, i) + unparse_function(f));
    }
}

/// Each of the first `i` parameter names, each followed by a comma.
pub open spec fn param_chain(params: Seq<String>, i: int) -> Seq<crate::lexer::TokenV>
    decreases i,
{
    if i <= 0 {
        Seq::empty()
    } else {
        param_chain(params, i - 1) + seq![
            crate::lexer::TokenV::Identifier(params[i - 1]@),
            crate::lexer::TokenV::Comma,
        ]
    }
}

proof fn lemma_param_chain_push(params: Seq<String>, p: String, i: int)
    requires
        0 <= i <= params.len(),
    ensures
        param_chain(params.push(p), i) == param_chain(params, i),
    decreases i,
{
    if i > 0 {
        lemma_param_chain_push(params, p, i - 1);
        assert(params.push(p)[i - 1] == params[i - 1]);
    }
}

proof fn lemma_param_chain_closes(params: Vec<String>, i: int)
    requires
        0 <= i < params@.len(),
        i == params@.len() - 1,
    ensures
        param_chain(params@, i) + seq![crate::lexer::TokenV::Identifier(params@[i]@)]
            == unparse_params(params, 0),
{
    lemma_param_chain_closes_gen(params, i, 0);
}

proof fn lemma_param_chain_closes_gen(params: Vec<String>, last: int, i: int)
    requires
        0 <= i <= last,
        last == params@.len() - 1,
    ensures
        param_chain_from(params@, i, last) + seq![
            crate::lexer::TokenV::Identifier(params@[last]@),
        ] == unparse_params(params, i),
        i == 0 ==> param_chain_from(params@, 0, last) == param_chain(params@, last),
    decreases last - i,
{
    if i < last {
        lemma_param_chain_closes_gen(params, last, i + 1);
        assert(param_chain_from(params@, i, last) + seq![
            crate::lexer::TokenV::Identifier(params@[last]@),
        ] =~= seq![
            crate::lexer::TokenV::Identifier(params@[i]@),
            crate::lexer::TokenV::Comma,
        ] + (param_chain_from(params@, i + 1, last) + seq![
            crate::lexer::TokenV::Identifier(params@[last]@),
        ]));
    } else {
        assert(param_chain_from(params@, i, last) =~= Seq::<crate::lexer::TokenV>::empty());
        assert(param_chain_from(params@, i, last) + seq![
            crate::lexer::TokenV::Identifier(params@[last]@),
        ] =~= seq![crate::lexer::TokenV::Identifier(params@[last]@)]);
    }
    if i == 0 {
        lemma_param_chain_forms(params@, last);
    }
}

pub open spec fn param_chain_from(params: Seq<String>, i: int, last: int) -> Seq<
    crate::lexer::TokenV,
>
    decreases last - i,
{
    if i >= last {
        Seq::empty()
    } else {
        seq![crate::lexer::TokenV::Identifier(params[i]@), crate::lexer::TokenV::Comma]
            + param_chain_from(params, i + 1, last)
    }
}

proof fn lemma_param_chain_forms(params: Seq<String>, k: int)
    requires
        0 <= k <= params.len(),
    ensures
        param_chain_from(params, 0, k) == param_chain(params, k),
    decreases k,
{
    if k > 0 {
        lemma_param_chain_forms(params, k - 1);
        lemma_param_chain_from_snoc(params, 0, k);
    }
}

proof fn lemma_param_chain_from_snoc(params: Seq<String>, i: int, k: int)
    requires
        0 <= i < k <= params.len(),
    ensures
        param_chain_from(params, i, k) == param_chain_from(params, i, k - 1) + seq![
            crate::lexer::TokenV::Identifier(params[k - 1]@),
            crate::lexer::TokenV::Comma,
        ],
    decreases k - i,
{
    if i < k - 1 {
        lemma_param_chain_from_snoc(params, i + 1, k);
        assert(param_chain_from(params, i, k) =~= param_chain_from(params, i, k - 1) + seq![
            crate::lexer::TokenV::Identifier(params[k - 1]@),
            crate::lexer::TokenV::Comma,
        ]);
    } else {
        assert(param_chain_from(params, i, k - 1) =~= Seq::<crate::lexer::TokenV>::empty());
        assert(param_chain_from(params, i + 1, k) =~= Seq::<crate::lexer::TokenV>::empty());
        assert(param_chain_from(params, i, k) =~= param_chain_from(params, i, k - 1) + seq![
            crate::lexer::TokenV::Identifier(params[k - 1]@),
            crate::lexer::TokenV::Comma,
        ]);
    }
}

impl Parser {
    /// Steps past the current token.
    fn advance(&mut self)
        requires
            old(self).wf(),
            old(self).position < old(self).tokens@.len(),
        ensures
            final(self).wf(),
            final(self).tokens@ == old(self).tokens@,
            final(self).filename@ == old(self).filename@,
            final(self).position == old(self).position + 1,
    {
        let n = self.tokens.len();
        self.position = self.position + 1;
    }

    fn current_binary_op(&self) -> (r: Option<(BinaryOp, u8)>)
        ensures
            r == spec_current_op(self.tokens@, self.position as int),
    {
        if self.position >= self.tokens.len() {
            return None;
        }
        match &self.tokens[self.position] {
            Token::Add => Some((BinaryOp::Add, 1)),
            Token::Subtract => Some((BinaryOp::Subtract, 1)),
            Token::Multiply => Some((BinaryOp::Multiply, 2)),
            Token::Divide => Some((BinaryOp::Divide, 2)),
            _ => None,
        }
    }

    #[verifier::loop_isolation(false)]
    fn parse_program(&mut self) -> (r: Result<Program, CompileError>)
        requires
            old(self).wf(),
        ensures
            final(self).wf(),
            final(self).tokens@ == old(self).tokens@,
            r matches Ok(p) ==> program_ok(&p),
            r is Ok ==> final(self).position < final(self).tokens@.len()
                && final(self).tokens@[final(self).position as int]@
                == crate::lexer::TokenV::Eof,
            r matches Ok(p) ==> toks_wf(old(self).tokens@) ==> unparse_program(&p) == tok_span(
                old(self).tokens@,
                old(self).position as int,
                final(self).position as int,
            ),
    {
        let ghost p0 = self.position as int;
        let mut functions: Vec<Function> = Vec::new();
        proof {
            assert(tok_span(self.tokens@, p0, p0) =~= unparse_functions(functions, 0));
        }
        while self.consume(&Token::Tralalero)
            invariant
                self.wf(),
                self.tokens@ == old(self).tokens@,
                self.filename@ == old(self).filename@,
                self.position >= old(self).position,
                p0 <= self.position as int,
                forall|i: int| 0 <= i < functions@.len() ==> #[trigger] stmts_ok(
                    functions@[i].body,
                ),
                toks_wf(old(self).tokens@) ==> tok_span(
                    old(self).tokens@,
                    p0,
                    self.position as int,
                ) == unparse_functions(functions, 0),
            decreases self.tokens@.len() - self.position,
        {
            let ghost f0 = functions@;
            let ghost fv1 = functions;
            let ghost fstart = self.position as int;
            let f = match self.parse_function() {
                Ok(f) => f,
                Err(e) => {
                    return Err(e);
                },
            };
            let ghost gf = f;
            functions.push(f);
            proof {
                assert forall|i: int| 0 <= i < functions@.len() implies #[trigger] stmts_ok(
                    functions@[i].body,
                ) by {
                    if i < f0.len() {
                        assert(functions@[i] == f0[i]);
                    }
                }
                if toks_wf(old(self).tokens@) {
                    lemma_span_one(self.tokens@, fstart - 1);
                    lemma_span_split(self.tokens@, p0, fstart - 1, self.position as int);
                    lemma_span_split(self.tokens@, fstart - 1, fstart, self.position as int);
                    lemma_unparse_functions_push(fv1, functions, gf, 0);
                }
            }
        }
        let ghost pl = self.position as int;
        if !self.consume(&Token::Lock) {
            return Err(self.error("program must start with LOCK IN"));
        }
        if !self.consume(&Token::In) {
            return Err(self.error("program must start with LOCK IN"));
        }
        let ghost ms0 = self.position as int;
        let mut statements: Vec<Statement> = Vec::new();
        proof {
            assert(tok_span(self.tokens@, ms0, ms0) =~= unparse_block(statements, 0));
        }
        while !self.check(&Token::Its)
            invariant
                self.wf(),
                self.tokens@ == old(self).tokens@,
                self.filename@ == old(self).filename@,
                self.position >= old(self).position,
                ms0 <= self.position as int,
                forall|i: int| 0 <= i < statements@.len() ==> stmt_ok(#[trigger] statements@[i]),
                toks_wf(old(self).tokens@) ==> tok_span(
                    old(self).tokens@,
                    ms0,
                    self.position as int,
                ) == unparse_block(statements, 0),
            decreases self.tokens@.len() - self.position,
        {
            let ghost s0 = statements@;
            let ghost sv1 = statements;
            let ghost spos = self.position as int;
            let st = match self.parse_statement() {
                Ok(st) => st,
                Err(e) => {
                    return Err(e);
                },
            };
            let ghost gst = st;
            statements.push(st);
            proof {
                assert forall|i: int| 0 <= i < statements@.len() implies #[trigger] stmt_ok(
                    statements@[i],
                ) by {
                    if i < s0.len() {
                        assert(statements@[i] == s0[i]);
                    }
                }
                if toks_wf(old(self).tokens@) {
                    lemma_span_split(self.tokens@, ms0, spos, self.position as int);
                    lemma_unparse_block_push(sv1, statements, gst, 0);
                }
            }
        }
        let ghost pi0 = self.position as int;
        if !self.consume(&Token::Its) {
            return Err(self.error("program must end with ITS OVER"));
        }
        if !self.consume(&Token::Over) {
            return Err(self.error("program must end with ITS OVER"));
        }
        if !self.check(&Token::Eof) {
            return Err(self.error("unexpected token after ITS OVER"));
        }
        proof {
            assert(stmts_ok(statements));
            if toks_wf(old(self).tokens@) {
                lemma_span_one(self.tokens@, pl);
                lemma_span_one(self.tokens@, pl + 1);
                lemma_span_one(self.tokens@, pi0);
                lemma_span_one(self.tokens@, pi0 + 1);
                lemma_span_split(self.tokens@, p0, pl, self.position as int);
                lemma_span_split(self.tokens@, pl, pl + 1, self.position as int);
                lemma_span_split(self.tokens@, pl + 1, ms0, self.position as int);
                lemma_span_split(self.tokens@, ms0, pi0, self.position as int);
                lemma_span_split(self.tokens@, pi0, pi0 + 1, self.position as int);
                assert(unparse_program(
                    &Program { functions, main_statements: statements },
                ) =~= tok_span(self.tokens@, p0, self.position as int));
            }
        }
        Ok(Program { functions, main_statements: statements })
    }

    /// Reads the parenthesized, comma-separated parameter list; the cursor
    /// is just past the opening parenthesis.
    #[verifier::loop_isolation(false)]
    fn parse_params(&mut self) -> (r: Result<Vec<String>, CompileError>)
        requires
            old(self).wf(),
        ensures
            final(self).wf(),
            final(self).tokens@ == old(self).tokens@,
            final(self).filename@ == old(self).filename@,
            final(self).position >= old(self).position,
            r matches Ok(params) ==> toks_wf(old(self).tokens@) ==> tok_span(
                old(self).tokens@,
                old(self).position as int,
                final(self).position as int,
            ) == unparse_params(params, 0) + seq![crate::lexer::TokenV::RParen],
    {
        let ghost ps0 = self.position as int;
        let mut params: Vec<String> = Vec::new();
        if self.check(&Token::RParen) {
            self.advance();
            proof {
                lemma_span_one(self.tokens@, ps0);
                assert(unparse_params(params, 0) =~= Seq::<crate::lexer::TokenV>::empty());
                assert(tok_span(self.tokens@, ps0, self.position as int) =~= unparse_params(
                    params,
                    0,
                ) + seq![crate::lexer::TokenV::RParen]);
            }
            return Ok(params);
        }
        let mut done = false;
        proof {
            assert(tok_span(self.tokens@, ps0, ps0) =~= param_chain(params@, 0));
        }
        while !done
            invariant
                self.wf(),
                self.tokens@ == old(self).tokens@,
                self.filename@ == old(self).filename@,
                self.position >= old(self).position,
                ps0 <= self.position as int,
                (toks_wf(old(self).tokens@) && !done) ==> tok_span(
                    old(self).tokens@,
                    ps0,
                    self.position as int,
                ) == param_chain(params@, params@.len() as int),
                (toks_wf(old(self).tokens@) && done) ==> tok_span(
                    old(self).tokens@,
                    ps0,
                    self.position as int,
                ) == unparse_params(params, 0) + seq![crate::lexer::TokenV::RParen],
            decreases self.tokens@.len() - self.position + (if done {
                0int
            } else {
                1int
            }),
        {
            let ghost a0 = params@;
            let ghost pp = self.position as int;
            if self.position < self.tokens.len() {
                match &self.tokens[self.position] {
                    Token::Identifier(n) => {
                        let p = n.clone();
                        self.advance();
                        params.push(p);
                    },
                    _ => {
                        return Err(self.error("expected parameter name"));
                    },
                }
            } else {
                return Err(self.error("expected parameter name"));
            }
            let ghost pq = self.position as int;
            if self.consume(&Token::Comma) {
                proof {
                    if toks_wf(old(self).tokens@) {
                        lemma_span_one(self.tokens@, pp);
                        lemma_span_one(self.tokens@, pq);
                        lemma_span_split(self.tokens@, ps0, pp, pq + 1);
                        lemma_span_split(self.tokens@, pp, pq, pq + 1);
                        lemma_param_chain_push(a0, params@.last(), a0.len() as int);
                        assert(param_chain(params@, params@.len() as int) == param_chain(
                            params@,
                            a0.len() as int,
                        ) + seq![
                            crate::lexer::TokenV::Identifier(params@[a0.len() as int]@),
                            crate::lexer::TokenV::Comma,
                        ]);
                        assert(tok_span(self.tokens@, ps0, self.position as int) =~= param_chain(
                            params@,
                            params@.len() as int,
                        ));
                    }
                }
            } else if self.consume(&Token::RParen) {
                proof {
                    if toks_wf(old(self).tokens@) {
                        lemma_span_one(self.tokens@, pp);
                        lemma_span_one(self.tokens@, pq);
                        lemma_span_split(self.tokens@, ps0, pp, pq + 1);
                        lemma_span_split(self.tokens@, pp, pq, pq + 1);
                        lemma_param_chain_push(a0, params@.last(), a0.len() as int);
                        lemma_param_chain_closes(params, params@.len() as int - 1);
                        assert(tok_span(self.tokens@, ps0, self.position as int)
                            =~= unparse_params(params, 0) + seq![
                            crate::lexer::TokenV::RParen,
                        ]);
                    }
                }
                done = true;
            } else {
                return Err(self.error("expected ',' or ')' in parameter list"));
            }
        }
        Ok(params)
    }

    #[verifier::loop_isolation(false)]
    fn parse_function(&mut self) -> (r: Result<Function, CompileError>)
        requires
            old(self).wf(),
        ensures
            final(self).wf(),
            final(self).tokens@ == old(self).tokens@,
            final(self).filename@ == old(self).filename@,
            final(self).position >= old(self).position,
            r matches Ok(f) ==> stmts_ok(f.body),
            r matches Ok(f) ==> toks_wf(old(self).tokens@) ==> unparse_function(f) == seq![
                crate::lexer::TokenV::Tralalero,
            ] + tok_span(
                old(self).tokens@,
                old(self).position as int,
                final(self).position as int,
            ),
    {
        let ghost p0 = self.position as int;
        let name = if self.position < self.tokens.len() {
            match &self.tokens[self.position] {
                Token::Identifier(n) => {
                    let name = n.clone();
                    self.advance();
                    name
                },
                _ => {
                    return Err(self.error("expected function name"));
                },
            }
        } else {
            return Err(self.error("expected function name"));
        };
        if !self.consume(&Token::LParen) {
            return Err(self.error("expected '(' after function name"));
        }
        let ghost ps0 = self.position as int;
        let params = match self.parse_params() {
            Ok(ps) => ps,
            Err(e) => {
                return Err(e);
            },
        };
        let ghost bs0 = self.position as int;
        let mut body: Vec<Statement> = Vec::new();
        proof {
            assert(tok_span(self.tokens@, bs0, bs0) =~= unparse_block(body, 0));
        }
        let mut done = false;
        while !done
            invariant
                self.wf(),
                self.tokens@ == old(self).tokens@,
                self.filename@ == old(self).filename@,
                self.position >= old(self).position,
                bs0 <= self.position as int,
                forall|i: int| 0 <= i < body@.len() ==> stmt_ok(#[trigger] body@[i]),
                (toks_wf(old(self).tokens@) && !done) ==> tok_span(
                    old(self).tokens@,
                    bs0,
                    self.position as int,
                ) == unparse_block(body, 0),
                (toks_wf(old(self).tokens@) && done) ==> tok_span(
                    old(self).tokens@,
                    bs0,
                    self.position as int,
                ) == unparse_block(body, 0) + seq![crate::lexer::TokenV::Tralala],
            decreases self.tokens@.len() - self.position + (if done {
                0int
            } else {
                1int
            }),
        {
            let ghost pt = self.position as int;
            if self.consume(&Token::Tralala) {
                proof {
                    if toks_wf(old(self).tokens@) {
                        lemma_span_one(self.tokens@, pt);
                        lemma_span_split(self.tokens@, bs0, pt, self.position as int);
                    }
                }
                done = true;
            } else {
                let ghost b0 = body@;
                let ghost bv1 = body;
                let ghost spos = self.position as int;
                let st = match self.parse_statement() {
                    Ok(st) => st,
                    Err(e) => {
                        return Err(e);
                    },
                };
                let ghost gst = st;
                body.push(st);
                proof {
                    assert forall|i: int| 0 <= i < body@.len() implies stmt_ok(
                        #[trigger] body@[i],
                    ) by {
                        if i < b0.len() {
                            assert(body@[i] == b0[i]);
                        }
                    }
                    if toks_wf(old(self).tokens@) {
                        lemma_span_split(self.tokens@, bs0, spos, self.position as int);
                        lemma_unparse_block_push(bv1, body, gst, 0);
                    }
                }
            }
        }
        proof {
            assert(stmts_ok(body));
            if toks_wf(old(self).tokens@) {
                lemma_span_one(self.tokens@, p0);
                lemma_span_one(self.tokens@, p0 + 1);
                lemma_span_split(self.tokens@, p0, p0 + 1, self.position as int);
                lemma_span_split(self.tokens@, p0 + 1, ps0, self.position as int);
                lemma_span_split(self.tokens@, ps0, bs0, self.position as int);
                assert(unparse_function(Function { name, params, body }) =~= seq![
                    crate::lexer::TokenV::Tralalero,
                ] + tok_span(self.tokens@, p0, self.position as int));
            }
        }
        Ok(Function { name, params, body })
    }

    /// Reads the assignment-target name under the cursor: an identifier,
    /// or a global slot token lowered to its canonical spelling.
    fn parse_target_name(&mut self) -> (r: Result<String, CompileError>)
        requires
            old(self).wf(),
        ensures
            final(self).wf(),
            final(self).tokens@ == old(self).tokens@,
            final(self).filename@ == old(self).filename@,
            final(self).position >= old(self).position,
            r is Ok ==> final(self).position == old(self).position + 1,
            r matches Ok(n) ==> toks_wf(old(self).tokens@) ==> old(self).tokens@[old(
                self,
            ).position as int]@ == target_tok(n@),
    {
        if self.position < self.tokens.len() {
            match &self.tokens[self.position] {
                Token::Identifier(n) => {
                    let name = n.clone();
                    self.advance();
                    Ok(name)
                },
                Token::Braincell(idx) => {
                    let name = crate::vm::braincell_name(*idx).to_owned();
                    self.advance();
                    proof {
                        if toks_wf(self.tokens@) {
                            assert(*idx < 7);
                            lemma_braincell_roundtrip(*idx);
                        }
                    }
                    Ok(name)
                },
                _ => Err(self.error("expected variable name")),
            }
        } else {
            Err(self.error("expected variable name"))
        }
    }

    #[verifier::loop_isolation(false)]
    fn parse_statement(&mut self) -> (r: Result<Statement, CompileError>)
        requires
            old(self).wf(),
        ensures
            final(self).wf(),
            final(self).tokens@ == old(self).tokens@,
            final(self).filename@ == old(self).filename@,
            final(self).position >= old(self).position,
            r matches Ok(s) ==> stmt_ok(s) && final(self).position > old(self).position,
            r matches Ok(s) ==> toks_wf(old(self).tokens@) ==> unparse_stmt(s) == tok_span(
                old(self).tokens@,
                old(self).position as int,
                final(self).position as int,
            ),
            (old(self).position >= old(self).tokens@.len() || !stmt_starts(
                old(self).tokens@[old(self).position as int]@,
            )) ==> (r matches Err(e) && e.message@ == "expected statement"@
                && final(self).position == old(self).position),
        decreases old(self).tokens@.len() - old(self).position, 6nat,
    {
        let ghost p0 = self.position as int;
        if self.consume(&Token::Fanumtax) {
            let var_name = match self.parse_target_name() {
                Ok(n) => n,
                Err(e) => {
                    return Err(e);
                },
            };
            if !self.consume(&Token::Fr) {
                return Err(self.error("expected FR after variable"));
            }
            let expr = match self.parse_expression() {
                Ok(e) => e,
                Err(e) => {
                    return Err(e);
                },
            };
            proof {
                if toks_wf(self.tokens@) {
                    lemma_span_one(self.tokens@, p0);
                    lemma_span_one(self.tokens@, p0 + 1);
                    lemma_span_one(self.tokens@, p0 + 2);
                    lemma_span_split(self.tokens@, p0, p0 + 1, self.position as int);
                    lemma_span_split(self.tokens@, p0 + 1, p0 + 2, self.position as int);
                    lemma_span_split(self.tokens@, p0 + 2, p0 + 3, self.position as int);
                    assert(unparse_stmt(Statement::Assign(var_name, expr)) =~= tok_span(
                        self.tokens@,
                        p0,
                        self.position as int,
                    ));
                }
            }
            Ok(Statement::Assign(var_name, expr))
        } else if self.consume(&Token::Diddle) {
            let dest = match self.parse_target_name() {
                Ok(n) => n,
                Err(e) => {
                    return Err(e);
                },
            };
            if !self.consume(&Token::Fr) {
                return Err(self.error("expected FR after variable"));
            }
            let source = match self.parse_expression() {
                Ok(e) => e,
                Err(e) => {
                    return Err(e);
                },
            };
            proof {
                if toks_wf(self.tokens@) {
                    lemma_span_one(self.tokens@, p0);
                    lemma_span_one(self.tokens@, p0 + 1);
                    lemma_span_one(self.tokens@, p0 + 2);
                    lemma_span_split(self.tokens@, p0, p0 + 1, self.position as int);
                    lemma_span_split(self.tokens@, p0 + 1, p0 + 2, self.position as int);
                    lemma_span_split(self.tokens@, p0 + 2, p0 + 3, self.position as int);
                    assert(unparse_stmt(Statement::Copy { dest, source }) =~= tok_span(
                        self.tokens@,
                        p0,
                        self.position as int,
                    ));
                }
            }
            Ok(Statement::Copy { dest, source })
        } else if self.consume(&Token::Say) {
            let expr = match self.parse_expression() {
                Ok(e) => e,
                Err(e) => {
                    return Err(e);
                },
            };
            proof {
                if toks_wf(self.tokens@) {
                    lemma_span_one(self.tokens@, p0);
                    lemma_span_split(self.tokens@, p0, p0 + 1, self.position as int);
                    assert(unparse_stmt(Statement::Print(expr)) =~= tok_span(
                        self.tokens@,
                        p0,
                        self.position as int,
                    ));
                }
            }
            Ok(Statement::Print(expr))
        } else if self.consume(&Token::Retreat) {
            let expr = match self.parse_expression() {
                Ok(e) => e,
                Err(e) => {
                    return Err(e);
                },
            };
            proof {
                if toks_wf(self.tokens@) {
                    lemma_span_one(self.tokens@, p0);
                    lemma_span_split(self.tokens@, p0, p0 + 1, self.position as int);
                    assert(unparse_stmt(Statement::Return(expr)) =~= tok_span(
                        self.tokens@,
                        p0,
                        self.position as int,
                    ));
                }
            }
            Ok(Statement::Return(expr))
        } else if self.consume(&Token::Youshallnotpass) {
            proof {
                if toks_wf(self.tokens@) {
                    lemma_span_one(self.tokens@, p0);
                    assert(unparse_stmt(Statement::Halt) =~= tok_span(
                        self.tokens@,
                        p0,
                        self.position as int,
                    ));
                }
            }
            Ok(Statement::Halt)
        } else if self.consume(&Token::Ongod) {
            let r = self.parse_if();
            proof {
                if toks_wf(self.tokens@) && r is Ok {
                    lemma_span_one(self.tokens@, p0);
                    lemma_span_split(self.tokens@, p0, p0 + 1, self.position as int);
                }
            }
            r
        } else if self.consume(&Token::Skibidi) {
            let r = self.parse_while();
            proof {
                if toks_wf(self.tokens@) && r is Ok {
                    lemma_span_one(self.tokens@, p0);
                    lemma_span_split(self.tokens@, p0, p0 + 1, self.position as int);
                }
            }
            r
        } else {
            Err(self.error("expected statement"))
        }
    }

    #[verifier::loop_isolation(false)]
    fn parse_if(&mut self) -> (r: Result<Statement, CompileError>)
        requires
            old(self).wf(),
        ensures
            final(self).wf(),
            final(self).tokens@ == old(self).tokens@,
            final(self).filename@ == old(self).filename@,
            final(self).position >= old(self).position,
            r matches Ok(s) ==> stmt_ok(s),
            r matches Ok(s) ==> toks_wf(old(self).tokens@) ==> unparse_stmt(s) == seq![
                crate::lexer::TokenV::Ongod,
            ] + tok_span(
                old(self).tokens@,
                old(self).position as int,
                final(self).position as int,
            ),
        decreases old(self).tokens@.len() - old(self).position, 6nat,
    {
        let ghost pc0 = self.position as int;
        let condition = match self.parse_expression() {
            Ok(e) => e,
            Err(e) => {
                return Err(e);
            },
        };
        let ghost tb0 = self.position as int;
        let mut then_block: Vec<Statement> = Vec::new();
        proof {
            assert(tok_span(self.tokens@, tb0, tb0) =~= unparse_block(then_block, 0));
        }
        while !(self.check(&Token::No) || self.check(&Token::Deadass))
            invariant
                self.wf(),
                self.tokens@ == old(self).tokens@,
                self.filename@ == old(self).filename@,
                self.position > old(self).position,
                tb0 <= self.position as int,
                forall|i: int| 0 <= i < then_block@.len() ==> stmt_ok(#[trigger] then_block@[i]),
                toks_wf(old(self).tokens@) ==> tok_span(
                    old(self).tokens@,
                    tb0,
                    self.position as int,
                ) == unparse_block(then_block, 0),
            decreases self.tokens@.len() - self.position,
        {
            let ghost b0 = then_block@;
            let ghost bv1 = then_block;
            let ghost spos = self.position as int;
            let st = match self.parse_statement() {
                Ok(st) => st,
                Err(e) => {
                    return Err(e);
                },
            };
            let ghost gst = st;
            then_block.push(st);
            proof {
                assert forall|i: int| 0 <= i < then_block@.len() implies stmt_ok(
                    #[trigger] then_block@[i],
                ) by {
                    if i < b0.len() {
                        assert(then_block@[i] == b0[i]);
                    }
                }
                if toks_wf(old(self).tokens@) {
                    lemma_span_split(self.tokens@, tb0, spos, self.position as int);
                    lemma_unparse_block_push(bv1, then_block, gst, 0);
                }
            }
        }
        let ghost pno = self.position as int;
        if self.consume(&Token::No) {
            if !self.consume(&Token::Cap) {
                return Err(self.error("expected CAP after NO"));
            }
            let ghost eb0 = self.position as int;
            let mut else_stmt: Vec<Statement> = Vec::new();
            proof {
                assert(tok_span(self.tokens@, eb0, eb0) =~= unparse_block(else_stmt, 0));
            }
            while !self.check(&Token::Deadass)
                invariant
                    self.wf(),
                    self.tokens@ == old(self).tokens@,
                    self.filename@ == old(self).filename@,
                    self.position > old(self).position,
                    eb0 <= self.position as int,
                    forall|i: int| 0 <= i < else_stmt@.len() ==> stmt_ok(
                        #[trigger] else_stmt@[i],
                    ),
                    toks_wf(old(self).tokens@) ==> tok_span(
                        old(self).tokens@,
                        eb0,
                        self.position as int,
                    ) == unparse_block(else_stmt, 0),
                decreases self.tokens@.len() - self.position,
            {
                let ghost b0 = else_stmt@;
                let ghost bv1 = else_stmt;
                let ghost spos = self.position as int;
                let st = match self.parse_statement() {
                    Ok(st) => st,
                    Err(e) => {
                        return Err(e);
                    },
                };
                let ghost gst = st;
                else_stmt.push(st);
                proof {
                    assert forall|i: int| 0 <= i < else_stmt@.len() implies stmt_ok(
                        #[trigger] else_stmt@[i],
                    ) by {
                        if i < b0.len() {
                            assert(else_stmt@[i] == b0[i]);
                        }
                    }
                    if toks_wf(old(self).tokens@) {
                        lemma_span_split(self.tokens@, eb0, spos, self.position as int);
                        lemma_unparse_block_push(bv1, else_stmt, gst, 0);
                    }
                }
            }
            let ghost pd = self.position as int;
            if !self.consume(&Token::Deadass) {
                return Err(self.error("expected DEADASS to close ONGOD block"));
            }
            proof {
                assert(stmts_ok(then_block));
                assert(stmts_ok(else_stmt));
                if toks_wf(old(self).tokens@) {
                    lemma_span_one(self.tokens@, pno);
                    lemma_span_one(self.tokens@, pno + 1);
                    lemma_span_one(self.tokens@, pd);
                    lemma_span_split(self.tokens@, pc0, tb0, self.position as int);
                    lemma_span_split(self.tokens@, tb0, pno, self.position as int);
                    lemma_span_split(self.tokens@, pno, pno + 1, self.position as int);
                    lemma_span_split(self.tokens@, pno + 1, eb0, self.position as int);
                    lemma_span_split(self.tokens@, eb0, pd, self.position as int);
                    assert(unparse_stmt(
                        Statement::If {
                            condition,
                            then_block,
                            else_block: Some(else_stmt),
                        },
                    ) =~= seq![crate::lexer::TokenV::Ongod] + tok_span(
                        self.tokens@,
                        pc0,
                        self.position as int,
                    ));
                }
            }
            return Ok(Statement::If { condition, then_block, else_block: Some(else_stmt) });
        }
        let ghost pd = self.position as int;
        if !self.consume(&Token::Deadass) {
            return Err(self.error("expected DEADASS to close ONGOD block"));
        }
        proof {
            assert(stmts_ok(then_block));
            if toks_wf(old(self).tokens@) {
                lemma_span_one(self.tokens@, pd);
                lemma_span_split(self.tokens@, pc0, tb0, self.position as int);
                lemma_span_split(self.tokens@, tb0, pd, self.position as int);
                assert(unparse_stmt(Statement::If { condition, then_block, else_block: None })
                    =~= seq![crate::lexer::TokenV::Ongod] + tok_span(
                    self.tokens@,
                    pc0,
                    self.position as int,
                ));
            }
        }
        Ok(Statement::If { condition, then_block, else_block: None })
    }

    #[verifier::loop_isolation(false)]
    fn parse_while(&mut self) -> (r: Result<Statement, CompileError>)
        requires
            old(self).wf(),
        ensures
            final(self).wf(),
            final(self).tokens@ == old(self).tokens@,
            final(self).filename@ == old(self).filename@,
            final(self).position >= old(self).position,
            r matches Ok(s) ==> stmt_ok(s),
            r matches Ok(s) ==> toks_wf(old(self).tokens@) ==> unparse_stmt(s) == seq![
                crate::lexer::TokenV::Skibidi,
            ] + tok_span(
                old(self).tokens@,
                old(self).position as int,
                final(self).position as int,
            ),
        decreases old(self).tokens@.len() - old(self).position, 6nat,
    {
        let ghost pc0 = self.position as int;
        let condition = match self.parse_expression() {
            Ok(e) => e,
            Err(e) => {
                return Err(e);
            },
        };
        let ghost bb0 = self.position as int;
        let mut body: Vec<Statement> = Vec::new();
        proof {
            assert(tok_span(self.tokens@, bb0, bb0) =~= unparse_block(body, 0));
        }
        while !self.check(&Token::Rizzup)
            invariant
                self.wf(),
                self.tokens@ == old(self).tokens@,
                self.filename@ == old(self).filename@,
                self.position > old(self).position,
                bb0 <= self.position as int,
                forall|i: int| 0 <= i < body@.len() ==> stmt_ok(#[trigger] body@[i]),
                toks_wf(old(self).tokens@) ==> tok_span(
                    old(self).tokens@,
                    bb0,
                    self.position as int,
                ) == unparse_block(body, 0),
            decreases self.tokens@.len() - self.position,
        {
            let ghost b0 = body@;
            let ghost bv1 = body;
            let ghost spos = self.position as int;
            let st = match self.parse_statement() {
                Ok(st) => st,
                Err(e) => {
                    return Err(e);
                },
            };
            let ghost gst = st;
            body.push(st);
            proof {
                assert forall|i: int| 0 <= i < body@.len() implies stmt_ok(
                    #[trigger] body@[i],
                ) by {
                    if i < b0.len() {
                        assert(body@[i] == b0[i]);
                    }
                }
                if toks_wf(old(self).tokens@) {
                    lemma_span_split(self.tokens@, bb0, spos, self.position as int);
                    lemma_unparse_block_push(bv1, body, gst, 0);
                }
            }
        }
        proof {
            assert(stmts_ok(body));
        }
        let ghost pr = self.position as int;
        if !self.consume(&Token::Rizzup) {
            return Err(self.error("expected RIZZUP to close SKIBIDI block"));
        }
        proof {
            if toks_wf(old(self).tokens@) {
                lemma_span_one(self.tokens@, pr);
                lemma_span_split(self.tokens@, pc0, bb0, self.position as int);
                lemma_span_split(self.tokens@, bb0, pr, self.position as int);
                assert(unparse_stmt(Statement::While { condition, body }) =~= seq![
                    crate::lexer::TokenV::Skibidi,
                ] + tok_span(self.tokens@, pc0, self.position as int));
            }
        }
        Ok(Statement::While { condition, body })
    }

    #[verifier::loop_isolation(false)]
    pub fn parse_expression(&mut self) -> (r: Result<Expr, CompileError>)
        requires
            old(self).wf(),
        ensures
            final(self).wf(),
            final(self).tokens@ == old(self).tokens@,
            final(self).filename@ == old(self).filename@,
            final(self).position >= old(self).position,
            r matches Ok(e) ==> prec_ok(e) && final(self).position > old(self).position,
            r matches Ok(e) ==> toks_wf(old(self).tokens@) ==> unparse_expr(e) == tok_span(
                old(self).tokens@,
                old(self).position as int,
                final(self).position as int,
            ),
            (old(self).position >= old(self).tokens@.len() || !term_starts(
                old(self).tokens@[old(self).position as int]@,
            )) ==> (r matches Err(e) && e.message@ == "expected expression"@),
        decreases old(self).tokens@.len() - old(self).position, 5nat,
    {
        self.parse_binary_expression(0)
    }

    /// Climbs the two precedence levels: at the lower level additions and
    /// subtractions are folded left over complete higher-level chains, at
    /// the higher level multiplications and divisions fold left over
    /// terms, and past both levels a bare term is read.
    #[verifier::loop_isolation(false)]
    fn parse_binary_expression(&mut self, min_precedence: u8) -> (r: Result<Expr, CompileError>)
        requires
            old(self).wf(),
        ensures
            final(self).wf(),
            final(self).tokens@ == old(self).tokens@,
            final(self).filename@ == old(self).filename@,
            final(self).position >= old(self).position,
            (old(self).position >= old(self).tokens@.len() || !term_starts(
                old(self).tokens@[old(self).position as int]@,
            )) ==> (r matches Err(e) && e.message@ == "expected expression"@),
            r matches Ok(e) ==> prec_ok(e) && final(self).position > old(self).position && (
            min_precedence >= 2 ==> !is_addsub(e)) && (min_precedence >= 3 ==> !(e is Binary))
                && (match spec_current_op(final(self).tokens@, final(self).position as int) {
                Some(p) => p.1 < min_precedence,
                None => true,
            }),
            r matches Ok(e) ==> toks_wf(old(self).tokens@) ==> unparse_expr(e) == tok_span(
                old(self).tokens@,
                old(self).position as int,
                final(self).position as int,
            ),
        decreases old(self).tokens@.len() - old(self).position, (if min_precedence >= 3 {
            2nat
        } else if min_precedence >= 2 {
            3nat
        } else {
            4nat
        }),
    {
        let ghost p0 = self.position as int;
        if min_precedence >= 3 {
            return self.parse_term();
        }
        let sub = if min_precedence >= 2 {
            3
        } else {
            2
        };
        let mut expr = match self.parse_binary_expression(sub) {
            Ok(e) => e,
            Err(e) => {
                return Err(e);
            },
        };
        let mut cont = true;
        while cont
            invariant
                self.wf(),
                self.tokens@ == old(self).tokens@,
                self.filename@ == old(self).filename@,
                self.position > old(self).position,
                2 <= sub <= 3,
                sub == (if min_precedence >= 2 {
                    3int
                } else {
                    2int
                }),
                prec_ok(expr),
                min_precedence >= 2 ==> !is_addsub(expr),
                is_addsub(expr) ==> (match spec_current_op(self.tokens@, self.position as int) {
                    Some(p) => p.1 < 2,
                    None => true,
                }),
                toks_wf(old(self).tokens@) ==> unparse_expr(expr) == tok_span(
                    old(self).tokens@,
                    p0,
                    self.position as int,
                ),
                !cont ==> (match spec_current_op(self.tokens@, self.position as int) {
                    Some(p) => p.1 < min_precedence,
                    None => true,
                }),
            decreases self.tokens@.len() - self.position, (if cont {
                1nat
            } else {
                0nat
            }),
        {
            match self.current_binary_op() {
                None => {
                    cont = false;
                },
                Some((op2, p2)) => {
                    if p2 < min_precedence {
                        cont = false;
                    } else {
                        let ghost pop = self.position as int;
                        self.advance();
                        let rhs = match self.parse_binary_expression(p2 + 1) {
                            Ok(e) => e,
                            Err(e) => {
                                return Err(e);
                            },
                        };
                        proof {
                            if toks_wf(self.tokens@) {
                                assert(self.tokens@[pop]@ == op_token(op2));
                                lemma_span_one(self.tokens@, pop);
                                lemma_span_split(self.tokens@, p0, pop, self.position as int);
                                lemma_span_split(self.tokens@, pop, pop + 1, self.position as int);
                            }
                        }
                        expr = Expr::Binary { op: op2, left: Box::new(expr), right: Box::new(rhs) };
                    }
                },
            }
        }
        Ok(expr)
    }

    #[verifier::loop_isolation(false)]
    fn parse_term(&mut self) -> (r: Result<Expr, CompileError>)
        requires
            old(self).wf(),
        ensures
            final(self).wf(),
            final(self).tokens@ == old(self).tokens@,
            final(self).filename@ == old(self).filename@,
            final(self).position >= old(self).position,
            r matches Ok(e) ==> prec_ok(e) && !(e is Binary) && final(self).position > old(
                self,
            ).position,
            r matches Ok(e) ==> toks_wf(old(self).tokens@) ==> unparse_expr(e) == tok_span(
                old(self).tokens@,
                old(self).position as int,
                final(self).position as int,
            ),
            (old(self).position >= old(self).tokens@.len() || !term_starts(
                old(self).tokens@[old(self).position as int]@,
            )) ==> (r matches Err(e) && e.message@ == "expected expression"@
                && final(self).position == old(self).position),
        decreases old(self).tokens@.len() - old(self).position, 1nat,
    {
        let ghost p0 = self.position as int;
        if self.position >= self.tokens.len() {
            return Err(self.error("expected expression"));
        }
        match &self.tokens[self.position] {
            Token::Num(n) => {
                let text = n.clone();
                self.advance();
                proof {
                    lemma_span_one(self.tokens@, p0);
                }
                Ok(Expr::Num(text))
            },
            Token::Str(t) => {
                let text = t.clone();
                self.advance();
                proof {
                    lemma_span_one(self.tokens@, p0);
                }
                Ok(Expr::Str(text))
            },
            Token::Braincell(idx) => {
                let name = crate::vm::braincell_name(*idx).to_owned();
                self.advance();
                if crate::text::str_eq(name.as_str(), "TRANSFORM") || crate::text::str_eq(
                    name.as_str(),
                    "RIZZED",
                ) {
                    return Err(self.error("expected expression"));
                }
                proof {
                    lemma_span_one(self.tokens@, p0);
                    if toks_wf(self.tokens@) {
                        assert(*idx < 7);
                        lemma_braincell_roundtrip(*idx);
                    }
                }
                Ok(Expr::Variable(name))
            },
            Token::Identifier(n) => {
                let name = n.clone();
                self.advance();
                if crate::text::str_eq(name.as_str(), "TRANSFORM") || crate::text::str_eq(
                    name.as_str(),
                    "RIZZED",
                ) {
                    let ghost nm = name@;
                    let r = self.parse_function_call(name);
                    proof {
                        lemma_span_one(self.tokens@, p0);
                        lemma_builtin_names();
                        if toks_wf(self.tokens@) && r is Ok {
                            assert(call_head(nm) =~= seq![crate::lexer::TokenV::Identifier(nm)]);
                            lemma_span_split(self.tokens@, p0, p0 + 1, self.position as int);
                        }
                    }
                    r
                } else {
                    proof {
                        lemma_span_one(self.tokens@, p0);
                    }
                    Ok(Expr::Variable(name))
                }
            },
            Token::Touchy => {
                self.advance();
                let r = self.parse_function_call("TOUCHY".to_owned());
                proof {
                    lemma_span_one(self.tokens@, p0);
                    if toks_wf(self.tokens@) && r is Ok {
                        assert(call_head("TOUCHY"@) =~= seq![crate::lexer::TokenV::Touchy]);
                        lemma_span_split(self.tokens@, p0, p0 + 1, self.position as int);
                    }
                }
                r
            },
            Token::Ring => {
                self.advance();
                if self.consume(&Token::Yas) {
                    if self.position < self.tokens.len() {
                        match &self.tokens[self.position] {
                            Token::Identifier(n) => {
                                let name = n.clone();
                                let ghost nm = name@;
                                self.advance();
                                let r = self.parse_user_function_call(name);
                                proof {
                                    lemma_span_one(self.tokens@, p0);
                                    lemma_span_one(self.tokens@, p0 + 1);
                                    lemma_span_one(self.tokens@, p0 + 2);
                                    if toks_wf(self.tokens@) && r is Ok {
                                        lemma_span_split(
                                            self.tokens@,
                                            p0,
                                            p0 + 1,
                                            self.position as int,
                                        );
                                        lemma_span_split(
                                            self.tokens@,
                                            p0 + 1,
                                            p0 + 2,
                                            self.position as int,
                                        );
                                        lemma_span_split(
                                            self.tokens@,
                                            p0 + 2,
                                            p0 + 3,
                                            self.position as int,
                                        );
                                        assert(seq![
                                            crate::lexer::TokenV::Ring,
                                            crate::lexer::TokenV::Yas,
                                            crate::lexer::TokenV::Identifier(nm),
                                        ] + tok_span(self.tokens@, p0 + 3, self.position as int)
                                            =~= tok_span(
                                            self.tokens@,
                                            p0,
                                            self.position as int,
                                        ));
                                    }
                                }
                                r
                            },
                            _ => Err(self.error("expected function name after 'ring yas'")),
                        }
                    } else {
                        Err(self.error("expected function name after 'ring yas'"))
                    }
                } else {
                    Err(self.error("expected 'yas' after 'ring'"))
                }
            },
            _ => Err(self.error("expected expression")),
        }
    }

    #[verifier::loop_isolation(false)]
    fn parse_function_call(&mut self, name: String) -> (r: Result<Expr, CompileError>)
        requires
            old(self).wf(),
            name@ == "TOUCHY"@ || name@ == "TRANSFORM"@ || name@ == "RIZZED"@,
        ensures
            final(self).wf(),
            final(self).tokens@ == old(self).tokens@,
            final(self).filename@ == old(self).filename@,
            final(self).position >= old(self).position,
            r matches Ok(e) ==> prec_ok(e) && !(e is Binary),
            r matches Ok(e) ==> toks_wf(old(self).tokens@) ==> unparse_expr(e) == call_head(
                name@,
            ) + tok_span(
                old(self).tokens@,
                old(self).position as int,
                final(self).position as int,
            ),
        decreases old(self).tokens@.len() - old(self).position, 0nat,
    {
        let ghost p0 = self.position as int;
        if !self.check(&Token::LParen) {
            let msg = "expected '(' after ".to_owned().concat(name.as_str());
            return Err(self.error(msg.as_str()));
        }
        self.advance();
        let ghost pmid = self.position as int;
        let arg = if self.check(&Token::RParen) {
            None
        } else {
            let e = match self.parse_expression() {
                Ok(e) => e,
                Err(e) => {
                    return Err(e);
                },
            };
            Some(Box::new(e))
        };
        if !self.check(&Token::RParen) {
            let msg = "expected ')' after ".to_owned().concat(name.as_str()).concat(" argument");
            return Err(self.error(msg.as_str()));
        }
        let ghost pr = self.position as int;
        self.advance();
        proof {
            if toks_wf(self.tokens@) {
                lemma_span_one(self.tokens@, p0);
                lemma_span_one(self.tokens@, pr);
                lemma_span_split(self.tokens@, p0, p0 + 1, self.position as int);
                lemma_span_split(self.tokens@, pmid, pr, pr + 1);
                assert(tok_span(self.tokens@, p0, self.position as int) =~= seq![
                    crate::lexer::TokenV::LParen,
                ] + tok_span(self.tokens@, pmid, pr) + seq![crate::lexer::TokenV::RParen]);
                match &arg {
                    Some(a) => {
                        assert(unparse_expr(Expr::FunctionCall { name, arg }) =~= call_head(
                            name@,
                        ) + tok_span(self.tokens@, p0, self.position as int));
                    },
                    None => {
                        assert(tok_span(self.tokens@, pmid, pr) =~= Seq::<
                            crate::lexer::TokenV,
                        >::empty());
                        assert(unparse_expr(Expr::FunctionCall { name, arg }) =~= call_head(
                            name@,
                        ) + tok_span(self.tokens@, p0, self.position as int));
                    },
                }
            }
        }
        Ok(Expr::FunctionCall { name, arg })
    }

    #[verifier::loop_isolation(false)]
    fn parse_user_function_call(&mut self, name: String) -> (r: Result<Expr, CompileError>)
        requires
            old(self).wf(),
        ensures
            final(self).wf(),
            final(self).tokens@ == old(self).tokens@,
            final(self).filename@ == old(self).filename@,
            final(self).position >= old(self).position,
            r matches Ok(e) ==> prec_ok(e) && !(e is Binary),
            r matches Ok(e) ==> toks_wf(old(self).tokens@) ==> unparse_expr(e) == seq![
                crate::lexer::TokenV::Ring,
                crate::lexer::TokenV::Yas,
                crate::lexer::TokenV::Identifier(name@),
            ] + tok_span(
                old(self).tokens@,
                old(self).position as int,
                final(self).position as int,
            ),
        decreases old(self).tokens@.len() - old(self).position, 0nat,
    {
        let ghost p0 = self.position as int;
        if !self.check(&Token::LParen) {
            let msg = "expected '(' after function name '".to_owned().concat(
                name.as_str(),
            ).concat("'");
            return Err(self.error(msg.as_str()));
        }
        self.advance();
        let ghost pstart = self.position as int;
        let mut args: Vec<Expr> = Vec::new();
        if self.check(&Token::RParen) {
            self.advance();
            proof {
                if toks_wf(self.tokens@) {
                    lemma_span_one(self.tokens@, p0);
                    lemma_span_one(self.tokens@, pstart);
                    lemma_span_split(self.tokens@, p0, pstart, self.position as int);
                    assert(unparse_args(args, 0) =~= Seq::<crate::lexer::TokenV>::empty());
                    assert(unparse_expr(Expr::UserFunctionCall { name, args }) =~= seq![
                        crate::lexer::TokenV::Ring,
                        crate::lexer::TokenV::Yas,
                        crate::lexer::TokenV::Identifier(name@),
                    ] + tok_span(self.tokens@, p0, self.position as int));
                }
            }
        } else {
            let mut done = false;
            while !done
                invariant
                    self.wf(),
                    self.tokens@ == old(self).tokens@,
                    self.filename@ == old(self).filename@,
                    self.position > old(self).position,
                    pstart <= self.position as int,
                    forall|i: int| 0 <= i < args@.len() ==> prec_ok(#[trigger] args@[i]),
                    (toks_wf(old(self).tokens@) && !done) ==> tok_span(
                        old(self).tokens@,
                        pstart,
                        self.position as int,
                    ) == comma_chain(args@, args@.len() as int),
                    (toks_wf(old(self).tokens@) && done) ==> tok_span(
                        old(self).tokens@,
                        pstart,
                        self.position as int,
                    ) == unparse_args(args, 0) + seq![crate::lexer::TokenV::RParen],
                    done ==> args@.len() > 0,
                decreases self.tokens@.len() - self.position + (if done {
                    0int
                } else {
                    1int
                }),
            {
                let ghost a0 = args@;
                let ghost pe = self.position as int;
                let e = match self.parse_expression() {
                    Ok(e) => e,
                    Err(e) => {
                        return Err(e);
                    },
                };
                args.push(e);
                proof {
                    assert forall|i: int| 0 <= i < args@.len() implies prec_ok(
                        #[trigger] args@[i],
                    ) by {
                        if i < a0.len() {
                            assert(args@[i] == a0[i]);
                        }
                    }
                }
                let ghost pq = self.position as int;
                if self.consume(&Token::Comma) {
                    proof {
                        if toks_wf(self.tokens@) {
                            lemma_span_one(self.tokens@, pq);
                            lemma_span_split(self.tokens@, pstart, pe, pq + 1);
                            lemma_span_split(self.tokens@, pe, pq, pq + 1);
                            lemma_comma_chain_push(a0, e, a0.len() as int);
                            assert(comma_chain(args@, args@.len() as int) == comma_chain(
                                args@,
                                a0.len() as int,
                            ) + unparse_expr(args@[a0.len() as int]) + seq![
                                crate::lexer::TokenV::Comma,
                            ]);
                            assert(tok_span(self.tokens@, pstart, self.position as int)
                                =~= comma_chain(args@, args@.len() as int));
                        }
                    }
                } else if self.consume(&Token::RParen) {
                    proof {
                        if toks_wf(self.tokens@) {
                            lemma_span_one(self.tokens@, pq);
                            lemma_span_split(self.tokens@, pstart, pe, pq + 1);
                            lemma_span_split(self.tokens@, pe, pq, pq + 1);
                            lemma_comma_chain_push(a0, e, a0.len() as int);
                            lemma_comma_chain_closes(args, args@.len() as int - 1);
                            assert(args@[args@.len() - 1] == e);
                            assert(tok_span(self.tokens@, pstart, self.position as int)
                                =~= unparse_args(args, 0) + seq![crate::lexer::TokenV::RParen]);
                        }
                    }
                    done = true;
                } else {
                    return Err(self.error("expected ',' or ')' in argument list"));
                }
            }
            proof {
                if toks_wf(self.tokens@) {
                    lemma_span_one(self.tokens@, p0);
                    lemma_span_split(self.tokens@, p0, pstart, self.position as int);
                    assert(unparse_expr(Expr::UserFunctionCall { name, args }) =~= seq![
                        crate::lexer::TokenV::Ring,
                        crate::lexer::TokenV::Yas,
                        crate::lexer::TokenV::Identifier(name@),
                    ] + tok_span(self.tokens@, p0, self.position as int));
                }
            }
        }
        proof {
            assert(exprs_ok(args));
        }
        Ok(Expr::UserFunctionCall { name, args })
    }
}


/// A token stream the lexer produced is well formed, so the spelling law
/// of [`Parser::parse_expression`] applies to it.
pub proof fn lemma_lexed_tokens_wf(toks: Seq<crate::lexer::Token>, s: Seq<char>)
    requires
        crate::lexer::spec_tokenize(s, 0) == crate::lexer::LexOutV::Toks(
            crate::lexer::toks_v(toks),
        ),
    ensures
        toks_wf(toks),
{
    crate::lexer::lemma_tokenize_wf(s, 0);
    assert forall|i: int| 0 <= i < toks.len() implies match #[trigger] toks[i] {
        crate::lexer::Token::Braincell(b) => b < 7,
        crate::lexer::Token::Identifier(n) => crate::compiler::spec_braincell_index(n@) is None,
        _ => true,
    } by {
        assert(crate::lexer::toks_v(toks)[i] == toks[i]@);
        assert(crate::lexer::spec_tokenize(s, 0)->Toks_0 == crate::lexer::toks_v(toks));
        assert(crate::lexer::tokv_wf(crate::lexer::spec_tokenize(s, 0)->Toks_0[i]));
        assert(crate::lexer::tokv_wf(toks[i]@));
    }
}

} // verus!
