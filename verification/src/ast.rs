//! The abstract syntax tree: statements, expressions, and their canonical
//! textual rendering.
//!
//! The mathematical model is `SpecStmt` / `SpecExpr` (the view of each node)
//! together with `render_stmt` / `render_expr`, the canonical rendering over
//! those values. Each node's `show` method is proved to produce exactly the
//! rendering of its view.

use crate::ascii::ascii_seq;
use crate::ascii::ascii_to_string;
use crate::lexer::token::SpecToken;
use crate::lexer::token::Token;
use vstd::prelude::*;
use vstd::string::StringExecFns;

verus! {

/// The mathematical value of an expression.
pub enum SpecExpr {
    Id(Seq<char>),
    Lit(Seq<char>),
    Integer(int),
    Prefix { operator: Seq<char>, right: Box<SpecExpr> },
}

/// The mathematical value of a statement: its originating token and its
/// semantic payload.
pub enum SpecStmt {
    Let { token: SpecToken, name: Seq<char>, value: SpecExpr },
    Return { token: SpecToken, value: SpecExpr },
    Expr { token: SpecToken, value: SpecExpr },
}

/// A statement: a tagged union over let, return and expression statements.
#[derive(Debug, PartialEq)]
pub enum Statement {
    Let(LetStatement),
    Return(ReturnStatement),
    Expression(ExpressionStatement),
}

/// An expression: a tagged union over identifiers, raw literals, integer
/// literals and prefix applications.
#[derive(Debug, PartialEq)]
pub enum Expression {
    Id(Identifier),
    Lit(Literal),
    Integer(IntegerLiteral),
    Prefix { operator: String, right: Box<Expression> },
}

/// An identifier's name.
#[derive(Debug, PartialEq, Clone)]
pub struct Identifier(pub String);

/// A raw literal carried as its source text.
#[derive(Debug, PartialEq)]
pub struct Literal(pub String);

/// An integer literal carried as its parsed value.
#[derive(Debug, PartialEq)]
pub struct IntegerLiteral(pub i64);

/// A prefix application of an operator to an operand.
pub struct PrefixExpression {
    pub operator: String,
    pub right: Box<Expression>,
}

/// A let statement: `let <name> = <value>;`.
#[derive(Debug, PartialEq)]
pub struct LetStatement {
    pub token: Token,
    pub name: Identifier,
    pub value: Expression,
}

/// A return statement: `return <value>;`.
#[derive(Debug, PartialEq)]
pub struct ReturnStatement {
    pub token: Token,
    pub return_value: Expression,
}

/// A statement consisting of a bare expression.
#[derive(Debug, PartialEq)]
pub struct ExpressionStatement {
    pub token: Token,
    pub expression: Expression,
}

/// An ordered sequence of statements, in source order.
pub struct Program {
    pub statements: Vec<Statement>,
}

pub open spec fn spec_expr_view(e: Expression) -> SpecExpr
    decreases e,
{
    match e {
        Expression::Id(id) => SpecExpr::Id(id.0@),
        Expression::Lit(lit) => SpecExpr::Lit(lit.0@),
        Expression::Integer(i) => SpecExpr::Integer(i.0 as int),
        Expression::Prefix { operator, right } => SpecExpr::Prefix {
            operator: operator@,
            right: Box::new(spec_expr_view(*right)),
        },
    }
}

impl View for Expression {
    type V = SpecExpr;

    open spec fn view(&self) -> SpecExpr {
        spec_expr_view(*self)
    }
}

impl View for LetStatement {
    type V = SpecStmt;

    open spec fn view(&self) -> SpecStmt {
        SpecStmt::Let { token: self.token@, name: self.name.0@, value: self.value@ }
    }
}

impl View for ReturnStatement {
    type V = SpecStmt;

    open spec fn view(&self) -> SpecStmt {
        SpecStmt::Return { token: self.token@, value: self.return_value@ }
    }
}

impl View for ExpressionStatement {
    type V = SpecStmt;

    open spec fn view(&self) -> SpecStmt {
        SpecStmt::Expr { token: self.token@, value: self.expression@ }
    }
}

impl View for Statement {
    type V = SpecStmt;

    open spec fn view(&self) -> SpecStmt {
        match self {
            Statement::Let(s) => s@,
            Statement::Return(s) => s@,
            Statement::Expression(s) => s@,
        }
    }
}

impl View for Program {
    type V = Seq<SpecStmt>;

    open spec fn view(&self) -> Seq<SpecStmt> {
        Seq::new(self.statements@.len(), |i: int| self.statements@[i]@)
    }
}

/// The character for a single decimal digit value.
pub open spec fn digit_char(d: nat) -> char
    recommends
        d < 10,
{
    ((48 + d) as u8) as char
}

/// The decimal digits of `n`, most significant first, with no leading zeros
/// except for `0` itself.
pub open spec fn dec_digits(n: nat) -> Seq<char>
    decreases n,
{
    if n < 10 {
        seq![digit_char(n)]
    } else {
        dec_digits(n / 10) + seq![digit_char(n % 10)]
    }
}

/// The canonical decimal rendering of an integer, with a leading minus sign
/// when negative.
pub open spec fn render_int(v: int) -> Seq<char> {
    if v < 0 {
        seq!['-'] + dec_digits((-v) as nat)
    } else {
        dec_digits(v as nat)
    }
}

/// The canonical rendering of an expression: identifiers and raw literals
/// render their text, integers their decimal value, and a prefix
/// application renders as `(<operator><operand>)`.
pub open spec fn render_expr(e: SpecExpr) -> Seq<char>
    decreases e,
{
    match e {
        SpecExpr::Id(s) => s,
        SpecExpr::Lit(s) => s,
        SpecExpr::Integer(v) => render_int(v),
        SpecExpr::Prefix { operator, right } => "("@ + operator + render_expr(*right) + ")"@,
    }
}

/// The canonical rendering of a statement.
pub open spec fn render_stmt(s: SpecStmt) -> Seq<char> {
    match s {
        SpecStmt::Let { token, name, value } => token.literal + " "@ + name + " = "@
            + render_expr(value) + ";"@,
        SpecStmt::Return { token, value } => token.literal + " "@ + render_expr(value) + ";"@,
        SpecStmt::Expr { token, value } => render_expr(value),
    }
}

/// The canonical rendering of a program: its statements' renderings
/// concatenated with no separators.
pub open spec fn render_program(stmts: Seq<SpecStmt>) -> Seq<char>
    decreases stmts.len(),
{
    if stmts.len() == 0 {
        Seq::empty()
    } else {
        render_stmt(stmts[0]) + render_program(stmts.drop_first())
    }
}

/// Appending a statement appends its rendering.
pub proof fn lemma_render_program_push(stmts: Seq<SpecStmt>, s: SpecStmt)
    ensures
        render_program(stmts.push(s)) == render_program(stmts) + render_stmt(s),
    decreases stmts.len(),
{
    assert(render_program(Seq::<SpecStmt>::empty()) == Seq::<char>::empty());
    if stmts.len() == 0 {
        assert(stmts.push(s).drop_first() =~= Seq::<SpecStmt>::empty());
        assert(stmts.push(s)[0] == s);
        assert(render_program(stmts.push(s)) == render_stmt(s) + Seq::<char>::empty());
        assert(render_program(stmts.push(s)) =~= render_program(stmts) + render_stmt(s));
    } else {
        assert(stmts.push(s).drop_first() =~= stmts.drop_first().push(s));
        lemma_render_program_push(stmts.drop_first(), s);
        assert(render_program(stmts.push(s)) =~= render_program(stmts) + render_stmt(s));
    }
}

/// The decimal rendering of `v`, as a fresh string.
fn int_to_string(v: i64) -> (r: String)
    ensures
        r@ == render_int(v as int),
{
    let neg = v < 0;
    let mut m: u64 = if v < 0 {
        (-(v as i128)) as u64
    } else {
        v as u64
    };
    let ghost m0 = m as nat;
    let mut digits: Vec<u8> = Vec::new();
    loop
        invariant_except_break
            forall|i: int| 0 <= i < digits@.len() ==> 48 <= #[trigger] digits@[i] < 58,
            if digits@.len() == 0 {
                m as nat == m0
            } else {
                m > 0 && dec_digits(m0) =~= dec_digits(m as nat) + ascii_seq(digits@).reverse()
            },
        ensures
            forall|i: int| 0 <= i < digits@.len() ==> 48 <= #[trigger] digits@[i] < 58,
            digits@.len() > 0,
            dec_digits(m0) =~= ascii_seq(digits@).reverse(),
        decreases m,
    {
        let d: u8 = (m % 10) as u8 + 48;
        let ghost digits_old = digits@;
        let ghost m_old = m as nat;
        digits.push(d);
        proof {
            assert(ascii_seq(digits@).reverse() =~= seq![d as char] + ascii_seq(
                digits_old,
            ).reverse());
            assert(digit_char(m_old % 10) == d as char);
        }
        if m < 10 {
            proof {
                assert(m_old % 10 == m_old);
                assert(dec_digits(m_old) =~= seq![digit_char(m_old)]);
                if digits_old.len() == 0 {
                    assert(ascii_seq(digits_old).reverse() =~= Seq::<char>::empty());
                    assert(dec_digits(m0) =~= ascii_seq(digits@).reverse());
                } else {
                    assert(dec_digits(m0) =~= dec_digits(m_old) + ascii_seq(
                        digits_old,
                    ).reverse());
                    assert(dec_digits(m0) =~= ascii_seq(digits@).reverse());
                }
            }
            break ;
        }
        m = m / 10;
        proof {
            assert(m >= 1);
            assert(dec_digits(m_old) =~= dec_digits(m as nat) + seq![digit_char(m_old % 10)]);
            if digits_old.len() == 0 {
                assert(dec_digits(m0) =~= dec_digits(m as nat) + ascii_seq(digits@).reverse());
            } else {
                assert(dec_digits(m0) =~= (dec_digits(m as nat) + seq![
                    digit_char(m_old % 10),
                ]) + ascii_seq(digits_old).reverse());
                assert(dec_digits(m0) =~= dec_digits(m as nat) + ascii_seq(digits@).reverse());
            }
        }
    }
    let mut out: Vec<u8> = Vec::new();
    if neg {
        out.push(45);
    }
    let ghost sign: Seq<char> = if neg {
        seq!['-']
    } else {
        Seq::empty()
    };
    proof {
        assert(ascii_seq(out@) =~= sign);
        assert(digits@.subrange(digits@.len() as int, digits@.len() as int) =~= Seq::<u8>::empty());
    }
    let mut i = digits.len();
    while i > 0
        invariant
            i <= digits@.len(),
            forall|j: int| 0 <= j < digits@.len() ==> 48 <= #[trigger] digits@[j] < 58,
            forall|j: int| 0 <= j < out@.len() ==> #[trigger] out@[j] < 128,
            ascii_seq(out@) =~= sign + ascii_seq(
                digits@.subrange(i as int, digits@.len() as int),
            ).reverse(),
        decreases i,
    {
        i = i - 1;
        let ghost out_old = out@;
        out.push(digits[i]);
        proof {
            assert(ascii_seq(out@) =~= ascii_seq(out_old).push(digits@[i as int] as char));
            assert(ascii_seq(digits@.subrange(i as int, digits@.len() as int)).reverse() =~= ascii_seq(
                digits@.subrange(i + 1, digits@.len() as int),
            ).reverse().push(digits@[i as int] as char));
            assert(ascii_seq(out@) =~= sign + ascii_seq(
                digits@.subrange(i as int, digits@.len() as int),
            ).reverse());
        }
    }
    proof {
        assert(digits@.subrange(0, digits@.len() as int) =~= digits@);
        assert(ascii_seq(out@) =~= sign + dec_digits(m0));
        assert(ascii_seq(out@) =~= render_int(v as int));
    }
    ascii_to_string(&out)
}

impl Expression {
    /// The canonical rendering of this expression.
    pub fn show(&self) -> (r: String)
        ensures
            r@ == render_expr(self@),
        decreases *self,
    {
        match self {
            Expression::Id(id) => id.0.clone(),
            Expression::Lit(lit) => lit.0.clone(),
            Expression::Integer(i) => int_to_string(i.0),
            Expression::Prefix { operator, right } => {
                let mut s = "(".to_owned();
                s.append(operator.as_str());
                let inner = right.show();
                s.append(inner.as_str());
                s.append(")");
                proof {
                    assert(s@ =~= render_expr(self@));
                }
                s
            },
        }
    }
}

impl LetStatement {
    /// The canonical rendering: `<keyword> <name> = <value>;`.
    pub fn show(&self) -> (r: String)
        ensures
            r@ == render_stmt(self@),
    {
        let mut s = self.token.literal.clone();
        s.append(" ");
        s.append(self.name.0.as_str());
        s.append(" = ");
        s.append(self.value.show().as_str());
        s.append(";");
        proof {
            assert(s@ =~= render_stmt(self@));
        }
        s
    }
}

impl ReturnStatement {
    /// The canonical rendering: `<keyword> <value>;`.
    pub fn show(&self) -> (r: String)
        ensures
            r@ == render_stmt(self@),
    {
        let mut s = self.token.literal.clone();
        s.append(" ");
        s.append(self.return_value.show().as_str());
        s.append(";");
        proof {
            assert(s@ =~= render_stmt(self@));
        }
        s
    }
}

impl ExpressionStatement {
    /// The canonical rendering: the inner expression's rendering alone.
    pub fn show(&self) -> (r: String)
        ensures
            r@ == render_stmt(self@),
    {
        self.expression.show()
    }
}

impl Statement {
    /// The canonical rendering of this statement.
    pub fn show(&self) -> (r: String)
        ensures
            r@ == render_stmt(self@),
    {
        match self {
            Statement::Let(s) => s.show(),
            Statement::Return(s) => s.show(),
            Statement::Expression(s) => s.show(),
        }
    }
}

impl Program {
    /// An empty program.
    pub fn new() -> (p: Program)
        ensures
            p@ == Seq::<SpecStmt>::empty(),
    {
        let p = Program { statements: Vec::new() };
        proof {
            assert(p@ =~= Seq::<SpecStmt>::empty());
        }
        p
    }

    /// The canonical rendering of the whole program: its statements'
    /// renderings concatenated in order with no separators.
    pub fn show(&self) -> (r: String)
        ensures
            r@ == render_program(self@),
    {
        let mut program = String::new();
        let mut i: usize = 0;
        proof {
            assert(self@.subrange(0, 0) =~= Seq::<SpecStmt>::empty());
        }
        while i < self.statements.len()
            invariant
                i <= self.statements@.len(),
                self@.len() == self.statements@.len(),
                program@ == render_program(self@.subrange(0, i as int)),
            decreases self.statements@.len() - i,
        {
            let shown = self.statements[i].show();
            program.append(shown.as_str());
            proof {
                assert(self@.subrange(0, i + 1) =~= self@.subrange(0, i as int).push(
                    self@[i as int],
                ));
                lemma_render_program_push(self@.subrange(0, i as int), self@[i as int]);
                assert(self.statements@[i as int]@ == self@[i as int]);
            }
            i = i + 1;
        }
        proof {
            assert(self@.subrange(0, self@.len() as int) =~= self@);
        }
        program
    }
}

} // verus!
