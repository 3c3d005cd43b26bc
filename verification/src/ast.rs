use vstd::prelude::*;

use crate::token::TokenS;

verus! {

/// A block: the body of a function or of a conditional arm.
pub type BlockStmt = Vec<Statement>;

/// A whole program: its statements in order.
pub type Program = BlockStmt;

/// An identifier occurrence, carrying its spelling.
#[derive(Debug, PartialEq, Eq)]
pub struct Ident {
    pub literal: String,
}

impl Clone for Ident {
    /// Cloning an identifier preserves it exactly.
    fn clone(&self) -> (r: Self)
        ensures
            r == *self,
    {
        Ident { literal: self.literal.clone() }
    }
}

/// The prefix operators; only negation is defined.
#[derive(Debug, PartialEq, Eq, Clone, Copy)]
pub enum Prefix {
    Minus,
    Nothing,
}

/// The infix operators.
#[derive(Debug, PartialEq, Eq, Clone, Copy)]
pub enum Infix {
    Plus,
    Minus,
    Star,
    Slash,
    GT,
    LT,
    EQ,
    NotEQ,

    Nothing,
}

/// An expression node.  `Nothing` is the absence variant a failed
/// production degrades to.
#[derive(Debug, PartialEq, Eq)]
pub enum Expression {
    Ident(Ident),
    Literal(Literals),
    Prefix(Prefix, Box<Expression>),
    Infix(Infix, Box<Expression>, Box<Expression>),
    If(Box<Expression>, BlockStmt, Option<BlockStmt>),
    Function(Vec<Ident>, BlockStmt),
    FunctionCall(Vec<Expression>, Box<Expression>),
    Index(Box<Expression>, Box<Expression>),

    Nothing,
}

/// A statement node.  `Nothing` is the absence variant.
#[derive(Debug, PartialEq, Eq)]
pub enum Statement {
    Var(Ident, Expression),
    Return(Expression),
    ExpressionStmt(Expression),

    Nothing,
}

/// The literal forms an expression can take directly.
#[derive(Debug, PartialEq, Eq)]
pub enum Literals {
    Int(i64),
    Bool(bool),
    String(String),
    Arr(Vec<Expression>),
}

/// The precedence ladder, weakest binding first.
#[derive(Debug, PartialEq, PartialOrd, Clone, Copy)]
pub enum Precedences {
    Lowest,
    Equals,
    LessGreater,
    Sum,
    Product,
    Prefix,
    Call,
    Index,
}

// ---------------------------------------------------------------------------
// Precedence, as integers
// ---------------------------------------------------------------------------

/// The rung of the precedence ladder, as a number.
pub open spec fn prec_level(p: Precedences) -> int {
    match p {
        Precedences::Lowest => 0,
        Precedences::Equals => 1,
        Precedences::LessGreater => 2,
        Precedences::Sum => 3,
        Precedences::Product => 4,
        Precedences::Prefix => 5,
        Precedences::Call => 6,
        Precedences::Index => 7,
    }
}

/// The binding power of an infix operator.
pub open spec fn infix_prec(op: Infix) -> int {
    match op {
        Infix::Plus => prec_level(Precedences::Sum),
        Infix::Minus => prec_level(Precedences::Sum),
        Infix::Star => prec_level(Precedences::Product),
        Infix::Slash => prec_level(Precedences::Product),
        Infix::GT => prec_level(Precedences::LessGreater),
        Infix::LT => prec_level(Precedences::LessGreater),
        Infix::EQ => prec_level(Precedences::Equals),
        Infix::NotEQ => prec_level(Precedences::Equals),
        Infix::Nothing => prec_level(Precedences::Lowest),
    }
}

/// The binding power a token has when it follows an expression.
pub open spec fn token_prec(t: TokenS) -> int {
    match t {
        TokenS::Plus => prec_level(Precedences::Sum),
        TokenS::Minus => prec_level(Precedences::Sum),
        TokenS::Star => prec_level(Precedences::Product),
        TokenS::Slash => prec_level(Precedences::Product),
        TokenS::EQ => prec_level(Precedences::Equals),
        TokenS::NotEQ => prec_level(Precedences::Equals),
        TokenS::LT => prec_level(Precedences::LessGreater),
        TokenS::GT => prec_level(Precedences::LessGreater),
        TokenS::LPAREN => prec_level(Precedences::Call),
        TokenS::LBRACKET => prec_level(Precedences::Index),
        _ => prec_level(Precedences::Lowest),
    }
}

/// An infix operator's spelling.
pub open spec fn infix_text(op: Infix) -> Seq<char> {
    match op {
        Infix::Plus => "+"@,
        Infix::Minus => "-"@,
        Infix::Star => "*"@,
        Infix::Slash => "/"@,
        Infix::GT => ">"@,
        Infix::LT => "<"@,
        Infix::EQ => "=="@,
        Infix::NotEQ => "!="@,
        Infix::Nothing => ""@,
    }
}

impl Infix {
    /// The operator's spelling.
    pub fn text(&self) -> (s: &'static str)
        ensures
            s@ == infix_text(*self),
    {
        match self {
            Infix::Plus => "+",
            Infix::Minus => "-",
            Infix::Star => "*",
            Infix::Slash => "/",
            Infix::GT => ">",
            Infix::LT => "<",
            Infix::EQ => "==",
            Infix::NotEQ => "!=",
            Infix::Nothing => "",
        }
    }
}

/// Whether a token is one of the binary-operator tokens.
pub open spec fn token_is_binop(t: TokenS) -> bool {
    ||| t is Plus
    ||| t is Minus
    ||| t is Star
    ||| t is Slash
    ||| t is GT
    ||| t is LT
    ||| t is EQ
    ||| t is NotEQ
}

/// The operator a binary-operator token stands for.
pub open spec fn infix_of_token(t: TokenS) -> Infix {
    match t {
        TokenS::Plus => Infix::Plus,
        TokenS::Minus => Infix::Minus,
        TokenS::Star => Infix::Star,
        TokenS::Slash => Infix::Slash,
        TokenS::GT => Infix::GT,
        TokenS::LT => Infix::LT,
        TokenS::EQ => Infix::EQ,
        TokenS::NotEQ => Infix::NotEQ,
        _ => Infix::Nothing,
    }
}

/// Whether the root of `e` is an infix-operator node.
pub open spec fn is_infix_exp(e: Expression) -> bool {
    e matches Expression::Infix(_, _, _)
}

/// If the root of `e` is an infix node, its operator binds strictly
/// tighter than `min`.
pub open spec fn root_prec_above(e: Expression, min: int) -> bool {
    match e {
        Expression::Infix(op, _, _) => infix_prec(op) > min,
        _ => true,
    }
}

/// If the root of `e` is an infix node, its operator binds at least as
/// tightly as `p`.
pub open spec fn root_prec_at_least(e: Expression, p: int) -> bool {
    match e {
        Expression::Infix(op, _, _) => infix_prec(op) >= p,
        _ => true,
    }
}

/// The precedence law, as a shape of the tree: under every infix node,
/// the left child's root operator binds at least as tightly (equal
/// precedences associate to the left) and the right child's root operator
/// binds strictly tighter; under a prefix node no infix node can stand at
/// all, since prefix outranks every infix operator.
pub open spec fn exp_prec_wf(e: Expression) -> bool
    decreases e,
{
    match e {
        Expression::Ident(_) => true,
        Expression::Literal(l) => lit_prec_wf(l),
        Expression::Prefix(_, inner) => exp_prec_wf(*inner) && !is_infix_exp(*inner),
        Expression::Infix(op, l, r) => exp_prec_wf(*l) && exp_prec_wf(*r) && root_prec_at_least(
            *l,
            infix_prec(op),
        ) && root_prec_above(*r, infix_prec(op)),
        Expression::If(c, b1, b2) => exp_prec_wf(*c) && block_prec_wf(b1@) && (match b2 {
            Option::Some(b) => block_prec_wf(b@),
            Option::None => true,
        }),
        Expression::Function(_, body) => block_prec_wf(body@),
        Expression::FunctionCall(args, f) => (forall|k: int|
            0 <= k < args@.len() ==> exp_prec_wf(#[trigger] args@[k])) && exp_prec_wf(*f),
        Expression::Index(a, ix) => exp_prec_wf(*a) && exp_prec_wf(*ix),
        Expression::Nothing => true,
    }
}

pub open spec fn lit_prec_wf(l: Literals) -> bool
    decreases l,
{
    match l {
        Literals::Arr(es) => forall|k: int|
            0 <= k < es@.len() ==> exp_prec_wf(#[trigger] es@[k]),
        _ => true,
    }
}

pub open spec fn stmt_prec_wf(s: Statement) -> bool
    decreases s,
{
    match s {
        Statement::Var(_, e) => exp_prec_wf(e),
        Statement::Return(e) => exp_prec_wf(e),
        Statement::ExpressionStmt(e) => exp_prec_wf(e),
        Statement::Nothing => true,
    }
}

pub open spec fn block_prec_wf(b: Seq<Statement>) -> bool
    decreases b,
{
    forall|k: int| 0 <= k < b.len() ==> stmt_prec_wf(#[trigger] b[k])
}

// ---------------------------------------------------------------------------
// Text form of the tree
// ---------------------------------------------------------------------------

/// The one prefix operator's spelling.
pub open spec fn prefix_text(p: Prefix) -> Seq<char> {
    "-"@
}

/// An expression's text form: fully parenthesized for operators, so the
/// tree's shape can be read off the text.  Nodes without a defined text
/// form render as empty text.
pub open spec fn exp_text(e: Expression) -> Seq<char>
    decreases e,
{
    match e {
        Expression::Ident(i) => i.literal@,
        Expression::Literal(l) => lit_text(l),
        Expression::Prefix(p, inner) => "("@ + prefix_text(p) + exp_text(*inner) + ")"@,
        Expression::Infix(op, l, r) => "("@ + exp_text(*l) + infix_text(op) + exp_text(*r)
            + ")"@,
        Expression::If(c, b1, b2) => match b2 {
            Option::Some(b) => "If("@ + exp_text(*c) + ")"@ + stmts_join(b1@) + "else"@
                + stmts_join(b@),
            Option::None => "If("@ + exp_text(*c) + ")"@ + stmts_join(b1@),
        },
        _ => ""@,
    }
}

pub open spec fn lit_text(l: Literals) -> Seq<char>
    decreases l,
{
    match l {
        Literals::Int(i) => crate::text::int_seq(i as int),
        Literals::Bool(b) => if b {
            "true"@
        } else {
            "false"@
        },
        Literals::String(s) => s@,
        Literals::Arr(es) => exps_join(es@),
    }
}

/// A statement's text form; only bindings have one.
pub open spec fn stmt_text(s: Statement) -> Seq<char>
    decreases s,
{
    match s {
        Statement::Var(i, e) => "var "@ + i.literal@ + " = "@ + exp_text(e),
        _ => ""@,
    }
}

/// Statements' text forms, one per line.
pub open spec fn stmts_join(b: Seq<Statement>) -> Seq<char>
    decreases b,
{
    if b.len() == 0 {
        ""@
    } else if b.len() == 1 {
        stmt_text(b[0])
    } else {
        stmts_join(b.drop_last()) + "\n"@ + stmt_text(b.last())
    }
}

/// Expressions' text forms, comma-separated.
pub open spec fn exps_join(es: Seq<Expression>) -> Seq<char>
    decreases es,
{
    if es.len() == 0 {
        ""@
    } else if es.len() == 1 {
        exp_text(es[0])
    } else {
        exps_join(es.drop_last()) + ", "@ + exp_text(es.last())
    }
}

impl Ident {
    /// The identifier's spelling.
    pub fn text(&self) -> (s: String)
        ensures
            s@ == self.literal@,
    {
        self.literal.clone()
    }
}

impl Prefix {
    /// The operator's spelling.
    pub fn text(&self) -> (s: &'static str)
        ensures
            s@ == prefix_text(*self),
    {
        "-"
    }
}

fn join_stmts(v: &Vec<Statement>) -> (s: String)
    ensures
        s@ == stmts_join(v@),
    decreases v@,
{
    let mut s = String::from_str("");
    let mut k: usize = 0;
    proof {
        assert(v@.subrange(0, 0) =~= Seq::<Statement>::empty());
        assert(s@ =~= stmts_join(v@.subrange(0, 0)));
    }
    while k < v.len()
        invariant
            k <= v@.len(),
            s@ == stmts_join(v@.subrange(0, k as int)),
        decreases v.len() - k,
    {
        proof {
            assert(decreases_to!(v@ => v@[k as int]));
        }
        if k > 0 {
            s.append("\n");
        }
        let t = v[k].text();
        s.append(t.as_str());
        proof {
            let pre = v@.subrange(0, k as int);
            let cur = v@.subrange(0, k + 1);
            assert(cur.drop_last() =~= pre);
            assert(cur.last() == v@[k as int]);
            if k == 0 {
                assert(cur[0] == v@[0]);
                reveal_strlit("");
                assert(s@ =~= stmt_text(v@[0]));
            }
        }
        k = k + 1;
    }
    proof {
        assert(v@.subrange(0, v@.len() as int) =~= v@);
    }
    s
}

fn join_exps(v: &Vec<Expression>) -> (s: String)
    ensures
        s@ == exps_join(v@),
    decreases v@,
{
    let mut s = String::from_str("");
    let mut k: usize = 0;
    proof {
        assert(v@.subrange(0, 0) =~= Seq::<Expression>::empty());
        assert(s@ =~= exps_join(v@.subrange(0, 0)));
    }
    while k < v.len()
        invariant
            k <= v@.len(),
            s@ == exps_join(v@.subrange(0, k as int)),
        decreases v.len() - k,
    {
        proof {
            assert(decreases_to!(v@ => v@[k as int]));
        }
        if k > 0 {
            s.append(", ");
        }
        let t = v[k].text();
        s.append(t.as_str());
        proof {
            let pre = v@.subrange(0, k as int);
            let cur = v@.subrange(0, k + 1);
            assert(cur.drop_last() =~= pre);
            assert(cur.last() == v@[k as int]);
            if k == 0 {
                assert(cur[0] == v@[0]);
                reveal_strlit("");
                assert(s@ =~= exp_text(v@[0]));
            }
        }
        k = k + 1;
    }
    proof {
        assert(v@.subrange(0, v@.len() as int) =~= v@);
    }
    s
}

impl Literals {
    /// The literal's text form, as `lit_text` gives it.
    pub fn text(&self) -> (s: String)
        ensures
            s@ == lit_text(*self),
        decreases *self,
    {
        match self {
            Literals::Int(i) => crate::text::i64_to_string(*i),
            Literals::Bool(b) => {
                if *b {
                    String::from_str("true")
                } else {
                    String::from_str("false")
                }
            },
            Literals::String(s) => s.clone(),
            Literals::Arr(es) => join_exps(es),
        }
    }
}

impl Expression {
    /// The expression's text form, as `exp_text` gives it.
    pub fn text(&self) -> (s: String)
        ensures
            s@ == exp_text(*self),
        decreases *self,
    {
        match self {
            Expression::Ident(i) => i.text(),
            Expression::Literal(l) => l.text(),
            Expression::Prefix(p, inner) => {
                let mut s = String::from_str("(");
                s.append(p.text());
                let t = (&**inner).text();
                s.append(t.as_str());
                s.append(")");
                s
            },
            Expression::Infix(op, l, r) => {
                let mut s = String::from_str("(");
                let lt = (&**l).text();
                s.append(lt.as_str());
                s.append(op.text());
                let rt = (&**r).text();
                s.append(rt.as_str());
                s.append(")");
                s
            },
            Expression::If(c, b1, b2) => {
                let mut s = String::from_str("If(");
                let ct = (&**c).text();
                s.append(ct.as_str());
                s.append(")");
                let bt = join_stmts(b1);
                s.append(bt.as_str());
                match b2 {
                    Option::Some(b) => {
                        s.append("else");
                        let et = join_stmts(b);
                        s.append(et.as_str());
                    },
                    Option::None => {},
                }
                s
            },
            _ => String::from_str(""),
        }
    }
}

impl Statement {
    /// The statement's text form, as `stmt_text` gives it.
    pub fn text(&self) -> (s: String)
        ensures
            s@ == stmt_text(*self),
        decreases *self,
    {
        match self {
            Statement::Var(i, e) => {
                let mut s = String::from_str("var ");
                let it = i.text();
                s.append(it.as_str());
                s.append(" = ");
                let et = e.text();
                s.append(et.as_str());
                s
            },
            _ => String::from_str(""),
        }
    }
}

// ---------------------------------------------------------------------------
// Mathematical mirror of the tree
// ---------------------------------------------------------------------------

/// Mirror of `Literals` over sequences and unbounded integers.
pub enum LitV {
    Int(int),
    Bool(bool),
    Str(Seq<char>),
    Arr(Seq<ExpV>),
}

/// Mirror of `Expression`.
pub enum ExpV {
    Ident(Seq<char>),
    Literal(LitV),
    Prefix(Prefix, Box<ExpV>),
    Infix(Infix, Box<ExpV>, Box<ExpV>),
    If(Box<ExpV>, Seq<StmtV>, Option<Seq<StmtV>>),
    Function(Seq<Seq<char>>, Seq<StmtV>),
    FunctionCall(Seq<ExpV>, Box<ExpV>),
    Index(Box<ExpV>, Box<ExpV>),

    Nothing,
}

/// Mirror of `Statement`.
pub enum StmtV {
    Var(Seq<char>, ExpV),
    Return(ExpV),
    ExpressionStmt(ExpV),

    Nothing,
}

pub open spec fn idents_view(v: Seq<Ident>) -> Seq<Seq<char>> {
    Seq::new(v.len(), |i: int| v[i].literal@)
}

pub open spec fn exp_view(e: Expression) -> ExpV
    decreases e,
{
    match e {
        Expression::Ident(i) => ExpV::Ident(i.literal@),
        Expression::Literal(l) => ExpV::Literal(lit_view(l)),
        Expression::Prefix(p, inner) => ExpV::Prefix(p, Box::new(exp_view(*inner))),
        Expression::Infix(op, l, r) => ExpV::Infix(
            op,
            Box::new(exp_view(*l)),
            Box::new(exp_view(*r)),
        ),
        Expression::If(c, b1, b2) => ExpV::If(Box::new(exp_view(*c)), stmts_view(b1@), match b2 {
            Option::Some(b) => Option::Some(stmts_view(b@)),
            Option::None => Option::None,
        }),
        Expression::Function(ps, body) => ExpV::Function(idents_view(ps@), stmts_view(body@)),
        Expression::FunctionCall(args, f) => ExpV::FunctionCall(
            exps_view(args@),
            Box::new(exp_view(*f)),
        ),
        Expression::Index(a, ix) => ExpV::Index(Box::new(exp_view(*a)), Box::new(exp_view(*ix))),
        Expression::Nothing => ExpV::Nothing,
    }
}

pub open spec fn lit_view(l: Literals) -> LitV
    decreases l,
{
    match l {
        Literals::Int(i) => LitV::Int(i as int),
        Literals::Bool(b) => LitV::Bool(b),
        Literals::String(s) => LitV::Str(s@),
        Literals::Arr(es) => LitV::Arr(exps_view(es@)),
    }
}

pub open spec fn exps_view(es: Seq<Expression>) -> Seq<ExpV>
    decreases es,
{
    if es.len() == 0 {
        Seq::empty()
    } else {
        exps_view(es.drop_last()).push(exp_view(es.last()))
    }
}

pub open spec fn stmt_view(s: Statement) -> StmtV
    decreases s,
{
    match s {
        Statement::Var(i, e) => StmtV::Var(i.literal@, exp_view(e)),
        Statement::Return(e) => StmtV::Return(exp_view(e)),
        Statement::ExpressionStmt(e) => StmtV::ExpressionStmt(exp_view(e)),
        Statement::Nothing => StmtV::Nothing,
    }
}

pub open spec fn stmts_view(b: Seq<Statement>) -> Seq<StmtV>
    decreases b,
{
    if b.len() == 0 {
        Seq::empty()
    } else {
        stmts_view(b.drop_last()).push(stmt_view(b.last()))
    }
}

impl View for Expression {
    type V = ExpV;

    open spec fn view(&self) -> ExpV {
        exp_view(*self)
    }
}

impl View for Statement {
    type V = StmtV;

    open spec fn view(&self) -> StmtV {
        stmt_view(*self)
    }
}

impl View for Literals {
    type V = LitV;

    open spec fn view(&self) -> LitV {
        lit_view(*self)
    }
}

impl View for Ident {
    type V = Seq<char>;

    open spec fn view(&self) -> Seq<char> {
        self.literal@
    }
}

// ---------------------------------------------------------------------------
// Facts about the sequence views
// ---------------------------------------------------------------------------

/// The view of a statement sequence is its statements' views, pointwise.
pub proof fn lemma_stmts_view_index(b: Seq<Statement>)
    ensures
        stmts_view(b).len() == b.len(),
        forall|k: int| 0 <= k < b.len() ==> stmts_view(b)[k] == stmt_view(#[trigger] b[k]),
    decreases b,
{
    if b.len() > 0 {
        lemma_stmts_view_index(b.drop_last());
        assert forall|k: int| 0 <= k < b.len() implies stmts_view(b)[k] == stmt_view(
            #[trigger] b[k],
        ) by {
            if k < b.len() - 1 {
                assert(b.drop_last()[k] == b[k]);
                assert(stmts_view(b)[k] == stmts_view(b.drop_last())[k]);
            } else {
                assert(b.last() == b[k]);
            }
        }
    }
}

/// The view of an expression sequence is its expressions' views, pointwise.
pub proof fn lemma_exps_view_index(es: Seq<Expression>)
    ensures
        exps_view(es).len() == es.len(),
        forall|k: int| 0 <= k < es.len() ==> exps_view(es)[k] == exp_view(#[trigger] es[k]),
    decreases es,
{
    if es.len() > 0 {
        lemma_exps_view_index(es.drop_last());
        assert forall|k: int| 0 <= k < es.len() implies exps_view(es)[k] == exp_view(
            #[trigger] es[k],
        ) by {
            if k < es.len() - 1 {
                assert(es.drop_last()[k] == es[k]);
                assert(exps_view(es)[k] == exps_view(es.drop_last())[k]);
            } else {
                assert(es.last() == es[k]);
            }
        }
    }
}

// ---------------------------------------------------------------------------
// Cloning
// ---------------------------------------------------------------------------

/// Clone a vector of identifiers, element for element.
pub(crate) fn clone_idents(v: &Vec<Ident>) -> (r: Vec<Ident>)
    ensures
        r@ == v@,
{
    let mut out: Vec<Ident> = Vec::new();
    let mut k: usize = 0;
    while k < v.len()
        invariant
            k <= v.len(),
            out@.len() == k,
            forall|i: int| 0 <= i < k ==> out@[i] == v@[i],
        decreases v.len() - k,
    {
        out.push(v[k].clone());
        k = k + 1;
    }
    proof {
        assert(out@ =~= v@);
    }
    out
}

/// Clone a vector of expressions; the views agree, element for element.
fn clone_exps(v: &Vec<Expression>) -> (r: Vec<Expression>)
    ensures
        r@.len() == v@.len(),
        exps_view(r@) == exps_view(v@),
        forall|i: int| 0 <= i < v@.len() ==> exp_view(#[trigger] r@[i]) == exp_view(v@[i]),
    decreases v@,
{
    let mut out: Vec<Expression> = Vec::new();
    let mut k: usize = 0;
    while k < v.len()
        invariant
            k <= v.len(),
            out@.len() == k,
            forall|i: int| 0 <= i < k ==> exp_view(#[trigger] out@[i]) == exp_view(v@[i]),
        decreases v.len() - k,
    {
        proof {
            assert(decreases_to!(v@ => v@[k as int]));
        }
        out.push(v[k].clone());
        k = k + 1;
    }
    proof {
        lemma_exps_view_index(out@);
        lemma_exps_view_index(v@);
        assert forall|i: int| 0 <= i < v@.len() implies exps_view(out@)[i] == exps_view(v@)[i] by {
            assert(exp_view(out@[i]) == exp_view(v@[i]));
        }
        assert(exps_view(out@) =~= exps_view(v@));
    }
    out
}

/// Clone a block; the views agree, statement for statement.
pub(crate) fn clone_stmts(v: &Vec<Statement>) -> (r: Vec<Statement>)
    ensures
        r@.len() == v@.len(),
        stmts_view(r@) == stmts_view(v@),
        forall|i: int| 0 <= i < v@.len() ==> stmt_view(#[trigger] r@[i]) == stmt_view(v@[i]),
    decreases v@,
{
    let mut out: Vec<Statement> = Vec::new();
    let mut k: usize = 0;
    while k < v.len()
        invariant
            k <= v.len(),
            out@.len() == k,
            forall|i: int| 0 <= i < k ==> stmt_view(#[trigger] out@[i]) == stmt_view(v@[i]),
        decreases v.len() - k,
    {
        proof {
            assert(decreases_to!(v@ => v@[k as int]));
        }
        out.push(v[k].clone());
        k = k + 1;
    }
    proof {
        lemma_stmts_view_index(out@);
        lemma_stmts_view_index(v@);
        assert forall|i: int| 0 <= i < v@.len() implies stmts_view(out@)[i] == stmts_view(v@)[i]
            by {
            assert(stmt_view(out@[i]) == stmt_view(v@[i]));
        }
        assert(stmts_view(out@) =~= stmts_view(v@));
    }
    out
}

impl Clone for Literals {
    /// Cloning a literal preserves its view.
    fn clone(&self) -> (r: Self)
        ensures
            r@ == self@,
        decreases *self,
    {
        match self {
            Literals::Int(i) => Literals::Int(*i),
            Literals::Bool(b) => Literals::Bool(*b),
            Literals::String(s) => Literals::String(s.clone()),
            Literals::Arr(es) => Literals::Arr(clone_exps(es)),
        }
    }
}

impl Clone for Expression {
    /// Cloning an expression preserves its view.
    fn clone(&self) -> (r: Self)
        ensures
            r@ == self@,
        decreases *self,
    {
        match self {
            Expression::Ident(i) => Expression::Ident(i.clone()),
            Expression::Literal(l) => Expression::Literal(l.clone()),
            Expression::Prefix(p, inner) => Expression::Prefix(*p, Box::new((&**inner).clone())),
            Expression::Infix(op, l, r2) => Expression::Infix(
                *op,
                Box::new((&**l).clone()),
                Box::new((&**r2).clone()),
            ),
            Expression::If(c, b1, b2) => {
                let cc = Box::new((&**c).clone());
                let b1c = clone_stmts(b1);
                let b2c = match b2 {
                    Option::Some(b) => Option::Some(clone_stmts(b)),
                    Option::None => Option::None,
                };
                Expression::If(cc, b1c, b2c)
            },
            Expression::Function(ps, body) => Expression::Function(
                clone_idents(ps),
                clone_stmts(body),
            ),
            Expression::FunctionCall(args, f) => Expression::FunctionCall(
                clone_exps(args),
                Box::new((&**f).clone()),
            ),
            Expression::Index(a, ix) => Expression::Index(
                Box::new((&**a).clone()),
                Box::new((&**ix).clone()),
            ),
            Expression::Nothing => Expression::Nothing,
        }
    }
}

impl Clone for Statement {
    /// Cloning a statement preserves its view.
    fn clone(&self) -> (r: Self)
        ensures
            r@ == self@,
        decreases *self,
    {
        match self {
            Statement::Var(i, e) => Statement::Var(i.clone(), e.clone()),
            Statement::Return(e) => Statement::Return(e.clone()),
            Statement::ExpressionStmt(e) => Statement::ExpressionStmt(e.clone()),
            Statement::Nothing => Statement::Nothing,
        }
    }
}

} // verus!
