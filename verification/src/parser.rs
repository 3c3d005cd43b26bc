use vstd::prelude::*;

use crate::ast::{
    block_prec_wf, exp_prec_wf, exp_view, idents_view, infix_of_token, infix_prec, is_infix_exp,
    prec_level, root_prec_above, root_prec_at_least, stmt_prec_wf, stmt_view, stmts_view,
    token_is_binop, token_prec, BlockStmt, ExpV, Expression, Ident, Infix, LitV, Literals,
    Precedences, Prefix, Program, Statement, StmtV,
};
use crate::lexer::{spec_next_token, Lexer};
use crate::token::{Token, TokenS};

verus! {

// ---------------------------------------------------------------------------
// The token stream, as a function of the source text
// ---------------------------------------------------------------------------

/// How far one token reaches, and whether scanning has ended.
proof fn lemma_spec_next_token_progress(s: Seq<char>, pos: int)
    requires
        0 <= pos <= s.len(),
    ensures
        pos <= spec_next_token(s, pos).1 <= s.len(),
        spec_next_token(s, pos).0 != TokenS::EOF ==> pos < spec_next_token(s, pos).1,
{
    crate::lexer::lemma_scan_bounds(s, pos);
}

/// The whole token stream from `pos` on: every token `next_token` would
/// hand out, ending with the first `EOF`.
pub open spec fn spec_tokens(s: Seq<char>, pos: int) -> Seq<TokenS>
    decreases s.len() - pos,
    when 0 <= pos <= s.len()
    via spec_tokens_dec
{
    let r = spec_next_token(s, pos);
    if r.0 == TokenS::EOF {
        seq![TokenS::EOF]
    } else {
        seq![r.0] + spec_tokens(s, r.1)
    }
}

#[via_fn]
proof fn spec_tokens_dec(s: Seq<char>, pos: int) {
    lemma_spec_next_token_progress(s, pos);
}


// ---------------------------------------------------------------------------
// The parser, as mathematics
// ---------------------------------------------------------------------------

/// The token at a position of the stream, `EOF` outside it.
pub open spec fn tok_at(t: Seq<TokenS>, p: int) -> TokenS {
    if 0 <= p < t.len() {
        t[p]
    } else {
        TokenS::EOF
    }
}

/// One cursor step: at the final position the cursor stays put.
pub open spec fn nx(t: Seq<TokenS>, p: int) -> int {
    if p + 1 < t.len() {
        p + 1
    } else {
        p
    }
}

/// A position, kept at or after `lo` and within the stream.  Every
/// production returns a position in that range anyway, so these clamps
/// change nothing on the streams the parser reads; they make the
/// definitions total.
pub open spec fn clamp_at(t: Seq<TokenS>, p: int, lo: int) -> int {
    let capped = if p > t.len() {
        t.len() as int
    } else {
        p
    };
    if capped < lo {
        lo
    } else {
        capped
    }
}

/// One prefix production, keyed on the token under the cursor.  This
/// and its companions below are the parser: each executable production
/// is proved to compute exactly its mirror here, tree and cursor both.
pub open spec fn sp_prefix(t: Seq<TokenS>, p: int) -> (ExpV, int)
    decreases t.len() - p, 0int,
{
    match tok_at(t, p) {
        TokenS::If => {
            if p + 1 >= t.len() {
                (ExpV::Nothing, p)
            } else {
                let p1 = p + 1;
                if tok_at(t, p1) != TokenS::LPAREN {
                    (ExpV::Nothing, p1)
                } else {
                    let p2 = nx(t, p1);
                    let c = sp_exp(t, p2, 0);
                    let p3 = clamp_at(t, c.1, p2);
                    if tok_at(t, p3 + 1) != TokenS::RPAREN {
                        (ExpV::Nothing, p3)
                    } else {
                        let p5 = nx(t, nx(t, p3));
                        let b1 = sp_block(t, p5);
                        let p6 = clamp_at(t, b1.1, p5);
                        if tok_at(t, p6 + 1) == TokenS::Else {
                            let p8 = nx(t, nx(t, p6));
                            let b2 = sp_block(t, p8);
                            (ExpV::If(Box::new(c.0), b1.0, Option::Some(b2.0)), b2.1)
                        } else {
                            (ExpV::If(Box::new(c.0), b1.0, Option::None), p6)
                        }
                    }
                }
            }
        },
        TokenS::Func => {
            if p + 1 >= t.len() {
                (ExpV::Nothing, p)
            } else {
                let p1 = p + 1;
                let ps = sp_params(t, p1);
                let p2 = nx(t, clamp_at(t, ps.1, p1));
                let b = sp_block(t, p2);
                (ExpV::Function(ps.0, b.0), b.1)
            }
        },
        TokenS::LBRACKET => {
            if p + 1 >= t.len() {
                (ExpV::Nothing, p)
            } else {
                let es = sp_arr_items(t, p + 1);
                (ExpV::Literal(LitV::Arr(es.0)), es.1)
            }
        },
        TokenS::Minus => {
            if p + 1 >= t.len() {
                (ExpV::Nothing, p)
            } else {
                let r = sp_exp(t, p + 1, prec_level(Precedences::Prefix));
                (ExpV::Prefix(Prefix::Minus, Box::new(r.0)), r.1)
            }
        },
        _ => (ExpV::Nothing, p),
    }
}

/// Array-literal elements up to the closing bracket.
pub open spec fn sp_arr_items(t: Seq<TokenS>, p: int) -> (Seq<ExpV>, int)
    decreases t.len() - p, 3int,
{
    let c = tok_at(t, p);
    if c is RBRACKET || c is EOF {
        (Seq::empty(), p)
    } else {
        let e1 = sp_exp(t, p, 0);
        let q = clamp_at(t, e1.1, p);
        let q1 = nx(t, q);
        let q2 = if tok_at(t, q1) is Comma {
            nx(t, q1)
        } else {
            q1
        };
        let q3 = clamp_at(t, q2, p + 1);
        let rest = sp_arr_items(t, q3);
        (seq![e1.0] + rest.0, rest.1)
    }
}

/// Fold infix productions while the next token binds tighter than `min`.
pub open spec fn sp_fold(t: Seq<TokenS>, p: int, min: int, left: ExpV) -> (ExpV, int)
    decreases t.len() - p, 1int,
{
    if p + 1 < t.len() && !(tok_at(t, p + 1) is EOF) && token_prec(tok_at(t, p + 1)) > min {
        let p1 = p + 1;
        let r = sp_infix(t, p1, left);
        let p2 = clamp_at(t, r.1, p1);
        sp_fold(t, p2, min, r.0)
    } else {
        (left, p)
    }
}

/// One expression at a minimum binding power: a prefix production, a
/// literal or identifier fallback where it yields nothing, then folding.
pub open spec fn sp_exp(t: Seq<TokenS>, p: int, min: int) -> (ExpV, int)
    decreases t.len() - p, 2int,
{
    let pr = sp_prefix(t, p);
    let p1 = clamp_at(t, pr.1, p);
    let left = if pr.0 is Nothing {
        match tok_at(t, p1) {
            TokenS::Int(i) => ExpV::Literal(LitV::Int(i)),
            TokenS::Bool(b) => ExpV::Literal(LitV::Bool(b)),
            TokenS::StrLit(sq) => ExpV::Literal(LitV::Str(sq)),
            TokenS::Ident(nm) => ExpV::Ident(nm),
            _ => ExpV::Nothing,
        }
    } else {
        pr.0
    };
    sp_fold(t, p1, min, left)
}

/// One infix production folded onto `left`, keyed on the token under
/// the cursor.
pub open spec fn sp_infix(t: Seq<TokenS>, p: int, left: ExpV) -> (ExpV, int)
    decreases t.len() - p, 5int,
{
    let c = tok_at(t, p);
    if token_is_binop(c) {
        if p + 1 >= t.len() {
            (ExpV::Nothing, p)
        } else {
            let op = infix_of_token(c);
            let r = sp_exp(t, p + 1, infix_prec(op));
            (ExpV::Infix(op, Box::new(left), Box::new(r.0)), r.1)
        }
    } else if c is LPAREN {
        let args = sp_args(t, p);
        (ExpV::FunctionCall(args.0, Box::new(left)), args.1)
    } else if c is LBRACKET {
        if p + 1 >= t.len() {
            (ExpV::Nothing, p)
        } else {
            let ix = sp_exp(t, p + 1, 0);
            let q = clamp_at(t, ix.1, p + 1);
            (ExpV::Index(Box::new(left), Box::new(ix.0)), nx(t, q))
        }
    } else {
        (ExpV::Nothing, p)
    }
}

/// A call's argument list, through the closing parenthesis.
pub open spec fn sp_args(t: Seq<TokenS>, p: int) -> (Seq<ExpV>, int)
    decreases t.len() - p, 4int,
{
    if tok_at(t, p) != TokenS::LPAREN || p + 1 >= t.len() {
        (Seq::empty(), p)
    } else {
        let p1 = p + 1;
        if tok_at(t, p1) is RPAREN {
            (Seq::empty(), p1)
        } else {
            sp_args_items(t, p1)
        }
    }
}

/// Comma-separated argument expressions, then one step onto the
/// closing parenthesis.
pub open spec fn sp_args_items(t: Seq<TokenS>, p: int) -> (Seq<ExpV>, int)
    decreases t.len() - p, 3int,
{
    let e1 = sp_exp(t, p, 0);
    let q = clamp_at(t, e1.1, p);
    if tok_at(t, q + 1) is Comma && q + 2 < t.len() {
        let q2 = clamp_at(t, nx(t, nx(t, q)), p + 1);
        let rest = sp_args_items(t, q2);
        (seq![e1.0] + rest.0, rest.1)
    } else {
        (seq![e1.0], nx(t, q))
    }
}

/// A function literal's parameter names, up to the closing parenthesis.
pub open spec fn sp_params(t: Seq<TokenS>, p: int) -> (Seq<Seq<char>>, int)
    decreases t.len() - p, 1int,
{
    if tok_at(t, p) != TokenS::LPAREN || p + 1 >= t.len() {
        (Seq::empty(), p)
    } else {
        sp_params_items(t, p + 1)
    }
}

/// The names in a parameter list, in source order.
pub open spec fn sp_params_items(t: Seq<TokenS>, p: int) -> (Seq<Seq<char>>, int)
    decreases t.len() - p, 0int,
{
    let c = tok_at(t, p);
    if c is RPAREN || c is EOF || p + 1 >= t.len() {
        (Seq::empty(), p)
    } else {
        match c {
            TokenS::Ident(nm) => {
                let p1 = p + 1;
                let p2 = if tok_at(t, p1) is Comma {
                    nx(t, p1)
                } else {
                    p1
                };
                let rest = sp_params_items(t, p2);
                (seq![nm] + rest.0, rest.1)
            },
            _ => sp_params_items(t, p + 1),
        }
    }
}

/// One statement, keyed on the token under the cursor.
pub open spec fn sp_stmt(t: Seq<TokenS>, p: int) -> (StmtV, int)
    decreases t.len() - p, 4int,
{
    let c = tok_at(t, p);
    if c is Var {
        sp_var(t, p)
    } else if c is Return {
        let r = sp_exp(t, nx(t, p), 0);
        (StmtV::Return(r.0), r.1)
    } else {
        let r = sp_exp(t, p, 0);
        (StmtV::ExpressionStmt(r.0), r.1)
    }
}

/// A binding statement: `var` name `=` initializer, or the absence
/// statement where the shape fails.
pub open spec fn sp_var(t: Seq<TokenS>, p: int) -> (StmtV, int)
    decreases t.len() - p, 3int,
{
    match tok_at(t, p + 1) {
        TokenS::Ident(nm) => {
            let p1 = nx(t, p);
            if tok_at(t, p1 + 1) != TokenS::Assign {
                (StmtV::Nothing, p1)
            } else {
                let p3 = nx(t, nx(t, p1));
                let r = sp_exp(t, p3, 0);
                (StmtV::Var(nm, r.0), r.1)
            }
        },
        _ => (StmtV::Nothing, p),
    }
}

/// A brace-delimited block: nothing without the brace, else the
/// statements up to the closing brace.
pub open spec fn sp_block(t: Seq<TokenS>, p: int) -> (Seq<StmtV>, int)
    decreases t.len() - p, 6int,
{
    if tok_at(t, p) != TokenS::LBRACE || p + 1 >= t.len() {
        (Seq::empty(), p)
    } else {
        sp_block_items(t, p + 1)
    }
}

/// Statements until the closing brace; newline tokens are skipped
/// where a statement would begin.
pub open spec fn sp_block_items(t: Seq<TokenS>, p: int) -> (Seq<StmtV>, int)
    decreases t.len() - p, 5int,
{
    let c = tok_at(t, p);
    if c is RBRACE || c is EOF {
        (Seq::empty(), p)
    } else if c is NewLine {
        if p + 1 >= t.len() {
            (Seq::empty(), p)
        } else {
            sp_block_items(t, p + 1)
        }
    } else {
        let s = sp_stmt(t, p);
        let q = clamp_at(t, nx(t, clamp_at(t, s.1, p)), p + 1);
        let rest = sp_block_items(t, q);
        (seq![s.0] + rest.0, rest.1)
    }
}

/// The whole program: statements until the end of the stream; newline
/// tokens are skipped where a statement would begin.
pub open spec fn sp_program(t: Seq<TokenS>, p: int) -> (Seq<StmtV>, int)
    decreases t.len() - p, 5int,
{
    let c = tok_at(t, p);
    if c is EOF {
        (Seq::empty(), p)
    } else if c is NewLine {
        if p + 1 >= t.len() {
            (Seq::empty(), p)
        } else {
            sp_program(t, p + 1)
        }
    } else {
        let s = sp_stmt(t, p);
        let q = clamp_at(t, nx(t, clamp_at(t, s.1, p)), p + 1);
        let rest = sp_program(t, q);
        (seq![s.0] + rest.0, rest.1)
    }
}

// ---------------------------------------------------------------------------
// The parser
// ---------------------------------------------------------------------------

/// A precedence-climbing parser over the token stream of one source text.
pub struct Parser {
    tokens: Vec<Token>,
    pos: usize,
}

impl Parser {
    /// The token stream, as token views.
    pub closed spec fn toks(&self) -> Seq<TokenS> {
        Seq::new(self.tokens@.len(), |i: int| self.tokens@[i]@)
    }

    /// The index of the current token.
    pub closed spec fn at(&self) -> int {
        self.pos as int
    }

    /// The stream holds exactly one `EOF`, at its end, and the cursor
    /// never leaves the stream.
    pub closed spec fn wf(&self) -> bool {
        &&& self.tokens@.len() >= 1
        &&& self.pos < self.tokens@.len()
        &&& self.toks()[self.toks().len() - 1] == TokenS::EOF
        &&& forall|i: int| 0 <= i < self.toks().len() - 1 ==> self.toks()[i] != TokenS::EOF
    }

    /// The current token.
    pub closed spec fn cur(&self) -> TokenS {
        self.toks()[self.at()]
    }

    /// The token after the current one (`EOF` at the end of the stream).
    pub closed spec fn peek(&self) -> TokenS {
        if self.at() + 1 < self.toks().len() {
            self.toks()[self.at() + 1]
        } else {
            TokenS::EOF
        }
    }

    /// The token two places after the current one (`EOF` past the end).
    pub closed spec fn peek2(&self) -> TokenS {
        if self.at() + 2 < self.toks().len() {
            self.toks()[self.at() + 2]
        } else {
            TokenS::EOF
        }
    }

    /// Tokens not yet consumed: the termination measure of every
    /// production.
    pub closed spec fn rem(&self) -> int {
        self.toks().len() - self.at()
    }

    /// Drain the given scanner: the parser holds that text's whole token
    /// stream, cursor at its start.
    pub fn new(l: Lexer) -> (p: Parser)
        requires
            l.wf(),
        ensures
            p.wf(),
            p.at() == 0,
            p.toks() == spec_tokens(l.text(), l.at()),
    {
        let ghost s = l.text();
        let ghost p0 = l.at();
        let mut lx = l;
        let mut tokens: Vec<Token> = Vec::new();
        proof {
            lx.lemma_wf_bounds();
            assert(Seq::new(tokens@.len(), |i: int| tokens@[i]@) + spec_tokens(s, p0)
                =~= spec_tokens(s, p0));
        }
        loop
            invariant_except_break
                forall|i: int| 0 <= i < tokens@.len() ==> (#[trigger] tokens@[i]@) != TokenS::EOF,
                Seq::new(tokens@.len(), |i: int| tokens@[i]@) + spec_tokens(s, lx.at())
                    == spec_tokens(s, p0),
            invariant
                lx.wf(),
                lx.text() == s,
                0 <= p0 <= lx.at() <= s.len(),
            ensures
                tokens@.len() >= 1,
                tokens@[tokens@.len() - 1]@ == TokenS::EOF,
                forall|i: int|
                    0 <= i < tokens@.len() - 1 ==> (#[trigger] tokens@[i]@) != TokenS::EOF,
                Seq::new(tokens@.len(), |i: int| tokens@[i]@) == spec_tokens(s, p0),
            decreases s.len() - lx.at(),
        {
            let ghost before = lx.at();
            let ghost pre = Seq::new(tokens@.len(), |i: int| tokens@[i]@);
            let t = lx.next_token();
            let at_end = matches!(t, Token::EOF);
            tokens.push(t);
            proof {
                let post = Seq::new(tokens@.len(), |i: int| tokens@[i]@);
                assert(post =~= pre.push(tokens@[tokens@.len() - 1]@));
                if at_end {
                    assert(spec_tokens(s, before) =~= seq![TokenS::EOF]);
                    assert(pre + spec_tokens(s, before) =~= post);
                    assert(post == spec_tokens(s, p0));
                } else {
                    assert(spec_tokens(s, before) =~= seq![spec_next_token(s, before).0]
                        + spec_tokens(s, lx.at()));
                    assert(pre + spec_tokens(s, before) =~= post + spec_tokens(s, lx.at()));
                }
            }
            if at_end {
                break ;
            }
        }
        let p = Parser { tokens, pos: 0 };
        proof {
            assert(p.toks() =~= spec_tokens(s, p0));
        }
        p
    }

    /// A copy of the current token.
    fn cur_tok(&self) -> (t: Token)
        requires
            self.wf(),
        ensures
            t@ == self.cur(),
    {
        self.tokens[self.pos].clone()
    }

    /// A copy of the token after the current one.
    fn peek_tok(&self) -> (t: Token)
        requires
            self.wf(),
        ensures
            t@ == self.peek(),
    {
        if self.pos < self.tokens.len() - 1 {
            self.tokens[self.pos + 1].clone()
        } else {
            Token::EOF
        }
    }

    /// Step to the next token; at the final `EOF` the cursor stays put.
    fn next(&mut self)
        requires
            old(self).wf(),
        ensures
            final(self).wf(),
            final(self).toks() == old(self).toks(),
            final(self).at() == if old(self).at() + 1 < old(self).toks().len() {
                old(self).at() + 1
            } else {
                old(self).at()
            },
            old(self).cur() != TokenS::EOF ==> final(self).at() == old(self).at() + 1,
    {
        if self.pos < self.tokens.len() - 1 {
            self.pos = self.pos + 1;
        }
    }

    /// The rung of the ladder a token binds at when it follows an
    /// expression.
    fn token_to_precedence(token: &Token) -> (p: Precedences)
        ensures
            prec_level(p) == token_prec(token@),
    {
        match token {
            Token::Minus | Token::Plus => Precedences::Sum,
            Token::Star | Token::Slash => Precedences::Product,
            Token::EQ | Token::NotEQ => Precedences::Equals,
            Token::LT | Token::GT => Precedences::LessGreater,
            Token::LPAREN => Precedences::Call,
            Token::LBRACKET => Precedences::Index,
            _ => Precedences::Lowest,
        }
    }

    /// A rung of the ladder, as a number fit for comparison.
    fn prec_num(p: Precedences) -> (n: u8)
        ensures
            n as int == prec_level(p),
    {
        match p {
            Precedences::Lowest => 0,
            Precedences::Equals => 1,
            Precedences::LessGreater => 2,
            Precedences::Sum => 3,
            Precedences::Product => 4,
            Precedences::Prefix => 5,
            Precedences::Call => 6,
            Precedences::Index => 7,
        }
    }

    /// The binding power of the token after the current one.
    fn peek_precedence(&self) -> (n: u8)
        requires
            self.wf(),
        ensures
            n as int == token_prec(self.peek()),
    {
        let t = self.peek_tok();
        Self::prec_num(Self::token_to_precedence(&t))
    }

    /// Parse the whole program: statements until `EOF`.  Every statement
    /// respects the precedence ladder.
    #[verifier::spinoff_prover]
    #[verifier::rlimit(100)]
    pub fn parse_program(&mut self) -> (prog: Program)
        requires
            old(self).wf(),
        ensures
            final(self).wf(),
            final(self).toks() == old(self).toks(),
            block_prec_wf(prog@),
            stmts_view(prog@) == sp_program(old(self).toks(), old(self).at()).0,
            final(self).at() == sp_program(old(self).toks(), old(self).at()).1,
            final(self).cur() == TokenS::EOF,
    {
        let ghost t = self.toks();
        let ghost p0 = self.at();
        let mut parsed: Vec<Statement> = Vec::new();
        proof {
            assert(stmts_view(parsed@) =~= Seq::<StmtV>::empty());
            assert(Seq::<StmtV>::empty() + sp_program(t, p0).0 =~= sp_program(t, p0).0);
        }
        loop
            invariant
                self.wf(),
                self.toks() == old(self).toks(),
                t == old(self).toks(),
                old(self).at() <= self.at(),
                block_prec_wf(parsed@),
                sp_program(t, p0).0 == stmts_view(parsed@) + sp_program(t, self.at()).0,
                sp_program(t, p0).1 == sp_program(t, self.at()).1,
            ensures
                self.wf(),
                self.toks() == old(self).toks(),
                block_prec_wf(parsed@),
                stmts_view(parsed@) == sp_program(t, p0).0,
                self.at() == sp_program(t, p0).1,
                self.cur() == TokenS::EOF,
            decreases self.rem(),
        {
            if matches!(self.cur_tok(), Token::EOF) {
                proof {
                    assert(tok_at(t, self.at()) == self.cur());
                    assert(sp_program(t, self.at()) == (Seq::<StmtV>::empty(), self.at()));
                    assert(stmts_view(parsed@) + Seq::<StmtV>::empty() =~= stmts_view(parsed@));
                }
                break ;
            }
            if matches!(self.cur_tok(), Token::NewLine) {
                let ghost atk = self.at();
                self.next();
                proof {
                    assert(tok_at(t, atk) == TokenS::NewLine);
                    assert(sp_program(t, atk) == sp_program(t, atk + 1));
                }
            } else {
                let ghost atk = self.at();
                proof {
                    assert(tok_at(t, atk) == self.cur());
                }
                let stmt = self.parse_statement();
                let ghost atp = self.at();
                let ghost pre = parsed@;
                parsed.push(stmt);
                proof {
                    assert(forall|k: int|
                        0 <= k < parsed@.len() - 1 ==> parsed@[k] == #[trigger] pre[k]);
                    assert(parsed@.drop_last() =~= pre);
                }
                self.next();
                proof {
                    assert(clamp_at(t, atp, atk) == atp);
                    assert(nx(t, atp) == self.at());
                    assert(clamp_at(t, nx(t, atp), atk + 1) == self.at());
                    assert(sp_program(t, atk).0 == seq![stmt@] + sp_program(t, self.at()).0);
                    assert(sp_program(t, atk).1 == sp_program(t, self.at()).1);
                    assert(stmts_view(parsed@) =~= stmts_view(pre).push(stmt@));
                    assert(stmts_view(pre) + (seq![stmt@] + sp_program(t, self.at()).0)
                        =~= stmts_view(parsed@) + sp_program(t, self.at()).0);
                }
            }
        }
        parsed
    }

    /// Parse a brace-delimited block: statements until the closing brace.
    #[verifier::spinoff_prover]
    #[verifier::rlimit(100)]
    fn parse_block(&mut self) -> (b: BlockStmt)
        requires
            old(self).wf(),
        ensures
            final(self).wf(),
            final(self).toks() == old(self).toks(),
            old(self).at() <= final(self).at(),
            block_prec_wf(b@),
            old(self).cur() != TokenS::LBRACE ==> b@.len() == 0 && final(self).at() == old(
                self,
            ).at(),
            stmts_view(b@) == sp_block(old(self).toks(), old(self).at()).0,
            final(self).at() == sp_block(old(self).toks(), old(self).at()).1,
        decreases old(self).rem(), 3int,
    {
        let ghost t = self.toks();
        let ghost p = self.at();
        let mut parsed: Vec<Statement> = Vec::new();
        if !matches!(self.cur_tok(), Token::LBRACE) {
            proof {
                assert(tok_at(t, p) == old(self).cur());
                assert(stmts_view(parsed@) =~= Seq::<StmtV>::empty());
                assert(sp_block(t, p) == (Seq::<StmtV>::empty(), p));
            }
            return parsed;
        }
        self.next();
        let ghost pstart = self.at();
        proof {
            assert(pstart == p + 1);
            assert(sp_block(t, p) == sp_block_items(t, pstart));
            assert(stmts_view(parsed@) =~= Seq::<StmtV>::empty());
            assert(Seq::<StmtV>::empty() + sp_block_items(t, pstart).0 =~= sp_block_items(
                t,
                pstart,
            ).0);
        }
        loop
            invariant
                self.wf(),
                self.toks() == old(self).toks(),
                t == old(self).toks(),
                old(self).at() <= self.at(),
                self.rem() < old(self).rem(),
                block_prec_wf(parsed@),
                sp_block_items(t, pstart).0 == stmts_view(parsed@) + sp_block_items(
                    t,
                    self.at(),
                ).0,
                sp_block_items(t, pstart).1 == sp_block_items(t, self.at()).1,
            ensures
                self.wf(),
                self.toks() == old(self).toks(),
                old(self).at() <= self.at(),
                block_prec_wf(parsed@),
                stmts_view(parsed@) == sp_block_items(t, pstart).0,
                self.at() == sp_block_items(t, pstart).1,
            decreases self.rem(),
        {
            if matches!(self.cur_tok(), Token::RBRACE) || matches!(self.cur_tok(), Token::EOF) {
                proof {
                    assert(tok_at(t, self.at()) == self.cur());
                    assert(sp_block_items(t, self.at()) == (Seq::<StmtV>::empty(), self.at()));
                    assert(stmts_view(parsed@) + Seq::<StmtV>::empty() =~= stmts_view(parsed@));
                }
                break ;
            }
            if matches!(self.cur_tok(), Token::NewLine) {
                let ghost atk = self.at();
                self.next();
                proof {
                    assert(tok_at(t, atk) == TokenS::NewLine);
                    assert(sp_block_items(t, atk) == sp_block_items(t, atk + 1));
                }
            } else {
                let ghost atk = self.at();
                let stmt = self.parse_statement();
                let ghost atp = self.at();
                let ghost pre = parsed@;
                parsed.push(stmt);
                proof {
                    assert(forall|k: int|
                        0 <= k < parsed@.len() - 1 ==> parsed@[k] == #[trigger] pre[k]);
                    assert(parsed@.drop_last() =~= pre);
                }
                self.next();
                proof {
                    assert(clamp_at(t, atp, atk) == atp);
                    assert(nx(t, atp) == self.at());
                    assert(clamp_at(t, nx(t, atp), atk + 1) == self.at());
                    assert(sp_block_items(t, atk).0 == seq![stmt@] + sp_block_items(
                        t,
                        self.at(),
                    ).0);
                    assert(sp_block_items(t, atk).1 == sp_block_items(t, self.at()).1);
                    assert(stmts_view(parsed@) =~= stmts_view(pre).push(stmt@));
                    assert(stmts_view(pre) + (seq![stmt@] + sp_block_items(t, self.at()).0)
                        =~= stmts_view(parsed@) + sp_block_items(t, self.at()).0);
                }
            }
        }
        parsed
    }

    /// Parse one statement, keyed on the current token.
    fn parse_statement(&mut self) -> (s: Statement)
        requires
            old(self).wf(),
        ensures
            final(self).wf(),
            final(self).toks() == old(self).toks(),
            old(self).at() <= final(self).at(),
            stmt_prec_wf(s),
            old(self).cur() is Var ==> (s matches Statement::Var(_, _) || s
                == Statement::Nothing),
            old(self).cur() is Var ==> (old(self).peek() matches TokenS::Ident(nm) ==> (old(
                self,
            ).peek2() == TokenS::Assign ==> (s@ matches StmtV::Var(nm2, _) && nm2 == nm))),
            old(self).cur() is Return ==> s matches Statement::Return(_),
            !(old(self).cur() is Var || old(self).cur() is Return) ==> s matches
                Statement::ExpressionStmt(_),
            s@ == sp_stmt(old(self).toks(), old(self).at()).0,
            final(self).at() == sp_stmt(old(self).toks(), old(self).at()).1,
        decreases old(self).rem(), 2int,
    {
        let ghost t = self.toks();
        let ghost p = self.at();
        if matches!(self.cur_tok(), Token::Var) {
            let r = self.parse_var();
            proof {
                assert(tok_at(t, p) == old(self).cur());
                assert((r@, self.at()) == sp_stmt(t, p));
            }
            r
        } else if matches!(self.cur_tok(), Token::Return) {
            self.next();
            let e = self.parse_expression(Precedences::Lowest);
            let r = Statement::Return(e);
            proof {
                assert(tok_at(t, p) == old(self).cur());
                assert((r@, self.at()) == sp_stmt(t, p));
            }
            r
        } else {
            let e = self.parse_expression(Precedences::Lowest);
            let r = Statement::ExpressionStmt(e);
            proof {
                assert(tok_at(t, p) == old(self).cur());
                assert((r@, self.at()) == sp_stmt(t, p));
            }
            r
        }
    }

    /// Parse a binding: `var` name `=` initializer.  A malformed binding
    /// degrades to the absence statement.
    fn parse_var(&mut self) -> (s: Statement)
        requires
            old(self).wf(),
            old(self).cur() == TokenS::Var,
        ensures
            final(self).wf(),
            final(self).toks() == old(self).toks(),
            old(self).at() <= final(self).at(),
            stmt_prec_wf(s),
            s matches Statement::Var(_, _) || s == Statement::Nothing,
            !(old(self).peek() is Ident) ==> s == Statement::Nothing && final(self).at() == old(
                self,
            ).at(),
            old(self).peek() matches TokenS::Ident(nm) ==> (old(self).peek2() != TokenS::Assign
                ==> s == Statement::Nothing),
            old(self).peek() matches TokenS::Ident(nm) ==> (old(self).peek2() == TokenS::Assign
                ==> (s@ matches StmtV::Var(nm2, _) && nm2 == nm)),
            s@ == sp_var(old(self).toks(), old(self).at()).0,
            final(self).at() == sp_var(old(self).toks(), old(self).at()).1,
        decreases old(self).rem(), 1int,
    {
        proof {
            reveal_with_fuel(stmt_view, 2);
        }
        let ghost t = self.toks();
        let ghost p = self.at();
        proof {
            assert(tok_at(t, p + 1) == old(self).peek());
        }
        match self.peek_tok() {
            Token::Ident(name) => {
                self.next();
                proof {
                    assert(self.at() == nx(t, p));
                    assert(tok_at(t, self.at() + 1) == self.peek());
                }
                if !matches!(self.peek_tok(), Token::Assign) {
                    proof {
                        assert((StmtV::Nothing, self.at()) == sp_var(t, p));
                    }
                    return Statement::Nothing;
                }
                self.next();
                self.next();
                proof {
                    assert(self.at() == nx(t, nx(t, nx(t, p))));
                }
                let val = self.parse_expression(Precedences::Lowest);
                let r = Statement::Var(Ident { literal: name }, val);
                proof {
                    assert((r@, self.at()) == sp_var(t, p));
                }
                r
            },
            _ => Statement::Nothing,
        }
    }

    /// Parse one expression at a minimum binding power: a prefix
    /// production, then fold infix productions while the next token binds
    /// tighter.  The result respects the precedence ladder, its root
    /// operator (if infix) binds tighter than `precedence`, and the next
    /// token binds no tighter than `precedence`.
    fn parse_expression(&mut self, precedence: Precedences) -> (e: Expression)
        requires
            old(self).wf(),
        ensures
            final(self).wf(),
            final(self).toks() == old(self).toks(),
            old(self).at() <= final(self).at(),
            exp_prec_wf(e),
            root_prec_above(e, prec_level(precedence)),
            token_prec(final(self).peek()) <= prec_level(precedence),
            e@ == sp_exp(old(self).toks(), old(self).at(), prec_level(precedence)).0,
            final(self).at() == sp_exp(old(self).toks(), old(self).at(), prec_level(
                precedence,
            )).1,
        decreases old(self).rem(), 1int,
    {
        let ghost t = self.toks();
        let ghost p0 = self.at();
        let ghost minv = prec_level(precedence);
        let mut left = self.parse_prefix();
        proof {
            assert(clamp_at(t, self.at(), p0) == self.at());
            assert(tok_at(t, self.at()) == self.cur());
        }
        if matches!(left, Expression::Nothing) {
            match self.cur_tok() {
                Token::Int(i) => {
                    left = Expression::Literal(Literals::Int(i));
                },
                Token::Bool(b) => {
                    left = Expression::Literal(Literals::Bool(b));
                },
                Token::String(st) => {
                    left = Expression::Literal(Literals::String(st));
                },
                Token::Ident(id) => {
                    left = Expression::Ident(Ident { literal: id });
                },
                _ => {},
            }
        }
        proof {
            reveal_with_fuel(exp_prec_wf, 2);
            reveal_with_fuel(exp_view, 2);
            assert(exp_prec_wf(left));
            assert(!is_infix_exp(left));
            assert(sp_exp(t, p0, minv) == sp_fold(t, self.at(), minv, left@));
        }
        loop
            invariant
                self.wf(),
                self.toks() == old(self).toks(),
                t == old(self).toks(),
                minv == prec_level(precedence),
                old(self).at() <= self.at(),
                exp_prec_wf(left),
                root_prec_above(left, prec_level(precedence)),
                root_prec_at_least(left, token_prec(self.peek())),
                sp_fold(t, self.at(), minv, left@) == sp_exp(t, p0, minv),
            ensures
                self.wf(),
                self.toks() == old(self).toks(),
                old(self).at() <= self.at(),
                exp_prec_wf(left),
                root_prec_above(left, prec_level(precedence)),
                token_prec(self.peek()) <= prec_level(precedence),
                left@ == sp_exp(t, p0, minv).0,
                self.at() == sp_exp(t, p0, minv).1,
            decreases self.rem(),
        {
            let p = self.peek_precedence();
            let minp = Self::prec_num(precedence);
            if p > minp {
                let ghost atk = self.at();
                proof {
                    assert(tok_at(t, atk + 1) == self.peek());
                }
                self.next();
                let ghost leftpre = left@;
                left = self.parse_infix(left);
                proof {
                    assert(clamp_at(t, self.at(), atk + 1) == self.at());
                    assert(sp_fold(t, atk, minv, leftpre) == sp_fold(t, self.at(), minv, left@));
                }
            } else {
                proof {
                    assert(tok_at(t, self.at() + 1) == self.peek());
                    assert(sp_fold(t, self.at(), minv, left@) == (left@, self.at()));
                }
                break ;
            }
        }
        left
    }

    /// Fold one infix production onto `exp`, keyed on the current token:
    /// a binary operator, a call (at `(`), or an index (at `[`).
    fn parse_infix(&mut self, exp: Expression) -> (e: Expression)
        requires
            old(self).wf(),
            exp_prec_wf(exp),
            root_prec_at_least(exp, token_prec(old(self).cur())),
        ensures
            final(self).wf(),
            final(self).toks() == old(self).toks(),
            old(self).at() <= final(self).at(),
            exp_prec_wf(e),
            root_prec_at_least(e, token_prec(final(self).peek())),
            (match e {
                Expression::Infix(op, _, _) => infix_prec(op) == token_prec(old(self).cur()),
                _ => true,
            }),
            token_is_binop(old(self).cur()) ==> (e@ matches ExpV::Infix(op2, l2, _) && op2
                == infix_of_token(old(self).cur()) && *l2 == exp@),
            old(self).cur() is LPAREN ==> (e@ matches ExpV::FunctionCall(_, f2) && *f2 == exp@),
            old(self).cur() is LBRACKET ==> (e@ matches ExpV::Index(a2, _) && *a2 == exp@),
            !(token_is_binop(old(self).cur()) || old(self).cur() is LPAREN || old(self).cur()
                is LBRACKET) ==> e == Expression::Nothing,
            e@ == sp_infix(old(self).toks(), old(self).at(), exp@).0,
            final(self).at() == sp_infix(old(self).toks(), old(self).at(), exp@).1,
        decreases old(self).rem(), 2int,
    {
        proof {
            reveal_with_fuel(exp_view, 2);
            assert(tok_at(old(self).toks(), old(self).at()) == old(self).cur());
        }
        match self.cur_tok() {
            Token::LPAREN => {
                let args = self.parse_expression_list();
                Expression::FunctionCall(args, Box::new(exp))
            },
            Token::LBRACKET => {
                self.next();
                let ind = self.parse_expression(Precedences::Lowest);
                proof {
                    assert(clamp_at(old(self).toks(), self.at(), old(self).at() + 1)
                        == self.at());
                }
                self.next();
                Expression::Index(Box::new(exp), Box::new(ind))
            },
            Token::Plus => {
                self.next();
                Expression::Infix(
                    Infix::Plus,
                    Box::new(exp),
                    Box::new(self.parse_expression(Precedences::Sum)),
                )
            },
            Token::Minus => {
                self.next();
                Expression::Infix(
                    Infix::Minus,
                    Box::new(exp),
                    Box::new(self.parse_expression(Precedences::Sum)),
                )
            },
            Token::Star => {
                self.next();
                Expression::Infix(
                    Infix::Star,
                    Box::new(exp),
                    Box::new(self.parse_expression(Precedences::Product)),
                )
            },
            Token::Slash => {
                self.next();
                Expression::Infix(
                    Infix::Slash,
                    Box::new(exp),
                    Box::new(self.parse_expression(Precedences::Product)),
                )
            },
            Token::GT => {
                self.next();
                Expression::Infix(
                    Infix::GT,
                    Box::new(exp),
                    Box::new(self.parse_expression(Precedences::LessGreater)),
                )
            },
            Token::LT => {
                self.next();
                Expression::Infix(
                    Infix::LT,
                    Box::new(exp),
                    Box::new(self.parse_expression(Precedences::LessGreater)),
                )
            },
            Token::EQ => {
                self.next();
                Expression::Infix(
                    Infix::EQ,
                    Box::new(exp),
                    Box::new(self.parse_expression(Precedences::Equals)),
                )
            },
            Token::NotEQ => {
                self.next();
                Expression::Infix(
                    Infix::NotEQ,
                    Box::new(exp),
                    Box::new(self.parse_expression(Precedences::Equals)),
                )
            },
            _ => Expression::Nothing,
        }
    }

    /// Parse one prefix production, keyed on the current token: a
    /// conditional, a function literal, an array literal, or negation.
    /// Literal and identifier tokens are left to the caller's fallback;
    /// anything else degrades to the absence expression.  The result
    /// never has an infix root.
    #[verifier::spinoff_prover]
    #[verifier::rlimit(100)]
    fn parse_prefix(&mut self) -> (e: Expression)
        requires
            old(self).wf(),
        ensures
            final(self).wf(),
            final(self).toks() == old(self).toks(),
            old(self).at() <= final(self).at(),
            exp_prec_wf(e),
            !is_infix_exp(e),
            !(old(self).cur() is If || old(self).cur() is Func || old(self).cur() is LBRACKET
                || old(self).cur() is Minus) ==> e == Expression::Nothing && final(self).at()
                == old(self).at(),
            old(self).cur() is Minus ==> e@ matches ExpV::Prefix(Prefix::Minus, _),
            old(self).cur() is Func ==> e@ matches ExpV::Function(_, _),
            old(self).cur() is LBRACKET ==> e@ matches ExpV::Literal(LitV::Arr(_)),
            old(self).cur() is If ==> (e matches Expression::If(_, _, _) || e
                == Expression::Nothing),
            old(self).cur() is If && old(self).peek() != TokenS::LPAREN ==> e
                == Expression::Nothing,
            e@ == sp_prefix(old(self).toks(), old(self).at()).0,
            final(self).at() == sp_prefix(old(self).toks(), old(self).at()).1,
        decreases old(self).rem(), 0int,
    {
        proof {
            reveal_with_fuel(exp_prec_wf, 2);
            reveal_with_fuel(exp_view, 2);
        }
        let ghost t = self.toks();
        let ghost p = self.at();
        proof {
            assert(tok_at(t, p) == self.cur());
        }
        if matches!(self.cur_tok(), Token::If) {
            self.next();
            proof {
                assert(self.at() == p + 1);
                assert(tok_at(t, p + 1) == self.cur());
            }
            if !matches!(self.cur_tok(), Token::LPAREN) {
                proof {
                    assert((ExpV::Nothing, self.at()) == sp_prefix(t, p));
                }
                return Expression::Nothing;
            }
            self.next();
            let ghost p2 = self.at();
            proof {
                assert(p2 == nx(t, p + 1));
            }
            let cond = self.parse_expression(Precedences::Lowest);
            let ghost p3 = self.at();
            proof {
                assert(clamp_at(t, p3, p2) == p3);
                assert(tok_at(t, p3 + 1) == self.peek());
            }
            if !matches!(self.peek_tok(), Token::RPAREN) {
                proof {
                    assert((ExpV::Nothing, self.at()) == sp_prefix(t, p));
                }
                return Expression::Nothing;
            }
            self.next();
            self.next();
            let ghost p5 = self.at();
            proof {
                assert(p5 == nx(t, nx(t, p3)));
            }
            let if_block = self.parse_block();
            let ghost p6 = self.at();
            proof {
                assert(clamp_at(t, p6, p5) == p6);
                assert(tok_at(t, p6 + 1) == self.peek());
            }
            let else_block: Option<BlockStmt>;
            if matches!(self.peek_tok(), Token::Else) {
                self.next();
                self.next();
                proof {
                    assert(self.at() == nx(t, nx(t, p6)));
                }
                else_block = Option::Some(self.parse_block());
            } else {
                else_block = Option::None;
            }
            let r = Expression::If(Box::new(cond), if_block, else_block);
            proof {
                assert((r@, self.at()) == sp_prefix(t, p));
            }
            r
        } else if matches!(self.cur_tok(), Token::Func) {
            self.next();
            proof {
                assert(self.at() == p + 1);
            }
            let params = self.parse_function_params();
            proof {
                assert(clamp_at(t, self.at(), p + 1) == self.at());
            }
            self.next();
            let body = self.parse_block();
            let r = Expression::Function(params, body);
            proof {
                assert((r@, self.at()) == sp_prefix(t, p));
            }
            r
        } else if matches!(self.cur_tok(), Token::LBRACKET) {
            self.next();
            let ghost pstart = self.at();
            proof {
                assert(pstart == p + 1);
            }
            let mut exps: Vec<Expression> = Vec::new();
            proof {
                assert(crate::ast::exps_view(exps@) =~= Seq::<ExpV>::empty());
                assert(Seq::<ExpV>::empty() + sp_arr_items(t, pstart).0 =~= sp_arr_items(
                    t,
                    pstart,
                ).0);
            }
            loop
                invariant
                    self.wf(),
                    self.toks() == old(self).toks(),
                    t == old(self).toks(),
                    old(self).at() <= self.at(),
                    self.rem() < old(self).rem(),
                    forall|k: int|
                        0 <= k < exps@.len() ==> exp_prec_wf(#[trigger] exps@[k]),
                    sp_arr_items(t, pstart).0 == crate::ast::exps_view(exps@) + sp_arr_items(
                        t,
                        self.at(),
                    ).0,
                    sp_arr_items(t, pstart).1 == sp_arr_items(t, self.at()).1,
                ensures
                    self.wf(),
                    self.toks() == old(self).toks(),
                    old(self).at() <= self.at(),
                    forall|k: int|
                        0 <= k < exps@.len() ==> exp_prec_wf(#[trigger] exps@[k]),
                    crate::ast::exps_view(exps@) == sp_arr_items(t, pstart).0,
                    self.at() == sp_arr_items(t, pstart).1,
                decreases self.rem(),
            {
                if matches!(self.cur_tok(), Token::RBRACKET) || matches!(
                    self.cur_tok(),
                    Token::EOF,
                ) {
                    proof {
                        assert(tok_at(t, self.at()) == self.cur());
                        assert(sp_arr_items(t, self.at()) == (Seq::<ExpV>::empty(), self.at()));
                        assert(crate::ast::exps_view(exps@) + Seq::<ExpV>::empty()
                            =~= crate::ast::exps_view(exps@));
                    }
                    break ;
                }
                let ghost atk = self.at();
                proof {
                    assert(tok_at(t, atk) == self.cur());
                }
                let ghost pre = exps@;
                let elem = self.parse_expression(Precedences::Lowest);
                let ghost q = self.at();
                exps.push(elem);
                proof {
                    assert(forall|k: int|
                        0 <= k < exps@.len() - 1 ==> exps@[k] == #[trigger] pre[k]);
                    assert(exps@.drop_last() =~= pre);
                    assert(clamp_at(t, q, atk) == q);
                }
                self.next();
                let ghost q1 = self.at();
                proof {
                    assert(q1 == nx(t, q));
                    assert(tok_at(t, q1) == self.cur());
                }
                if matches!(self.cur_tok(), Token::Comma) {
                    self.next();
                }
                proof {
                    assert(clamp_at(t, self.at(), atk + 1) == self.at());
                    assert(sp_arr_items(t, atk).0 == seq![elem@] + sp_arr_items(
                        t,
                        self.at(),
                    ).0);
                    assert(sp_arr_items(t, atk).1 == sp_arr_items(t, self.at()).1);
                    assert(crate::ast::exps_view(exps@) =~= crate::ast::exps_view(pre).push(
                        elem@,
                    ));
                    assert(crate::ast::exps_view(pre) + (seq![elem@] + sp_arr_items(
                        t,
                        self.at(),
                    ).0) =~= crate::ast::exps_view(exps@) + sp_arr_items(t, self.at()).0);
                }
            }
            let r = Expression::Literal(Literals::Arr(exps));
            proof {
                assert((r@, self.at()) == sp_prefix(t, p));
            }
            r
        } else if matches!(self.cur_tok(), Token::Minus) {
            self.next();
            proof {
                assert(self.at() == p + 1);
            }
            let inner = self.parse_expression(Precedences::Prefix);
            let r = Expression::Prefix(Prefix::Minus, Box::new(inner));
            proof {
                assert((r@, self.at()) == sp_prefix(t, p));
            }
            r
        } else {
            Expression::Nothing
        }
    }

    /// Parse the parenthesized, comma-separated parameter names of a
    /// function literal, ending on the closing parenthesis.
    fn parse_function_params(&mut self) -> (ps: Vec<Ident>)
        requires
            old(self).wf(),
        ensures
            final(self).wf(),
            final(self).toks() == old(self).toks(),
            old(self).at() <= final(self).at(),
            old(self).cur() != TokenS::LPAREN ==> ps@.len() == 0 && final(self).at() == old(
                self,
            ).at(),
            idents_view(ps@) == sp_params(old(self).toks(), old(self).at()).0,
            final(self).at() == sp_params(old(self).toks(), old(self).at()).1,
        decreases old(self).rem(), 0int,
    {
        let ghost t = self.toks();
        let ghost p = self.at();
        let mut idents: Vec<Ident> = Vec::new();
        if !matches!(self.cur_tok(), Token::LPAREN) {
            proof {
                assert(tok_at(t, p) == old(self).cur());
                assert(idents_view(idents@) =~= Seq::<Seq<char>>::empty());
                assert(sp_params(t, p) == (Seq::<Seq<char>>::empty(), p));
            }
            return idents;
        }
        self.next();
        let ghost pstart = self.at();
        proof {
            assert(pstart == p + 1);
            assert(sp_params(t, p) == sp_params_items(t, pstart));
            assert(idents_view(idents@) =~= Seq::<Seq<char>>::empty());
            assert(Seq::<Seq<char>>::empty() + sp_params_items(t, pstart).0 =~= sp_params_items(
                t,
                pstart,
            ).0);
        }
        loop
            invariant
                self.wf(),
                self.toks() == old(self).toks(),
                t == old(self).toks(),
                old(self).at() <= self.at(),
                sp_params_items(t, pstart).0 == idents_view(idents@) + sp_params_items(
                    t,
                    self.at(),
                ).0,
                sp_params_items(t, pstart).1 == sp_params_items(t, self.at()).1,
            ensures
                self.wf(),
                self.toks() == old(self).toks(),
                old(self).at() <= self.at(),
                idents_view(idents@) == sp_params_items(t, pstart).0,
                self.at() == sp_params_items(t, pstart).1,
            decreases self.rem(),
        {
            if matches!(self.cur_tok(), Token::RPAREN) || matches!(self.cur_tok(), Token::EOF) {
                proof {
                    assert(tok_at(t, self.at()) == self.cur());
                    assert(sp_params_items(t, self.at()) == (
                        Seq::<Seq<char>>::empty(),
                        self.at(),
                    ));
                    assert(idents_view(idents@) + Seq::<Seq<char>>::empty() =~= idents_view(
                        idents@,
                    ));
                }
                break ;
            }
            let ghost atk = self.at();
            proof {
                assert(tok_at(t, atk) == self.cur());
            }
            match self.cur_tok() {
                Token::Ident(name) => {
                    let ghost pre = idents@;
                    idents.push(Ident { literal: name });
                    proof {
                        assert(idents@.drop_last() =~= pre);
                        assert(idents_view(idents@) =~= idents_view(pre).push(name@));
                    }
                    self.next();
                    proof {
                        assert(self.at() == atk + 1);
                        assert(tok_at(t, self.at()) == self.cur());
                    }
                    if matches!(self.cur_tok(), Token::Comma) {
                        self.next();
                    }
                    proof {
                        assert(sp_params_items(t, atk).0 == seq![name@] + sp_params_items(
                            t,
                            self.at(),
                        ).0);
                        assert(sp_params_items(t, atk).1 == sp_params_items(t, self.at()).1);
                        assert(idents_view(pre) + (seq![name@] + sp_params_items(
                            t,
                            self.at(),
                        ).0) =~= idents_view(idents@) + sp_params_items(t, self.at()).0);
                    }
                },
                _ => {
                    self.next();
                    proof {
                        assert(self.at() == atk + 1);
                        assert(sp_params_items(t, atk) == sp_params_items(t, self.at()));
                    }
                },
            }
        }
        idents
    }

    /// Parse the parenthesized, comma-separated argument expressions of a
    /// call, ending on the closing parenthesis.
    fn parse_expression_list(&mut self) -> (args: Vec<Expression>)
        requires
            old(self).wf(),
        ensures
            final(self).wf(),
            final(self).toks() == old(self).toks(),
            old(self).at() <= final(self).at(),
            forall|k: int| 0 <= k < args@.len() ==> exp_prec_wf(#[trigger] args@[k]),
            old(self).cur() != TokenS::LPAREN ==> args@.len() == 0 && final(self).at() == old(
                self,
            ).at(),
            old(self).cur() == TokenS::LPAREN && old(self).peek() == TokenS::RPAREN
                ==> args@.len() == 0,
            crate::ast::exps_view(args@) == sp_args(old(self).toks(), old(self).at()).0,
            final(self).at() == sp_args(old(self).toks(), old(self).at()).1,
        decreases old(self).rem(), 0int,
    {
        let ghost t = self.toks();
        let ghost p = self.at();
        let mut args: Vec<Expression> = Vec::new();
        if !matches!(self.cur_tok(), Token::LPAREN) {
            proof {
                assert(tok_at(t, p) == old(self).cur());
                assert(crate::ast::exps_view(args@) =~= Seq::<ExpV>::empty());
                assert(sp_args(t, p) == (Seq::<ExpV>::empty(), p));
            }
            return args;
        }
        self.next();
        let ghost pstart = self.at();
        proof {
            assert(pstart == p + 1);
            assert(tok_at(t, pstart) == self.cur());
        }
        if matches!(self.cur_tok(), Token::RPAREN) {
            proof {
                assert(crate::ast::exps_view(args@) =~= Seq::<ExpV>::empty());
                assert(sp_args(t, p) == (Seq::<ExpV>::empty(), pstart));
            }
            return args;
        }
        proof {
            assert(sp_args(t, p) == sp_args_items(t, pstart));
            assert(crate::ast::exps_view(args@) =~= Seq::<ExpV>::empty());
            assert(Seq::<ExpV>::empty() + sp_args_items(t, pstart).0 =~= sp_args_items(
                t,
                pstart,
            ).0);
        }
        loop
            invariant_except_break
                sp_args_items(t, pstart).0 == crate::ast::exps_view(args@) + sp_args_items(
                    t,
                    self.at(),
                ).0,
                sp_args_items(t, pstart).1 == sp_args_items(t, self.at()).1,
            invariant
                self.wf(),
                self.toks() == old(self).toks(),
                t == old(self).toks(),
                old(self).at() <= self.at(),
                self.rem() < old(self).rem(),
                forall|k: int| 0 <= k < args@.len() ==> exp_prec_wf(#[trigger] args@[k]),
            ensures
                self.wf(),
                self.toks() == old(self).toks(),
                old(self).at() <= self.at(),
                forall|k: int| 0 <= k < args@.len() ==> exp_prec_wf(#[trigger] args@[k]),
                crate::ast::exps_view(args@) == sp_args_items(t, pstart).0,
                sp_args_items(t, pstart).1 == nx(t, self.at()),
            decreases self.rem(),
        {
            let ghost atk = self.at();
            let ghost pre = args@;
            let elem = self.parse_expression(Precedences::Lowest);
            let ghost q = self.at();
            args.push(elem);
            proof {
                assert(forall|k: int| 0 <= k < args@.len() - 1 ==> args@[k] == #[trigger] pre[k]);
                assert(args@.drop_last() =~= pre);
                assert(clamp_at(t, q, atk) == q);
                assert(tok_at(t, q + 1) == self.peek());
                assert(crate::ast::exps_view(args@) =~= crate::ast::exps_view(pre).push(elem@));
            }
            if matches!(self.peek_tok(), Token::Comma) {
                self.next();
                self.next();
                proof {
                    assert(clamp_at(t, nx(t, nx(t, q)), atk + 1) == self.at());
                    assert(sp_args_items(t, atk).0 == seq![elem@] + sp_args_items(
                        t,
                        self.at(),
                    ).0);
                    assert(sp_args_items(t, atk).1 == sp_args_items(t, self.at()).1);
                    assert(crate::ast::exps_view(pre) + (seq![elem@] + sp_args_items(
                        t,
                        self.at(),
                    ).0) =~= crate::ast::exps_view(args@) + sp_args_items(t, self.at()).0);
                }
            } else {
                proof {
                    assert(sp_args_items(t, atk) == (seq![elem@], nx(t, q)));
                    assert(crate::ast::exps_view(pre) + seq![elem@] =~= crate::ast::exps_view(
                        args@,
                    ));
                }
                break ;
            }
        }
        self.next();
        args
    }
}

} // verus!
