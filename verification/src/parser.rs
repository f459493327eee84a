//! The grammar parser: a symbol stream to an expression tree. Precedence,
//! low to high: additive (left associative, subtraction rewritten as adding
//! a negated multiple), multiplicative (left associative), power (left
//! associative), unary minus, atom. A factor immediately followed by a
//! variable or an opening parenthesis is an implicit multiplication. An
//! equals sign splits the statement into two sides, the right side
//! defaulting to zero when absent. An unparsable atom becomes an error
//! leaf.

use vstd::prelude::*;
use crate::ast::{
    expr_wf, mk_add, mk_div, mk_err, mk_mul, mk_num, mk_pow, mk_var, Expression, SExpr,
};
use crate::fraction::{frac_wf, Fraction};
use crate::lexer::{spec_tokenize, tok_views, Lexer, SToken, Token};

verus! {

/// The symbol at a position, the end marker beyond the stream.
pub open spec fn tok_at(toks: Seq<SToken>, pos: nat) -> SToken {
    if pos < toks.len() {
        toks[pos as int]
    } else {
        SToken::EOF
    }
}

/// Move past one symbol, staying within the stream.
pub open spec fn consume_at(toks: Seq<SToken>, pos: nat) -> nat {
    if pos < toks.len() {
        pos + 1
    } else {
        pos
    }
}

/// Every number symbol carries a well-formed fraction.
pub open spec fn toks_wf(toks: Seq<SToken>) -> bool {
    forall|i: int|
        0 <= i < toks.len() ==> match #[trigger] toks[i] {
            SToken::Number(f) => frac_wf(f),
            _ => true,
        }
}

/// Parse an atom: a number, a variable, a parenthesized expression or a
/// unary minus; then fold an implicit multiplication when a variable or
/// an opening parenthesis follows at once.
pub open spec fn sp_factor(toks: Seq<SToken>, pos: nat, fuel: nat) -> (SExpr, nat)
    decreases fuel, 2nat,
{
    let t = tok_at(toks, pos);
    match t {
        SToken::Number(n) => sp_implicit(toks, SExpr::Number(n), pos + 1, fuel),
        SToken::Variable(v) => sp_implicit(toks, SExpr::Variable(v), pos + 1, fuel),
        SToken::OpenParen => {
            if fuel == 0 {
                (SExpr::Error("syntax error"@), pos)
            } else {
                let (inner, p3) = sp_expression(toks, pos + 1, (fuel - 1) as nat);
                sp_implicit(toks, inner, consume_at(toks, p3), fuel)
            }
        },
        SToken::Minus => {
            if fuel == 0 {
                (SExpr::Error("syntax error"@), pos)
            } else {
                let (inner, p3) = sp_factor(toks, pos + 1, (fuel - 1) as nat);
                (
                    SExpr::Multiply(
                        Box::new(SExpr::Number(Fraction { num: -1i64, den: 1 })),
                        Box::new(inner),
                    ),
                    p3,
                )
            }
        },
        _ => (SExpr::Error("syntax error"@), pos),
    }
}

/// Fold an implicit multiplication after a parsed atom.
pub open spec fn sp_implicit(toks: Seq<SToken>, atom: SExpr, pos: nat, fuel: nat) -> (SExpr, nat)
    decreases fuel, 1nat,
{
    let t = tok_at(toks, pos);
    if (t is Variable || t is OpenParen) && fuel > 0 {
        let (rhs, p2) = sp_factor(toks, pos, (fuel - 1) as nat);
        (SExpr::Multiply(Box::new(atom), Box::new(rhs)), p2)
    } else {
        (atom, pos)
    }
}

/// Parse a power chain, left associative.
pub open spec fn sp_power(toks: Seq<SToken>, pos: nat, fuel: nat) -> (SExpr, nat)
    decreases fuel, 4nat,
{
    let (left, p) = sp_factor(toks, pos, fuel);
    sp_power_rest(toks, left, p, fuel)
}

/// Continue a power chain while a caret follows.
pub open spec fn sp_power_rest(toks: Seq<SToken>, left: SExpr, pos: nat, fuel: nat) -> (
    SExpr,
    nat,
)
    decreases fuel, 3nat,
{
    if tok_at(toks, pos) is Power && fuel > 0 {
        let (rhs, p2) = sp_factor(toks, pos + 1, (fuel - 1) as nat);
        sp_power_rest(
            toks,
            SExpr::Power(Box::new(left), Box::new(rhs)),
            p2,
            (fuel - 1) as nat,
        )
    } else {
        (left, pos)
    }
}

/// Parse a multiplicative chain, left associative.
pub open spec fn sp_term(toks: Seq<SToken>, pos: nat, fuel: nat) -> (SExpr, nat)
    decreases fuel, 6nat,
{
    let (left, p) = sp_power(toks, pos, fuel);
    sp_term_rest(toks, left, p, fuel)
}

/// Continue a multiplicative chain while a star or slash follows.
pub open spec fn sp_term_rest(toks: Seq<SToken>, left: SExpr, pos: nat, fuel: nat) -> (SExpr, nat)
    decreases fuel, 5nat,
{
    let t = tok_at(toks, pos);
    if (t is Multiply || t is Divide) && fuel > 0 {
        let (rhs, p2) = sp_power(toks, pos + 1, (fuel - 1) as nat);
        let joined = if t is Multiply {
            SExpr::Multiply(Box::new(left), Box::new(rhs))
        } else {
            SExpr::Divide(Box::new(left), Box::new(rhs))
        };
        sp_term_rest(toks, joined, p2, (fuel - 1) as nat)
    } else {
        (left, pos)
    }
}

/// Parse an additive chain, left associative; a minus adds the negated
/// multiple of the right operand.
pub open spec fn sp_expression(toks: Seq<SToken>, pos: nat, fuel: nat) -> (SExpr, nat)
    decreases fuel, 8nat,
{
    let (left, p) = sp_term(toks, pos, fuel);
    sp_expr_rest(toks, left, p, fuel)
}

/// Continue an additive chain while a plus or minus follows.
pub open spec fn sp_expr_rest(toks: Seq<SToken>, left: SExpr, pos: nat, fuel: nat) -> (SExpr, nat)
    decreases fuel, 7nat,
{
    let t = tok_at(toks, pos);
    if (t is Plus || t is Minus) && fuel > 0 {
        let (rhs, p2) = sp_term(toks, pos + 1, (fuel - 1) as nat);
        let joined = if t is Plus {
            SExpr::Add(Box::new(left), Box::new(rhs))
        } else {
            SExpr::Add(
                Box::new(left),
                Box::new(
                    SExpr::Multiply(
                        Box::new(SExpr::Number(Fraction { num: -1i64, den: 1 })),
                        Box::new(rhs),
                    ),
                ),
            )
        };
        sp_expr_rest(toks, joined, p2, (fuel - 1) as nat)
    } else {
        (left, pos)
    }
}

/// The whole expression at `pos`, with a fresh fuel budget.
pub open spec fn spec_parse_expression(toks: Seq<SToken>, pos: nat) -> (SExpr, nat) {
    sp_expression(toks, pos, (toks.len() - pos + 1) as nat)
}

/// The whole statement: one expression, and a second after an equals
/// sign, or zero in its place.
pub open spec fn spec_parse_statement(toks: Seq<SToken>, pos: nat) -> (SExpr, SExpr, nat) {
    let (left, p) = spec_parse_expression(toks, pos);
    if tok_at(toks, p) is Equal {
        let (right, p2) = spec_parse_expression(toks, consume_at(toks, p));
        (left, right, p2)
    } else {
        (left, SExpr::Number(Fraction { num: 0, den: 1 }), p)
    }
}

/// Parse an atom with its implicit multiplication.
fn p_factor(toks: &Vec<Token>, pos: usize, fuel: Ghost<nat>) -> (r: (Expression, usize))
    requires
        pos <= toks@.len(),
        fuel@ + pos >= toks@.len() + 1,
        toks_wf(tok_views(toks@)),
    ensures
        r.0@ == sp_factor(tok_views(toks@), pos as nat, fuel@).0,
        r.1 as nat == sp_factor(tok_views(toks@), pos as nat, fuel@).1,
        pos <= r.1 <= toks@.len(),
        expr_wf(r.0@),
    decreases fuel@, 2nat,
{
    let ghost tv = tok_views(toks@);
    proof {
        crate::fraction::lemma_wf_unit_den(-1);
    }
    if pos >= toks.len() {
        proof {
            assert(tok_at(tv, pos as nat) is EOF);
        }
        return (mk_err("syntax error".to_owned()), pos);
    }
    proof {
        assert(tok_at(tv, pos as nat) == toks@[pos as int]@);
    }
    match &toks[pos] {
        Token::Number(n) => {
            proof {
                assert(tok_at(tv, pos as nat) == SToken::Number(*n));
            }
            p_implicit(toks, mk_num(*n), pos + 1, fuel)
        },
        Token::Variable(v) => {
            proof {
                assert(tok_at(tv, pos as nat) == SToken::Variable(v@));
            }
            p_implicit(toks, mk_var(v.clone()), pos + 1, fuel)
        },
        Token::OpenParen => {
            proof {
                assert(tok_at(tv, pos as nat) is OpenParen);
            }
            let (inner, p3) = p_expression(toks, pos + 1, Ghost((fuel@ - 1) as nat));
            let p4 = if p3 < toks.len() {
                p3 + 1
            } else {
                p3
            };
            p_implicit(toks, inner, p4, fuel)
        },
        Token::Minus => {
            proof {
                assert(tok_at(tv, pos as nat) is Minus);
            }
            let (inner, p3) = p_factor(toks, pos + 1, Ghost((fuel@ - 1) as nat));
            (mk_mul(mk_num(Fraction { num: -1, den: 1 }), inner), p3)
        },
        _ => (mk_err("syntax error".to_owned()), pos),
    }
}

/// Fold an implicit multiplication after a parsed atom.
fn p_implicit(toks: &Vec<Token>, atom: Expression, pos: usize, fuel: Ghost<nat>) -> (r: (
    Expression,
    usize,
))
    requires
        pos <= toks@.len(),
        fuel@ + pos >= toks@.len() + 2,
        toks_wf(tok_views(toks@)),
        expr_wf(atom@),
    ensures
        r.0@ == sp_implicit(tok_views(toks@), atom@, pos as nat, fuel@).0,
        r.1 as nat == sp_implicit(tok_views(toks@), atom@, pos as nat, fuel@).1,
        pos <= r.1 <= toks@.len(),
        expr_wf(r.0@),
    decreases fuel@, 1nat,
{
    let ghost tv = tok_views(toks@);
    if pos < toks.len() {
        proof {
            assert(tok_at(tv, pos as nat) == toks@[pos as int]@);
        }
        let follows = match &toks[pos] {
            Token::Variable(_) => true,
            Token::OpenParen => true,
            _ => false,
        };
        if follows {
            let (rhs, p2) = p_factor(toks, pos, Ghost((fuel@ - 1) as nat));
            return (mk_mul(atom, rhs), p2);
        }
    } else {
        proof {
            assert(tok_at(tv, pos as nat) is EOF);
        }
    }
    (atom, pos)
}

/// Parse a power chain.
fn p_power(toks: &Vec<Token>, pos: usize, fuel: Ghost<nat>) -> (r: (Expression, usize))
    requires
        pos <= toks@.len(),
        fuel@ + pos >= toks@.len() + 1,
        toks_wf(tok_views(toks@)),
    ensures
        r.0@ == sp_power(tok_views(toks@), pos as nat, fuel@).0,
        r.1 as nat == sp_power(tok_views(toks@), pos as nat, fuel@).1,
        pos <= r.1 <= toks@.len(),
        expr_wf(r.0@),
    decreases fuel@, 4nat,
{
    let (left, p) = p_factor(toks, pos, fuel);
    p_power_rest(toks, left, p, fuel)
}

/// Continue a power chain while a caret follows.
fn p_power_rest(toks: &Vec<Token>, left: Expression, pos: usize, fuel: Ghost<nat>) -> (r: (
    Expression,
    usize,
))
    requires
        pos <= toks@.len(),
        fuel@ + pos >= toks@.len() + 1,
        toks_wf(tok_views(toks@)),
        expr_wf(left@),
    ensures
        r.0@ == sp_power_rest(tok_views(toks@), left@, pos as nat, fuel@).0,
        r.1 as nat == sp_power_rest(tok_views(toks@), left@, pos as nat, fuel@).1,
        pos <= r.1 <= toks@.len(),
        expr_wf(r.0@),
    decreases fuel@, 3nat,
{
    let ghost tv = tok_views(toks@);
    if pos < toks.len() {
        proof {
            assert(tok_at(tv, pos as nat) == toks@[pos as int]@);
        }
        let caret = match &toks[pos] {
            Token::Power => true,
            _ => false,
        };
        if caret {
            let (rhs, p2) = p_factor(toks, pos + 1, Ghost((fuel@ - 1) as nat));
            return p_power_rest(toks, mk_pow(left, rhs), p2, Ghost((fuel@ - 1) as nat));
        }
    } else {
        proof {
            assert(tok_at(tv, pos as nat) is EOF);
        }
    }
    (left, pos)
}

/// Parse a multiplicative chain.
fn p_term(toks: &Vec<Token>, pos: usize, fuel: Ghost<nat>) -> (r: (Expression, usize))
    requires
        pos <= toks@.len(),
        fuel@ + pos >= toks@.len() + 1,
        toks_wf(tok_views(toks@)),
    ensures
        r.0@ == sp_term(tok_views(toks@), pos as nat, fuel@).0,
        r.1 as nat == sp_term(tok_views(toks@), pos as nat, fuel@).1,
        pos <= r.1 <= toks@.len(),
        expr_wf(r.0@),
    decreases fuel@, 6nat,
{
    let (left, p) = p_power(toks, pos, fuel);
    p_term_rest(toks, left, p, fuel)
}

/// Continue a multiplicative chain while a star or slash follows.
fn p_term_rest(toks: &Vec<Token>, left: Expression, pos: usize, fuel: Ghost<nat>) -> (r: (
    Expression,
    usize,
))
    requires
        pos <= toks@.len(),
        fuel@ + pos >= toks@.len() + 1,
        toks_wf(tok_views(toks@)),
        expr_wf(left@),
    ensures
        r.0@ == sp_term_rest(tok_views(toks@), left@, pos as nat, fuel@).0,
        r.1 as nat == sp_term_rest(tok_views(toks@), left@, pos as nat, fuel@).1,
        pos <= r.1 <= toks@.len(),
        expr_wf(r.0@),
    decreases fuel@, 5nat,
{
    let ghost tv = tok_views(toks@);
    if pos < toks.len() {
        proof {
            assert(tok_at(tv, pos as nat) == toks@[pos as int]@);
        }
        let star = match &toks[pos] {
            Token::Multiply => true,
            _ => false,
        };
        let slash = match &toks[pos] {
            Token::Divide => true,
            _ => false,
        };
        if star || slash {
            let (rhs, p2) = p_power(toks, pos + 1, Ghost((fuel@ - 1) as nat));
            let joined = if star {
                mk_mul(left, rhs)
            } else {
                mk_div(left, rhs)
            };
            return p_term_rest(toks, joined, p2, Ghost((fuel@ - 1) as nat));
        }
    } else {
        proof {
            assert(tok_at(tv, pos as nat) is EOF);
        }
    }
    (left, pos)
}

/// Parse an additive chain.
fn p_expression(toks: &Vec<Token>, pos: usize, fuel: Ghost<nat>) -> (r: (Expression, usize))
    requires
        pos <= toks@.len(),
        fuel@ + pos >= toks@.len() + 1,
        toks_wf(tok_views(toks@)),
    ensures
        r.0@ == sp_expression(tok_views(toks@), pos as nat, fuel@).0,
        r.1 as nat == sp_expression(tok_views(toks@), pos as nat, fuel@).1,
        pos <= r.1 <= toks@.len(),
        expr_wf(r.0@),
    decreases fuel@, 8nat,
{
    let (left, p) = p_term(toks, pos, fuel);
    p_expr_rest(toks, left, p, fuel)
}

/// Continue an additive chain while a plus or minus follows.
fn p_expr_rest(toks: &Vec<Token>, left: Expression, pos: usize, fuel: Ghost<nat>) -> (r: (
    Expression,
    usize,
))
    requires
        pos <= toks@.len(),
        fuel@ + pos >= toks@.len() + 1,
        toks_wf(tok_views(toks@)),
        expr_wf(left@),
    ensures
        r.0@ == sp_expr_rest(tok_views(toks@), left@, pos as nat, fuel@).0,
        r.1 as nat == sp_expr_rest(tok_views(toks@), left@, pos as nat, fuel@).1,
        pos <= r.1 <= toks@.len(),
        expr_wf(r.0@),
    decreases fuel@, 7nat,
{
    let ghost tv = tok_views(toks@);
    proof {
        crate::fraction::lemma_wf_unit_den(-1);
    }
    if pos < toks.len() {
        proof {
            assert(tok_at(tv, pos as nat) == toks@[pos as int]@);
        }
        let plus = match &toks[pos] {
            Token::Plus => true,
            _ => false,
        };
        let minus = match &toks[pos] {
            Token::Minus => true,
            _ => false,
        };
        if plus || minus {
            let (rhs, p2) = p_term(toks, pos + 1, Ghost((fuel@ - 1) as nat));
            let joined = if plus {
                mk_add(left, rhs)
            } else {
                mk_add(left, mk_mul(mk_num(Fraction { num: -1, den: 1 }), rhs))
            };
            return p_expr_rest(toks, joined, p2, Ghost((fuel@ - 1) as nat));
        }
    } else {
        proof {
            assert(tok_at(tv, pos as nat) is EOF);
        }
    }
    (left, pos)
}

/// The grammar parser's cursor over a symbol stream.
pub struct Parser {
    tokens: Vec<Token>,
    pos: usize,
}

impl View for Parser {
    type V = (Seq<SToken>, nat);

    closed spec fn view(&self) -> (Seq<SToken>, nat) {
        (tok_views(self.tokens@), self.pos as nat)
    }
}

/// A valid parser state: the cursor inside the stream, every number
/// symbol well-formed.
pub closed spec fn parser_wf(p: Parser) -> bool {
    &&& p.pos <= p.tokens@.len()
    &&& toks_wf(tok_views(p.tokens@))
}

impl Parser {
    /// A parser over every symbol the lexer yields.
    pub fn new(lexer: Lexer) -> (r: Parser)
        requires
            lexer.pos <= lexer.input@.len(),
        ensures
            parser_wf(r),
            r@.0 == spec_tokenize(lexer.input@, lexer.pos as nat),
            r@.1 == 0,
    {
        let mut lx = lexer;
        let toks = lx.tokenize();
        proof {
            lemma_tokenize_wf(lexer.input@, lexer.pos as nat);
        }
        Parser { tokens: toks, pos: 0 }
    }

    /// Parse one expression at the cursor.
    pub fn parse_expression(&mut self) -> (r: Box<Expression>)
        requires
            parser_wf(*old(self)),
        ensures
            parser_wf(*final (self)),
            final (self)@.0 == old(self)@.0,
            r@ == spec_parse_expression(old(self)@.0, old(self)@.1).0,
            final (self)@.1 == spec_parse_expression(old(self)@.0, old(self)@.1).1,
            expr_wf(r@),
    {
        let ghost fuel = (self.tokens@.len() - self.pos + 1) as nat;
        let (e, p) = p_expression(&self.tokens, self.pos, Ghost(fuel));
        self.pos = p;
        Box::new(e)
    }

    /// Parse one statement: an expression, and a second after an equals
    /// sign, or zero in its place.
    pub fn parse_statement(&mut self) -> (r: (Box<Expression>, Box<Expression>))
        requires
            parser_wf(*old(self)),
        ensures
            parser_wf(*final (self)),
            final (self)@.0 == old(self)@.0,
            r.0@ == spec_parse_statement(old(self)@.0, old(self)@.1).0,
            r.1@ == spec_parse_statement(old(self)@.0, old(self)@.1).1,
            expr_wf(r.0@),
            expr_wf(r.1@),
    {
        proof {
            crate::fraction::lemma_wf_unit_den(0);
        }
        let left = self.parse_expression();
        let ghost tv = tok_views(self.tokens@);
        let mut has_eq = false;
        if self.pos < self.tokens.len() {
            proof {
                assert(tok_at(tv, self.pos as nat) == self.tokens@[self.pos as int]@);
            }
            has_eq = match &self.tokens[self.pos] {
                Token::Equal => true,
                _ => false,
            };
        } else {
            proof {
                assert(tok_at(tv, self.pos as nat) is EOF);
            }
        }
        if has_eq {
            self.pos = self.pos + 1;
            let right = self.parse_expression();
            (left, right)
        } else {
            (left, Box::new(mk_num(Fraction { num: 0, den: 1 })))
        }
    }
}

/// The lexer's token stream carries only well-formed fractions.
proof fn lemma_tokenize_wf(input: Seq<char>, pos: nat)
    requires
        pos <= input.len(),
    ensures
        toks_wf(spec_tokenize(input, pos)),
    decreases input.len() - pos,
{
    crate::lexer::lemma_next_token_advances(input, pos);
    let (t, np) = crate::lexer::spec_next_token(input, pos);
    assert(match t {
        SToken::Number(f) => frac_wf(f),
        _ => true,
    }) by {
        crate::fraction::lemma_wf_unit_den(0);
        if t is Number {
            let p = crate::lexer::skip_ws(input, pos);
            let end = crate::lexer::scan_num_end(input, p);
            let st = crate::lexer::num_run(
                crate::lexer::num_init(),
                input.subrange(p as int, end as int),
            );
            if st.ok {
                crate::fraction::lemma_reduce_wf(st.val, crate::lexer::pow10(st.fdigits));
            }
        }
    }
    if !(t is EOF) {
        lemma_tokenize_wf(input, np);
        assert forall|i: int|
            0 <= i < spec_tokenize(input, pos).len() implies match #[trigger] spec_tokenize(
            input,
            pos,
        )[i] {
            SToken::Number(f) => frac_wf(f),
            _ => true,
        } by {
            if i > 0 {
                assert(spec_tokenize(input, pos)[i] == spec_tokenize(input, np)[i - 1]);
            }
        }
    }
}

} // verus!
