//! An exact-arithmetic algebra engine: reduced fractions, expression trees,
//! distributive expansion, fixed-point simplification, and single-variable
//! equation solving, with a text front end (tokenizer, parser, renderer).
//!
//! The top-level entry points take a textual arithmetic or algebraic
//! statement and return text: the canonical simplified form of an
//! expression, or, for an equation in one unknown, an explicit solution.

pub mod ast;
pub mod expand;
pub mod fraction;
pub mod lexer;
pub mod num;
pub mod parser;
pub mod render;
pub mod simplify;
pub mod solve;

use vstd::prelude::*;
use crate::ast::{mk_add, mk_mul, mk_num, svars, SExpr};
use crate::expand::spec_expand;
use crate::fraction::Fraction;
use crate::lexer::{is_space_char, spec_count, spec_tokenize, Lexer, SToken, Token};
use crate::parser::{spec_parse_expression, spec_parse_statement, Parser};
use crate::render::spec_viz;
use crate::simplify::spec_simplify;
use crate::solve::spec_solve;

verus! {

/// The input holds nothing but whitespace.
pub open spec fn all_space(s: Seq<char>) -> bool {
    forall|i: int| 0 <= i < s.len() ==> is_space_char(#[trigger] s[i])
}

/// The symbol stream holds an equals sign.
pub open spec fn stream_has_equal(toks: Seq<SToken>) -> bool {
    exists|i: int| 0 <= i < toks.len() && (#[trigger] toks[i]) is Equal
}

/// The variable an equation is solved for: the lexically first name in
/// the combined expression, or `x` when none appears.
pub open spec fn spec_pick_var(l: SExpr, r: SExpr) -> Seq<char> {
    let vars = svars(SExpr::Add(Box::new(l), Box::new(r)));
    if vars.len() > 0 {
        vars[0]
    } else {
        "x"@
    }
}

/// The answer text for an input: `0` for blank input; for an equation,
/// both sides expanded and simplified, the right side subtracted from the
/// left, the picked variable isolated against zero and the solution (or
/// the error) rendered; for a bare expression, its expanded and
/// simplified form rendered.
pub open spec fn spec_solve_text(input: Seq<char>) -> Seq<char> {
    if all_space(input) {
        "0"@
    } else {
        let toks = spec_tokenize(input, 0);
        let st = spec_parse_statement(toks, 0);
        if stream_has_equal(toks) {
            let var = spec_pick_var(st.0, st.1);
            let ls = spec_simplify(spec_expand(st.0));
            let rs = spec_simplify(spec_expand(st.1));
            let lhs = SExpr::Add(
                Box::new(ls),
                Box::new(
                    SExpr::Multiply(
                        Box::new(SExpr::Number(Fraction { num: -1i64, den: 1 })),
                        Box::new(rs),
                    ),
                ),
            );
            let sol = spec_solve(lhs, SExpr::Number(Fraction { num: 0, den: 1 }), var);
            if sol is Error {
                spec_viz(sol)
            } else {
                var + " = "@ + spec_viz(sol)
            }
        } else {
            spec_viz(spec_simplify(spec_expand(st.0)))
        }
    }
}

/// The two sides of the parsed statement, rendered: empty for blank input.
pub open spec fn spec_visualize_text(input: Seq<char>) -> Seq<char> {
    if all_space(input) {
        Seq::empty()
    } else {
        let st = spec_parse_statement(spec_tokenize(input, 0), 0);
        "L: "@ + spec_viz(st.0) + " | R: "@ + spec_viz(st.1)
    }
}

/// The parsed single expression, rendered: empty for blank input.
pub open spec fn spec_ast_visual(input: Seq<char>) -> Seq<char> {
    if all_space(input) {
        Seq::empty()
    } else {
        spec_viz(spec_parse_expression(spec_tokenize(input, 0), 0).0)
    }
}

/// Whether the input is nothing but whitespace.
fn input_all_space(input: &str) -> (r: bool)
    ensures
        r == all_space(input@),
{
    let n = input.unicode_len();
    let mut i: usize = 0;
    while i < n
        invariant
            i <= n,
            n == input@.len(),
            forall|j: int| 0 <= j < i ==> is_space_char(#[trigger] input@[j]),
        decreases n - i,
    {
        let c = input.get_char(i);
        let space = c == ' ' || c == '\t' || c == '\n' || c == '\r';
        if !space {
            return false;
        }
        i = i + 1;
    }
    true
}

/// Whether the symbol stream holds an equals sign.
fn tokens_have_equal(toks: &Vec<Token>) -> (r: bool)
    ensures
        r == stream_has_equal(crate::lexer::tok_views(toks@)),
{
    let ghost tv = crate::lexer::tok_views(toks@);
    let mut i: usize = 0;
    while i < toks.len()
        invariant
            i <= toks@.len(),
            tv == crate::lexer::tok_views(toks@),
            forall|j: int| 0 <= j < i ==> !((#[trigger] tv[j]) is Equal),
        decreases toks@.len() - i,
    {
        proof {
            assert(tv[i as int] == toks@[i as int]@);
        }
        let found = match &toks[i] {
            Token::Equal => true,
            _ => false,
        };
        if found {
            return true;
        }
        i = i + 1;
    }
    false
}

/// The number of symbols before the end of the input.
pub fn count_tokens(input: &str) -> (r: usize)
    ensures
        r as nat == spec_count(input@, 0),
{
    let mut lexer = Lexer::new(input);
    let ghost chars = lexer.input@;
    let mut count: usize = 0;
    loop
        invariant
            chars == input@,
            lexer.input@ == chars,
            lexer.pos <= chars.len(),
            count <= lexer.pos,
            count + spec_count(chars, lexer.pos as nat) == spec_count(chars, 0),
        decreases chars.len() - lexer.pos,
    {
        let ghost pos_pre = lexer.pos as nat;
        let t = lexer.next_token();
        proof {
            crate::lexer::lemma_next_token_advances(chars, pos_pre);
        }
        if crate::lexer::is_eof(&t) {
            proof {
                assert(spec_count(chars, pos_pre) == 0);
            }
            return count;
        }
        proof {
            assert(spec_count(chars, pos_pre) == 1 + spec_count(chars, lexer.pos as nat));
        }
        count = count + 1;
    }
}

/// The text of one symbol.
pub open spec fn spec_token_text(t: SToken) -> Seq<char> {
    match t {
        SToken::Number(f) => "Number("@ + crate::render::frac_text(f) + ")"@,
        SToken::Variable(v) => "Variable("@ + v + ")"@,
        SToken::Plus => "Plus"@,
        SToken::Minus => "Minus"@,
        SToken::Multiply => "Multiply"@,
        SToken::Divide => "Divide"@,
        SToken::Power => "Power"@,
        SToken::Equal => "Equal"@,
        SToken::OpenParen => "OpenParen"@,
        SToken::CloseParen => "CloseParen"@,
        SToken::EOF => "EOF"@,
    }
}

/// The symbols before the end marker, one per word, separated by spaces.
pub open spec fn spec_tokens_text(toks: Seq<SToken>) -> Seq<char>
    decreases toks.len(),
{
    if toks.len() == 0 || toks[0] is EOF {
        Seq::empty()
    } else if toks.len() == 1 || toks[1] is EOF {
        spec_token_text(toks[0])
    } else {
        spec_token_text(toks[0]) + " "@ + spec_tokens_text(toks.skip(1))
    }
}

/// The symbols of the input, named one by one: empty for blank input.
pub open spec fn spec_tokens_debug(input: Seq<char>) -> Seq<char> {
    spec_tokens_text(spec_tokenize(input, 0))
}

/// The text of one symbol.
fn token_text(t: &Token) -> (r: String)
    ensures
        r@ == spec_token_text(t@),
{
    match t {
        Token::Number(f) => {
            let mut s = String::new();
            s.append("Number(");
            let fs = crate::render::frac_string(*f);
            s.append(fs.as_str());
            s.append(")");
            s
        },
        Token::Variable(v) => {
            let mut s = String::new();
            s.append("Variable(");
            s.append(v.as_str());
            s.append(")");
            s
        },
        Token::Plus => "Plus".to_owned(),
        Token::Minus => "Minus".to_owned(),
        Token::Multiply => "Multiply".to_owned(),
        Token::Divide => "Divide".to_owned(),
        Token::Power => "Power".to_owned(),
        Token::Equal => "Equal".to_owned(),
        Token::OpenParen => "OpenParen".to_owned(),
        Token::CloseParen => "CloseParen".to_owned(),
        Token::EOF => "EOF".to_owned(),
    }
}

fn tokens_text_from(toks: &Vec<Token>, i: usize) -> (r: String)
    requires
        i <= toks@.len(),
    ensures
        r@ == spec_tokens_text(crate::lexer::tok_views(toks@).skip(i as int)),
    decreases toks@.len() - i,
{
    let ghost tv = crate::lexer::tok_views(toks@);
    let ghost rem = tv.skip(i as int);
    if i >= toks.len() {
        proof {
            assert(rem.len() == 0);
        }
        return String::new();
    }
    proof {
        assert(rem[0] == toks@[i as int]@);
        assert(rem.skip(1) =~= tv.skip(i + 1));
    }
    if crate::lexer::is_eof(&toks[i]) {
        return String::new();
    }
    let mut s = token_text(&toks[i]);
    let last = i + 1 >= toks.len() || crate::lexer::is_eof(&toks[i + 1]);
    proof {
        if i + 1 < toks@.len() {
            assert(rem[1] == toks@[i + 1 as int]@);
        }
    }
    if last {
        return s;
    }
    s.append(" ");
    let rest = tokens_text_from(toks, i + 1);
    s.append(rest.as_str());
    s
}

/// Name the input's symbols one by one, separated by spaces: empty for
/// blank or unrecognizable input.
pub fn get_tokens_debug(input: &str) -> (r: String)
    ensures
        r@ == spec_tokens_debug(input@),
{
    let mut lexer = Lexer::new(input);
    let toks = lexer.tokenize();
    proof {
        assert(crate::lexer::tok_views(toks@).skip(0) =~= crate::lexer::tok_views(toks@));
    }
    tokens_text_from(&toks, 0)
}

/// Parse the input and render the single expression it holds; blank
/// input renders as the empty text.
pub fn get_ast_visual(input: &str) -> (r: String)
    ensures
        r@ == spec_ast_visual(input@),
{
    if input_all_space(input) {
        return String::new();
    }
    let lexer = Lexer::new(input);
    let mut parser = Parser::new(lexer);
    let ast = parser.parse_expression();
    ast.visualize()
}

/// Parse the input as a statement and render both sides; blank input
/// renders as the empty text.
pub fn visualize(input: &str) -> (r: String)
    ensures
        r@ == spec_visualize_text(input@),
{
    if input_all_space(input) {
        return String::new();
    }
    let lexer = Lexer::new(input);
    let mut parser = Parser::new(lexer);
    let (l, r) = parser.parse_statement();
    let mut s = String::new();
    s.append("L: ");
    let ls = l.visualize();
    s.append(ls.as_str());
    s.append(" | R: ");
    let rs = r.visualize();
    s.append(rs.as_str());
    s
}

/// Answer the input: `0` for blank text; an equation is expanded,
/// simplified and solved for its lexically first variable (defaulting to
/// `x`), and the solution or the error is rendered; a bare expression is
/// expanded, simplified and rendered.
pub fn solve(input: &str) -> (r: String)
    ensures
        r@ == spec_solve_text(input@),
{
    proof {
        crate::fraction::lemma_wf_unit_den(-1);
        crate::fraction::lemma_wf_unit_den(0);
    }
    if input_all_space(input) {
        let mut s = String::new();
        s.append("0");
        return s;
    }
    let mut scan = Lexer::new(input);
    let toks = scan.tokenize();
    let has_eq = tokens_have_equal(&toks);
    let lexer = Lexer::new(input);
    let mut parser = Parser::new(lexer);
    let (l, r) = parser.parse_statement();
    if has_eq {
        let combined = mk_add(l.deep_clone(), r.deep_clone());
        let vars = combined.get_variables();
        let var: String = if vars.len() > 0 {
            let ghost names = crate::ast::names_of(vars@);
            proof {
                assert(names[0] == vars@[0]@);
            }
            vars[0].clone()
        } else {
            "x".to_owned()
        };
        let ls = (*l).expand().simplify();
        let rs = (*r).expand().simplify();
        let lhs = mk_add(ls, mk_mul(mk_num(Fraction { num: -1, den: 1 }), rs));
        let sol = crate::ast::Expression::solve_linear(
            lhs,
            mk_num(Fraction { num: 0, den: 1 }),
            var.as_str(),
        );
        let rendered = sol.visualize();
        if crate::ast::is_error(&sol) {
            rendered
        } else {
            let mut s = String::new();
            s.append(var.as_str());
            s.append(" = ");
            s.append(rendered.as_str());
            s
        }
    } else {
        let e = (*l).expand().simplify();
        e.visualize()
    }
}

} // verus!
