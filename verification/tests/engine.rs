//! End-to-end tests of the text interface: tokenizing, parsing, expanding,
//! simplifying, solving and rendering.

use math_engine::ast::{eq_expr, Expression};
use math_engine::fraction::Fraction;
use math_engine::lexer::Lexer;
use math_engine::parser::Parser;
use math_engine::{count_tokens, get_ast_visual, get_tokens_debug, solve, visualize};

#[test]
fn test_simple_addition() {
    assert_eq!(solve("10 + 5"), "15");
}

#[test]
fn test_precedence() {
    assert_eq!(solve("10 + 5 * 2"), "20");
}

#[test]
fn test_parentheses() {
    assert_eq!(solve("(10 + 5) * 2"), "30");
}

#[test]
fn test_division_and_subtraction() {
    assert_eq!(solve("20 / 2 - 3"), "7");
}

#[test]
fn test_spaces_handling() {
    assert_eq!(solve("   10    +   2 "), "12");
}

#[test]
fn test_invalid_expression() {
    let result = solve("5 + * 2");
    assert!(result.contains("Error"));
}

#[test]
fn test_powe_precedence() {
    assert_eq!(solve("2 ^ 3 + 1"), "9");
    assert_eq!(solve("2 * 3 ^ 2"), "18");
}

#[test]
fn test_arithmetic_precedence() {
    let mut parser = Parser::new(Lexer::new("3 + 2 * 4"));
    let expr = parser.parse_expression();
    assert_eq!((*expr).simplify().visualize(), "11");
}

#[test]
fn test_implicit_multiplication() {
    let mut parser = Parser::new(Lexer::new("2x"));
    let expr = parser.parse_expression();
    assert_eq!(expr.visualize(), "(2 * x)");
}

#[test]
fn test_equation_parsing() {
    let mut parser = Parser::new(Lexer::new("2x + 5 = 15"));
    let (left, right) = parser.parse_statement();
    assert_eq!(left.visualize(), "((2 * x) + 5)");
    assert_eq!(right.visualize(), "15");
}

#[test]
fn test_error_handling_incomplete() {
    let mut parser = Parser::new(Lexer::new("2 +"));
    let expr = parser.parse_expression();
    assert!(expr.visualize().contains('2'));
}

#[test]
fn test_solve_linear_equation() {
    assert_eq!(solve("2x + 5 = 15"), "x = 5");
}

#[test]
fn test_solve_needs_expansion() {
    assert_eq!(solve("3 * (x + 2) = 18"), "x = 4");
}

#[test]
fn test_solve_division() {
    assert_eq!(solve("x / 4 = 3"), "x = 12");
}

#[test]
fn test_identity_equation() {
    assert_eq!(solve("x = x"), "Error: infinite solutions (identity)");
}

#[test]
fn test_contradiction_equation() {
    assert_eq!(solve("x + 1 = x"), "Error: no solution (contradiction)");
}

#[test]
fn test_exact_fraction_sum() {
    assert_eq!(solve("1/3 + 1/6"), "1/2");
}

#[test]
fn test_visualize_empty() {
    assert_eq!(visualize(""), "");
}

#[test]
fn test_visualize_statement() {
    assert_eq!(visualize("2x + 5 = 15"), "L: ((2 * x) + 5) | R: 15");
    assert_eq!(visualize("x + 1"), "L: (x + 1) | R: 0");
}

#[test]
fn test_count_tokens_blank() {
    assert_eq!(count_tokens("   "), 0);
}

#[test]
fn test_count_tokens_statement() {
    assert_eq!(count_tokens("2x + 5 = 15"), 6);
    assert_eq!(count_tokens("1.5 + 2"), 3);
}

#[test]
fn test_get_ast_visual() {
    assert_eq!(get_ast_visual(""), "");
    assert_eq!(get_ast_visual("2x"), "(2 * x)");
    assert_eq!(get_ast_visual("x - 3"), "(x - 3)");
}

#[test]
fn test_get_tokens_debug() {
    assert_eq!(
        get_tokens_debug("1/2 x"),
        "Number(1) Divide Number(2) Variable(x)"
    );
    assert_eq!(get_tokens_debug(""), "");
}

#[test]
fn test_division_by_zero() {
    assert_eq!(solve("5 / 0"), "Error: division by zero");
}

#[test]
fn test_exponential_equation_unsupported() {
    assert_eq!(solve("2 ^ x = 8"), "Error: exponential equation unsupported");
}

#[test]
fn test_variable_exponent_unsupported() {
    assert_eq!(solve("x ^ y = 5"), "Error: unsupported exponent");
}

#[test]
fn test_zero_absorbs_error() {
    assert_eq!(solve("0 * (1/0)"), "0");
}

#[test]
fn test_exact_radicals() {
    assert_eq!(solve("25 ^ (1/2)"), "5");
    assert_eq!(solve("8 ^ (2/3)"), "4");
    assert_eq!(solve("2 ^ (1/2)"), "(2 ^ 1/2)");
}

#[test]
fn test_unary_minus() {
    assert_eq!(solve("-5 + 3"), "-2");
    assert_eq!(solve("2 ^ -1"), "1/2");
}

#[test]
fn test_implicit_paren_multiplication() {
    assert_eq!(solve("2(3)"), "6");
}

#[test]
fn test_decimal_literals() {
    assert_eq!(solve("1.5 + 0.25"), "7/4");
    assert_eq!(solve("1.2.3"), "0");
}

#[test]
fn test_fraction_solution() {
    assert_eq!(solve("2x = 5"), "x = 5/2");
}

#[test]
fn test_negative_rendering() {
    assert_eq!(solve("0 - 5"), "-5");
    assert_eq!(solve("0 - 2 * x"), "(-2 * x)");
}

#[test]
fn test_simplify_idempotent_example() {
    let mut parser = Parser::new(Lexer::new("2x + 3x + 1 + 4"));
    let expr = parser.parse_expression();
    let once = (*expr).simplify();
    let copy = once.deep_clone();
    let twice = copy.simplify();
    assert!(eq_expr(&once, &twice));
    assert_eq!(once.visualize(), "((5 * x) + 5)");
}

#[test]
fn test_expand_distributes_example() {
    let two = Expression::Number(Fraction::new(2, 1));
    let three = Expression::Number(Fraction::new(3, 1));
    let four = Expression::Number(Fraction::new(4, 1));
    let sum = Expression::Add(Box::new(two), Box::new(three));
    let product = Expression::Multiply(Box::new(sum), Box::new(four));
    let lhs = product.expand().simplify();
    let rhs = Expression::Add(
        Box::new(Expression::Multiply(
            Box::new(Expression::Number(Fraction::new(2, 1))),
            Box::new(Expression::Number(Fraction::new(4, 1))),
        )),
        Box::new(Expression::Multiply(
            Box::new(Expression::Number(Fraction::new(3, 1))),
            Box::new(Expression::Number(Fraction::new(4, 1))),
        )),
    )
    .simplify();
    assert!(eq_expr(&lhs, &rhs));
    assert_eq!(lhs.visualize(), "20");
}

#[test]
fn test_multi_variable_picks_first_name() {
    assert_eq!(solve("a + b = 4"), "a = (-b + 4)");
}

#[test]
fn test_get_variables_sorted() {
    let mut parser = Parser::new(Lexer::new("z + a + m + a"));
    let expr = parser.parse_expression();
    let vars = expr.get_variables();
    assert_eq!(vars.len(), 3);
    assert_eq!(vars[0], "a");
    assert_eq!(vars[1], "m");
    assert_eq!(vars[2], "z");
}
