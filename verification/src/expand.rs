//! Distributive expansion: rewrite `a*(b+c)` into `a*b + a*c` and
//! `(a+b)*c` into `a*c + b*c`, recursing into both operands of additions
//! and divisions. The result contains no multiplication with an additive
//! operand outside of power subtrees, which expansion does not enter.
//! Like terms are not merged here: that is the simplifier's job.

use vstd::prelude::*;
use crate::ast::{esize, expr_wf, Expression, SExpr};
use crate::simplify::spec_simplify;

verus! {

/// Distribute a product of two already-expanded operands.
pub open spec fn spec_mul_dist(a: SExpr, d: SExpr) -> SExpr
    decreases esize(a) + esize(d),
{
    match d {
        SExpr::Add(b, c) => SExpr::Add(
            Box::new(spec_mul_dist(a, *b)),
            Box::new(spec_mul_dist(a, *c)),
        ),
        _ => match a {
            SExpr::Add(p, q) => SExpr::Add(
                Box::new(spec_mul_dist(*p, d)),
                Box::new(spec_mul_dist(*q, d)),
            ),
            _ => SExpr::Multiply(Box::new(a), Box::new(d)),
        },
    }
}

/// The fully distributed form of a model tree.
pub open spec fn spec_expand(e: SExpr) -> SExpr
    decreases e,
{
    match e {
        SExpr::Add(l, r) => SExpr::Add(
            Box::new(spec_expand(*l)),
            Box::new(spec_expand(*r)),
        ),
        SExpr::Divide(l, r) => SExpr::Divide(
            Box::new(spec_expand(*l)),
            Box::new(spec_expand(*r)),
        ),
        SExpr::Multiply(l, r) => spec_mul_dist(spec_expand(*l), spec_expand(*r)),
        _ => e,
    }
}

/// No multiplication node has an additive operand, outside power subtrees.
pub open spec fn is_expanded(e: SExpr) -> bool
    decreases e,
{
    match e {
        SExpr::Add(l, r) => is_expanded(*l) && is_expanded(*r),
        SExpr::Divide(l, r) => is_expanded(*l) && is_expanded(*r),
        SExpr::Multiply(l, r) => is_expanded(*l) && is_expanded(*r) && !(*l is Add) && !(*r
            is Add),
        _ => true,
    }
}

/// Distribution of expanded operands yields an expanded tree.
pub proof fn lemma_mul_dist_expanded(a: SExpr, d: SExpr)
    requires
        is_expanded(a),
        is_expanded(d),
    ensures
        is_expanded(spec_mul_dist(a, d)),
    decreases esize(a) + esize(d),
{
    match d {
        SExpr::Add(b, c) => {
            lemma_mul_dist_expanded(a, *b);
            lemma_mul_dist_expanded(a, *c);
        },
        _ => match a {
            SExpr::Add(p, q) => {
                lemma_mul_dist_expanded(*p, d);
                lemma_mul_dist_expanded(*q, d);
            },
            _ => {},
        },
    }
}

/// Expansion always yields an expanded tree.
pub proof fn lemma_expand_expanded(e: SExpr)
    ensures
        is_expanded(spec_expand(e)),
    decreases e,
{
    match e {
        SExpr::Add(l, r) => {
            lemma_expand_expanded(*l);
            lemma_expand_expanded(*r);
        },
        SExpr::Divide(l, r) => {
            lemma_expand_expanded(*l);
            lemma_expand_expanded(*r);
        },
        SExpr::Multiply(l, r) => {
            lemma_expand_expanded(*l);
            lemma_expand_expanded(*r);
            lemma_mul_dist_expanded(spec_expand(*l), spec_expand(*r));
        },
        _ => {},
    }
}

/// Expansion leaves an already-expanded tree unchanged.
pub proof fn lemma_expand_fixed(e: SExpr)
    requires
        is_expanded(e),
    ensures
        spec_expand(e) == e,
    decreases e,
{
    match e {
        SExpr::Add(l, r) => {
            lemma_expand_fixed(*l);
            lemma_expand_fixed(*r);
        },
        SExpr::Divide(l, r) => {
            lemma_expand_fixed(*l);
            lemma_expand_fixed(*r);
        },
        SExpr::Multiply(l, r) => {
            lemma_expand_fixed(*l);
            lemma_expand_fixed(*r);
        },
        _ => {},
    }
}

/// Expanding a product of a sum of non-additive expanded operands gives
/// exactly the sum of the two products.
pub proof fn lemma_expand_distributes(a: SExpr, b: SExpr, c: SExpr)
    requires
        is_expanded(a),
        is_expanded(b),
        is_expanded(c),
        !(a is Add),
        !(b is Add),
        !(c is Add),
    ensures
        spec_expand(
            SExpr::Multiply(Box::new(SExpr::Add(Box::new(a), Box::new(b))), Box::new(c)),
        ) == SExpr::Add(
            Box::new(SExpr::Multiply(Box::new(a), Box::new(c))),
            Box::new(SExpr::Multiply(Box::new(b), Box::new(c))),
        ),
{
    lemma_expand_fixed(SExpr::Add(Box::new(a), Box::new(b)));
    lemma_expand_fixed(c);
    let ab = SExpr::Add(Box::new(a), Box::new(b));
    assert(spec_expand(SExpr::Multiply(Box::new(ab), Box::new(c))) == spec_mul_dist(ab, c));
    assert(spec_mul_dist(a, c) == SExpr::Multiply(Box::new(a), Box::new(c)));
    assert(spec_mul_dist(b, c) == SExpr::Multiply(Box::new(b), Box::new(c)));
    assert(spec_mul_dist(ab, c) == SExpr::Add(
        Box::new(spec_mul_dist(a, c)),
        Box::new(spec_mul_dist(b, c)),
    ));
}

/// Expanding the product of a sum with a third operand and simplifying
/// agrees with simplifying the sum of the two products, for operands that
/// are themselves expanded and not additive.
pub proof fn lemma_expand_simplify_distributes(a: SExpr, b: SExpr, c: SExpr)
    requires
        is_expanded(a),
        is_expanded(b),
        is_expanded(c),
        !(a is Add),
        !(b is Add),
        !(c is Add),
    ensures
        spec_simplify(
            spec_expand(
                SExpr::Multiply(Box::new(SExpr::Add(Box::new(a), Box::new(b))), Box::new(c)),
            ),
        ) == spec_simplify(
            SExpr::Add(
                Box::new(SExpr::Multiply(Box::new(a), Box::new(c))),
                Box::new(SExpr::Multiply(Box::new(b), Box::new(c))),
            ),
        ),
{
    lemma_expand_distributes(a, b, c);
}

/// Distribute a product whose operands are already expanded.
fn mul_dist(a: Expression, d: Expression) -> (r: Expression)
    ensures
        r@ == spec_mul_dist(a@, d@),
        expr_wf(a@) && expr_wf(d@) ==> expr_wf(r@),
    decreases esize(a@) + esize(d@),
{
    match d {
        Expression::Add(b, c) => {
            let left = mul_dist(a.deep_clone(), *b);
            let right = mul_dist(a, *c);
            Expression::Add(Box::new(left), Box::new(right))
        },
        dd => match a {
            Expression::Add(p, q) => {
                let left = mul_dist(*p, dd.deep_clone());
                let right = mul_dist(*q, dd);
                Expression::Add(Box::new(left), Box::new(right))
            },
            aa => Expression::Multiply(Box::new(aa), Box::new(dd)),
        },
    }
}

impl Expression {
    /// Rewrite the tree so that no multiplication keeps an additive operand
    /// (outside power subtrees); like terms are left unmerged.
    pub fn expand(self) -> (r: Expression)
        ensures
            r@ == spec_expand(self@),
            is_expanded(r@),
            expr_wf(self@) ==> expr_wf(r@),
        decreases self,
    {
        proof {
            lemma_expand_expanded(self@);
        }
        match self {
            Expression::Add(l, r) => Expression::Add(
                Box::new((*l).expand()),
                Box::new((*r).expand()),
            ),
            Expression::Divide(l, r) => Expression::Divide(
                Box::new((*l).expand()),
                Box::new((*r).expand()),
            ),
            Expression::Multiply(l, r) => {
                let le = (*l).expand();
                let re = (*r).expand();
                mul_dist(le, re)
            },
            other => other,
        }
    }
}

} // verus!
