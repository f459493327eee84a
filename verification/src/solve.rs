//! Single-variable isolation: starting from a simplified equation, move the
//! operand without the target variable to the right-hand side with the
//! inverse operation, until the bare variable remains on the left. Each
//! recursive call strictly reduces the left operand, so isolation always
//! terminates. A left side without the variable means the equation is an
//! identity or a contradiction.

use vstd::prelude::*;
use crate::ast::{
    expr_wf, mk_add, mk_div, mk_err, mk_mul, mk_num, mk_pow, spec_contains_var, Expression, SExpr,
};
use crate::fraction::{spec_reduce, Fraction};
use crate::simplify::spec_simplify;

verus! {

/// One isolation step chain over an already simplified left side that
/// contains the target variable.
pub open spec fn spec_isolate(l: SExpr, r: SExpr, var: Seq<char>) -> SExpr
    decreases l,
{
    match l {
        SExpr::Add(a, b) => {
            if spec_contains_var(*a, var) {
                spec_isolate(
                    *a,
                    SExpr::Add(
                        Box::new(r),
                        Box::new(
                            SExpr::Multiply(
                                Box::new(SExpr::Number(Fraction { num: -1i64, den: 1 })),
                                b,
                            ),
                        ),
                    ),
                    var,
                )
            } else {
                spec_isolate(
                    *b,
                    SExpr::Add(
                        Box::new(r),
                        Box::new(
                            SExpr::Multiply(
                                Box::new(SExpr::Number(Fraction { num: -1i64, den: 1 })),
                                a,
                            ),
                        ),
                    ),
                    var,
                )
            }
        },
        SExpr::Multiply(a, b) => {
            if spec_contains_var(*a, var) {
                spec_isolate(*a, SExpr::Divide(Box::new(r), b), var)
            } else {
                spec_isolate(*b, SExpr::Divide(Box::new(r), a), var)
            }
        },
        SExpr::Divide(a, b) => {
            if spec_contains_var(*a, var) {
                spec_isolate(*a, SExpr::Multiply(Box::new(r), b), var)
            } else {
                spec_isolate(*b, SExpr::Divide(a, Box::new(r)), var)
            }
        },
        SExpr::Power(a, b) => {
            if spec_contains_var(*a, var) {
                match *b {
                    SExpr::Number(n) => spec_isolate(
                        *a,
                        SExpr::Power(
                            Box::new(r),
                            Box::new(SExpr::Number(spec_reduce(n.den as int, n.num as int))),
                        ),
                        var,
                    ),
                    _ => SExpr::Error("unsupported exponent"@),
                }
            } else {
                SExpr::Error("exponential equation unsupported"@)
            }
        },
        SExpr::Variable(_) => spec_simplify(r),
        _ => SExpr::Error("could not isolate variable"@),
    }
}

/// The solution of `l = r` for `var`: both sides re-simplified, errors
/// passed through, an identity or contradiction reported when the left
/// side no longer mentions the variable, and the variable isolated
/// otherwise.
pub open spec fn spec_solve(l: SExpr, r: SExpr, var: Seq<char>) -> SExpr {
    let ls = spec_simplify(l);
    let rs = spec_simplify(r);
    if ls is Error {
        ls
    } else if rs is Error {
        rs
    } else if !spec_contains_var(ls, var) {
        if ls == rs {
            SExpr::Error("infinite solutions (identity)"@)
        } else {
            SExpr::Error("no solution (contradiction)"@)
        }
    } else {
        spec_isolate(ls, rs, var)
    }
}

fn isolate(l: Expression, r: Expression, var_name: &str) -> (out: Expression)
    requires
        expr_wf(l@),
        expr_wf(r@),
    ensures
        out@ == spec_isolate(l@, r@, var_name@),
        expr_wf(out@),
    decreases l,
{
    let ghost lv = l@;
    proof {
        crate::fraction::lemma_wf_unit_den(-1);
    }
    match l {
        Expression::Add(a, b) => {
            proof {
                assert(lv == SExpr::Add(Box::new((*a)@), Box::new((*b)@)));
            }
            if a.contains_variable(var_name) {
                let moved = mk_mul(mk_num(Fraction { num: -1, den: 1 }), *b);
                isolate(*a, mk_add(r, moved), var_name)
            } else {
                let moved = mk_mul(mk_num(Fraction { num: -1, den: 1 }), *a);
                isolate(*b, mk_add(r, moved), var_name)
            }
        },
        Expression::Multiply(a, b) => {
            proof {
                assert(lv == SExpr::Multiply(Box::new((*a)@), Box::new((*b)@)));
            }
            if a.contains_variable(var_name) {
                isolate(*a, mk_div(r, *b), var_name)
            } else {
                isolate(*b, mk_div(r, *a), var_name)
            }
        },
        Expression::Divide(a, b) => {
            proof {
                assert(lv == SExpr::Divide(Box::new((*a)@), Box::new((*b)@)));
            }
            if a.contains_variable(var_name) {
                isolate(*a, mk_mul(r, *b), var_name)
            } else {
                isolate(*b, mk_div(*a, r), var_name)
            }
        },
        Expression::Power(a, b) => {
            proof {
                assert(lv == SExpr::Power(Box::new((*a)@), Box::new((*b)@)));
            }
            if a.contains_variable(var_name) {
                let ghost bv = (*b)@;
                match *b {
                    Expression::Number(n) => {
                        proof {
                            assert(bv == SExpr::Number(n));
                        }
                        let inv = crate::fraction::reduce_i128(n.den as i128, n.num as i128);
                        proof {
                            crate::fraction::lemma_reduce_wf(n.den as int, n.num as int);
                        }
                        isolate(*a, mk_pow(r, mk_num(inv)), var_name)
                    },
                    bb => {
                        proof {
                            assert(bb@ == bv);
                        }
                        mk_err("unsupported exponent".to_owned())
                    },
                }
            } else {
                mk_err("exponential equation unsupported".to_owned())
            }
        },
        Expression::Variable(v) => {
            proof {
                assert(lv == SExpr::Variable(v@));
            }
            let s = r.simplify();
            s
        },
        other => {
            proof {
                assert(other@ == lv);
            }
            mk_err("could not isolate variable".to_owned())
        },
    }
}

impl Expression {
    /// Solve `left = right` for `var_name`: re-simplify both sides, pass an
    /// error side through, report an identity or a contradiction when the
    /// simplified left side does not mention the variable, and isolate the
    /// variable otherwise.
    pub fn solve_linear(left: Expression, right: Expression, var_name: &str) -> (out: Expression)
        requires
            expr_wf(left@),
            expr_wf(right@),
        ensures
            out@ == spec_solve(left@, right@, var_name@),
            expr_wf(out@),
    {
        let l = left.simplify();
        let r = right.simplify();
        if crate::ast::is_error(&l) {
            return l;
        }
        if crate::ast::is_error(&r) {
            return r;
        }
        if !l.contains_variable(var_name) {
            if crate::ast::eq_expr(&l, &r) {
                mk_err("infinite solutions (identity)".to_owned())
            } else {
                mk_err("no solution (contradiction)".to_owned())
            }
        } else {
            isolate(l, r, var_name)
        }
    }
}

} // verus!
