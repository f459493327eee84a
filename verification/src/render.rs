//! Rendering a tree back to infix text: parenthesized binary operators,
//! bare fraction leaves, and folding an additive-of-negative term into a
//! subtraction for readability.

use vstd::prelude::*;
use crate::ast::{Expression, SExpr};
use crate::fraction::{spec_reduce, Fraction};

verus! {

/// The character of a single decimal digit.
pub open spec fn digit_char(d: nat) -> char {
    if d == 0 {
        '0'
    } else if d == 1 {
        '1'
    } else if d == 2 {
        '2'
    } else if d == 3 {
        '3'
    } else if d == 4 {
        '4'
    } else if d == 5 {
        '5'
    } else if d == 6 {
        '6'
    } else if d == 7 {
        '7'
    } else if d == 8 {
        '8'
    } else {
        '9'
    }
}

/// The decimal digits of a natural number, most significant first.
pub open spec fn dec_digits(n: nat) -> Seq<char>
    decreases n,
{
    if n < 10 {
        seq![digit_char(n)]
    } else {
        dec_digits(n / 10) + seq![digit_char(n % 10)]
    }
}

/// The decimal text of an integer, with a leading minus when negative.
pub open spec fn spec_decimal(i: int) -> Seq<char> {
    if i < 0 {
        seq!['-'] + dec_digits((-i) as nat)
    } else {
        dec_digits(i as nat)
    }
}

/// The text of a fraction: the numerator alone when the denominator is 1,
/// else numerator slash denominator.
pub open spec fn frac_text(f: Fraction) -> Seq<char> {
    if f.den == 1 {
        spec_decimal(f.num as int)
    } else {
        spec_decimal(f.num as int) + "/"@ + spec_decimal(f.den as int)
    }
}

/// Relies on `i64`'s standard `Display` implementation via `to_string`:
/// the decimal digits of the value, a leading `-` when it is negative.
#[verifier::external_body]
fn i64_to_string(n: i64) -> (r: String)
    ensures
        r@ == spec_decimal(n as int),
{
    n.to_string()
}

/// The fraction's text form.
pub fn frac_string(f: Fraction) -> (r: String)
    ensures
        r@ == frac_text(f),
{
    let mut s = i64_to_string(f.num);
    if f.den != 1 {
        s.append("/");
        let d = i64_to_string(f.den);
        s.append(d.as_str());
    }
    s
}

/// The rendered infix text of a model tree.
pub open spec fn spec_viz(e: SExpr) -> Seq<char>
    decreases e,
{
    match e {
        SExpr::Number(f) => frac_text(f),
        SExpr::Variable(v) => v,
        SExpr::Error(m) => "Error: "@ + m,
        SExpr::Add(l, r) => {
            let lstr = spec_viz(*l);
            match *r {
                SExpr::Multiply(n, varg) => match *n {
                    SExpr::Number(val) => {
                        if val.num < 0 && val.num > i64::MIN {
                            let pos = spec_reduce(-(val.num as int), val.den as int);
                            let var_str = if val == (Fraction { num: -1i64, den: 1 }) {
                                spec_viz(*varg)
                            } else {
                                frac_text(pos) + " * "@ + spec_viz(*varg)
                            };
                            "("@ + lstr + " - "@ + var_str + ")"@
                        } else {
                            "("@ + lstr + " + "@ + spec_viz(*r) + ")"@
                        }
                    },
                    _ => "("@ + lstr + " + "@ + spec_viz(*r) + ")"@,
                },
                SExpr::Number(nr) => {
                    if nr.num < 0 && nr.num > i64::MIN {
                        "("@ + lstr + " - "@ + frac_text(
                            spec_reduce(-(nr.num as int), nr.den as int),
                        ) + ")"@
                    } else {
                        "("@ + lstr + " + "@ + spec_viz(*r) + ")"@
                    }
                },
                _ => "("@ + lstr + " + "@ + spec_viz(*r) + ")"@,
            }
        },
        SExpr::Multiply(l, r) => {
            if *l == SExpr::Number(Fraction { num: 1i64, den: 1 }) {
                spec_viz(*r)
            } else if *l == SExpr::Number(Fraction { num: -1i64, den: 1 }) {
                "-"@ + spec_viz(*r)
            } else {
                "("@ + spec_viz(*l) + " * "@ + spec_viz(*r) + ")"@
            }
        },
        SExpr::Divide(l, r) => "("@ + spec_viz(*l) + " / "@ + spec_viz(*r) + ")"@,
        SExpr::Power(l, r) => "("@ + spec_viz(*l) + " ^ "@ + spec_viz(*r) + ")"@,
    }
}

impl Expression {
    /// Render the tree as infix text, folding an added negative term into
    /// a subtraction.
    pub fn visualize(&self) -> (r: String)
        ensures
            r@ == spec_viz(self@),
        decreases *self,
    {
        match self {
            Expression::Number(f) => frac_string(*f),
            Expression::Variable(v) => v.clone(),
            Expression::Error(m) => {
                let mut s = String::new();
                s.append("Error: ");
                s.append(m.as_str());
                s
            },
            Expression::Add(l, r) => {
                let l_str = l.visualize();
                let folded = viz_add_fold(&l_str, r, Ghost((**l)@));
                match folded {
                    Option::Some(s) => s,
                    Option::None => {
                        let mut s = String::new();
                        s.append("(");
                        s.append(l_str.as_str());
                        s.append(" + ");
                        let r_str = r.visualize();
                        s.append(r_str.as_str());
                        s.append(")");
                        s
                    },
                }
            },
            Expression::Multiply(l, r) => {
                let ln = leading_number(l);
                if let Some(f) = ln {
                    if f.num == 1 && f.den == 1 {
                        return r.visualize();
                    }
                    if f.num == -1 && f.den == 1 {
                        let mut s = String::new();
                        s.append("-");
                        let r_str = r.visualize();
                        s.append(r_str.as_str());
                        return s;
                    }
                }
                let mut s = String::new();
                s.append("(");
                let l_str = l.visualize();
                s.append(l_str.as_str());
                s.append(" * ");
                let r_str = r.visualize();
                s.append(r_str.as_str());
                s.append(")");
                s
            },
            Expression::Divide(l, r) => {
                let mut s = String::new();
                s.append("(");
                let l_str = l.visualize();
                s.append(l_str.as_str());
                s.append(" / ");
                let r_str = r.visualize();
                s.append(r_str.as_str());
                s.append(")");
                s
            },
            Expression::Power(l, r) => {
                let mut s = String::new();
                s.append("(");
                let l_str = l.visualize();
                s.append(l_str.as_str());
                s.append(" ^ ");
                let r_str = r.visualize();
                s.append(r_str.as_str());
                s.append(")");
                s
            },
        }
    }
}

/// The numeric leaf value of the tree's left operand, when it has one.
fn leading_number(e: &Expression) -> (r: Option<Fraction>)
    ensures
        match r {
            Some(f) => e@ == SExpr::Number(f),
            None => !(e@ is Number),
        },
{
    match e {
        Expression::Number(f) => Some(*f),
        _ => None,
    }
}

/// Render the subtraction folding of `l_str + " - " + ...` when the right
/// operand of the addition is a negative number or a negative multiple.
fn viz_add_fold(l_str: &String, r: &Expression, lv: Ghost<SExpr>) -> (out: Option<String>)
    requires
        l_str@ == spec_viz(lv@),
    ensures
        match out {
            Option::Some(s) => s@ == spec_viz(SExpr::Add(Box::new(lv@), Box::new(r@))),
            Option::None => spec_viz(SExpr::Add(Box::new(lv@), Box::new(r@))) == "("@ + l_str@
                + " + "@ + spec_viz(r@) + ")"@,
        },
    decreases *r,
{
    match r {
        Expression::Multiply(n, varg) => match &**n {
            Expression::Number(val) => {
                proof {
                    assert(r@ == SExpr::Multiply(Box::new((**n)@), Box::new((**varg)@)));
                    assert((**n)@ == SExpr::Number(*val));
                }
                if val.num < 0 && val.num > i64::MIN {
                    let pos = crate::fraction::reduce_i128(
                        -(val.num as i128),
                        val.den as i128,
                    );
                    let var_str = if val.num == -1 && val.den == 1 {
                        varg.visualize()
                    } else {
                        let mut vs = frac_string(pos);
                        vs.append(" * ");
                        let inner = varg.visualize();
                        vs.append(inner.as_str());
                        vs
                    };
                    let mut s = String::new();
                    s.append("(");
                    s.append(l_str.as_str());
                    s.append(" - ");
                    s.append(var_str.as_str());
                    s.append(")");
                    Some(s)
                } else {
                    None
                }
            },
            _ => None,
        },
        Expression::Number(nr) => {
            proof {
                assert(r@ == SExpr::Number(*nr));
            }
            if nr.num < 0 && nr.num > i64::MIN {
                let pos = crate::fraction::reduce_i128(-(nr.num as i128), nr.den as i128);
                let ps = frac_string(pos);
                let mut s = String::new();
                s.append("(");
                s.append(l_str.as_str());
                s.append(" - ");
                s.append(ps.as_str());
                s.append(")");
                Some(s)
            } else {
                None
            }
        },
        _ => None,
    }
}

} // verus!
