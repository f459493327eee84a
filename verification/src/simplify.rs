//! Fixed-point simplification: one canonicalizing rewrite pass, repeated
//! until two consecutive results are structurally equal, under a pass
//! budget that grows with the tree.
//!
//! The pass simplifies children first, then per node: additions drop zero
//! operands, flatten the whole additive chain and collect terms (one
//! running constant, one coefficient per variable in ascending name order,
//! other terms kept in first-seen order); multiplications fold constants,
//! apply the 1 and 0 identities (a zero factor absorbs the other side,
//! errors included), and re-associate a constant into a nested constant
//! multiple; divisions by a constant become multiplications by its
//! reciprocal, and division by zero becomes an error leaf; powers fold
//! constant bases with small integer exponents, take exact radicals for
//! small rational exponents when they exist, and apply the 0 and 1
//! exponent rules.

use vstd::prelude::*;
use crate::ast::{
    expr_wf, lex_lt, mk_add, mk_div, mk_err, mk_mul, mk_num, mk_pow, mk_var, Expression, SExpr,
};
use crate::fraction::{
    frac_wf, spec_frac_add, spec_frac_div, spec_frac_mul, spec_frac_pow, spec_nth_root,
    spec_reduce, Fraction,
};

verus! {

/// The entire additive chain of a tree, in left-to-right order.
pub open spec fn flatten_add(e: SExpr) -> Seq<SExpr>
    decreases e,
{
    match e {
        SExpr::Add(l, r) => flatten_add(*l) + flatten_add(*r),
        _ => seq![e],
    }
}

/// Running state of additive term collection.
pub struct Collect {
    /// Sum of the pure number terms.
    pub sum: Fraction,
    /// Per-variable coefficients, ascending by name, each name once.
    pub vars: Seq<(Seq<char>, Fraction)>,
    /// Terms that are neither numbers nor coefficient-times-variable,
    /// in first-seen order.
    pub complex: Seq<SExpr>,
}

/// Add `c` to the coefficient of `v`, keeping the list ordered by name.
pub open spec fn upsert_coeff(
    s: Seq<(Seq<char>, Fraction)>,
    v: Seq<char>,
    c: Fraction,
) -> Seq<(Seq<char>, Fraction)>
    decreases s.len(),
{
    if s.len() == 0 {
        seq![(v, c)]
    } else if lex_lt(s[0].0, v) {
        seq![s[0]] + upsert_coeff(s.skip(1), v, c)
    } else if s[0].0 == v {
        seq![(v, spec_frac_add(s[0].1, c))] + s.skip(1)
    } else {
        seq![(v, c)] + s
    }
}

/// Fold one term into the collection state.
pub open spec fn classify_term(st: Collect, t: SExpr) -> Collect {
    match t {
        SExpr::Number(n) => Collect { sum: spec_frac_add(st.sum, n), ..st },
        SExpr::Variable(v) => Collect {
            vars: upsert_coeff(st.vars, v, Fraction { num: 1, den: 1 }),
            ..st
        },
        SExpr::Multiply(a, b) => match (*a, *b) {
            (SExpr::Number(n), SExpr::Variable(v)) => Collect {
                vars: upsert_coeff(st.vars, v, n),
                ..st
            },
            (SExpr::Variable(v), SExpr::Number(n)) => Collect {
                vars: upsert_coeff(st.vars, v, n),
                ..st
            },
            _ => Collect { complex: st.complex + seq![t], ..st },
        },
        _ => Collect { complex: st.complex + seq![t], ..st },
    }
}

/// Fold a sequence of terms into the collection state, left to right.
pub open spec fn collect_terms(st: Collect, terms: Seq<SExpr>) -> Collect
    decreases terms.len(),
{
    if terms.len() == 0 {
        st
    } else {
        collect_terms(classify_term(st, terms[0]), terms.skip(1))
    }
}

/// Append one rebuilt term to the accumulating sum.
pub open spec fn rebuild_join(acc: Option<SExpr>, t: SExpr) -> Option<SExpr> {
    match acc {
        Option::None => Option::Some(t),
        Option::Some(e) => Option::Some(SExpr::Add(Box::new(e), Box::new(t))),
    }
}

/// Append the complex terms in first-seen order.
pub open spec fn rebuild_complex(acc: Option<SExpr>, complex: Seq<SExpr>) -> Option<SExpr>
    decreases complex.len(),
{
    if complex.len() == 0 {
        acc
    } else {
        rebuild_complex(rebuild_join(acc, complex[0]), complex.skip(1))
    }
}

/// Append the variable terms in ascending name order: a zero coefficient is
/// dropped, a coefficient of one degenerates to the bare variable.
pub open spec fn rebuild_vars(
    acc: Option<SExpr>,
    vars: Seq<(Seq<char>, Fraction)>,
) -> Option<SExpr>
    decreases vars.len(),
{
    if vars.len() == 0 {
        acc
    } else {
        let (v, c) = vars[0];
        let acc2 = if c == (Fraction { num: 0, den: 1 }) {
            acc
        } else if c == (Fraction { num: 1, den: 1 }) {
            rebuild_join(acc, SExpr::Variable(v))
        } else {
            rebuild_join(
                acc,
                SExpr::Multiply(Box::new(SExpr::Number(c)), Box::new(SExpr::Variable(v))),
            )
        };
        rebuild_vars(acc2, vars.skip(1))
    }
}

/// Rebuild the collected state: complex terms, then variable terms, then
/// the constant (omitted when zero unless it is the only surviving term).
pub open spec fn rebuild_all(st: Collect) -> SExpr {
    let acc = rebuild_vars(rebuild_complex(Option::None, st.complex), st.vars);
    if st.sum != (Fraction { num: 0, den: 1 }) || acc is None {
        match rebuild_join(acc, SExpr::Number(st.sum)) {
            Option::Some(e) => e,
            Option::None => SExpr::Number(st.sum),
        }
    } else {
        match acc {
            Option::Some(e) => e,
            Option::None => SExpr::Number(st.sum),
        }
    }
}

/// The empty collection state.
pub open spec fn empty_collect() -> Collect {
    Collect { sum: Fraction { num: 0, den: 1 }, vars: Seq::empty(), complex: Seq::empty() }
}

/// Collect and rebuild a flattened additive chain.
pub open spec fn collect_rebuild(terms: Seq<SExpr>) -> SExpr {
    rebuild_all(collect_terms(empty_collect(), terms))
}

/// One simplification pass over stepped children of a multiplication.
pub open spec fn step_multiply(ls: SExpr, rs: SExpr) -> SExpr {
    match (ls, rs) {
        (SExpr::Number(n1), SExpr::Number(n2)) => SExpr::Number(spec_frac_mul(n1, n2)),
        (other, SExpr::Number(n)) => {
            if n == (Fraction { num: 1, den: 1 }) {
                other
            } else if n == (Fraction { num: 0, den: 1 }) {
                SExpr::Number(Fraction { num: 0, den: 1 })
            } else {
                match other {
                    SExpr::Multiply(a, b) => match *a {
                        SExpr::Number(n1) => SExpr::Multiply(
                            Box::new(SExpr::Number(spec_frac_mul(n1, n))),
                            b,
                        ),
                        _ => SExpr::Multiply(
                            Box::new(SExpr::Multiply(a, b)),
                            Box::new(SExpr::Number(n)),
                        ),
                    },
                    _ => SExpr::Multiply(Box::new(other), Box::new(SExpr::Number(n))),
                }
            }
        },
        (SExpr::Number(n), other) => {
            if n == (Fraction { num: 1, den: 1 }) {
                other
            } else if n == (Fraction { num: 0, den: 1 }) {
                SExpr::Number(Fraction { num: 0, den: 1 })
            } else {
                match other {
                    SExpr::Multiply(a, b) => match *a {
                        SExpr::Number(n2) => SExpr::Multiply(
                            Box::new(SExpr::Number(spec_frac_mul(n, n2))),
                            b,
                        ),
                        _ => SExpr::Multiply(
                            Box::new(SExpr::Number(n)),
                            Box::new(SExpr::Multiply(a, b)),
                        ),
                    },
                    _ => SExpr::Multiply(Box::new(SExpr::Number(n)), Box::new(other)),
                }
            }
        },
        _ => SExpr::Multiply(Box::new(ls), Box::new(rs)),
    }
}

/// One simplification pass over stepped children of a division.
pub open spec fn step_divide(ls: SExpr, rs: SExpr) -> SExpr {
    match (ls, rs) {
        (l, SExpr::Number(n)) => {
            if n == (Fraction { num: 0, den: 1 }) {
                SExpr::Error("division by zero"@)
            } else {
                match l {
                    SExpr::Number(n1) => SExpr::Number(spec_frac_div(n1, n)),
                    other => SExpr::Multiply(
                        Box::new(SExpr::Number(spec_reduce(n.den as int, n.num as int))),
                        Box::new(other),
                    ),
                }
            }
        },
        (SExpr::Number(n), other) => {
            if n == (Fraction { num: 0, den: 1 }) {
                SExpr::Number(Fraction { num: 0, den: 1 })
            } else {
                SExpr::Divide(Box::new(SExpr::Number(n)), Box::new(other))
            }
        },
        _ => SExpr::Divide(Box::new(ls), Box::new(rs)),
    }
}

/// One simplification pass over stepped children of a power.
pub open spec fn step_power(ls: SExpr, rs: SExpr) -> SExpr {
    match (ls, rs) {
        (SExpr::Number(base), SExpr::Number(exp)) => {
            if exp.den == 1 && -10 <= exp.num <= 10 {
                SExpr::Number(spec_frac_pow(base, exp.num as int))
            } else if -10 <= exp.num <= 10 && 1 < exp.den <= 10 {
                let rn = spec_nth_root(base.num as int, exp.den as nat);
                let rd = spec_nth_root(base.den as int, exp.den as nat);
                if rn is Some && rd is Some {
                    SExpr::Number(
                        spec_frac_pow(
                            spec_reduce(rn->Some_0, rd->Some_0),
                            exp.num as int,
                        ),
                    )
                } else {
                    SExpr::Power(Box::new(SExpr::Number(base)), Box::new(SExpr::Number(exp)))
                }
            } else {
                SExpr::Power(Box::new(SExpr::Number(base)), Box::new(SExpr::Number(exp)))
            }
        },
        (l, SExpr::Number(n)) => {
            if n == (Fraction { num: 0, den: 1 }) {
                SExpr::Number(Fraction { num: 1, den: 1 })
            } else if n == (Fraction { num: 1, den: 1 }) {
                l
            } else {
                SExpr::Power(Box::new(l), Box::new(SExpr::Number(n)))
            }
        },
        (SExpr::Number(n), other) => {
            if n == (Fraction { num: 0, den: 1 }) {
                SExpr::Number(Fraction { num: 0, den: 1 })
            } else {
                SExpr::Power(Box::new(SExpr::Number(n)), Box::new(other))
            }
        },
        _ => SExpr::Power(Box::new(ls), Box::new(rs)),
    }
}

/// One simplification pass over stepped children of an addition.
pub open spec fn step_add(ls: SExpr, rs: SExpr) -> SExpr {
    if ls == SExpr::Number(Fraction { num: 0, den: 1 }) {
        rs
    } else if rs == SExpr::Number(Fraction { num: 0, den: 1 }) {
        ls
    } else {
        collect_rebuild(flatten_add(SExpr::Add(Box::new(ls), Box::new(rs))))
    }
}

/// One full simplification pass: children first, then the node's own rules.
pub open spec fn spec_step(e: SExpr) -> SExpr
    decreases e,
{
    match e {
        SExpr::Add(l, r) => step_add(spec_step(*l), spec_step(*r)),
        SExpr::Multiply(l, r) => step_multiply(spec_step(*l), spec_step(*r)),
        SExpr::Divide(l, r) => step_divide(spec_step(*l), spec_step(*r)),
        SExpr::Power(l, r) => step_power(spec_step(*l), spec_step(*r)),
        _ => e,
    }
}

/// Iterate the pass until a fixed point or until the budget runs out.
pub open spec fn iter_steps(e: SExpr, fuel: nat) -> SExpr
    decreases fuel,
{
    if fuel == 0 {
        e
    } else {
        let s = spec_step(e);
        if s == e {
            e
        } else {
            iter_steps(s, (fuel - 1) as nat)
        }
    }
}

/// Tree size, saturated at a large cap, for the pass budget.
pub open spec fn csize(e: SExpr) -> nat
    decreases e,
{
    match e {
        SExpr::Add(l, r) => sat_add(csize(*l), csize(*r)),
        SExpr::Multiply(l, r) => sat_add(csize(*l), csize(*r)),
        SExpr::Divide(l, r) => sat_add(csize(*l), csize(*r)),
        SExpr::Power(l, r) => sat_add(csize(*l), csize(*r)),
        _ => 1,
    }
}

/// Saturating size combination for one node and its two children.
pub open spec fn sat_add(a: nat, b: nat) -> nat {
    if 1 + a + b > 0xffff_ffff {
        0xffff_ffff
    } else {
        1 + a + b
    }
}

/// The pass budget of a tree.
pub open spec fn pass_budget(e: SExpr) -> nat {
    csize(e) * csize(e) + 16
}

/// The simplified form of a model tree: the pass iterated to a fixed
/// point, within the pass budget.
pub open spec fn spec_simplify(e: SExpr) -> SExpr {
    iter_steps(e, pass_budget(e))
}

/// The models of a vector of trees.
pub open spec fn views_of(s: Seq<Expression>) -> Seq<SExpr> {
    s.map_values(|x: Expression| x@)
}

/// The models of a vector of name/coefficient pairs.
pub open spec fn pairs_of(s: Seq<(String, Fraction)>) -> Seq<(Seq<char>, Fraction)> {
    s.map_values(|p: (String, Fraction)| (p.0@, p.1))
}

/// Every tree in the sequence has well-formed numeric leaves.
pub open spec fn all_wf(s: Seq<SExpr>) -> bool {
    forall|i: int| 0 <= i < s.len() ==> expr_wf(#[trigger] s[i])
}

/// Every coefficient in the sequence is well-formed.
pub open spec fn coeffs_wf(s: Seq<(Seq<char>, Fraction)>) -> bool {
    forall|i: int| 0 <= i < s.len() ==> frac_wf(#[trigger] s[i].1)
}

/// The model of an optional tree.
pub open spec fn opt_view(o: Option<Expression>) -> Option<SExpr> {
    match o {
        Option::Some(e) => Option::Some(e@),
        Option::None => Option::None,
    }
}

/// An optional tree with well-formed numeric leaves.
pub open spec fn opt_wf(o: Option<SExpr>) -> bool {
    match o {
        Option::Some(e) => expr_wf(e),
        Option::None => true,
    }
}

/// Append the additive chain of `e` to `out`.
fn flatten_into(e: Expression, out: &mut Vec<Expression>)
    ensures
        views_of(final(out)@) == views_of(old(out)@) + flatten_add(e@),
        all_wf(views_of(old(out)@)) && expr_wf(e@) ==> all_wf(views_of(final(out)@)),
    decreases e,
{
    let ghost ev = e@;
    match e {
        Expression::Add(l, r) => {
            proof {
                assert(ev == SExpr::Add(Box::new((*l)@), Box::new((*r)@)));
            }
            flatten_into(*l, out);
            flatten_into(*r, out);
            proof {
                assert(views_of(out@) =~= views_of(old(out)@) + flatten_add(ev));
            }
        },
        other => {
            proof {
                assert(other@ == ev);
            }
            out.push(other);
            proof {
                assert(views_of(out@) =~= views_of(old(out)@) + flatten_add(ev));
            }
        },
    }
}

/// Splitting an ordered coefficient insertion at a scanned prefix below `v`.
proof fn lemma_upsert_skip(s: Seq<(Seq<char>, Fraction)>, v: Seq<char>, c: Fraction, i: int)
    requires
        0 <= i <= s.len(),
        forall|j: int| 0 <= j < i ==> lex_lt(#[trigger] s[j].0, v),
    ensures
        upsert_coeff(s, v, c) == s.take(i) + upsert_coeff(s.skip(i), v, c),
    decreases i,
{
    if i == 0 {
        assert(s.take(0) + upsert_coeff(s.skip(0), v, c) =~= upsert_coeff(s, v, c)) by {
            assert(s.skip(0) =~= s);
        }
    } else {
        lemma_upsert_skip(s.skip(1), v, c, i - 1);
        assert(s.skip(1).skip(i - 1) =~= s.skip(i));
        assert(seq![s[0]] + (s.skip(1).take(i - 1) + upsert_coeff(s.skip(i), v, c)) =~= s.take(i)
            + upsert_coeff(s.skip(i), v, c)) by {
            assert(s.skip(1).take(i - 1) =~= s.take(i).skip(1));
        }
    }
}

/// Add `c` to the coefficient of `name`, keeping the vector ordered by name.
fn upsert_exec(vars: &mut Vec<(String, Fraction)>, name: &String, c: Fraction)
    requires
        frac_wf(c),
        coeffs_wf(pairs_of(old(vars)@)),
    ensures
        pairs_of(final(vars)@) == upsert_coeff(pairs_of(old(vars)@), name@, c),
        coeffs_wf(pairs_of(final(vars)@)),
{
    let ghost s = pairs_of(vars@);
    let mut i: usize = 0;
    while i < vars.len() && crate::ast::str_lt(vars[i].0.as_str(), name.as_str())
        invariant
            0 <= i <= vars@.len(),
            vars@ == old(vars)@,
            s == pairs_of(vars@),
            forall|j: int| 0 <= j < i ==> lex_lt(#[trigger] s[j].0, name@),
        decreases vars@.len() - i,
    {
        i = i + 1;
    }
    proof {
        lemma_upsert_skip(s, name@, c, i as int);
        crate::fraction::lemma_frac_ops_wf(Fraction { num: 0, den: 1 }, c);
    }
    if i < vars.len() && crate::ast::str_eq_str(vars[i].0.as_str(), name.as_str()) {
        let pr = vars.remove(i);
        let updated = pr.1.add(c);
        vars.insert(i, (pr.0, updated));
        proof {
            assert(s.skip(i as int)[0] == (pr.0@, pr.1));
            assert(upsert_coeff(s.skip(i as int), name@, c) == seq![(name@, updated)] + s.skip(
                i as int,
            ).skip(1));
            assert(pairs_of(vars@) =~= s.take(i as int) + (seq![(name@, updated)] + s.skip(
                i as int,
            ).skip(1)));
        }
    } else {
        vars.insert(i, (name.clone(), c));
        proof {
            if i < s.len() {
                assert(!lex_lt(s[i as int].0, name@));
                assert(s.skip(i as int)[0] == s[i as int]);
                assert(upsert_coeff(s.skip(i as int), name@, c) == seq![(name@, c)] + s.skip(
                    i as int,
                ));
            } else {
                assert(s.skip(i as int) =~= Seq::<(Seq<char>, Fraction)>::empty());
            }
            assert(pairs_of(vars@) =~= s.take(i as int) + upsert_coeff(
                s.skip(i as int),
                name@,
                c,
            ));
        }
    }
}

/// Append one rebuilt term to the accumulating sum.
fn join_opt(acc: Option<Expression>, t: Expression) -> (r: Option<Expression>)
    ensures
        opt_view(r) == rebuild_join(opt_view(acc), t@),
        opt_wf(opt_view(acc)) && expr_wf(t@) ==> opt_wf(opt_view(r)),
{
    match acc {
        Option::None => Option::Some(t),
        Option::Some(e) => Option::Some(mk_add(e, t)),
    }
}

/// Apply the addition rules to stepped children: drop zero operands, else
/// flatten the whole chain, collect terms and rebuild.
fn exec_step_add(ls: Expression, rs: Expression) -> (r: Expression)
    requires
        expr_wf(ls@),
        expr_wf(rs@),
    ensures
        r@ == step_add(ls@, rs@),
        expr_wf(r@),
{
    proof {
        crate::fraction::lemma_wf_unit_den(0);
    }
    let ln = as_number(&ls);
    let rn = as_number(&rs);
    if let Some(n) = ln {
        if n.num == 0 && n.den == 1 {
            return rs;
        }
    }
    if let Some(n) = rn {
        if n.num == 0 && n.den == 1 {
            return ls;
        }
    }
    let ghost lsv = ls@;
    let ghost rsv = rs@;
    let whole = mk_add(ls, rs);
    let mut terms: Vec<Expression> = Vec::new();
    flatten_into(whole, &mut terms);
    let ghost full = views_of(terms@);
    proof {
        assert(views_of(Seq::<Expression>::empty()) =~= Seq::<SExpr>::empty());
        assert(full == flatten_add(SExpr::Add(Box::new(lsv), Box::new(rsv))));
    }
    let mut sum = Fraction::zero();
    let mut vars: Vec<(String, Fraction)> = Vec::new();
    let mut complex: Vec<Expression> = Vec::new();
    proof {
        assert(pairs_of(vars@) =~= Seq::<(Seq<char>, Fraction)>::empty());
        assert(views_of(complex@) =~= Seq::<SExpr>::empty());
        assert(Collect { sum: sum, vars: pairs_of(vars@), complex: views_of(complex@) }
            == empty_collect());
    }
    while terms.len() > 0
        invariant
            frac_wf(sum),
            coeffs_wf(pairs_of(vars@)),
            all_wf(views_of(complex@)),
            all_wf(views_of(terms@)),
            collect_terms(
                Collect { sum: sum, vars: pairs_of(vars@), complex: views_of(complex@) },
                views_of(terms@),
            ) == collect_terms(empty_collect(), full),
        decreases terms@.len(),
    {
        let ghost pre_terms = views_of(terms@);
        let ghost st_pre = Collect {
            sum: sum,
            vars: pairs_of(vars@),
            complex: views_of(complex@),
        };
        let t = terms.remove(0);
        proof {
            assert(t@ == pre_terms[0]);
            assert(views_of(terms@) =~= pre_terms.skip(1));
            assert(collect_terms(st_pre, pre_terms) == collect_terms(
                classify_term(st_pre, pre_terms[0]),
                pre_terms.skip(1),
            ));
        }
        let ghost tv = t@;
        match t {
            Expression::Number(n) => {
                proof {
                    assert(tv == SExpr::Number(n));
                    assert(expr_wf(tv));
                    crate::fraction::lemma_frac_ops_wf(sum, n);
                }
                sum = sum.add(n);
            },
            Expression::Variable(v) => {
                proof {
                    assert(tv == SExpr::Variable(v@));
                    crate::fraction::lemma_wf_unit_den(1);
                }
                upsert_exec(&mut vars, &v, Fraction { num: 1, den: 1 });
            },
            Expression::Multiply(a, b) => {
                proof {
                    assert(tv == SExpr::Multiply(Box::new((*a)@), Box::new((*b)@)));
                }
                let ghost av = (*a)@;
                let ghost bv = (*b)@;
                match (*a, *b) {
                    (Expression::Number(n), Expression::Variable(v)) => {
                        proof {
                            assert(av == SExpr::Number(n) && bv == SExpr::Variable(v@));
                            assert(expr_wf(av));
                        }
                        upsert_exec(&mut vars, &v, n);
                    },
                    (Expression::Variable(v), Expression::Number(n)) => {
                        proof {
                            assert(av == SExpr::Variable(v@) && bv == SExpr::Number(n));
                            assert(expr_wf(bv));
                        }
                        upsert_exec(&mut vars, &v, n);
                    },
                    (aa, bb) => {
                        proof {
                            assert(aa@ == av && bb@ == bv);
                        }
                        let rebuilt = mk_mul(aa, bb);
                        proof {
                            assert(rebuilt@ == tv);
                        }
                        complex.push(rebuilt);
                        proof {
                            assert(views_of(complex@) =~= st_pre.complex + seq![tv]);
                        }
                    },
                }
            },
            other => {
                proof {
                    assert(other@ == tv);
                }
                complex.push(other);
                proof {
                    assert(views_of(complex@) =~= st_pre.complex + seq![tv]);
                }
            },
        }
    }
    proof {
        assert(views_of(terms@) =~= Seq::<SExpr>::empty());
    }
    let ghost st = Collect { sum: sum, vars: pairs_of(vars@), complex: views_of(complex@) };
    proof {
        assert(st == collect_terms(empty_collect(), full));
    }
    let mut acc: Option<Expression> = Option::None;
    while complex.len() > 0
        invariant
            opt_wf(opt_view(acc)),
            all_wf(views_of(complex@)),
            rebuild_complex(opt_view(acc), views_of(complex@)) == rebuild_complex(
                Option::None,
                st.complex,
            ),
        decreases complex@.len(),
    {
        let ghost pre = views_of(complex@);
        let ghost acc_pre = opt_view(acc);
        let t = complex.remove(0);
        proof {
            assert(t@ == pre[0]);
            assert(views_of(complex@) =~= pre.skip(1));
            assert(rebuild_complex(acc_pre, pre) == rebuild_complex(
                rebuild_join(acc_pre, pre[0]),
                pre.skip(1),
            ));
        }
        acc = join_opt(acc, t);
    }
    proof {
        assert(views_of(complex@) =~= Seq::<SExpr>::empty());
    }
    let ghost cacc = opt_view(acc);
    proof {
        assert(cacc == rebuild_complex(Option::None, st.complex));
    }
    while vars.len() > 0
        invariant
            opt_wf(opt_view(acc)),
            coeffs_wf(pairs_of(vars@)),
            rebuild_vars(opt_view(acc), pairs_of(vars@)) == rebuild_vars(cacc, st.vars),
        decreases vars@.len(),
    {
        let ghost pre = pairs_of(vars@);
        let ghost acc_pre = opt_view(acc);
        let pr = vars.remove(0);
        proof {
            assert((pr.0@, pr.1) == pre[0]);
            assert(pairs_of(vars@) =~= pre.skip(1));
        }
        let c = pr.1;
        if c.num == 0 && c.den == 1 {
        } else if c.num == 1 && c.den == 1 {
            acc = join_opt(acc, mk_var(pr.0));
        } else {
            proof {
                assert(frac_wf(c));
            }
            acc = join_opt(acc, mk_mul(mk_num(c), mk_var(pr.0)));
        }
    }
    proof {
        assert(pairs_of(vars@) =~= Seq::<(Seq<char>, Fraction)>::empty());
        assert(opt_view(acc) == rebuild_vars(cacc, st.vars));
    }
    let append_const = !(sum.num == 0 && sum.den == 1) || acc.is_none();
    let out = if append_const {
        match join_opt(acc, mk_num(sum)) {
            Option::Some(e) => e,
            Option::None => mk_num(sum),
        }
    } else {
        match acc {
            Option::Some(e) => e,
            Option::None => mk_num(sum),
        }
    };
    proof {
        assert(out@ == rebuild_all(st));
    }
    out
}

/// The numeric value of a tree that is a number leaf.
fn as_number(e: &Expression) -> (r: Option<Fraction>)
    ensures
        match r {
            Some(f) => e@ == SExpr::Number(f),
            None => !(e@ is Number),
        },
{
    match e {
        Expression::Number(f) => Some(*f),
        _ => None,
    }
}

/// Apply the multiplication rules to stepped children.
fn exec_step_multiply(ls: Expression, rs: Expression) -> (r: Expression)
    requires
        expr_wf(ls@),
        expr_wf(rs@),
    ensures
        r@ == step_multiply(ls@, rs@),
        expr_wf(r@),
{
    proof {
        crate::fraction::lemma_wf_unit_den(0);
    }
    let ln = as_number(&ls);
    let rn = as_number(&rs);
    let ghost lsv = ls@;
    let ghost rsv = rs@;
    match (ln, rn) {
        (Some(n1), Some(n2)) => mk_num(n1.mul(n2)),
        (None, Some(n)) => {
            if n.num == 1 && n.den == 1 {
                ls
            } else if n.num == 0 && n.den == 1 {
                mk_num(Fraction { num: 0, den: 1 })
            } else {
                match ls {
                    Expression::Multiply(a, b) => {
                        proof {
                            assert(lsv == SExpr::Multiply(Box::new((*a)@), Box::new((*b)@)));
                        }
                        let ghost av = (*a)@;
                        match *a {
                            Expression::Number(n1) => {
                                proof {
                                    assert(av == SExpr::Number(n1));
                                    assert(expr_wf(av));
                                }
                                mk_mul(mk_num(n1.mul(n)), *b)
                            },
                            aa => {
                                proof {
                                    assert(aa@ == av);
                                }
                                mk_mul(mk_mul(aa, *b), rs)
                            },
                        }
                    },
                    o2 => {
                        proof {
                            assert(o2@ == lsv);
                        }
                        mk_mul(o2, rs)
                    },
                }
            }
        },
        (Some(n), None) => {
            if n.num == 1 && n.den == 1 {
                rs
            } else if n.num == 0 && n.den == 1 {
                mk_num(Fraction { num: 0, den: 1 })
            } else {
                match rs {
                    Expression::Multiply(a, b) => {
                        proof {
                            assert(rsv == SExpr::Multiply(Box::new((*a)@), Box::new((*b)@)));
                        }
                        let ghost av = (*a)@;
                        match *a {
                            Expression::Number(n2) => {
                                proof {
                                    assert(av == SExpr::Number(n2));
                                    assert(expr_wf(av));
                                }
                                mk_mul(mk_num(n.mul(n2)), *b)
                            },
                            aa => {
                                proof {
                                    assert(aa@ == av);
                                }
                                mk_mul(ls, mk_mul(aa, *b))
                            },
                        }
                    },
                    o2 => {
                        proof {
                            assert(o2@ == rsv);
                        }
                        mk_mul(ls, o2)
                    },
                }
            }
        },
        (None, None) => mk_mul(ls, rs),
    }
}

/// Apply the division rules to stepped children.
fn exec_step_divide(ls: Expression, rs: Expression) -> (r: Expression)
    requires
        expr_wf(ls@),
        expr_wf(rs@),
    ensures
        r@ == step_divide(ls@, rs@),
        expr_wf(r@),
{
    proof {
        crate::fraction::lemma_wf_unit_den(0);
    }
    let ln = as_number(&ls);
    let rn = as_number(&rs);
    let ghost lsv = ls@;
    match (ln, rn) {
        (_, Some(n)) => {
            if n.num == 0 && n.den == 1 {
                mk_err("division by zero".to_owned())
            } else {
                match ls {
                    Expression::Number(n1) => {
                        proof {
                            assert(lsv == SExpr::Number(n1));
                            assert(expr_wf(lsv));
                        }
                        mk_num(n1.div(n))
                    },
                    other => {
                        proof {
                            assert(other@ == lsv);
                        }
                        let inv = crate::fraction::reduce_i128(n.den as i128, n.num as i128);
                        proof {
                            crate::fraction::lemma_reduce_wf(n.den as int, n.num as int);
                        }
                        mk_mul(mk_num(inv), other)
                    },
                }
            }
        },
        (Some(n), None) => {
            if n.num == 0 && n.den == 1 {
                mk_num(Fraction { num: 0, den: 1 })
            } else {
                mk_div(ls, rs)
            }
        },
        (None, None) => mk_div(ls, rs),
    }
}

impl Expression {
    /// One simplification pass: children first, then this node's rules.
    fn simplify_step(&self) -> (r: Expression)
        requires
            expr_wf(self@),
        ensures
            r@ == spec_step(self@),
            expr_wf(r@),
        decreases *self,
    {
        match self {
            Expression::Add(l, r) => {
                let ls = l.simplify_step();
                let rs = r.simplify_step();
                exec_step_add(ls, rs)
            },
            Expression::Multiply(l, r) => {
                let ls = l.simplify_step();
                let rs = r.simplify_step();
                exec_step_multiply(ls, rs)
            },
            Expression::Divide(l, r) => {
                let ls = l.simplify_step();
                let rs = r.simplify_step();
                exec_step_divide(ls, rs)
            },
            Expression::Power(l, r) => {
                let ls = l.simplify_step();
                let rs = r.simplify_step();
                exec_step_power(ls, rs)
            },
            Expression::Number(f) => mk_num(*f),
            Expression::Variable(v) => mk_var(v.clone()),
            Expression::Error(m) => mk_err(m.clone()),
        }
    }

    /// The capped tree size that seeds the pass budget.
    fn csize_exec(&self) -> (r: u64)
        ensures
            r == csize(self@),
            r <= 0xffff_ffff,
        decreases *self,
    {
        match self {
            Expression::Add(l, r) => sat_node(l.csize_exec(), r.csize_exec()),
            Expression::Multiply(l, r) => sat_node(l.csize_exec(), r.csize_exec()),
            Expression::Divide(l, r) => sat_node(l.csize_exec(), r.csize_exec()),
            Expression::Power(l, r) => sat_node(l.csize_exec(), r.csize_exec()),
            _ => 1,
        }
    }

    /// Repeat the simplification pass until a fixed point, within the
    /// pass budget of the input.
    pub fn simplify(self) -> (r: Expression)
        requires
            expr_wf(self@),
        ensures
            r@ == spec_simplify(self@),
            expr_wf(r@),
    {
        let ghost orig = self@;
        let size = self.csize_exec();
        proof {
            assert(size * size + 16 < 0xffff_ffff_ffff_ffff) by (nonlinear_arith)
                requires
                    0 <= size <= 0xffff_ffff,
            ;
        }
        let mut fuel: u64 = size * size + 16;
        let mut current = self;
        proof {
            assert(fuel as nat == pass_budget(orig));
            assert(iter_steps(current@, fuel as nat) == spec_simplify(orig));
        }
        while fuel > 0
            invariant
                orig == self@,
                expr_wf(current@),
                iter_steps(current@, fuel as nat) == spec_simplify(orig),
            decreases fuel,
        {
            let next = current.simplify_step();
            if crate::ast::eq_expr(&next, &current) {
                proof {
                    assert(iter_steps(current@, fuel as nat) == current@);
                }
                return current;
            }
            current = next;
            fuel = fuel - 1;
        }
        current
    }
}

/// Combine child sizes into a capped node size.
fn sat_node(a: u64, b: u64) -> (r: u64)
    requires
        a <= 0xffff_ffff,
        b <= 0xffff_ffff,
    ensures
        r == sat_add(a as nat, b as nat),
        r <= 0xffff_ffff,
{
    let s = 1 + a + b;
    if s > 0xffff_ffff {
        0xffff_ffff
    } else {
        s
    }
}

/// Whether iterating the pass on `e` settles on a true fixed point
/// within the pass budget.
pub open spec fn converged(e: SExpr) -> bool {
    spec_step(spec_simplify(e)) == spec_simplify(e)
}

/// Simplification is idempotent: simplifying an already simplified tree
/// changes nothing, whenever the first simplification settled on a fixed
/// point of the pass.
pub proof fn lemma_simplify_idempotent(e: SExpr)
    requires
        converged(e),
    ensures
        spec_simplify(spec_simplify(e)) == spec_simplify(e),
{
    let r = spec_simplify(e);
    assert(pass_budget(r) >= 16);
    assert(iter_steps(r, pass_budget(r)) == r);
}

/// A reached fixed point simplifies to itself.
pub proof fn lemma_fixpoint_simplifies_to_self(e: SExpr)
    requires
        spec_step(e) == e,
    ensures
        spec_simplify(e) == e,
{
    assert(pass_budget(e) >= 16);
}

/// Apply the power rules to stepped children.
fn exec_step_power(ls: Expression, rs: Expression) -> (r: Expression)
    requires
        expr_wf(ls@),
        expr_wf(rs@),
    ensures
        r@ == step_power(ls@, rs@),
        expr_wf(r@),
{
    proof {
        crate::fraction::lemma_wf_unit_den(0);
        crate::fraction::lemma_wf_unit_den(1);
    }
    let ln = as_number(&ls);
    let rn = as_number(&rs);
    match (ln, rn) {
        (Some(base), Some(exp)) => {
            if exp.den == 1 && exp.num >= -10 && exp.num <= 10 {
                mk_num(base.pow(exp.num as i32))
            } else if exp.num >= -10 && exp.num <= 10 && exp.den > 1 && exp.den <= 10 {
                let ra = crate::fraction::exact_nth_root(base.num, exp.den as i32);
                let rb = crate::fraction::exact_nth_root(base.den, exp.den as i32);
                match (ra, rb) {
                    (Some(a), Some(b)) => {
                        proof {
                            crate::fraction::lemma_exact_nth_root_canonical(
                                base.num as int,
                                (exp.den as i32) as nat,
                            );
                            crate::fraction::lemma_exact_nth_root_canonical(
                                base.den as int,
                                (exp.den as i32) as nat,
                            );
                            assert(spec_nth_root(base.num as int, exp.den as nat) == Some(
                                a as int,
                            ));
                            assert(spec_nth_root(base.den as int, exp.den as nat) == Some(
                                b as int,
                            ));
                        }
                        let root = crate::fraction::reduce_i128(a as i128, b as i128);
                        proof {
                            crate::fraction::lemma_reduce_wf(a as int, b as int);
                        }
                        mk_num(root.pow(exp.num as i32))
                    },
                    _ => mk_pow(ls, rs),
                }
            } else {
                mk_pow(ls, rs)
            }
        },
        (None, Some(n)) => {
            if n.num == 0 && n.den == 1 {
                mk_num(Fraction { num: 1, den: 1 })
            } else if n.num == 1 && n.den == 1 {
                ls
            } else {
                mk_pow(ls, rs)
            }
        },
        (Some(n), None) => {
            if n.num == 0 && n.den == 1 {
                mk_num(Fraction { num: 0, den: 1 })
            } else {
                mk_pow(ls, rs)
            }
        },
        (None, None) => mk_pow(ls, rs),
    }
}

} // verus!
