//! The expression tree and its mathematical model.
//!
//! An expression is a closed set of variants owning their children
//! exclusively. There is no subtract node: `a - b` is always represented as
//! `Add(a, Multiply(Number(-1), b))`, so that every additive chain can be
//! flattened and collected with a single pattern. A failed computation is an
//! ordinary `Error` leaf that propagates through further transforms.

use vstd::prelude::*;
use crate::fraction::{frac_wf, Fraction};

verus! {

/// The expression tree.
#[derive(Debug)]
pub enum Expression {
    Number(Fraction),
    Variable(String),
    Add(Box<Expression>, Box<Expression>),
    Multiply(Box<Expression>, Box<Expression>),
    Divide(Box<Expression>, Box<Expression>),
    Power(Box<Expression>, Box<Expression>),
    Error(String),
}

/// The mathematical model of an expression tree: the same shape over
/// sequences of characters.
pub enum SExpr {
    Number(Fraction),
    Variable(Seq<char>),
    Add(Box<SExpr>, Box<SExpr>),
    Multiply(Box<SExpr>, Box<SExpr>),
    Divide(Box<SExpr>, Box<SExpr>),
    Power(Box<SExpr>, Box<SExpr>),
    Error(Seq<char>),
}

/// Number of nodes in a model tree.
pub open spec fn esize(e: SExpr) -> nat
    decreases e,
{
    match e {
        SExpr::Add(l, r) => 1 + esize(*l) + esize(*r),
        SExpr::Multiply(l, r) => 1 + esize(*l) + esize(*r),
        SExpr::Divide(l, r) => 1 + esize(*l) + esize(*r),
        SExpr::Power(l, r) => 1 + esize(*l) + esize(*r),
        _ => 1,
    }
}

impl View for Expression {
    type V = SExpr;

    open spec fn view(&self) -> SExpr
        decreases self,
    {
        match self {
            Expression::Number(f) => SExpr::Number(*f),
            Expression::Variable(v) => SExpr::Variable(v@),
            Expression::Add(l, r) => SExpr::Add(Box::new((**l).view()), Box::new((**r).view())),
            Expression::Multiply(l, r) => SExpr::Multiply(
                Box::new((**l).view()),
                Box::new((**r).view()),
            ),
            Expression::Divide(l, r) => SExpr::Divide(
                Box::new((**l).view()),
                Box::new((**r).view()),
            ),
            Expression::Power(l, r) => SExpr::Power(
                Box::new((**l).view()),
                Box::new((**r).view()),
            ),
            Expression::Error(m) => SExpr::Error(m@),
        }
    }
}

impl Expression {
    /// A structurally equal copy of the tree.
    pub fn deep_clone(&self) -> (r: Expression)
        ensures
            r@ == self@,
        decreases *self,
    {
        match self {
            Expression::Number(f) => Expression::Number(*f),
            Expression::Variable(v) => Expression::Variable(v.clone()),
            Expression::Add(l, r) => Expression::Add(
                Box::new(l.deep_clone()),
                Box::new(r.deep_clone()),
            ),
            Expression::Multiply(l, r) => Expression::Multiply(
                Box::new(l.deep_clone()),
                Box::new(r.deep_clone()),
            ),
            Expression::Divide(l, r) => Expression::Divide(
                Box::new(l.deep_clone()),
                Box::new(r.deep_clone()),
            ),
            Expression::Power(l, r) => Expression::Power(
                Box::new(l.deep_clone()),
                Box::new(r.deep_clone()),
            ),
            Expression::Error(m) => Expression::Error(m.clone()),
        }
    }
}

/// All numeric leaves of a model tree are well-formed fractions.
pub open spec fn expr_wf(e: SExpr) -> bool
    decreases e,
{
    match e {
        SExpr::Number(f) => frac_wf(f),
        SExpr::Add(l, r) => expr_wf(*l) && expr_wf(*r),
        SExpr::Multiply(l, r) => expr_wf(*l) && expr_wf(*r),
        SExpr::Divide(l, r) => expr_wf(*l) && expr_wf(*r),
        SExpr::Power(l, r) => expr_wf(*l) && expr_wf(*r),
        _ => true,
    }
}

/// Build a number leaf.
pub fn mk_num(f: Fraction) -> (o: Expression)
    ensures
        o@ == SExpr::Number(f),
        frac_wf(f) ==> expr_wf(o@),
{
    Expression::Number(f)
}

/// Build a variable leaf.
pub fn mk_var(v: String) -> (o: Expression)
    ensures
        o@ == SExpr::Variable(v@),
        expr_wf(o@),
{
    Expression::Variable(v)
}

/// Build an error leaf.
pub fn mk_err(m: String) -> (o: Expression)
    ensures
        o@ == SExpr::Error(m@),
        expr_wf(o@),
{
    Expression::Error(m)
}

/// Build an addition node.
pub fn mk_add(l: Expression, r: Expression) -> (o: Expression)
    ensures
        o@ == SExpr::Add(Box::new(l@), Box::new(r@)),
        expr_wf(l@) && expr_wf(r@) ==> expr_wf(o@),
{
    Expression::Add(Box::new(l), Box::new(r))
}

/// Build a multiplication node.
pub fn mk_mul(l: Expression, r: Expression) -> (o: Expression)
    ensures
        o@ == SExpr::Multiply(Box::new(l@), Box::new(r@)),
        expr_wf(l@) && expr_wf(r@) ==> expr_wf(o@),
{
    Expression::Multiply(Box::new(l), Box::new(r))
}

/// Build a division node.
pub fn mk_div(l: Expression, r: Expression) -> (o: Expression)
    ensures
        o@ == SExpr::Divide(Box::new(l@), Box::new(r@)),
        expr_wf(l@) && expr_wf(r@) ==> expr_wf(o@),
{
    Expression::Divide(Box::new(l), Box::new(r))
}

/// Build a power node.
pub fn mk_pow(l: Expression, r: Expression) -> (o: Expression)
    ensures
        o@ == SExpr::Power(Box::new(l@), Box::new(r@)),
        expr_wf(l@) && expr_wf(r@) ==> expr_wf(o@),
{
    Expression::Power(Box::new(l), Box::new(r))
}

/// Whether the tree is an error leaf.
pub fn is_error(e: &Expression) -> (r: bool)
    ensures
        r <==> e@ is Error,
{
    match e {
        Expression::Error(_) => true,
        _ => false,
    }
}

/// Structural equality of two trees, decided over their models.
pub fn eq_expr(a: &Expression, b: &Expression) -> (r: bool)
    ensures
        r <==> a@ == b@,
    decreases *a,
{
    match (a, b) {
        (Expression::Number(f1), Expression::Number(f2)) => {
            proof {
                assert(a@ == SExpr::Number(*f1));
                assert(b@ == SExpr::Number(*f2));
            }
            *f1 == *f2
        },
        (Expression::Variable(v1), Expression::Variable(v2)) => {
            proof {
                assert(a@ == SExpr::Variable(v1@));
                assert(b@ == SExpr::Variable(v2@));
            }
            *v1 == *v2
        },
        (Expression::Add(l1, r1), Expression::Add(l2, r2)) => {
            let el = eq_expr(l1, l2);
            let er = eq_expr(r1, r2);
            el && er
        },
        (Expression::Multiply(l1, r1), Expression::Multiply(l2, r2)) => {
            let el = eq_expr(l1, l2);
            let er = eq_expr(r1, r2);
            el && er
        },
        (Expression::Divide(l1, r1), Expression::Divide(l2, r2)) => {
            let el = eq_expr(l1, l2);
            let er = eq_expr(r1, r2);
            el && er
        },
        (Expression::Power(l1, r1), Expression::Power(l2, r2)) => {
            let el = eq_expr(l1, l2);
            let er = eq_expr(r1, r2);
            el && er
        },
        (Expression::Error(m1), Expression::Error(m2)) => *m1 == *m2,
        _ => false,
    }
}

/// Lexicographic order on character sequences, by code point.
pub open spec fn lex_lt(a: Seq<char>, b: Seq<char>) -> bool
    decreases a.len(),
{
    if b.len() == 0 {
        false
    } else if a.len() == 0 {
        true
    } else if a[0] != b[0] {
        (a[0] as u32) < (b[0] as u32)
    } else {
        lex_lt(a.skip(1), b.skip(1))
    }
}

/// Whether the model tree mentions the variable `v`.
pub open spec fn spec_contains_var(e: SExpr, v: Seq<char>) -> bool
    decreases e,
{
    match e {
        SExpr::Variable(name) => name == v,
        SExpr::Add(l, r) => spec_contains_var(*l, v) || spec_contains_var(*r, v),
        SExpr::Multiply(l, r) => spec_contains_var(*l, v) || spec_contains_var(*r, v),
        SExpr::Divide(l, r) => spec_contains_var(*l, v) || spec_contains_var(*r, v),
        SExpr::Power(l, r) => spec_contains_var(*l, v) || spec_contains_var(*r, v),
        _ => false,
    }
}

/// Insert a name into an ordered list of names, keeping it ordered and
/// without duplicates.
pub open spec fn spec_insert_name(s: Seq<Seq<char>>, v: Seq<char>) -> Seq<Seq<char>>
    decreases s.len(),
{
    if s.len() == 0 {
        seq![v]
    } else if lex_lt(s[0], v) {
        seq![s[0]] + spec_insert_name(s.skip(1), v)
    } else if s[0] == v {
        s
    } else {
        seq![v] + s
    }
}

/// The variable names of a model tree, in ascending order without
/// duplicates: a left-to-right walk folded through ordered insertion.
pub open spec fn svars_into(e: SExpr, acc: Seq<Seq<char>>) -> Seq<Seq<char>>
    decreases e,
{
    match e {
        SExpr::Variable(name) => spec_insert_name(acc, name),
        SExpr::Add(l, r) => svars_into(*r, svars_into(*l, acc)),
        SExpr::Multiply(l, r) => svars_into(*r, svars_into(*l, acc)),
        SExpr::Divide(l, r) => svars_into(*r, svars_into(*l, acc)),
        SExpr::Power(l, r) => svars_into(*r, svars_into(*l, acc)),
        _ => acc,
    }
}

/// The variable names of a model tree, ascending, without duplicates.
pub open spec fn svars(e: SExpr) -> Seq<Seq<char>> {
    svars_into(e, Seq::empty())
}

/// The views of a vector of strings.
pub open spec fn names_of(s: Seq<String>) -> Seq<Seq<char>> {
    s.map_values(|x: String| x@)
}

/// Lexicographic comparison of two strings.
pub fn str_lt(a: &str, b: &str) -> (r: bool)
    ensures
        r == lex_lt(a@, b@),
{
    let alen = a.unicode_len();
    let blen = b.unicode_len();
    let mut i: usize = 0;
    proof {
        assert(a@.skip(0) =~= a@);
        assert(b@.skip(0) =~= b@);
    }
    loop
        invariant
            i <= alen,
            i <= blen,
            alen == a@.len(),
            blen == b@.len(),
            lex_lt(a@, b@) == lex_lt(a@.skip(i as int), b@.skip(i as int)),
        decreases alen - i,
    {
        if i >= blen {
            return false;
        }
        if i >= alen {
            return true;
        }
        let ca = a.get_char(i);
        let cb = b.get_char(i);
        if ca != cb {
            return (ca as u32) < (cb as u32);
        }
        proof {
            assert(a@.skip(i as int).skip(1) =~= a@.skip(i + 1));
            assert(b@.skip(i as int).skip(1) =~= b@.skip(i + 1));
        }
        i = i + 1;
    }
}

/// Equality of two string slices, decided over their views.
pub fn str_eq_str(a: &str, b: &str) -> (r: bool)
    ensures
        r <==> a@ == b@,
{
    let alen = a.unicode_len();
    let blen = b.unicode_len();
    if alen != blen {
        return false;
    }
    let mut i: usize = 0;
    while i < alen
        invariant
            i <= alen,
            alen == a@.len(),
            alen == b@.len(),
            forall|j: int| 0 <= j < i ==> a@[j] == b@[j],
        decreases alen - i,
    {
        if a.get_char(i) != b.get_char(i) {
            return false;
        }
        i = i + 1;
    }
    proof {
        assert(a@ =~= b@);
    }
    true
}

impl Expression {
    /// Whether the tree mentions the variable `var_name`.
    pub fn contains_variable(&self, var_name: &str) -> (r: bool)
        ensures
            r == spec_contains_var(self@, var_name@),
        decreases *self,
    {
        match self {
            Expression::Variable(v) => str_eq_str(v.as_str(), var_name),
            Expression::Add(l, r) => l.contains_variable(var_name) || r.contains_variable(
                var_name,
            ),
            Expression::Multiply(l, r) => l.contains_variable(var_name) || r.contains_variable(
                var_name,
            ),
            Expression::Divide(l, r) => l.contains_variable(var_name) || r.contains_variable(
                var_name,
            ),
            Expression::Power(l, r) => l.contains_variable(var_name) || r.contains_variable(
                var_name,
            ),
            _ => false,
        }
    }

    /// All variable names of the tree, in ascending order, each once.
    pub fn get_variables(&self) -> (r: Vec<String>)
        ensures
            names_of(r@) == svars(self@),
    {
        let mut vars: Vec<String> = Vec::new();
        proof {
            assert(names_of(vars@) =~= Seq::<Seq<char>>::empty());
        }
        self.collect_variables(&mut vars);
        vars
    }

    fn collect_variables(&self, vars: &mut Vec<String>)
        ensures
            names_of(final(vars)@) == svars_into(self@, names_of(old(vars)@)),
        decreases *self,
    {
        match self {
            Expression::Variable(v) => {
                insert_sorted_name(vars, v);
            },
            Expression::Add(l, r) => {
                l.collect_variables(vars);
                r.collect_variables(vars);
            },
            Expression::Multiply(l, r) => {
                l.collect_variables(vars);
                r.collect_variables(vars);
            },
            Expression::Divide(l, r) => {
                l.collect_variables(vars);
                r.collect_variables(vars);
            },
            Expression::Power(l, r) => {
                l.collect_variables(vars);
                r.collect_variables(vars);
            },
            _ => {},
        }
    }
}

/// Splitting an ordered insertion at a scanned prefix that is below `v`.
proof fn lemma_insert_name_skip(s: Seq<Seq<char>>, v: Seq<char>, i: int)
    requires
        0 <= i <= s.len(),
        forall|j: int| 0 <= j < i ==> lex_lt(#[trigger] s[j], v),
    ensures
        spec_insert_name(s, v) == s.take(i) + spec_insert_name(s.skip(i), v),
    decreases i,
{
    if i == 0 {
        assert(s.take(0) + spec_insert_name(s.skip(0), v) =~= spec_insert_name(s, v)) by {
            assert(s.skip(0) =~= s);
        }
    } else {
        lemma_insert_name_skip(s.skip(1), v, i - 1);
        assert(s.skip(1).skip(i - 1) =~= s.skip(i));
        assert(seq![s[0]] + (s.skip(1).take(i - 1) + spec_insert_name(s.skip(i), v)) =~= s.take(i)
            + spec_insert_name(s.skip(i), v)) by {
            assert(s.skip(1).take(i - 1) =~= s.take(i).skip(1));
        }
    }
}

/// Insert a name into an ordered vector of names, keeping it ordered and
/// without duplicates.
fn insert_sorted_name(vars: &mut Vec<String>, name: &String)
    ensures
        names_of(final(vars)@) == spec_insert_name(names_of(old(vars)@), name@),
{
    let ghost s = names_of(vars@);
    let mut i: usize = 0;
    while i < vars.len() && str_lt(vars[i].as_str(), name.as_str())
        invariant
            0 <= i <= vars@.len(),
            vars@ == old(vars)@,
            s == names_of(vars@),
            forall|j: int| 0 <= j < i ==> lex_lt(#[trigger] s[j], name@),
        decreases vars@.len() - i,
    {
        i = i + 1;
    }
    proof {
        lemma_insert_name_skip(s, name@, i as int);
    }
    if i < vars.len() && str_eq_str(vars[i].as_str(), name.as_str()) {
        proof {
            assert(s.skip(i as int)[0] == name@);
            assert(s.take(i as int) + s.skip(i as int) =~= s);
        }
        return ;
    }
    vars.insert(i, name.clone());
    proof {
        if i < s.len() {
            assert(!lex_lt(s[i as int], name@));
            assert(s.skip(i as int)[0] == s[i as int]);
            assert(spec_insert_name(s.skip(i as int), name@) == seq![name@] + s.skip(i as int));
        } else {
            assert(s.skip(i as int) =~= Seq::<Seq<char>>::empty());
        }
        assert(names_of(vars@) =~= s.take(i as int) + spec_insert_name(s.skip(i as int), name@));
    }
}

} // verus!
