//! Church numerals under the reducer: adding two numerals with the usual
//! `plus = λm n f x. m f (n f x)` normalizes to the numeral of the sum.
use vstd::prelude::*;
use crate::symbol_table::{church, church_body};
use crate::term::{
    Term, beta_ok, beta_term, closed_under, indices_valid, is_closed, is_normal,
    lemma_closed_mono, lemma_shift_closed, lemma_step_unchanged, normalize_within, shift_ok,
    shift_term, strong_step, subst_ok, subst_term, weak_step,
};

verus! {

/// `f` applied `n` times to `x`.
pub open spec fn iterate(f: Term, n: nat, x: Term) -> Term
    decreases n,
{
    if n == 0 {
        x
    } else {
        Term::Eval(Box::new(f), Box::new(iterate(f, (n - 1) as nat, x)))
    }
}

pub open spec fn var(i: u64) -> Term {
    Term::Variable(i)
}

pub open spec fn lam(b: Term) -> Term {
    Term::Lambda(Box::new(b))
}

pub open spec fn app(l: Term, r: Term) -> Term {
    Term::Eval(Box::new(l), Box::new(r))
}

/// `λm n f x. m f (n f x)`.
pub open spec fn plus_term() -> Term {
    lam(lam(lam(lam(app(app(var(4), var(2)), app(app(var(3), var(2)), var(1)))))))
}

proof fn lemma_church_body_iterate(n: nat)
    ensures
        church_body(n) == iterate(var(2), n, var(1)),
    decreases n,
{
    if n > 0 {
        lemma_church_body_iterate((n - 1) as nat);
    }
}

proof fn lemma_iterate_add(a: nat, b: nat, f: Term, x: Term)
    ensures
        iterate(f, a, iterate(f, b, x)) == iterate(f, a + b, x),
    decreases a,
{
    if a > 0 {
        lemma_iterate_add((a - 1) as nat, b, f, x);
        assert((a + b - 1) as nat == (a - 1) as nat + b);
    }
}

proof fn lemma_shift_iterate(f: Term, n: nat, x: Term, c: int, o: int)
    requires
        shift_ok(f, c, o),
    ensures
        shift_ok(iterate(f, n, x), c, o) == shift_ok(x, c, o),
        shift_term(iterate(f, n, x), c, o) == iterate(shift_term(f, c, o), n, shift_term(x, c, o)),
    decreases n,
{
    if n > 0 {
        lemma_shift_iterate(f, (n - 1) as nat, x, c, o);
    }
}

proof fn lemma_subst_iterate(f: Term, n: nat, x: Term, t: int, arg: Term)
    requires
        subst_ok(f, t, arg),
    ensures
        subst_ok(iterate(f, n, x), t, arg) == subst_ok(x, t, arg),
        subst_term(iterate(f, n, x), t, arg) == iterate(subst_term(f, t, arg), n, subst_term(x, t, arg)),
    decreases n,
{
    if n > 0 {
        lemma_subst_iterate(f, (n - 1) as nat, x, t, arg);
    }
}

/// A strong pass over `f (f (... x))` with `f` a variable works on `x` alone.
proof fn lemma_strong_iterate(k: u64, n: nat, x: Term)
    ensures
        strong_step(iterate(var(k), n, x)) == match strong_step(x) {
            None => None,
            Some((x2, c)) => Some((iterate(var(k), n, x2), c)),
        },
    decreases n,
{
    if n > 0 {
        lemma_strong_iterate(k, (n - 1) as nat, x);
        let t = iterate(var(k), n, x);
        assert(weak_step(var(k)) == Some((var(k), false)));
        assert(strong_step(t) == weak_step(t));
    }
}

proof fn lemma_iterate_normal(n: nat)
    ensures
        is_normal(iterate(var(2), n, var(1))),
    decreases n,
{
    if n > 0 {
        lemma_iterate_normal((n - 1) as nat);
        let rest = iterate(var(2), (n - 1) as nat, var(1));
        assert(iterate(var(2), n, var(1)) == app(var(2), rest));
        assert(is_normal(var(2)));
        assert(is_normal(app(var(2), rest)));
    } else {
        assert(iterate(var(2), n, var(1)) == var(1));
        assert(is_normal(var(1)));
    }
}

proof fn lemma_church_closed(n: nat)
    ensures
        is_closed(church(n)),
        indices_valid(church(n)),
{
    lemma_church_body_iterate(n);
    lemma_iterate_closed(n);
    let body = church_body(n);
    assert(church(n) == lam(lam(body)));
    assert(closed_under(lam(body), 2));
    assert(closed_under(lam(lam(body)), 1));
    assert(indices_valid(lam(body)));
    assert(indices_valid(lam(lam(body))));
}

proof fn lemma_iterate_closed(n: nat)
    ensures
        closed_under(iterate(var(2), n, var(1)), 3),
        indices_valid(iterate(var(2), n, var(1))),
    decreases n,
{
    if n > 0 {
        lemma_iterate_closed((n - 1) as nat);
        let rest = iterate(var(2), (n - 1) as nat, var(1));
        assert(iterate(var(2), n, var(1)) == app(var(2), rest));
        assert(closed_under(var(2), 3) && indices_valid(var(2)));
    } else {
        assert(iterate(var(2), n, var(1)) == var(1));
        assert(closed_under(var(1), 3) && indices_valid(var(1)));
    }
}

/// A closed term is left alone by every shift and every substitution.
proof fn lemma_closed_fixed(t: Term, c: int, o: int, target: int, arg: Term)
    requires
        is_closed(t),
        c >= 1,
        target >= 1,
    ensures
        shift_ok(t, c, o),
        shift_term(t, c, o) == t,
        subst_ok(t, target, arg),
        subst_term(t, target, arg) == t,
{
    lemma_closed_mono(t, 1, c);
    lemma_shift_closed(t, c, o);
    lemma_closed_mono(t, 1, target);
    lemma_closed_not_mentioned(t, target);
    crate::term::lemma_subst_absent(t, target, arg);
}

proof fn lemma_closed_not_mentioned(t: Term, target: int)
    requires
        closed_under(t, target),
    ensures
        !crate::term::mentions(t, target),
    decreases t,
{
    match t {
        Term::Variable(_) => {},
        Term::Lambda(b) => lemma_closed_not_mentioned(*b, target + 1),
        Term::Eval(l, r) => {
            lemma_closed_not_mentioned(*l, target);
            lemma_closed_not_mentioned(*r, target);
        },
    }
}

/// `(λ. f^n x) g` with `f` = 2, `x` = 1 (a numeral's body after its first
/// binder) applied to variable 2 gives `λ. 3^n 1`.
proof fn lemma_beta_numeral(n: nat)
    ensures
        beta_ok(lam(church_body(n)), var(2)),
        beta_term(lam(church_body(n)), var(2)) == lam(iterate(var(3), n, var(1))),
{
    lemma_church_body_iterate(n);
    reveal_with_fuel(shift_term, 2);
    reveal_with_fuel(shift_ok, 2);
    assert(shift_term(var(2), 1, 1) == var(3));
    lemma_subst_iterate(var(2), n, var(1), 2, var(3));
    assert(subst_term(var(2), 2, var(3)) == var(4));
    assert(subst_term(var(1), 2, var(3)) == var(1));
    assert(subst_term(lam(church_body(n)), 1, var(3)) == lam(iterate(var(4), n, var(1))));
    lemma_shift_iterate(var(4), n, var(1), 2, -1);
    assert(shift_term(var(4), 2, -1) == var(3));
    assert(shift_term(var(1), 2, -1) == var(1));
}

/// `(λ. 3^n 1) x` with `x` whose lifted form is `y` gives `2^n` applied to `x`
/// lowered again; stated for the two arguments the addition needs.
proof fn lemma_beta_iterate(n: nat, x: Term)
    requires
        indices_valid(x),
        shift_ok(x, 1, 1),
        shift_ok(shift_term(x, 1, 1), 1, -1),
        shift_term(shift_term(x, 1, 1), 1, -1) == x,
    ensures
        beta_ok(iterate(var(3), n, var(1)), x),
        beta_term(iterate(var(3), n, var(1)), x) == iterate(var(2), n, x),
{
    let lifted = shift_term(x, 1, 1);
    reveal_with_fuel(shift_term, 2);
    reveal_with_fuel(shift_ok, 2);
    lemma_valid_after_shift(x);
    crate::term::lemma_shift_zero(lifted, 1);
    lemma_subst_iterate(var(3), n, var(1), 1, lifted);
    assert(subst_term(var(3), 1, lifted) == var(3));
    assert(subst_term(var(1), 1, lifted) == lifted);
    lemma_shift_iterate(var(3), n, lifted, 1, -1);
    assert(shift_term(var(3), 1, -1) == var(2));
}

proof fn lemma_valid_after_shift(x: Term)
    requires
        indices_valid(x),
        shift_ok(x, 1, 1),
    ensures
        indices_valid(shift_term(x, 1, 1)),
{
    lemma_shift_keeps_valid(x, 1, 1);
}

proof fn lemma_shift_keeps_valid(x: Term, c: int, o: int)
    requires
        indices_valid(x),
        shift_ok(x, c, o),
    ensures
        indices_valid(shift_term(x, c, o)),
    decreases x,
{
    match x {
        Term::Variable(_) => {},
        Term::Lambda(b) => lemma_shift_keeps_valid(*b, c + 1, o),
        Term::Eval(l, r) => {
            lemma_shift_keeps_valid(*l, c, o);
            lemma_shift_keeps_valid(*r, c, o);
        },
    }
}

/// The first β-step: `plus A` with `A` closed.
proof fn lemma_plus_first(ca: Term)
    requires
        is_closed(ca),
    ensures
        beta_ok(
            lam(lam(lam(app(app(var(4), var(2)), app(app(var(3), var(2)), var(1)))))),
            ca,
        ),
        beta_term(lam(lam(lam(app(app(var(4), var(2)), app(app(var(3), var(2)), var(1)))))), ca)
            == lam(lam(lam(app(app(ca, var(2)), app(app(var(3), var(2)), var(1)))))),
{
    lemma_closed_fixed(ca, 1, 1, 1, ca);
    lemma_closed_fixed(ca, 1, 3, 4, ca);
    lemma_closed_fixed(ca, 4, -1, 4, ca);
    let right = app(app(var(3), var(2)), var(1));
    assert(shift_term(ca, 1, 1) == ca);
    assert(subst_term(var(4), 4, ca) == ca);
    assert(subst_ok(var(4), 4, ca));
    assert(subst_term(var(2), 4, ca) == var(2));
    assert(subst_term(var(3), 4, ca) == var(3));
    assert(subst_term(var(1), 4, ca) == var(1));
    assert(subst_ok(var(3), 4, ca) && subst_ok(var(2), 4, ca) && subst_ok(var(1), 4, ca));
    assert(subst_term(app(var(3), var(2)), 4, ca) == app(var(3), var(2)));
    assert(subst_term(right, 4, ca) == right);
    assert(subst_ok(app(var(3), var(2)), 4, ca));
    assert(subst_ok(right, 4, ca));
    assert(subst_ok(app(var(4), var(2)), 4, ca));
    let inner = app(app(var(4), var(2)), right);
    let replaced = app(app(ca, var(2)), right);
    assert(subst_term(app(var(4), var(2)), 4, ca) == app(ca, var(2)));
    assert(subst_term(inner, 4, ca) == replaced);
    assert(subst_ok(inner, 4, ca));
    assert(subst_term(lam(inner), 3, ca) == lam(replaced));
    assert(subst_term(lam(lam(inner)), 2, ca) == lam(lam(replaced)));
    assert(subst_term(lam(lam(lam(inner))), 1, ca) == lam(lam(lam(replaced))));
    assert(subst_ok(lam(inner), 3, ca));
    assert(subst_ok(lam(lam(inner)), 2, ca));
    assert(subst_ok(lam(lam(lam(inner))), 1, ca));
    assert(shift_term(var(3), 4, -1) == var(3));
    assert(shift_term(var(2), 4, -1) == var(2));
    assert(shift_term(var(1), 4, -1) == var(1));
    assert(shift_ok(var(3), 4, -1) && shift_ok(var(2), 4, -1) && shift_ok(var(1), 4, -1));
    assert(shift_ok(app(var(3), var(2)), 4, -1));
    assert(shift_ok(right, 4, -1));
    assert(shift_ok(app(ca, var(2)), 4, -1));
    assert(shift_term(app(var(3), var(2)), 4, -1) == app(var(3), var(2)));
    assert(shift_term(right, 4, -1) == right);
    assert(shift_term(app(ca, var(2)), 4, -1) == app(ca, var(2)));
    assert(shift_term(replaced, 4, -1) == replaced);
    assert(shift_ok(replaced, 4, -1));
    assert(shift_ok(lam(replaced), 3, -1));
    assert(shift_ok(lam(lam(replaced)), 2, -1));
    assert(shift_term(lam(replaced), 3, -1) == lam(replaced));
    assert(shift_term(lam(lam(replaced)), 2, -1) == lam(lam(replaced)));
    assert(shift_term(lam(lam(lam(replaced))), 1, -1) == lam(lam(lam(replaced))));
    assert(shift_ok(lam(lam(lam(replaced))), 1, -1));
}

/// The second β-step: `(λ λ λ. A 2 (3 2 1)) B` with `A`, `B` closed.
proof fn lemma_plus_second(ca: Term, cb: Term)
    requires
        is_closed(ca),
        is_closed(cb),
    ensures
        beta_ok(lam(lam(app(app(ca, var(2)), app(app(var(3), var(2)), var(1))))), cb),
        beta_term(lam(lam(app(app(ca, var(2)), app(app(var(3), var(2)), var(1))))), cb)
            == lam(lam(app(app(ca, var(2)), app(app(cb, var(2)), var(1))))),
{
    lemma_closed_fixed(cb, 1, 1, 1, cb);
    lemma_closed_fixed(cb, 1, 2, 3, cb);
    lemma_closed_fixed(cb, 3, -1, 3, cb);
    lemma_closed_fixed(ca, 3, -1, 3, cb);
    let left = app(ca, var(2));
    let right = app(app(var(3), var(2)), var(1));
    let right2 = app(app(cb, var(2)), var(1));
    assert(subst_term(var(3), 3, cb) == cb);
    assert(subst_term(var(2), 3, cb) == var(2));
    assert(subst_term(var(1), 3, cb) == var(1));
    assert(subst_ok(var(3), 3, cb) && subst_ok(var(2), 3, cb) && subst_ok(var(1), 3, cb));
    assert(subst_term(app(var(3), var(2)), 3, cb) == app(cb, var(2)));
    assert(subst_term(right, 3, cb) == right2);
    assert(subst_ok(app(var(3), var(2)), 3, cb));
    assert(subst_ok(right, 3, cb));
    assert(subst_term(left, 3, cb) == left);
    assert(subst_ok(left, 3, cb));
    assert(subst_term(app(left, right), 3, cb) == app(left, right2));
    assert(subst_term(lam(app(left, right)), 2, cb) == lam(app(left, right2)));
    assert(subst_term(lam(lam(app(left, right))), 1, cb) == lam(lam(app(left, right2))));
    assert(subst_ok(app(left, right), 3, cb));
    assert(subst_ok(lam(app(left, right)), 2, cb));
    assert(subst_ok(lam(lam(app(left, right))), 1, cb));
    assert(shift_term(var(2), 3, -1) == var(2));
    assert(shift_term(var(1), 3, -1) == var(1));
    assert(shift_ok(var(2), 3, -1) && shift_ok(var(1), 3, -1));
    assert(shift_ok(app(cb, var(2)), 3, -1));
    assert(shift_ok(right2, 3, -1));
    assert(shift_ok(left, 3, -1));
    assert(shift_term(app(cb, var(2)), 3, -1) == app(cb, var(2)));
    assert(shift_term(right2, 3, -1) == right2);
    assert(shift_term(left, 3, -1) == left);
    assert(shift_term(app(left, right2), 3, -1) == app(left, right2));
    assert(shift_ok(app(left, right2), 3, -1));
    assert(shift_ok(lam(app(left, right2)), 2, -1));
    assert(shift_ok(lam(lam(app(left, right2))), 1, -1));
    assert(shift_term(lam(app(left, right2)), 2, -1) == lam(app(left, right2)));
    assert(shift_term(lam(lam(app(left, right2))), 1, -1) == lam(lam(app(left, right2))));
}

/// The first two passes: `plus A B` becomes `λ λ. A 2 (B 2 1)`.
proof fn lemma_plus_head(a: nat, b: nat, fuel: nat)
    requires
        fuel >= 2,
    ensures
        normalize_within(app(app(plus_term(), church(a)), church(b)), fuel) == normalize_within(
            lam(lam(app(app(church(a), var(2)), app(app(church(b), var(2)), var(1))))),
            (fuel - 2) as nat,
        ),
{
    let ca = church(a);
    let cb = church(b);
    lemma_church_closed(a);
    lemma_church_closed(b);
    lemma_plus_first(ca);
    lemma_plus_second(ca, cb);
    let b1 = lam(lam(lam(app(app(var(4), var(2)), app(app(var(3), var(2)), var(1))))));
    let after_first = lam(lam(lam(app(app(ca, var(2)), app(app(var(3), var(2)), var(1))))));
    let after_second = lam(lam(app(app(ca, var(2)), app(app(cb, var(2)), var(1)))));
    assert(plus_term() == lam(b1));
    let t0 = app(app(plus_term(), ca), cb);
    assert(weak_step(plus_term()) == Some((plus_term(), false)));
    assert(weak_step(app(plus_term(), ca)) == Some((after_first, true)));
    assert(weak_step(t0) == Some((app(after_first, cb), true)));
    assert(strong_step(t0) == Some((app(after_first, cb), true)));
    assert(weak_step(after_first) == Some((after_first, false)));
    assert(weak_step(app(after_first, cb)) == Some((after_second, true)));
    assert(strong_step(app(after_first, cb)) == Some((after_second, true)));
    assert(normalize_within(t0, fuel) == normalize_within(app(after_first, cb), (fuel - 1) as nat));
    assert(normalize_within(app(after_first, cb), (fuel - 1) as nat) == normalize_within(after_second, (fuel - 2) as nat));
}

/// Passes three to seven: `λ λ. A 2 (B 2 1)` normalizes to the numeral of `a + b`.
proof fn lemma_plus_tail(a: nat, b: nat, fuel: nat)
    requires
        fuel >= 5,
    ensures
        normalize_within(lam(lam(app(app(church(a), var(2)), app(app(church(b), var(2)), var(1))))), fuel)
            == Some(church(a + b)),
{
    let ca = church(a);
    let cb = church(b);
    lemma_church_closed(a);
    lemma_church_closed(b);
    let r = app(app(cb, var(2)), var(1));
    let m = app(app(ca, var(2)), r);
    let after_second = lam(lam(m));
    // pass three: the head numeral takes its first argument
    lemma_beta_numeral(a);
    let l1 = lam(iterate(var(3), a, var(1)));
    assert(ca == lam(lam(church_body(a))));
    assert(weak_step(ca) == Some((ca, false)));
    assert(weak_step(app(ca, var(2))) == Some((l1, true)));
    assert(weak_step(m) == Some((app(l1, r), true)));
    assert(strong_step(m) == Some((app(l1, r), true)));
    assert(strong_step(lam(m)) == Some((lam(app(l1, r)), true)));
    assert(strong_step(after_second) == Some((lam(lam(app(l1, r))), true)));
    // pass four: it takes `B f x`
    lemma_closed_fixed(cb, 1, 1, 1, cb);
    lemma_closed_fixed(cb, 1, -1, 1, cb);
    let lifted = app(app(cb, var(3)), var(2));
    assert(shift_term(var(2), 1, 1) == var(3) && shift_term(var(1), 1, 1) == var(2));
    assert(shift_ok(var(2), 1, 1) && shift_ok(var(1), 1, 1));
    assert(shift_term(app(cb, var(2)), 1, 1) == app(cb, var(3)));
    assert(shift_term(r, 1, 1) == lifted);
    assert(shift_ok(app(cb, var(2)), 1, 1));
    assert(shift_ok(r, 1, 1));
    assert(shift_term(var(3), 1, -1) == var(2) && shift_term(var(2), 1, -1) == var(1));
    assert(shift_ok(var(3), 1, -1) && shift_ok(var(2), 1, -1));
    assert(shift_term(app(cb, var(3)), 1, -1) == app(cb, var(2)));
    assert(shift_ok(app(cb, var(3)), 1, -1));
    assert(shift_term(lifted, 1, -1) == r);
    assert(shift_ok(lifted, 1, -1));
    assert(indices_valid(var(2)) && indices_valid(var(1)));
    assert(indices_valid(cb));
    assert(indices_valid(app(cb, var(2))));
    assert(indices_valid(r));
    lemma_beta_iterate(a, r);
    let m4 = iterate(var(2), a, r);
    assert(weak_step(l1) == Some((l1, false)));
    assert(weak_step(app(l1, r)) == Some((m4, true)));
    assert(strong_step(app(l1, r)) == Some((m4, true)));
    assert(strong_step(lam(app(l1, r))) == Some((lam(m4), true)));
    assert(strong_step(lam(lam(app(l1, r)))) == Some((lam(lam(m4)), true)));
    // pass five: the second numeral takes `f`
    lemma_beta_numeral(b);
    let l2 = lam(iterate(var(3), b, var(1)));
    assert(cb == lam(lam(church_body(b))));
    assert(weak_step(cb) == Some((cb, false)));
    assert(weak_step(app(cb, var(2))) == Some((l2, true)));
    assert(weak_step(r) == Some((app(l2, var(1)), true)));
    assert(strong_step(r) == Some((app(l2, var(1)), true)));
    lemma_strong_iterate(2, a, r);
    let m5 = iterate(var(2), a, app(l2, var(1)));
    assert(strong_step(m4) == Some((m5, true)));
    assert(strong_step(lam(m4)) == Some((lam(m5), true)));
    assert(strong_step(lam(lam(m4))) == Some((lam(lam(m5)), true)));
    // pass six: it takes `x`
    assert(shift_term(shift_term(var(1), 1, 1), 1, -1) == var(1));
    lemma_beta_iterate(b, var(1));
    lemma_church_body_iterate(b);
    let cbb = iterate(var(2), b, var(1));
    assert(weak_step(l2) == Some((l2, false)));
    assert(weak_step(app(l2, var(1))) == Some((cbb, true)));
    assert(strong_step(app(l2, var(1))) == Some((cbb, true)));
    lemma_strong_iterate(2, a, app(l2, var(1)));
    let m6 = iterate(var(2), a, cbb);
    assert(strong_step(m5) == Some((m6, true)));
    assert(strong_step(lam(m5)) == Some((lam(m6), true)));
    assert(strong_step(lam(lam(m5))) == Some((lam(lam(m6)), true)));
    lemma_iterate_add(a, b, var(2), var(1));
    lemma_church_body_iterate(a + b);
    assert(lam(lam(m6)) == church(a + b));
    // pass seven: nothing left to fire
    lemma_iterate_normal(a + b);
    assert(m6 == iterate(var(2), a + b, var(1)));
    assert(is_normal(m6));
    assert(is_normal(lam(m6)));
    assert(is_normal(lam(lam(m6))));
    lemma_step_unchanged(church(a + b));
    assert(normalize_within(after_second, fuel) == normalize_within(lam(lam(app(l1, r))), (fuel - 1) as nat));
    assert(normalize_within(lam(lam(app(l1, r))), (fuel - 1) as nat) == normalize_within(
        lam(lam(m4)),
        (fuel - 2) as nat,
    ));
    assert(normalize_within(lam(lam(m4)), (fuel - 2) as nat) == normalize_within(
        lam(lam(m5)),
        (fuel - 3) as nat,
    ));
    assert(normalize_within(lam(lam(m5)), (fuel - 3) as nat) == normalize_within(
        church(a + b),
        (fuel - 4) as nat,
    ));
}

/// Church addition: `plus` applied to the numerals of `a` and `b` reaches
/// the numeral of `a + b` in seven strong passes (six β-steps and one pass
/// that finds nothing), so normalizing with any fuel of seven or more gives it.
pub proof fn lemma_church_addition(a: nat, b: nat, fuel: nat)
    requires
        fuel >= 7,
    ensures
        normalize_within(app(app(plus_term(), church(a)), church(b)), fuel) == Some(church(a + b)),
{
    lemma_plus_head(a, b, fuel);
    lemma_plus_tail(a, b, (fuel - 2) as nat);
}

} // verus!
