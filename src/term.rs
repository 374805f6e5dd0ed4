//! Nameless lambda terms as plain trees, and the mathematical operations on
//! them: shifting, substitution, β-reduction and the normal-order strategy.
//!
//! `Term` is what a handle into an arena denotes. Two terms are equal exactly
//! when they are α-equivalent, since binders carry no names here.
use vstd::prelude::*;

verus! {

/// The largest de Bruijn index a term may hold.
pub const MAX_INDEX: u64 = 0x7fff_ffff_ffff_ffff;

/// A lambda term with de Bruijn indices (1 = innermost binder).
#[derive(Debug, PartialEq, Eq)]
pub enum Term {
    Variable(u64),
    Lambda(Box<Term>),
    Eval(Box<Term>, Box<Term>),
}

/// Every index of `t` lies in `1..=MAX_INDEX`.
pub open spec fn indices_valid(t: Term) -> bool
    decreases t,
{
    match t {
        Term::Variable(i) => 1 <= i <= MAX_INDEX,
        Term::Lambda(b) => indices_valid(*b),
        Term::Eval(l, r) => indices_valid(*l) && indices_valid(*r),
    }
}

/// Every variable of `t` that is free refers to a binder numbered below
/// `bound` (counted from the top of `t`): `closed_under(t, 1)` says `t` is closed.
pub open spec fn closed_under(t: Term, bound: int) -> bool
    decreases t,
{
    match t {
        Term::Variable(i) => i < bound,
        Term::Lambda(b) => closed_under(*b, bound + 1),
        Term::Eval(l, r) => closed_under(*l, bound) && closed_under(*r, bound),
    }
}

/// `t` has no free variables.
pub open spec fn is_closed(t: Term) -> bool {
    closed_under(t, 1)
}

/// The free variable `target` (counted from the top of `t`) occurs in `t`.
pub open spec fn mentions(t: Term, target: int) -> bool
    decreases t,
{
    match t {
        Term::Variable(i) => i == target,
        Term::Lambda(b) => mentions(*b, target + 1),
        Term::Eval(l, r) => mentions(*l, target) || mentions(*r, target),
    }
}

/// Shifting `t` by `offset` above `cutoff` keeps every index in range.
pub open spec fn shift_ok(t: Term, cutoff: int, offset: int) -> bool
    decreases t,
{
    match t {
        Term::Variable(i) => i < cutoff || 1 <= i + offset <= MAX_INDEX,
        Term::Lambda(b) => shift_ok(*b, cutoff + 1, offset),
        Term::Eval(l, r) => shift_ok(*l, cutoff, offset) && shift_ok(*r, cutoff, offset),
    }
}

/// Every variable `i >= cutoff` becomes `i + offset`; the cutoff grows by one
/// under each binder.
pub open spec fn shift_term(t: Term, cutoff: int, offset: int) -> Term
    decreases t,
{
    match t {
        Term::Variable(i) => if i < cutoff {
            t
        } else {
            Term::Variable((i + offset) as u64)
        },
        Term::Lambda(b) => Term::Lambda(Box::new(shift_term(*b, cutoff + 1, offset))),
        Term::Eval(l, r) => Term::Eval(
            Box::new(shift_term(*l, cutoff, offset)),
            Box::new(shift_term(*r, cutoff, offset)),
        ),
    }
}

/// Every copy of the replacement that substitution builds has its indices in range.
pub open spec fn subst_ok(t: Term, target: int, arg: Term) -> bool
    decreases t,
{
    match t {
        Term::Variable(i) => i == target ==> shift_ok(arg, 1, target - 1),
        Term::Lambda(b) => subst_ok(*b, target + 1, arg),
        Term::Eval(l, r) => subst_ok(*l, target, arg) && subst_ok(*r, target, arg),
    }
}

/// Replace each occurrence of the variable `target` by `arg`, lifted over the
/// `target - 1` binders that separate it from the top.
pub open spec fn subst_term(t: Term, target: int, arg: Term) -> Term
    decreases t,
{
    match t {
        Term::Variable(i) => if i == target {
            shift_term(arg, 1, target - 1)
        } else {
            t
        },
        Term::Lambda(b) => Term::Lambda(Box::new(subst_term(*b, target + 1, arg))),
        Term::Eval(l, r) => Term::Eval(
            Box::new(subst_term(*l, target, arg)),
            Box::new(subst_term(*r, target, arg)),
        ),
    }
}

/// The three index-range conditions of one β-step `(λ. body) arg`.
pub open spec fn beta_ok(body: Term, arg: Term) -> bool {
    let lifted = shift_term(arg, 1, 1);
    &&& shift_ok(arg, 1, 1)
    &&& subst_ok(body, 1, lifted)
    &&& shift_ok(subst_term(body, 1, lifted), 1, -1)
}

/// The contractum of `(λ. body) arg`.
pub open spec fn beta_term(body: Term, arg: Term) -> Term {
    shift_term(subst_term(body, 1, shift_term(arg, 1, 1)), 1, -1)
}

/// One weak pass: stops at a variable or a binder; in an application it works
/// on the head first and fires a redex found at the head. `None` when a
/// contractum would need an index out of range; the flag says whether a β-step
/// was fired.
pub open spec fn weak_step(t: Term) -> Option<(Term, bool)>
    decreases t, 0int,
{
    match t {
        Term::Variable(_) => Some((t, false)),
        Term::Lambda(_) => Some((t, false)),
        Term::Eval(l, r) => match weak_step(*l) {
            None => None,
            Some((l2, true)) => Some((Term::Eval(Box::new(l2), r), true)),
            Some((_, false)) => match *l {
                Term::Lambda(b) => if beta_ok(*b, *r) {
                    Some((beta_term(*b, *r), true))
                } else {
                    None
                },
                _ => match strong_step(*r) {
                    None => None,
                    Some((r2, c)) => Some((Term::Eval(l, Box::new(r2)), c)),
                },
            },
        },
    }
}

/// One strong pass: as `weak_step`, and also under binders.
pub open spec fn strong_step(t: Term) -> Option<(Term, bool)>
    decreases t, 1int,
{
    match t {
        Term::Variable(_) => Some((t, false)),
        Term::Lambda(b) => match strong_step(*b) {
            None => None,
            Some((b2, c)) => Some((Term::Lambda(Box::new(b2)), c)),
        },
        Term::Eval(_, _) => weak_step(t),
    }
}

/// `t` holds no β-redex.
pub open spec fn is_normal(t: Term) -> bool
    decreases t,
{
    match t {
        Term::Variable(_) => true,
        Term::Lambda(b) => is_normal(*b),
        Term::Eval(l, r) => !(*l is Lambda) && is_normal(*l) && is_normal(*r),
    }
}

/// At most `fuel` strong passes, stopping at the first that fires nothing.
pub open spec fn normalize_within(t: Term, fuel: nat) -> Option<Term>
    decreases fuel,
{
    if fuel == 0 {
        None
    } else {
        match strong_step(t) {
            None => None,
            Some((t2, false)) => Some(t2),
            Some((t2, true)) => normalize_within(t2, (fuel - 1) as nat),
        }
    }
}

/// Shifting leaves a term alone when no free variable reaches the cutoff.
pub proof fn lemma_shift_closed(t: Term, cutoff: int, offset: int)
    requires
        closed_under(t, cutoff),
    ensures
        shift_ok(t, cutoff, offset),
        shift_term(t, cutoff, offset) == t,
    decreases t,
{
    match t {
        Term::Variable(_) => {},
        Term::Lambda(b) => lemma_shift_closed(*b, cutoff + 1, offset),
        Term::Eval(l, r) => {
            lemma_shift_closed(*l, cutoff, offset);
            lemma_shift_closed(*r, cutoff, offset);
        },
    }
}

/// A shift by zero leaves a term with indices in range alone.
pub proof fn lemma_shift_zero(t: Term, cutoff: int)
    requires
        indices_valid(t),
    ensures
        shift_ok(t, cutoff, 0),
        shift_term(t, cutoff, 0) == t,
    decreases t,
{
    match t {
        Term::Variable(_) => {},
        Term::Lambda(b) => lemma_shift_zero(*b, cutoff + 1),
        Term::Eval(l, r) => {
            lemma_shift_zero(*l, cutoff);
            lemma_shift_zero(*r, cutoff);
        },
    }
}

/// No index in range reaches a bound above `MAX_INDEX`.
pub proof fn lemma_closed_above_max(t: Term, bound: int)
    requires
        indices_valid(t),
        bound > MAX_INDEX,
    ensures
        closed_under(t, bound),
        !mentions(t, bound),
    decreases t,
{
    match t {
        Term::Variable(_) => {},
        Term::Lambda(b) => lemma_closed_above_max(*b, bound + 1),
        Term::Eval(l, r) => {
            lemma_closed_above_max(*l, bound);
            lemma_closed_above_max(*r, bound);
        },
    }
}

/// Substitution leaves a term alone when the target variable does not occur.
pub proof fn lemma_subst_absent(t: Term, target: int, arg: Term)
    requires
        !mentions(t, target),
    ensures
        subst_ok(t, target, arg),
        subst_term(t, target, arg) == t,
    decreases t,
{
    match t {
        Term::Variable(_) => {},
        Term::Lambda(b) => lemma_subst_absent(*b, target + 1, arg),
        Term::Eval(l, r) => {
            lemma_subst_absent(*l, target, arg);
            lemma_subst_absent(*r, target, arg);
        },
    }
}

/// A pass that fires nothing hands back its input, and the input of such a
/// strong pass (or of such a weak pass on an application) is in normal form;
/// conversely both passes fire nothing on a normal form.
pub proof fn lemma_step_unchanged(t: Term)
    ensures
        weak_step(t) matches Some((t2, false)) ==> t2 == t && (t is Eval ==> is_normal(t)),
        strong_step(t) matches Some((t2, false)) ==> t2 == t && is_normal(t),
        is_normal(t) ==> weak_step(t) == Some((t, false)),
        is_normal(t) ==> strong_step(t) == Some((t, false)),
    decreases t,
{
    match t {
        Term::Variable(_) => {},
        Term::Lambda(b) => {
            lemma_step_unchanged(*b);
        },
        Term::Eval(l, r) => {
            lemma_step_unchanged(*l);
            lemma_step_unchanged(*r);
        },
    }
}

/// Every variable that a shift by `offset` above `cutoff` moves stays free:
/// it does not drop below the cutoff.
pub open spec fn stays_free(t: Term, cutoff: int, offset: int) -> bool
    decreases t,
{
    match t {
        Term::Variable(i) => i >= cutoff ==> i + offset >= cutoff,
        Term::Lambda(b) => stays_free(*b, cutoff + 1, offset),
        Term::Eval(l, r) => stays_free(*l, cutoff, offset) && stays_free(*r, cutoff, offset),
    }
}

/// A term closed under some bound is closed under every larger one.
pub proof fn lemma_closed_mono(t: Term, bound: int, larger: int)
    requires
        closed_under(t, bound),
        bound <= larger,
    ensures
        closed_under(t, larger),
    decreases t,
{
    match t {
        Term::Variable(_) => {},
        Term::Lambda(b) => lemma_closed_mono(*b, bound + 1, larger + 1),
        Term::Eval(l, r) => {
            lemma_closed_mono(*l, bound, larger);
            lemma_closed_mono(*r, bound, larger);
        },
    }
}

/// Substituting a closed term for the outermost free variable of `t` leaves
/// no free variable at or above that one.
proof fn lemma_subst_closed(t: Term, target: int, arg: Term)
    requires
        closed_under(t, target + 1),
        is_closed(arg),
        target >= 1,
    ensures
        subst_ok(t, target, arg),
        closed_under(subst_term(t, target, arg), target),
    decreases t,
{
    match t {
        Term::Variable(i) => {
            lemma_shift_closed(arg, 1, target - 1);
            lemma_closed_mono(arg, 1, target);
        },
        Term::Lambda(b) => lemma_subst_closed(*b, target + 1, arg),
        Term::Eval(l, r) => {
            lemma_subst_closed(*l, target, arg);
            lemma_subst_closed(*r, target, arg);
        },
    }
}

/// Closedness is preserved by β-reduction: when `λ. body` and `arg` are
/// closed, the β-step `(λ. body) arg` stays in range and its contractum is
/// closed.
pub proof fn lemma_beta_closed(body: Term, arg: Term)
    requires
        is_closed(Term::Lambda(Box::new(body))),
        is_closed(arg),
    ensures
        beta_ok(body, arg),
        is_closed(beta_term(body, arg)),
{
    lemma_shift_closed(arg, 1, 1);
    lemma_subst_closed(body, 1, arg);
    lemma_shift_closed(subst_term(body, 1, arg), 1, -1);
}

/// Whatever normalization returns is a normal form, and normalizing it again
/// with any fuel returns it unchanged.
pub proof fn lemma_normal_form_fixpoint(t: Term, fuel: nat, fuel2: nat)
    requires
        normalize_within(t, fuel) is Some,
        fuel2 >= 1,
    ensures
        is_normal(normalize_within(t, fuel)->Some_0),
        normalize_within(normalize_within(t, fuel)->Some_0, fuel2) == normalize_within(t, fuel),
    decreases fuel,
{
    lemma_step_unchanged(t);
    match strong_step(t) {
        Some((t2, true)) => lemma_normal_form_fixpoint(t2, (fuel - 1) as nat, fuel2),
        _ => {
            lemma_step_unchanged(normalize_within(t, fuel)->Some_0);
        },
    }
}

/// Two shifts above the same cutoff compose into one: shifting by `n` and
/// then by `m` is shifting by `m + n`, when the variables that the first
/// shift moves stay free and every index stays in range.
pub proof fn lemma_shift_compose(t: Term, cutoff: int, n: int, m: int)
    requires
        shift_ok(t, cutoff, n),
        stays_free(t, cutoff, n),
        shift_ok(shift_term(t, cutoff, n), cutoff, m),
    ensures
        shift_ok(t, cutoff, m + n),
        shift_term(shift_term(t, cutoff, n), cutoff, m) == shift_term(t, cutoff, m + n),
    decreases t,
{
    match t {
        Term::Variable(_) => {},
        Term::Lambda(b) => lemma_shift_compose(*b, cutoff + 1, n, m),
        Term::Eval(l, r) => {
            lemma_shift_compose(*l, cutoff, n, m);
            lemma_shift_compose(*r, cutoff, n, m);
        },
    }
}

} // verus!
