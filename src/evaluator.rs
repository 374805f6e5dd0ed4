//! The normal-order reducer. A weak pass fires a redex at the head of an
//! application and does not enter binders; a strong pass also reduces under
//! binders and in argument positions. The outer loop repeats strong passes
//! until one fires nothing, which happens exactly at a normal form.
use vstd::prelude::*;
use std::sync::atomic::{AtomicBool, Ordering};
use crate::expr::{Allocator, ExprRef, UnpackedExpr, inline_or_new};
use crate::term::{
    Term, beta_ok, beta_term, is_normal, lemma_step_unchanged, normalize_within, strong_step,
    weak_step,
};
use crate::transform::{Replace, Shift};

verus! {

/// The outcome of one pass as the handle-level functions report it: `None`
/// when the spec-level pass fails, and otherwise the result with the flag.
pub open spec fn pass_matches(
    arena: &Allocator,
    spec_result: Option<(Term, bool)>,
    r: Option<(ExprRef, bool)>,
    input: ExprRef,
) -> bool {
    match spec_result {
        None => r is None,
        Some((t2, c)) => match r {
            None => false,
            Some((h, c2)) => {
                &&& c2 == c
                &&& arena.valid(h)
                &&& arena.term_of(h) == t2
                &&& !c ==> h == input
            },
        },
    }
}

/// What the outer loop does next.
#[derive(Debug, Clone, Copy, PartialEq, Eq, Structural)]
pub enum Flow {
    /// Go on with this term.
    Continue(ExprRef),
    /// Stop, with the normal form, or with `None` when interrupted or when a
    /// contractum would need an index out of range.
    Stop(Option<ExprRef>),
}

/// Drives reduction of one term and counts the strong passes made.
pub struct Evaluator {
    pub steps: u64,
}

impl Evaluator {
    pub fn new() -> (r: Evaluator)
        ensures
            r.steps == 0,
    {
        Evaluator { steps: 0 }
    }

    /// One β-step `(λ. body) arg`: lift `arg` past the consumed binder,
    /// substitute it for variable 1, then lower what stayed above the binder.
    fn beta(arena: &mut Allocator, body: ExprRef, arg: ExprRef) -> (r: Option<ExprRef>)
        requires
            old(arena).wf(),
            old(arena).valid(body),
            old(arena).valid(arg),
        ensures
            final(arena).wf(),
            final(arena).extends(old(arena)),
            final(arena).names() == old(arena).names(),
            r is Some <==> beta_ok(old(arena).term_of(body), old(arena).term_of(arg)),
            r matches Some(h) ==> final(arena).valid(h) && final(arena).term_of(h) == beta_term(
                old(arena).term_of(body),
                old(arena).term_of(arg),
            ),
            r matches Some(h) ==> h == body || h == arg || inline_or_new(h, old(arena).cells().len()),
    {
        let shifted_right = match Shift::new(1, 1).visit(arena, arg) {
            None => return None,
            Some(h) => h,
        };
        let mut replace = Replace::new(arena, shifted_right);
        let replaced = match replace.visit(arena, body) {
            None => return None,
            Some(h) => h,
        };
        Shift::new(1, -1).visit(arena, replaced)
    }

    /// The weak pass (see `weak_step`).
    fn evaluate_weak(arena: &mut Allocator, expr: ExprRef) -> (r: Option<(ExprRef, bool)>)
        requires
            old(arena).wf(),
            old(arena).valid(expr),
        ensures
            r matches Some((h, true)) ==> h != expr,
            weak_step(old(arena).term_of(expr)) matches Some((_, false)) ==> *final(arena) == *old(arena),
            final(arena).wf(),
            final(arena).extends(old(arena)),
            final(arena).names() == old(arena).names(),
            pass_matches(final(arena), weak_step(old(arena).term_of(expr)), r, expr),
        decreases old(arena).term_of(expr), 0int,
    {
        proof {
            arena.lemma_valid_below(expr);
        }
        match expr.unpack(arena) {
            UnpackedExpr::Term { .. } => Some((expr, false)),
            UnpackedExpr::Lambda { .. } => Some((expr, false)),
            UnpackedExpr::Eval { left, right } => {
                let (new_left, left_changed) = match Self::evaluate_weak(arena, left) {
                    None => return None,
                    Some(p) => p,
                };
                if left_changed {
                    return Some((arena.new_eval(new_left, right), true));
                }
                match left.unpack(arena) {
                    UnpackedExpr::Lambda { body, .. } => match Self::beta(arena, body, right) {
                        None => None,
                        Some(h) => {
                            proof {
                                assert(Allocator::rank(body) < Allocator::rank(expr));
                                assert(body != expr && right != expr);
                            }
                            Some((h, true))
                        },
                    },
                    _ => match Self::evaluate_strong(arena, right) {
                        None => None,
                        Some((new_right, right_changed)) => if new_right == right {
                            Some((expr, right_changed))
                        } else {
                            Some((arena.new_eval(left, new_right), right_changed))
                        },
                    },
                }
            },
        }
    }

    /// The strong pass (see `strong_step`).
    fn evaluate_strong(arena: &mut Allocator, expr: ExprRef) -> (r: Option<(ExprRef, bool)>)
        requires
            old(arena).wf(),
            old(arena).valid(expr),
        ensures
            r matches Some((h, true)) ==> h != expr,
            strong_step(old(arena).term_of(expr)) matches Some((_, false)) ==> *final(arena) == *old(arena),
            final(arena).wf(),
            final(arena).extends(old(arena)),
            final(arena).names() == old(arena).names(),
            pass_matches(final(arena), strong_step(old(arena).term_of(expr)), r, expr),
        decreases old(arena).term_of(expr), 1int,
    {
        proof {
            arena.lemma_valid_below(expr);
        }
        match expr.unpack(arena) {
            UnpackedExpr::Term { .. } => Some((expr, false)),
            UnpackedExpr::Lambda { parameter_name, body } => {
                match Self::evaluate_strong(arena, body) {
                    None => None,
                    Some((new_body, changed)) => if new_body == body {
                        Some((expr, changed))
                    } else {
                        Some((arena.new_lambda(parameter_name, new_body), changed))
                    },
                }
            },
            UnpackedExpr::Eval { .. } => Self::evaluate_weak(arena, expr),
        }
    }

    /// One iteration of the outer loop: a strong pass over the whole term.
    /// The flag says whether a β-step was fired; when none was, the term is
    /// in normal form and comes back as the same handle.
    pub fn step(&mut self, arena: &mut Allocator, expr: ExprRef) -> (r: Option<(ExprRef, bool)>)
        requires
            old(arena).wf(),
            old(arena).valid(expr),
            old(self).steps < u64::MAX,
        ensures
            r matches Some((h, true)) ==> h != expr,
            strong_step(old(arena).term_of(expr)) matches Some((_, false)) ==> *final(arena) == *old(arena),
            final(self).steps == old(self).steps + 1,
            final(arena).wf(),
            final(arena).extends(old(arena)),
            final(arena).names() == old(arena).names(),
            pass_matches(final(arena), strong_step(old(arena).term_of(expr)), r, expr),
            r matches Some((h, false)) ==> is_normal(old(arena).term_of(expr)),
    {
        proof {
            lemma_step_unchanged(arena.term_of(expr));
        }
        self.steps = self.steps + 1;
        Self::evaluate_strong(arena, expr)
    }

    /// Reduce to normal form with at most `max_steps` strong passes. `None`
    /// when that is not enough, or when a contractum would need a de Bruijn
    /// index out of range. A term already in normal form comes back as the
    /// same handle.
    pub fn evaluate(&mut self, arena: &mut Allocator, expr: ExprRef, max_steps: u64) -> (r: Option<
        ExprRef,
    >)
        requires
            old(arena).wf(),
            old(arena).valid(expr),
            old(self).steps == 0,
        ensures
            final(arena).wf(),
            final(arena).extends(old(arena)),
            final(arena).names() == old(arena).names(),
            final(self).steps <= max_steps,
            match normalize_within(old(arena).term_of(expr), max_steps as nat) {
                None => r is None,
                Some(n) => r matches Some(h) && final(arena).valid(h) && final(arena).term_of(h)
                    == n,
            },
            is_normal(old(arena).term_of(expr)) && max_steps >= 1 ==> r == Some(expr),
    {
        let ghost t0 = arena.term_of(expr);
        proof {
            lemma_step_unchanged(t0);
        }
        let mut current = expr;
        while self.steps < max_steps
            invariant
                old(arena).wf(),
                old(arena).valid(expr),
                t0 == old(arena).term_of(expr),
                arena.wf(),
                arena.extends(old(arena)),
                arena.names() == old(arena).names(),
                arena.valid(current),
                self.steps <= max_steps,
                normalize_within(t0, max_steps as nat) == normalize_within(
                    arena.term_of(current),
                    (max_steps - self.steps) as nat,
                ),
                is_normal(t0) ==> self.steps == 0 && current == expr,
            decreases max_steps - self.steps,
        {
            let ghost before = *arena;
            let ghost t = arena.term_of(current);
            let ghost k = self.steps;
            proof {
                assert(normalize_within(t, (max_steps - k) as nat) == match strong_step(t) {
                    None => None,
                    Some((t2, false)) => Some(t2),
                    Some((t2, true)) => normalize_within(t2, (max_steps - k - 1) as nat),
                });
                lemma_step_unchanged(t);
                if is_normal(t0) {
                    assert(arena.term_of(expr) == old(arena).term_of(expr));
                }
            }
            match self.step(arena, current) {
                None => return None,
                Some((next, changed)) => {
                    if !changed {
                        proof {
                            assert(strong_step(t) == Some((arena.term_of(next), false)));
                            assert(normalize_within(t, (max_steps - k) as nat) == Some(arena.term_of(next)));
                        }
                        return Some(next);
                    }
                    proof {
                        assert(before.valid(current));
                    }
                    current = next;
                },
            }
        }
        None
    }


    /// One iteration of the cancellable outer loop, given whether the abort
    /// flag was found set: stop without touching the arena when it was;
    /// otherwise run a strong pass and stop with the same handle when it
    /// fired nothing, or go on with its result.
    pub fn advance(&mut self, arena: &mut Allocator, current: ExprRef, aborted: bool) -> (r: Flow)
        requires
            old(arena).wf(),
            old(arena).valid(current),
            old(self).steps < u64::MAX,
        ensures
            r matches Flow::Continue(h) ==> h != current,
            final(arena).wf(),
            final(arena).extends(old(arena)),
            final(arena).names() == old(arena).names(),
            aborted ==> r == Flow::Stop(None) && *final(arena) == *old(arena) && final(self).steps
                == old(self).steps,
            !aborted ==> final(self).steps == old(self).steps + 1,
            !aborted ==> match strong_step(old(arena).term_of(current)) {
                None => r == Flow::Stop(None),
                Some((_, false)) => r == Flow::Stop(Some(current)) && *final(arena) == *old(arena)
                    && is_normal(old(arena).term_of(current)),
                Some((t2, true)) => r matches Flow::Continue(h) && final(arena).valid(h)
                    && final(arena).term_of(h) == t2,
            },
    {
        if aborted {
            return Flow::Stop(None);
        }
        match self.step(arena, current) {
            None => Flow::Stop(None),
            Some((next, false)) => Flow::Stop(Some(next)),
            Some((next, true)) => Flow::Continue(next),
        }
    }

    /// Reduce to normal form, reading `abort` before every strong pass and
    /// giving up with `None` as soon as it is set. `None` too when a
    /// contractum would need an index out of range, or after `u64::MAX`
    /// passes. A result is the normal form that passes reach from `expr`.
    pub fn evaluate_with_abort(
        &mut self,
        arena: &mut Allocator,
        expr: ExprRef,
        abort: &AtomicBool,
    ) -> (r: Option<ExprRef>)
        requires
            old(arena).wf(),
            old(arena).valid(expr),
            old(self).steps == 0,
        ensures
            final(arena).wf(),
            final(arena).extends(old(arena)),
            final(arena).names() == old(arena).names(),
            r matches Some(h) ==> {
                &&& final(arena).valid(h)
                &&& is_normal(final(arena).term_of(h))
                &&& normalize_within(old(arena).term_of(expr), final(self).steps as nat) == Some(
                    final(arena).term_of(h),
                )
            },
    {
        let ghost t0 = arena.term_of(expr);
        let mut current = expr;
        while self.steps < u64::MAX
            invariant
                old(arena).wf(),
                old(arena).valid(expr),
                t0 == old(arena).term_of(expr),
                arena.wf(),
                arena.extends(old(arena)),
                arena.names() == old(arena).names(),
                arena.valid(current),
                forall|f: nat| #[trigger]
                    normalize_within(arena.term_of(current), f) == normalize_within(
                        t0,
                        (f + self.steps) as nat,
                    ),
            decreases u64::MAX - self.steps,
        {
            let aborted = abort.load(Ordering::Relaxed);
            let ghost before = *arena;
            let ghost t = arena.term_of(current);
            let ghost k = self.steps;
            match self.advance(arena, current, aborted) {
                Flow::Stop(None) => return None,
                Flow::Stop(Some(next)) => {
                    proof {
                        lemma_step_unchanged(t);
                        assert(normalize_within(t, 1) == normalize_within(t0, (1 + k) as nat));
                    }
                    return Some(next);
                },
                Flow::Continue(next) => {
                    proof {
                        assert(before.valid(current));
                        lemma_step_unchanged(t);
                    }
                    proof {
                        assert forall|f: nat| #[trigger]
                            normalize_within(arena.term_of(next), f) == normalize_within(
                                t0,
                                (f + self.steps) as nat,
                            ) by {
                            assert(normalize_within(t, (f + 1) as nat) == normalize_within(
                                t0,
                                (f + 1 + k) as nat,
                            ));
                        }
                    }
                    current = next;
                },
            }
        }
        None
    }
}

} // verus!
