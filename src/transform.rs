//! The two term transforms that β-reduction is made of: `Shift` renumbers
//! free variables, `Replace` substitutes a term for a variable. Both return
//! their input handle itself wherever nothing below it changed, so that no
//! cell is allocated for an unchanged subterm.
use vstd::prelude::*;
use std::collections::HashMap;
use crate::expr::{Allocator, ExprRef, UnpackedExpr, inline_or_new, lemma_same_names_extends, lemma_same_names_refl, same_names};
use crate::term::{
    MAX_INDEX, closed_under, lemma_closed_above_max, lemma_shift_closed, lemma_shift_zero,
    lemma_subst_absent, mentions, shift_ok, shift_term, subst_ok, subst_term,
};

verus! {

broadcast use vstd::std_specs::hash::group_hash_axioms;

/// Renumbers every free variable `i >= cutoff` to `i + offset`.
pub struct Shift {
    pub cutoff: u64,
    pub offset: i64,
}

impl Shift {
    pub fn new(cutoff: u64, offset: i64) -> (r: Shift)
        ensures
            r.cutoff == cutoff,
            r.offset == offset,
    {
        Shift { cutoff, offset }
    }

    /// Shift `expr`. `None` exactly when some shifted index would leave
    /// `1..=MAX_INDEX`. The input handle itself comes back when the shift
    /// changes nothing: the offset is zero or no free variable reaches the cutoff.
    pub fn visit(&mut self, arena: &mut Allocator, expr: ExprRef) -> (r: Option<ExprRef>)
        requires
            old(arena).wf(),
            old(arena).valid(expr),
        ensures
            final(self).cutoff == old(self).cutoff,
            final(self).offset == old(self).offset,
            final(arena).wf(),
            final(arena).extends(old(arena)),
            final(arena).names() == old(arena).names(),
            r is Some <==> shift_ok(
                old(arena).term_of(expr),
                old(self).cutoff as int,
                old(self).offset as int,
            ),
            r matches Some(h) ==> final(arena).valid(h) && final(arena).term_of(h) == shift_term(
                old(arena).term_of(expr),
                old(self).cutoff as int,
                old(self).offset as int,
            ),
            old(self).offset == 0 || closed_under(old(arena).term_of(expr), old(self).cutoff as int)
                ==> r == Some(expr) && *final(arena) == *old(arena),
            expr is Inline ==> *final(arena) == *old(arena) && (r matches Some(h) ==> h is Inline),
            r matches Some(h) ==> same_names(old(arena), expr, final(arena), h),
            r matches Some(h) ==> h == expr || inline_or_new(h, old(arena).cells().len()),
        decreases old(arena).term_of(expr),
    {
        let ghost t = arena.term_of(expr);
        proof {
            arena.lemma_valid_indices(expr);
            if self.offset == 0 {
                lemma_shift_zero(t, self.cutoff as int);
            }
            if closed_under(t, self.cutoff as int) {
                lemma_shift_closed(t, self.cutoff as int, self.offset as int);
            }
        }
        proof {
            lemma_same_names_refl(arena, arena, expr);
        }
        if self.cutoff > MAX_INDEX {
            proof {
                lemma_closed_above_max(t, self.cutoff as int);
                lemma_shift_closed(t, self.cutoff as int, self.offset as int);
            }
            return Some(expr);
        }
        let ghost a0 = *arena;
        match expr.unpack(arena) {
            UnpackedExpr::Term { de_bruijn_index } => {
                if de_bruijn_index < self.cutoff {
                    Some(expr)
                } else {
                    let n: i128 = de_bruijn_index as i128 + self.offset as i128;
                    if 1 <= n && n <= MAX_INDEX as i128 {
                        Some(arena.new_term(n as u64))
                    } else {
                        None
                    }
                }
            },
            UnpackedExpr::Lambda { parameter_name, body } => {
                self.cutoff = self.cutoff + 1;
                let new_body = self.visit(arena, body);
                self.cutoff = self.cutoff - 1;
                match new_body {
                    None => None,
                    Some(new_body) => if new_body == body {
                        proof {
                            lemma_same_names_refl(&a0, arena, expr);
                        }
                        Some(expr)
                    } else {
                        let ghost a1 = *arena;
                        let r = arena.new_lambda(parameter_name, new_body);
                        proof {
                            a0.lemma_unpack_spec(expr);
                            lemma_same_names_extends(&a0, &a0, body, &a1, arena, new_body);
                        }
                        Some(r)
                    },
                }
            },
            UnpackedExpr::Eval { left, right } => {
                let new_left = self.visit(arena, left);
                match new_left {
                    None => None,
                    Some(new_left) => {
                        let ghost a1 = *arena;
                        let new_right = self.visit(arena, right);
                        match new_right {
                            None => None,
                            Some(new_right) => if new_left == left && new_right == right {
                                proof {
                                    lemma_same_names_refl(&a0, arena, expr);
                                }
                                Some(expr)
                            } else {
                                let ghost a2 = *arena;
                                let r = arena.new_eval(new_left, new_right);
                                proof {
                                    a0.lemma_unpack_spec(expr);
                                    lemma_same_names_extends(&a0, &a0, left, &a1, arena, new_left);
                                    lemma_same_names_extends(&a0, &a1, right, &a2, &a2, new_right);
                                    lemma_same_names_extends(&a0, &a0, right, &a2, arena, new_right);
                                }
                                Some(r)
                            },
                        }
                    },
                }
            },
        }
    }
}

/// Replaces the variable `target` by `default_expr`, keeping for each depth
/// the copy of `default_expr` lifted to that depth so it is built only once.
pub struct Replace {
    pub target: u64,
    pub default_expr: ExprRef,
    pub offsets: HashMap<u64, ExprRef>,
    /// The arena's size when this substitution began: every cached copy other
    /// than the default itself was allocated at or after it.
    pub origin: Ghost<nat>,
}

impl Replace {
    /// Every cached copy is the default lifted over `k - 1` binders.
    pub closed spec fn inv(&self, arena: &Allocator) -> bool {
        &&& arena.valid(self.default_expr)
        &&& self.offsets@.contains_key(1) && self.offsets@[1] == self.default_expr
        &&& self.origin@ <= arena.cells().len()
        &&& forall|k: u64| #[trigger] self.offsets@.contains_key(k) ==> self.offsets@[k] == self.default_expr
            || inline_or_new(self.offsets@[k], self.origin@)
        &&& forall|k: u64| #[trigger]
            self.offsets@.contains_key(k) ==> {
                &&& arena.valid(self.offsets@[k])
                &&& shift_ok(arena.term_of(self.default_expr), 1, k - 1)
                &&& arena.term_of(self.offsets@[k]) == shift_term(
                    arena.term_of(self.default_expr),
                    1,
                    k - 1,
                )
            }
    }

    pub fn new(arena: &Allocator, new_value: ExprRef) -> (r: Replace)
        requires
            arena.wf(),
            arena.valid(new_value),
        ensures
            r.inv(arena),
            r.target == 1,
            r.default_expr == new_value,
            r.origin@ == arena.cells().len(),
    {
        let mut offsets: HashMap<u64, ExprRef> = HashMap::new();
        offsets.insert(1, new_value);
        proof {
            arena.lemma_valid_indices(new_value);
            lemma_shift_zero(arena.term_of(new_value), 1);
        }
        Replace { target: 1, default_expr: new_value, offsets, origin: Ghost(arena.cells().len()) }
    }

    proof fn lemma_inv_extends(&self, arena: &Allocator, old: &Allocator)
        requires
            self.inv(old),
            arena.extends(old),
        ensures
            self.inv(arena),
    {
        assert forall|k: u64| #[trigger] self.offsets@.contains_key(k) implies {
            &&& arena.valid(self.offsets@[k])
            &&& shift_ok(arena.term_of(self.default_expr), 1, k - 1)
            &&& arena.term_of(self.offsets@[k]) == shift_term(
                arena.term_of(self.default_expr),
                1,
                k - 1,
            )
        } by {
            assert(old.valid(self.offsets@[k]));
        }
    }

    /// The default lifted over `offset - 1` binders, from the cache or
    /// built and cached.
    fn get_offset_expr(&mut self, arena: &mut Allocator, offset: u64) -> (r: Option<ExprRef>)
        requires
            old(self).inv(old(arena)),
            old(arena).wf(),
            1 <= offset <= MAX_INDEX,
        ensures
            final(self).inv(final(arena)),
            final(self).target == old(self).target,
            final(self).default_expr == old(self).default_expr,
            final(self).origin == old(self).origin,
            r matches Some(h) ==> h == old(self).default_expr || inline_or_new(h, old(self).origin@),
            final(arena).wf(),
            final(arena).extends(old(arena)),
            final(arena).names() == old(arena).names(),
            r is Some <==> shift_ok(old(arena).term_of(old(self).default_expr), 1, offset - 1),
            r matches Some(h) ==> final(arena).valid(h) && final(arena).term_of(h) == shift_term(
                old(arena).term_of(old(self).default_expr),
                1,
                offset - 1,
            ),
            old(self).offsets@.contains_key(offset) ==> r == Some(old(self).offsets@[offset])
                && *final(arena) == *old(arena) && final(self).offsets@ == old(self).offsets@,
            !old(self).offsets@.contains_key(offset) ==> (r matches Some(h) ==> final(self).offsets@
                == old(self).offsets@.insert(offset, h)),
            !old(self).offsets@.contains_key(offset) && r is None ==> final(self).offsets@ == old(
                self,
            ).offsets@,
    {
        match self.offsets.get(&offset) {
            Some(h) => Some(*h),
            None => {
                let ghost before = *arena;
                let mut shift = Shift::new(1, (offset - 1) as i64);
                let shifted = shift.visit(arena, self.default_expr);
                proof {
                    self.lemma_inv_extends(arena, &before);
                }
                match shifted {
                    None => None,
                    Some(h) => {
                        self.offsets.insert(offset, h);
                        Some(h)
                    },
                }
            },
        }
    }

    /// Substitute in `expr`. `None` exactly when a lifted copy of the default
    /// would need an index out of range. The input handle itself comes back
    /// when the target variable does not occur in `expr`.
    pub fn visit(&mut self, arena: &mut Allocator, expr: ExprRef) -> (r: Option<ExprRef>)
        requires
            old(self).inv(old(arena)),
            old(arena).wf(),
            old(arena).valid(expr),
            old(self).target >= 1,
        ensures
            final(self).inv(final(arena)),
            final(self).target == old(self).target,
            final(self).default_expr == old(self).default_expr,
            final(self).origin == old(self).origin,
            r matches Some(h) ==> h == expr || h == old(self).default_expr || inline_or_new(h, old(self).origin@),
            final(arena).wf(),
            final(arena).extends(old(arena)),
            final(arena).names() == old(arena).names(),
            r is Some <==> subst_ok(
                old(arena).term_of(expr),
                old(self).target as int,
                old(arena).term_of(old(self).default_expr),
            ),
            r matches Some(h) ==> final(arena).valid(h) && final(arena).term_of(h) == subst_term(
                old(arena).term_of(expr),
                old(self).target as int,
                old(arena).term_of(old(self).default_expr),
            ),
            !mentions(old(arena).term_of(expr), old(self).target as int) ==> r == Some(expr)
                && *final(arena) == *old(arena) && final(self).offsets@ == old(self).offsets@,
            old(self).target == 1 && expr == ExprRef::Inline(1) ==> r == Some(old(self).default_expr)
                && *final(arena) == *old(arena),
        decreases old(arena).term_of(expr),
    {
        let ghost t = arena.term_of(expr);
        let ghost d = arena.term_of(self.default_expr);
        proof {
            arena.lemma_valid_indices(expr);
            if !mentions(t, self.target as int) {
                lemma_subst_absent(t, self.target as int, d);
            }
        }
        if self.target > MAX_INDEX {
            proof {
                lemma_closed_above_max(t, self.target as int);
                lemma_subst_absent(t, self.target as int, d);
            }
            return Some(expr);
        }
        match expr.unpack(arena) {
            UnpackedExpr::Term { de_bruijn_index } => {
                if de_bruijn_index == self.target {
                    let target = self.target;
                    self.get_offset_expr(arena, target)
                } else {
                    Some(expr)
                }
            },
            UnpackedExpr::Lambda { parameter_name, body } => {
                self.target = self.target + 1;
                let new_body = self.visit(arena, body);
                self.target = self.target - 1;
                match new_body {
                    None => None,
                    Some(new_body) => if new_body == body {
                        Some(expr)
                    } else {
                        let ghost before = *arena;
                        let r = arena.new_lambda(parameter_name, new_body);
                        proof {
                            self.lemma_inv_extends(arena, &before);
                        }
                        Some(r)
                    },
                }
            },
            UnpackedExpr::Eval { left, right } => {
                let new_left = self.visit(arena, left);
                match new_left {
                    None => None,
                    Some(new_left) => {
                        let new_right = self.visit(arena, right);
                        match new_right {
                            None => None,
                            Some(new_right) => if new_left == left && new_right == right {
                                Some(expr)
                            } else {
                                let ghost before = *arena;
                                let r = arena.new_eval(new_left, new_right);
                                proof {
                                    self.lemma_inv_extends(arena, &before);
                                }
                                Some(r)
                            },
                        }
                    },
                }
            },
        }
    }
}

} // verus!
