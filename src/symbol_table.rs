//! The binder: turns source names into de Bruijn indices while the parser
//! walks a program, keeps the global definitions and a cache of Church
//! numerals, and collects diagnostics.
use vstd::prelude::*;
use vstd::string::StringExecFns;
use crate::expr::{Allocator, ExprRef, UnpackedExpr};
use crate::messages::{CompilerMessages, Offset, has_error, lemma_one_more_errors, one_more};
use crate::term::Term;

verus! {

/// The index of the innermost binder named `name`: 1 for the last scope.
pub open spec fn scope_index(scopes: Seq<Seq<char>>, name: Seq<char>) -> Option<nat>
    decreases scopes.len(),
{
    if scopes.len() == 0 {
        None
    } else if scopes.last() == name {
        Some(1)
    } else {
        match scope_index(scopes.drop_last(), name) {
            None => None,
            Some(k) => Some(k + 1),
        }
    }
}

/// The handle a global name is bound to.
pub open spec fn global_lookup(globals: Seq<(Seq<char>, ExprRef)>, name: Seq<char>) -> Option<ExprRef>
    decreases globals.len(),
{
    if globals.len() == 0 {
        None
    } else if globals.last().0 == name {
        Some(globals.last().1)
    } else {
        global_lookup(globals.drop_last(), name)
    }
}

/// The term a global name stands for, given each global's name and term.
pub open spec fn global_term(globals: Seq<(Seq<char>, Term)>, name: Seq<char>) -> Option<Term>
    decreases globals.len(),
{
    if globals.len() == 0 {
        None
    } else if globals.last().0 == name {
        Some(globals.last().1)
    } else {
        global_term(globals.drop_last(), name)
    }
}

/// The body of the Church numeral `n`: `f (f (... x))` with `f` = 2 and `x` = 1.
pub open spec fn church_body(n: nat) -> Term
    decreases n,
{
    if n == 0 {
        Term::Variable(1)
    } else {
        Term::Eval(Box::new(Term::Variable(2)), Box::new(church_body((n - 1) as nat)))
    }
}

/// The Church numeral `λf.λx. fⁿ x`.
pub open spec fn church(n: nat) -> Term {
    Term::Lambda(Box::new(Term::Lambda(Box::new(church_body(n)))))
}

/// `n` binders around `body`.
pub open spec fn wrap_lambdas(n: nat, body: Term) -> Term
    decreases n,
{
    if n == 0 {
        body
    } else {
        Term::Lambda(Box::new(wrap_lambdas((n - 1) as nat, body)))
    }
}

/// `f` applied to each argument in turn.
pub open spec fn apply_all(f: Term, args: Seq<Term>) -> Term
    decreases args.len(),
{
    if args.len() == 0 {
        f
    } else {
        Term::Eval(Box::new(apply_all(f, args.drop_last())), Box::new(args.last()))
    }
}

/// The message text for an unknown name.
pub open spec fn unknown_term_message(name: Seq<char>) -> Seq<char> {
    "unknown term: "@ + name
}

pub open spec fn duplicate_message(name: Seq<char>) -> Seq<char> {
    "duplicate variable "@ + name
}

pub open spec fn shadow_parameter_message(name: Seq<char>) -> Seq<char> {
    "parameter "@ + name + " shadows outer parameter of the same name"@
}

pub open spec fn shadow_global_message(name: Seq<char>) -> Seq<char> {
    "parameter "@ + name + " shadows variable of the same name"@
}

/// Names in scope, global definitions, cached numerals and diagnostics.
pub struct SymbolTable {
    pub globals: Vec<(String, ExprRef)>,
    pub numbers: Vec<ExprRef>,
    pub scopes: Vec<String>,
    pub messages: CompilerMessages,
}

impl SymbolTable {
    pub open spec fn globals_view(&self) -> Seq<(Seq<char>, ExprRef)> {
        self.globals@.map_values(|g: (String, ExprRef)| (g.0@, g.1))
    }

    pub open spec fn scopes_view(&self) -> Seq<Seq<char>> {
        self.scopes@.map_values(|s: String| s@)
    }

    /// Every global and cached numeral is a handle of `arena`, and the cached
    /// numeral bodies are the Church numeral bodies.
    pub open spec fn inv(&self, arena: &Allocator) -> bool {
        &&& forall|i: int| 0 <= i < self.globals@.len() ==> arena.valid(#[trigger] self.globals@[i].1)
        &&& forall|i: int, j: int|
            0 <= i < j < self.globals@.len() ==> (#[trigger] self.globals@[i]).0@ != (
            #[trigger] self.globals@[j]).0@
        &&& forall|i: int|
            0 <= i < self.numbers@.len() ==> arena.valid(#[trigger] self.numbers@[i])
                && arena.term_of(self.numbers@[i]) == church_body(i as nat)
    }

    pub proof fn lemma_inv_extends(&self, arena: &Allocator, old: &Allocator)
        requires
            self.inv(old),
            arena.extends(old),
        ensures
            self.inv(arena),
    {
        assert forall|i: int| 0 <= i < self.numbers@.len() implies arena.valid(#[trigger] self.numbers@[i])
            && arena.term_of(self.numbers@[i]) == church_body(i as nat) by {
            assert(old.valid(self.numbers@[i]));
        }
        assert forall|i: int| 0 <= i < self.globals@.len() implies arena.valid(#[trigger] self.globals@[i].1) by {
            assert(old.valid(self.globals@[i].1));
        }
    }


    /// Each global's name with the term it denotes in `arena`.
    pub open spec fn global_terms(&self, arena: &Allocator) -> Seq<(Seq<char>, Term)> {
        self.globals_view().map_values(|g: (Seq<char>, ExprRef)| (g.0, arena.term_of(g.1)))
    }

    /// Looking a name up among the handles and among their terms agree.
    pub proof fn lemma_global_term(&self, arena: &Allocator, name: Seq<char>)
        ensures
            global_term(self.global_terms(arena), name) == match global_lookup(self.globals_view(), name) {
                None => None,
                Some(h) => Some(arena.term_of(h)),
            },
    {
        self.lemma_global_term_prefix(arena, name, self.globals@.len() as int);
        assert(self.globals_view().subrange(0, self.globals@.len() as int) =~= self.globals_view());
        assert(self.global_terms(arena).subrange(0, self.globals@.len() as int) =~= self.global_terms(arena));
    }

    proof fn lemma_global_term_prefix(&self, arena: &Allocator, name: Seq<char>, n: int)
        requires
            0 <= n <= self.globals@.len(),
        ensures
            global_term(self.global_terms(arena).subrange(0, n), name) == match global_lookup(
                self.globals_view().subrange(0, n),
                name,
            ) {
                None => None,
                Some(h) => Some(arena.term_of(h)),
            },
        decreases n,
    {
        if n > 0 {
            assert(self.global_terms(arena).subrange(0, n).drop_last() =~= self.global_terms(arena).subrange(0, n - 1));
            assert(self.globals_view().subrange(0, n).drop_last() =~= self.globals_view().subrange(0, n - 1));
            self.lemma_global_term_prefix(arena, name, n - 1);
        }
    }


    /// Growing the arena keeps the terms of the globals.
    pub proof fn lemma_global_terms_extends(&self, arena: &Allocator, old: &Allocator)
        requires
            forall|i: int| 0 <= i < self.globals@.len() ==> old.valid(#[trigger] self.globals@[i].1),
            arena.extends(old),
        ensures
            self.global_terms(arena) == self.global_terms(old),
    {
        assert forall|i: int| 0 <= i < self.globals@.len() implies #[trigger] self.global_terms(arena)[i]
            == self.global_terms(old)[i] by {
            assert(old.valid(self.globals@[i].1));
        }
        assert(self.global_terms(arena).len() == self.global_terms(old).len());
        assert(self.global_terms(arena) =~= self.global_terms(old));
    }


    /// A name that no lookup finds is the name of no global.
    proof fn lemma_absent(&self, name: Seq<char>, n: int)
        requires
            0 <= n <= self.globals@.len(),
            global_lookup(self.globals_view().subrange(0, n), name) is None,
        ensures
            forall|i: int| 0 <= i < n ==> (#[trigger] self.globals@[i]).0@ != name,
        decreases n,
    {
        if n > 0 {
            let pre = self.globals_view().subrange(0, n);
            assert(pre.drop_last() =~= self.globals_view().subrange(0, n - 1));
            self.lemma_absent(name, n - 1);
        }
    }

    pub fn new() -> (r: SymbolTable)
        ensures
            r.globals@.len() == 0,
            r.numbers@.len() == 0,
            r.scopes@.len() == 0,
            r.messages.messages@.len() == 0,
            forall|arena: &Allocator| r.inv(arena),
    {
        SymbolTable {
            globals: Vec::new(),
            numbers: Vec::new(),
            scopes: Vec::new(),
            messages: CompilerMessages::new(),
        }
    }

    pub fn has_errors(&self) -> (r: bool)
        ensures
            r == exists|i: int|
                0 <= i < self.messages.messages@.len() && #[trigger] self.messages.messages@[i] is Error,
    {
        self.messages.has_errors()
    }

    /// The handle bound to a global name.
    pub fn get_global(&self, name: &String) -> (r: Option<ExprRef>)
        ensures
            r == global_lookup(self.globals_view(), name@),
    {
        let mut n: usize = self.globals.len();
        proof {
            assert(self.globals_view().subrange(0, n as int) =~= self.globals_view());
        }
        while n > 0
            invariant
                n <= self.globals@.len(),
                global_lookup(self.globals_view(), name@) == global_lookup(
                    self.globals_view().subrange(0, n as int),
                    name@,
                ),
            decreases n,
        {
            proof {
                let pre = self.globals_view().subrange(0, n as int);
                assert(pre.drop_last() =~= self.globals_view().subrange(0, n - 1));
            }
            if self.globals[n - 1].0 == *name {
                return Some(self.globals[n - 1].1);
            }
            n = n - 1;
        }
        None
    }

    fn scope_lookup(&self, name: &String) -> (r: Option<u64>)
        ensures
            match scope_index(self.scopes_view(), name@) {
                None => r is None,
                Some(k) => r == Some(k as u64),
            },
            r matches Some(k) ==> 1 <= k <= self.scopes@.len(),
    {
        let len = self.scopes.len();
        let mut n: usize = len;
        proof {
            assert(self.scopes_view().subrange(0, len as int) =~= self.scopes_view());
        }
        while n > 0
            invariant
                n <= len,
                len == self.scopes@.len(),
                scope_index(self.scopes_view(), name@) == match scope_index(
                    self.scopes_view().subrange(0, n as int),
                    name@,
                ) {
                    None => None,
                    Some(j) => Some((j + (len - n)) as nat),
                },
            decreases n,
        {
            proof {
                let pre = self.scopes_view().subrange(0, n as int);
                assert(pre.drop_last() =~= self.scopes_view().subrange(0, n - 1));
            }
            if self.scopes[n - 1] == *name {
                return Some((len - n + 1) as u64);
            }
            n = n - 1;
        }
        None
    }

    /// A name in an expression: the innermost binder of that name, else the
    /// global of that name, else an error and variable 1 so parsing can go on.
    pub fn build_term(&mut self, arena: &Allocator, name: &String, offset: Offset) -> (r: ExprRef)
        requires
            arena.wf(),
            old(self).inv(arena),
            old(self).scopes@.len() < 0x7fff_ffff_ffff_ffff,
        ensures
            has_error(final(self).messages.messages@) == (has_error(old(self).messages.messages@) || (
                scope_index(old(self).scopes_view(), name@) is None && global_lookup(
                    old(self).globals_view(),
                    name@,
                ) is None)),
            final(self).inv(arena),
            final(self).globals == old(self).globals,
            final(self).numbers == old(self).numbers,
            final(self).scopes == old(self).scopes,
            arena.valid(r),
            match scope_index(old(self).scopes_view(), name@) {
                Some(k) => arena.term_of(r) == Term::Variable(k as u64) && final(self).messages
                    == old(self).messages,
                None => match global_lookup(old(self).globals_view(), name@) {
                    Some(g) => r == g && final(self).messages == old(self).messages,
                    None => {
                        &&& arena.term_of(r) == Term::Variable(1)
                        &&& one_more(
                            old(self).messages.messages@,
                            final(self).messages.messages@,
                            true,
                            unknown_term_message(name@),
                            old(self).messages.line_for_spec(Some(offset)),
                        )
                    },
                },
            },
    {
        match self.scope_lookup(name) {
            Some(k) => arena.new_term(k),
            None => match self.get_global(name) {
                Some(g) => {
                    proof {
                        self.lemma_global_valid(arena, name@);
                    }
                    g
                },
                None => {
                    proof {
                        reveal_strlit("unknown term: ");
                    }
                    let mut msg = String::from_str("unknown term: ");
                    msg.append(name.as_str());
                    let ghost before = self.messages.messages@;
                    let ghost words = msg@;
                    self.messages.error(msg, Some(offset));
                    proof {
                        lemma_one_more_errors(before, self.messages.messages@, true, words,
                            old(self).messages.line_for_spec(Some(offset)));
                    }
                    arena.new_term(1)
                },
            },
        }
    }

    pub proof fn lemma_global_valid(&self, arena: &Allocator, name: Seq<char>)
        requires
            self.inv(arena),
        ensures
            global_lookup(self.globals_view(), name) matches Some(g) ==> arena.valid(g),
    {
        let gv = self.globals_view();
        assert forall|n: int| 0 <= n <= gv.len() implies (global_lookup(#[trigger] gv.subrange(0, n), name) matches Some(g) ==> arena.valid(g)) by {
            self.lemma_global_valid_prefix(arena, name, n);
        }
        assert(gv.subrange(0, gv.len() as int) =~= gv);
    }

    proof fn lemma_global_valid_prefix(&self, arena: &Allocator, name: Seq<char>, n: int)
        requires
            self.inv(arena),
            0 <= n <= self.globals@.len(),
        ensures
            global_lookup(self.globals_view().subrange(0, n), name) matches Some(g) ==> arena.valid(g),
        decreases n,
    {
        let pre = self.globals_view().subrange(0, n);
        if n > 0 {
            assert(pre.drop_last() =~= self.globals_view().subrange(0, n - 1));
            assert(arena.valid(self.globals@[n - 1].1));
            self.lemma_global_valid_prefix(arena, name, n - 1);
        }
    }

    /// Enter a binder. A warning when it shadows an enclosing binder or a global.
    pub fn start_lambda(&mut self, name: String, offset: Offset)
        ensures
            has_error(final(self).messages.messages@) == has_error(old(self).messages.messages@),
            final(self).globals == old(self).globals,
            final(self).numbers == old(self).numbers,
            final(self).scopes@ == old(self).scopes@.push(name),
            final(self).messages.line_starts() == old(self).messages.line_starts(),
            if scope_index(old(self).scopes_view(), name@) is Some {
                one_more(
                    old(self).messages.messages@,
                    final(self).messages.messages@,
                    false,
                    shadow_parameter_message(name@),
                    old(self).messages.line_for_spec(Some(offset)),
                )
            } else if global_lookup(old(self).globals_view(), name@) is Some {
                one_more(
                    old(self).messages.messages@,
                    final(self).messages.messages@,
                    false,
                    shadow_global_message(name@),
                    old(self).messages.line_for_spec(Some(offset)),
                )
            } else {
                final(self).messages.messages@ == old(self).messages.messages@
            },
    {
        proof {
            reveal_strlit("parameter ");
            reveal_strlit(" shadows outer parameter of the same name");
            reveal_strlit(" shadows variable of the same name");
        }
        if self.scope_lookup(&name).is_some() {
            let mut msg = String::from_str("parameter ");
            msg.append(name.as_str());
            msg.append(" shadows outer parameter of the same name");
            let ghost before = self.messages.messages@;
            let ghost words = msg@;
            self.messages.warning(msg, Some(offset));
            proof {
                lemma_one_more_errors(before, self.messages.messages@, false, words,
                    old(self).messages.line_for_spec(Some(offset)));
            }
        } else if self.get_global(&name).is_some() {
            let mut msg = String::from_str("parameter ");
            msg.append(name.as_str());
            msg.append(" shadows variable of the same name");
            let ghost before = self.messages.messages@;
            let ghost words = msg@;
            self.messages.warning(msg, Some(offset));
            proof {
                lemma_one_more_errors(before, self.messages.messages@, false, words,
                    old(self).messages.line_for_spec(Some(offset)));
            }
        }
        self.scopes.push(name);
    }

    /// Leave the binders of `names` (innermost last) and wrap `body` in them.
    pub fn build_lambda(&mut self, arena: &mut Allocator, names: Vec<String>, body: ExprRef) -> (r:
        ExprRef)
        requires
            old(arena).wf(),
            old(arena).valid(body),
            old(self).inv(old(arena)),
            names@.len() <= old(self).scopes@.len(),
            forall|i: int| 0 <= i < names@.len() ==> (#[trigger] names@[i])@.len() >= 1,
        ensures
            final(arena).wf(),
            final(arena).extends(old(arena)),
            final(self).inv(final(arena)),
            final(self).globals == old(self).globals,
            final(self).numbers == old(self).numbers,
            final(self).messages == old(self).messages,
            final(self).scopes@ == old(self).scopes@.subrange(
                0,
                old(self).scopes@.len() - names@.len(),
            ),
            final(arena).valid(r),
            final(arena).term_of(r) == wrap_lambdas(names@.len(), old(arena).term_of(body)),
    {
        let ghost b = arena.term_of(body);
        let mut result = body;
        let mut i: usize = names.len();
        while i > 0
            invariant
                i <= names@.len(),
                names@.len() <= old(self).scopes@.len(),
                forall|j: int| 0 <= j < names@.len() ==> (#[trigger] names@[j])@.len() >= 1,
                arena.wf(),
                arena.extends(old(arena)),
                self.inv(arena),
                self.globals == old(self).globals,
                self.numbers == old(self).numbers,
                self.messages == old(self).messages,
                self.scopes@ == old(self).scopes@.subrange(
                    0,
                    old(self).scopes@.len() - (names@.len() - i),
                ),
                arena.valid(result),
                arena.term_of(result) == wrap_lambdas((names@.len() - i) as nat, b),
                b == old(arena).term_of(body),
            decreases i,
        {
            i = i - 1;
            self.scopes.pop();
            let ghost before = *arena;
            let name = names[i].clone();
            let id = arena.intern(name);
            result = arena.new_lambda(id, result);
            proof {
                self.lemma_inv_extends(arena, &before);
                assert(self.scopes@ =~= old(self).scopes@.subrange(
                    0,
                    old(self).scopes@.len() - (names@.len() - i),
                ));
            }
        }
        result
    }

    /// Apply `left` to each of `params` in turn.
    pub fn build_eval(&mut self, arena: &mut Allocator, left: ExprRef, params: Vec<ExprRef>) -> (r:
        ExprRef)
        requires
            old(arena).wf(),
            old(arena).valid(left),
            forall|i: int| 0 <= i < params@.len() ==> old(arena).valid(#[trigger] params@[i]),
            old(self).inv(old(arena)),
        ensures
            final(arena).wf(),
            final(arena).extends(old(arena)),
            final(self).inv(final(arena)),
            *final(self) == *old(self),
            final(arena).valid(r),
            final(arena).term_of(r) == apply_all(
                old(arena).term_of(left),
                params@.map_values(|p: ExprRef| old(arena).term_of(p)),
            ),
    {
        let ghost terms = params@.map_values(|p: ExprRef| old(arena).term_of(p));
        let mut result = left;
        let mut i: usize = 0;
        while i < params.len()
            invariant
                i <= params@.len(),
                forall|j: int| 0 <= j < params@.len() ==> old(arena).valid(#[trigger] params@[j]),
                terms == params@.map_values(|p: ExprRef| old(arena).term_of(p)),
                arena.wf(),
                arena.extends(old(arena)),
                self.inv(arena),
                arena.valid(result),
                arena.term_of(result) == apply_all(old(arena).term_of(left), terms.subrange(0, i as int)),
            decreases params.len() - i,
        {
            let ghost before = *arena;
            proof {
                assert(old(arena).valid(params@[i as int]));
            }
            result = arena.new_eval(result, params[i]);
            proof {
                self.lemma_inv_extends(arena, &before);
                assert(terms.subrange(0, i + 1).drop_last() =~= terms.subrange(0, i as int));
            }
            i = i + 1;
        }
        proof {
            assert(terms.subrange(0, params@.len() as int) =~= terms);
        }
        result
    }

    /// The Church numeral `number`, reusing the cached bodies of smaller ones.
    pub fn build_number(&mut self, arena: &mut Allocator, number: u64) -> (r: ExprRef)
        requires
            old(arena).wf(),
            old(self).inv(old(arena)),
        ensures
            final(arena).wf(),
            final(arena).extends(old(arena)),
            final(self).inv(final(arena)),
            final(self).globals == old(self).globals,
            final(self).scopes == old(self).scopes,
            final(self).messages == old(self).messages,
            final(arena).valid(r),
            final(arena).term_of(r) == church(number as nat),
            final(self).numbers@.len() == if old(self).numbers@.len() > number as nat {
                old(self).numbers@.len()
            } else {
                number as nat + 1
            },
            forall|i: int| 0 <= i < old(self).numbers@.len() ==> #[trigger] final(self).numbers@[i]
                == old(self).numbers@[i],
            match final(arena).unpack_spec(r) {
                UnpackedExpr::Lambda { parameter_name: f, body: inner } => {
                    &&& final(arena).names()[f as int] == "f"@
                    &&& match final(arena).unpack_spec(inner) {
                        UnpackedExpr::Lambda { parameter_name: x, body } => final(arena).names()[x as int]
                            == "x"@ && body == final(self).numbers@[number as int],
                        _ => false,
                    }
                },
                _ => false,
            },
    {
        if self.numbers.len() == 0 {
            let one = arena.new_term(1);
            self.numbers.push(one);
        }
        let mut lambda_number = self.numbers[self.numbers.len() - 1];
        if (number as u128) < self.numbers.len() as u128 {
            lambda_number = self.numbers[number as usize];
        }
        while (self.numbers.len() as u128) <= number as u128
            invariant
                arena.wf(),
                arena.extends(old(arena)),
                self.inv(arena),
                self.globals == old(self).globals,
                self.scopes == old(self).scopes,
                self.messages == old(self).messages,
                self.numbers@.len() >= 1,
                arena.valid(lambda_number),
                (self.numbers@.len() as u128) <= number as u128 ==> lambda_number == self.numbers@.last(),
                (self.numbers@.len() as u128) > number as u128 ==> arena.term_of(lambda_number)
                    == church_body(number as nat),
                (self.numbers@.len() as u128) > number as u128 ==> lambda_number == self.numbers@[number as int],
                old(self).numbers@.len() > number as nat ==> self.numbers@.len() == old(self).numbers@.len(),
                old(self).numbers@.len() <= number as nat ==> self.numbers@.len() <= number as nat + 1,
                old(self).numbers@.len() <= self.numbers@.len(),
                forall|i: int| 0 <= i < old(self).numbers@.len() ==> #[trigger] self.numbers@[i]
                    == old(self).numbers@[i],
            decreases number as u128 + 1 - self.numbers@.len() as u128,
        {
            let ghost before = *arena;
            let f = arena.new_term(2);
            lambda_number = arena.new_eval(f, lambda_number);
            proof {
                self.lemma_inv_extends(arena, &before);
            }
            self.numbers.push(lambda_number);
        }
        let ghost before = *arena;
        proof {
            reveal_strlit("x");
            reveal_strlit("f");
        }
        let x_name = arena.intern(String::from_str("x"));
        let f_name = arena.intern(String::from_str("f"));
        let inner = arena.new_lambda(x_name, lambda_number);
        let ghost mid = *arena;
        let r = arena.new_lambda(f_name, inner);
        proof {
            self.lemma_inv_extends(arena, &before);
            assert(arena.unpack_spec(inner) == mid.unpack_spec(inner));
        }
        r
    }

    /// Bind a global name; a second definition of the same name is an error.
    pub fn declare_global(&mut self, name: String, expr: ExprRef, offset: Offset, arena: &Allocator)
        requires
            old(self).inv(arena),
            arena.valid(expr),
        ensures
            has_error(old(self).messages.messages@) ==> has_error(final(self).messages.messages@),
            final(self).inv(arena),
            final(self).numbers == old(self).numbers,
            final(self).scopes == old(self).scopes,
            global_lookup(old(self).globals_view(), name@) is Some ==> {
                &&& final(self).globals == old(self).globals
                &&& one_more(
                    old(self).messages.messages@,
                    final(self).messages.messages@,
                    true,
                    duplicate_message(name@),
                    old(self).messages.line_for_spec(Some(offset)),
                )
            },
            global_lookup(old(self).globals_view(), name@) is None ==> {
                &&& final(self).globals@ == old(self).globals@.push((name, expr))
                &&& final(self).messages == old(self).messages
            },
    {
        if self.get_global(&name).is_some() {
            proof {
                reveal_strlit("duplicate variable ");
            }
            let mut msg = String::from_str("duplicate variable ");
            msg.append(name.as_str());
            let ghost before = self.messages.messages@;
            let ghost words = msg@;
            self.messages.error(msg, Some(offset));
            proof {
                lemma_one_more_errors(before, self.messages.messages@, true, words,
                    old(self).messages.line_for_spec(Some(offset)));
            }
            return;
        }
        proof {
            assert(self.globals_view().subrange(0, self.globals@.len() as int) =~= self.globals_view());
            self.lemma_absent(name@, self.globals@.len() as int);
        }
        self.globals.push((name, expr));
    }
}

} // verus!
