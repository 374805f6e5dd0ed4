//! The façade over the interpreter: one arena and one binder for a session.
//! Loading binds global definitions and returns the statements to evaluate;
//! evaluation builds above the loaded terms, and what it built can be
//! released in one step afterwards.
use vstd::prelude::*;
use std::sync::atomic::AtomicBool;
use crate::evaluator::Evaluator;
use crate::expr::{Allocator, ExprRef, child_ok};
use crate::messages::{CompilerMessages, Offset, has_error, lemma_one_more_errors};
use crate::parser::{Parser, Token, expression_of, lex_at, program_at, statement_of, token_view, tokenize};
use crate::symbol_table::global_term;
use crate::term::Term;
use crate::printer::{shown, to_text, VariableStyle};
use crate::symbol_table::{SymbolTable, global_lookup};
use crate::term::{is_normal, normalize_within};

verus! {

broadcast use vstd::string::axiom_spec_iter;

/// The characters of a string.
pub fn chars_of(s: &str) -> (r: Vec<char>)
    ensures
        r@ == s@,
{
    let mut v: Vec<char> = Vec::new();
    for c in it: s.chars()
        invariant
            v@ == it.seq().subrange(0, it.index() as int),
            it.seq() == s@,
    {
        v.push(c);
    }
    proof {
        assert(v@ =~= s@);
    }
    v
}

/// `toks` are the tokens of `code`.
pub open spec fn lexes_to(code: Seq<char>, toks: Seq<Token>) -> bool {
    lex_at(code, 0) == Ok::<Seq<(crate::parser::KindView, int)>, int>(toks.map_values(|t: Token| token_view(t)))
}

/// What loading a program owes, given its tokens: `Err` when it does not
/// parse or does not bind without error; otherwise its expression
/// statements' terms, in order, and the globals it leaves.
pub open spec fn program_outcome(
    toks: Seq<Token>,
    before: Seq<(Seq<char>, Term)>,
    after: Seq<(Seq<char>, Term)>,
    arena: &Allocator,
    r: Result<Vec<ExprRef>, ()>,
) -> bool {
    match program_at(toks, 0, before) {
        None => r is Err,
        Some((es, g, ok)) => (r is Ok <==> ok) && (r matches Ok(v) ==> es == v@.map_values(
            |h: ExprRef| arena.term_of(h),
        ) && g == after),
    }
}

/// What loading one statement owes, given its tokens.
pub open spec fn statement_outcome(
    toks: Seq<Token>,
    before: Seq<(Seq<char>, Term)>,
    after: Seq<(Seq<char>, Term)>,
    arena: &Allocator,
    r: Result<Option<ExprRef>, ()>,
) -> bool {
    match statement_of(toks, before) {
        None => r is Err,
        Some((name, t, k)) => match name {
            Some(n) => {
                let dup = global_term(before, n) is Some;
                &&& (r is Ok <==> k && !dup)
                &&& r is Ok ==> r == Ok::<Option<ExprRef>, ()>(None) && after == before.push((n, t))
            },
            None => {
                &&& (r is Ok <==> k)
                &&& r matches Ok(x) ==> x matches Some(h) && arena.valid(h) && arena.term_of(h) == t
                    && after == before
            },
        },
    }
}

/// What loading one expression owes, given its tokens.
pub open spec fn expression_outcome(
    toks: Seq<Token>,
    globals: Seq<(Seq<char>, Term)>,
    arena: &Allocator,
    r: Result<ExprRef, ()>,
) -> bool {
    match expression_of(toks, globals) {
        None => r is Err,
        Some((t, k)) => (r is Ok <==> k) && (r matches Ok(h) ==> arena.valid(h) && arena.term_of(h) == t),
    }
}

/// Holds the arena of a session, its globals and numerals, and the
/// diagnostics of the last load.
pub struct Executor {
    pub arena: Allocator,
    pub symbols: SymbolTable,
    /// Every term the binder keeps lies below this cell position.
    pub floor: usize,
}

impl Executor {
    pub open spec fn inv(&self) -> bool {
        &&& self.arena.wf()
        &&& self.symbols.inv(&self.arena)
        &&& self.floor <= self.arena.cells().len()
        &&& forall|i: int| 0 <= i < self.symbols.globals@.len() ==> child_ok(
            #[trigger] self.symbols.globals@[i].1,
            self.floor as int,
        )
        &&& forall|i: int| 0 <= i < self.symbols.numbers@.len() ==> child_ok(
            #[trigger] self.symbols.numbers@[i],
            self.floor as int,
        )
    }

    pub fn new() -> (r: Executor)
        ensures
            r.inv(),
    {
        Executor { arena: Allocator::new(), symbols: SymbolTable::new(), floor: 0 }
    }

    /// The handle bound to a global name.
    pub fn get_global(&self, name: &String) -> (r: Option<ExprRef>)
        requires
            self.inv(),
        ensures
            r == global_lookup(self.symbols.globals_view(), name@),
            r matches Some(h) ==> self.arena.valid(h),
    {
        let r = self.symbols.get_global(name);
        proof {
            self.symbols.lemma_global_valid(&self.arena, name@);
        }
        r
    }

    /// The global definitions, in the order they were made.
    pub fn all_globals(&self) -> (r: &Vec<(String, ExprRef)>)
        ensures
            r == &self.symbols.globals,
    {
        &self.symbols.globals
    }

    /// The diagnostics of the last load.
    pub fn messages(&self) -> (r: &CompilerMessages)
        ensures
            r == &self.symbols.messages,
    {
        &self.symbols.messages
    }

    /// Every term the binder keeps is below the current end of the arena.
    proof fn lemma_raise_floor(&self)
        requires
            self.arena.wf(),
            self.symbols.inv(&self.arena),
        ensures
            forall|i: int| 0 <= i < self.symbols.globals@.len() ==> child_ok(
                #[trigger] self.symbols.globals@[i].1,
                self.arena.cells().len() as int,
            ),
            forall|i: int| 0 <= i < self.symbols.numbers@.len() ==> child_ok(
                #[trigger] self.symbols.numbers@[i],
                self.arena.cells().len() as int,
            ),
    {
        assert forall|i: int| 0 <= i < self.symbols.globals@.len() implies child_ok(
            #[trigger] self.symbols.globals@[i].1,
            self.arena.cells().len() as int,
        ) by {
            self.arena.lemma_valid_below(self.symbols.globals@[i].1);
        }
        assert forall|i: int| 0 <= i < self.symbols.numbers@.len() implies child_ok(
            #[trigger] self.symbols.numbers@[i],
            self.arena.cells().len() as int,
        ) by {
            self.arena.lemma_valid_below(self.symbols.numbers@[i]);
        }
    }

    fn start(&mut self, code: &str) -> (r: Option<Parser>)
        requires
            old(self).inv(),
        ensures
            final(self).inv(),
            final(self).arena == old(self).arena,
            final(self).floor == old(self).floor,
            final(self).symbols.globals == old(self).symbols.globals,
            final(self).symbols.numbers == old(self).symbols.numbers,
            r matches Some(p) ==> p.inv(),
            r matches Some(p) ==> p.pos == 0 && lexes_to(code@, p.tokens@),
            r is Some <==> lex_at(code@, 0) is Ok,
            r is Some <==> !has_error(final(self).symbols.messages.messages@),
    {
        let chars = chars_of(code);
        self.symbols.messages = CompilerMessages::new();
        self.symbols.messages.set_line_numbers(&chars);
        match tokenize(&chars) {
            Ok(tokens) => Some(Parser::new(tokens, chars.len())),
            Err(offset) => {
                let ghost line = self.symbols.messages.line_for_spec(Some(Offset(offset)));
                let text = String::from_str("unexpected character");
                let ghost words = text@;
                self.symbols.messages.error(text, Some(Offset(offset)));
                proof {
                    lemma_one_more_errors(
                        Seq::empty(),
                        self.symbols.messages.messages@,
                        true,
                        words,
                        line,
                    );
                }
                None
            },
        }
    }

    /// Finish a load: what the binder now keeps lies below the new floor.
    fn settle(&mut self)
        requires
            old(self).arena.wf(),
            old(self).symbols.inv(&old(self).arena),
        ensures
            final(self).inv(),
            final(self).arena == old(self).arena,
            final(self).symbols == old(self).symbols,
    {
        proof {
            self.lemma_raise_floor();
        }
        self.floor = self.arena.len();
    }

    /// Load a program: bind its assignments and return its other statements,
    /// in order. `Err` when the text does not parse or binding reported an
    /// error; the diagnostics are in `messages`.
    pub fn load_code(&mut self, code: &str) -> (r: Result<Vec<ExprRef>, ()>)
        requires
            old(self).inv(),
        ensures
            lex_at(code@, 0) is Err ==> r is Err,
            lex_at(code@, 0) is Ok ==> exists|toks: Seq<Token>| lexes_to(code@, toks) && #[trigger] program_outcome(
                toks,
                old(self).symbols.global_terms(&old(self).arena),
                final(self).symbols.global_terms(&final(self).arena),
                &final(self).arena,
                r,
            ),
            final(self).inv(),
            final(self).arena.extends(&old(self).arena),
            r matches Ok(v) ==> forall|i: int| 0 <= i < v@.len() ==> final(self).arena.valid(#[trigger] v@[i]),
            r is Ok <==> !has_error(final(self).symbols.messages.messages@),
    {
        let mut parser = match self.start(code) {
            None => return Err(()),
            Some(p) => p,
        };
        let ghost toks = parser.tokens@;
        let ghost g0 = self.symbols.global_terms(&self.arena);
        proof {
            assert(g0 == old(self).symbols.global_terms(&old(self).arena));
        }
        let result = parser.parse_program(&mut self.symbols, &mut self.arena);
        self.settle();
        let out = match result {
            Err(()) => Err(()),
            Ok(v) => if self.symbols.has_errors() {
                Err(())
            } else {
                Ok(v)
            },
        };
        proof {
            assert(lexes_to(code@, toks));
            assert(program_outcome(toks, g0, self.symbols.global_terms(&self.arena), &self.arena, out));
        }
        out
    }

    /// Load one line: an assignment (giving `None`) or an expression.
    pub fn load_statement(&mut self, code: &str) -> (r: Result<Option<ExprRef>, ()>)
        requires
            old(self).inv(),
        ensures
            lex_at(code@, 0) is Err ==> r is Err,
            lex_at(code@, 0) is Ok ==> exists|toks: Seq<Token>| lexes_to(code@, toks) && #[trigger] statement_outcome(
                toks,
                old(self).symbols.global_terms(&old(self).arena),
                final(self).symbols.global_terms(&final(self).arena),
                &final(self).arena,
                r,
            ),
            final(self).inv(),
            final(self).arena.extends(&old(self).arena),
            r matches Ok(Some(h)) ==> final(self).arena.valid(h),
            r is Ok <==> !has_error(final(self).symbols.messages.messages@),
    {
        let mut parser = match self.start(code) {
            None => return Err(()),
            Some(p) => p,
        };
        let ghost toks = parser.tokens@;
        let ghost g0 = self.symbols.global_terms(&self.arena);
        proof {
            assert(g0 == old(self).symbols.global_terms(&old(self).arena));
        }
        let result = parser.parse_statement(&mut self.symbols, &mut self.arena);
        self.settle();
        let out = match result {
            Err(()) => Err(()),
            Ok(v) => if self.symbols.has_errors() {
                Err(())
            } else {
                Ok(v)
            },
        };
        proof {
            assert(lexes_to(code@, toks));
            assert(statement_outcome(toks, g0, self.symbols.global_terms(&self.arena), &self.arena, out));
        }
        out
    }

    /// Load a single expression.
    pub fn load_expression(&mut self, code: &str) -> (r: Result<ExprRef, ()>)
        requires
            old(self).inv(),
        ensures
            lex_at(code@, 0) is Err ==> r is Err,
            lex_at(code@, 0) is Ok ==> exists|toks: Seq<Token>| lexes_to(code@, toks) && #[trigger] expression_outcome(
                toks,
                old(self).symbols.global_terms(&old(self).arena),
                &final(self).arena,
                r,
            ),
            final(self).symbols.globals == old(self).symbols.globals,
            final(self).inv(),
            final(self).arena.extends(&old(self).arena),
            r matches Ok(h) ==> final(self).arena.valid(h),
            r is Ok <==> !has_error(final(self).symbols.messages.messages@),
    {
        let mut parser = match self.start(code) {
            None => return Err(()),
            Some(p) => p,
        };
        let ghost toks = parser.tokens@;
        let ghost g0 = self.symbols.global_terms(&self.arena);
        proof {
            assert(g0 == old(self).symbols.global_terms(&old(self).arena));
        }
        let result = parser.parse_expression(&mut self.symbols, &mut self.arena);
        self.settle();
        let out = match result {
            Err(()) => Err(()),
            Ok(v) => if self.symbols.has_errors() {
                Err(())
            } else {
                Ok(v)
            },
        };
        proof {
            assert(lexes_to(code@, toks));
            assert(expression_outcome(toks, g0, &self.arena, out));
        }
        out
    }

    /// The number of cells in the arena: a point to release back to.
    pub fn mark(&self) -> (r: usize)
        ensures
            r == self.arena.cells().len(),
    {
        self.arena.len()
    }

    /// Release every cell built since `mark`, in one step.
    pub fn release_to(&mut self, mark: usize)
        requires
            old(self).inv(),
            old(self).floor <= mark <= old(self).arena.cells().len(),
        ensures
            final(self).inv(),
            final(self).arena.cells() == old(self).arena.cells().subrange(0, mark as int),
            forall|h: ExprRef| #[trigger] child_ok(h, mark as int) ==> final(self).arena.valid(h)
                && final(self).arena.term_of(h) == old(self).arena.term_of(h),
    {
        self.arena.truncate(mark);
        proof {
            assert forall|i: int| 0 <= i < self.symbols.numbers@.len() implies self.arena.valid(
                #[trigger] self.symbols.numbers@[i],
            ) && self.arena.term_of(self.symbols.numbers@[i]) == crate::symbol_table::church_body(
                i as nat,
            ) by {
                assert(child_ok(self.symbols.numbers@[i], self.floor as int));
                assert(child_ok(self.symbols.numbers@[i], mark as int));
            }
            assert forall|i: int| 0 <= i < self.symbols.globals@.len() implies self.arena.valid(
                #[trigger] self.symbols.globals@[i].1,
            ) by {
                assert(child_ok(self.symbols.globals@[i].1, self.floor as int));
                assert(child_ok(self.symbols.globals@[i].1, mark as int));
            }
        }
    }

    /// Reduce `expr` to normal form within `max_steps` strong passes (see
    /// `Evaluator::evaluate`).
    pub fn evaluate(&mut self, expr: ExprRef, max_steps: u64) -> (r: Option<ExprRef>)
        requires
            old(self).inv(),
            old(self).arena.valid(expr),
        ensures
            final(self).inv(),
            final(self).arena.extends(&old(self).arena),
            match normalize_within(old(self).arena.term_of(expr), max_steps as nat) {
                None => r is None,
                Some(n) => r matches Some(h) && final(self).arena.valid(h)
                    && final(self).arena.term_of(h) == n,
            },
            is_normal(old(self).arena.term_of(expr)) && max_steps >= 1 ==> r == Some(expr),
    {
        let ghost before = self.arena;
        let mut evaluator = Evaluator::new();
        let r = evaluator.evaluate(&mut self.arena, expr, max_steps);
        proof {
            self.symbols.lemma_inv_extends(&self.arena, &before);
        }
        r
    }

    /// Reduce `expr` to normal form unless `abort` is set first (see
    /// `Evaluator::evaluate_with_abort`).
    pub fn evaluate_with_abort(&mut self, expr: ExprRef, abort: &AtomicBool) -> (r: Option<ExprRef>)
        requires
            old(self).inv(),
            old(self).arena.valid(expr),
        ensures
            final(self).inv(),
            final(self).arena.extends(&old(self).arena),
            r matches Some(h) ==> {
                &&& final(self).arena.valid(h)
                &&& is_normal(final(self).arena.term_of(h))
                &&& exists|k: nat| normalize_within(old(self).arena.term_of(expr), k) == Some(
                    final(self).arena.term_of(h),
                )
            },
    {
        let ghost before = self.arena;
        let mut evaluator = Evaluator::new();
        let r = evaluator.evaluate_with_abort(&mut self.arena, expr, abort);
        proof {
            self.symbols.lemma_inv_extends(&self.arena, &before);
        }
        r
    }

    /// The text of `expr`, with parameter names.
    pub fn to_text(&self, expr: ExprRef, alternate: bool) -> (r: String)
        requires
            self.inv(),
            self.arena.valid(expr),
        ensures
            r@ == shown(&self.arena, expr, Seq::empty(), VariableStyle::Named, alternate),
    {
        to_text(&self.arena, expr, alternate)
    }
}

} // verus!
