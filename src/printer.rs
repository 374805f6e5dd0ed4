//! The pretty-printer: restores parameter names from de Bruijn indices. A
//! binder whose name is already bound around it gets one prime (′) for each
//! enclosing binder of that name, and so do the variables that refer to it.
use vstd::prelude::*;
use vstd::string::StringExecFns;
use crate::codec::decimal;
use crate::expr::{Allocator, ExprRef, UnpackedExpr};
use crate::messages::decimal_text;

verus! {

/// How variables are shown.
#[derive(Debug, Clone, Copy, PartialEq, Eq, Structural)]
pub enum VariableStyle {
    /// By the name of their binder (the index when no binder encloses them).
    Named,
    /// By their de Bruijn index.
    Index,
    /// By their de Bruijn index with a minus sign.
    NegativeIndex,
}

/// `k` primes.
pub open spec fn primes(k: nat) -> Seq<char> {
    Seq::new(k, |i: int| '′')
}

/// How many binders on the stack carry the name `n`.
pub open spec fn count_named(stack: Seq<(Seq<char>, nat)>, n: Seq<char>) -> nat
    decreases stack.len(),
{
    if stack.len() == 0 {
        0
    } else {
        count_named(stack.drop_last(), n) + if stack.last().0 == n {
            1nat
        } else {
            0nat
        }
    }
}

/// The text of variable `i` under the binders on `stack` (innermost last).
pub open spec fn var_text(stack: Seq<(Seq<char>, nat)>, i: u64, style: VariableStyle) -> Seq<char> {
    match style {
        VariableStyle::Index => decimal(i as nat),
        VariableStyle::NegativeIndex => seq!['-'] + decimal(i as nat),
        VariableStyle::Named => if 1 <= i <= stack.len() {
            stack[stack.len() - i].0 + primes(stack[stack.len() - i].1)
        } else {
            decimal(i as nat)
        },
    }
}

/// The text of `h` under the binders on `stack`.
pub open spec fn shown(
    arena: &Allocator,
    h: ExprRef,
    stack: Seq<(Seq<char>, nat)>,
    style: VariableStyle,
    alternate: bool,
) -> Seq<char>
    decreases Allocator::rank(h),
{
    match arena.unpack_spec(h) {
        UnpackedExpr::Term { de_bruijn_index } => var_text(stack, de_bruijn_index, style),
        UnpackedExpr::Lambda { parameter_name, body } => if Allocator::rank(body) < Allocator::rank(h) {
            let n = arena.names()[parameter_name as int];
            let c = count_named(stack, n);
            (if alternate { seq!['λ'] } else { seq!['\\'] }) + n + primes(c) + seq!['.'] + shown(
                arena,
                body,
                stack.push((n, c)),
                style,
                alternate,
            )
        } else {
            Seq::empty()
        },
        UnpackedExpr::Eval { left, right } => if Allocator::rank(left) < Allocator::rank(h)
            && Allocator::rank(right) < Allocator::rank(h) {
            seq!['('] + shown(arena, left, stack, style, alternate) + seq![' '] + shown(
                arena,
                right,
                stack,
                style,
                alternate,
            ) + seq![')']
        } else {
            Seq::empty()
        },
    }
}

/// Writes terms with their parameter names.
pub struct Printer {
    pub style: VariableStyle,
    pub alternate: bool,
    pub stack: Vec<(usize, u64)>,
}

impl Printer {
    /// The binders entered so far, as names with their prime counts.
    pub closed spec fn stack_view(&self, arena: &Allocator) -> Seq<(Seq<char>, nat)> {
        self.stack@.map_values(|e: (usize, u64)| (arena.names()[e.0 as int], e.1 as nat))
    }

    pub closed spec fn inv(&self, arena: &Allocator) -> bool {
        &&& forall|k: int| 0 <= k < self.stack@.len() ==> (#[trigger] self.stack@[k]).0 < arena.names().len()
    }

    pub fn new(style: VariableStyle, alternate: bool) -> (r: Printer)
        ensures
            r.style == style,
            r.alternate == alternate,
            forall|arena: &Allocator| r.inv(arena) && r.stack_view(arena) == Seq::<(Seq<char>, nat)>::empty(),
    {
        let r = Printer { style, alternate, stack: Vec::new() };
        proof {
            assert forall|arena: &Allocator| r.stack_view(arena) == Seq::<(Seq<char>, nat)>::empty() by {
                assert(r.stack_view(arena) =~= Seq::<(Seq<char>, nat)>::empty());
            }
        }
        r
    }

    fn count(&self, arena: &Allocator, name: usize) -> (r: u64)
        requires
            self.inv(arena),
            name < arena.names().len(),
        ensures
            r == count_named(self.stack_view(arena), arena.names()[name as int]),
    {
        let n = arena.name(name);
        let mut k: usize = 0;
        let mut c: u64 = 0;
        while k < self.stack.len()
            invariant
                k <= self.stack@.len(),
                self.inv(arena),
                n@ == arena.names()[name as int],
                c == count_named(self.stack_view(arena).subrange(0, k as int), n@),
                c <= k,
            decreases self.stack.len() - k,
        {
            proof {
                assert(self.stack_view(arena).subrange(0, k + 1).drop_last() =~= self.stack_view(
                    arena,
                ).subrange(0, k as int));
            }
            let other = arena.name(self.stack[k].0);
            if str_eq(other, n) {
                c = c + 1;
            }
            k = k + 1;
        }
        proof {
            assert(self.stack_view(arena).subrange(0, self.stack@.len() as int) =~= self.stack_view(
                arena,
            ));
        }
        c
    }

    fn push_primes(out: &mut String, k: u64)
        ensures
            final(out)@ == old(out)@ + primes(k as nat),
    {
        let mut i: u64 = 0;
        proof {
            reveal_strlit("′");
        }
        while i < k
            invariant
                i <= k,
                out@ == old(out)@ + primes(i as nat),
            decreases k - i,
        {
            out.append("′");
            proof {
                reveal_strlit("′");
                assert(old(out)@ + primes(i as nat) + "′"@ =~= old(out)@ + primes((i + 1) as nat));
            }
            i = i + 1;
        }
    }

    /// Append the text of `expr` to `out`.
    pub fn visit(&mut self, arena: &Allocator, expr: ExprRef, out: &mut String)
        requires
            arena.wf(),
            arena.valid(expr),
            old(self).inv(arena),
        ensures
            final(self).inv(arena),
            final(self).style == old(self).style,
            final(self).alternate == old(self).alternate,
            final(self).stack_view(arena) == old(self).stack_view(arena),
            final(out)@ == old(out)@ + shown(
                arena,
                expr,
                old(self).stack_view(arena),
                old(self).style,
                old(self).alternate,
            ),
        decreases Allocator::rank(expr),
    {
        let ghost stack = self.stack_view(arena);
        proof {
            reveal_strlit("λ");
            reveal_strlit("\\");
            reveal_strlit(".");
            reveal_strlit("(");
            reveal_strlit(" ");
            reveal_strlit(")");
            reveal_strlit("-");
        }
        match expr.unpack(arena) {
            UnpackedExpr::Term { de_bruijn_index } => {
                match self.style {
                    VariableStyle::Index => {
                        let t = decimal_text(de_bruijn_index);
                        out.append(t.as_str());
                    },
                    VariableStyle::NegativeIndex => {
                        out.append("-");
                        let t = decimal_text(de_bruijn_index);
                        out.append(t.as_str());
                    },
                    VariableStyle::Named => {
                        let len = self.stack.len();
                        if de_bruijn_index as u128 <= len as u128 {
                            let (name, count) = self.stack[len - de_bruijn_index as usize];
                            out.append(arena.name(name));
                            Self::push_primes(out, count);
                        } else {
                            let t = decimal_text(de_bruijn_index);
                            out.append(t.as_str());
                        }
                    },
                }
            },
            UnpackedExpr::Lambda { parameter_name, body } => {
                let count = self.count(arena, parameter_name);
                if self.alternate {
                    out.append("λ");
                } else {
                    out.append("\\");
                }
                out.append(arena.name(parameter_name));
                Self::push_primes(out, count);
                out.append(".");
                self.stack.push((parameter_name, count));
                proof {
                    assert(self.stack_view(arena) =~= stack.push((arena.names()[parameter_name as int], count as nat)));
                }
                self.visit(arena, body, out);
                let ghost pushed = self.stack@;
                let ghost pv = self.stack_view(arena);
                self.stack.pop();
                proof {
                    assert(self.stack@ =~= pushed.drop_last());
                    assert(pv.len() == stack.len() + 1);
                    assert forall|k: int| 0 <= k < stack.len() implies #[trigger] self.stack_view(arena)[k] == stack[k] by {
                        assert(self.stack_view(arena)[k] == pv[k]);
                        assert(pv[k] == stack.push((arena.names()[parameter_name as int], count as nat))[k]);
                    }
                    assert(self.stack_view(arena) =~= stack);
                }
            },
            UnpackedExpr::Eval { left, right } => {
                out.append("(");
                self.visit(arena, left, out);
                out.append(" ");
                self.visit(arena, right, out);
                out.append(")");
            },
        }
    }
}

/// Character-wise equality of two strings.
fn str_eq(a: &str, b: &str) -> (r: bool)
    ensures
        r == (a@ == b@),
{
    let x = String::from_str(a);
    let y = String::from_str(b);
    x == y
}

/// The text of `expr` with named variables.
pub fn to_text(arena: &Allocator, expr: ExprRef, alternate: bool) -> (r: String)
    requires
        arena.wf(),
        arena.valid(expr),
    ensures
        r@ == shown(arena, expr, Seq::empty(), VariableStyle::Named, alternate),
{
    let mut printer = Printer::new(VariableStyle::Named, alternate);
    let mut out = String::new();
    printer.visit(arena, expr, &mut out);
    proof {
        assert(out@ =~= shown(arena, expr, Seq::empty(), VariableStyle::Named, alternate));
    }
    out
}

} // verus!
