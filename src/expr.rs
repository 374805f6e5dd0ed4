//! The term arena. A handle (`ExprRef`) is either an inline variable or the
//! position of a cell in an `Allocator`. Cells are never changed once pushed
//! and children always sit at lower positions, so a handle keeps denoting the
//! same term for as long as the arena lives, and two handles are equal only
//! when they name the same cell (or the same inline variable).
use vstd::prelude::*;
use crate::term::{Term, MAX_INDEX, indices_valid};

verus! {

/// Reference to a lambda expression in an arena.
#[derive(Debug, Clone, Copy, PartialEq, Eq, Structural)]
pub enum ExprRef {
    /// A variable, held in the handle itself.
    Inline(u64),
    /// The position of a cell in the arena.
    Node(usize),
}

/// A cell of the arena. A lambda names its parameter by its position in the
/// arena's table of names.
#[derive(Debug, Clone, Copy, PartialEq, Eq, Structural)]
pub enum CompactExpr {
    Lambda { name: usize, body: ExprRef },
    Eval { left: ExprRef, right: ExprRef },
}

/// One step of inspection of a handle.
#[derive(Debug, Clone, Copy, PartialEq, Eq, Structural)]
pub enum UnpackedExpr {
    Term { de_bruijn_index: u64 },
    Lambda { parameter_name: usize, body: ExprRef },
    Eval { left: ExprRef, right: ExprRef },
}

impl CompactExpr {
    pub fn new_lambda(name: usize, body: ExprRef) -> (r: CompactExpr)
        ensures
            r == (CompactExpr::Lambda { name, body }),
    {
        CompactExpr::Lambda { name, body }
    }

    pub fn new_eval(left: ExprRef, right: ExprRef) -> (r: CompactExpr)
        ensures
            r == (CompactExpr::Eval { left, right }),
    {
        CompactExpr::Eval { left, right }
    }
}

/// `h` is an inline variable or a cell allocated at or after position `len`.
pub open spec fn inline_or_new(h: ExprRef, len: nat) -> bool {
    h is Inline || (h is Node && h->Node_0 >= len)
}

/// A handle that may stand inside a cell at position `pos`: an inline
/// variable in range, or an earlier cell.
pub open spec fn child_ok(h: ExprRef, pos: int) -> bool {
    match h {
        ExprRef::Inline(i) => 1 <= i <= MAX_INDEX,
        ExprRef::Node(c) => c < pos,
    }
}

/// Handles to a bump-allocated region of cells, and the interned names of
/// the parameters.
pub struct Allocator {
    cells: Vec<CompactExpr>,
    names: Vec<String>,
}

impl Allocator {
    pub closed spec fn cells(&self) -> Seq<CompactExpr> {
        self.cells@
    }

    /// The interned parameter names.
    pub closed spec fn names(&self) -> Seq<Seq<char>> {
        self.names@.map_values(|s: String| s@)
    }

    pub closed spec fn wf(&self) -> bool {
        &&& forall|c: int|
            0 <= c < self.cells@.len() ==> #[trigger] self.cell_ok(self.cells@[c], c)
        &&& forall|n: int| 0 <= n < self.names@.len() ==> #[trigger] self.names@[n]@.len() >= 1
    }

    pub closed spec fn cell_ok(&self, cell: CompactExpr, pos: int) -> bool {
        match cell {
            CompactExpr::Lambda { name, body } => name < self.names@.len() && child_ok(body, pos),
            CompactExpr::Eval { left, right } => child_ok(left, pos) && child_ok(right, pos),
        }
    }

    /// `h` denotes a term of this arena.
    pub closed spec fn valid(&self, h: ExprRef) -> bool {
        child_ok(h, self.cells@.len() as int)
    }

    /// A handle is valid exactly when it is an inline variable in range or
    /// an existing cell.
    pub proof fn lemma_valid_below(&self, h: ExprRef)
        ensures
            self.valid(h) <==> child_ok(h, self.cells().len() as int),
    {
    }

    /// A measure that shrinks from a cell to its children.
    pub closed spec fn rank(h: ExprRef) -> nat {
        match h {
            ExprRef::Inline(_) => 0,
            ExprRef::Node(c) => c as nat + 1,
        }
    }

    /// The term a handle denotes.
    pub closed spec fn term_of(&self, h: ExprRef) -> Term
        decreases Self::rank(h),
    {
        match h {
            ExprRef::Inline(i) => Term::Variable(i),
            ExprRef::Node(c) => if c < self.cells@.len() {
                match self.cells@[c as int] {
                    CompactExpr::Lambda { name, body } => if Self::rank(body) < Self::rank(h) {
                        Term::Lambda(Box::new(self.term_of(body)))
                    } else {
                        Term::Variable(0)
                    },
                    CompactExpr::Eval { left, right } => if Self::rank(left) < Self::rank(h)
                        && Self::rank(right) < Self::rank(h) {
                        Term::Eval(Box::new(self.term_of(left)), Box::new(self.term_of(right)))
                    } else {
                        Term::Variable(0)
                    },
                }
            } else {
                Term::Variable(0)
            },
        }
    }

    /// The parameter name of a lambda handle (meaningful for lambda cells only).
    pub closed spec fn name_of(&self, h: ExprRef) -> Seq<char> {
        match h {
            ExprRef::Node(c) => match self.cells@[c as int] {
                CompactExpr::Lambda { name, .. } => self.names@[name as int]@,
                _ => Seq::empty(),
            },
            _ => Seq::empty(),
        }
    }

    /// What `unpack` hands out for `h`.
    pub closed spec fn unpack_spec(&self, h: ExprRef) -> UnpackedExpr {
        match h {
            ExprRef::Inline(i) => UnpackedExpr::Term { de_bruijn_index: i },
            ExprRef::Node(c) => match self.cells@[c as int] {
                CompactExpr::Lambda { name, body } => UnpackedExpr::Lambda { parameter_name: name, body },
                CompactExpr::Eval { left, right } => UnpackedExpr::Eval { left, right },
            },
        }
    }

    /// Every handle of `old` is still valid here and denotes the same term
    /// under the same parameter name, and every name of `old` is kept.
    pub open spec fn extends(&self, old: &Allocator) -> bool {
        &&& old.cells().len() <= self.cells().len()
        &&& forall|h: ExprRef| #[trigger] old.valid(h) ==> self.valid(h)
        &&& forall|h: ExprRef| old.valid(h) ==> #[trigger] self.term_of(h) == old.term_of(h)
        &&& forall|h: ExprRef| old.valid(h) ==> #[trigger] self.name_of(h) == old.name_of(h)
        &&& forall|h: ExprRef| old.valid(h) ==> #[trigger] self.unpack_spec(h) == old.unpack_spec(h)
        &&& old.names().len() <= self.names().len()
        &&& forall|n: int| 0 <= n < old.names().len() ==> #[trigger] self.names()[n] == old.names()[n]
    }

    proof fn lemma_term_of_prefix(&self, old: &Allocator, h: ExprRef)
        requires
            old.cells@.len() <= self.cells@.len(),
            forall|c: int| 0 <= c < old.cells@.len() ==> self.cells@[c] == old.cells@[c],
            old.valid(h),
        ensures
            self.term_of(h) == old.term_of(h),
        decreases Self::rank(h),
    {
        match h {
            ExprRef::Inline(_) => {},
            ExprRef::Node(c) => {
                match old.cells@[c as int] {
                    CompactExpr::Lambda { name, body } => {
                        if Self::rank(body) < Self::rank(h) {
                            if old.valid(body) {
                                self.lemma_term_of_prefix(old, body);
                            }
                        }
                    },
                    CompactExpr::Eval { left, right } => {
                        if Self::rank(left) < Self::rank(h) && Self::rank(right) < Self::rank(h) {
                            if old.valid(left) {
                                self.lemma_term_of_prefix(old, left);
                            }
                            if old.valid(right) {
                                self.lemma_term_of_prefix(old, right);
                            }
                        }
                    },
                }
            },
        }
    }

    proof fn lemma_push_extends(&self, old: &Allocator)
        requires
            old.cells@.len() <= self.cells@.len(),
            forall|c: int| 0 <= c < old.cells@.len() ==> self.cells@[c] == old.cells@[c],
            self.names@ == old.names@,
        ensures
            self.extends(old),
    {
        assert forall|h: ExprRef| old.valid(h) implies #[trigger] self.term_of(h) == old.term_of(h) by {
            self.lemma_term_of_prefix(old, h);
        }
        assert forall|h: ExprRef| old.valid(h) implies #[trigger] self.unpack_spec(h) == old.unpack_spec(h) by {
        }
        assert(self.names() =~= old.names());
    }

    /// What `unpack` promises, for use in proofs.
    pub proof fn lemma_unpack_spec(&self, h: ExprRef)
        requires
            self.wf(),
            self.valid(h),
        ensures
            match self.unpack_spec(h) {
                UnpackedExpr::Term { .. } => true,
                UnpackedExpr::Lambda { parameter_name, body } => {
                    &&& self.valid(body)
                    &&& Allocator::rank(body) < Allocator::rank(h)
                    &&& parameter_name < self.names().len()
                    &&& self.name_of(h) == self.names()[parameter_name as int]
                },
                UnpackedExpr::Eval { left, right } => {
                    &&& self.valid(left)
                    &&& self.valid(right)
                    &&& Allocator::rank(left) < Allocator::rank(h)
                    &&& Allocator::rank(right) < Allocator::rank(h)
                },
            },
    {
        if let ExprRef::Node(c) = h {
            assert(self.cell_ok(self.cells@[c as int], c as int));
        }
    }

    /// A valid handle of a well-formed arena denotes a term whose indices are in range.
    pub proof fn lemma_valid_indices(&self, h: ExprRef)
        requires
            self.wf(),
            self.valid(h),
        ensures
            indices_valid(self.term_of(h)),
        decreases Self::rank(h),
    {
        if let ExprRef::Node(c) = h {
            assert(self.cell_ok(self.cells@[c as int], c as int));
            match self.cells@[c as int] {
                CompactExpr::Lambda { name, body } => self.lemma_valid_indices(body),
                CompactExpr::Eval { left, right } => {
                    self.lemma_valid_indices(left);
                    self.lemma_valid_indices(right);
                },
            }
        }
    }

    /// Drop every cell from position `len` on, releasing the terms built
    /// since the arena had that many cells. Handles below `len` keep their terms.
    pub fn truncate(&mut self, len: usize)
        requires
            old(self).wf(),
            len <= old(self).cells().len(),
        ensures
            final(self).wf(),
            final(self).cells() == old(self).cells().subrange(0, len as int),
            final(self).names() == old(self).names(),
            forall|h: ExprRef| #[trigger] child_ok(h, len as int) ==> final(self).valid(h)
                && final(self).term_of(h) == old(self).term_of(h),
    {
        let ghost prev = *self;
        self.cells.truncate(len);
        proof {
            assert forall|c: int| 0 <= c < self.cells@.len() implies #[trigger] self.cell_ok(
                self.cells@[c],
                c,
            ) by {
                assert(prev.cell_ok(prev.cells@[c], c));
            }
            assert forall|h: ExprRef| #[trigger] child_ok(h, len as int) implies self.valid(h)
                && self.term_of(h) == prev.term_of(h) by {
                prev.lemma_term_of_prefix(self, h);
            }
        }
    }

    pub fn new() -> (r: Allocator)
        ensures
            r.wf(),
            r.names().len() == 0,
            forall|h: ExprRef| #[trigger] r.valid(h) <==> h is Inline && 1 <= h->Inline_0 <= MAX_INDEX,
    {
        Allocator { cells: Vec::new(), names: Vec::new() }
    }

    /// The term a handle denotes, as a tree.
    pub fn to_term(&self, h: ExprRef) -> (r: Term)
        requires
            self.wf(),
            self.valid(h),
        ensures
            r == self.term_of(h),
        decreases Self::rank(h),
    {
        match h.unpack(self) {
            UnpackedExpr::Term { de_bruijn_index } => Term::Variable(de_bruijn_index),
            UnpackedExpr::Lambda { body, .. } => Term::Lambda(Box::new(self.to_term(body))),
            UnpackedExpr::Eval { left, right } => Term::Eval(
                Box::new(self.to_term(left)),
                Box::new(self.to_term(right)),
            ),
        }
    }

    /// Number of cells allocated so far.
    pub fn len(&self) -> (r: usize)
        ensures
            r == self.cells().len(),
    {
        self.cells.len()
    }

    /// An inline variable with the given de Bruijn index.
    pub fn new_term(&self, de_bruijn_index: u64) -> (r: ExprRef)
        requires
            1 <= de_bruijn_index <= MAX_INDEX,
        ensures
            r == ExprRef::Inline(de_bruijn_index),
            self.unpack_spec(r) == (UnpackedExpr::Term { de_bruijn_index }),
            self.valid(r),
            self.term_of(r) == Term::Variable(de_bruijn_index),
    {
        ExprRef::Inline(de_bruijn_index)
    }

    /// Intern a parameter name; the result identifies it in `new_lambda`.
    pub fn intern(&mut self, name: String) -> (r: usize)
        requires
            old(self).wf(),
            name@.len() >= 1,
        ensures
            final(self).wf(),
            final(self).extends(old(self)),
            final(self).names() == old(self).names().push(name@),
            r == old(self).names().len(),
            final(self).cells() == old(self).cells(),
    {
        let ghost prev = *self;
        self.names.push(name);
        proof {
            assert forall|c: int| 0 <= c < self.cells@.len() implies #[trigger] self.cell_ok(
                self.cells@[c],
                c,
            ) by {
                assert(prev.cell_ok(prev.cells@[c], c));
            }
            assert forall|h: ExprRef| prev.valid(h) implies #[trigger] self.term_of(h) == prev.term_of(h) by {
                self.lemma_term_of_prefix(&prev, h);
            }
            assert forall|h: ExprRef| prev.valid(h) implies #[trigger] self.name_of(h) == prev.name_of(h) by {
                if let ExprRef::Node(c) = h {
                    assert(prev.cell_ok(prev.cells@[c as int], c as int));
                }
            }
            assert forall|h: ExprRef| prev.valid(h) implies #[trigger] self.unpack_spec(h) == prev.unpack_spec(h) by {
            }
            assert(self.names() =~= prev.names().push(name@));
        }
        self.names.len() - 1
    }

    /// The text of an interned name.
    pub fn name(&self, id: usize) -> (r: &str)
        requires
            id < self.names().len(),
        ensures
            r@ == self.names()[id as int],
    {
        self.names[id].as_str()
    }

    fn push_cell(&mut self, cell: CompactExpr) -> (r: ExprRef)
        requires
            old(self).wf(),
            old(self).cell_ok(cell, old(self).cells@.len() as int),
        ensures
            final(self).wf(),
            final(self).extends(old(self)),
            final(self).valid(r),
            r is Node && r->Node_0 == old(self).cells@.len(),
            final(self).cells@ == old(self).cells@.push(cell),
            final(self).names@ == old(self).names@,
    {
        let ghost prev = *self;
        self.cells.push(cell);
        proof {
            assert forall|c: int| 0 <= c < self.cells@.len() implies #[trigger] self.cell_ok(
                self.cells@[c],
                c,
            ) by {
                if c < prev.cells@.len() {
                    assert(prev.cell_ok(prev.cells@[c], c));
                }
            }
            self.lemma_push_extends(&prev);
            assert forall|h: ExprRef| prev.valid(h) implies #[trigger] self.name_of(h) == prev.name_of(h) by {
            }
        }
        ExprRef::Node(self.cells.len() - 1)
    }

    /// A lambda with the given interned parameter name and body.
    pub fn new_lambda(&mut self, name: usize, body: ExprRef) -> (r: ExprRef)
        requires
            old(self).wf(),
            old(self).valid(body),
            name < old(self).names().len(),
        ensures
            final(self).wf(),
            final(self).extends(old(self)),
            final(self).names() == old(self).names(),
            final(self).valid(r),
            final(self).term_of(r) == Term::Lambda(Box::new(old(self).term_of(body))),
            final(self).name_of(r) == old(self).names()[name as int],
            final(self).unpack_spec(r) == (UnpackedExpr::Lambda { parameter_name: name, body }),
            Allocator::rank(body) < Allocator::rank(r),
            r is Node && r->Node_0 == old(self).cells().len(),
    {
        proof {
            assert(self.names@.len() == self.names().len());
        }
        let r = self.push_cell(CompactExpr::new_lambda(name, body));
        proof {
            assert(self.names() =~= old(self).names());
            assert(Self::rank(body) < Self::rank(r));
            assert(self.term_of(body) == old(self).term_of(body));
            assert(self.term_of(r) == Term::Lambda(Box::new(self.term_of(body))));
        }
        r
    }

    /// An application of `left` to `right`.
    pub fn new_eval(&mut self, left: ExprRef, right: ExprRef) -> (r: ExprRef)
        requires
            old(self).wf(),
            old(self).valid(left),
            old(self).valid(right),
        ensures
            final(self).wf(),
            final(self).extends(old(self)),
            final(self).names() == old(self).names(),
            final(self).valid(r),
            final(self).term_of(r) == Term::Eval(
                Box::new(old(self).term_of(left)),
                Box::new(old(self).term_of(right)),
            ),
            final(self).unpack_spec(r) == (UnpackedExpr::Eval { left, right }),
            Allocator::rank(left) < Allocator::rank(r),
            Allocator::rank(right) < Allocator::rank(r),
            r is Node && r->Node_0 == old(self).cells().len(),
    {
        let r = self.push_cell(CompactExpr::new_eval(left, right));
        proof {
            assert(self.names() =~= old(self).names());
            assert(Self::rank(left) < Self::rank(r) && Self::rank(right) < Self::rank(r));
            assert(self.term_of(left) == old(self).term_of(left));
            assert(self.term_of(right) == old(self).term_of(right));
        }
        r
    }
}


/// `h` in `a` and `g` in `b` have the same binders with the same parameter
/// names, wherever `h` is not a variable (a variable may stand for anything).
pub open spec fn same_names(a: &Allocator, h: ExprRef, b: &Allocator, g: ExprRef) -> bool
    decreases Allocator::rank(h),
{
    match (a.unpack_spec(h), b.unpack_spec(g)) {
        (UnpackedExpr::Term { .. }, _) => true,
        (
            UnpackedExpr::Lambda { parameter_name: n1, body: b1 },
            UnpackedExpr::Lambda { parameter_name: n2, body: b2 },
        ) => Allocator::rank(b1) < Allocator::rank(h) && a.names()[n1 as int] == b.names()[n2 as int]
            && same_names(a, b1, b, b2),
        (UnpackedExpr::Eval { left: l1, right: r1 }, UnpackedExpr::Eval { left: l2, right: r2 }) => {
            &&& Allocator::rank(l1) < Allocator::rank(h)
            &&& Allocator::rank(r1) < Allocator::rank(h)
            &&& same_names(a, l1, b, l2)
            &&& same_names(a, r1, b, r2)
        },
        _ => false,
    }
}

/// A tree has the same names as itself in any larger arena.
pub proof fn lemma_same_names_refl(a: &Allocator, b: &Allocator, h: ExprRef)
    requires
        a.wf(),
        a.valid(h),
        b.extends(a),
    ensures
        same_names(a, h, b, h),
    decreases Allocator::rank(h),
{
    a.lemma_unpack_spec(h);
    match a.unpack_spec(h) {
        UnpackedExpr::Term { .. } => {},
        UnpackedExpr::Lambda { parameter_name, body } => lemma_same_names_refl(a, b, body),
        UnpackedExpr::Eval { left, right } => {
            lemma_same_names_refl(a, b, left);
            lemma_same_names_refl(a, b, right);
        },
    }
}

/// Growing either arena does not change the relation.
pub proof fn lemma_same_names_extends(a: &Allocator, a2: &Allocator, h: ExprRef, b: &Allocator, b2: &Allocator, g: ExprRef)
    requires
        a.wf(),
        a.valid(h),
        b.wf(),
        b.valid(g),
        a2.extends(a),
        b2.extends(b),
    ensures
        same_names(a2, h, b2, g) == same_names(a, h, b, g),
    decreases Allocator::rank(h),
{
    a.lemma_unpack_spec(h);
    b.lemma_unpack_spec(g);
    match (a.unpack_spec(h), b.unpack_spec(g)) {
        (UnpackedExpr::Term { .. }, _) => {},
        (
            UnpackedExpr::Lambda { parameter_name: n1, body: c1 },
            UnpackedExpr::Lambda { parameter_name: n2, body: c2 },
        ) => lemma_same_names_extends(a, a2, c1, b, b2, c2),
        (UnpackedExpr::Eval { left: l1, right: r1 }, UnpackedExpr::Eval { left: l2, right: r2 }) => {
            lemma_same_names_extends(a, a2, l1, b, b2, l2);
            lemma_same_names_extends(a, a2, r1, b, b2, r2);
        },
        _ => {},
    }
}

impl ExprRef {
    /// Tell the three shapes apart and hand out the parts.
    pub fn unpack(self, arena: &Allocator) -> (u: UnpackedExpr)
        requires
            arena.wf(),
            arena.valid(self),
        ensures
            u == arena.unpack_spec(self),
            self is Inline <==> u is Term,
            match u {
                UnpackedExpr::Term { de_bruijn_index } => {
                    &&& arena.term_of(self) == Term::Variable(de_bruijn_index)
                    &&& 1 <= de_bruijn_index <= MAX_INDEX
                    &&& self == ExprRef::Inline(de_bruijn_index)
                },
                UnpackedExpr::Lambda { parameter_name, body } => {
                    &&& arena.valid(body)
                    &&& Allocator::rank(body) < Allocator::rank(self)
                    &&& parameter_name < arena.names().len()
                    &&& arena.term_of(self) == Term::Lambda(Box::new(arena.term_of(body)))
                    &&& arena.name_of(self) == arena.names()[parameter_name as int]
                },
                UnpackedExpr::Eval { left, right } => {
                    &&& arena.valid(left)
                    &&& arena.valid(right)
                    &&& Allocator::rank(left) < Allocator::rank(self)
                    &&& Allocator::rank(right) < Allocator::rank(self)
                    &&& arena.term_of(self) == Term::Eval(
                        Box::new(arena.term_of(left)),
                        Box::new(arena.term_of(right)),
                    )
                },
            },
    {
        match self {
            ExprRef::Inline(i) => UnpackedExpr::Term { de_bruijn_index: i },
            ExprRef::Node(c) => {
                proof {
                    assert(arena.cell_ok(arena.cells@[c as int], c as int));
                }
                match arena.cells[c] {
                    CompactExpr::Lambda { name, body } => UnpackedExpr::Lambda {
                        parameter_name: name,
                        body,
                    },
                    CompactExpr::Eval { left, right } => UnpackedExpr::Eval { left, right },
                }
            },
        }
    }
}

} // verus!
