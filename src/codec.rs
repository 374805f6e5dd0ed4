//! Binary lambda calculus: `00` starts a lambda, `01` an application, and a
//! variable with de Bruijn index `k` is `k` ones followed by a zero.
use vstd::prelude::*;
use vstd::string::StringExecFns;
use crate::expr::{Allocator, ExprRef, UnpackedExpr};
use crate::messages::decimal_text;
use crate::term::{Term, closed_under, indices_valid};

verus! {

/// The bits of a term, in reading order (`true` is a one).
pub open spec fn encode_bits(t: Term) -> Seq<bool>
    decreases t,
{
    match t {
        Term::Variable(i) => Seq::new(i as nat, |k: int| true).push(false),
        Term::Lambda(b) => seq![false, false] + encode_bits(*b),
        Term::Eval(l, r) => seq![false, true] + encode_bits(*l) + encode_bits(*r),
    }
}

/// Why a bit stream does not hold a term.
#[derive(Debug, Clone, Copy, PartialEq, Eq, Structural)]
pub enum DecodeError {
    /// The stream ends inside a term.
    UnexpectedEnd,
    /// A variable refers past the binders that enclose it.
    InvalidIndex { index: u64, depth: u64 },
}

/// The number of consecutive ones from `pos` on.
pub open spec fn ones_from(bits: Seq<bool>, pos: int) -> nat
    decreases bits.len() - pos,
{
    if 0 <= pos < bits.len() && bits[pos] {
        1 + ones_from(bits, pos + 1)
    } else {
        0
    }
}

/// Decode one term from `bits` at `pos`, under `depth` enclosing binders:
/// the term and the position after it.
pub open spec fn decode_at(bits: Seq<bool>, pos: int, depth: int) -> Result<(Term, int), DecodeError>
    decreases bits.len() - pos,
{
    if pos < 0 || pos >= bits.len() {
        Err(DecodeError::UnexpectedEnd)
    } else if bits[pos] {
        let k = ones_from(bits, pos);
        if pos + k >= bits.len() {
            Err(DecodeError::UnexpectedEnd)
        } else if k > depth {
            Err(DecodeError::InvalidIndex { index: k as u64, depth: depth as u64 })
        } else {
            Ok((Term::Variable(k as u64), pos + k + 1))
        }
    } else if pos + 1 >= bits.len() {
        Err(DecodeError::UnexpectedEnd)
    } else if !bits[pos + 1] {
        match decode_at(bits, pos + 2, depth + 1) {
            Err(e) => Err(e),
            Ok((b, end)) => Ok((Term::Lambda(Box::new(b)), end)),
        }
    } else {
        match decode_at(bits, pos + 2, depth) {
            Err(e) => Err(e),
            Ok((l, mid)) => if pos < mid <= bits.len() {
                match decode_at(bits, mid, depth) {
                    Err(e) => Err(e),
                    Ok((r, end)) => Ok((Term::Eval(Box::new(l), Box::new(r)), end)),
                }
            } else {
                Err(DecodeError::UnexpectedEnd)
            },
        }
    }
}

/// A decoded term ends after where it starts, within the stream.
pub proof fn lemma_decode_advances(bits: Seq<bool>, pos: int, depth: int)
    ensures
        decode_at(bits, pos, depth) matches Ok((_, end)) ==> pos < end <= bits.len(),
    decreases bits.len() - pos,
{
    if 0 <= pos < bits.len() && !bits[pos] && pos + 1 < bits.len() {
        if !bits[pos + 1] {
            lemma_decode_advances(bits, pos + 2, depth + 1);
        } else {
            lemma_decode_advances(bits, pos + 2, depth);
            if let Ok((_, mid)) = decode_at(bits, pos + 2, depth) {
                lemma_decode_advances(bits, mid, depth);
            }
        }
    }
}

proof fn lemma_ones_prefix(k: nat, rest: Seq<bool>)
    ensures
        ones_from(Seq::new(k, |j: int| true).push(false) + rest, 0) == k,
{
    let bits = Seq::new(k, |j: int| true).push(false) + rest;
    assert forall|p: int| 0 <= p <= k implies #[trigger] ones_from(bits, p) == k - p by {
        lemma_ones_count(bits, p, k as int);
    }
}

proof fn lemma_ones_count(bits: Seq<bool>, p: int, k: int)
    requires
        0 <= p <= k < bits.len(),
        forall|j: int| 0 <= j < k ==> bits[j],
        !bits[k],
    ensures
        ones_from(bits, p) == k - p,
    decreases k - p,
{
    if p < k {
        lemma_ones_count(bits, p + 1, k);
    }
}

/// Decoding what encoding produced gives the term back, whatever follows it:
/// for every term whose variables are bound within `depth` extra binders.
pub proof fn lemma_decode_encode(t: Term, depth: int, rest: Seq<bool>)
    requires
        indices_valid(t),
        closed_under(t, depth + 1),
        0 <= depth,
    ensures
        decode_at(encode_bits(t) + rest, 0, depth) == Ok::<(Term, int), DecodeError>(
            (t, encode_bits(t).len() as int),
        ),
    decreases t,
{
    let bits = encode_bits(t) + rest;
    match t {
        Term::Variable(i) => {
            lemma_ones_prefix(i as nat, rest);
            assert(bits[0]);
        },
        Term::Lambda(b) => {
            lemma_decode_encode(*b, depth + 1, rest);
            lemma_decode_shifted(seq![false, false], encode_bits(*b) + rest, depth + 1);
            assert(bits =~= seq![false, false] + (encode_bits(*b) + rest));
        },
        Term::Eval(l, r) => {
            lemma_decode_encode(*l, depth, encode_bits(*r) + rest);
            lemma_decode_encode(*r, depth, rest);
            let tail = encode_bits(*l) + (encode_bits(*r) + rest);
            lemma_decode_shifted(seq![false, true], tail, depth);
            lemma_decode_shifted(
                seq![false, true] + encode_bits(*l),
                encode_bits(*r) + rest,
                depth,
            );
            assert(bits =~= seq![false, true] + tail);
            assert(bits =~= (seq![false, true] + encode_bits(*l)) + (encode_bits(*r) + rest));
        },
    }
}

/// Decoding after a prefix is decoding the rest, with positions moved.
proof fn lemma_decode_shifted(pre: Seq<bool>, bits: Seq<bool>, depth: int)
    ensures
        decode_at(pre + bits, pre.len() as int, depth) == match decode_at(bits, 0, depth) {
            Err(e) => Err(e),
            Ok((t, end)) => Ok((t, end + pre.len())),
        },
{
    lemma_decode_shifted_at(pre, bits, 0, depth);
}

proof fn lemma_ones_shifted(pre: Seq<bool>, bits: Seq<bool>, pos: int)
    requires
        0 <= pos,
    ensures
        ones_from(pre + bits, pos + pre.len()) == ones_from(bits, pos),
    decreases bits.len() - pos,
{
    if pos < bits.len() {
        lemma_ones_shifted(pre, bits, pos + 1);
    }
}

proof fn lemma_decode_shifted_at(pre: Seq<bool>, bits: Seq<bool>, pos: int, depth: int)
    requires
        0 <= pos,
    ensures
        decode_at(pre + bits, pos + pre.len(), depth) == match decode_at(bits, pos, depth) {
            Err(e) => Err(e),
            Ok((t, end)) => Ok((t, end + pre.len())),
        },
    decreases bits.len() - pos,
{
    let all = pre + bits;
    let q = pos + pre.len();
    if pos < bits.len() {
        assert(all[q] == bits[pos]);
        if bits[pos] {
            lemma_ones_shifted(pre, bits, pos);
        } else if pos + 1 < bits.len() {
            assert(all[q + 1] == bits[pos + 1]);
            if !bits[pos + 1] {
                lemma_decode_shifted_at(pre, bits, pos + 2, depth + 1);
            } else {
                lemma_decode_shifted_at(pre, bits, pos + 2, depth);
                lemma_decode_advances(bits, pos + 2, depth);
                if let Ok((_, mid)) = decode_at(bits, pos + 2, depth) {
                    lemma_decode_shifted_at(pre, bits, mid, depth);
                }
            }
        }
    }
}

/// Round trip: a closed term decodes from its own encoding, whatever follows it.
pub proof fn lemma_round_trip(t: Term, rest: Seq<bool>)
    requires
        indices_valid(t),
        closed_under(t, 1),
    ensures
        decode_at(encode_bits(t) + rest, 0, 0) == Ok::<(Term, int), DecodeError>(
            (t, encode_bits(t).len() as int),
        ),
{
    lemma_decode_encode(t, 0, rest);
}

/// Decimal digits of `n`, most significant first.
pub open spec fn decimal(n: nat) -> Seq<char>
    decreases n,
{
    let digit = seq!['0', '1', '2', '3', '4', '5', '6', '7', '8', '9'][(n % 10) as int];
    if n < 10 {
        seq![digit]
    } else {
        decimal(n / 10).push(digit)
    }
}

/// The name `x<depth>` of a decoded binder.
fn binder_name(depth: u64) -> (r: String)
    ensures
        r@ == seq!['x'] + decimal(depth as nat),
{
    proof {
        reveal_strlit("x");
    }
    let mut r = String::from_str("x");
    let digits = decimal_text(depth);
    r.append(digits.as_str());
    r
}

/// The name given to a decoded binder at depth `d` (counted from 1).
pub open spec fn binder_label(d: nat) -> Seq<char> {
    seq!['x'] + decimal(d)
}

/// Every binder in `h` is named by its depth, the outermost of them being at
/// depth `depth + 1`.
pub open spec fn named_by_depth(arena: &Allocator, h: ExprRef, depth: nat) -> bool
    decreases Allocator::rank(h),
{
    match arena.unpack_spec(h) {
        UnpackedExpr::Term { .. } => true,
        UnpackedExpr::Lambda { parameter_name, body } => {
            &&& Allocator::rank(body) < Allocator::rank(h)
            &&& arena.names()[parameter_name as int] == binder_label(depth + 1)
            &&& named_by_depth(arena, body, depth + 1)
        },
        UnpackedExpr::Eval { left, right } => {
            &&& Allocator::rank(left) < Allocator::rank(h)
            &&& Allocator::rank(right) < Allocator::rank(h)
            &&& named_by_depth(arena, left, depth)
            &&& named_by_depth(arena, right, depth)
        },
    }
}

proof fn lemma_named_extends(arena: &Allocator, old: &Allocator, h: ExprRef, depth: nat)
    requires
        old.wf(),
        old.valid(h),
        arena.extends(old),
        named_by_depth(old, h, depth),
    ensures
        named_by_depth(arena, h, depth),
    decreases Allocator::rank(h),
{
    old.lemma_unpack_spec(h);
    assert(arena.unpack_spec(h) == old.unpack_spec(h));
    match old.unpack_spec(h) {
        UnpackedExpr::Term { .. } => {},
        UnpackedExpr::Lambda { parameter_name, body } => {
            lemma_named_extends(arena, old, body, depth + 1);
        },
        UnpackedExpr::Eval { left, right } => {
            lemma_named_extends(arena, old, left, depth);
            lemma_named_extends(arena, old, right, depth);
        },
    }
}

/// Builds terms from a bit stream, naming the binder at depth `d` `x<d>`.
pub struct Decoder {
    variable_names: Vec<usize>,
    current_scope: u64,
    pos: usize,
}

impl Decoder {
    /// The names interned so far are in the arena; the depth is at most
    /// half the position, since each binder takes two bits.
    pub closed spec fn inv(&self, arena: &Allocator) -> bool {
        &&& forall|k: int|
            0 <= k < self.variable_names@.len() ==> #[trigger] self.variable_names@[k]
                < arena.names().len()
        &&& forall|k: int|
            0 <= k < self.variable_names@.len() ==> arena.names()[#[trigger] self.variable_names@[k] as int]
                == binder_label((k + 1) as nat)
        &&& 2 * self.current_scope <= self.pos
    }

    /// The position of the next bit to read.
    pub closed spec fn position(&self) -> nat {
        self.pos as nat
    }

    pub closed spec fn depth(&self) -> nat {
        self.current_scope as nat
    }

    pub fn new() -> (r: Decoder)
        ensures
            r.position() == 0,
            r.depth() == 0,
            forall|arena: &Allocator| r.inv(arena),
    {
        Decoder { variable_names: Vec::new(), current_scope: 0, pos: 0 }
    }

    proof fn lemma_inv_extends(&self, arena: &Allocator, old: &Allocator)
        requires
            self.inv(old),
            arena.extends(old),
        ensures
            self.inv(arena),
    {
        assert forall|k: int| 0 <= k < self.variable_names@.len() implies arena.names()[
            #[trigger] self.variable_names@[k] as int
        ] == binder_label((k + 1) as nat) by {
            assert(self.variable_names@[k] < old.names().len());
        }
    }

    /// The interned name `x<d>` for the binder at the current depth `d`.
    fn get_parameter_name(&mut self, arena: &mut Allocator) -> (r: usize)
        requires
            old(self).inv(old(arena)),
            old(arena).wf(),
            old(self).current_scope >= 1,
        ensures
            final(self).inv(final(arena)),
            final(self).current_scope == old(self).current_scope,
            final(self).pos == old(self).pos,
            final(arena).wf(),
            final(arena).extends(old(arena)),
            final(arena).cells() == old(arena).cells(),
            r < final(arena).names().len(),
            final(arena).names()[r as int] == binder_label(old(self).current_scope as nat),
    {
        let mut i: usize = self.variable_names.len();
        while (i as u64) <= self.current_scope
            invariant
                self.inv(arena),
                arena.wf(),
                arena.extends(old(arena)),
                arena.cells() == old(arena).cells(),
                self.current_scope == old(self).current_scope,
                self.pos == old(self).pos,
                i == self.variable_names@.len(),
                old(self).current_scope <= old(self).pos,
            decreases self.current_scope + 1 - i,
        {
            let name = binder_name(i as u64 + 1);
            let ghost before = *arena;
            let id = arena.intern(name);
            proof {
                self.lemma_inv_extends(arena, &before);
            }
            self.variable_names.push(id);
            proof {
                assert(arena.names()[id as int] == binder_label((i + 1) as nat));
            }
            i = i + 1;
        }
        self.variable_names[(self.current_scope - 1) as usize]
    }

    /// Decode one term at the current position and move past it.
    pub fn decode_expr(&mut self, arena: &mut Allocator, bits: &Vec<bool>) -> (r: Result<
        ExprRef,
        DecodeError,
    >)
        requires
            old(self).inv(old(arena)),
            old(arena).wf(),
            old(self).position() <= bits.len(),
        ensures
            r matches Ok(h) ==> named_by_depth(final(arena), h, old(self).depth()),
            final(self).inv(final(arena)),
            final(self).depth() == old(self).depth(),
            final(arena).wf(),
            final(arena).extends(old(arena)),
            match decode_at(bits@, old(self).position() as int, old(self).depth() as int) {
                Err(e) => r == Err::<ExprRef, DecodeError>(e),
                Ok((t, end)) => r matches Ok(h) && final(arena).valid(h) && final(arena).term_of(h)
                    == t && final(self).position() == end,
            },
        decreases bits.len() - old(self).position(), 1int,
    {
        if self.pos >= bits.len() {
            return Err(DecodeError::UnexpectedEnd);
        }
        if bits[self.pos] {
            self.pos = self.pos + 1;
            return self.decode_term(arena, bits);
        }
        if self.pos + 1 >= bits.len() {
            return Err(DecodeError::UnexpectedEnd);
        }
        let second = bits[self.pos + 1];
        self.pos = self.pos + 2;
        if !second {
            self.decode_lambda(arena, bits)
        } else {
            self.decode_eval(arena, bits)
        }
    }

    /// A variable: the first one has been read; count the rest up to the zero.
    fn decode_term(&mut self, arena: &mut Allocator, bits: &Vec<bool>) -> (r: Result<
        ExprRef,
        DecodeError,
    >)
        requires
            old(self).inv(old(arena)),
            old(arena).wf(),
            1 <= old(self).pos <= bits.len(),
            bits@[old(self).pos - 1],
        ensures
            r matches Ok(h) ==> named_by_depth(final(arena), h, old(self).current_scope as nat),
            final(self).inv(final(arena)),
            final(self).current_scope == old(self).current_scope,
            final(arena).wf(),
            final(arena).extends(old(arena)),
            match decode_at(bits@, old(self).pos - 1, old(self).current_scope as int) {
                Err(e) => r == Err::<ExprRef, DecodeError>(e),
                Ok((t, end)) => r matches Ok(h) && final(arena).valid(h) && final(arena).term_of(h)
                    == t && final(self).pos == end,
            },
    {
        let ghost first = self.pos - 1;
        let mut term_index: u64 = 1;
        loop
            invariant
                *arena == *old(arena),
                arena.wf(),
                self.inv(old(arena)),
                self.current_scope == old(self).current_scope,
                self.variable_names == old(self).variable_names,
                first == old(self).pos - 1,
                0 <= first < bits.len(),
                bits@[first],
                first + 1 <= self.pos <= bits.len(),
                term_index == self.pos - first,
                ones_from(bits@, first) == term_index + ones_from(bits@, self.pos as int),
            ensures
                *arena == *old(arena),
                self.pos < bits.len(),
                !bits@[self.pos as int],
                self.inv(old(arena)),
                self.current_scope == old(self).current_scope,
                term_index == self.pos - first,
                ones_from(bits@, first) == term_index,
            decreases bits.len() - self.pos,
        {
            if self.pos >= bits.len() {
                return Err(DecodeError::UnexpectedEnd);
            }
            if bits[self.pos] {
                term_index = term_index + 1;
                self.pos = self.pos + 1;
            } else {
                break;
            }
        }
        self.pos = self.pos + 1;
        if term_index > self.current_scope {
            return Err(DecodeError::InvalidIndex { index: term_index, depth: self.current_scope });
        }
        Ok(arena.new_term(term_index))
    }

    /// A lambda: `00` has been read; decode the body one binder deeper.
    fn decode_lambda(&mut self, arena: &mut Allocator, bits: &Vec<bool>) -> (r: Result<
        ExprRef,
        DecodeError,
    >)
        requires
            old(self).inv(old(arena)),
            old(arena).wf(),
            2 <= old(self).pos <= bits.len(),
            !bits@[old(self).pos - 2],
            !bits@[old(self).pos - 1],
            2 * old(self).current_scope + 2 <= old(self).pos,
        ensures
            r matches Ok(h) ==> named_by_depth(final(arena), h, old(self).current_scope as nat),
            final(self).inv(final(arena)),
            final(self).current_scope == old(self).current_scope,
            final(arena).wf(),
            final(arena).extends(old(arena)),
            match decode_at(bits@, old(self).pos - 2, old(self).current_scope as int) {
                Err(e) => r == Err::<ExprRef, DecodeError>(e),
                Ok((t, end)) => r matches Ok(h) && final(arena).valid(h) && final(arena).term_of(h)
                    == t && final(self).pos == end,
            },
        decreases bits.len() - old(self).pos, 2int,
    {
        self.current_scope = self.current_scope + 1;
        let body = match self.decode_expr(arena, bits) {
            Err(e) => {
                self.current_scope = self.current_scope - 1;
                return Err(e);
            },
            Ok(b) => b,
        };
        let ghost after_body = *arena;
        let param_name = self.get_parameter_name(arena);
        self.current_scope = self.current_scope - 1;
        let ghost before = *arena;
        let r = arena.new_lambda(param_name, body);
        proof {
            lemma_named_extends(&before, &after_body, body, (self.current_scope + 1) as nat);
            lemma_named_extends(arena, &before, body, (self.current_scope + 1) as nat);
        }
        Ok(r)
    }

    /// An application: `01` has been read; decode the function, then the argument.
    fn decode_eval(&mut self, arena: &mut Allocator, bits: &Vec<bool>) -> (r: Result<
        ExprRef,
        DecodeError,
    >)
        requires
            old(self).inv(old(arena)),
            old(arena).wf(),
            2 <= old(self).pos <= bits.len(),
            !bits@[old(self).pos - 2],
            bits@[old(self).pos - 1],
        ensures
            r matches Ok(h) ==> named_by_depth(final(arena), h, old(self).current_scope as nat),
            final(self).inv(final(arena)),
            final(self).current_scope == old(self).current_scope,
            final(arena).wf(),
            final(arena).extends(old(arena)),
            match decode_at(bits@, old(self).pos - 2, old(self).current_scope as int) {
                Err(e) => r == Err::<ExprRef, DecodeError>(e),
                Ok((t, end)) => r matches Ok(h) && final(arena).valid(h) && final(arena).term_of(h)
                    == t && final(self).pos == end,
            },
        decreases bits.len() - old(self).pos, 2int,
    {
        proof {
            lemma_decode_advances(bits@, old(self).pos as int, old(self).current_scope as int);
        }
        let left = match self.decode_expr(arena, bits) {
            Err(e) => return Err(e),
            Ok(h) => h,
        };
        let ghost after_left = *arena;
        let right = match self.decode_expr(arena, bits) {
            Err(e) => return Err(e),
            Ok(h) => h,
        };
        let ghost before = *arena;
        let r = arena.new_eval(left, right);
        proof {
            lemma_named_extends(&before, &after_left, left, self.current_scope as nat);
            lemma_named_extends(arena, &before, left, self.current_scope as nat);
            lemma_named_extends(arena, &before, right, self.current_scope as nat);
        }
        Ok(r)
    }
}

/// Decode a whole term from the start of `bits`. Bits after it are ignored.
pub fn decode(arena: &mut Allocator, bits: &Vec<bool>) -> (r: Result<ExprRef, DecodeError>)
    requires
        old(arena).wf(),
    ensures
        final(arena).wf(),
        final(arena).extends(old(arena)),
        match decode_at(bits@, 0, 0) {
            Err(e) => r == Err::<ExprRef, DecodeError>(e),
            Ok((t, _)) => r matches Ok(h) && final(arena).valid(h) && final(arena).term_of(h) == t,
        },
        r matches Ok(h) ==> named_by_depth(final(arena), h, 0),
{
    let mut decoder = Decoder::new();
    decoder.decode_expr(arena, bits)
}

/// The bit `k` (0 = most significant) of a byte.
pub open spec fn byte_bit(byte: u8, k: int) -> bool {
    ((byte >> ((7 - k) as u8)) & 1u8) == 1u8
}

/// The bits of a byte stream, each byte most significant bit first.
pub open spec fn bits_of_bytes(bytes: Seq<u8>) -> Seq<bool> {
    Seq::new(8 * bytes.len(), |i: int| byte_bit(bytes[i / 8], i % 8))
}

/// The bits of each byte of `bytes`, most significant first.
pub fn get_byte_iter(bytes: &Vec<u8>) -> (r: Vec<bool>)
    requires
        8 * bytes.len() <= usize::MAX,
    ensures
        r@ == bits_of_bytes(bytes@),
{
    let mut r: Vec<bool> = Vec::new();
    let mut j: usize = 0;
    while j < bytes.len()
        invariant
            j <= bytes.len(),
            8 * bytes.len() <= usize::MAX,
            r@.len() == 8 * j,
            forall|i: int| 0 <= i < 8 * j ==> #[trigger] r@[i] == byte_bit(bytes@[i / 8], i % 8),
        decreases bytes.len() - j,
    {
        let byte = bytes[j];
        let mut s: u8 = 8;
        while s > 0
            invariant
                s <= 8,
                r@.len() == 8 * j + (8 - s),
                j < bytes.len(),
                byte == bytes@[j as int],
                forall|i: int|
                    0 <= i < 8 * j + (8 - s) ==> #[trigger] r@[i] == byte_bit(bytes@[i / 8], i % 8),
            decreases s,
        {
            s = s - 1;
            r.push((byte >> s) & 1 == 1);
            proof {
                let i = 8 * j + (7 - s);
                assert(i / 8 == j && i % 8 == 7 - s) by (nonlinear_arith)
                    requires i == 8 * j + (7 - s), s < 8;
            }
        }
        j = j + 1;
    }
    proof {
        assert(r@ =~= bits_of_bytes(bytes@));
    }
    r
}

/// A bit as the byte the packer shifts in.
pub open spec fn bit_u8(b: bool) -> u8 {
    if b { 1u8 } else { 0u8 }
}

/// Bits folded into a byte, the first one ending up highest.
pub open spec fn fold_bits(bits: Seq<u8>) -> u8
    decreases bits.len(),
{
    if bits.len() == 0 {
        0u8
    } else {
        ((fold_bits(bits.drop_last()) << 1u8) | bits.last()) as u8
    }
}

/// The byte `j` of a packed stream: bits `8j .. 8j + 8`, with zeros past the end.
pub open spec fn packed_byte(bits: Seq<bool>, j: int) -> u8 {
    fold_bits(Seq::new(8, |k: int| if 8 * j + k < bits.len() { bit_u8(bits[8 * j + k]) } else { 0u8 }))
}

/// Bits packed into bytes, most significant bit first, the last byte padded with zeros.
pub open spec fn pack_bytes(bits: Seq<bool>) -> Seq<u8> {
    Seq::new(((bits.len() + 7) / 8) as nat, |j: int| packed_byte(bits, j))
}

/// Encodes a term to packed bytes.
pub struct ByteVisitor {
    bits: Vec<u8>,
    bytes: Vec<u8>,
    emitted: Ghost<Seq<bool>>,
}

impl ByteVisitor {
    /// The bits pushed so far.
    pub closed spec fn emitted(&self) -> Seq<bool> {
        self.emitted@
    }

    pub closed spec fn inv(&self) -> bool {
        let nb = self.bytes@.len();
        &&& self.emitted@.len() == 8 * nb + self.bits@.len()
        &&& self.bits@.len() < 8
        &&& forall|k: int|
            0 <= k < self.bits@.len() ==> #[trigger] self.bits@[k] == bit_u8(self.emitted@[8 * nb + k])
        &&& forall|j: int| 0 <= j < nb ==> #[trigger] self.bytes@[j] == packed_byte(self.emitted@, j)
    }

    pub fn new() -> (r: ByteVisitor)
        ensures
            r.inv(),
            r.emitted() == Seq::<bool>::empty(),
    {
        ByteVisitor { bits: Vec::new(), bytes: Vec::new(), emitted: Ghost(Seq::empty()) }
    }

    proof fn lemma_packed_prefix(bits: Seq<bool>, more: Seq<bool>, j: int)
        requires
            0 <= j,
            8 * j + 8 <= bits.len(),
        ensures
            packed_byte(bits + more, j) == packed_byte(bits, j),
    {
        assert(Seq::new(8, |k: int| if 8 * j + k < (bits + more).len() { bit_u8((bits + more)[8 * j + k]) } else { 0u8 })
            =~= Seq::new(8, |k: int| if 8 * j + k < bits.len() { bit_u8(bits[8 * j + k]) } else { 0u8 }));
    }

    fn push_bit(&mut self, bit: bool)
        requires
            old(self).inv(),
        ensures
            final(self).inv(),
            final(self).emitted() == old(self).emitted().push(bit),
    {
        let ghost old_emitted = self.emitted@;
        let ghost nb = self.bytes@.len();
        self.bits.push(if bit { 1 } else { 0 });
        self.emitted = Ghost(self.emitted@.push(bit));
        proof {
            assert(old_emitted.push(bit) =~= old_emitted + seq![bit]);
            assert forall|j: int| 0 <= j < nb implies #[trigger] self.bytes@[j] == packed_byte(self.emitted@, j) by {
                Self::lemma_packed_prefix(old_emitted, seq![bit], j);
            }
        }
        if self.bits.len() == 8 {
            let mut byte: u8 = 0;
            let mut k: usize = 0;
            while k < 8
                invariant
                    k <= 8,
                    self.bits@.len() == 8,
                    byte == fold_bits(self.bits@.subrange(0, k as int)),
                decreases 8 - k,
            {
                byte = (byte << 1) | self.bits[k];
                proof {
                    assert(self.bits@.subrange(0, k + 1).drop_last() =~= self.bits@.subrange(0, k as int));
                }
                k = k + 1;
            }
            proof {
                let e = self.emitted@;
                assert(self.bits@ =~= Seq::new(8, |k: int| if 8 * nb + k < e.len() { bit_u8(e[8 * nb + k]) } else { 0u8 }));
                assert(self.bits@.subrange(0, 8) =~= self.bits@);
            }
            self.bits.clear();
            self.bytes.push(byte);
        }
    }

    /// The packed bytes: what was pushed, the last byte padded with zeros.
    pub fn into_bytes(self) -> (r: Vec<u8>)
        requires
            self.inv(),
        ensures
            r@ == pack_bytes(self.emitted()),
    {
        let mut this = self;
        this.pad()
    }

    fn pad(&mut self) -> (r: Vec<u8>)
        requires
            old(self).inv(),
        ensures
            r@ == pack_bytes(old(self).emitted()),
    {
        let ghost all = self.emitted@;
        let ghost nb0 = self.bytes@.len();
        let ghost r0 = self.bits@.len();
        while self.bits.len() > 0
            invariant
                self.inv(),
                all.len() == 8 * nb0 + r0,
                r0 < 8,
                r0 == 0 ==> self.emitted@.len() == all.len(),
                all.len() <= self.emitted@.len() <= all.len() + 8 - r0,
                self.emitted@ == all + Seq::new((self.emitted@.len() - all.len()) as nat, |i: int| false),
                self.bits@.len() > 0 ==> self.bytes@.len() == nb0 && self.bits@.len() == r0 + (self.emitted@.len() - all.len()),
                self.bits@.len() == 0 ==> (r0 == 0 && self.emitted@.len() == all.len() && self.bytes@.len() == nb0)
                    || (r0 > 0 && self.bytes@.len() == nb0 + 1 && self.emitted@.len() == all.len() + 8 - r0),
            decreases all.len() + 8 - self.emitted@.len(),
        {
            self.push_bit(false);
            proof {
                assert(self.emitted@ =~= all + Seq::new((self.emitted@.len() - all.len()) as nat, |i: int| false));
            }
        }
        proof {
            assert((all.len() + 7) / 8 == self.bytes@.len()) by (nonlinear_arith)
                requires
                    all.len() == 8 * nb0 + r0,
                    r0 < 8,
                    r0 == 0 ==> self.bytes@.len() == nb0,
                    r0 > 0 ==> self.bytes@.len() == nb0 + 1;
        }
        proof {
            let padded = self.emitted@;
            assert forall|j: int| 0 <= j < self.bytes@.len() implies #[trigger] self.bytes@[j] == packed_byte(all, j) by {
                assert(Seq::new(8, |k: int| if 8 * j + k < padded.len() { bit_u8(padded[8 * j + k]) } else { 0u8 })
                    =~= Seq::new(8, |k: int| if 8 * j + k < all.len() { bit_u8(all[8 * j + k]) } else { 0u8 }));
            }
            assert(self.bytes@ =~= pack_bytes(all));
        }
        let mut out: Vec<u8> = Vec::new();
        out.append(&mut self.bytes);
        out
    }

    /// Push the encoding of `expr`.
    pub fn visit(&mut self, arena: &Allocator, expr: ExprRef)
        requires
            old(self).inv(),
            arena.wf(),
            arena.valid(expr),
        ensures
            final(self).inv(),
            final(self).emitted() == old(self).emitted() + encode_bits(arena.term_of(expr)),
        decreases Allocator::rank(expr),
    {
        match expr.unpack(arena) {
            UnpackedExpr::Term { de_bruijn_index } => {
                let mut i: u64 = 0;
                while i < de_bruijn_index
                    invariant
                        self.inv(),
                        i <= de_bruijn_index,
                        self.emitted() == old(self).emitted() + Seq::new(i as nat, |k: int| true),
                    decreases de_bruijn_index - i,
                {
                    self.push_bit(true);
                    i = i + 1;
                    proof {
                        assert(self.emitted() =~= old(self).emitted() + Seq::new(i as nat, |k: int| true));
                    }
                }
                self.push_bit(false);
                proof {
                    assert(self.emitted() =~= old(self).emitted() + encode_bits(arena.term_of(expr)));
                }
            },
            UnpackedExpr::Lambda { body, .. } => {
                proof {
                    assert(arena.term_of(expr) == Term::Lambda(Box::new(arena.term_of(body))));
                }
                self.push_bit(false);
                self.push_bit(false);
                self.visit(arena, body);
                proof {
                    assert(self.emitted() =~= old(self).emitted() + encode_bits(arena.term_of(expr)));
                }
            },
            UnpackedExpr::Eval { left, right } => {
                proof {
                    assert(arena.term_of(expr) == Term::Eval(Box::new(arena.term_of(left)), Box::new(arena.term_of(right))));
                }
                self.push_bit(false);
                self.push_bit(true);
                self.visit(arena, left);
                self.visit(arena, right);
                proof {
                    assert(self.emitted() =~= old(self).emitted() + encode_bits(arena.term_of(expr)));
                }
            },
        }
    }
}

/// Bits written with the strings `zero` and `one`.
pub open spec fn text_of(bits: Seq<bool>, zero: Seq<char>, one: Seq<char>) -> Seq<char>
    decreases bits.len(),
{
    if bits.len() == 0 {
        Seq::empty()
    } else {
        text_of(bits.drop_last(), zero, one) + if bits.last() { one } else { zero }
    }
}

pub proof fn lemma_text_of_append(a: Seq<bool>, b: Seq<bool>, zero: Seq<char>, one: Seq<char>)
    ensures
        text_of(a + b, zero, one) == text_of(a, zero, one) + text_of(b, zero, one),
    decreases b.len(),
{
    if b.len() == 0 {
        assert(a + b =~= a);
        assert(text_of(a, zero, one) + text_of(b, zero, one) =~= text_of(a, zero, one));
    } else {
        lemma_text_of_append(a, b.drop_last(), zero, one);
        assert((a + b).drop_last() =~= a + b.drop_last());
        let tail = if b.last() { one } else { zero };
        assert(text_of(a, zero, one) + (text_of(b.drop_last(), zero, one) + tail)
            =~= (text_of(a, zero, one) + text_of(b.drop_last(), zero, one)) + tail);
    }
}

/// Encodes a term as text, with one string for a zero and one for a one.
pub struct PrintVisitor {
    zero: String,
    one: String,
}

impl PrintVisitor {
    pub closed spec fn zero(&self) -> Seq<char> {
        self.zero@
    }

    pub closed spec fn one(&self) -> Seq<char> {
        self.one@
    }

    pub fn new(zero: &str, one: &str) -> (r: PrintVisitor)
        ensures
            r.zero() == zero@,
            r.one() == one@,
    {
        PrintVisitor { zero: zero.to_owned(), one: one.to_owned() }
    }

    fn push_bit(&self, out: &mut String, bit: bool)
        ensures
            final(out)@ == old(out)@ + text_of(seq![bit], self.zero(), self.one()),
    {
        if bit {
            out.append(self.one.as_str());
        } else {
            out.append(self.zero.as_str());
        }
        proof {
            reveal_with_fuel(text_of, 2);
            assert(seq![bit].drop_last() =~= Seq::<bool>::empty());
        }
    }

    /// Append the text encoding of `expr` to `out`.
    pub fn visit(&self, arena: &Allocator, expr: ExprRef, out: &mut String)
        requires
            arena.wf(),
            arena.valid(expr),
        ensures
            final(out)@ == old(out)@ + text_of(encode_bits(arena.term_of(expr)), self.zero(), self.one()),
        decreases arena.term_of(expr),
    {
        let ghost z = self.zero();
        let ghost o = self.one();
        let ghost bits = encode_bits(arena.term_of(expr));
        match expr.unpack(arena) {
            UnpackedExpr::Term { de_bruijn_index } => {
                let mut i: u64 = 0;
                while i < de_bruijn_index
                    invariant
                        i <= de_bruijn_index,
                        out@ == old(out)@ + text_of(Seq::new(i as nat, |k: int| true), z, o),
                        z == self.zero(),
                        o == self.one(),
                    decreases de_bruijn_index - i,
                {
                    self.push_bit(out, true);
                    proof {
                        lemma_text_of_append(Seq::new(i as nat, |k: int| true), seq![true], z, o);
                        assert(Seq::new(i as nat, |k: int| true) + seq![true] =~= Seq::new((i + 1) as nat, |k: int| true));
                    }
                    i = i + 1;
                }
                self.push_bit(out, false);
                proof {
                    lemma_text_of_append(Seq::new(i as nat, |k: int| true), seq![false], z, o);
                    assert(Seq::new(i as nat, |k: int| true) + seq![false] =~= bits);
                }
            },
            UnpackedExpr::Lambda { body, .. } => {
                self.push_bit(out, false);
                self.push_bit(out, false);
                self.visit(arena, body, out);
                proof {
                    let b = encode_bits(arena.term_of(body));
                    lemma_text_of_append(seq![false], seq![false], z, o);
                    lemma_text_of_append(seq![false, false], b, z, o);
                    assert(seq![false] + seq![false] =~= seq![false, false]);
                }
            },
            UnpackedExpr::Eval { left, right } => {
                self.push_bit(out, false);
                self.push_bit(out, true);
                self.visit(arena, left, out);
                self.visit(arena, right, out);
                proof {
                    let l = encode_bits(arena.term_of(left));
                    let r = encode_bits(arena.term_of(right));
                    lemma_text_of_append(seq![false], seq![true], z, o);
                    assert(seq![false] + seq![true] =~= seq![false, true]);
                    lemma_text_of_append(seq![false, true], l, z, o);
                    lemma_text_of_append(seq![false, true] + l, r, z, o);
                }
            },
        }
    }
}

/// `p` occurs in `s` at position `i`.
pub open spec fn matches_at(s: Seq<char>, p: Seq<char>, i: int) -> bool {
    0 <= i && i + p.len() <= s.len() && s.subrange(i, i + p.len()) == p
}

/// The first position at or after `from` where `p` occurs in `s`.
pub open spec fn find_from(s: Seq<char>, p: Seq<char>, from: int) -> Option<int>
    decreases s.len() - from,
{
    if from < 0 || from >= s.len() || from + p.len() > s.len() {
        None
    } else if matches_at(s, p, from) {
        Some(from)
    } else {
        find_from(s, p, from + 1)
    }
}

/// The next bit in `s` from `pos` on: whichever marker occurs first (`one`
/// when both start at the same place), and the position after it.
pub open spec fn next_bit(s: Seq<char>, zero: Seq<char>, one: Seq<char>, pos: int) -> Option<(bool, int)> {
    match (find_from(s, zero, pos), find_from(s, one, pos)) {
        (None, None) => None,
        (Some(z), None) => Some((false, z + zero.len())),
        (None, Some(o)) => Some((true, o + one.len())),
        (Some(z), Some(o)) => if z < o {
            Some((false, z + zero.len()))
        } else {
            Some((true, o + one.len()))
        },
    }
}

/// All the bits of `s` from `pos` on.
pub open spec fn extract_bits(s: Seq<char>, zero: Seq<char>, one: Seq<char>, pos: int) -> Seq<bool>
    decreases s.len() - pos,
{
    match next_bit(s, zero, one, pos) {
        None => Seq::empty(),
        Some((b, next)) => if pos < next <= s.len() {
            seq![b] + extract_bits(s, zero, one, next)
        } else {
            Seq::empty()
        },
    }
}

proof fn lemma_find_bounds(s: Seq<char>, p: Seq<char>, from: int)
    ensures
        find_from(s, p, from) matches Some(i) ==> from <= i && matches_at(s, p, i),
    decreases s.len() - from,
{
    if !(from < 0 || from >= s.len() || from + p.len() > s.len()) && !matches_at(s, p, from) {
        lemma_find_bounds(s, p, from + 1);
    }
}

/// Reads the bits of a text in which two nonempty strings stand for zero and one.
pub struct Extractor {
    zero: Vec<char>,
    one: Vec<char>,
    s: Vec<char>,
    pos: usize,
}

impl Extractor {
    pub closed spec fn text(&self) -> Seq<char> {
        self.s@
    }

    pub closed spec fn zero(&self) -> Seq<char> {
        self.zero@
    }

    pub closed spec fn one(&self) -> Seq<char> {
        self.one@
    }

    /// The position of the first character not yet read.
    pub closed spec fn position(&self) -> int {
        self.pos as int
    }

    pub closed spec fn inv(&self) -> bool {
        &&& self.zero@.len() >= 1
        &&& self.one@.len() >= 1
        &&& self.pos <= self.s@.len()
    }

    pub fn new(zero: &Vec<char>, one: &Vec<char>, s: &Vec<char>) -> (r: Extractor)
        requires
            zero@.len() >= 1,
            one@.len() >= 1,
        ensures
            r.inv(),
            r.zero() == zero@,
            r.one() == one@,
            r.text() == s@,
            r.position() == 0,
    {
        Extractor { zero: zero.clone(), one: one.clone(), s: s.clone(), pos: 0 }
    }

    fn matches_here(&self, p: &Vec<char>, i: usize) -> (r: bool)
        requires
            i <= self.s@.len(),
        ensures
            r == matches_at(self.s@, p@, i as int),
    {
        if p.len() > self.s.len() - i {
            return false;
        }
        let mut j: usize = 0;
        while j < p.len()
            invariant
                j <= p@.len(),
                i + p@.len() <= self.s@.len(),
                self.s@.len() <= usize::MAX,
                forall|k: int| 0 <= k < j ==> self.s@[i + k] == p@[k],
            decreases p.len() - j,
        {
            if self.s[i + j] != p[j] {
                proof {
                    assert(self.s@.subrange(i as int, i + p@.len())[j as int] != p@[j as int]);
                }
                return false;
            }
            j = j + 1;
        }
        proof {
            assert(self.s@.subrange(i as int, i + p@.len()) =~= p@);
        }
        true
    }

    fn find(&self, p: &Vec<char>) -> (r: Option<usize>)
        requires
            self.pos <= self.s@.len(),
            p@.len() >= 1,
        ensures
            r matches Some(i) ==> find_from(self.s@, p@, self.pos as int) == Some(i as int),
            r is None ==> find_from(self.s@, p@, self.pos as int) is None,
            self.s@.len() <= usize::MAX,
    {
        let mut i: usize = self.pos;
        while i <= self.s.len()
            invariant
                self.pos <= i <= self.s@.len() + 1,
                p@.len() >= 1,
                find_from(self.s@, p@, self.pos as int) == find_from(self.s@, p@, i as int),
            decreases self.s.len() + 1 - i,
        {
            if p.len() > self.s.len() - i {
                return None;
            }
            if self.matches_here(p, i) {
                return Some(i);
            }
            i = i + 1;
        }
        None
    }

    /// The next bit, or `None` when neither marker occurs in the rest of the text.
    pub fn next(&mut self) -> (r: Option<bool>)
        requires
            old(self).inv(),
        ensures
            final(self).inv(),
            final(self).text() == old(self).text(),
            final(self).zero() == old(self).zero(),
            final(self).one() == old(self).one(),
            match next_bit(old(self).text(), old(self).zero(), old(self).one(), old(self).position()) {
                None => r is None,
                Some((b, p)) => r == Some(b) && final(self).position() == p,
            },
            r is Some ==> old(self).position() < final(self).position(),
            r is None ==> final(self).position() == old(self).position(),
    {
        let next_zero = self.find(&self.zero);
        let next_one = self.find(&self.one);
        proof {
            lemma_find_bounds(self.s@, self.zero@, self.pos as int);
            lemma_find_bounds(self.s@, self.one@, self.pos as int);
        }
        match (next_zero, next_one) {
            (None, None) => None,
            (Some(zero), None) => {
                self.pos = zero + self.zero.len();
                Some(false)
            },
            (None, Some(one)) => {
                self.pos = one + self.one.len();
                Some(true)
            },
            (Some(zero), Some(one)) => if zero < one {
                self.pos = zero + self.zero.len();
                Some(false)
            } else {
                self.pos = one + self.one.len();
                Some(true)
            },
        }
    }

    /// All the remaining bits.
    pub fn bits(&mut self) -> (r: Vec<bool>)
        requires
            old(self).inv(),
        ensures
            r@ == extract_bits(old(self).text(), old(self).zero(), old(self).one(), old(self).position()),
    {
        let ghost s0 = self.s@;
        let ghost z = self.zero@;
        let ghost o = self.one@;
        let ghost first = self.pos as int;
        let mut r: Vec<bool> = Vec::new();
        loop
            invariant
                self.inv(),
                self.s@ == s0,
                self.zero@ == z,
                self.one@ == o,
                r@ + extract_bits(s0, z, o, self.pos as int) == extract_bits(s0, z, o, first),
            ensures
                r@ == extract_bits(s0, z, o, first),
            decreases self.s@.len() - self.pos,
        {
            match self.next() {
                None => {
                    proof {
                        assert(r@ + Seq::<bool>::empty() =~= r@);
                    }
                    break;
                },
                Some(b) => {
                    proof {
                        assert(r@.push(b) + extract_bits(s0, z, o, self.pos as int)
                            =~= r@ + (seq![b] + extract_bits(s0, z, o, self.pos as int)));
                    }
                    r.push(b);
                },
            }
        }
        r
    }
}

/// `a` starts `b`.
pub open spec fn is_prefix(a: Seq<char>, b: Seq<char>) -> bool {
    a.len() <= b.len() && b.subrange(0, a.len() as int) == a
}

/// The marker written for a bit.
pub open spec fn marker(b: bool, zero: Seq<char>, one: Seq<char>) -> Seq<char> {
    if b { one } else { zero }
}

proof fn lemma_text_of_one(b: bool, zero: Seq<char>, one: Seq<char>)
    ensures
        text_of(seq![b], zero, one) == marker(b, zero, one),
{
    reveal_with_fuel(text_of, 2);
    assert(seq![b].drop_last() =~= Seq::<bool>::empty());
    assert(Seq::<char>::empty() + marker(b, zero, one) =~= marker(b, zero, one));
}

proof fn lemma_find_not_here(s: Seq<char>, p: Seq<char>, from: int)
    requires
        !matches_at(s, p, from),
        0 <= from,
    ensures
        find_from(s, p, from) matches Some(q) ==> q > from,
{
    lemma_find_bounds(s, p, from);
}

/// Reading the text after `k` bits have been written gives the rest of the bits.
proof fn lemma_extract_from(bits: Seq<bool>, zero: Seq<char>, one: Seq<char>, k: int)
    requires
        zero.len() >= 1,
        one.len() >= 1,
        !is_prefix(zero, one),
        !is_prefix(one, zero),
        0 <= k <= bits.len(),
    ensures
        extract_bits(
            text_of(bits, zero, one),
            zero,
            one,
            text_of(bits.subrange(0, k), zero, one).len() as int,
        ) == bits.subrange(k, bits.len() as int),
    decreases bits.len() - k,
{
    let t = text_of(bits, zero, one);
    let head = text_of(bits.subrange(0, k), zero, one);
    let pos = head.len() as int;
    assert(bits =~= bits.subrange(0, k) + bits.subrange(k, bits.len() as int));
    lemma_text_of_append(bits.subrange(0, k), bits.subrange(k, bits.len() as int), zero, one);
    let tail = text_of(bits.subrange(k, bits.len() as int), zero, one);
    assert(t == head + tail);
    if k == bits.len() {
        assert(tail == Seq::<char>::empty()) by {
            assert(bits.subrange(k, bits.len() as int) =~= Seq::<bool>::empty());
        }
        assert(find_from(t, zero, pos) is None);
        assert(find_from(t, one, pos) is None);
        assert(bits.subrange(k, bits.len() as int) =~= Seq::<bool>::empty());
    } else {
        let b = bits[k];
        let m = marker(b, zero, one);
        let other = marker(!b, zero, one);
        let rest = text_of(bits.subrange(k + 1, bits.len() as int), zero, one);
        assert(bits.subrange(k, bits.len() as int) =~= seq![b] + bits.subrange(k + 1, bits.len() as int));
        lemma_text_of_append(seq![b], bits.subrange(k + 1, bits.len() as int), zero, one);
        lemma_text_of_one(b, zero, one);
        assert(tail == m + rest);
        assert(t =~= head + (m + rest));
        assert(t.subrange(pos, pos + m.len()) =~= m);
        assert(matches_at(t, m, pos));
        assert(find_from(t, m, pos) == Some(pos));
        if matches_at(t, other, pos) {
            if other.len() <= m.len() {
                assert(m.subrange(0, other.len() as int) =~= t.subrange(pos, pos + other.len()));
                assert(is_prefix(other, m));
            } else {
                assert(other.subrange(0, m.len() as int) =~= t.subrange(pos, pos + m.len()));
                assert(is_prefix(m, other));
            }
        }
        lemma_find_not_here(t, other, pos);
        assert(next_bit(t, zero, one, pos) == Some((b, pos + m.len())));
        assert(bits.subrange(0, k + 1) =~= bits.subrange(0, k) + seq![b]);
        lemma_text_of_append(bits.subrange(0, k), seq![b], zero, one);
        lemma_extract_from(bits, zero, one, k + 1);
        assert(text_of(bits.subrange(0, k + 1), zero, one).len() == pos + m.len());
        assert(seq![b] + bits.subrange(k + 1, bits.len() as int) =~= bits.subrange(k, bits.len() as int));
    }
}

/// Alphabet independence: bits written as text with markers `zero` and
/// `one` are read back unchanged, when the markers are nonempty and neither
/// starts the other.
pub proof fn lemma_alphabet_independence(bits: Seq<bool>, zero: Seq<char>, one: Seq<char>)
    requires
        zero.len() >= 1,
        one.len() >= 1,
        !is_prefix(zero, one),
        !is_prefix(one, zero),
    ensures
        extract_bits(text_of(bits, zero, one), zero, one, 0) == bits,
{
    lemma_extract_from(bits, zero, one, 0);
    assert(bits.subrange(0, 0) =~= Seq::<bool>::empty());
    assert(bits.subrange(0, bits.len() as int) =~= bits);
}

proof fn lemma_fold_step(s: Seq<u8>, n: int)
    requires
        0 <= n < s.len(),
    ensures
        fold_bits(s.subrange(0, n + 1)) == ((fold_bits(s.subrange(0, n)) << 1u8) | s[n]) as u8,
{
    assert(s.subrange(0, n + 1).drop_last() =~= s.subrange(0, n));
    assert(s.subrange(0, n + 1).last() == s[n]);
}

/// Bit `k` of eight bits folded into a byte is bit `k` of the sequence.
proof fn lemma_fold_bits_bit(s: Seq<u8>, k: int)
    requires
        s.len() == 8,
        forall|i: int| 0 <= i < 8 ==> #[trigger] s[i] <= 1,
        0 <= k < 8,
    ensures
        byte_bit(fold_bits(s), k) == (s[k] == 1),
{
    let (b0, b1, b2, b3, b4, b5, b6, b7) = (s[0], s[1], s[2], s[3], s[4], s[5], s[6], s[7]);
    assert(s.subrange(0, 0) =~= Seq::<u8>::empty());
    lemma_fold_step(s, 0);
    lemma_fold_step(s, 1);
    lemma_fold_step(s, 2);
    lemma_fold_step(s, 3);
    lemma_fold_step(s, 4);
    lemma_fold_step(s, 5);
    lemma_fold_step(s, 6);
    lemma_fold_step(s, 7);
    assert(s.subrange(0, 8) =~= s);
    let x1 = ((0u8 << 1u8) | b0) as u8;
    let x2 = ((x1 << 1u8) | b1) as u8;
    let x3 = ((x2 << 1u8) | b2) as u8;
    let x4 = ((x3 << 1u8) | b3) as u8;
    let x5 = ((x4 << 1u8) | b4) as u8;
    let x6 = ((x5 << 1u8) | b5) as u8;
    let x7 = ((x6 << 1u8) | b6) as u8;
    let x8 = ((x7 << 1u8) | b7) as u8;
    assert(fold_bits(s) == x8);
    assert(((x8 >> 7u8) & 1u8 == 1u8) == (b0 == 1u8) && ((x8 >> 6u8) & 1u8 == 1u8) == (b1 == 1u8)
        && ((x8 >> 5u8) & 1u8 == 1u8) == (b2 == 1u8) && ((x8 >> 4u8) & 1u8 == 1u8) == (b3 == 1u8)
        && ((x8 >> 3u8) & 1u8 == 1u8) == (b4 == 1u8) && ((x8 >> 2u8) & 1u8 == 1u8) == (b5 == 1u8)
        && ((x8 >> 1u8) & 1u8 == 1u8) == (b6 == 1u8) && ((x8 >> 0u8) & 1u8 == 1u8) == (b7 == 1u8))
        by (bit_vector)
        requires
            b0 <= 1 && b1 <= 1 && b2 <= 1 && b3 <= 1 && b4 <= 1 && b5 <= 1 && b6 <= 1 && b7 <= 1,
            x1 == ((0u8 << 1u8) | b0) as u8,
            x2 == ((x1 << 1u8) | b1) as u8,
            x3 == ((x2 << 1u8) | b2) as u8,
            x4 == ((x3 << 1u8) | b3) as u8,
            x5 == ((x4 << 1u8) | b4) as u8,
            x6 == ((x5 << 1u8) | b5) as u8,
            x7 == ((x6 << 1u8) | b6) as u8,
            x8 == ((x7 << 1u8) | b7) as u8,
    ;
}

/// Unpacking packed bytes gives the bits back, followed by the zeros that
/// pad the last byte.
pub proof fn lemma_unpack_pack(bits: Seq<bool>)
    ensures
        bits_of_bytes(pack_bytes(bits)) == bits + Seq::new(
            (8 * pack_bytes(bits).len() - bits.len()) as nat,
            |i: int| false,
        ),
        8 * pack_bytes(bits).len() >= bits.len(),
{
    let packed = pack_bytes(bits);
    let n = packed.len();
    assert(8 * n >= bits.len()) by (nonlinear_arith)
        requires n == (bits.len() + 7) / 8;
    let padded = bits + Seq::new((8 * n - bits.len()) as nat, |i: int| false);
    assert forall|i: int| 0 <= i < 8 * n implies #[trigger] bits_of_bytes(packed)[i] == padded[i] by {
        let j = i / 8;
        let k = i % 8;
        assert(0 <= j < n && 0 <= k < 8 && i == 8 * j + k) by (nonlinear_arith)
            requires
                0 <= i < 8 * n,
                j == i / 8,
                k == i % 8;
        let s8 = Seq::new(8, |m: int| if 8 * j + m < bits.len() { bit_u8(bits[8 * j + m]) } else { 0u8 });
        assert(packed[j] == fold_bits(s8));
        assert forall|m: int| 0 <= m < 8 implies #[trigger] s8[m] <= 1 by {}
        lemma_fold_bits_bit(s8, k);
    }
    assert(bits_of_bytes(packed) =~= padded);
}

/// Round trip through bytes: the packed encoding of a closed term decodes to it.
pub proof fn lemma_round_trip_bytes(t: Term)
    requires
        indices_valid(t),
        closed_under(t, 1),
    ensures
        decode_at(bits_of_bytes(pack_bytes(encode_bits(t))), 0, 0) matches Ok((back, _)) && back == t,
{
    let bits = encode_bits(t);
    lemma_unpack_pack(bits);
    lemma_round_trip(t, Seq::new((8 * pack_bytes(bits).len() - bits.len()) as nat, |i: int| false));
}

} // verus!
