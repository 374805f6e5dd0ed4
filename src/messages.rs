//! Diagnostics collected while binding a program: warnings and errors, each
//! with the line (and column) of the source offset it concerns.
use vstd::prelude::*;
use vstd::string::StringExecFns;
use crate::codec::decimal;

verus! {

/// Relies on `u64`'s `Display` (through `to_string`) writing the number in decimal.
#[verifier::external_body]
pub(crate) fn decimal_text(n: u64) -> (r: String)
    ensures
        r@ == decimal(n as nat),
{
    n.to_string()
}

/// A character index into the source text.
#[derive(Debug, Clone, Copy, PartialEq, Eq, Structural)]
pub struct Offset(pub usize);

impl From<usize> for Offset {
    fn from(other: usize) -> (r: Offset) {
        Offset(other)
    }
}

impl vstd::std_specs::convert::FromSpecImpl<usize> for Offset {
    open spec fn obeys_from_spec() -> bool {
        true
    }

    open spec fn from_spec(v: usize) -> Offset {
        Offset(v)
    }
}

impl From<Offset> for usize {
    fn from(other: Offset) -> (r: usize) {
        other.0
    }
}

impl vstd::std_specs::convert::FromSpecImpl<Offset> for usize {
    open spec fn obeys_from_spec() -> bool {
        true
    }

    open spec fn from_spec(v: Offset) -> usize {
        v.0
    }
}

/// A line number (from 1), with the column (from 0) when it is known.
#[derive(Debug, Clone, Copy, PartialEq, Eq, Structural)]
pub struct LineNumber {
    pub line: usize,
    pub offset: Option<usize>,
}

impl LineNumber {
    pub fn new(line: usize) -> (r: LineNumber)
        ensures
            r == (LineNumber { line, offset: None }),
    {
        LineNumber { line, offset: None }
    }

    pub fn new_with_offset(line: usize, offset: usize) -> (r: LineNumber)
        ensures
            r == (LineNumber { line, offset: Some(offset) }),
    {
        LineNumber { line, offset: Some(offset) }
    }

    /// `line:column`, or `line` alone.
    pub fn to_string(&self) -> (r: String)
        ensures
            r@ == match self.offset {
                Some(o) => decimal(self.line as nat) + seq![':'] + decimal(o as nat),
                None => decimal(self.line as nat),
            },
    {
        let mut r = decimal_text(self.line as u64);
        if let Some(o) = self.offset {
            r.append(":");
            let col = decimal_text(o as u64);
            r.append(col.as_str());
            proof {
                reveal_strlit(":");
            }
        }
        r
    }
}

/// A warning or an error.
#[derive(Debug, Clone, PartialEq, Eq)]
pub enum CompilerMessage {
    Warning { message: String, line_number: Option<LineNumber> },
    Error { message: String, line_number: Option<LineNumber> },
}

impl CompilerMessage {
    pub fn is_warning(&self) -> (r: bool)
        ensures
            r == self is Warning,
    {
        match self {
            CompilerMessage::Warning { .. } => true,
            CompilerMessage::Error { .. } => false,
        }
    }

    pub fn is_error(&self) -> (r: bool)
        ensures
            r == self is Error,
    {
        match self {
            CompilerMessage::Warning { .. } => false,
            CompilerMessage::Error { .. } => true,
        }
    }

    pub fn message(&self) -> (r: &str)
        ensures
            r@ == match self {
                CompilerMessage::Warning { message, .. } => message@,
                CompilerMessage::Error { message, .. } => message@,
            },
    {
        match self {
            CompilerMessage::Warning { message, .. } => message.as_str(),
            CompilerMessage::Error { message, .. } => message.as_str(),
        }
    }

    pub fn line_number(&self) -> (r: Option<LineNumber>)
        ensures
            r == match self {
                CompilerMessage::Warning { line_number, .. } => *line_number,
                CompilerMessage::Error { line_number, .. } => *line_number,
            },
    {
        match self {
            CompilerMessage::Warning { line_number, .. } => *line_number,
            CompilerMessage::Error { line_number, .. } => *line_number,
        }
    }
}

/// `m` is a warning (or an error, by `is_error`) with the given text and line.
pub open spec fn describes(m: CompilerMessage, is_error: bool, text: Seq<char>, line: Option<LineNumber>) -> bool {
    match m {
        CompilerMessage::Warning { message, line_number } => !is_error && message@ == text
            && line_number == line,
        CompilerMessage::Error { message, line_number } => is_error && message@ == text
            && line_number == line,
    }
}

/// `new` is `old` with one message added that `describes` says.
pub open spec fn one_more(
    old: Seq<CompilerMessage>,
    new: Seq<CompilerMessage>,
    is_error: bool,
    text: Seq<char>,
    line: Option<LineNumber>,
) -> bool {
    &&& new.len() == old.len() + 1
    &&& new.drop_last() == old
    &&& describes(new.last(), is_error, text, line)
}

/// Some message of `ms` is an error.
pub open spec fn has_error(ms: Seq<CompilerMessage>) -> bool {
    exists|i: int| 0 <= i < ms.len() && #[trigger] ms[i] is Error
}

/// Adding one message keeps every error, and adds one if the new message is one.
pub proof fn lemma_one_more_errors(
    old: Seq<CompilerMessage>,
    new: Seq<CompilerMessage>,
    is_error: bool,
    text: Seq<char>,
    line: Option<LineNumber>,
)
    requires
        one_more(old, new, is_error, text, line),
    ensures
        has_error(new) == (has_error(old) || is_error),
{
    if has_error(new) {
        let i = choose|i: int| 0 <= i < new.len() && #[trigger] new[i] is Error;
        if i < old.len() {
            assert(old[i] == new.drop_last()[i]);
        }
    }
    if has_error(old) {
        let i = choose|i: int| 0 <= i < old.len() && #[trigger] old[i] is Error;
        assert(new[i] == new.drop_last()[i]);
        assert(new[i] is Error);
    }
    if is_error {
        assert(new[new.len() - 1] is Error);
    }
}

/// The line that holds `offset`, given the start offset of each line in
/// increasing order: the last line that starts at or before it, with the
/// column.
pub open spec fn line_of(starts: Seq<usize>, offset: usize) -> Option<LineNumber>
    decreases starts.len(),
{
    if starts.len() == 0 {
        None
    } else if starts.last() <= offset {
        Some(
            LineNumber {
                line: starts.len() as usize,
                offset: Some((offset - starts.last()) as usize),
            },
        )
    } else {
        line_of(starts.drop_last(), offset)
    }
}

/// The diagnostics of one load, and the map from offsets to lines.
pub struct CompilerMessages {
    pub messages: Vec<CompilerMessage>,
    pub line_starts: Vec<usize>,
}

impl CompilerMessages {
    /// The start offset of each line, in order.
    pub closed spec fn line_starts(&self) -> Seq<usize> {
        self.line_starts@
    }

    pub fn new() -> (r: CompilerMessages)
        ensures
            r.messages@ == Seq::<CompilerMessage>::empty(),
            r.line_starts() == Seq::<usize>::empty(),
    {
        CompilerMessages { messages: Vec::new(), line_starts: Vec::new() }
    }

    /// Take the start offset of each line (line 1 first).
    pub fn set_offset_map(&mut self, line_starts: Vec<usize>)
        ensures
            final(self).line_starts() == line_starts@,
            final(self).messages == old(self).messages,
    {
        self.line_starts = line_starts;
    }

    /// Record the start of every line of `text`.
    pub fn set_line_numbers(&mut self, text: &Vec<char>)
        ensures
            final(self).messages == old(self).messages,
            final(self).line_starts().len() >= 1,
            final(self).line_starts()[0] == 0,
            forall|k: int|
                1 <= k < final(self).line_starts().len() ==> {
                    let p = #[trigger] final(self).line_starts()[k];
                    &&& 1 <= p <= text@.len()
                    &&& text@[p - 1] == '\n'
                },
            forall|k: int| #![trigger final(self).line_starts()[k]]
                1 <= k < final(self).line_starts().len() ==> final(self).line_starts()[k - 1]
                    < final(self).line_starts()[k],
    {
        let mut starts: Vec<usize> = Vec::new();
        starts.push(0);
        let mut i: usize = 0;
        while i < text.len()
            invariant
                i <= text@.len(),
                starts@.len() >= 1,
                starts@[0] == 0,
                forall|k: int|
                    1 <= k < starts@.len() ==> {
                        let p = #[trigger] starts@[k];
                        &&& 1 <= p <= i
                        &&& text@[p - 1] == '\n'
                    },
                forall|k: int| #![trigger starts@[k]]
                    1 <= k < starts@.len() ==> starts@[k - 1] < starts@[k],
                starts@.last() <= i,
            decreases text.len() - i,
        {
            if text[i] == '\n' {
                starts.push(i + 1);
            }
            i = i + 1;
        }
        self.line_starts = starts;
    }

    pub fn has_errors(&self) -> (r: bool)
        ensures
            r == exists|i: int| 0 <= i < self.messages@.len() && #[trigger] self.messages@[i] is Error,
    {
        let mut i: usize = 0;
        while i < self.messages.len()
            invariant
                i <= self.messages@.len(),
                forall|j: int| 0 <= j < i ==> !(#[trigger] self.messages@[j] is Error),
            decreases self.messages.len() - i,
        {
            if self.messages[i].is_error() {
                return true;
            }
            i = i + 1;
        }
        false
    }

    /// The line of a source offset (see `line_of`).
    pub fn lookup_line_number(&self, offset: usize) -> (r: Option<LineNumber>)
        ensures
            r == line_of(self.line_starts(), offset),
    {
        let mut n: usize = self.line_starts.len();
        proof {
            assert(self.line_starts@.subrange(0, n as int) =~= self.line_starts@);
        }
        while n > 0
            invariant
                n <= self.line_starts@.len(),
                line_of(self.line_starts@, offset) == line_of(self.line_starts@.subrange(0, n as int), offset),
            decreases n,
        {
            let start = self.line_starts[n - 1];
            proof {
                let pre = self.line_starts@.subrange(0, n as int);
                assert(pre.drop_last() =~= self.line_starts@.subrange(0, n - 1));
            }
            if start <= offset {
                return Some(LineNumber::new_with_offset(n, offset - start));
            }
            n = n - 1;
        }
        None
    }

    fn line_for(&self, offset: Option<Offset>) -> (r: Option<LineNumber>)
        ensures
            r == match offset {
                Some(o) => line_of(self.line_starts(), o.0),
                None => None,
            },
    {
        match offset {
            Some(o) => self.lookup_line_number(o.0),
            None => None,
        }
    }

    pub fn warning(&mut self, msg: String, offset: Option<Offset>)
        ensures
            final(self).line_starts() == old(self).line_starts(),
            one_more(old(self).messages@, final(self).messages@, false, msg@, old(self).line_for_spec(offset)),
    {
        let line_number = self.line_for(offset);
        let ghost prev = self.messages@;
        self.messages.push(CompilerMessage::Warning { message: msg, line_number });
        proof {
            assert(self.messages@.drop_last() =~= prev);
        }
    }

    pub fn error(&mut self, msg: String, offset: Option<Offset>)
        ensures
            final(self).line_starts() == old(self).line_starts(),
            one_more(old(self).messages@, final(self).messages@, true, msg@, old(self).line_for_spec(offset)),
    {
        let line_number = self.line_for(offset);
        let ghost prev = self.messages@;
        self.messages.push(CompilerMessage::Error { message: msg, line_number });
        proof {
            assert(self.messages@.drop_last() =~= prev);
        }
    }

    pub open spec fn line_for_spec(&self, offset: Option<Offset>) -> Option<LineNumber> {
        match offset {
            Some(o) => line_of(self.line_starts(), o.0),
            None => None,
        }
    }
}

} // verus!
