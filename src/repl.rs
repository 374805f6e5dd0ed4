//! The decisions of the interactive session: what an input event leads to
//! (two interrupts in a row leave the session, end of input leaves it, a
//! blank line is skipped), and which command a line holds. Commands may be
//! shortened to any prefix of at least two characters (`:e`, `:exi`, ...).
use vstd::prelude::*;
use crate::executor::chars_of;
use crate::parser::string_from_chars;

verus! {

/// Characters that separate words on a command line.
pub open spec fn is_ws(c: char) -> bool {
    c == ' ' || c == '\t' || c == '\n' || c == '\r'
}

/// `s` without leading whitespace.
pub open spec fn trim_start(s: Seq<char>) -> Seq<char>
    decreases s.len(),
{
    if s.len() > 0 && is_ws(s[0]) {
        trim_start(s.subrange(1, s.len() as int))
    } else {
        s
    }
}

/// `s` without trailing whitespace.
pub open spec fn trim_end(s: Seq<char>) -> Seq<char>
    decreases s.len(),
{
    if s.len() > 0 && is_ws(s.last()) {
        trim_end(s.drop_last())
    } else {
        s
    }
}

pub open spec fn trim(s: Seq<char>) -> Seq<char> {
    trim_end(trim_start(s))
}

/// The length of the first word of `s` (which starts with no whitespace).
pub open spec fn word_len(s: Seq<char>) -> nat
    decreases s.len(),
{
    if s.len() > 0 && !is_ws(s[0]) {
        1 + word_len(s.subrange(1, s.len() as int))
    } else {
        0
    }
}

/// The first word of a line.
pub open spec fn first_word(line: Seq<char>) -> Seq<char> {
    trim_start(line).subrange(0, word_len(trim_start(line)) as int)
}

/// What follows the first word, without surrounding whitespace.
pub open spec fn argument(line: Seq<char>) -> Seq<char> {
    trim(trim_start(line).subrange(word_len(trim_start(line)) as int, trim_start(line).len() as int))
}

/// `w` shortens the command `full`: at least two of its first characters.
pub open spec fn abbreviates(w: Seq<char>, full: Seq<char>) -> bool {
    2 <= w.len() <= full.len() && full.subrange(0, w.len() as int) == w
}

/// The argument of `:steps`.
#[derive(Debug, Clone, Copy, PartialEq, Eq, Structural)]
pub enum StepsArg {
    /// No argument: report the setting.
    Show,
    On,
    Off,
    /// Anything else.
    Invalid,
}

/// A command of the session.
#[derive(Debug, Clone, PartialEq, Eq)]
pub enum ReplCommand {
    Exit,
    Help,
    Steps(StepsArg),
    All,
    Print(String),
    Load(String),
    /// A statement to load and evaluate: the whole line.
    Code(String),
}

/// A command with its text as characters.
pub enum CommandView {
    Exit,
    Help,
    Steps(StepsArg),
    All,
    Print(Seq<char>),
    Load(Seq<char>),
    Code(Seq<char>),
}

pub open spec fn view_of(c: ReplCommand) -> CommandView {
    match c {
        ReplCommand::Exit => CommandView::Exit,
        ReplCommand::Help => CommandView::Help,
        ReplCommand::Steps(a) => CommandView::Steps(a),
        ReplCommand::All => CommandView::All,
        ReplCommand::Print(s) => CommandView::Print(s@),
        ReplCommand::Load(s) => CommandView::Load(s@),
        ReplCommand::Code(s) => CommandView::Code(s@),
    }
}

pub open spec fn steps_arg(a: Seq<char>) -> StepsArg {
    if a.len() == 0 {
        StepsArg::Show
    } else if a == "on"@ || a == "1"@ || a == "true"@ {
        StepsArg::On
    } else if a == "off"@ || a == "0"@ || a == "false"@ {
        StepsArg::Off
    } else {
        StepsArg::Invalid
    }
}

/// The command a line holds.
pub open spec fn command_of(line: Seq<char>) -> CommandView {
    let w = first_word(line);
    if abbreviates(w, ":exit"@) || abbreviates(w, ":quit"@) {
        CommandView::Exit
    } else if abbreviates(w, ":help"@) {
        CommandView::Help
    } else if abbreviates(w, ":steps"@) {
        CommandView::Steps(steps_arg(argument(line)))
    } else if abbreviates(w, ":all"@) {
        CommandView::All
    } else if abbreviates(w, ":print"@) {
        CommandView::Print(argument(line))
    } else if abbreviates(w, ":load"@) {
        CommandView::Load(argument(line))
    } else {
        CommandView::Code(line)
    }
}

/// An input event of the session.
#[derive(Debug, Clone, PartialEq, Eq)]
pub enum ReplEvent {
    Line(String),
    Interrupted,
    Eof,
}

/// What the session does next.
#[derive(Debug, Clone, PartialEq, Eq)]
pub enum ReplAction {
    Exit,
    /// Tell how to leave.
    Hint,
    Skip,
    Run(ReplCommand),
}

fn ws(c: char) -> (r: bool)
    ensures
        r == is_ws(c),
{
    c == ' ' || c == '\t' || c == '\n' || c == '\r'
}

/// The position of the first character of `s[from..]` that is not whitespace.
fn skip_ws(s: &Vec<char>, from: usize) -> (r: usize)
    requires
        from <= s@.len(),
    ensures
        trim_start(s@.subrange(from as int, s@.len() as int)) == s@.subrange(r as int, s@.len() as int),
        from <= r <= s@.len(),
{
    let mut i = from;
    while i < s.len() && ws(s[i])
        invariant
            from <= i <= s@.len(),
            trim_start(s@.subrange(from as int, s@.len() as int)) == trim_start(
                s@.subrange(i as int, s@.len() as int),
            ),
        decreases s.len() - i,
    {
        proof {
            assert(s@.subrange(i as int, s@.len() as int).subrange(1, s@.len() - i) =~= s@.subrange(
                i + 1,
                s@.len() as int,
            ));
        }
        i = i + 1;
    }
    proof {
        let rest = s@.subrange(i as int, s@.len() as int);
        assert(rest.len() == 0 || !is_ws(rest[0]));
        assert(trim_start(rest) == rest);
    }
    i
}

/// The end of the word that starts at `from`.
fn word_end(s: &Vec<char>, from: usize) -> (r: usize)
    requires
        from <= s@.len(),
    ensures
        r == from + word_len(s@.subrange(from as int, s@.len() as int)),
        r <= s@.len(),
{
    let mut i = from;
    while i < s.len() && !ws(s[i])
        invariant
            from <= i <= s@.len(),
            word_len(s@.subrange(from as int, s@.len() as int)) == (i - from) + word_len(
                s@.subrange(i as int, s@.len() as int),
            ),
        decreases s.len() - i,
    {
        proof {
            assert(s@.subrange(i as int, s@.len() as int).subrange(1, s@.len() - i) =~= s@.subrange(
                i + 1,
                s@.len() as int,
            ));
        }
        i = i + 1;
    }
    i
}

/// The end of `s[from..to]` once trailing whitespace is dropped.
fn trim_end_at(s: &Vec<char>, from: usize, to: usize) -> (r: usize)
    requires
        from <= to <= s@.len(),
    ensures
        from <= r <= to,
        trim_end(s@.subrange(from as int, to as int)) == s@.subrange(from as int, r as int),
{
    let mut j = to;
    while j > from && ws(s[j - 1])
        invariant
            from <= j <= to,
            to <= s@.len(),
            trim_end(s@.subrange(from as int, to as int)) == trim_end(s@.subrange(from as int, j as int)),
        decreases j,
    {
        proof {
            assert(s@.subrange(from as int, j as int).drop_last() =~= s@.subrange(from as int, j - 1));
        }
        j = j - 1;
    }
    j
}

fn abbreviates_exec(s: &Vec<char>, from: usize, to: usize, full: &str) -> (r: bool)
    requires
        from <= to <= s@.len(),
    ensures
        r == abbreviates(s@.subrange(from as int, to as int), full@),
{
    let f = chars_of(full);
    let n = to - from;
    if n < 2 || n > f.len() {
        return false;
    }
    let mut k: usize = 0;
    while k < n
        invariant
            k <= n,
            n == to - from,
            to <= s@.len(),
            n <= f@.len(),
            f@ == full@,
            forall|m: int| 0 <= m < k ==> s@[from + m] == f@[m],
        decreases n - k,
    {
        if s[from + k] != f[k] {
            proof {
                assert(f@.subrange(0, n as int)[k as int] != s@.subrange(from as int, to as int)[k as int]);
            }
            return false;
        }
        k = k + 1;
    }
    proof {
        assert(f@.subrange(0, n as int) =~= s@.subrange(from as int, to as int));
    }
    true
}

fn equals_exec(s: &Vec<char>, from: usize, to: usize, text: &str) -> (r: bool)
    requires
        from <= to <= s@.len(),
    ensures
        r == (s@.subrange(from as int, to as int) == text@),
{
    let t = chars_of(text);
    if to - from != t.len() {
        return false;
    }
    let mut k: usize = 0;
    while k < t.len()
        invariant
            k <= t@.len(),
            to - from == t@.len(),
            to <= s@.len(),
            t@ == text@,
            forall|m: int| 0 <= m < k ==> s@[from + m] == t@[m],
        decreases t.len() - k,
    {
        if s[from + k] != t[k] {
            proof {
                assert(t@[k as int] != s@.subrange(from as int, to as int)[k as int]);
            }
            return false;
        }
        k = k + 1;
    }
    proof {
        assert(t@ =~= s@.subrange(from as int, to as int));
    }
    true
}

/// The characters `s[from..to]` as a string.
fn text_between(s: &Vec<char>, from: usize, to: usize) -> (r: String)
    requires
        from <= to <= s@.len(),
    ensures
        r@ == s@.subrange(from as int, to as int),
{
    let mut v: Vec<char> = Vec::new();
    let mut k = from;
    while k < to
        invariant
            from <= k <= to,
            to <= s@.len(),
            v@ == s@.subrange(from as int, k as int),
        decreases to - k,
    {
        v.push(s[k]);
        proof {
            assert(v@ =~= s@.subrange(from as int, k + 1));
        }
        k = k + 1;
    }
    string_from_chars(v.as_slice())
}

/// The command a line holds (see `command_of`).
pub fn parse_command(line: &str) -> (r: ReplCommand)
    ensures
        view_of(r) == command_of(line@),
{
    let s = chars_of(line);
    let start = skip_ws(&s, 0);
    let wend = word_end(&s, start);
    let astart = skip_ws(&s, wend);
    let aend = trim_end_at(&s, astart, s.len());
    proof {
        assert(s@.subrange(0, s@.len() as int) =~= s@);
        let t = trim_start(s@);
        assert(t =~= s@.subrange(start as int, s@.len() as int));
        assert(first_word(line@) =~= s@.subrange(start as int, wend as int));
        let rest = t.subrange(word_len(t) as int, t.len() as int);
        assert(rest =~= s@.subrange(wend as int, s@.len() as int));
        assert(argument(line@) =~= s@.subrange(astart as int, aend as int));
    }
    if abbreviates_exec(&s, start, wend, ":exit") || abbreviates_exec(&s, start, wend, ":quit") {
        ReplCommand::Exit
    } else if abbreviates_exec(&s, start, wend, ":help") {
        ReplCommand::Help
    } else if abbreviates_exec(&s, start, wend, ":steps") {
        let arg = if astart == aend {
            StepsArg::Show
        } else if equals_exec(&s, astart, aend, "on") || equals_exec(&s, astart, aend, "1")
            || equals_exec(&s, astart, aend, "true") {
            StepsArg::On
        } else if equals_exec(&s, astart, aend, "off") || equals_exec(&s, astart, aend, "0")
            || equals_exec(&s, astart, aend, "false") {
            StepsArg::Off
        } else {
            StepsArg::Invalid
        };
        ReplCommand::Steps(arg)
    } else if abbreviates_exec(&s, start, wend, ":all") {
        ReplCommand::All
    } else if abbreviates_exec(&s, start, wend, ":print") {
        ReplCommand::Print(text_between(&s, astart, aend))
    } else if abbreviates_exec(&s, start, wend, ":load") {
        ReplCommand::Load(text_between(&s, astart, aend))
    } else {
        ReplCommand::Code(line.to_owned())
    }
}

/// One decision of the session: given whether the previous event was an
/// interrupt, what to do with this event, and whether it was an interrupt.
pub fn repl_step(interrupted_before: bool, ev: &ReplEvent) -> (r: (bool, ReplAction))
    ensures
        match ev {
            ReplEvent::Interrupted => r.0 && r.1 == if interrupted_before {
                ReplAction::Exit
            } else {
                ReplAction::Hint
            },
            ReplEvent::Eof => !r.0 && r.1 == ReplAction::Exit,
            ReplEvent::Line(l) => !r.0 && if trim(l@).len() == 0 {
                r.1 == ReplAction::Skip
            } else {
                r.1 matches ReplAction::Run(c) && view_of(c) == command_of(l@)
            },
        },
{
    match ev {
        ReplEvent::Interrupted => {
            if interrupted_before {
                (true, ReplAction::Exit)
            } else {
                (true, ReplAction::Hint)
            }
        },
        ReplEvent::Eof => (false, ReplAction::Exit),
        ReplEvent::Line(l) => {
            let s = chars_of(l.as_str());
            let start = skip_ws(&s, 0);
            let end = trim_end_at(&s, start, s.len());
            proof {
                assert(s@.subrange(0, s@.len() as int) =~= s@);
                assert(trim(l@) =~= s@.subrange(start as int, end as int));
            }
            if start == end {
                (false, ReplAction::Skip)
            } else {
                (false, ReplAction::Run(parse_command(l.as_str())))
            }
        },
    }
}

} // verus!
