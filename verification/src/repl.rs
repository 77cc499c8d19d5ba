//! The interactive shell: what a line asks for, and when a statement is whole.

use vstd::prelude::*;
use vstd::string::*;
use crate::text::{
    ascii_lowered, chars_of, copy_chars, is_space, is_text, lower_chars, push_chars, space, text_of,
    text_views, trim_chars, trimmed,
};

verus! {

/// How many lines the history keeps.
pub const REPL_HISTORY_LIMIT: usize = 100;

/// What a line asks for.
#[derive(Debug, PartialEq)]
pub enum ReplCommand {
    /// A statement to execute, or an unknown meta-command tried as one.
    Sql(String),
    ListCollections,
    Describe(String),
    Branches(String),
    Help,
    History,
    Shell(String),
    Quit,
    Empty,
}

pub enum CommandView {
    Sql(Seq<char>),
    ListCollections,
    Describe(Seq<char>),
    Branches(Seq<char>),
    Help,
    History,
    Shell(Seq<char>),
    Quit,
    Empty,
}

impl View for ReplCommand {
    type V = CommandView;

    open spec fn view(&self) -> CommandView {
        match self {
            ReplCommand::Sql(s) => CommandView::Sql(s@),
            ReplCommand::ListCollections => CommandView::ListCollections,
            ReplCommand::Describe(s) => CommandView::Describe(s@),
            ReplCommand::Branches(s) => CommandView::Branches(s@),
            ReplCommand::Help => CommandView::Help,
            ReplCommand::History => CommandView::History,
            ReplCommand::Shell(s) => CommandView::Shell(s@),
            ReplCommand::Quit => CommandView::Quit,
            ReplCommand::Empty => CommandView::Empty,
        }
    }
}

/// Where the first white space stands; the length where there is none.
pub open spec fn first_space(s: Seq<char>, i: int) -> int
    decreases s.len() - i,
{
    if i >= s.len() {
        s.len() as int
    } else if is_space(s[i]) {
        i
    } else {
        first_space(s, i + 1)
    }
}

fn space_place(s: &[char]) -> (r: usize)
    ensures
        r == first_space(s@, 0),
        r <= s@.len(),
{
    let mut i: usize = 0;
    while i < s.len()
        invariant
            i <= s@.len(),
            first_space(s@, 0) == first_space(s@, i as int),
        decreases s@.len() - i,
    {
        if space(s[i]) {
            return i;
        }
        i = i + 1;
    }
    i
}

/// The argument of a meta-command: what follows the first white space.
pub open spec fn meta_arg(t: Seq<char>) -> Seq<char> {
    let k = first_space(t, 0);
    if k < t.len() {
        trimmed(t.subrange(k + 1, t.len() as int))
    } else {
        Seq::empty()
    }
}

/// What a line asks for. Meta-commands start with a backslash; `exit` and
/// `quit` alone, in any case, end the session; anything else is a statement.
pub open spec fn command_of(line: Seq<char>) -> CommandView {
    let t = trimmed(line);
    if t.len() == 0 {
        CommandView::Empty
    } else if t[0] == '\\' {
        let word = t.subrange(0, first_space(t, 0));
        let arg = meta_arg(t);
        if word == "\\l"@ || word == "\\list"@ {
            CommandView::ListCollections
        } else if word == "\\d"@ || word == "\\describe"@ {
            CommandView::Describe(arg)
        } else if word == "\\b"@ {
            CommandView::Branches(arg)
        } else if word == "\\h"@ || word == "\\help"@ || word == "\\?"@ {
            CommandView::Help
        } else if word == "\\history"@ {
            CommandView::History
        } else if word == "\\!"@ {
            CommandView::Shell(arg)
        } else if word == "\\q"@ || word == "\\quit"@ {
            CommandView::Quit
        } else {
            CommandView::Sql(t)
        }
    } else if ascii_lowered(t) == "exit"@ || ascii_lowered(t) == "quit"@ {
        CommandView::Quit
    } else {
        CommandView::Sql(t)
    }
}

/// Reads a line.
pub fn parse_repl_command(line: &str) -> (r: ReplCommand)
    ensures
        r@ == command_of(line@),
{
    let chars = chars_of(line);
    let t = trim_chars(&chars);
    if t.len() == 0 {
        return ReplCommand::Empty;
    }
    if t[0] == '\\' {
        let k: usize = space_place(&t);
        let word = copy_chars(&t, 0, k);
        let arg: String = if k < t.len() {
            let rest = copy_chars(&t, k + 1, t.len());
            let trimmed_rest = trim_chars(&rest);
            text_of(&trimmed_rest)
        } else {
            String::new()
        };
        if is_text(&word, "\\l") || is_text(&word, "\\list") {
            return ReplCommand::ListCollections;
        }
        if is_text(&word, "\\d") || is_text(&word, "\\describe") {
            return ReplCommand::Describe(arg);
        }
        if is_text(&word, "\\b") {
            return ReplCommand::Branches(arg);
        }
        if is_text(&word, "\\h") || is_text(&word, "\\help") || is_text(&word, "\\?") {
            return ReplCommand::Help;
        }
        if is_text(&word, "\\history") {
            return ReplCommand::History;
        }
        if is_text(&word, "\\!") {
            return ReplCommand::Shell(arg);
        }
        if is_text(&word, "\\q") || is_text(&word, "\\quit") {
            return ReplCommand::Quit;
        }
        return ReplCommand::Sql(text_of(&t));
    }
    let low = lower_chars(&t);
    if is_text(&low, "exit") || is_text(&low, "quit") {
        return ReplCommand::Quit;
    }
    ReplCommand::Sql(text_of(&t))
}

/// What the session does after a line.
#[derive(Debug, PartialEq)]
pub enum ReplStep {
    /// Read on: the line was blank, or the statement is not whole yet.
    Wait,
    /// Execute this and read on.
    Execute(String),
    /// Execute this and end the session.
    ExecuteAndQuit(String),
    /// End the session.
    Quit,
}

pub enum StepView {
    Wait,
    Execute(Seq<char>),
    ExecuteAndQuit(Seq<char>),
    Quit,
}

impl View for ReplStep {
    type V = StepView;

    open spec fn view(&self) -> StepView {
        match self {
            ReplStep::Wait => StepView::Wait,
            ReplStep::Execute(s) => StepView::Execute(s@),
            ReplStep::ExecuteAndQuit(s) => StepView::ExecuteAndQuit(s@),
            ReplStep::Quit => StepView::Quit,
        }
    }
}

/// The statement so far with one more line, after a space where it is not the
/// first.
pub open spec fn joined(buffer: Seq<char>, t: Seq<char>) -> Seq<char> {
    if buffer.len() == 0 {
        t
    } else {
        buffer.push(' ') + t
    }
}

/// What a line does: the step to take, and the statement so far after it.
/// Meta-commands are executed at once and leave the statement as it is; a
/// statement is executed when a line ends it with a semicolon.
pub open spec fn fed(buffer: Seq<char>, line: Seq<char>) -> (StepView, Seq<char>) {
    let t = trimmed(line);
    if t.len() == 0 {
        (StepView::Wait, buffer)
    } else if t[0] == '\\' {
        if command_of(t) == CommandView::Quit {
            (StepView::ExecuteAndQuit(t), buffer)
        } else {
            (StepView::Execute(t), buffer)
        }
    } else if ascii_lowered(t) == "exit"@ || ascii_lowered(t) == "quit"@ {
        (StepView::Quit, buffer)
    } else {
        let whole = joined(buffer, t);
        if whole.last() == ';' {
            (StepView::Execute(whole), Seq::empty())
        } else {
            (StepView::Wait, whole)
        }
    }
}

/// Takes a line into the session.
pub fn feed_line(buffer: &mut String, line: &str) -> (r: ReplStep)
    ensures
        (r@, final(buffer)@) == fed(old(buffer)@, line@),
{
    let chars = chars_of(line);
    let t = trim_chars(&chars);
    if t.len() == 0 {
        return ReplStep::Wait;
    }
    if t[0] == '\\' {
        let text = text_of(&t);
        return match parse_repl_command(&text) {
            ReplCommand::Quit => ReplStep::ExecuteAndQuit(text),
            _ => ReplStep::Execute(text),
        };
    }
    let low = lower_chars(&t);
    if is_text(&low, "exit") || is_text(&low, "quit") {
        return ReplStep::Quit;
    }
    let mut whole = chars_of(buffer.as_str());
    if whole.len() > 0 {
        whole.push(' ');
    } else {
        proof {
            assert(whole@ + t@ =~= t@);
        }
    }
    push_chars(&mut whole, &t);
    let n: usize = whole.len();
    if whole[n - 1] == ';' {
        *buffer = String::new();
        ReplStep::Execute(text_of(&whole))
    } else {
        *buffer = text_of(&whole);
        ReplStep::Wait
    }
}

/// The history after one more line: the trimmed line comes last, and beyond the
/// limit the oldest goes. Blank lines are not kept.
pub open spec fn recorded(history: Seq<Seq<char>>, line: Seq<char>) -> Seq<Seq<char>> {
    let t = trimmed(line);
    if t.len() == 0 {
        history
    } else {
        let longer = history.push(t);
        if longer.len() > REPL_HISTORY_LIMIT {
            longer.drop_first()
        } else {
            longer
        }
    }
}

/// Records a line.
pub fn record_history(history: &mut Vec<String>, line: &str)
    ensures
        text_views(final(history)@) == recorded(text_views(old(history)@), line@),
{
    let chars = chars_of(line);
    let t = trim_chars(&chars);
    if t.len() == 0 {
        return ;
    }
    let ghost before = text_views(history@);
    history.push(text_of(&t));
    proof {
        assert(text_views(history@) =~= before.push(t@));
    }
    if history.len() > REPL_HISTORY_LIMIT {
        let _oldest = history.remove(0);
        proof {
            assert(text_views(history@) =~= before.push(t@).drop_first());
        }
    }
}

/// The history never grows beyond its limit.
pub proof fn history_is_bounded(history: Seq<Seq<char>>, line: Seq<char>)
    requires
        history.len() <= REPL_HISTORY_LIMIT,
    ensures
        recorded(history, line).len() <= REPL_HISTORY_LIMIT,
{
}

/// The text without semicolons at its end.
pub open spec fn without_semicolons(s: Seq<char>) -> Seq<char>
    decreases s.len(),
{
    if s.len() > 0 && s.last() == ';' {
        without_semicolons(s.drop_last())
    } else {
        s
    }
}

/// The statement to execute: trimmed, without its terminator.
pub fn statement_text(query: &str) -> (r: String)
    ensures
        r@ == trimmed(without_semicolons(trimmed(query@))),
{
    let chars = chars_of(query);
    let t = trim_chars(&chars);
    let mut n: usize = t.len();
    proof {
        assert(t@.take(n as int) =~= t@);
    }
    while n > 0 && t[n - 1] == ';'
        invariant
            n <= t@.len(),
            without_semicolons(t@) == without_semicolons(t@.take(n as int)),
        decreases n,
    {
        proof {
            assert(t@.take(n as int).drop_last() =~= t@.take(n as int - 1));
        }
        n = n - 1;
    }
    let body = copy_chars(&t, 0, n);
    proof {
        assert(body@ =~= t@.take(n as int));
    }
    let out = trim_chars(&body);
    text_of(&out)
}

} // verus!
