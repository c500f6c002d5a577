//! The shell's read loop, as decisions: how lines are gathered into a
//! command while a quote is open, and what the shell does with a complete
//! command line. Reading lines, and running what is read, is the caller's
//! part.
use vstd::prelude::*;
use crate::ast::{RedirOp, SimpleCommand};
use crate::evaluator::{builtin_table, Builtin, Evaluator};
use crate::grammar::{lex_spec, law_lex_tokens_end_with_eof};
use crate::lexer::{tokens_view, try_lex};
use crate::parser::{law_parse_total, parse_spec, ParseError, ParseFailure, Parser};
use crate::token::{Token, TokenType};
use crate::variables::Variables;

verus! {

/// What the shell does after a line was read.
pub enum ShellAction {
    /// Input ended with nothing pending: leave the shell.
    Exit,
    /// Input ended inside a quote: report it and start over.
    Cancelled,
    /// A quote is still open: read another line with the prompt `> `.
    Continue,
    /// The command line names no command: nothing to run.
    Empty,
    /// Run this command.
    Run(SimpleCommand),
    /// The command line is malformed: report why.
    Failed(ParseError),
    /// The line uses an operator that this shell does not implement.
    Unsupported,
}

/// The view of a shell action.
pub enum ShellActionModel {
    Exit,
    Cancelled,
    Continue,
    Empty,
    Run((Seq<Seq<char>>, Seq<(u32, RedirOp, Seq<char>)>)),
    Failed(ParseFailure),
    Unsupported,
}

impl View for ShellAction {
    type V = ShellActionModel;

    open spec fn view(&self) -> ShellActionModel {
        match self {
            ShellAction::Exit => ShellActionModel::Exit,
            ShellAction::Cancelled => ShellActionModel::Cancelled,
            ShellAction::Continue => ShellActionModel::Continue,
            ShellAction::Empty => ShellActionModel::Empty,
            ShellAction::Run(c) => ShellActionModel::Run(c@),
            ShellAction::Failed(e) => ShellActionModel::Failed(e@),
            ShellAction::Unsupported => ShellActionModel::Unsupported,
        }
    }
}

/// The view of an optional line.
pub open spec fn line_view(line: Option<String>) -> Option<Seq<char>> {
    match line {
        Some(l) => Some(l@),
        None => None,
    }
}

/// What the shell does with a line (or the end of input, `None`), given the
/// text gathered so far: the text gathered afterwards and the action.
pub open spec fn run_spec(
    buffer: Seq<char>,
    line: Option<Seq<char>>,
    vars: Seq<(Seq<char>, Seq<char>)>,
) -> (Seq<char>, ShellActionModel) {
    let (rest, step) = read_spec(buffer, line, vars);
    (
        rest,
        match step {
            ReadStepModel::Exit => ShellActionModel::Exit,
            ReadStepModel::Cancelled => ShellActionModel::Cancelled,
            ReadStepModel::Continue => ShellActionModel::Continue,
            ReadStepModel::Unsupported => ShellActionModel::Unsupported,
            ReadStepModel::Command(toks) => match parse_spec(toks) {
                Some(Ok(Some(c))) => ShellActionModel::Run(c),
                Some(Err(e)) => ShellActionModel::Failed(e),
                _ => ShellActionModel::Empty,
            },
        },
    )
}

/// The shell: its evaluator and the lines of the command being read.
pub struct Shell {
    evaluator: Evaluator,
    reader: CommandReader,
}

impl Shell {
    /// A shell with the builtins and nothing read yet.
    pub fn new() -> (s: Shell)
        ensures
            s.evaluator().names_view() == builtin_table().map_values(|b: (Seq<char>, Builtin)| b.0),
            s.pending() == Seq::<char>::empty(),
    {
        Shell { evaluator: Evaluator::new(), reader: CommandReader::new() }
    }

    /// The shell's evaluator.
    pub closed spec fn evaluator(&self) -> Evaluator {
        self.evaluator
    }

    /// The text of the command read so far, while a quote is open.
    pub closed spec fn pending(&self) -> Seq<char> {
        self.reader@
    }

    /// The shell's evaluator.
    pub fn get_evaluator(&self) -> (e: &Evaluator)
        ensures
            *e == self.evaluator(),
    {
        &self.evaluator
    }

    /// The prompt for the next line: `$ ` for a new command, `> ` while a
    /// quote is open.
    pub fn prompt(&self) -> (p: &'static str)
        ensures
            p@ == (if self.pending().len() == 0 {
                "$ "@
            } else {
                "> "@
            }),
    {
        self.reader.prompt()
    }

    /// One turn of the shell's loop: takes the line that was read (`None`
    /// at the end of input) and says what to do with it.
    pub fn run(&mut self, line: Option<String>, vars: &Variables) -> (a: ShellAction)
        ensures
            final(self).evaluator() == old(self).evaluator(),
            (final(self).pending(), a@) == run_spec(old(self).pending(), line_view(line), vars@),
    {
        let ghost buffer = self.reader@;
        let ghost lv = line_view(line);
        let step = self.reader.on_line(line, vars);
        match step {
            ReadStep::Exit => ShellAction::Exit,
            ReadStep::Cancelled => ShellAction::Cancelled,
            ReadStep::Continue => ShellAction::Continue,
            ReadStep::Unsupported => ShellAction::Unsupported,
            ReadStep::Command(tokens) => {
                let ghost toks = tokens_view(tokens@);
                proof {
                    let b = buffer + lv.unwrap();
                    law_lex_tokens_end_with_eof(b, vars@);
                    law_parse_total(toks, 0, Seq::empty(), Seq::empty());
                }
                let mut parser = Parser::new(tokens);
                match parser.parse_result() {
                    Ok(Some(c)) => ShellAction::Run(c),
                    Ok(None) => ShellAction::Empty,
                    Err(e) => ShellAction::Failed(e),
                }
            },
        }
    }
}

/// What to do after a line was read.
pub enum ReadStep {
    /// Input ended with nothing pending: leave the shell.
    Exit,
    /// Input ended inside a quote: report it and start over.
    Cancelled,
    /// A quote is still open: read another line with the prompt `> `.
    Continue,
    /// A complete command line, as tokens.
    Command(Vec<Token>),
    /// The line uses an operator that this shell does not implement.
    Unsupported,
}

/// The view of a read step.
pub enum ReadStepModel {
    Exit,
    Cancelled,
    Continue,
    Command(Seq<(TokenType, Seq<char>)>),
    Unsupported,
}

impl View for ReadStep {
    type V = ReadStepModel;

    open spec fn view(&self) -> ReadStepModel {
        match self {
            ReadStep::Exit => ReadStepModel::Exit,
            ReadStep::Cancelled => ReadStepModel::Cancelled,
            ReadStep::Continue => ReadStepModel::Continue,
            ReadStep::Command(t) => ReadStepModel::Command(tokens_view(t@)),
            ReadStep::Unsupported => ReadStepModel::Unsupported,
        }
    }
}

/// What a line (or the end of input, `None`) does to the text gathered so
/// far: the text gathered afterwards and the step to take.
pub open spec fn read_spec(
    buffer: Seq<char>,
    line: Option<Seq<char>>,
    vars: Seq<(Seq<char>, Seq<char>)>,
) -> (Seq<char>, ReadStepModel) {
    match line {
        None => if buffer.len() == 0 {
            (buffer, ReadStepModel::Exit)
        } else {
            (Seq::empty(), ReadStepModel::Cancelled)
        },
        Some(l) => {
            let b = buffer + l;
            match lex_spec(b, vars) {
                None => (Seq::empty(), ReadStepModel::Unsupported),
                Some((toks, open)) => if open {
                    (b, ReadStepModel::Continue)
                } else {
                    (Seq::empty(), ReadStepModel::Command(toks))
                },
            }
        },
    }
}

/// Gathers the lines of one command.
pub struct CommandReader {
    buffer: String,
}

impl View for CommandReader {
    type V = Seq<char>;

    closed spec fn view(&self) -> Seq<char> {
        self.buffer@
    }
}

impl CommandReader {
    /// A reader with nothing gathered.
    pub fn new() -> (r: CommandReader)
        ensures
            r@ == Seq::<char>::empty(),
    {
        CommandReader { buffer: String::new() }
    }

    /// The prompt for the next line: `$ ` for a new command, `> ` while a
    /// quote is open.
    pub fn prompt(&self) -> (p: &'static str)
        ensures
            p@ == (if self@.len() == 0 {
                "$ "@
            } else {
                "> "@
            }),
    {
        if self.buffer.as_str().unicode_len() == 0 {
            "$ "
        } else {
            "> "
        }
    }

    /// Takes a line that was read (`None` at the end of input).
    pub fn on_line(&mut self, line: Option<String>, vars: &Variables) -> (step: ReadStep)
        ensures
            (final(self)@, step@) == read_spec(
                old(self)@,
                match line {
                    Some(l) => Some(l@),
                    None => None,
                },
                vars@,
            ),
    {
        match line {
            None => {
                if self.buffer.as_str().unicode_len() == 0 {
                    ReadStep::Exit
                } else {
                    self.buffer = String::new();
                    ReadStep::Cancelled
                }
            },
            Some(l) => {
                let mut b = self.buffer.clone();
                b.append(l.as_str());
                match try_lex(b.as_str(), vars) {
                    None => {
                        self.buffer = String::new();
                        ReadStep::Unsupported
                    },
                    Some((tokens, open)) => {
                        if open {
                            self.buffer = b;
                            ReadStep::Continue
                        } else {
                            self.buffer = String::new();
                            ReadStep::Command(tokens)
                        }
                    },
                }
            },
        }
    }
}

} // verus!
