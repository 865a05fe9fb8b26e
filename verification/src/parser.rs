//! From source text to commands.
use std::str::Chars;
use vstd::prelude::*;
use vstd::std_specs::iter::IteratorSpec;
use crate::command::{lemma_view_composite, views, Cmd, Command};
use crate::compiler::Compiler;
use crate::error::{Error, ErrorKind};

verus! {

broadcast use vstd::string::group_string_axioms;

/// The command that a single operator character stands for, if it is one of
/// the six operators that are not brackets.
pub open spec fn simple(ch: char) -> Option<Cmd> {
    if ch == '+' {
        Some(Cmd::Add(0, 1))
    } else if ch == '-' {
        Some(Cmd::Add(0, -1i32))
    } else if ch == '>' {
        Some(Cmd::MovePtr(1))
    } else if ch == '<' {
        Some(Cmd::MovePtr(-1i32))
    } else if ch == ',' {
        Some(Cmd::Input(0))
    } else if ch == '.' {
        Some(Cmd::Output(0))
    } else {
        None
    }
}

/// What reading a text from its start yields.
pub enum Scanned {
    /// The text holds no unmatched `]`: these are its commands.
    End(Seq<Cmd>),
    /// The text holds an unmatched `]`: the commands before the first such
    /// bracket, and the text after it.
    Close(Seq<Cmd>, Seq<char>),
    /// A `[` in the text, before any unmatched `]`, is never closed.
    Open,
}

/// `scanned` with `first` put in front of its commands.
pub open spec fn prepend(first: Seq<Cmd>, scanned: Scanned) -> Scanned {
    match scanned {
        Scanned::End(commands) => Scanned::End(first + commands),
        Scanned::Close(commands, after) => Scanned::Close(first + commands, after),
        Scanned::Open => Scanned::Open,
    }
}

/// Reads `text` from left to right, up to its first unmatched `]` or to its end.
///
/// Characters that are no operators are skipped. A `[` opens a loop whose
/// body is read in the same way, and reading goes on after the `]` that
/// closes it. (The text after that bracket is always the shorter one, as
/// `lemma_scan_close_shorter` shows; the definition tests for it so that it
/// is seen to end.)
pub open spec fn scan(text: Seq<char>) -> Scanned
    decreases text.len(),
{
    if text.len() == 0 {
        Scanned::End(Seq::empty())
    } else {
        let rest = text.drop_first();
        if text[0] == '[' {
            match scan(rest) {
                Scanned::Close(body, after) => if after.len() < text.len() {
                    prepend(seq![Cmd::Loop(body)], scan(after))
                } else {
                    Scanned::Open
                },
                _ => Scanned::Open,
            }
        } else if text[0] == ']' {
            Scanned::Close(Seq::empty(), rest)
        } else {
            match simple(text[0]) {
                Some(command) => prepend(seq![command], scan(rest)),
                None => scan(rest),
            }
        }
    }
}

/// The program that `text` denotes, or the reason why it denotes none.
pub open spec fn parsed(text: Seq<char>) -> Result<Seq<Cmd>, Error> {
    match scan(text) {
        Scanned::End(commands) => Ok(commands),
        Scanned::Close(_, _) => Err(Error { kind: ErrorKind::UnbalancedClose }),
        Scanned::Open => Err(Error { kind: ErrorKind::UnclosedLoop }),
    }
}

/// Putting two runs of commands in front, one after the other, is putting
/// their concatenation in front.
proof fn lemma_prepend_twice(first: Seq<Cmd>, second: Seq<Cmd>, scanned: Scanned)
    ensures
        prepend(first, prepend(second, scanned)) == prepend(first + second, scanned),
{
    match scanned {
        Scanned::End(commands) => {
            assert(first + (second + commands) =~= (first + second) + commands);
        },
        Scanned::Close(commands, after) => {
            assert(first + (second + commands) =~= (first + second) + commands);
        },
        Scanned::Open => {},
    }
}

/// The text after an unmatched `]` is shorter than the text it was found in.
pub proof fn lemma_scan_close_shorter(text: Seq<char>)
    ensures
        scan(text) matches Scanned::Close(_, after) ==> after.len() < text.len(),
    decreases text.len(),
{
    if text.len() > 0 {
        let rest = text.drop_first();
        lemma_scan_close_shorter(rest);
        if text[0] == '[' {
            if let Scanned::Close(_, after) = scan(rest) {
                lemma_scan_close_shorter(after);
            }
        }
    }
}

impl Compiler {
    /// The command of one of the six simple operators; `None` for every other
    /// character.
    pub fn parse_command(ch: char) -> (command: Option<Command>)
        ensures
            match simple(ch) {
                Some(c) => command matches Some(found) && found@ == c,
                None => command is None,
            },
    {
        match ch {
            '+' => Some(Command::Add(0, 1)),
            '-' => Some(Command::Add(0, -1)),
            '>' => Some(Command::MovePtr(1)),
            '<' => Some(Command::MovePtr(-1)),
            ',' => Some(Command::Input(0)),
            '.' => Some(Command::Output(0)),
            _ => None,
        }
    }

    /// Parses the characters that `chars` has yet to yield.
    ///
    /// The result is the program of that text: `Ok` exactly when every bracket
    /// in it is matched, the unbalanced-close error when a `]` has no open
    /// loop, and the unclosed-loop error when the text ends inside a loop.
    ///
    /// `chars` has to be an iterator that is known to come to an end, as
    /// every iterator is that `str::chars` hands out.
    pub fn parse(chars: Chars<'_>) -> (result: Result<Vec<Command>, Error>)
        requires
            chars.decrease() is Some,
        ensures
            match parsed(chars.remaining()) {
                Ok(program) => result matches Ok(commands) && views(commands@) == program,
                Err(error) => result == Err::<Vec<Command>, Error>(error),
            },
    {
        let ghost text = chars.remaining();
        let mut cursor = chars;
        let mut result: Vec<Command> = Vec::new();
        loop
            invariant
                text == chars.remaining(),
                scan(text) == prepend(views(result@), scan(cursor.remaining())),
                cursor.decrease() is Some,
            decreases cursor.decrease()->0,
        {
            let ghost before = cursor.remaining();
            let next = cursor.next();
            match next {
                None => {
                    return Ok(result);
                },
                Some(ch) => {
                    if ch == '[' {
                        proof {
                            lemma_scan_close_shorter(before.drop_first());
                        }
                        match Compiler::parse_loop_body(&mut cursor) {
                            Ok(body) => {
                                let ghost inner = views(body@);
                                let command = Command::Loop(body);
                                proof {
                                    lemma_view_composite(command->Loop_0);
                                    assert((views(result@) + seq![Cmd::Loop(inner)]) =~= views(
                                        result@.push(command),
                                    ));
                                    lemma_prepend_twice(
                                        views(result@),
                                        seq![Cmd::Loop(inner)],
                                        scan(cursor.remaining()),
                                    );
                                }
                                result.push(command);
                            },
                            Err(e) => {
                                return Err(e);
                            },
                        }
                    } else if ch == ']' {
                        return Err(Error { kind: ErrorKind::UnbalancedClose });
                    } else {
                        match Compiler::parse_command(ch) {
                            Some(command) => {
                                proof {
                                    assert((views(result@) + seq![command@]) =~= views(
                                        result@.push(command),
                                    ));
                                    lemma_prepend_twice(
                                        views(result@),
                                        seq![command@],
                                        scan(cursor.remaining()),
                                    );
                                }
                                result.push(command);
                            },
                            None => {},
                        }
                    }
                },
            }
        }
    }

    /// Reads the body of a loop whose `[` has just been consumed, and
    /// consumes the `]` that closes it.
    ///
    /// The result is the body, with `chars` left behind the closing bracket;
    /// or the unclosed-loop error, where the text ends before the loop does.
    pub fn parse_loop_body(chars: &mut Chars<'_>) -> (result: Result<Vec<Command>, Error>)
        requires
            (*old(chars)).decrease() is Some,
        ensures
            (*final(chars)).decrease() is Some,
            result is Ok ==> (*final(chars)).decrease()->0 < (*old(chars)).decrease()->0,
            match scan((*old(chars)).remaining()) {
                Scanned::Close(body, after) => {
                    &&& result matches Ok(commands)
                    &&& views(commands@) == body
                    &&& (*final(chars)).remaining() == after
                },
                _ => result == Err::<Vec<Command>, Error>(Error { kind: ErrorKind::UnclosedLoop }),
            },
        decreases (*old(chars)).decrease()->0,
    {
        let ghost text = (*chars).remaining();
        let ghost budget = (*chars).decrease()->0;
        let mut result: Vec<Command> = Vec::new();
        loop
            invariant
                scan(text) == prepend(views(result@), scan((*chars).remaining())),
                text == (*old(chars)).remaining(),
                budget == (*old(chars)).decrease()->0,
                (*chars).decrease() is Some,
                (*chars).decrease()->0 <= budget,
            decreases (*chars).decrease()->0,
        {
            let ghost before = (*chars).remaining();
            let next = chars.next();
            match next {
                None => {
                    return Err(Error { kind: ErrorKind::UnclosedLoop });
                },
                Some(ch) => {
                    if ch == '[' {
                        proof {
                            lemma_scan_close_shorter(before.drop_first());
                        }
                        match Compiler::parse_loop_body(chars) {
                            Ok(body) => {
                                let ghost inner = views(body@);
                                let command = Command::Loop(body);
                                proof {
                                    lemma_view_composite(command->Loop_0);
                                    assert((views(result@) + seq![Cmd::Loop(inner)]) =~= views(
                                        result@.push(command),
                                    ));
                                    lemma_prepend_twice(
                                        views(result@),
                                        seq![Cmd::Loop(inner)],
                                        scan((*chars).remaining()),
                                    );
                                }
                                result.push(command);
                            },
                            Err(e) => {
                                return Err(e);
                            },
                        }
                    } else if ch == ']' {
                        return Ok(result);
                    } else {
                        match Compiler::parse_command(ch) {
                            Some(command) => {
                                proof {
                                    assert((views(result@) + seq![command@]) =~= views(
                                        result@.push(command),
                                    ));
                                    lemma_prepend_twice(
                                        views(result@),
                                        seq![command@],
                                        scan((*chars).remaining()),
                                    );
                                }
                                result.push(command);
                            },
                            None => {},
                        }
                    }
                },
            }
        }
    }
}

} // verus!

