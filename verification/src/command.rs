//! The intermediate representation shared by every stage.
use vstd::prelude::*;

verus! {

/// One instruction of the intermediate representation.
///
/// Every offset is relative to the machine's pointer at the moment the
/// instruction runs.
#[derive(PartialEq, Debug)]
pub enum Command {
    /// `Assign(offset, value)`: store `value` in the cell at `offset`.
    Assign(i32, i32),
    /// `MultAssign(src, dst, factor)`: store `cell[src] * factor` in the cell at `dst`.
    MultAssign(i32, i32, i32),
    /// `MultAdd(src, dst, factor)`: add `cell[src] * factor` to the cell at `dst`.
    MultAdd(i32, i32, i32),
    /// `Add(offset, delta)`: add `delta` to the cell at `offset`.
    Add(i32, i32),
    /// `MovePtr(offset)`: move the pointer by `offset`.
    MovePtr(i32),
    /// `Output(offset)`: write the cell at `offset` to the output stream.
    Output(i32),
    /// `Input(offset)`: read one byte of input into the cell at `offset`.
    Input(i32),
    /// `If(body)`: run `body` once if the current cell is not zero.
    If(Vec<Command>),
    /// `Loop(body)`: run `body` for as long as the current cell is not zero.
    Loop(Vec<Command>),
}

/// The mathematical value of a [`Command`]: the same tree, with sequences in
/// place of vectors.
pub enum Cmd {
    Assign(i32, i32),
    MultAssign(i32, i32, i32),
    MultAdd(i32, i32, i32),
    Add(i32, i32),
    MovePtr(i32),
    Output(i32),
    Input(i32),
    If(Seq<Cmd>),
    Loop(Seq<Cmd>),
}

/// The value of a command, by recursion over the tree.
pub open spec fn model(command: Command) -> Cmd
    decreases command,
{
    match command {
        Command::Assign(offset, value) => Cmd::Assign(offset, value),
        Command::MultAssign(src, dst, factor) => Cmd::MultAssign(src, dst, factor),
        Command::MultAdd(src, dst, factor) => Cmd::MultAdd(src, dst, factor),
        Command::Add(offset, delta) => Cmd::Add(offset, delta),
        Command::MovePtr(offset) => Cmd::MovePtr(offset),
        Command::Output(offset) => Cmd::Output(offset),
        Command::Input(offset) => Cmd::Input(offset),
        Command::If(body) => Cmd::If(
            Seq::new(
                body@.len(),
                |i: int|
                    if 0 <= i < body@.len() {
                        model(body@[i])
                    } else {
                        Cmd::MovePtr(0)
                    },
            ),
        ),
        Command::Loop(body) => Cmd::Loop(
            Seq::new(
                body@.len(),
                |i: int|
                    if 0 <= i < body@.len() {
                        model(body@[i])
                    } else {
                        Cmd::MovePtr(0)
                    },
            ),
        ),
    }
}

impl View for Command {
    type V = Cmd;

    open spec fn view(&self) -> Cmd {
        model(*self)
    }
}

/// The values of a sequence of commands, element by element.
pub open spec fn views(commands: Seq<Command>) -> Seq<Cmd> {
    Seq::new(commands.len(), |i: int| commands[i]@)
}

/// The value of a composite command is the composite of its body's values.
pub proof fn lemma_view_composite(body: Vec<Command>)
    ensures
        Command::If(body)@ == Cmd::If(views(body@)),
        Command::Loop(body)@ == Cmd::Loop(views(body@)),
{
    assert(Command::If(body)@->If_0 =~= views(body@));
}

/// The values of a sequence with one more command are the values of the
/// sequence with that command's value added.
pub proof fn lemma_views_push(commands: Seq<Command>, command: Command)
    ensures
        views(commands.push(command)) == views(commands).push(command@),
{
}

/// The values of a sequence without its last command.
pub proof fn lemma_views_drop_last(commands: Seq<Command>)
    requires
        commands.len() > 0,
    ensures
        views(commands.drop_last()) == views(commands).drop_last(),
        views(commands).last() == commands.last()@,
{
}

/// The values of two sequences of commands, one after the other.
pub proof fn lemma_views_add(first: Seq<Command>, second: Seq<Command>)
    ensures
        views(first + second) == views(first) + views(second),
{
}

impl Clone for Command {
    /// A deep copy: the result has the same value as `self`.
    fn clone(&self) -> (copy: Command)
        ensures
            copy@ == self@,
        decreases self,
    {
        match self {
            Command::Assign(offset, value) => Command::Assign(*offset, *value),
            Command::MultAssign(src, dst, factor) => Command::MultAssign(*src, *dst, *factor),
            Command::MultAdd(src, dst, factor) => Command::MultAdd(*src, *dst, *factor),
            Command::Add(offset, delta) => Command::Add(*offset, *delta),
            Command::MovePtr(offset) => Command::MovePtr(*offset),
            Command::Output(offset) => Command::Output(*offset),
            Command::Input(offset) => Command::Input(*offset),
            Command::If(body) => {
                let copy = Command::If(clone_all(body));
                proof {
                    lemma_view_composite(*body);
                    lemma_view_composite(copy->If_0);
                }
                copy
            },
            Command::Loop(body) => {
                let copy = Command::Loop(clone_all(body));
                proof {
                    lemma_view_composite(*body);
                    lemma_view_composite(copy->Loop_0);
                }
                copy
            },
        }
    }
}

/// A deep copy of a sequence of commands.
pub fn clone_all(commands: &Vec<Command>) -> (copy: Vec<Command>)
    ensures
        views(copy@) == views(commands@),
    decreases commands,
{
    let mut copy: Vec<Command> = Vec::new();
    let mut i: usize = 0;
    while i < commands.len()
        invariant
            i <= commands.len(),
            copy@.len() == i,
            forall|j: int| 0 <= j < i ==> copy@[j]@ == commands@[j]@,
        decreases commands.len() - i,
    {
        let one = commands[i].clone();
        copy.push(one);
        i += 1;
    }
    copy
}

} // verus!
