//! Running a program on a machine, one bounded stretch at a time.
//!
//! The machine does no input or output of its own. `Machine::execute` runs
//! until the program needs a byte read or written, ends, or faults, and
//! says which; the caller does the reading and writing, and calls again.
use vstd::prelude::*;
use crate::command::{lemma_view_composite, views, Cmd, Command};
use crate::machine::{byte_of, Machine, Tape};

verus! {

/// A command sequence that is being run, and how far the run has come in it.
#[derive(Clone, Copy, Debug)]
pub struct Frame<'a> {
    /// The sequence: the program itself, or the body of a loop or
    /// conditional in it.
    pub code: &'a [Command],
    /// The index of the next command to run.
    pub next: usize,
    /// Whether the sequence is the body of a loop, to be run again while the
    /// current cell is not zero.
    pub repeat: bool,
}

/// The mathematical value of a [`Frame`].
pub struct Level {
    pub code: Seq<Cmd>,
    pub next: int,
    pub repeat: bool,
}

impl View for Frame<'_> {
    type V = Level;

    open spec fn view(&self) -> Level {
        Level { code: views(self.code@), next: self.next as int, repeat: self.repeat }
    }
}

impl Level {
    /// Whether every command of the level has been run.
    pub open spec fn ended(self) -> bool {
        self.next < 0 || self.next >= self.code.len()
    }

    /// The level with its next command done.
    pub open spec fn advanced(self) -> Level {
        Level { code: self.code, next: self.next + 1, repeat: self.repeat }
    }
}

/// The control state of a run: the sequences that are being run, the
/// program first and the innermost body last.
#[derive(Debug)]
pub struct Task<'a> {
    pub frames: Vec<Frame<'a>>,
}

impl View for Task<'_> {
    type V = Seq<Level>;

    open spec fn view(&self) -> Seq<Level> {
        Seq::new(self.frames@.len(), |i: int| self.frames@[i]@)
    }
}

/// A machine in the middle of a run: its tape, and the levels of the run.
pub struct State {
    pub tape: Tape,
    pub levels: Seq<Level>,
}

/// What a state is waiting for.
pub enum Pending {
    /// Nothing is left to run.
    Halt,
    /// The next command addresses a cell outside the tape.
    Fault,
    /// The next command reads a byte into the cell at this offset.
    Read(i32),
    /// The next command writes the cell at this offset.
    Write(i32),
    /// The next step needs nothing from outside.
    Silent,
}

impl State {
    /// The state with its innermost level replaced by `levels`.
    pub open spec fn with_top(self, tape: Tape, levels: Seq<Level>) -> State {
        State { tape, levels: self.levels.drop_last() + levels }
    }

    /// What the state is waiting for.
    pub open spec fn pending(self) -> Pending {
        if self.levels.len() == 0 {
            Pending::Halt
        } else {
            let top = self.levels.last();
            if top.ended() {
                if top.repeat && !self.tape.on_tape(0) {
                    Pending::Fault
                } else {
                    Pending::Silent
                }
            } else {
                match top.code[top.next] {
                    Cmd::Input(offset) => if self.tape.on_tape(offset) {
                        Pending::Read(offset)
                    } else {
                        Pending::Fault
                    },
                    Cmd::Output(offset) => if self.tape.on_tape(offset) {
                        Pending::Write(offset)
                    } else {
                        Pending::Fault
                    },
                    Cmd::If(_) => if self.tape.on_tape(0) {
                        Pending::Silent
                    } else {
                        Pending::Fault
                    },
                    Cmd::Loop(_) => if self.tape.on_tape(0) {
                        Pending::Silent
                    } else {
                        Pending::Fault
                    },
                    plain => if self.tape.faults(plain) {
                        Pending::Fault
                    } else {
                        Pending::Silent
                    },
                }
            }
        }
    }

    /// The state after one silent step.
    ///
    /// At the end of a loop body the body starts again if the current cell is
    /// not zero; any other level that has ended is left. A loop or a
    /// conditional is entered if the current cell is not zero and passed
    /// over if it is. A plain command changes the tape.
    pub open spec fn stepped(self) -> State {
        let top = self.levels.last();
        if top.ended() {
            if top.repeat && self.tape.cell(0) != 0 {
                self.with_top(self.tape, seq![Level { code: top.code, next: 0, repeat: true }])
            } else {
                self.with_top(self.tape, Seq::empty())
            }
        } else {
            match top.code[top.next] {
                Cmd::If(body) => if self.tape.cell(0) != 0 {
                    self.with_top(
                        self.tape,
                        seq![top.advanced(), Level { code: body, next: 0, repeat: false }],
                    )
                } else {
                    self.with_top(self.tape, seq![top.advanced()])
                },
                Cmd::Loop(body) => if self.tape.cell(0) != 0 {
                    self.with_top(
                        self.tape,
                        seq![top.advanced(), Level { code: body, next: 0, repeat: true }],
                    )
                } else {
                    self.with_top(self.tape, seq![top.advanced()])
                },
                plain => self.with_top(self.tape.after(plain), seq![top.advanced()]),
            }
        }
    }

    /// The state after as many silent steps as it can take, `budget` at most.
    pub open spec fn run(self, budget: nat) -> State
        decreases budget,
    {
        if budget == 0 || !(self.pending() is Silent) {
            self
        } else {
            self.stepped().run((budget - 1) as nat)
        }
    }

    /// The state with its next command passed over.
    pub open spec fn passed(self) -> State {
        self.with_top(self.tape, seq![self.levels.last().advanced()])
    }

    /// The state after `byte` has been read into the cell at `offset`.
    pub open spec fn fed(self, offset: i32, byte: u8) -> State {
        self.with_top(self.tape.store(offset, byte), seq![self.levels.last().advanced()])
    }
}

/// What a run asks of its caller when it stops.
#[derive(PartialEq, Eq, Debug, Clone, Copy)]
pub enum Action {
    /// The program has ended.
    Halt,
    /// A command would address a cell outside the tape. The run cannot go on.
    Fault,
    /// Read one byte of input and hand it over with `Machine::feed`: zero
    /// where the input has ended.
    Read,
    /// Write this byte to the output.
    Write(u8),
    /// The step budget is used up. Call again to go on.
    Pause,
}

impl<'a> Task<'a> {
    /// The run of `program` from its first command.
    pub fn new(program: &'a [Command]) -> (task: Task<'a>)
        ensures
            task@ == seq![Level { code: views(program@), next: 0, repeat: false }],
    {
        let mut frames: Vec<Frame<'a>> = Vec::new();
        frames.push(Frame { code: program, next: 0, repeat: false });
        Task { frames }
    }
}

/// The state that a machine and a task make up.
pub open spec fn state_of(machine: &Machine, task: &Task<'_>) -> State {
    State { tape: machine@, levels: task@ }
}

impl<'a> Task<'a> {
    /// Replaces the innermost frame.
    fn replace_top(&mut self, frame: Frame<'a>)
        requires
            old(self).frames@.len() > 0,
        ensures
            final(self)@ == old(self)@.drop_last() + seq![frame@],
    {
        let depth = self.frames.len();
        self.frames.set(depth - 1, frame);
    }

    /// Replaces the innermost frame by `frame`, and enters `inner` above it.
    fn enter(&mut self, frame: Frame<'a>, inner: Frame<'a>)
        requires
            old(self).frames@.len() > 0,
        ensures
            final(self)@ == old(self)@.drop_last() + seq![frame@, inner@],
    {
        let depth = self.frames.len();
        self.frames.set(depth - 1, frame);
        self.frames.push(inner);
    }

    /// Leaves the innermost frame.
    fn leave(&mut self)
        requires
            old(self).frames@.len() > 0,
        ensures
            final(self)@ == old(self)@.drop_last() + Seq::<Level>::empty(),
    {
        self.frames.pop();
    }
}

impl Machine {
    /// Runs `task` on this machine until it needs its caller, for `budget`
    /// silent steps at most, and says what it needs.
    ///
    /// The machine and the task end in the state that the run reaches. Where
    /// the run stops at an output command, the byte to write is returned and
    /// the command is passed over. Where it stops at an input command, the
    /// command stays: `feed` completes it.
    pub fn execute(&mut self, task: &mut Task<'_>, budget: u64) -> (action: Action)
        ensures
            ({
                let end = state_of(old(self), old(task)).run(budget as nat);
                let now = state_of(final(self), final(task));
                match end.pending() {
                    Pending::Halt => action == Action::Halt && now == end,
                    Pending::Fault => action == Action::Fault && now == end,
                    Pending::Read(_) => action == Action::Read && now == end,
                    Pending::Write(offset) => action == Action::Write(end.tape.cell(offset))
                        && now == end.passed(),
                    Pending::Silent => action == Action::Pause && now == end,
                }
            }),
    {
        let ghost start = state_of(self, task);
        let mut left = budget;
        loop
            invariant
                start == state_of(old(self), old(task)),
                state_of(self, task).run(left as nat) == start.run(budget as nat),
            decreases left,
        {
            let depth = task.frames.len();
            if depth == 0 {
                return Action::Halt;
            }
            let top = task.frames[depth - 1];
            let code = top.code;
            if top.next >= code.len() {
                if top.repeat && !self.addresses(0) {
                    return Action::Fault;
                }
                if left == 0 {
                    return Action::Pause;
                }
                left = left - 1;
                if top.repeat && self.get(0) != 0 {
                    task.replace_top(Frame { code, next: 0, repeat: true });
                } else {
                    task.leave();
                }
            } else {
                let after = Frame { code, next: top.next + 1, repeat: top.repeat };
                match &code[top.next] {
                    Command::Input(offset) => {
                        if !self.addresses(*offset) {
                            return Action::Fault;
                        }
                        return Action::Read;
                    },
                    Command::Output(offset) => {
                        if !self.addresses(*offset) {
                            return Action::Fault;
                        }
                        let byte = byte_of(self.get(*offset) as i64);
                        task.replace_top(after);
                        return Action::Write(byte);
                    },
                    Command::If(body) => {
                        if !self.addresses(0) {
                            return Action::Fault;
                        }
                        if left == 0 {
                            return Action::Pause;
                        }
                        left = left - 1;
                        proof {
                            lemma_view_composite(*body);
                        }
                        if self.get(0) != 0 {
                            task.enter(
                                after,
                                Frame { code: body.as_slice(), next: 0, repeat: false },
                            );
                        } else {
                            task.replace_top(after);
                        }
                    },
                    Command::Loop(body) => {
                        if !self.addresses(0) {
                            return Action::Fault;
                        }
                        if left == 0 {
                            return Action::Pause;
                        }
                        left = left - 1;
                        proof {
                            lemma_view_composite(*body);
                        }
                        if self.get(0) != 0 {
                            task.enter(
                                after,
                                Frame { code: body.as_slice(), next: 0, repeat: true },
                            );
                        } else {
                            task.replace_top(after);
                        }
                    },
                    Command::Add(offset, value) => {
                        if !self.addresses(*offset) {
                            return Action::Fault;
                        }
                        if left == 0 {
                            return Action::Pause;
                        }
                        left = left - 1;
                        self.add(*offset, *value);
                        task.replace_top(after);
                    },
                    Command::Assign(offset, value) => {
                        if !self.addresses(*offset) {
                            return Action::Fault;
                        }
                        if left == 0 {
                            return Action::Pause;
                        }
                        left = left - 1;
                        self.set(*offset, *value);
                        task.replace_top(after);
                    },
                    Command::MultAdd(src, dest, value) => {
                        if !self.addresses(*src) || !self.addresses(*dest) {
                            return Action::Fault;
                        }
                        if left == 0 {
                            return Action::Pause;
                        }
                        left = left - 1;
                        self.mult_add(*src, *dest, *value);
                        task.replace_top(after);
                    },
                    Command::MultAssign(src, dest, value) => {
                        if !self.addresses(*src) || !self.addresses(*dest) {
                            return Action::Fault;
                        }
                        if left == 0 {
                            return Action::Pause;
                        }
                        left = left - 1;
                        self.mult_assign(*src, *dest, *value);
                        task.replace_top(after);
                    },
                    Command::MovePtr(offset) => {
                        if left == 0 {
                            return Action::Pause;
                        }
                        left = left - 1;
                        self.move_ptr(*offset);
                        task.replace_top(after);
                    },
                }
            }
        }
    }

    /// Completes the input command that the run has stopped at, with `byte`
    /// as the byte read, and says whether it did.
    ///
    /// Where the run is not waiting for input, nothing changes and the
    /// result is `false`.
    pub fn feed(&mut self, task: &mut Task<'_>, byte: u8) -> (taken: bool)
        ensures
            match state_of(old(self), old(task)).pending() {
                Pending::Read(offset) => taken && state_of(final(self), final(task)) == state_of(
                    old(self),
                    old(task),
                ).fed(offset, byte),
                _ => !taken && state_of(final(self), final(task)) == state_of(
                    old(self),
                    old(task),
                ),
            },
    {
        let depth = task.frames.len();
        if depth == 0 {
            return false;
        }
        let top = task.frames[depth - 1];
        let code = top.code;
        if top.next >= code.len() {
            return false;
        }
        match &code[top.next] {
            Command::Input(offset) => {
                if !self.addresses(*offset) {
                    return false;
                }
                self.set(*offset, byte as i32);
                task.replace_top(Frame { code, next: top.next + 1, repeat: top.repeat });
                true
            },
            _ => false,
        }
    }
}

} // verus!
