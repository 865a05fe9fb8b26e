//! The tape machine that runs the intermediate representation.
use vstd::prelude::*;
use crate::command::Cmd;

verus! {

/// The number of cells on the tape.
pub const TAPE_LEN: usize = 30000;

/// Where the pointer stands on a fresh machine. The bias leaves room for a
/// thousand cells to the left of the starting cell.
pub const START: i32 = 1000;

/// The byte that a cell holds after `value` is stored in it: `value` modulo
/// 256.
pub open spec fn low_byte(value: int) -> u8 {
    (value % 256) as u8
}

/// The low byte of `value`.
pub(crate) fn byte_of(value: i64) -> (byte: u8)
    requires
        -0x100_0000_0000 <= value <= 0x100_0000_0000,
    ensures
        byte == low_byte(value as int),
{
    let lifted: i64 = value + 0x100_0000_0000;
    assert((value + 0x100_0000_0000) % 256 == value % 256) by (nonlinear_arith);
    (lifted % 256) as u8
}

/// The mathematical value of a machine: its cells and its pointer.
pub struct Tape {
    pub cells: Seq<u8>,
    pub pointer: i32,
}

impl Tape {
    /// The absolute index of the cell at `offset` from the pointer. The sum
    /// is taken in 32 bits and wraps.
    pub open spec fn position(self, offset: i32) -> int {
        self.pointer.wrapping_add(offset) as int
    }

    /// Whether the cell at `offset` from the pointer lies on the tape.
    pub open spec fn on_tape(self, offset: i32) -> bool {
        0 <= self.position(offset) < self.cells.len()
    }

    /// The value of the cell at `offset`.
    pub open spec fn cell(self, offset: i32) -> u8 {
        self.cells[self.position(offset)]
    }

    /// The tape with `byte` in the cell at `offset`.
    pub open spec fn store(self, offset: i32, byte: u8) -> Tape {
        Tape { cells: self.cells.update(self.position(offset), byte), pointer: self.pointer }
    }

    /// The tape with the pointer moved by `offset`.
    pub open spec fn moved(self, offset: i32) -> Tape {
        Tape { cells: self.cells, pointer: self.pointer.wrapping_add(offset) }
    }

    /// Whether `command` is one of the five that change the tape and
    /// nothing else.
    pub open spec fn plain(command: Cmd) -> bool {
        command is Add || command is Assign || command is MultAdd || command is MultAssign
            || command is MovePtr
    }

    /// Whether running the plain command `command` would address a cell
    /// outside the tape.
    pub open spec fn faults(self, command: Cmd) -> bool {
        match command {
            Cmd::Add(offset, _) => !self.on_tape(offset),
            Cmd::Assign(offset, _) => !self.on_tape(offset),
            Cmd::MultAdd(src, dst, _) => !self.on_tape(src) || !self.on_tape(dst),
            Cmd::MultAssign(src, dst, _) => !self.on_tape(src) || !self.on_tape(dst),
            _ => false,
        }
    }

    /// The tape after the plain command `command`, where it does not fault.
    /// Cell arithmetic is exact and then reduced modulo 256.
    pub open spec fn after(self, command: Cmd) -> Tape {
        match command {
            Cmd::Add(offset, delta) => self.store(offset, low_byte(self.cell(offset) + delta)),
            Cmd::Assign(offset, value) => self.store(offset, low_byte(value as int)),
            Cmd::MultAdd(src, dst, factor) => self.store(
                dst,
                low_byte(self.cell(dst) + self.cell(src) * factor),
            ),
            Cmd::MultAssign(src, dst, factor) => self.store(
                dst,
                low_byte(self.cell(src) * factor),
            ),
            Cmd::MovePtr(offset) => self.moved(offset),
            _ => self,
        }
    }

    /// The tape after the plain commands `commands`, run in order from this
    /// tape: `None` where one of them faults.
    pub open spec fn through(self, commands: Seq<Cmd>) -> Option<Tape>
        decreases commands.len(),
    {
        if commands.len() == 0 {
            Some(self)
        } else {
            match self.through(commands.drop_last()) {
                Some(tape) => if tape.faults(commands.last()) {
                    None
                } else {
                    Some(tape.after(commands.last()))
                },
                None => None,
            }
        }
    }
}

/// A bounded tape of byte cells, and a pointer into it.
#[derive(Debug)]
pub struct Machine {
    /// The cells.
    pub memory: [u8; 30000],
    /// The pointer: the absolute index of the current cell.
    pub i: i32,
}

impl View for Machine {
    type V = Tape;

    open spec fn view(&self) -> Tape {
        Tape { cells: self.memory@, pointer: self.i }
    }
}

impl Machine {
    /// A fresh machine: every cell zero, the pointer at `START`.
    pub fn new() -> (machine: Machine)
        ensures
            machine@.pointer == START,
            machine@.cells == Seq::new(TAPE_LEN as nat, |at: int| 0u8),
    {
        let machine = Machine { memory: [0; 30000], i: 1000 };
        machine
    }

    /// Whether the cell at `offset` from the pointer lies on the tape.
    pub fn addresses(&self, offset: i32) -> (hit: bool)
        ensures
            hit == self@.on_tape(offset),
    {
        let position = self.i.wrapping_add(offset);
        0 <= position && position < 30000
    }

    /// The value of the cell at `offset`.
    pub fn get(&self, offset: i32) -> (value: i32)
        requires
            self@.on_tape(offset),
        ensures
            value == self@.cell(offset),
    {
        self.memory[self.i.wrapping_add(offset) as usize] as i32
    }

    /// Stores the low byte of `value` in the cell at `offset`.
    pub fn set(&mut self, offset: i32, value: i32)
        requires
            old(self)@.on_tape(offset),
        ensures
            final(self)@ == old(self)@.store(offset, low_byte(value as int)),
    {
        let pos = self.i.wrapping_add(offset) as usize;
        self.memory[pos] = byte_of(value as i64);
    }

    /// Adds `value` to the cell at `offset`, modulo 256.
    pub fn add(&mut self, offset: i32, value: i32)
        requires
            old(self)@.on_tape(offset),
        ensures
            final(self)@ == old(self)@.store(
                offset,
                low_byte(old(self)@.cell(offset) + value),
            ),
    {
        let pos = self.i.wrapping_add(offset) as usize;
        let lhs = self.memory[pos] as i64;
        self.memory[pos] = byte_of(lhs + value as i64);
    }

    /// Adds `factor` times the cell at `src` to the cell at `dst`, modulo
    /// 256. The product is taken in 64 bits, where it is exact.
    pub fn mult_add(&mut self, src: i32, dst: i32, factor: i32)
        requires
            old(self)@.on_tape(src),
            old(self)@.on_tape(dst),
        ensures
            final(self)@ == old(self)@.after(Cmd::MultAdd(src, dst, factor)),
    {
        let from = self.memory[self.i.wrapping_add(src) as usize] as i64;
        let pos = self.i.wrapping_add(dst) as usize;
        let lhs = self.memory[pos] as i64;
        assert(-0x80_0000_0000 <= from * factor <= 0x80_0000_0000) by (nonlinear_arith)
            requires
                0 <= from <= 255,
                -0x8000_0000 <= factor <= 0x8000_0000,
        ;
        self.memory[pos] = byte_of(lhs + from * (factor as i64));
    }

    /// Stores `factor` times the cell at `src` in the cell at `dst`, modulo
    /// 256. The product is taken in 64 bits, where it is exact.
    pub fn mult_assign(&mut self, src: i32, dst: i32, factor: i32)
        requires
            old(self)@.on_tape(src),
            old(self)@.on_tape(dst),
        ensures
            final(self)@ == old(self)@.after(Cmd::MultAssign(src, dst, factor)),
    {
        let from = self.memory[self.i.wrapping_add(src) as usize] as i64;
        let pos = self.i.wrapping_add(dst) as usize;
        assert(-0x80_0000_0000 <= from * factor <= 0x80_0000_0000) by (nonlinear_arith)
            requires
                0 <= from <= 255,
                -0x8000_0000 <= factor <= 0x8000_0000,
        ;
        self.memory[pos] = byte_of(from * (factor as i64));
    }

    /// Moves the pointer by `offset`. The pointer is a 32-bit register: the
    /// sum wraps.
    pub fn move_ptr(&mut self, offset: i32)
        ensures
            final(self)@ == old(self)@.moved(offset),
    {
        self.i = self.i.wrapping_add(offset);
    }
}

} // verus!
