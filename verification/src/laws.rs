//! What holds of the compiler and the machine together.
use vstd::prelude::*;
use crate::command::Cmd;
use crate::compiler::compiled;
use crate::error::ErrorKind;
use crate::machine::{low_byte, Tape};
use crate::optimizer::{
    absorbs, degenerated, eliminated, flushed, only_adds_and_moves, optimized, reduced, step,
    walked, writes, Pass,
};
use crate::parser::{parsed, scan, simple, Scanned};
use crate::run::{Level, State};

verus! {

/// Adding in 32 bits with wrap-around is associative.
pub(crate) proof fn lemma_wrapping_add_associative(a: i32, b: i32, c: i32)
    ensures
        a.wrapping_add(b).wrapping_add(c) == a.wrapping_add(b.wrapping_add(c)),
{
}

/// A sum that wraps at 32 bits has the low byte of the exact sum.
pub(crate) proof fn lemma_wrapping_add_low_byte(cell: int, a: i32, b: i32)
    ensures
        low_byte(low_byte(cell + a) + b) == low_byte(cell + a.wrapping_add(b)),
{
    let wrapped = a.wrapping_add(b) as int;
    assert(wrapped == a + b || wrapped == a + b - 0x1_0000_0000 || wrapped == a + b
        + 0x1_0000_0000);
    assert((cell + a + b + 0x1_0000_0000) % 256 == (cell + a + b) % 256) by (nonlinear_arith);
}

/// `outcome` with the pointer moved by `offset`, where it is a tape.
spec fn shifted(outcome: Option<Tape>, offset: i32) -> Option<Tape> {
    match outcome {
        Some(tape) => Some(tape.moved(offset)),
        None => None,
    }
}

/// Running one more plain command after a sequence.
pub(crate) proof fn lemma_through_push(tape: Tape, commands: Seq<Cmd>, last: Cmd)
    ensures
        tape.through(commands.push(last)) == match tape.through(commands) {
            Some(end) => if end.faults(last) {
                None
            } else {
                Some(end.after(last))
            },
            None => None,
        },
{
    assert(commands.push(last).drop_last() =~= commands);
}

/// Walking over code that only adds and moves emits `Add` commands only, and
/// what it has emitted, followed by the pending pointer move, does to every
/// tape what the code walked over does.
proof fn lemma_walk_keeps_tape(commands: Seq<Cmd>, n: nat, tape: Tape)
    requires
        only_adds_and_moves(commands),
        n <= commands.len(),
    ensures
        forall|i: int| 0 <= i < walked(commands, n).out.len() ==> walked(commands, n).out[i] is Add,
        tape.through(commands.take(n as int)) == shifted(
            tape.through(walked(commands, n).out),
            walked(commands, n).bp,
        ),
    decreases n,
{
    if n == 0 {
        assert(commands.take(0) =~= Seq::<Cmd>::empty());
        assert(tape.moved(0) == tape);
    } else {
        let before = walked(commands, (n - 1) as nat);
        let command = commands[n - 1];
        let now = walked(commands, n);
        assert(now == step(before, command));
        lemma_walk_keeps_tape(commands, (n - 1) as nat, tape);
        assert(commands.take(n as int) =~= commands.take(n - 1).push(command));
        lemma_through_push(tape, commands.take(n - 1), command);
        assert(command is Add || command is MovePtr);
        match command {
            Cmd::MovePtr(offset) => {
                match tape.through(before.out) {
                    Some(end) => {
                        lemma_wrapping_add_associative(end.pointer, before.bp, offset);
                    },
                    None => {},
                }
            },
            Cmd::Add(offset, delta) => {
                let at = before.bp.wrapping_add(offset);
                if before.out.len() > 0 && absorbs(before.out.last(), at) {
                    let earlier = before.out.drop_last();
                    let merged = before.out.last()->Add_1.wrapping_add(delta);
                    lemma_through_push(tape, earlier, Cmd::Add(at, merged));
                    lemma_through_push(tape, earlier, before.out.last());
                    match tape.through(earlier) {
                        Some(start) => {
                            if start.on_tape(at) {
                                let mid = start.after(before.out.last());
                                lemma_wrapping_add_associative(mid.pointer, before.bp, offset);
                                lemma_wrapping_add_low_byte(
                                    start.cell(at) as int,
                                    before.out.last()->Add_1,
                                    delta,
                                );
                                let moved = mid.moved(before.bp);
                                assert(moved.after(command).cells =~= start.after(
                                    Cmd::Add(at, merged),
                                ).cells);
                            }
                        },
                        None => {},
                    }
                } else {
                    assert(now.out == before.out.push(Cmd::Add(at, delta)));
                    lemma_through_push(tape, before.out, Cmd::Add(at, delta));
                    match tape.through(before.out) {
                        Some(end) => {
                            lemma_wrapping_add_associative(end.pointer, before.bp, offset);
                        },
                        None => {},
                    }
                }
            },
            _ => {},
        }
    }
}

/// A pass of the optimiser over code that only adds and moves gives code
/// that only adds and moves, and that does to every tape what the code
/// before the pass does: the same cells and the same pointer at the end, or
/// a fault where the code before the pass faults.
pub proof fn lemma_pass_keeps_tape(commands: Seq<Cmd>, tape: Tape)
    requires
        only_adds_and_moves(commands),
    ensures
        only_adds_and_moves(optimized(commands)),
        tape.through(optimized(commands)) == tape.through(commands),
{
    let end = walked(commands, commands.len());
    lemma_walk_keeps_tape(commands, commands.len(), tape);
    assert(commands.take(commands.len() as int) =~= commands);
    if end.bp != 0 {
        lemma_through_push(tape, end.out, Cmd::MovePtr(end.bp));
    } else {
        match tape.through(end.out) {
            Some(last) => {
                assert(last.moved(0) == last);
            },
            None => {},
        }
    }
}

/// Whether every command of `commands` is plain, and none is a `MultAdd`
/// from a cell onto itself.
pub open spec fn plain_code(commands: Seq<Cmd>) -> bool {
    forall|i: int|
        0 <= i < commands.len() ==> Tape::plain(#[trigger] commands[i]) && !(commands[i] matches Cmd::MultAdd(
            src,
            dst,
            _,
        ) && src == dst)
}

/// A command that writes one cell and does not move the pointer leaves
/// every other cell as it is.
pub(crate) proof fn lemma_write_is_local(tape: Tape, command: Cmd, offset: i32)
    requires
        writes(command, offset),
        !tape.faults(command),
    ensures
        tape.after(command).pointer == tape.pointer,
        tape.after(command).cells.len() == tape.cells.len(),
        forall|at: int|
            0 <= at < tape.cells.len() && at != tape.position(offset) ==> tape.after(
                command,
            ).cells[at] == tape.cells[at],
{
}

/// An `Add` emitted after code that runs without a fault does what the
/// `Add` does, whether or not it merges into the last command.
pub(crate) proof fn lemma_emit_add_keeps(tape: Tape, out: Seq<Cmd>, at: i32, delta: i32)
    requires
        tape.through(out) is Some,
        tape.through(out)->Some_0.on_tape(at),
    ensures
        tape.through(crate::optimizer::emit_add(out, at, delta)) == Some(
            tape.through(out)->Some_0.after(Cmd::Add(at, delta)),
        ),
{
    let end = tape.through(out)->Some_0;
    let goal = end.after(Cmd::Add(at, delta));
    if out.len() > 0 && absorbs(out.last(), at) {
        assert(out =~= out.drop_last().push(out.last()));
        lemma_through_push(tape, out.drop_last(), out.last());
        let start = tape.through(out.drop_last())->Some_0;
        let merged = crate::optimizer::absorbed(out.last(), delta);
        lemma_through_push(tape, out.drop_last(), merged);
        match out.last() {
            Cmd::Add(_, first) => {
                lemma_wrapping_add_low_byte(start.cell(at) as int, first, delta);
            },
            Cmd::Assign(_, first) => {
                lemma_wrapping_add_low_byte(0, first, delta);
            },
            _ => {},
        }
        assert(start.after(merged).cells =~= goal.cells);
    } else {
        lemma_through_push(tape, out, Cmd::Add(at, delta));
    }
}

/// An `Assign` emitted after code that runs without a fault does what the
/// `Assign` does, whether or not it drops the last command.
pub(crate) proof fn lemma_emit_assign_keeps(tape: Tape, out: Seq<Cmd>, at: i32, value: i32)
    requires
        tape.through(out) is Some,
        tape.through(out)->Some_0.on_tape(at),
    ensures
        tape.through(crate::optimizer::emit_assign(out, at, value)) == Some(
            tape.through(out)->Some_0.after(Cmd::Assign(at, value)),
        ),
{
    let end = tape.through(out)->Some_0;
    let goal = end.after(Cmd::Assign(at, value));
    if out.len() > 0 && writes(out.last(), at) {
        assert(out =~= out.drop_last().push(out.last()));
        lemma_through_push(tape, out.drop_last(), out.last());
        let start = tape.through(out.drop_last())->Some_0;
        lemma_write_is_local(start, out.last(), at);
        lemma_through_push(tape, out.drop_last(), Cmd::Assign(at, value));
        assert(start.after(Cmd::Assign(at, value)).cells =~= goal.cells);
    } else {
        lemma_through_push(tape, out, Cmd::Assign(at, value));
    }
}

/// A `MultAdd` from one cell onto another, emitted after code that runs
/// without a fault, does what the `MultAdd` does, whether or not it folds
/// into a `MultAssign`.
pub(crate) proof fn lemma_emit_mult_add_keeps(tape: Tape, out: Seq<Cmd>, from: i32, onto: i32, factor: i32)
    requires
        from != onto,
        tape.through(out) is Some,
        tape.through(out)->Some_0.on_tape(from),
        tape.through(out)->Some_0.on_tape(onto),
    ensures
        tape.through(crate::optimizer::emit_mult_add(out, from, onto, factor)) == Some(
            tape.through(out)->Some_0.after(Cmd::MultAdd(from, onto, factor)),
        ),
{
    let end = tape.through(out)->Some_0;
    let goal = end.after(Cmd::MultAdd(from, onto, factor));
    if out.len() > 0 && out.last() == Cmd::Assign(onto, 0) {
        assert(out =~= out.drop_last().push(out.last()));
        lemma_through_push(tape, out.drop_last(), out.last());
        let start = tape.through(out.drop_last())->Some_0;
        let folded = Cmd::MultAssign(from, onto, factor);
        assert(start.position(from) != start.position(onto));
        lemma_through_push(tape, out.drop_last(), folded);
        assert(start.after(folded).cells =~= goal.cells);
    } else {
        lemma_through_push(tape, out, Cmd::MultAdd(from, onto, factor));
    }
}

/// A command with the pending pointer move added to its offsets does, where
/// the pointer has not been moved yet, what the command does where it has.
pub(crate) proof fn lemma_rebased(tape: Tape, bp: i32, command: Cmd)
    requires
        Tape::plain(command),
        !(command is MovePtr),
    ensures
        ({
            let rebased = match command {
                Cmd::Add(offset, delta) => Cmd::Add(bp.wrapping_add(offset), delta),
                Cmd::Assign(offset, value) => Cmd::Assign(bp.wrapping_add(offset), value),
                Cmd::MultAdd(src, dst, factor) => Cmd::MultAdd(
                    bp.wrapping_add(src),
                    bp.wrapping_add(dst),
                    factor,
                ),
                Cmd::MultAssign(src, dst, factor) => Cmd::MultAssign(
                    bp.wrapping_add(src),
                    bp.wrapping_add(dst),
                    factor,
                ),
                other => other,
            };
            &&& tape.faults(rebased) == tape.moved(bp).faults(command)
            &&& tape.after(rebased).moved(bp) == tape.moved(bp).after(command)
        }),
{
    match command {
        Cmd::Add(offset, _) => {
            lemma_wrapping_add_associative(tape.pointer, bp, offset);
        },
        Cmd::Assign(offset, _) => {
            lemma_wrapping_add_associative(tape.pointer, bp, offset);
        },
        Cmd::MultAdd(src, dst, _) => {
            lemma_wrapping_add_associative(tape.pointer, bp, src);
            lemma_wrapping_add_associative(tape.pointer, bp, dst);
        },
        Cmd::MultAssign(src, dst, _) => {
            lemma_wrapping_add_associative(tape.pointer, bp, src);
            lemma_wrapping_add_associative(tape.pointer, bp, dst);
        },
        _ => {},
    }
}

/// One step of the walk after code that runs without a fault: what has
/// been emitted after the step, followed by the pointer move that is then
/// pending, does what the emitted code, the pending move and the command did
/// before it.
proof fn lemma_step_keeps_plain(tape: Tape, pass: Pass, command: Cmd)
    requires
        Tape::plain(command),
        !(command matches Cmd::MultAdd(src, dst, _) && src == dst),
        tape.through(pass.out) is Some,
        !tape.through(pass.out)->Some_0.moved(pass.bp).faults(command),
    ensures
        shifted(tape.through(step(pass, command).out), step(pass, command).bp) == Some(
            tape.through(pass.out)->Some_0.moved(pass.bp).after(command),
        ),
{
    let end = tape.through(pass.out)->Some_0;
    match command {
        Cmd::MovePtr(offset) => {
            lemma_wrapping_add_associative(end.pointer, pass.bp, offset);
        },
        Cmd::Add(offset, delta) => {
            lemma_rebased(end, pass.bp, command);
            lemma_emit_add_keeps(tape, pass.out, pass.bp.wrapping_add(offset), delta);
        },
        Cmd::Assign(offset, value) => {
            lemma_rebased(end, pass.bp, command);
            lemma_emit_assign_keeps(tape, pass.out, pass.bp.wrapping_add(offset), value);
        },
        Cmd::MultAdd(src, dst, factor) => {
            lemma_rebased(end, pass.bp, command);
            lemma_emit_mult_add_keeps(
                tape,
                pass.out,
                pass.bp.wrapping_add(src),
                pass.bp.wrapping_add(dst),
                factor,
            );
        },
        Cmd::MultAssign(src, dst, factor) => {
            lemma_rebased(end, pass.bp, command);
            lemma_through_push(
                tape,
                pass.out,
                Cmd::MultAssign(pass.bp.wrapping_add(src), pass.bp.wrapping_add(dst), factor),
            );
        },
        _ => {},
    }
}

/// Walking over plain code that runs without a fault: what the walk has
/// emitted runs without a fault too, and, followed by the pending pointer
/// move, it leaves the tape that the code walked over leaves.
proof fn lemma_walk_keeps_plain(commands: Seq<Cmd>, n: nat, tape: Tape)
    requires
        plain_code(commands),
        n <= commands.len(),
        tape.through(commands.take(n as int)) is Some,
    ensures
        shifted(tape.through(walked(commands, n).out), walked(commands, n).bp) == tape.through(
            commands.take(n as int),
        ),
    decreases n,
{
    if n == 0 {
        assert(commands.take(0) =~= Seq::<Cmd>::empty());
        assert(tape.moved(0) == tape);
    } else {
        let before = walked(commands, (n - 1) as nat);
        let command = commands[n - 1];
        assert(walked(commands, n) == step(before, command));
        assert(commands.take(n as int) =~= commands.take(n - 1).push(command));
        lemma_through_push(tape, commands.take(n - 1), command);
        lemma_walk_keeps_plain(commands, (n - 1) as nat, tape);
        assert(Tape::plain(command));
        lemma_step_keeps_plain(tape, before, command);
    }
}

/// A pass of the optimiser over plain code that never multiplies a cell
/// onto itself keeps what the code does: where the code runs without a
/// fault, the code after the pass does too, and leaves the same cells and
/// the same pointer.
pub proof fn lemma_pass_keeps_plain(commands: Seq<Cmd>, tape: Tape)
    requires
        plain_code(commands),
        tape.through(commands) is Some,
    ensures
        tape.through(optimized(commands)) == tape.through(commands),
{
    let end = walked(commands, commands.len());
    assert(commands.take(commands.len() as int) =~= commands);
    lemma_walk_keeps_plain(commands, commands.len(), tape);
    if end.bp != 0 {
        lemma_through_push(tape, end.out, Cmd::MovePtr(end.bp));
    } else {
        assert(tape.through(end.out)->Some_0.moved(0) == tape.through(end.out)->Some_0);
    }
}

/// Whether `text` holds no bracket.
pub open spec fn bracket_free(text: Seq<char>) -> bool {
    forall|i: int| 0 <= i < text.len() ==> text[i] != '[' && text[i] != ']'
}

/// Whether every character of `text` is one of `+`, `-`, `>` and `<`.
pub open spec fn steps_and_moves(text: Seq<char>) -> bool {
    forall|i: int|
        0 <= i < text.len() ==> text[i] == '+' || text[i] == '-' || text[i] == '>' || text[i]
            == '<'
}

/// Whether every command of `commands` is an `Add`, a `MovePtr`, an `Input`
/// or an `Output`.
pub open spec fn flat(commands: Seq<Cmd>) -> bool {
    forall|i: int|
        0 <= i < commands.len() ==> (#[trigger] commands[i] is Add) || commands[i] is MovePtr
            || commands[i] is Input || commands[i] is Output
}

/// Text without brackets always parses, to a flat program; where the text
/// holds nothing but `+`, `-`, `>` and `<`, the program only adds and moves.
pub proof fn lemma_bracket_free_parses(text: Seq<char>)
    requires
        bracket_free(text),
    ensures
        scan(text) is End,
        parsed(text) is Ok,
        flat(parsed(text)->Ok_0),
        steps_and_moves(text) ==> only_adds_and_moves(parsed(text)->Ok_0),
    decreases text.len(),
{
    if text.len() > 0 {
        let rest = text.drop_first();
        lemma_bracket_free_parses(rest);
        assert(text[0] != '[' && text[0] != ']');
        let tail = scan(rest)->End_0;
        if steps_and_moves(text) {
            assert(steps_and_moves(rest)) by {
                assert forall|i: int| 0 <= i < rest.len() implies rest[i] == '+' || rest[i] == '-'
                    || rest[i] == '>' || rest[i] == '<' by {
                    assert(rest[i] == text[i + 1]);
                }
            }
        }
        match simple(text[0]) {
            Some(command) => {
                let all = seq![command] + tail;
                assert(parsed(text)->Ok_0 == all);
                assert forall|i: int| 0 <= i < all.len() implies (#[trigger] all[i] is Add)
                    || all[i] is MovePtr || all[i] is Input || all[i] is Output by {
                    if i > 0 {
                        assert(all[i] == tail[i - 1]);
                    }
                }
                if steps_and_moves(text) {
                    assert forall|i: int| 0 <= i < all.len() implies (#[trigger] all[i] is Add)
                        || all[i] is MovePtr by {
                        if i > 0 {
                            assert(all[i] == tail[i - 1]);
                        }
                    }
                }
            },
            None => {},
        }
    }
}

/// For every program written with `+`, `-`, `>` and `<` alone, the compiled
/// program does to every tape what the program as parsed does: it leaves
/// the same cells and the same pointer, or faults where that one faults.
pub proof fn lemma_compiled_keeps_tape(text: Seq<char>, tape: Tape)
    requires
        steps_and_moves(text),
    ensures
        parsed(text) is Ok,
        compiled(text) is Ok,
        only_adds_and_moves(parsed(text)->Ok_0),
        only_adds_and_moves(compiled(text)->Ok_0),
        tape.through(compiled(text)->Ok_0) == tape.through(parsed(text)->Ok_0),
{
    lemma_bracket_free_parses(text);
    let naive = parsed(text)->Ok_0;
    lemma_pass_keeps_tape(naive, tape);
    lemma_pass_keeps_tape(optimized(naive), tape);
    lemma_pass_keeps_tape(optimized(optimized(naive)), tape);
}

/// The state of a run of `code` from its first command on `tape`.
pub open spec fn started(tape: Tape, code: Seq<Cmd>) -> State {
    State { tape, levels: seq![Level { code, next: 0, repeat: false }] }
}

/// Where a prefix of plain code faults, the code faults.
pub(crate) proof fn lemma_through_prefix(tape: Tape, code: Seq<Cmd>, k: int)
    requires
        0 <= k <= code.len(),
        tape.through(code.take(k)) is None,
    ensures
        tape.through(code) is None,
    decreases code.len() - k,
{
    if k < code.len() {
        assert(code.take(k + 1).drop_last() =~= code.take(k));
        lemma_through_prefix(tape, code, k + 1);
    } else {
        assert(code.take(k) =~= code);
    }
}

/// A run that stands before command `k` of plain code, on the tape that the
/// commands before it have left, goes on to the end of the code where no
/// command faults, and stops at the first command that does.
proof fn lemma_run_plain_from(start: Tape, code: Seq<Cmd>, k: int, budget: nat)
    requires
        forall|i: int| 0 <= i < code.len() ==> Tape::plain(#[trigger] code[i]),
        0 <= k <= code.len(),
        budget > code.len() - k,
        start.through(code.take(k)) is Some,
    ensures
        ({
            let here = State {
                tape: start.through(code.take(k))->Some_0,
                levels: seq![Level { code, next: k, repeat: false }],
            };
            match start.through(code) {
                Some(end) => here.run(budget) == State { tape: end, levels: Seq::empty() },
                None => here.run(budget).pending() is Fault,
            }
        }),
    decreases code.len() - k,
{
    let tape = start.through(code.take(k))->Some_0;
    let here = State { tape, levels: seq![Level { code, next: k, repeat: false }] };
    if k == code.len() {
        assert(code.take(k) =~= code);
        let halted = State { tape, levels: Seq::<Level>::empty() };
        assert(halted.pending() is Halt);
        assert(halted.run((budget - 1) as nat) == halted);
    } else {
        let command = code[k];
        assert(Tape::plain(command));
        assert(code.take(k + 1).drop_last() =~= code.take(k));
        assert(code.take(k + 1).last() == command);
        if tape.faults(command) {
            lemma_through_prefix(start, code, k + 1);
            assert(here.pending() is Fault);
        } else {
            assert(here.pending() is Silent);
            let next = State {
                tape: tape.after(command),
                levels: seq![Level { code, next: k + 1, repeat: false }],
            };
            assert(here.stepped().levels =~= next.levels);
            assert(here.stepped() == next);
            lemma_run_plain_from(start, code, k + 1, (budget - 1) as nat);
        }
    }
}

/// Running plain code from its start, with budget to spare, ends on the
/// tape that the code leaves, with nothing left to run; or stops at a fault
/// where the code faults.
pub proof fn lemma_run_plain(tape: Tape, code: Seq<Cmd>, budget: nat)
    requires
        forall|i: int| 0 <= i < code.len() ==> Tape::plain(#[trigger] code[i]),
        budget > code.len(),
    ensures
        match tape.through(code) {
            Some(end) => started(tape, code).run(budget) == State { tape: end, levels: Seq::empty() },
            None => started(tape, code).run(budget).pending() is Fault,
        },
{
    assert(code.take(0) =~= Seq::<Cmd>::empty());
    lemma_run_plain_from(tape, code, 0, budget);
}

/// For every program written with `+`, `-`, `>` and `<` alone, and from
/// every tape, running the compiled program ends as running the program as
/// parsed does: both runs end with the same cells and the same pointer, or
/// both stop at a fault. Each run has a budget of more steps than its program
/// has commands.
pub proof fn lemma_round_trip(text: Seq<char>, tape: Tape, quick: nat, slow: nat)
    requires
        steps_and_moves(text),
        parsed(text) matches Ok(naive) && slow > naive.len(),
        compiled(text) matches Ok(program) && quick > program.len(),
    ensures
        ({
            let plain = started(tape, parsed(text)->Ok_0).run(slow);
            let fast = started(tape, compiled(text)->Ok_0).run(quick);
            if plain.pending() is Halt {
                fast == plain
            } else {
                plain.pending() is Fault && fast.pending() is Fault
            }
        }),
{
    lemma_compiled_keeps_tape(text, tape);
    let naive = parsed(text)->Ok_0;
    let program = compiled(text)->Ok_0;
    assert forall|i: int| 0 <= i < naive.len() implies Tape::plain(#[trigger] naive[i]) by {
        assert(naive[i] is Add || naive[i] is MovePtr);
    }
    assert forall|i: int| 0 <= i < program.len() implies Tape::plain(#[trigger] program[i]) by {
        assert(program[i] is Add || program[i] is MovePtr);
    }
    lemma_run_plain(tape, naive, slow);
    lemma_run_plain(tape, program, quick);
}

/// Whether `out` is what a walk over flat code can have emitted: `Add`,
/// `Input` and `Output` commands, with no `Add` after a command that would
/// have absorbed it.
spec fn settled(out: Seq<Cmd>) -> bool {
    &&& forall|i: int|
        0 <= i < out.len() ==> (#[trigger] out[i] is Add) || out[i] is Input || out[i] is Output
    &&& forall|i: int|
        0 < i < out.len() && (#[trigger] out[i] is Add) ==> !absorbs(out[i - 1], out[i]->Add_0)
}

/// A walk over flat code emits settled code.
proof fn lemma_walk_settles(commands: Seq<Cmd>, n: nat)
    requires
        flat(commands),
        n <= commands.len(),
    ensures
        settled(walked(commands, n).out),
    decreases n,
{
    if n > 0 {
        let before = walked(commands, (n - 1) as nat);
        let command = commands[n - 1];
        let out = walked(commands, n).out;
        assert(walked(commands, n) == step(before, command));
        lemma_walk_settles(commands, (n - 1) as nat);
        assert(command is Add || command is MovePtr || command is Input || command is Output);
        assert forall|i: int| 0 < i < out.len() && (#[trigger] out[i] is Add) implies !absorbs(
            out[i - 1],
            out[i]->Add_0,
        ) by {
            if i < before.out.len() {
                assert(before.out[i] is Add);
            }
        }
    }
}

/// A walk over settled code, with or without a pointer move at its end,
/// emits each settled command as it stands.
proof fn lemma_settled_walk(out: Seq<Cmd>, bp: i32, n: nat)
    requires
        settled(out),
        n <= out.len(),
    ensures
        walked(flushed(out, bp), n) == (Pass { out: out.take(n as int), bp: 0 }),
    decreases n,
{
    let code = flushed(out, bp);
    if n == 0 {
        assert(out.take(0) =~= Seq::<Cmd>::empty());
    } else {
        lemma_settled_walk(out, bp, (n - 1) as nat);
        let before = walked(code, (n - 1) as nat);
        let command = code[n - 1];
        assert(command == out[n - 1]);
        assert(walked(code, n) == step(before, command));
        assert(step(before, command).out =~= out.take(n as int));
    }
}

/// A pass over the result of a pass over flat code changes nothing.
pub proof fn lemma_second_pass_over_flat(commands: Seq<Cmd>)
    requires
        flat(commands),
    ensures
        optimized(optimized(commands)) == optimized(commands),
{
    let end = walked(commands, commands.len());
    lemma_walk_settles(commands, commands.len());
    let once = optimized(commands);
    lemma_settled_walk(end.out, end.bp, end.out.len());
    assert(end.out.take(end.out.len() as int) =~= end.out);
    if end.bp != 0 {
        assert(walked(once, once.len()) == step(
            walked(once, end.out.len()),
            Cmd::MovePtr(end.bp),
        ));
    }
}

/// Whether command `i` of `commands` is one that a pass leaves as it
/// stands, where it stands.
///
/// A pointer move is not zero, and is the last command or stands before a
/// loop or a conditional. An `Add` does not follow a command that absorbs
/// it, an `Assign` does not follow a write to its cell, and a `MultAdd` does
/// not follow the clearing of its destination. A loop has a stable body that
/// is neither eliminated nor degenerated, and a conditional has a stable
/// body.
pub open spec fn stable_at(commands: Seq<Cmd>, i: int) -> bool
    decreases commands, 0nat,
{
    if 0 <= i < commands.len() {
        match commands[i] {
            Cmd::MovePtr(offset) => offset != 0 && (i + 1 == commands.len() || commands[i + 1] is Loop
                || commands[i + 1] is If),
            Cmd::Add(offset, _) => i > 0 ==> !absorbs(commands[i - 1], offset),
            Cmd::Assign(offset, _) => i > 0 ==> !writes(commands[i - 1], offset),
            Cmd::MultAdd(_, dst, _) => i > 0 ==> commands[i - 1] != Cmd::Assign(dst, 0),
            Cmd::Loop(body) => stable_upto(body, body.len()) && eliminated(body) is None
                && degenerated(body) is None,
            Cmd::If(body) => stable_upto(body, body.len()),
            _ => true,
        }
    } else {
        true
    }
}

/// Whether each of the first `n` commands of `commands` is stable where it
/// stands.
pub open spec fn stable_upto(commands: Seq<Cmd>, n: nat) -> bool
    decreases commands, n + 1,
{
    n == 0 || (stable_upto(commands, (n - 1) as nat) && stable_at(commands, n - 1))
}

/// Whether every command of `commands`, and of every body in it, is one
/// that a pass leaves as it stands.
pub open spec fn stable(commands: Seq<Cmd>) -> bool {
    stable_upto(commands, commands.len())
}

/// In stable code every command is stable where it stands.
proof fn lemma_stable_everywhere(commands: Seq<Cmd>, n: nat, i: int)
    requires
        stable_upto(commands, n),
        0 <= i < n,
    ensures
        stable_at(commands, i),
    decreases n,
{
    if i < n - 1 {
        lemma_stable_everywhere(commands, (n - 1) as nat, i);
    }
}

/// The walk's state after the first `n` commands of stable code: what it
/// has walked over, with a pointer move at the end still pending.
spec fn stable_walk(commands: Seq<Cmd>, n: nat) -> Pass {
    if 0 < n <= commands.len() && commands[n - 1] is MovePtr {
        Pass { out: commands.take(n - 1), bp: commands[n - 1]->MovePtr_0 }
    } else {
        Pass { out: commands.take(n as int), bp: 0 }
    }
}

/// A walk over stable code emits the code as it stands.
proof fn lemma_stable_walk(commands: Seq<Cmd>, n: nat)
    requires
        stable(commands),
        n <= commands.len(),
    ensures
        walked(commands, n) == stable_walk(commands, n),
    decreases commands, n,
{
    if n == 0 {
        assert(commands.take(0) =~= Seq::<Cmd>::empty());
    } else {
        lemma_stable_walk(commands, (n - 1) as nat);
        let before = walked(commands, (n - 1) as nat);
        let command = commands[n - 1];
        assert(walked(commands, n) == step(before, command));
        lemma_stable_everywhere(commands, commands.len(), n - 1);
        if n > 1 {
            lemma_stable_everywhere(commands, commands.len(), n - 2);
            assert(commands.take(n - 1).last() == commands[n - 2]);
        }
        let flush = flushed(before.out, before.bp);
        assert(flush =~= commands.take(n - 1)) by {
            if n > 1 && commands[n - 2] is MovePtr {
                assert(commands.take(n - 2).push(commands[n - 2]) =~= commands.take(n - 1));
            }
        }
        match command {
            Cmd::Loop(body) => {
                lemma_stable_is_fixed(body);
                assert(reduced(body) == seq![command]);
                assert(commands.take(n - 1) + seq![command] =~= commands.take(n as int));
            },
            Cmd::If(body) => {
                lemma_stable_is_fixed(body);
                assert(commands.take(n - 1).push(command) =~= commands.take(n as int));
            },
            Cmd::MovePtr(_) => {},
            _ => {
                assert(before.bp == 0);
                assert(before.out == commands.take(n - 1));
                assert(step(before, command).out =~= commands.take(n as int));
            },
        }
    }
}

/// A pass of the optimiser over stable code changes nothing.
pub proof fn lemma_stable_is_fixed(commands: Seq<Cmd>)
    requires
        stable(commands),
    ensures
        optimized(commands) == commands,
    decreases commands, commands.len() + 1,
{
    lemma_stable_walk(commands, commands.len());
    let n = commands.len();
    assert(commands.take(n as int) =~= commands);
    if n > 0 && commands[n - 1] is MovePtr {
        lemma_stable_everywhere(commands, n, n - 1);
        assert(commands.take(n - 1).push(commands[n - 1]) =~= commands);
    }
}

/// What a character adds to the nesting depth: one for `[`, minus one for
/// `]`, nothing for any other.
pub open spec fn nesting(ch: char) -> int {
    if ch == '[' {
        1
    } else if ch == ']' {
        -1
    } else {
        0
    }
}

/// The nesting depth after the first `n` characters of `text`: the number of
/// `[` among them, less the number of `]`.
pub open spec fn depth(text: Seq<char>, n: nat) -> int
    decreases n,
{
    if n == 0 || n > text.len() {
        0
    } else {
        depth(text, (n - 1) as nat) + nesting(text[n - 1])
    }
}

/// Whether some prefix of `text` closes more loops than it opens.
pub open spec fn overclosed(text: Seq<char>) -> bool {
    exists|n: nat| n <= text.len() && depth(text, n) < 0
}

/// Whether character `k` of `text` is the first unmatched `]`: the depth
/// stays at zero or above before it and falls to minus one with it, and
/// `after` is the text behind it.
spec fn closes_at(text: Seq<char>, k: nat, after: Seq<char>) -> bool {
    &&& k < text.len()
    &&& depth(text, k + 1) == -1
    &&& forall|n: nat| n <= k ==> depth(text, n) >= 0
    &&& after == text.skip(k + 1 as int)
}

/// The depth after `k + m` characters is the depth after `k`, and then the
/// depth that the next `m` add.
proof fn lemma_depth_split(text: Seq<char>, k: nat, m: nat)
    requires
        k + m <= text.len(),
    ensures
        depth(text, k + m) == depth(text, k) + depth(text.skip(k as int), m),
    decreases m,
{
    if m > 0 {
        lemma_depth_split(text, k, (m - 1) as nat);
    }
}

/// What `scan` finds, said by nesting depth. The depth never falls below
/// zero before an unmatched `]`, which takes it to minus one; without such a
/// bracket the depth stays at zero or above to the end, and ends at zero
/// exactly when no loop is left open.
spec fn scan_follows_depth(text: Seq<char>) -> bool {
    if scan(text) is Close {
        exists|k: nat| closes_at(text, k, scan(text)->Close_1)
    } else {
        &&& forall|n: nat| n <= text.len() ==> depth(text, n) >= 0
        &&& scan(text) is End ==> depth(text, text.len()) == 0
        &&& scan(text) is Open ==> depth(text, text.len()) > 0
    }
}

/// `scan` follows the nesting depth of every text.
proof fn lemma_scan_depth(text: Seq<char>)
    ensures
        scan_follows_depth(text),
    decreases text.len(),
{
    if text.len() > 0 {
        let rest = text.drop_first();
        lemma_scan_depth(rest);
        assert(depth(text, 0) == 0);
        assert forall|n: nat| 1 <= n <= text.len() implies depth(text, n) == nesting(text[0])
            + depth(rest, (n - 1) as nat) by {
            lemma_depth_split(text, 1, (n - 1) as nat);
        }
        if text[0] == ']' {
            assert(closes_at(text, 0, rest));
            assert(scan(text)->Close_1 == rest);
        } else if let Scanned::Close(_, after) = scan(rest) {
            let k = choose|k: nat| closes_at(rest, k, after);
            if text[0] == '[' {
                // The bracket found in the rest closes the loop that opens the
                // text; what the text comes to is decided behind it.
                assert(after =~= text.skip(k + 2 as int));
                lemma_scan_depth(after);
                assert forall|n: nat| k + 2 <= n <= text.len() implies depth(text, n) == depth(
                    after,
                    (n - k - 2) as nat,
                ) by {
                    lemma_depth_split(text, k + 2, (n - k - 2) as nat);
                }
                if let Scanned::Close(_, last) = scan(after) {
                    let j = choose|j: nat| closes_at(after, j, last);
                    let at = k + 2 + j;
                    assert(last =~= text.skip(at + 1 as int));
                    assert(closes_at(text, at, last));
                    assert(scan(text)->Close_1 == last);
                }
            } else {
                let at = k + 1;
                assert(after =~= text.skip(at + 1 as int));
                assert(closes_at(text, at, after));
                assert(scan(text)->Close_1 == after);
            }
        }
    }
}

/// When parsing fails, and how. A text fails with the unbalanced-close
/// error exactly when some prefix of it closes more loops than it opens;
/// with the unclosed-loop error exactly when no prefix does and the text
/// opens more loops than it closes; and it parses exactly when no prefix
/// does and the text closes as many loops as it opens.
pub proof fn lemma_parse_outcome(text: Seq<char>)
    ensures
        parsed(text) is Err && parsed(text)->Err_0.kind == ErrorKind::UnbalancedClose
            <==> overclosed(text),
        parsed(text) is Err && parsed(text)->Err_0.kind == ErrorKind::UnclosedLoop <==> !overclosed(
            text,
        ) && depth(text, text.len()) > 0,
        parsed(text) is Ok <==> !overclosed(text) && depth(text, text.len()) == 0,
{
    lemma_scan_depth(text);
    if let Scanned::Close(_, after) = scan(text) {
        let k = choose|k: nat| closes_at(text, k, after);
        assert(depth(text, k + 1) < 0);
    }
}

} // verus!
