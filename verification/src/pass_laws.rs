//! A pass of the optimiser keeps what a program does.
use vstd::prelude::*;
use crate::command::Cmd;
use crate::laws::{
    lemma_emit_add_keeps, lemma_emit_assign_keeps, lemma_emit_mult_add_keeps, lemma_rebased,
    lemma_through_push, lemma_wrapping_add_associative, lemma_write_is_local,
};
use crate::machine::Tape;
use crate::compiler::compiled;
use crate::loop_laws::{
    lemma_ascending_lists, lemma_degeneration_keeps_tape, lemma_eliminated_covers,
    lemma_eliminated_runs, lemma_elimination_keeps_tape, lemma_fits_from_through,
};
use crate::parser::{parsed, scan, simple, Scanned};
use crate::play::{begun, ended, lemma_ended_play_means, lemma_play_agrees};
use crate::meaning::{
    effect, effects, lemma_effect_plain, lemma_effects_prefix, lemma_length_kept, lemma_more_fuel,
    lemma_more_fuel_one, lemma_outcome_add, lemma_outcome_plain, lemma_outcome_push, outcome,
    Outcome, Scene,
};
use crate::optimizer::{
    absorbed, absorbs, ascending, degenerable, degenerated, eliminated, emit_add, emit_assign,
    emit_mult_add, flushed, net_deltas, optimized, reduced, step, walked, writes, Pass,
};

verus! {

/// Whether `command` is sound: no `MultAdd` from a cell onto itself, and
/// none in a body.
pub open spec fn sound_one(command: Cmd) -> bool
    decreases command, 0nat,
{
    match command {
        Cmd::MultAdd(src, dst, _) => src != dst,
        Cmd::If(body) => sound_upto(body, body.len()),
        Cmd::Loop(body) => sound_upto(body, body.len()),
        _ => true,
    }
}

/// Whether each of the first `n` commands of `commands` is sound.
pub open spec fn sound_upto(commands: Seq<Cmd>, n: nat) -> bool
    decreases commands, n + 1,
{
    n == 0 || n > commands.len() || (sound_upto(commands, (n - 1) as nat) && sound_one(
        commands[n - 1],
    ))
}

/// Whether no command of `commands`, at any depth, is a `MultAdd` from a
/// cell onto itself. Every program that the parser gives is sound, and a
/// pass over a sound program gives a sound program.
pub open spec fn sound(commands: Seq<Cmd>) -> bool {
    sound_upto(commands, commands.len())
}

/// Code is sound up to a command exactly when each command before it is.
pub proof fn lemma_sound_each(commands: Seq<Cmd>, n: nat)
    requires
        n <= commands.len(),
    ensures
        sound_upto(commands, n) <==> forall|i: int| 0 <= i < n ==> sound_one(#[trigger] commands[i]),
    decreases n,
{
    if n > 0 {
        lemma_sound_each(commands, (n - 1) as nat);
        if sound_upto(commands, n) {
            assert forall|i: int| 0 <= i < n implies sound_one(#[trigger] commands[i]) by {}
        }
    }
}

/// Whether the cell that `command` stores to lies outside `tape`; true of a
/// command that stores to none.
spec fn off_target(command: Cmd, tape: Tape) -> bool {
    match command {
        Cmd::Add(at, _) => !tape.on_tape(at),
        Cmd::Assign(at, _) => !tape.on_tape(at),
        Cmd::MultAdd(_, dst, _) => !tape.on_tape(dst),
        Cmd::MultAssign(_, dst, _) => !tape.on_tape(dst),
        _ => true,
    }
}

/// `scene` with the pointer moved by `offset`.
spec fn shifted(scene: Scene, offset: i32) -> Scene {
    scene.on(scene.tape.moved(offset))
}

/// Whether what a walk has emitted keeps track of the code walked over:
/// run from `start`, and followed by the pending pointer move, it ends in
/// `target`; or it faults, and not at a last command that the walk may yet
/// replace by one that does not fault.
spec fn tracks(pass: Pass, start: Scene, fuel: nat, target: Scene) -> bool {
    match outcome(pass.out, start, fuel) {
        Outcome::Done(now) => shifted(now, pass.bp) == target,
        Outcome::Fault => pass.out.len() > 0 && match outcome(pass.out.drop_last(), start, fuel) {
            Outcome::Done(before) => off_target(pass.out.last(), before.tape),
            Outcome::Fault => true,
            Outcome::Spent => false,
        },
        Outcome::Spent => false,
    }
}

/// What keeps track with some fuel keeps track with more.
proof fn lemma_tracks_more(pass: Pass, start: Scene, fuel: nat, more: nat, target: Scene)
    requires
        tracks(pass, start, fuel, target),
    ensures
        tracks(pass, start, fuel + more, target),
{
    lemma_more_fuel(pass.out, pass.out.len(), start, fuel, more);
    if pass.out.len() > 0 && outcome(pass.out, start, fuel) is Fault {
        let before = pass.out.drop_last();
        lemma_more_fuel(before, before.len(), start, fuel, more);
    }
}

/// One more command emitted after code that keeps track. Where that code
/// ends, the command ends where the code walked over ends, with the pointer
/// move `bp` pending; or it faults, and is a loop or a conditional.
proof fn lemma_track_push(
    pass: Pass,
    command: Cmd,
    bp: i32,
    start: Scene,
    fuel: nat,
    target: Scene,
    next: Scene,
)
    requires
        tracks(pass, start, fuel, target),
        outcome(pass.out, start, fuel) matches Outcome::Done(now) ==> match effect(
            command,
            now,
            fuel,
        ) {
            Outcome::Done(after) => shifted(after, bp) == next,
            Outcome::Fault => off_target(command, now.tape),
            Outcome::Spent => false,
        },
    ensures
        tracks(Pass { out: pass.out.push(command), bp }, start, fuel, next),
{
    lemma_outcome_push(pass.out, command, start, fuel);
    assert(pass.out.push(command).drop_last() =~= pass.out);
}

/// The last command of code that keeps track replaced by `command`. Where
/// the code before the last command ends, `command` ends where the code
/// walked over ends; and where the last command faults at the cell it
/// stores to, `command` faults at the cell it stores to.
proof fn lemma_track_replace(
    pass: Pass,
    command: Cmd,
    start: Scene,
    fuel: nat,
    target: Scene,
    next: Scene,
)
    requires
        tracks(pass, start, fuel, target),
        pass.out.len() > 0,
        outcome(pass.out.drop_last(), start, fuel) matches Outcome::Done(before) ==> {
            &&& off_target(pass.out.last(), before.tape) ==> effect(command, before, fuel) is Fault
                && off_target(command, before.tape)
            &&& outcome(pass.out, start, fuel) is Done ==> effect(command, before, fuel) is Done
                && shifted(effect(command, before, fuel)->Done_0, pass.bp) == next
        },
    ensures
        tracks(Pass { out: pass.out.drop_last().push(command), bp: pass.bp }, start, fuel, next),
{
    let before = pass.out.drop_last();
    lemma_outcome_push(before, command, start, fuel);
    lemma_outcome_push(before, pass.out.last(), start, fuel);
    assert(before.push(pass.out.last()) =~= pass.out);
    assert(before.push(command).drop_last() =~= before);
}

/// What one plain command does to a tape, as code of one command.
proof fn lemma_through_one(tape: Tape, command: Cmd)
    ensures
        tape.through(seq![command]) == if tape.faults(command) {
            None
        } else {
            Some(tape.after(command))
        },
{
    lemma_through_push(tape, Seq::empty(), command);
    assert(Seq::<Cmd>::empty().push(command) =~= seq![command]);
}

/// An `Add` merged into the command before it does what the two do.
proof fn lemma_absorb_tape(tape: Tape, last: Cmd, at: i32, delta: i32)
    requires
        absorbs(last, at),
        !tape.faults(last),
    ensures
        !tape.faults(absorbed(last, delta)),
        tape.after(absorbed(last, delta)) == tape.after(last).after(Cmd::Add(at, delta)),
{
    let merged = absorbed(last, delta);
    lemma_through_one(tape, last);
    lemma_through_one(tape, merged);
    assert(seq![last].drop_last().push(merged) =~= seq![merged]);
    lemma_emit_add_keeps(tape, seq![last], at, delta);
}

/// An `Assign` in place of a write to its cell does what the two do.
proof fn lemma_overwrite_tape(tape: Tape, last: Cmd, at: i32, value: i32)
    requires
        writes(last, at),
        !tape.faults(last),
    ensures
        !tape.faults(Cmd::Assign(at, value)),
        tape.after(Cmd::Assign(at, value)) == tape.after(last).after(Cmd::Assign(at, value)),
{
    let stored = Cmd::Assign(at, value);
    lemma_write_is_local(tape, last, at);
    lemma_through_one(tape, last);
    lemma_through_one(tape, stored);
    assert(seq![last].drop_last().push(stored) =~= seq![stored]);
    lemma_emit_assign_keeps(tape, seq![last], at, value);
}

/// A `MultAssign` does what the clearing of its destination and a `MultAdd`
/// from another cell do.
proof fn lemma_fold_tape(tape: Tape, from: i32, onto: i32, factor: i32)
    requires
        from != onto,
        tape.on_tape(from),
        tape.on_tape(onto),
    ensures
        tape.after(Cmd::MultAssign(from, onto, factor)) == tape.after(Cmd::Assign(onto, 0)).after(
            Cmd::MultAdd(from, onto, factor),
        ),
{
    let last = Cmd::Assign(onto, 0);
    let folded = Cmd::MultAssign(from, onto, factor);
    lemma_through_one(tape, last);
    lemma_through_one(tape, folded);
    assert(seq![last].drop_last().push(folded) =~= seq![folded]);
    lemma_emit_mult_add_keeps(tape, seq![last], from, onto, factor);
}

/// The step of the walk over a plain command that stores to cells, pushed
/// as `rebased`: the command with the pending move added to its offsets.
proof fn lemma_track_plain(pass: Pass, command: Cmd, rebased: Cmd, start: Scene, fuel: nat, target: Scene)
    requires
        tracks(pass, start, fuel, target),
        Tape::plain(rebased),
        outcome(pass.out, start, fuel) matches Outcome::Done(now) ==> !now.tape.faults(rebased)
            && now.tape.after(rebased).moved(pass.bp) == target.tape.after(command),
    ensures
        tracks(
            Pass { out: pass.out.push(rebased), bp: pass.bp },
            start,
            fuel,
            target.on(target.tape.after(command)),
        ),
{
    let next = target.on(target.tape.after(command));
    match outcome(pass.out, start, fuel) {
        Outcome::Done(now) => {
            lemma_effect_plain(rebased, now, fuel);
        },
        _ => {},
    }
    lemma_track_push(pass, rebased, pass.bp, start, fuel, target, next);
}

/// The step of the walk where the last command emitted is replaced by
/// `merged`, which does what the last command and `rebased` do, and which
/// stores to the cell that the last command stores to.
proof fn lemma_track_merge(
    pass: Pass,
    command: Cmd,
    rebased: Cmd,
    merged: Cmd,
    start: Scene,
    fuel: nat,
    target: Scene,
)
    requires
        tracks(pass, start, fuel, target),
        pass.out.len() > 0,
        Tape::plain(pass.out.last()),
        Tape::plain(merged),
        forall|tape: Tape| off_target(pass.out.last(), tape) ==> tape.faults(merged) && off_target(
            merged,
            tape,
        ),
        outcome(pass.out.drop_last(), start, fuel) matches Outcome::Done(before) ==> (
        !before.tape.faults(pass.out.last()) ==> !before.tape.faults(merged) && before.tape.after(
            merged,
        ).moved(pass.bp) == before.tape.after(pass.out.last()).moved(pass.bp).after(command)),
    ensures
        tracks(
            Pass { out: pass.out.drop_last().push(merged), bp: pass.bp },
            start,
            fuel,
            target.on(target.tape.after(command)),
        ),
{
    let last = pass.out.last();
    let next = target.on(target.tape.after(command));
    match outcome(pass.out.drop_last(), start, fuel) {
        Outcome::Done(before) => {
            lemma_effect_plain(merged, before, fuel);
            lemma_effect_plain(last, before, fuel);
            lemma_outcome_push(pass.out.drop_last(), last, start, fuel);
            assert(pass.out.drop_last().push(last) =~= pass.out);
        },
        _ => {},
    }
    lemma_track_replace(pass, merged, start, fuel, target, next);
}

/// The step of the walk over an `Add`.
proof fn lemma_track_add(pass: Pass, offset: i32, delta: i32, start: Scene, fuel: nat, target: Scene)
    requires
        tracks(pass, start, fuel, target),
        target.tape.on_tape(offset),
    ensures
        tracks(
            Pass { out: emit_add(pass.out, pass.bp.wrapping_add(offset), delta), bp: pass.bp },
            start,
            fuel,
            target.on(target.tape.after(Cmd::Add(offset, delta))),
        ),
{
    let at = pass.bp.wrapping_add(offset);
    let command = Cmd::Add(offset, delta);
    let rebased = Cmd::Add(at, delta);
    if pass.out.len() > 0 && absorbs(pass.out.last(), at) {
        let last = pass.out.last();
        match outcome(pass.out.drop_last(), start, fuel) {
            Outcome::Done(before) => {
                if !before.tape.faults(last) {
                    lemma_absorb_tape(before.tape, last, at, delta);
                    lemma_rebased(before.tape.after(last), pass.bp, command);
                }
            },
            _ => {},
        }
        lemma_track_merge(pass, command, rebased, absorbed(last, delta), start, fuel, target);
    } else {
        match outcome(pass.out, start, fuel) {
            Outcome::Done(now) => {
                lemma_rebased(now.tape, pass.bp, command);
            },
            _ => {},
        }
        lemma_track_plain(pass, command, rebased, start, fuel, target);
    }
}

/// The step of the walk over an `Assign`.
proof fn lemma_track_assign(pass: Pass, offset: i32, value: i32, start: Scene, fuel: nat, target: Scene)
    requires
        tracks(pass, start, fuel, target),
        target.tape.on_tape(offset),
    ensures
        tracks(
            Pass { out: emit_assign(pass.out, pass.bp.wrapping_add(offset), value), bp: pass.bp },
            start,
            fuel,
            target.on(target.tape.after(Cmd::Assign(offset, value))),
        ),
{
    let at = pass.bp.wrapping_add(offset);
    let command = Cmd::Assign(offset, value);
    let rebased = Cmd::Assign(at, value);
    if pass.out.len() > 0 && writes(pass.out.last(), at) {
        let last = pass.out.last();
        match outcome(pass.out.drop_last(), start, fuel) {
            Outcome::Done(before) => {
                if !before.tape.faults(last) {
                    lemma_overwrite_tape(before.tape, last, at, value);
                    lemma_rebased(before.tape.after(last), pass.bp, command);
                }
            },
            _ => {},
        }
        lemma_track_merge(pass, command, rebased, rebased, start, fuel, target);
    } else {
        match outcome(pass.out, start, fuel) {
            Outcome::Done(now) => {
                lemma_rebased(now.tape, pass.bp, command);
            },
            _ => {},
        }
        lemma_track_plain(pass, command, rebased, start, fuel, target);
    }
}

/// The step of the walk over a `MultAdd` from one cell onto another.
proof fn lemma_track_mult_add(
    pass: Pass,
    src: i32,
    dst: i32,
    factor: i32,
    start: Scene,
    fuel: nat,
    target: Scene,
)
    requires
        tracks(pass, start, fuel, target),
        src != dst,
        !target.tape.faults(Cmd::MultAdd(src, dst, factor)),
    ensures
        tracks(
            Pass {
                out: emit_mult_add(
                    pass.out,
                    pass.bp.wrapping_add(src),
                    pass.bp.wrapping_add(dst),
                    factor,
                ),
                bp: pass.bp,
            },
            start,
            fuel,
            target.on(target.tape.after(Cmd::MultAdd(src, dst, factor))),
        ),
{
    let from = pass.bp.wrapping_add(src);
    let onto = pass.bp.wrapping_add(dst);
    let command = Cmd::MultAdd(src, dst, factor);
    let rebased = Cmd::MultAdd(from, onto, factor);
    if pass.out.len() > 0 && pass.out.last() == Cmd::Assign(onto, 0) {
        let last = pass.out.last();
        match outcome(pass.out.drop_last(), start, fuel) {
            Outcome::Done(before) => {
                if !before.tape.faults(last) {
                    lemma_effect_plain(last, before, fuel);
                    lemma_outcome_push(pass.out.drop_last(), last, start, fuel);
                    assert(pass.out.drop_last().push(last) =~= pass.out);
                    let now = before.tape.after(last);
                    lemma_rebased(now, pass.bp, command);
                    assert(now.moved(pass.bp) == target.tape);
                    lemma_fold_tape(before.tape, from, onto, factor);
                }
            },
            _ => {},
        }
        lemma_track_merge(
            pass,
            command,
            rebased,
            Cmd::MultAssign(from, onto, factor),
            start,
            fuel,
            target,
        );
    } else {
        match outcome(pass.out, start, fuel) {
            Outcome::Done(now) => {
                lemma_rebased(now.tape, pass.bp, command);
            },
            _ => {},
        }
        lemma_track_plain(pass, command, rebased, start, fuel, target);
    }
}

/// The step of the walk over a pointer move.
proof fn lemma_track_move(pass: Pass, offset: i32, start: Scene, fuel: nat, target: Scene)
    requires
        tracks(pass, start, fuel, target),
    ensures
        tracks(
            Pass { out: pass.out, bp: pass.bp.wrapping_add(offset) },
            start,
            fuel,
            target.on(target.tape.moved(offset)),
        ),
{
    match outcome(pass.out, start, fuel) {
        Outcome::Done(now) => {
            lemma_wrapping_add_associative(now.tape.pointer, pass.bp, offset);
        },
        _ => {},
    }
}

/// The step of the walk over an `Input` or an `Output`.
proof fn lemma_track_io(pass: Pass, command: Cmd, start: Scene, fuel: nat, target: Scene)
    requires
        tracks(pass, start, fuel, target),
        command is Input || command is Output,
        effect(command, target, fuel) is Done,
    ensures
        tracks(step(pass, command), start, fuel, effect(command, target, fuel)->Done_0),
{
    let next = effect(command, target, fuel)->Done_0;
    match command {
        Cmd::Input(offset) => {
            let rebased = Cmd::Input(pass.bp.wrapping_add(offset));
            match outcome(pass.out, start, fuel) {
                Outcome::Done(now) => {
                    lemma_wrapping_add_associative(now.tape.pointer, pass.bp, offset);
                    assert(now.tape.moved(pass.bp) == target.tape);
                },
                _ => {},
            }
            lemma_track_push(pass, rebased, pass.bp, start, fuel, target, next);
        },
        Cmd::Output(offset) => {
            let rebased = Cmd::Output(pass.bp.wrapping_add(offset));
            match outcome(pass.out, start, fuel) {
                Outcome::Done(now) => {
                    lemma_wrapping_add_associative(now.tape.pointer, pass.bp, offset);
                    assert(now.tape.moved(pass.bp) == target.tape);
                },
                _ => {},
            }
            lemma_track_push(pass, rebased, pass.bp, start, fuel, target, next);
        },
        _ => {},
    }
}

/// The pending pointer move emitted.
proof fn lemma_track_flush(pass: Pass, start: Scene, fuel: nat, target: Scene)
    requires
        tracks(pass, start, fuel, target),
    ensures
        tracks(Pass { out: flushed(pass.out, pass.bp), bp: 0 }, start, fuel, target),
        outcome(flushed(pass.out, pass.bp), start, fuel) matches Outcome::Done(now) ==> now == target,
{
    if pass.bp != 0 {
        match outcome(pass.out, start, fuel) {
            Outcome::Done(now) => {
                lemma_effect_plain(Cmd::MovePtr(pass.bp), now, fuel);
                assert(now.tape.moved(pass.bp).moved(0) == now.tape.moved(pass.bp));
            },
            _ => {},
        }
        lemma_track_push(pass, Cmd::MovePtr(pass.bp), 0, start, fuel, target, target);
        lemma_outcome_push(pass.out, Cmd::MovePtr(pass.bp), start, fuel);
    } else {
        match outcome(pass.out, start, fuel) {
            Outcome::Done(now) => {
                assert(now.tape.moved(0) == now.tape);
            },
            _ => {},
        }
    }
}

/// Whether `result` is the end in `target`, or a fault.
pub open spec fn keeps(result: Outcome, target: Scene) -> bool {
    result == Outcome::Done(target) || result is Fault
}

/// A loop or a conditional emitted after code that keeps track and has no
/// pointer move pending.
proof fn lemma_track_composite(
    pass: Pass,
    command: Cmd,
    start: Scene,
    fuel: nat,
    target: Scene,
    next: Scene,
)
    requires
        pass.bp == 0,
        tracks(pass, start, fuel, target),
        outcome(pass.out, start, fuel) matches Outcome::Done(now) ==> now == target,
        command is If || command is Loop,
        keeps(effect(command, target, fuel), next),
    ensures
        tracks(Pass { out: pass.out.push(command), bp: 0 }, start, fuel, next),
{
    assert(next.tape.moved(0) == next.tape);
    lemma_track_push(pass, command, 0, start, fuel, target, next);
}

/// Plain code that ends in an `Assign`, emitted after code that keeps track
/// and has no pointer move pending.
proof fn lemma_track_code(pass: Pass, code: Seq<Cmd>, start: Scene, fuel: nat, target: Scene, next: Scene)
    requires
        pass.bp == 0,
        tracks(pass, start, fuel, target),
        outcome(pass.out, start, fuel) matches Outcome::Done(now) ==> now == target,
        forall|i: int| 0 <= i < code.len() ==> Tape::plain(#[trigger] code[i]),
        code.len() > 0,
        code.last() is Assign,
        target.tape.through(code) matches Some(end) ==> target.on(end) == next,
    ensures
        tracks(Pass { out: pass.out + code, bp: 0 }, start, fuel, next),
{
    let all = pass.out + code;
    let head = code.drop_last();
    assert(all.drop_last() =~= pass.out + head);
    assert(all.last() == code.last());
    lemma_outcome_add(pass.out, code, start, fuel);
    lemma_outcome_add(pass.out, head, start, fuel);
    match outcome(pass.out, start, fuel) {
        Outcome::Done(now) => {
            lemma_outcome_plain(code, code.len(), now, fuel);
            lemma_outcome_plain(head, head.len(), now, fuel);
            assert(code.take(code.len() as int) =~= code);
            assert(head.take(head.len() as int) =~= head);
            assert(head.push(code.last()) =~= code);
            lemma_through_push(now.tape, head, code.last());
            assert(next.tape.moved(0) == next.tape);
        },
        _ => {},
    }
}

/// Two runs of one command from one scene, of which the first ends in
/// `first` or faults and the second ends in `second`: `first` is `second`.
proof fn lemma_same_end(command: Cmd, scene: Scene, one: nat, other: nat, first: Scene, second: Scene)
    requires
        keeps(effect(command, scene, one), first),
        effect(command, scene, other) == Outcome::Done(second),
    ensures
        effect(command, scene, one) == Outcome::Done(second),
        first == second,
{
    lemma_more_fuel_one(command, scene, one, other);
    lemma_more_fuel_one(command, scene, other, one);
}

/// The walk over the first `n` commands of sound code that ends: what it
/// has emitted keeps track of them. The result is fuel enough for that.
proof fn lemma_walk_keeps_run(commands: Seq<Cmd>, n: nat, start: Scene, fuel: nat) -> (enough: nat)
    requires
        sound(commands),
        n <= commands.len(),
        start.tape.cells.len() <= i32::MAX,
        effects(commands, n, start, fuel) is Done,
    ensures
        tracks(walked(commands, n), start, enough, effects(commands, n, start, fuel)->Done_0),
    decreases commands, 0nat, n,
{
    if n == 0 {
        assert(start.tape.moved(0) == start.tape);
        0
    } else {
        let had = lemma_walk_keeps_run(commands, (n - 1) as nat, start, fuel);
        lemma_sound_each(commands, commands.len());
        lemma_length_kept(commands, (n - 1) as nat, start, fuel);
        lemma_step_keeps_run(commands, n, start, fuel, had)
    }
}

/// The step of the walk over command `n - 1` of sound code that ends, after
/// a walk that keeps track with fuel `had`. The result is fuel enough for
/// the walk to keep track after the step.
proof fn lemma_step_keeps_run(commands: Seq<Cmd>, n: nat, start: Scene, fuel: nat, had: nat) -> (enough:
    nat)
    requires
        0 < n <= commands.len(),
        sound_one(commands[n - 1]),
        effects(commands, n, start, fuel) is Done,
        effects(commands, (n - 1) as nat, start, fuel) is Done,
        effects(commands, (n - 1) as nat, start, fuel)->Done_0.tape.cells.len() <= i32::MAX,
        tracks(
            walked(commands, (n - 1) as nat),
            start,
            had,
            effects(commands, (n - 1) as nat, start, fuel)->Done_0,
        ),
    ensures
        tracks(walked(commands, n), start, enough, effects(commands, n, start, fuel)->Done_0),
    decreases commands, 0nat, 0nat,
{
    let before = walked(commands, (n - 1) as nat);
    let command = commands[n - 1];
    let mid = effects(commands, (n - 1) as nat, start, fuel)->Done_0;
    let next = effect(command, mid, fuel)->Done_0;
    assert(walked(commands, n) == step(before, command));
    match command {
        Cmd::MovePtr(offset) => {
            lemma_effect_plain(command, mid, fuel);
            lemma_track_move(before, offset, start, had, mid);
            had
        },
        Cmd::Add(offset, delta) => {
            lemma_effect_plain(command, mid, fuel);
            lemma_track_add(before, offset, delta, start, had, mid);
            had
        },
        Cmd::Assign(offset, value) => {
            lemma_effect_plain(command, mid, fuel);
            lemma_track_assign(before, offset, value, start, had, mid);
            had
        },
        Cmd::MultAdd(src, dst, factor) => {
            lemma_effect_plain(command, mid, fuel);
            lemma_track_mult_add(before, src, dst, factor, start, had, mid);
            had
        },
        Cmd::MultAssign(src, dst, factor) => {
            lemma_effect_plain(command, mid, fuel);
            let rebased = Cmd::MultAssign(
                before.bp.wrapping_add(src),
                before.bp.wrapping_add(dst),
                factor,
            );
            match outcome(before.out, start, had) {
                Outcome::Done(now) => {
                    lemma_rebased(now.tape, before.bp, command);
                },
                _ => {},
            }
            lemma_track_plain(before, command, rebased, start, had, mid);
            had
        },
        Cmd::Input(_) => {
            lemma_more_fuel_one(command, mid, fuel, had);
            lemma_more_fuel_one(command, mid, had, fuel);
            lemma_track_io(before, command, start, had, mid);
            had
        },
        Cmd::Output(_) => {
            lemma_more_fuel_one(command, mid, fuel, had);
            lemma_more_fuel_one(command, mid, had, fuel);
            lemma_track_io(before, command, start, had, mid);
            had
        },
        Cmd::If(body) => {
            let inner = optimized(body);
            let flush = Pass { out: flushed(before.out, before.bp), bp: 0 };
            let more = if mid.tape.cell(0) != 0 {
                lemma_pass_keeps_run(body, mid, fuel)
            } else {
                0
            };
            let enough = had + more;
            lemma_tracks_more(before, start, had, more, mid);
            lemma_track_flush(before, start, enough, mid);
            assert(keeps(effect(Cmd::If(inner), mid, more), next));
            lemma_more_fuel_one(Cmd::If(inner), mid, more, had);
            assert(more + had == enough);
            lemma_track_composite(flush, Cmd::If(inner), start, enough, mid, next);
            enough
        },
        Cmd::Loop(body) => {
            let inner = optimized(body);
            let flush = Pass { out: flushed(before.out, before.bp), bp: 0 };
            let more = lemma_loop_keeps_run(body, mid, fuel);
            let count = mid.tape.cell(0) as nat;
            let enough = had + more + count;
            lemma_tracks_more(before, start, had, more + count, mid);
            lemma_track_flush(before, start, enough, mid);
            lemma_more_fuel_one(Cmd::Loop(inner), mid, more, had + count);
            assert(more + (had + count) == enough);
            assert(keeps(effect(Cmd::Loop(inner), mid, enough), next));
            match eliminated(inner) {
                Some(code) => {
                    assert forall|i: int| 0 <= i < code.len() implies Tape::plain(
                        #[trigger] code[i],
                    ) by {}
                    if mid.tape.through(code) is Some {
                        lemma_eliminated_covers(inner, mid.tape);
                        lemma_elimination_keeps_tape(inner, mid.tape);
                        lemma_same_end(
                            Cmd::Loop(inner),
                            mid,
                            enough,
                            count,
                            next,
                            mid.on(mid.tape.through(code)->Some_0),
                        );
                    }
                    lemma_track_code(flush, code, start, enough, mid, next);
                },
                None => match degenerated(inner) {
                    Some(conditional) => {
                        let once = inner.push(Cmd::Assign(0, 0));
                        assert(conditional == Cmd::If(once));
                        assert forall|i: int| 0 <= i < inner.len() implies Tape::plain(
                            #[trigger] inner[i],
                        ) && !(inner[i] is MovePtr) by {
                            assert(degenerable(inner[i]));
                        }
                        assert forall|i: int| 0 <= i < once.len() implies Tape::plain(
                            #[trigger] once[i],
                        ) by {
                            if i < inner.len() {
                                assert(once[i] == inner[i]);
                            }
                        }
                        if mid.tape.cell(0) != 0 {
                            lemma_outcome_plain(once, once.len(), mid, enough);
                            assert(once.take(once.len() as int) =~= once);
                            if mid.tape.through(once) is Some {
                                lemma_through_push(mid.tape, inner, Cmd::Assign(0, 0));
                                lemma_fits_from_through(inner, mid.tape, inner.len());
                                lemma_degeneration_keeps_tape(inner, mid.tape);
                                lemma_same_end(
                                    Cmd::Loop(inner),
                                    mid,
                                    enough,
                                    count,
                                    next,
                                    mid.on(mid.tape.through(once)->Some_0),
                                );
                            }
                        } else {
                            assert(effect(Cmd::Loop(inner), mid, enough) == Outcome::Done(mid));
                        }
                        assert(keeps(effect(conditional, mid, enough), next));
                        assert(flush.out + seq![conditional] =~= flush.out.push(conditional));
                        lemma_track_composite(flush, conditional, start, enough, mid, next);
                    },
                    None => {
                        assert(flush.out + seq![Cmd::Loop(inner)] =~= flush.out.push(
                            Cmd::Loop(inner),
                        ));
                        lemma_track_composite(flush, Cmd::Loop(inner), start, enough, mid, next);
                    },
                },
            }
            enough
        },
    }
}

/// A loop over a sound body that ends: the loop over the optimised body
/// ends in the same scene, or faults. The result is fuel enough for that.
proof fn lemma_loop_keeps_run(body: Seq<Cmd>, scene: Scene, fuel: nat) -> (enough: nat)
    requires
        sound(body),
        scene.tape.cells.len() <= i32::MAX,
        effect(Cmd::Loop(body), scene, fuel) is Done,
    ensures
        keeps(
            effect(Cmd::Loop(optimized(body)), scene, enough),
            effect(Cmd::Loop(body), scene, fuel)->Done_0,
        ),
    decreases body, 1nat, fuel,
{
    let inner = optimized(body);
    if scene.tape.cell(0) == 0 {
        0
    } else {
        let less = (fuel - 1) as nat;
        let next = effects(body, body.len(), scene, less)->Done_0;
        let round = lemma_pass_keeps_run(body, scene, less);
        if outcome(inner, scene, round) is Fault {
            round + 1
        } else {
            lemma_length_kept(body, body.len(), scene, less);
            let rest = lemma_loop_keeps_run(body, next, less);
            lemma_more_fuel(inner, inner.len(), scene, round, rest);
            lemma_more_fuel_one(Cmd::Loop(inner), next, rest, round);
            assert(rest + round == round + rest);
            round + rest + 1
        }
    }
}

/// A pass of the optimiser keeps what a sound program does. Where the
/// program, run from `scene` with `fuel`, comes to an end, the program after
/// the pass, run from `scene` with the fuel that the lemma returns, comes to
/// the same end: the same cells and pointer, the same input left unread and
/// the same output written. The one exception is a fault: the program
/// after the pass addresses every cell that an eliminated loop's body
/// names, also where the loop runs no round.
pub proof fn lemma_pass_keeps_run(commands: Seq<Cmd>, scene: Scene, fuel: nat) -> (enough: nat)
    requires
        sound(commands),
        scene.tape.cells.len() <= i32::MAX,
        outcome(commands, scene, fuel) is Done,
    ensures
        keeps(outcome(optimized(commands), scene, enough), outcome(commands, scene, fuel)->Done_0),
    decreases commands, 0nat, commands.len() + 1,
{
    let enough = lemma_walk_keeps_run(commands, commands.len(), scene, fuel);
    let end = walked(commands, commands.len());
    lemma_track_flush(end, scene, enough, outcome(commands, scene, fuel)->Done_0);
    enough
}

/// What replaces a loop with a sound body is sound.
proof fn lemma_reduced_sound(body: Seq<Cmd>)
    requires
        sound(body),
    ensures
        sound(reduced(body)),
{
    let out = reduced(body);
    lemma_sound_each(body, body.len());
    assert forall|i: int| 0 <= i < out.len() implies sound_one(#[trigger] out[i]) by {
        match eliminated(body) {
            Some(code) => {
                let net = net_deltas(body, body.len());
                let keys = ascending(net.dom().remove(0), i32::MIN as int);
                lemma_ascending_lists(net.dom().remove(0), i32::MIN as int);
                if i < keys.len() {
                    assert(keys.contains(keys[i]));
                    assert(code[i] == Cmd::MultAdd(0, keys[i], net[keys[i]]));
                }
            },
            None => match degenerated(body) {
                Some(conditional) => {
                    let once = body.push(Cmd::Assign(0, 0));
                    assert forall|j: int| 0 <= j < once.len() implies sound_one(
                        #[trigger] once[j],
                    ) by {
                        if j < body.len() {
                            assert(once[j] == body[j]);
                        }
                    }
                    lemma_sound_each(once, once.len());
                },
                None => {},
            },
        }
    }
    lemma_sound_each(out, out.len());
}

/// The step of the walk over a sound command, after sound code, emits
/// sound code.
proof fn lemma_step_sound(pass: Pass, command: Cmd)
    requires
        sound(pass.out),
        sound_one(command),
        command matches Cmd::If(body) ==> sound(optimized(body)),
        command matches Cmd::Loop(body) ==> sound(reduced(optimized(body))),
    ensures
        sound(step(pass, command).out),
{
    let out = step(pass, command).out;
    lemma_sound_each(pass.out, pass.out.len());
    match command {
        Cmd::Loop(body) => {
            let tail = reduced(optimized(body));
            lemma_sound_each(tail, tail.len());
            let head = flushed(pass.out, pass.bp);
            assert forall|i: int| 0 <= i < out.len() implies sound_one(#[trigger] out[i]) by {
                if i < pass.out.len() {
                    assert(out[i] == pass.out[i]);
                } else if i < head.len() {
                    assert(out[i] == Cmd::MovePtr(pass.bp));
                } else {
                    assert(out[i] == tail[i - head.len()]);
                }
            }
        },
        _ => {
            assert forall|i: int| 0 <= i < out.len() implies sound_one(#[trigger] out[i]) by {
                if i < pass.out.len() - 1 {
                    assert(out[i] == pass.out[i]);
                } else if i < pass.out.len() {
                    assert(sound_one(pass.out[i]));
                }
            }
        },
    }
    lemma_sound_each(out, out.len());
}

/// The walk over sound code emits sound code.
proof fn lemma_walk_sound(commands: Seq<Cmd>, n: nat)
    requires
        sound(commands),
        n <= commands.len(),
    ensures
        sound(walked(commands, n).out),
    decreases commands, n,
{
    if n > 0 {
        lemma_walk_sound(commands, (n - 1) as nat);
        lemma_sound_each(commands, commands.len());
        let command = commands[n - 1];
        assert(walked(commands, n) == step(walked(commands, (n - 1) as nat), command));
        match command {
            Cmd::If(body) => {
                lemma_pass_sound(body);
            },
            Cmd::Loop(body) => {
                lemma_pass_sound(body);
                lemma_reduced_sound(optimized(body));
            },
            _ => {},
        }
        lemma_step_sound(walked(commands, (n - 1) as nat), command);
    }
}

/// A pass of the optimiser over a sound program gives a sound program.
pub proof fn lemma_pass_sound(commands: Seq<Cmd>)
    requires
        sound(commands),
    ensures
        sound(optimized(commands)),
    decreases commands, commands.len() + 1,
{
    let end = walked(commands, commands.len());
    lemma_walk_sound(commands, commands.len());
    lemma_sound_each(end.out, end.out.len());
    let out = optimized(commands);
    assert forall|i: int| 0 <= i < out.len() implies sound_one(#[trigger] out[i]) by {
        if i < end.out.len() {
            assert(out[i] == end.out[i]);
        }
    }
    lemma_sound_each(out, out.len());
}

/// What `scan` reads is sound.
proof fn lemma_scan_sound(text: Seq<char>)
    ensures
        match scan(text) {
            Scanned::End(commands) => sound(commands),
            Scanned::Close(commands, _) => sound(commands),
            Scanned::Open => true,
        },
    decreases text.len(),
{
    if text.len() > 0 {
        let rest = text.drop_first();
        lemma_scan_sound(rest);
        if text[0] == '[' {
            if let Scanned::Close(body, after) = scan(rest) {
                if after.len() < text.len() {
                    lemma_scan_sound(after);
                    match scan(after) {
                        Scanned::End(tail) => {
                            lemma_sound_front(Cmd::Loop(body), tail);
                        },
                        Scanned::Close(tail, _) => {
                            lemma_sound_front(Cmd::Loop(body), tail);
                        },
                        Scanned::Open => {},
                    }
                }
            }
        } else if text[0] != ']' {
            match simple(text[0]) {
                Some(command) => match scan(rest) {
                    Scanned::End(tail) => {
                        lemma_sound_front(command, tail);
                    },
                    Scanned::Close(tail, _) => {
                        lemma_sound_front(command, tail);
                    },
                    Scanned::Open => {},
                },
                None => {},
            }
        }
    }
}

/// A sound command in front of sound code.
proof fn lemma_sound_front(first: Cmd, tail: Seq<Cmd>)
    requires
        sound_one(first),
        sound(tail),
    ensures
        sound(seq![first] + tail),
{
    let all = seq![first] + tail;
    lemma_sound_each(tail, tail.len());
    assert forall|i: int| 0 <= i < all.len() implies sound_one(#[trigger] all[i]) by {
        if i > 0 {
            assert(all[i] == tail[i - 1]);
        }
    }
    lemma_sound_each(all, all.len());
}

/// Every program that the parser gives is sound.
pub proof fn lemma_parse_sound(text: Seq<char>)
    ensures
        parsed(text) matches Ok(program) ==> sound(program),
{
    lemma_scan_sound(text);
}

/// Compiling keeps what a program does. Where the program as parsed, run
/// from `scene` with `fuel`, comes to an end, each of the three passes gives
/// a program that comes to the same end, until one gives a program that
/// faults. The result is fuel enough for the program after each pass.
pub proof fn lemma_compile_keeps_run(text: Seq<char>, scene: Scene, fuel: nat) -> (enough: (
    nat,
    nat,
    nat,
))
    requires
        parsed(text) is Ok,
        scene.tape.cells.len() <= i32::MAX,
        outcome(parsed(text)->Ok_0, scene, fuel) is Done,
    ensures
        compiled(text) is Ok,
        ({
            let naive = parsed(text)->Ok_0;
            let end = outcome(naive, scene, fuel)->Done_0;
            let once = optimized(naive);
            let twice = optimized(once);
            ||| outcome(once, scene, enough.0) is Fault
            ||| outcome(twice, scene, enough.1) is Fault
            ||| keeps(outcome(compiled(text)->Ok_0, scene, enough.2), end)
        }),
{
    let naive = parsed(text)->Ok_0;
    let once = optimized(naive);
    let twice = optimized(once);
    lemma_parse_sound(text);
    lemma_pass_sound(naive);
    lemma_pass_sound(once);
    let one = lemma_pass_keeps_run(naive, scene, fuel);
    if outcome(once, scene, one) is Fault {
        (one, 0, 0)
    } else {
        let two = lemma_pass_keeps_run(once, scene, one);
        if outcome(twice, scene, two) is Fault {
            (one, two, 0)
        } else {
            let three = lemma_pass_keeps_run(twice, scene, two);
            (one, two, three)
        }
    }
}

/// A pass of the optimiser keeps the play of a sound program. Where the
/// play of the program from `scene` comes to its end in `end`, the play of
/// the program after the pass comes to its end in `end` too, or to a fault.
/// The result is a number of steps after which it has.
pub proof fn lemma_pass_keeps_play(commands: Seq<Cmd>, scene: Scene, taken: nat, end: Scene) -> (steps:
    nat)
    requires
        sound(commands),
        scene.tape.cells.len() <= i32::MAX,
        begun(commands, scene).after(taken) == ended(end),
    ensures
        begun(optimized(commands), scene).after(steps) == ended(end) || begun(
            optimized(commands),
            scene,
        ).after(steps).state.pending() is Fault,
{
    lemma_ended_play_means(commands, scene, taken, end);
    let enough = lemma_pass_keeps_run(commands, scene, taken + 1);
    lemma_play_agrees(optimized(commands), scene, enough)
}

/// Compiling keeps the play of a program. Where the play of the program as
/// parsed comes to its end in `end`, the play of the compiled program comes
/// to its end in `end` too, unless the play of the program after one of the
/// three passes comes to a fault. The result is a number of steps for the
/// program after each pass.
pub proof fn lemma_compile_keeps_play(text: Seq<char>, scene: Scene, taken: nat, end: Scene) -> (steps: (
    nat,
    nat,
    nat,
))
    requires
        parsed(text) is Ok,
        scene.tape.cells.len() <= i32::MAX,
        begun(parsed(text)->Ok_0, scene).after(taken) == ended(end),
    ensures
        compiled(text) is Ok,
        ({
            let once = optimized(parsed(text)->Ok_0);
            let twice = optimized(once);
            ||| begun(once, scene).after(steps.0).state.pending() is Fault
            ||| begun(twice, scene).after(steps.1).state.pending() is Fault
            ||| begun(compiled(text)->Ok_0, scene).after(steps.2).state.pending() is Fault
            ||| begun(compiled(text)->Ok_0, scene).after(steps.2) == ended(end)
        }),
{
    let naive = parsed(text)->Ok_0;
    let once = optimized(naive);
    let twice = optimized(once);
    lemma_parse_sound(text);
    lemma_pass_sound(naive);
    lemma_pass_sound(once);
    let one = lemma_pass_keeps_play(naive, scene, taken, end);
    if begun(once, scene).after(one).state.pending() is Fault {
        (one, 0, 0)
    } else {
        let two = lemma_pass_keeps_play(once, scene, one, end);
        if begun(twice, scene).after(two).state.pending() is Fault {
            (one, two, 0)
        } else {
            let three = lemma_pass_keeps_play(twice, scene, two, end);
            (one, two, three)
        }
    }
}

/// Whether `head` stands at the start of `whole`.
spec fn starts(whole: Seq<Cmd>, head: Seq<Cmd>) -> bool {
    head.len() <= whole.len() && forall|i: int| 0 <= i < head.len() ==> whole[i] == head[i]
}

/// Whether what a walk emits later keeps what it has emitted up to now: all
/// but the last command, and the last too where it is a loop or a
/// conditional.
spec fn settled_in(out: Seq<Cmd>, later: Seq<Cmd>) -> bool {
    out.len() > 0 ==> starts(later, out.drop_last()) && ((out.last() is If || out.last() is Loop)
        ==> starts(later, out))
}

/// A step of the walk takes no command away, keeps every command but the
/// last, and keeps the last too where it is a loop or a conditional.
proof fn lemma_out_grows(pass: Pass, command: Cmd)
    ensures
        step(pass, command).out.len() >= pass.out.len(),
        pass.out.len() > 0 ==> starts(step(pass, command).out, pass.out.drop_last()),
        pass.out.len() > 0 && (pass.out.last() is If || pass.out.last() is Loop) ==> starts(
            step(pass, command).out,
            pass.out,
        ),
{
}

/// What the walk has emitted after `n` commands stays settled in what it
/// has emitted after `m`, and in the program that the pass gives.
proof fn lemma_walk_settles_out(commands: Seq<Cmd>, n: nat, m: nat)
    requires
        n <= m <= commands.len(),
    ensures
        settled_in(walked(commands, n).out, walked(commands, m).out),
        walked(commands, n).out.len() <= walked(commands, m).out.len(),
        m == commands.len() ==> settled_in(walked(commands, n).out, optimized(commands)),
    decreases m - n,
{
    let out = walked(commands, n).out;
    if n < m {
        lemma_walk_settles_out(commands, n, (m - 1) as nat);
        let before = walked(commands, (m - 1) as nat);
        let next = walked(commands, m).out;
        assert(walked(commands, m) == step(before, commands[m - 1]));
        lemma_out_grows(before, commands[m - 1]);
        if out.len() > 0 {
            assert forall|i: int| 0 <= i < out.len() - 1 implies next[i] == out.drop_last()[i] by {
                assert(before.out[i] == out.drop_last()[i]);
                assert(before.out.drop_last()[i] == before.out[i]);
            }
            if out.last() is If || out.last() is Loop {
                assert forall|i: int| 0 <= i < out.len() implies next[i] == out[i] by {
                    assert(before.out[i] == out[i]);
                    if i < before.out.len() - 1 {
                        assert(before.out.drop_last()[i] == before.out[i]);
                    }
                }
            }
        }
    }
    if m == commands.len() && out.len() > 0 {
        let last = walked(commands, m).out;
        let all = optimized(commands);
        assert forall|i: int| 0 <= i < out.len() - 1 implies all[i] == out.drop_last()[i] by {
            assert(last[i] == out.drop_last()[i]);
        }
        if out.last() is If || out.last() is Loop {
            assert forall|i: int| 0 <= i < out.len() implies all[i] == out[i] by {
                assert(last[i] == out[i]);
            }
        }
    }
}

/// Commands that end, run with some fuel, have ended after each of them.
proof fn lemma_done_before(commands: Seq<Cmd>, n: nat, k: nat, scene: Scene, fuel: nat)
    requires
        k <= n <= commands.len(),
        effects(commands, n, scene, fuel) is Done,
    ensures
        effects(commands, k, scene, fuel) is Done,
    decreases n - k,
{
    if k < n {
        lemma_done_before(commands, (n - 1) as nat, k, scene, fuel);
    }
}

/// Where code ends, the code at its start ends.
proof fn lemma_head_done(whole: Seq<Cmd>, head: Seq<Cmd>, scene: Scene, fuel: nat)
    requires
        starts(whole, head),
        outcome(whole, scene, fuel) is Done,
    ensures
        outcome(head, scene, fuel) is Done,
{
    lemma_done_before(whole, whole.len(), head.len(), scene, fuel);
    lemma_effects_prefix(whole, head, head.len(), scene, fuel);
}

/// Where the program after a pass ends, the scene in which the walk comes to
/// command `n - 1`, a loop or a conditional, is the scene in which the
/// program before the pass comes to it; and what the walk emits for the
/// command, but for its last command, ends from there.
proof fn lemma_gate_scene(commands: Seq<Cmd>, n: nat, scene: Scene, given: nat, had: nat)
    requires
        sound(commands),
        0 < n <= commands.len(),
        commands[n - 1] is If || commands[n - 1] is Loop,
        scene.tape.cells.len() <= i32::MAX,
        outcome(optimized(commands), scene, given) is Done,
        effects(commands, (n - 1) as nat, scene, had) is Done,
    ensures
        ({
            let before = walked(commands, (n - 1) as nat);
            let flush = flushed(before.out, before.bp);
            let out = walked(commands, n).out;
            let mid = effects(commands, (n - 1) as nat, scene, had)->Done_0;
            &&& out.len() > flush.len()
            &&& out == flush + out.subrange(flush.len() as int, out.len() as int)
            &&& outcome(flush, scene, given) == Outcome::Done(mid)
            &&& outcome(
                out.subrange(flush.len() as int, out.len() - 1),
                mid,
                given,
            ) is Done
            &&& (out.last() is If || out.last() is Loop) ==> effect(out.last(), mid, given) is Done
        }),
{
    let before = walked(commands, (n - 1) as nat);
    let flush = flushed(before.out, before.bp);
    let out = walked(commands, n).out;
    let mid = effects(commands, (n - 1) as nat, scene, had)->Done_0;
    let whole = optimized(commands);
    assert(walked(commands, n) == step(before, commands[n - 1]));
    let tail = out.subrange(flush.len() as int, out.len() as int);
    assert(out =~= flush + tail);
    let front = out.subrange(flush.len() as int, out.len() - 1);
    assert(out.drop_last() =~= flush + front);
    lemma_walk_settles_out(commands, n, commands.len());
    lemma_head_done(whole, out.drop_last(), scene, given);
    lemma_outcome_add(flush, front, scene, given);
    let kept = lemma_walk_keeps_run(commands, (n - 1) as nat, scene, had);
    lemma_tracks_more(before, scene, kept, given, mid);
    lemma_track_flush(before, scene, kept + given, mid);
    lemma_more_fuel(flush, flush.len(), scene, given, kept);
    assert(given + kept == kept + given);
    if out.last() is If || out.last() is Loop {
        lemma_head_done(whole, out, scene, given);
        assert(out.drop_last().push(out.last()) =~= out);
        lemma_outcome_push(out.drop_last(), out.last(), scene, given);
        lemma_outcome_add(flush, front, scene, given);
    }
}

/// The walk back: where the program after a pass ends, the first `n`
/// commands of the program before it end or fault. The result is fuel
/// enough for that.
proof fn lemma_walk_ends_back(commands: Seq<Cmd>, n: nat, scene: Scene, given: nat) -> (fuel: nat)
    requires
        sound(commands),
        n <= commands.len(),
        scene.tape.cells.len() <= i32::MAX,
        outcome(optimized(commands), scene, given) is Done,
    ensures
        !(effects(commands, n, scene, fuel) is Spent),
    decreases commands, 0nat, n,
{
    if n == 0 {
        0
    } else {
        let had = lemma_walk_ends_back(commands, (n - 1) as nat, scene, given);
        if effects(commands, (n - 1) as nat, scene, had) is Done {
            lemma_step_ends_back(commands, n, scene, given, had)
        } else {
            had
        }
    }
}

/// The step back over command `n - 1`.
proof fn lemma_step_ends_back(commands: Seq<Cmd>, n: nat, scene: Scene, given: nat, had: nat) -> (fuel:
    nat)
    requires
        sound(commands),
        0 < n <= commands.len(),
        scene.tape.cells.len() <= i32::MAX,
        outcome(optimized(commands), scene, given) is Done,
        effects(commands, (n - 1) as nat, scene, had) is Done,
    ensures
        !(effects(commands, n, scene, fuel) is Spent),
    decreases commands, 0nat, 0nat,
{
    let command = commands[n - 1];
    let mid = effects(commands, (n - 1) as nat, scene, had)->Done_0;
    let before = walked(commands, (n - 1) as nat);
    let flush = flushed(before.out, before.bp);
    let out = walked(commands, n).out;
    lemma_sound_each(commands, commands.len());
    lemma_length_kept(commands, (n - 1) as nat, scene, had);
    assert(walked(commands, n) == step(before, command));
    match command {
        Cmd::If(body) => {
            if mid.tape.on_tape(0) && mid.tape.cell(0) != 0 {
                lemma_gate_scene(commands, n, scene, given, had);
                assert(out.last() == Cmd::If(optimized(body)));
                let more = lemma_pass_ends_back(body, mid, given);
                lemma_more_fuel(commands, (n - 1) as nat, scene, had, more);
                lemma_more_fuel(body, body.len(), mid, more, had);
                assert(more + had == had + more);
                assert(effect(command, mid, had + more) == effects(
                    body,
                    body.len(),
                    mid,
                    had + more,
                ));
                assert(effects(commands, n, scene, had + more) == effect(command, mid, had + more));
                had + more
            } else {
                assert(!(effect(command, mid, had) is Spent));
                had
            }
        },
        Cmd::Loop(body) => {
            let inner = optimized(body);
            let count = mid.tape.cell(0) as nat;
            if mid.tape.on_tape(0) && mid.tape.cell(0) != 0 {
                lemma_gate_scene(commands, n, scene, given, had);
                let tail = out.subrange(flush.len() as int, out.len() as int);
                assert(tail =~= reduced(inner));
                let enough = match eliminated(inner) {
                    Some(code) => {
                        assert(out.subrange(flush.len() as int, out.len() - 1) =~= code.drop_last());
                        assert forall|i: int| 0 <= i < code.drop_last().len() implies Tape::plain(
                            #[trigger] code.drop_last()[i],
                        ) by {}
                        lemma_outcome_plain(
                            code.drop_last(),
                            code.drop_last().len(),
                            mid,
                            given,
                        );
                        assert(code.drop_last().take(code.drop_last().len() as int)
                            =~= code.drop_last());
                        lemma_eliminated_runs(inner, mid.tape);
                        lemma_eliminated_covers(inner, mid.tape);
                        lemma_elimination_keeps_tape(inner, mid.tape);
                        count
                    },
                    None => match degenerated(inner) {
                        Some(conditional) => {
                            let once = inner.push(Cmd::Assign(0, 0));
                            assert(out.last() == conditional);
                            assert(conditional == Cmd::If(once));
                            assert forall|i: int| 0 <= i < inner.len() implies Tape::plain(
                                #[trigger] inner[i],
                            ) && !(inner[i] is MovePtr) by {
                                assert(degenerable(inner[i]));
                            }
                            assert forall|i: int| 0 <= i < once.len() implies Tape::plain(
                                #[trigger] once[i],
                            ) by {
                                if i < inner.len() {
                                    assert(once[i] == inner[i]);
                                }
                            }
                            lemma_outcome_plain(once, once.len(), mid, given);
                            assert(once.take(once.len() as int) =~= once);
                            lemma_through_push(mid.tape, inner, Cmd::Assign(0, 0));
                            lemma_fits_from_through(inner, mid.tape, inner.len());
                            lemma_degeneration_keeps_tape(inner, mid.tape);
                            count
                        },
                        None => {
                            assert(out.last() == Cmd::Loop(inner));
                            given
                        },
                    },
                };
                assert(effect(Cmd::Loop(inner), mid, enough) is Done);
                let more = lemma_loop_ends_back(body, mid, enough);
                lemma_more_fuel(commands, (n - 1) as nat, scene, had, more);
                lemma_more_fuel_one(command, mid, more, had);
                assert(more + had == had + more);
                had + more
            } else {
                had
            }
        },
        _ => {
            if Tape::plain(command) {
                lemma_effect_plain(command, mid, had);
            }
            had
        },
    }
}

/// The loop back: where the loop over the optimised body ends, the loop
/// over the body ends or faults. The result is fuel enough for that.
proof fn lemma_loop_ends_back(body: Seq<Cmd>, scene: Scene, given: nat) -> (fuel: nat)
    requires
        sound(body),
        scene.tape.cells.len() <= i32::MAX,
        effect(Cmd::Loop(optimized(body)), scene, given) is Done,
    ensures
        !(effect(Cmd::Loop(body), scene, fuel) is Spent),
    decreases body, 1nat, given,
{
    let inner = optimized(body);
    if scene.tape.cell(0) == 0 {
        0
    } else {
        let less = (given - 1) as nat;
        let next = outcome(inner, scene, less)->Done_0;
        let round = lemma_pass_ends_back(body, scene, less);
        if outcome(body, scene, round) is Fault {
            round + 1
        } else {
            let kept = lemma_pass_keeps_run(body, scene, round);
            lemma_more_fuel(inner, inner.len(), scene, kept, less);
            lemma_more_fuel(inner, inner.len(), scene, less, kept);
            assert(kept + less == less + kept);
            lemma_length_kept(body, body.len(), scene, round);
            let rest = lemma_loop_ends_back(body, next, less);
            lemma_more_fuel(body, body.len(), scene, round, rest);
            lemma_more_fuel_one(Cmd::Loop(body), next, rest, round);
            assert(rest + round == round + rest);
            round + rest + 1
        }
    }
}

/// The pass back: where the program after a pass ends, the program before
/// it ends or faults. The result is fuel enough for that.
proof fn lemma_pass_ends_back(commands: Seq<Cmd>, scene: Scene, given: nat) -> (fuel: nat)
    requires
        sound(commands),
        scene.tape.cells.len() <= i32::MAX,
        outcome(optimized(commands), scene, given) is Done,
    ensures
        !(outcome(commands, scene, fuel) is Spent),
    decreases commands, 0nat, commands.len() + 1,
{
    lemma_walk_ends_back(commands, commands.len(), scene, given)
}

/// A pass of the optimiser gives no program that ends where the program
/// before the pass runs on without end. Where the program after the pass,
/// run from `scene` with fuel `given`, comes to an end, the program before
/// the pass, run with the fuel that the lemma returns, comes to the same
/// end or faults.
pub proof fn lemma_pass_keeps_end(commands: Seq<Cmd>, scene: Scene, given: nat) -> (fuel: nat)
    requires
        sound(commands),
        scene.tape.cells.len() <= i32::MAX,
        outcome(optimized(commands), scene, given) is Done,
    ensures
        keeps(outcome(commands, scene, fuel), outcome(optimized(commands), scene, given)->Done_0),
{
    let fuel = lemma_pass_ends_back(commands, scene, given);
    if outcome(commands, scene, fuel) is Done {
        let kept = lemma_pass_keeps_run(commands, scene, fuel);
        let after = optimized(commands);
        lemma_more_fuel(after, after.len(), scene, kept, given);
        lemma_more_fuel(after, after.len(), scene, given, kept);
        assert(kept + given == given + kept);
    }
    fuel
}

/// Where the play of the program after a pass comes to its end in `end`,
/// the play of the sound program before the pass comes to its end in `end`
/// too, or to a fault. The result is a number of steps after which it has.
pub proof fn lemma_pass_keeps_play_back(
    commands: Seq<Cmd>,
    scene: Scene,
    taken: nat,
    end: Scene,
) -> (steps: nat)
    requires
        sound(commands),
        scene.tape.cells.len() <= i32::MAX,
        begun(optimized(commands), scene).after(taken) == ended(end),
    ensures
        begun(commands, scene).after(steps) == ended(end) || begun(commands, scene).after(
            steps,
        ).state.pending() is Fault,
{
    lemma_ended_play_means(optimized(commands), scene, taken, end);
    let fuel = lemma_pass_keeps_end(commands, scene, taken + 1);
    lemma_play_agrees(commands, scene, fuel)
}

} // verus!
