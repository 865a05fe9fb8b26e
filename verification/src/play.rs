//! A run as its caller sees it, step by step, and how it agrees with what
//! the program does from start to end.
use vstd::prelude::*;
use crate::command::Cmd;
use crate::laws::started;
use crate::meaning::{effect, effects, lemma_effect_plain, outcome, Outcome, Scene};
use crate::run::{Level, State};

verus! {

/// A run together with its input and output: the state of the machine and
/// the task, the input that is still unread and the output written so far.
pub struct Play {
    pub state: State,
    pub input: Seq<u8>,
    pub output: Seq<u8>,
}

impl Play {
    /// The play one step on, as the caller of `Machine::execute` and
    /// `Machine::feed` takes it there: a silent step of the machine; a byte
    /// of input handed over, zero where the input has ended; or a byte of
    /// output taken. A play that has come to its end or to a fault stays
    /// where it is.
    pub open spec fn next(self) -> Play {
        match self.state.pending() {
            crate::run::Pending::Silent => Play {
                state: self.state.stepped(),
                input: self.input,
                output: self.output,
            },
            crate::run::Pending::Read(offset) => if self.input.len() > 0 {
                Play {
                    state: self.state.fed(offset, self.input[0]),
                    input: self.input.drop_first(),
                    output: self.output,
                }
            } else {
                Play { state: self.state.fed(offset, 0), input: self.input, output: self.output }
            },
            crate::run::Pending::Write(offset) => Play {
                state: self.state.passed(),
                input: self.input,
                output: self.output.push(self.state.tape.cell(offset)),
            },
            _ => self,
        }
    }

    /// The play `steps` steps on.
    pub open spec fn after(self, steps: nat) -> Play
        decreases steps,
    {
        if steps == 0 {
            self
        } else {
            self.next().after((steps - 1) as nat)
        }
    }
}

/// The play that stands in `scene` with the levels `levels`.
pub open spec fn based(levels: Seq<Level>, scene: Scene) -> Play {
    Play { state: State { tape: scene.tape, levels }, input: scene.input, output: scene.output }
}

/// The play of `code` from its first command, in `scene`.
pub open spec fn begun(code: Seq<Cmd>, scene: Scene) -> Play {
    Play { state: started(scene.tape, code), input: scene.input, output: scene.output }
}

/// The play that has come to its end in `scene`.
pub open spec fn ended(scene: Scene) -> Play {
    based(Seq::empty(), scene)
}

/// The play that stands in `scene` before command `next` of `code`, above
/// the levels `below`.
spec fn at(below: Seq<Level>, code: Seq<Cmd>, next: int, repeat: bool, scene: Scene) -> Play {
    based(below.push(Level { code, next, repeat }), scene)
}

/// Steps add up.
proof fn lemma_after_add(play: Play, first: nat, second: nat)
    ensures
        play.after(first + second) == play.after(first).after(second),
    decreases first,
{
    if first > 0 {
        lemma_after_add(play.next(), (first - 1) as nat, second);
    }
}

/// A play that does not move stays where it is.
proof fn lemma_after_still(play: Play, steps: nat)
    requires
        play.next() == play,
    ensures
        play.after(steps) == play,
    decreases steps,
{
    if steps > 0 {
        lemma_after_still(play, (steps - 1) as nat);
    }
}

/// The top level of a play that stands before a command.
proof fn lemma_at_top(below: Seq<Level>, code: Seq<Cmd>, next: int, repeat: bool, scene: Scene)
    ensures
        at(below, code, next, repeat, scene).state.levels.last() == (Level { code, next, repeat }),
        at(below, code, next, repeat, scene).state.levels.drop_last() == below,
        at(below, code, next, repeat, scene).state.tape == scene.tape,
{
    assert(below.push(Level { code, next, repeat }).drop_last() =~= below);
}

/// The step over a command that is neither a loop nor a conditional: the
/// play faults where the command does, and stands before the next command,
/// in the scene that the command leaves, where it does not.
proof fn lemma_step_simple(below: Seq<Level>, code: Seq<Cmd>, k: int, repeat: bool, scene: Scene, fuel: nat)
    requires
        0 <= k < code.len(),
        !(code[k] is If),
        !(code[k] is Loop),
    ensures
        match effect(code[k], scene, fuel) {
            Outcome::Done(next) => at(below, code, k, repeat, scene).next() == at(
                below,
                code,
                k + 1,
                repeat,
                next,
            ),
            _ => at(below, code, k, repeat, scene).state.pending() is Fault,
        },
{
    let play = at(below, code, k, repeat, scene);
    let top = Level { code, next: k, repeat };
    lemma_at_top(below, code, k, repeat, scene);
    assert(!top.ended());
    match code[k] {
        Cmd::Input(offset) => {
            if scene.tape.on_tape(offset) {
                assert(play.next().state.levels =~= below.push(top.advanced()));
            }
        },
        Cmd::Output(offset) => {
            if scene.tape.on_tape(offset) {
                assert(play.next().state.levels =~= below.push(top.advanced()));
            }
        },
        plain => {
            lemma_effect_plain(plain, scene, fuel);
            if !scene.tape.faults(plain) {
                assert(play.next().state.levels =~= below.push(top.advanced()));
            }
        },
    }
}

/// The step at a loop or a conditional: the play faults where the current
/// cell is off the tape, passes over the command where the cell holds
/// zero, and enters the body where it does not.
proof fn lemma_step_gate(below: Seq<Level>, code: Seq<Cmd>, k: int, repeat: bool, scene: Scene)
    requires
        0 <= k < code.len(),
        code[k] is If || code[k] is Loop,
    ensures
        !scene.tape.on_tape(0) ==> at(below, code, k, repeat, scene).state.pending() is Fault,
        scene.tape.on_tape(0) && scene.tape.cell(0) == 0 ==> at(below, code, k, repeat, scene).next()
            == at(below, code, k + 1, repeat, scene),
        scene.tape.on_tape(0) && scene.tape.cell(0) != 0 ==> at(below, code, k, repeat, scene).next()
            == at(
            below.push(Level { code, next: k + 1, repeat }),
            match code[k] {
                Cmd::If(body) => body,
                Cmd::Loop(body) => body,
                _ => code,
            },
            0,
            code[k] is Loop,
            scene,
        ),
{
    let play = at(below, code, k, repeat, scene);
    let top = Level { code, next: k, repeat };
    lemma_at_top(below, code, k, repeat, scene);
    assert(!top.ended());
    if scene.tape.on_tape(0) {
        if scene.tape.cell(0) == 0 {
            assert(play.next().state.levels =~= below.push(top.advanced()));
        } else {
            match code[k] {
                Cmd::If(body) => {
                    assert(play.next().state.levels =~= below.push(top.advanced()).push(
                        Level { code: body, next: 0, repeat: false },
                    ));
                },
                Cmd::Loop(body) => {
                    assert(play.next().state.levels =~= below.push(top.advanced()).push(
                        Level { code: body, next: 0, repeat: true },
                    ));
                },
                _ => {},
            }
        }
    }
}

/// The step at the end of a level: the play leaves a level that is no loop
/// body; at the end of a loop body it faults where the current cell is off
/// the tape, starts the body again where the cell does not hold zero, and
/// leaves where it does.
proof fn lemma_step_end(below: Seq<Level>, code: Seq<Cmd>, repeat: bool, scene: Scene)
    ensures
        !repeat ==> at(below, code, code.len() as int, repeat, scene).next() == based(below, scene),
        repeat && !scene.tape.on_tape(0) ==> at(
            below,
            code,
            code.len() as int,
            repeat,
            scene,
        ).state.pending() is Fault,
        repeat && scene.tape.on_tape(0) && scene.tape.cell(0) == 0 ==> at(
            below,
            code,
            code.len() as int,
            repeat,
            scene,
        ).next() == based(below, scene),
        repeat && scene.tape.on_tape(0) && scene.tape.cell(0) != 0 ==> at(
            below,
            code,
            code.len() as int,
            repeat,
            scene,
        ).next() == at(below, code, 0, repeat, scene),
{
    let play = at(below, code, code.len() as int, repeat, scene);
    let top = Level { code, next: code.len() as int, repeat };
    lemma_at_top(below, code, code.len() as int, repeat, scene);
    assert(top.ended());
    if !repeat || scene.tape.on_tape(0) {
        if repeat && scene.tape.cell(0) != 0 {
            assert(play.next().state.levels =~= below.push(Level { code, next: 0, repeat: true }));
        } else {
            assert(play.next().state.levels =~= below);
        }
    }
}

/// Whether a play agrees with an outcome: it stands in the scene where the
/// run ends, with the levels `levels`; or it stands at a fault; or, where
/// the fuel was spent, it has taken `steps` steps, as many as there was
/// fuel or more, and is still above the first `depth` levels.
spec fn mirrors(play: Play, result: Outcome, levels: Seq<Level>, depth: nat, steps: nat, fuel: nat) -> bool {
    match result {
        Outcome::Done(end) => play == based(levels, end),
        Outcome::Fault => play.state.pending() is Fault,
        Outcome::Spent => steps >= fuel && play.state.levels.len() > depth,
    }
}

/// The play over the first `n` commands of `code` agrees with what they do.
/// The result is the number of steps it takes.
proof fn lemma_plays_upto(
    below: Seq<Level>,
    code: Seq<Cmd>,
    repeat: bool,
    scene: Scene,
    fuel: nat,
    n: nat,
) -> (steps: nat)
    requires
        n <= code.len(),
    ensures
        mirrors(
            at(below, code, 0, repeat, scene).after(steps),
            effects(code, n, scene, fuel),
            below.push(Level { code, next: n as int, repeat }),
            below.len(),
            steps,
            fuel,
        ),
    decreases fuel, code, n,
{
    let play = at(below, code, 0, repeat, scene);
    if n == 0 {
        0
    } else {
        let had = lemma_plays_upto(below, code, repeat, scene, fuel, (n - 1) as nat);
        match effects(code, (n - 1) as nat, scene, fuel) {
            Outcome::Done(mid) => {
                let more = lemma_plays_one(below, code, repeat, n - 1, mid, fuel);
                lemma_after_add(play, had, more);
                had + more
            },
            _ => had,
        }
    }
}

/// The play over command `k` of `code` agrees with what the command does.
/// The result is the number of steps it takes.
proof fn lemma_plays_one(
    below: Seq<Level>,
    code: Seq<Cmd>,
    repeat: bool,
    k: int,
    scene: Scene,
    fuel: nat,
) -> (steps: nat)
    requires
        0 <= k < code.len(),
    ensures
        mirrors(
            at(below, code, k, repeat, scene).after(steps),
            effect(code[k], scene, fuel),
            below.push(Level { code, next: k + 1, repeat }),
            below.len(),
            steps,
            fuel,
        ),
    decreases fuel, code[k], 0nat,
{
    let play = at(below, code, k, repeat, scene);
    let above = below.push(Level { code, next: k + 1, repeat });
    assert(play.after(1) == play.next()) by {
        assert(play.next().after(0) == play.next());
    }
    lemma_at_top(below, code, k, repeat, scene);
    match code[k] {
        Cmd::If(body) => {
            lemma_step_gate(below, code, k, repeat, scene);
            if !scene.tape.on_tape(0) {
                0
            } else if scene.tape.cell(0) == 0 {
                1
            } else {
                let inside = lemma_plays_upto(above, body, false, scene, fuel, body.len());
                lemma_after_add(play, 1, inside);
                match effects(body, body.len(), scene, fuel) {
                    Outcome::Done(end) => {
                        lemma_step_end(above, body, false, end);
                        lemma_after_add(play, 1 + inside, 1);
                        let last = at(above, body, body.len() as int, false, end);
                        assert(last.after(1) == last.next()) by {
                            assert(last.next().after(0) == last.next());
                        }
                        1 + inside + 1
                    },
                    _ => 1 + inside,
                }
            }
        },
        Cmd::Loop(body) => {
            lemma_step_gate(below, code, k, repeat, scene);
            if !scene.tape.on_tape(0) {
                0
            } else if scene.tape.cell(0) == 0 {
                1
            } else if fuel == 0 {
                0
            } else {
                let inside = lemma_plays_loop(above, body, scene, fuel);
                lemma_after_add(play, 1, inside);
                1 + inside
            }
        },
        _ => {
            lemma_step_simple(below, code, k, repeat, scene, fuel);
            if effect(code[k], scene, fuel) is Done {
                1
            } else {
                0
            }
        },
    }
}

/// The play over the rounds of a loop, from the start of a round, agrees
/// with what the loop does. The result is the number of steps it takes.
proof fn lemma_plays_loop(below: Seq<Level>, body: Seq<Cmd>, scene: Scene, fuel: nat) -> (steps: nat)
    requires
        scene.tape.on_tape(0),
        scene.tape.cell(0) != 0,
        fuel > 0,
    ensures
        mirrors(
            at(below, body, 0, true, scene).after(steps),
            effect(Cmd::Loop(body), scene, fuel),
            below,
            below.len(),
            steps + 1,
            fuel,
        ),
    decreases fuel, body, body.len() + 1,
{
    let play = at(below, body, 0, true, scene);
    let less = (fuel - 1) as nat;
    let round = lemma_plays_upto(below, body, true, scene, less, body.len());
    match effects(body, body.len(), scene, less) {
        Outcome::Done(next) => {
            let last = at(below, body, body.len() as int, true, next);
            lemma_step_end(below, body, true, next);
            lemma_at_top(below, body, body.len() as int, true, next);
            assert(last.after(1) == last.next()) by {
                assert(last.next().after(0) == last.next());
            }
            let again = Cmd::Loop(body);
            assert(effect(again, scene, fuel) == effect(again, next, less));
            if !next.tape.on_tape(0) {
                assert(effect(again, next, less) is Fault);
                round
            } else if next.tape.cell(0) == 0 {
                assert(effect(again, next, less) == Outcome::Done(next));
                lemma_after_add(play, round, 1);
                round + 1
            } else if less == 0 {
                assert(effect(again, next, less) is Spent);
                round
            } else {
                let rest = lemma_plays_loop(below, body, next, less);
                lemma_after_add(play, round, 1);
                lemma_after_add(play, round + 1, rest);
                round + 1 + rest
            }
        },
        _ => round,
    }
}

/// The play of a program agrees with what the program does. Where the
/// program comes to an end, the play comes to that end; where it faults,
/// the play comes to a fault; and where the fuel is spent, the play is
/// still under way after as many steps as there was fuel. The result is
/// the number of steps that shows it.
pub proof fn lemma_play_agrees(code: Seq<Cmd>, scene: Scene, fuel: nat) -> (steps: nat)
    ensures
        match outcome(code, scene, fuel) {
            Outcome::Done(end) => begun(code, scene).after(steps) == ended(end),
            Outcome::Fault => begun(code, scene).after(steps).state.pending() is Fault,
            Outcome::Spent => steps >= fuel && begun(code, scene).after(steps).state.levels.len() > 0,
        },
{
    let below = Seq::<Level>::empty();
    let play = begun(code, scene);
    assert(play.state.levels =~= below.push(Level { code, next: 0, repeat: false }));
    assert(play == at(below, code, 0, false, scene));
    let had = lemma_plays_upto(below, code, false, scene, fuel, code.len());
    match outcome(code, scene, fuel) {
        Outcome::Done(end) => {
            let last = at(below, code, code.len() as int, false, end);
            lemma_step_end(below, code, false, end);
            assert(last.after(1) == last.next()) by {
                assert(last.next().after(0) == last.next());
            }
            lemma_after_add(play, had, 1);
            had + 1
        },
        _ => had,
    }
}

/// A play that has come to its end was the play of a program that comes to
/// that end: with one more unit of fuel than the play took steps, the
/// program ends in the scene in which the play ended.
pub proof fn lemma_ended_play_means(code: Seq<Cmd>, scene: Scene, taken: nat, end: Scene)
    requires
        begun(code, scene).after(taken) == ended(end),
    ensures
        outcome(code, scene, taken + 1) == Outcome::Done(end),
{
    let play = begun(code, scene);
    let steps = lemma_play_agrees(code, scene, taken + 1);
    let there = play.after(steps);
    assert(ended(end).state.pending() is Halt);
    if steps <= taken {
        lemma_after_add(play, steps, (taken - steps) as nat);
        if !(outcome(code, scene, taken + 1) is Spent) {
            assert(there.next() == there);
            lemma_after_still(there, (taken - steps) as nat);
        }
    } else {
        lemma_after_add(play, taken, (steps - taken) as nat);
        lemma_after_still(ended(end), (steps - taken) as nat);
    }
}

/// A stretch of silent steps, as `Machine::execute` takes it, is a number of
/// steps of the play.
pub proof fn lemma_run_is_play(play: Play, budget: nat) -> (steps: nat)
    ensures
        steps <= budget,
        play.after(steps) == (Play {
            state: play.state.run(budget),
            input: play.input,
            output: play.output,
        }),
    decreases budget,
{
    if budget == 0 || !(play.state.pending() is Silent) {
        0
    } else {
        let rest = lemma_run_is_play(play.next(), (budget - 1) as nat);
        rest + 1
    }
}

} // verus!
