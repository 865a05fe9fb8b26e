//! What holds of the loops that the optimiser replaces: by straight-line
//! code, or by a conditional.
use vstd::prelude::*;
use crate::command::Cmd;
use crate::laws::{
    lemma_through_prefix, lemma_through_push, lemma_wrapping_add_associative,
    lemma_wrapping_add_low_byte, started,
};
use crate::meaning::{effect, lemma_outcome_plain, Outcome, Scene};
use crate::machine::{low_byte, Tape};
use crate::optimizer::{
    ascending, control_delta, degenerable, degenerated, delta_at, drift, eliminated, net_deltas,
    only_adds_and_moves, reads_outside, scaled_adds, zeroed,
};
use crate::run::{Level, State};

verus! {

/// The offset from the pointer at which cell `at` of `tape` lies.
spec fn key_at(tape: Tape, at: int) -> i32 {
    (at as i32).wrapping_sub(tape.pointer)
}

/// `tape` after `rounds` rounds of a body with net deltas `net`: each cell
/// has had the delta for its offset added to it that many times, and the
/// pointer is where it was.
spec fn bumped(tape: Tape, net: Map<i32, i32>, rounds: int) -> Tape {
    Tape {
        cells: Seq::new(
            tape.cells.len(),
            |at: int| low_byte(tape.cells[at] + rounds * delta_at(net, key_at(tape, at))),
        ),
        pointer: tape.pointer,
    }
}

/// Whether every cell that `net` has a delta for lies on `tape`.
pub open spec fn covers(tape: Tape, net: Map<i32, i32>) -> bool {
    forall|key: i32| net.contains_key(key) ==> tape.on_tape(key)
}

/// Whether a run from `state` comes to an end, with nothing left to run, on
/// `tape`.
pub open spec fn ends_on(state: State, tape: Tape) -> bool {
    exists|budget: nat| state.run(budget) == (State { tape, levels: Seq::empty() })
}

/// On a tape of at most `i32::MAX` cells, the cell at an offset is the cell
/// whose offset it is.
proof fn lemma_key_at(tape: Tape, at: int, key: i32)
    requires
        0 <= at < tape.cells.len() <= i32::MAX,
    ensures
        tape.position(key) == at <==> key == key_at(tape, at),
{
}

/// While a body that only adds and moves runs, each command adds to the net
/// deltas, and the deltas that it has once it has run hold those of every
/// stage before.
proof fn lemma_net_deltas_grow(body: Seq<Cmd>, n: nat, m: nat, key: i32)
    requires
        n <= m <= body.len(),
        net_deltas(body, n).contains_key(key),
    ensures
        net_deltas(body, m).contains_key(key),
    decreases m - n,
{
    if n < m {
        lemma_net_deltas_grow(body, n, (m - 1) as nat, key);
    }
}

/// The first `n` commands of a body that only adds and moves, run on a tape
/// that holds every cell they touch, add each cell's net delta to it and
/// move the pointer by their drift.
proof fn lemma_round_prefix(body: Seq<Cmd>, n: nat, tape: Tape)
    requires
        only_adds_and_moves(body),
        n <= body.len(),
        tape.cells.len() <= i32::MAX,
        covers(tape, net_deltas(body, n)),
    ensures
        tape.through(body.take(n as int)) == Some(
            bumped(tape, net_deltas(body, n), 1).moved(drift(body, n)),
        ),
    decreases n,
{
    if n == 0 {
        assert(bumped(tape, net_deltas(body, 0), 1).cells =~= tape.cells);
    } else {
        let command = body[n - 1];
        let before = net_deltas(body, (n - 1) as nat);
        let now = net_deltas(body, n);
        assert forall|key: i32| before.contains_key(key) implies tape.on_tape(key) by {
            lemma_net_deltas_grow(body, (n - 1) as nat, n, key);
        }
        lemma_round_prefix(body, (n - 1) as nat, tape);
        assert(body.take(n as int) =~= body.take(n - 1).push(command));
        lemma_through_push(tape, body.take(n - 1), command);
        let start = bumped(tape, before, 1).moved(drift(body, (n - 1) as nat));
        match command {
            Cmd::MovePtr(offset) => {
                lemma_wrapping_add_associative(
                    tape.pointer,
                    drift(body, (n - 1) as nat),
                    offset,
                );
            },
            Cmd::Add(offset, delta) => {
                let key = drift(body, (n - 1) as nat).wrapping_add(offset);
                lemma_wrapping_add_associative(tape.pointer, drift(body, (n - 1) as nat), offset);
                assert(tape.on_tape(key));
                let at = tape.position(key);
                let end = start.after(command);
                let goal = bumped(tape, now, 1).moved(drift(body, n));
                assert forall|j: int| 0 <= j < tape.cells.len() implies end.cells[j]
                    == goal.cells[j] by {
                    lemma_key_at(tape, j, key);
                    if j == at {
                        lemma_wrapping_add_low_byte(
                            tape.cells[at] as int,
                            delta_at(before, key),
                            delta,
                        );
                    }
                }
                assert(end.cells =~= goal.cells);
            },
            _ => {},
        }
    }
}

/// One more round after `rounds` rounds is `rounds + 1` rounds.
proof fn lemma_bumped_again(tape: Tape, net: Map<i32, i32>, rounds: int)
    ensures
        bumped(bumped(tape, net, rounds), net, 1) == bumped(tape, net, rounds + 1),
{
    let once = bumped(tape, net, rounds);
    assert forall|at: int| 0 <= at < tape.cells.len() implies bumped(once, net, 1).cells[at]
        == bumped(tape, net, rounds + 1).cells[at] by {
        let delta = delta_at(net, key_at(tape, at)) as int;
        let cell = tape.cells[at] as int;
        let sum = rounds * delta;
        assert((rounds + 1) * delta == sum + delta) by (nonlinear_arith)
            requires
                sum == rounds * delta,
        ;
        assert(((cell + sum) % 256 + 1 * delta) % 256 == (cell + sum + delta) % 256)
            by (nonlinear_arith);
    }
    assert(bumped(once, net, 1).cells =~= bumped(tape, net, rounds + 1).cells);
}

/// No round at all leaves the tape as it is.
proof fn lemma_bumped_zero(tape: Tape, net: Map<i32, i32>)
    ensures
        bumped(tape, net, 0) == tape,
{
    assert forall|at: int| 0 <= at < tape.cells.len() implies bumped(tape, net, 0).cells[at]
        == tape.cells[at] by {
        assert(0 * delta_at(net, key_at(tape, at)) == 0) by (nonlinear_arith);
    }
    assert(bumped(tape, net, 0).cells =~= tape.cells);
}

/// A run with budget `first + second` is a run with budget `first`, and
/// then a run with budget `second` from where that one stops.
proof fn lemma_run_add(state: State, first: nat, second: nat)
    ensures
        state.run(first + second) == state.run(first).run(second),
    decreases first,
{
    if first > 0 && state.pending() is Silent {
        lemma_run_add(state.stepped(), (first - 1) as nat, second);
    }
}

/// A run that stands before command `k` of plain code that does not fault,
/// on the tape that the commands before it have left, reaches the end of
/// the code in as many steps as commands are left, whatever levels lie
/// below and whether or not the code is a loop body.
proof fn lemma_run_body(start: Tape, below: Seq<Level>, code: Seq<Cmd>, repeat: bool, k: int)
    requires
        forall|i: int| 0 <= i < code.len() ==> Tape::plain(#[trigger] code[i]),
        0 <= k <= code.len(),
        start.through(code) is Some,
    ensures
        start.through(code.take(k)) is Some,
        (State {
            tape: start.through(code.take(k))->Some_0,
            levels: below.push(Level { code, next: k, repeat }),
        }).run((code.len() - k) as nat) == (State {
            tape: start.through(code)->Some_0,
            levels: below.push(Level { code, next: code.len() as int, repeat }),
        }),
    decreases code.len() - k,
{
    if start.through(code.take(k)) is None {
        crate::laws::lemma_through_prefix(start, code, k);
    }
    let tape = start.through(code.take(k))->Some_0;
    let here = State { tape, levels: below.push(Level { code, next: k, repeat }) };
    if k == code.len() {
        assert(code.take(k) =~= code);
    } else {
        let command = code[k];
        assert(code.take(k + 1).drop_last() =~= code.take(k));
        lemma_run_body(start, below, code, repeat, k + 1);
        let next = State {
            tape: tape.after(command),
            levels: below.push(Level { code, next: k + 1, repeat }),
        };
        assert(here.stepped().levels =~= next.levels);
    }
}

/// The level of a program that is nothing but a loop with body `body`,
/// before the loop or after it.
spec fn around(body: Seq<Cmd>, next: int) -> Level {
    Level { code: seq![Cmd::Loop(body)], next, repeat: false }
}

/// The state of a run that stands before command `next` of the loop body
/// `body`, inside a program that is nothing but that loop.
spec fn inside(tape: Tape, body: Seq<Cmd>, next: int) -> State {
    State { tape, levels: seq![around(body, 1), Level { code: body, next, repeat: true }] }
}

/// Whether `body` is the body of a loop that the optimiser eliminates.
spec fn counts_down(body: Seq<Cmd>) -> bool {
    &&& only_adds_and_moves(body)
    &&& drift(body, body.len()) == 0
    &&& delta_at(net_deltas(body, body.len()), 0) == -1
}

/// The control cell after `rounds` rounds of a loop that counts down from
/// `count`.
proof fn lemma_control_cell(body: Seq<Cmd>, tape: Tape, rounds: int)
    requires
        counts_down(body),
        tape.cells.len() <= i32::MAX,
        tape.on_tape(0),
        0 <= rounds <= tape.cell(0),
    ensures
        bumped(tape, net_deltas(body, body.len()), rounds).cell(0) == tape.cell(0) - rounds,
{
    lemma_key_at(tape, tape.position(0), 0);
}

/// The ascending listing of a set lists its members from `from` upwards,
/// each once, in strictly ascending order.
pub(crate) proof fn lemma_ascending_lists(keys: Set<i32>, from: int)
    ensures
        forall|i: int, j: int|
            0 <= i < j < ascending(keys, from).len() ==> ascending(keys, from)[i] < ascending(
                keys,
                from,
            )[j],
        forall|key: i32| #[trigger]
            ascending(keys, from).contains(key) ==> keys.contains(key) && key >= from,
        forall|key: i32| #[trigger]
            keys.contains(key) && key >= from ==> ascending(keys, from).contains(key),
    decreases i32::MAX + 1 - from,
{
    let listing = ascending(keys, from);
    if from > i32::MAX {
    } else {
        lemma_ascending_lists(keys, from + 1);
        let rest = ascending(keys, from + 1);
        if from >= i32::MIN && keys.contains(from as i32) {
            let least = from as i32;
            assert(listing == seq![least] + rest);
            assert forall|i: int, j: int| 0 <= i < j < listing.len() implies listing[i]
                < listing[j] by {
                let high = rest[j - 1];
                assert(listing[j] == high);
                assert(rest.contains(high));
                assert(high >= from + 1);
                if i > 0 {
                    assert(listing[i] == rest[i - 1]);
                } else {
                    assert(listing[i] == least);
                }
            }
            assert forall|key: i32| #[trigger] listing.contains(key) implies keys.contains(key)
                && key >= from by {
                let i = choose|i: int| 0 <= i < listing.len() && listing[i] == key;
                if i > 0 {
                    assert(rest[i - 1] == key);
                    assert(rest.contains(key));
                }
            }
            assert forall|key: i32| #[trigger] keys.contains(key) && key >= from implies listing.contains(
                key,
            ) by {
                if key == least {
                    assert(listing[0] == key);
                } else {
                    assert(rest.contains(key));
                    let i = choose|i: int| 0 <= i < rest.len() && rest[i] == key;
                    assert(listing[i + 1] == key);
                }
            }
        } else {
            assert(listing == rest);
            assert forall|key: i32| #[trigger] keys.contains(key) && key >= from implies listing.contains(
                key,
            ) by {
                assert(key != from);
            }
        }
    }
}

/// `tape` after the first `m` of the `MultAdd` commands for `keys`: each
/// cell at one of the first `m` keys has taken its delta `count` times.
spec fn partly(tape: Tape, net: Map<i32, i32>, keys: Seq<i32>, m: int, count: int) -> Tape {
    Tape {
        cells: Seq::new(
            tape.cells.len(),
            |at: int|
                if keys.take(m).contains(key_at(tape, at)) {
                    low_byte(tape.cells[at] + count * delta_at(net, key_at(tape, at)))
                } else {
                    tape.cells[at]
                },
        ),
        pointer: tape.pointer,
    }
}

/// The first `m` of the `MultAdd` commands that replace a loop add to each
/// cell they name its delta times the control cell, and leave every other
/// cell as it is.
proof fn lemma_scaled_adds(tape: Tape, net: Map<i32, i32>, keys: Seq<i32>, m: int)
    requires
        tape.cells.len() <= i32::MAX,
        covers(tape, net),
        tape.on_tape(0),
        0 <= m <= keys.len(),
        forall|i: int, j: int| 0 <= i < j < keys.len() ==> keys[i] < keys[j],
        forall|i: int| 0 <= i < keys.len() ==> net.contains_key(#[trigger] keys[i]) && keys[i] != 0,
    ensures
        tape.through(scaled_adds(net, keys).take(m)) == Some(
            partly(tape, net, keys, m, tape.cell(0) as int),
        ),
    decreases m,
{
    let count = tape.cell(0) as int;
    let code = scaled_adds(net, keys);
    if m == 0 {
        assert(code.take(0) =~= Seq::<Cmd>::empty());
        assert(keys.take(0) =~= Seq::<i32>::empty());
        assert(partly(tape, net, keys, 0, count).cells =~= tape.cells);
    } else {
        lemma_scaled_adds(tape, net, keys, m - 1);
        let key = keys[m - 1];
        let command = Cmd::MultAdd(0, key, net[key]);
        assert(code.take(m) =~= code.take(m - 1).push(command));
        lemma_through_push(tape, code.take(m - 1), command);
        let before = partly(tape, net, keys, m - 1, count);
        let goal = partly(tape, net, keys, m, count);
        assert(tape.on_tape(key));
        lemma_key_at(tape, tape.position(0), 0);
        lemma_key_at(tape, tape.position(key), key);
        let head = keys.take(m - 1);
        let all = keys.take(m);
        assert(all =~= head.push(key));
        assert(!head.contains(0)) by {
            if head.contains(0) {
                let i = choose|i: int| 0 <= i < head.len() && head[i] == 0;
                assert(keys[i] == 0);
            }
        }
        assert(!head.contains(key)) by {
            if head.contains(key) {
                let i = choose|i: int| 0 <= i < head.len() && head[i] == key;
                assert(keys[i] < keys[m - 1]);
            }
        }
        assert(before.cell(0) == count);
        assert(before.cell(key) == tape.cell(key));
        let end = before.after(command);
        assert forall|at: int| 0 <= at < tape.cells.len() implies end.cells[at]
            == goal.cells[at] by {
            lemma_key_at(tape, at, key);
            let here = key_at(tape, at);
            if here == key {
                assert(all[m - 1] == key);
            } else {
                if all.contains(here) {
                    let i = choose|i: int| 0 <= i < all.len() && all[i] == here;
                    assert(head[i] == here);
                }
                if head.contains(here) {
                    let i = choose|i: int| 0 <= i < head.len() && head[i] == here;
                    assert(all[i] == here);
                }
            }
        }
        assert(end.cells =~= goal.cells);
    }
}

/// The straight-line code that replaces a loop does what the loop does. On
/// every tape that holds each cell the loop's body touches, the code runs
/// without a fault, the loop runs to its end, and both leave the same tape:
/// every cell has taken its net delta as many times as the control cell
/// counted at the start, which leaves the control cell at zero.
pub proof fn lemma_elimination_keeps_tape(body: Seq<Cmd>, tape: Tape)
    requires
        eliminated(body) is Some,
        tape.cells.len() <= i32::MAX,
        covers(tape, net_deltas(body, body.len())),
    ensures
        tape.through(eliminated(body)->Some_0) is Some,
        ends_on(
            started(tape, seq![Cmd::Loop(body)]),
            tape.through(eliminated(body)->Some_0)->Some_0,
        ),
        forall|scene: Scene|
            scene.tape == tape ==> #[trigger] effect(Cmd::Loop(body), scene, tape.cell(0) as nat)
                == Outcome::Done(scene.on(tape.through(eliminated(body)->Some_0)->Some_0)),
{
    let net = net_deltas(body, body.len());
    let count = tape.cell(0) as int;
    let keys = ascending(net.dom().remove(0), i32::MIN as int);
    let adds = scaled_adds(net, keys);
    let code = adds.push(Cmd::Assign(0, 0));
    assert(eliminated(body)->Some_0 == code);
    assert(net.contains_key(0));
    assert(tape.on_tape(0));
    lemma_ascending_lists(net.dom().remove(0), i32::MIN as int);
    assert forall|i: int| 0 <= i < keys.len() implies net.contains_key(#[trigger] keys[i])
        && keys[i] != 0 by {
        assert(keys.contains(keys[i]));
    }
    lemma_scaled_adds(tape, net, keys, keys.len() as int);
    assert(adds.take(keys.len() as int) =~= adds);
    assert(keys.take(keys.len() as int) =~= keys);
    lemma_through_push(tape, adds, Cmd::Assign(0, 0));
    let before = partly(tape, net, keys, keys.len() as int, count);
    let end = before.after(Cmd::Assign(0, 0));
    let goal = bumped(tape, net, count);
    assert forall|at: int| 0 <= at < tape.cells.len() implies end.cells[at] == goal.cells[at] by {
        lemma_key_at(tape, at, 0);
        let here = key_at(tape, at);
        if here == 0 {
            assert(count * (-1) == -count) by (nonlinear_arith);
        } else if net.contains_key(here) {
            assert(net.dom().remove(0).contains(here));
            assert(keys.contains(here));
        } else {
            assert(!keys.contains(here));
            assert(count * 0 == 0) by (nonlinear_arith);
        }
    }
    assert(end.cells =~= goal.cells);
    assert(tape.through(code) == Some(goal));
    let tapes = |rounds: int| bumped(tape, net, rounds);
    lemma_bumped_zero(tape, net);
    assert forall|i: int| 0 <= i < body.len() implies Tape::plain(#[trigger] body[i]) by {
        assert(body[i] is Add || body[i] is MovePtr);
    }
    assert forall|r: int| 0 <= r <= count implies (#[trigger] tapes(r)).on_tape(0) by {}
    assert forall|r: int| 0 <= r < count implies (#[trigger] tapes(r)).cell(0) != 0 by {
        lemma_control_cell(body, tape, r);
    }
    assert forall|r: int| 0 <= r < count implies (#[trigger] tapes(r)).through(body) == Some(
        tapes(r + 1),
    ) by {
        assert forall|key: i32| net.contains_key(key) implies tapes(r).on_tape(key) by {
            assert(tape.on_tape(key));
        }
        lemma_round_prefix(body, body.len(), tapes(r));
        assert(body.take(body.len() as int) =~= body);
        lemma_bumped_again(tape, net, r);
        assert(bumped(tapes(r), net, 1).moved(0) == tapes(r + 1));
    }
    lemma_control_cell(body, tape, count);
    lemma_loop_by_rounds(body, tapes, count, 0);
    assert forall|scene: Scene| scene.tape == tape implies #[trigger] effect(
        Cmd::Loop(body),
        scene,
        tape.cell(0) as nat,
    ) == Outcome::Done(scene.on(goal)) by {
        lemma_loop_meaning(body, tapes, count, 0, scene);
        assert(scene.on(tapes(0)) == scene);
    }
}

/// A loop whose body is plain code, where the tape after each round is
/// known as in `lemma_loop_by_rounds`: from the tape after `done` rounds the
/// loop ends on the tape after `count`, with one unit of fuel for each round
/// that is left.
proof fn lemma_loop_meaning(
    body: Seq<Cmd>,
    tapes: spec_fn(int) -> Tape,
    count: int,
    done: int,
    scene: Scene,
)
    requires
        forall|i: int| 0 <= i < body.len() ==> Tape::plain(#[trigger] body[i]),
        0 <= done <= count,
        forall|r: int| 0 <= r <= count ==> (#[trigger] tapes(r)).on_tape(0),
        forall|r: int| 0 <= r < count ==> (#[trigger] tapes(r)).cell(0) != 0,
        forall|r: int| 0 <= r < count ==> (#[trigger] tapes(r)).through(body) == Some(tapes(r + 1)),
        tapes(count).cell(0) == 0,
    ensures
        effect(Cmd::Loop(body), scene.on(tapes(done)), (count - done) as nat) == Outcome::Done(
            scene.on(tapes(count)),
        ),
    decreases count - done,
{
    let here = scene.on(tapes(done));
    assert(tapes(done).on_tape(0));
    if done < count {
        let less = (count - done - 1) as nat;
        assert(tapes(done).cell(0) != 0);
        assert(tapes(done).through(body) == Some(tapes(done + 1)));
        lemma_outcome_plain(body, body.len(), here, less);
        assert(body.take(body.len() as int) =~= body);
        assert(here.on(tapes(done + 1)) == scene.on(tapes(done + 1)));
        lemma_loop_meaning(body, tapes, count, done + 1, scene);
    }
}

/// Where the code that replaces a loop runs without a fault, the tape holds
/// the current cell and every cell that the loop's body touches.
pub(crate) proof fn lemma_eliminated_covers(body: Seq<Cmd>, tape: Tape)
    requires
        eliminated(body) is Some,
        tape.through(eliminated(body)->Some_0) is Some,
    ensures
        covers(tape, net_deltas(body, body.len())),
        tape.on_tape(0),
{
    let net = net_deltas(body, body.len());
    let keys = ascending(net.dom().remove(0), i32::MIN as int);
    let adds = scaled_adds(net, keys);
    lemma_through_push(tape, adds, Cmd::Assign(0, 0));
    lemma_adds_on_tape(tape, net, keys, keys.len());
    assert(adds.take(keys.len() as int) =~= adds);
    lemma_ascending_lists(net.dom().remove(0), i32::MIN as int);
    assert forall|key: i32| net.contains_key(key) implies tape.on_tape(key) by {
        if key != 0 {
            assert(net.dom().remove(0).contains(key));
            assert(keys.contains(key));
            let i = choose|i: int| 0 <= i < keys.len() && keys[i] == key;
            assert(tape.on_tape(keys[i]));
        }
    }
}

/// Where the `MultAdd` commands that replace a loop run without a fault on a
/// tape that holds the current cell, all the code that replaces the loop
/// does.
pub(crate) proof fn lemma_eliminated_runs(body: Seq<Cmd>, tape: Tape)
    requires
        eliminated(body) is Some,
        tape.on_tape(0),
        tape.through(eliminated(body)->Some_0.drop_last()) is Some,
    ensures
        tape.through(eliminated(body)->Some_0) is Some,
{
    let net = net_deltas(body, body.len());
    let keys = ascending(net.dom().remove(0), i32::MIN as int);
    let adds = scaled_adds(net, keys);
    assert(adds.push(Cmd::Assign(0, 0)).drop_last() =~= adds);
    lemma_through_push(tape, adds, Cmd::Assign(0, 0));
    lemma_adds_on_tape(tape, net, keys, keys.len());
    assert(adds.take(keys.len() as int) =~= adds);
}

/// Where the `MultAdd` commands for `keys` run without a fault, each of the
/// keys lies on the tape, and the pointer stays where it is.
proof fn lemma_adds_on_tape(tape: Tape, net: Map<i32, i32>, keys: Seq<i32>, m: nat)
    requires
        tape.through(scaled_adds(net, keys)) is Some,
        m <= keys.len(),
    ensures
        tape.through(scaled_adds(net, keys).take(m as int)) is Some,
        tape.through(scaled_adds(net, keys).take(m as int))->Some_0.pointer == tape.pointer,
        tape.through(scaled_adds(net, keys).take(m as int))->Some_0.cells.len() == tape.cells.len(),
        forall|i: int| 0 <= i < m ==> tape.on_tape(#[trigger] keys[i]),
        m > 0 ==> tape.on_tape(0),
    decreases m,
{
    let adds = scaled_adds(net, keys);
    if tape.through(adds.take(m as int)) is None {
        lemma_through_prefix(tape, adds, m as int);
    }
    if m == 0 {
        assert(adds.take(0) =~= Seq::<Cmd>::empty());
    } else {
        lemma_adds_on_tape(tape, net, keys, (m - 1) as nat);
        let command = adds[m - 1];
        assert(adds.take(m as int) =~= adds.take(m - 1).push(command));
        lemma_through_push(tape, adds.take(m - 1), command);
    }
}

/// Where a body without pointer moves runs without a fault, every cell that
/// it names lies on the tape.
pub(crate) proof fn lemma_fits_from_through(body: Seq<Cmd>, tape: Tape, m: nat)
    requires
        forall|i: int| 0 <= i < body.len() ==> Tape::plain(#[trigger] body[i]) && !(body[i] is MovePtr),
        tape.through(body) is Some,
        m <= body.len(),
    ensures
        tape.through(body.take(m as int)) is Some,
        tape.through(body.take(m as int))->Some_0.pointer == tape.pointer,
        tape.through(body.take(m as int))->Some_0.cells.len() == tape.cells.len(),
        forall|i: int| 0 <= i < m ==> !tape.faults(#[trigger] body[i]),
    decreases m,
{
    if tape.through(body.take(m as int)) is None {
        lemma_through_prefix(tape, body, m as int);
    }
    if m == 0 {
        assert(body.take(0) =~= Seq::<Cmd>::empty());
    } else {
        lemma_fits_from_through(body, tape, (m - 1) as nat);
        let command = body[m - 1];
        assert(Tape::plain(command) && !(command is MovePtr));
        assert(body.take(m as int) =~= body.take(m - 1).push(command));
        lemma_through_push(tape, body.take(m - 1), command);
    }
}

/// A loop whose body is plain code, run from the loop's start, where the
/// tape after each round is known: `tapes(r)` is the tape after `r` rounds,
/// each round runs without a fault, the current cell is not zero before
/// each of `count` rounds and is zero after the last. The run ends on
/// `tapes(count)`.
proof fn lemma_loop_by_rounds(body: Seq<Cmd>, tapes: spec_fn(int) -> Tape, count: int, done: int)
    requires
        forall|i: int| 0 <= i < body.len() ==> Tape::plain(#[trigger] body[i]),
        0 <= done <= count,
        forall|r: int| 0 <= r <= count ==> (#[trigger] tapes(r)).on_tape(0),
        forall|r: int| 0 <= r < count ==> (#[trigger] tapes(r)).cell(0) != 0,
        forall|r: int| 0 <= r < count ==> (#[trigger] tapes(r)).through(body) == Some(tapes(r + 1)),
        tapes(count).cell(0) == 0,
    ensures
        done < count ==> ends_on(inside(tapes(done), body, 0), tapes(count)),
        done == 0 ==> ends_on(started(tapes(0), seq![Cmd::Loop(body)]), tapes(count)),
    decreases count - done,
{
    let last = State { tape: tapes(count), levels: Seq::<Level>::empty() };
    let len = body.len();
    assert(last.run(0) == last);
    if done < count {
        let start = inside(tapes(done), body, 0);
        let then = tapes(done + 1);
        let end = inside(then, body, len as int);
        assert(tapes(done).through(body) == Some(then));
        lemma_run_body(tapes(done), seq![around(body, 1)], body, true, 0);
        assert(body.take(0) =~= Seq::<Cmd>::empty());
        assert(seq![around(body, 1)].push(Level { code: body, next: 0, repeat: true })
            =~= start.levels);
        assert(seq![around(body, 1)].push(Level { code: body, next: len as int, repeat: true })
            =~= end.levels);
        assert(start.run(len) == end);
        assert(then.on_tape(0));
        assert(end.levels.last() == Level { code: body, next: len as int, repeat: true });
        assert(end.levels.drop_last() =~= seq![around(body, 1)]);
        assert(end.pending() is Silent);
        if done + 1 < count {
            let again = inside(then, body, 0);
            assert(end.stepped().levels =~= again.levels);
            assert(end.stepped() == again);
            assert(again.run(0) == again);
            assert(end.run(1) == again);
            lemma_loop_by_rounds(body, tapes, count, done + 1);
            let rest = choose|budget: nat| again.run(budget) == last;
            lemma_run_add(end, 1, rest);
            lemma_run_add(start, len, 1 + rest);
            assert(start.run(len + (1 + rest)) == last);
        } else {
            let out = State { tape: then, levels: seq![around(body, 1)] };
            assert(end.stepped().levels =~= out.levels);
            assert(end.stepped() == out);
            assert(out.levels.last() == around(body, 1));
            assert(out.levels.drop_last() =~= Seq::<Level>::empty());
            assert(out.pending() is Silent);
            assert(out.stepped().levels =~= Seq::<Level>::empty());
            assert(out.stepped() == last);
            assert(out.run(1) == last);
            assert(end.run(2) == last);
            lemma_run_add(start, len, 2);
            assert(start.run(len + 2) == last);
        }
    }
    if done == 0 {
        let first = started(tapes(0), seq![Cmd::Loop(body)]);
        assert(first.levels.last() == around(body, 0));
        assert(first.levels.drop_last() =~= Seq::<Level>::empty());
        assert(tapes(0).on_tape(0));
        assert(first.pending() is Silent);
        if count == 0 {
            let out = State { tape: tapes(0), levels: seq![around(body, 1)] };
            assert(first.stepped().levels =~= out.levels);
            assert(first.stepped() == out);
            assert(out.levels.last() == around(body, 1));
            assert(out.levels.drop_last() =~= Seq::<Level>::empty());
            assert(out.pending() is Silent);
            assert(out.stepped().levels =~= Seq::<Level>::empty());
            assert(out.stepped() == last);
            assert(out.run(1) == last);
            assert(first.run(2) == last);
        } else {
            let start = inside(tapes(0), body, 0);
            assert(first.stepped().levels =~= start.levels);
            assert(first.stepped() == start);
            let rest = choose|budget: nat| start.run(budget) == last;
            assert(first.run(1 + rest) == start.run(rest));
        }
    }
}

/// Whether `body` adds to no cell but the control cell, and multiplies from
/// no cell that is the control cell.
spec fn guarded(body: Seq<Cmd>) -> bool {
    forall|i: int|
        0 <= i < body.len() ==> match #[trigger] body[i] {
            Cmd::Add(offset, _) => offset == 0,
            Cmd::MultAdd(src, _, _) => src != 0,
            Cmd::MultAssign(src, _, _) => src != 0,
            _ => true,
        }
}

/// Whether every cell that a command of `body` names lies on `tape`.
pub open spec fn fits(tape: Tape, body: Seq<Cmd>) -> bool {
    forall|i: int| 0 <= i < body.len() ==> !tape.faults(#[trigger] body[i])
}

/// What the first `n` commands of a guarded body leave in the cells they
/// store to, whatever the cells held before: the value of an `Assign`, and
/// zero for a `MultAssign`, whose source holds zero.
spec fn fixed(body: Seq<Cmd>, n: nat) -> Map<i32, u8>
    decreases n,
{
    if n == 0 || n > body.len() {
        Map::empty()
    } else {
        let before = fixed(body, (n - 1) as nat);
        match body[n - 1] {
            Cmd::Assign(offset, value) => before.insert(offset, low_byte(value as int)),
            Cmd::MultAssign(_, dst, _) => before.insert(dst, 0),
            _ => before,
        }
    }
}

/// `tape` with `delta` added to the current cell, and with the values of
/// `stored` in the cells that it names.
spec fn laid(tape: Tape, stored: Map<i32, u8>, delta: int) -> Tape {
    Tape {
        cells: Seq::new(
            tape.cells.len(),
            |at: int|
                if key_at(tape, at) == 0 {
                    low_byte(tape.cells[at] + delta)
                } else if stored.contains_key(key_at(tape, at)) {
                    stored[key_at(tape, at)]
                } else {
                    tape.cells[at]
                },
        ),
        pointer: tape.pointer,
    }
}

/// Whether `body` meets the conditions under which its loop degenerates.
spec fn degenerates(body: Seq<Cmd>) -> bool {
    &&& forall|i: int| 0 <= i < body.len() ==> degenerable(#[trigger] body[i])
    &&& control_delta(body, body.len()) == -1
    &&& forall|i: int|
        0 <= i < body.len() ==> !reads_outside(#[trigger] body[i], zeroed(body, i as nat))
}

/// What `stored` becomes with `command`: an `Assign` stores its value, a
/// `MultAssign` stores zero, and any other command stores nothing.
spec fn stored_with(stored: Map<i32, u8>, command: Cmd) -> Map<i32, u8> {
    match command {
        Cmd::Assign(offset, value) => stored.insert(offset, low_byte(value as int)),
        Cmd::MultAssign(_, dst, _) => stored.insert(dst, 0),
        _ => stored,
    }
}

/// What the sum of the control cell's deltas becomes with `command`.
spec fn sum_with(sum: i32, command: Cmd) -> i32 {
    match command {
        Cmd::Add(offset, delta) if offset == 0 => sum.wrapping_add(delta),
        _ => sum,
    }
}

/// One command of a guarded body, run where the commands before it have
/// added `sum` to the control cell and left `stored` in the cells they
/// stored to: it adds to the control cell or stores, as `sum_with` and
/// `stored_with` say, and changes nothing else.
proof fn lemma_guarded_step(tape: Tape, stored: Map<i32, u8>, sum: i32, command: Cmd)
    requires
        tape.cells.len() <= i32::MAX,
        degenerable(command),
        !tape.faults(command),
        !stored.contains_key(0),
        command matches Cmd::Add(offset, _) ==> offset == 0,
        command matches Cmd::MultAdd(src, _, _) ==> src != 0 && stored.contains_key(src)
            && stored[src] == 0,
        command matches Cmd::MultAssign(src, _, _) ==> src != 0 && stored.contains_key(src)
            && stored[src] == 0,
    ensures
        !laid(tape, stored, sum as int).faults(command),
        laid(tape, stored, sum as int).after(command) == laid(
            tape,
            stored_with(stored, command),
            sum_with(sum, command) as int,
        ),
{
    let start = laid(tape, stored, sum as int);
    let end = start.after(command);
    let goal = laid(tape, stored_with(stored, command), sum_with(sum, command) as int);
    match command {
        Cmd::Add(offset, delta) => {
            assert forall|at: int| 0 <= at < tape.cells.len() implies end.cells[at]
                == goal.cells[at] by {
                lemma_key_at(tape, at, 0);
                if key_at(tape, at) == 0 {
                    lemma_wrapping_add_low_byte(tape.cells[at] as int, sum, delta);
                }
            }
        },
        Cmd::Assign(offset, value) => {
            assert forall|at: int| 0 <= at < tape.cells.len() implies end.cells[at]
                == goal.cells[at] by {
                lemma_key_at(tape, at, offset);
            }
        },
        Cmd::MultAdd(src, dst, factor) => {
            lemma_key_at(tape, tape.position(src), src);
            assert(start.cell(src) == 0);
            assert(0 * factor == 0) by (nonlinear_arith);
            assert forall|at: int| 0 <= at < tape.cells.len() implies end.cells[at]
                == goal.cells[at] by {
                lemma_key_at(tape, at, dst);
            }
        },
        Cmd::MultAssign(src, dst, factor) => {
            lemma_key_at(tape, tape.position(src), src);
            assert(start.cell(src) == 0);
            assert(0 * factor == 0) by (nonlinear_arith);
            assert forall|at: int| 0 <= at < tape.cells.len() implies end.cells[at]
                == goal.cells[at] by {
                lemma_key_at(tape, at, dst);
            }
        },
        _ => {},
    }
    assert(end.cells =~= goal.cells);
}

/// What the first `n` commands of a body that degenerates have stored:
/// nothing in the control cell, and zero in every other cell that is known
/// to hold zero.
proof fn lemma_stored_zero(body: Seq<Cmd>, n: nat)
    requires
        forall|i: int| 0 <= i < body.len() ==> degenerable(#[trigger] body[i]),
        guarded(body),
        n <= body.len(),
    ensures
        !fixed(body, n).contains_key(0),
        forall|key: i32|
            zeroed(body, n).contains(key) && key != 0 ==> fixed(body, n).contains_key(key) && fixed(
                body,
                n,
            )[key] == 0,
    decreases n,
{
    if n > 0 {
        let command = body[n - 1];
        let zero = zeroed(body, (n - 1) as nat);
        let stored = fixed(body, (n - 1) as nat);
        lemma_stored_zero(body, (n - 1) as nat);
        assert(degenerable(command));
        assert(fixed(body, n) == stored_with(stored, command));
        assert forall|key: i32| zeroed(body, n).contains(key) && key != 0 implies fixed(
            body,
            n,
        ).contains_key(key) && fixed(body, n)[key] == 0 by {
            match command {
                Cmd::Assign(offset, value) => {
                    if key != offset {
                        assert(zero.contains(key));
                    }
                },
                Cmd::MultAssign(_, dst, _) => {
                    if key != dst {
                        assert(zero.contains(key));
                    }
                },
                _ => {
                    assert(zero.contains(key));
                },
            }
        }
    }
}

/// Command `n - 1` of a guarded body that degenerates is one that
/// `lemma_guarded_step` speaks of, after what the commands before it have
/// stored.
proof fn lemma_guarded_ready(body: Seq<Cmd>, n: nat)
    requires
        degenerates(body),
        guarded(body),
        0 < n <= body.len(),
    ensures
        degenerable(body[n - 1]),
        !fixed(body, (n - 1) as nat).contains_key(0),
        body[n - 1] matches Cmd::Add(offset, _) ==> offset == 0,
        body[n - 1] matches Cmd::MultAdd(src, _, _) ==> src != 0 && fixed(
            body,
            (n - 1) as nat,
        ).contains_key(src) && fixed(body, (n - 1) as nat)[src] == 0,
        body[n - 1] matches Cmd::MultAssign(src, _, _) ==> src != 0 && fixed(
            body,
            (n - 1) as nat,
        ).contains_key(src) && fixed(body, (n - 1) as nat)[src] == 0,
        fixed(body, n) == stored_with(fixed(body, (n - 1) as nat), body[n - 1]),
        control_delta(body, n) == sum_with(control_delta(body, (n - 1) as nat), body[n - 1]),
{
    let command = body[n - 1];
    lemma_stored_zero(body, (n - 1) as nat);
    assert(degenerable(command));
    assert(!reads_outside(command, zeroed(body, (n - 1) as nat)));
}

/// One more command of a guarded body that degenerates, run after the
/// commands before it have done what `lemma_guarded_prefix` says.
proof fn lemma_guarded_next(body: Seq<Cmd>, n: nat, tape: Tape)
    requires
        degenerates(body),
        guarded(body),
        tape.cells.len() <= i32::MAX,
        0 < n <= body.len(),
        !tape.faults(body[n - 1]),
        tape.through(body.take(n - 1)) == Some(
            laid(tape, fixed(body, (n - 1) as nat), control_delta(body, (n - 1) as nat) as int),
        ),
    ensures
        tape.through(body.take(n as int)) == Some(
            laid(tape, fixed(body, n), control_delta(body, n) as int),
        ),
{
    let command = body[n - 1];
    let stored = fixed(body, (n - 1) as nat);
    let sum = control_delta(body, (n - 1) as nat);
    let now = laid(tape, stored, sum as int);
    lemma_guarded_ready(body, n);
    lemma_guarded_step(tape, stored, sum, command);
    assert(!now.faults(command));
    assert(now.after(command) == laid(tape, fixed(body, n), control_delta(body, n) as int));
    lemma_through_push(tape, body.take(n - 1), command);
    assert(body.take(n as int) =~= body.take(n - 1).push(command));
}

/// The first `n` commands of a guarded body that degenerates, run on a tape
/// that holds every cell they name: the control cell takes what they add to
/// it, and every cell they store to holds what they leave there.
proof fn lemma_guarded_prefix(body: Seq<Cmd>, n: nat, tape: Tape)
    requires
        degenerates(body),
        guarded(body),
        fits(tape, body),
        tape.cells.len() <= i32::MAX,
        n <= body.len(),
    ensures
        tape.through(body.take(n as int)) == Some(
            laid(tape, fixed(body, n), control_delta(body, n) as int),
        ),
    decreases n,
{
    if n == 0 {
        assert(body.take(0) =~= Seq::<Cmd>::empty());
        assert(laid(tape, fixed(body, 0), 0).cells =~= tape.cells);
    } else {
        lemma_guarded_prefix(body, (n - 1) as nat, tape);
        assert(!tape.faults(body[n - 1]));
        lemma_guarded_next(body, n, tape);
    }
}

/// The tape after `rounds` rounds of a guarded body that degenerates.
spec fn settled_after(tape: Tape, body: Seq<Cmd>, rounds: int) -> Tape {
    if rounds <= 0 {
        tape
    } else {
        laid(tape, fixed(body, body.len()), -rounds)
    }
}

/// One round of a guarded body that degenerates takes the tape after
/// `rounds` rounds to the tape after one more.
proof fn lemma_guarded_round(body: Seq<Cmd>, tape: Tape, rounds: int)
    requires
        degenerates(body),
        guarded(body),
        fits(tape, body),
        tape.on_tape(0),
        tape.cells.len() <= i32::MAX,
        0 <= rounds,
    ensures
        settled_after(tape, body, rounds).through(body) == Some(
            settled_after(tape, body, rounds + 1),
        ),
{
    let stored = fixed(body, body.len());
    let now = settled_after(tape, body, rounds);
    let then = settled_after(tape, body, rounds + 1);
    assert(fits(now, body)) by {
        assert forall|i: int| 0 <= i < body.len() implies !now.faults(#[trigger] body[i]) by {
            assert(!tape.faults(body[i]));
        }
    }
    lemma_guarded_prefix(body, body.len(), now);
    assert(body.take(body.len() as int) =~= body);
    let next = laid(now, stored, -1);
    assert forall|at: int| 0 <= at < tape.cells.len() implies next.cells[at] == then.cells[at] by {
        if key_at(tape, at) == 0 && rounds > 0 {
            assert(((tape.cells[at] - rounds) % 256 - 1) % 256 == (tape.cells[at] - (rounds + 1))
                % 256) by (nonlinear_arith);
        }
    }
    assert(next.cells =~= then.cells);
}

/// A conditional whose body is plain code that runs without a fault, run
/// from its start: the run ends on the tape that the body leaves where the
/// current cell is not zero, and on the tape as it is where it is zero.
proof fn lemma_conditional_runs(body: Seq<Cmd>, tape: Tape)
    requires
        forall|i: int| 0 <= i < body.len() ==> Tape::plain(#[trigger] body[i]),
        tape.on_tape(0),
        tape.through(body) is Some,
    ensures
        ends_on(
            started(tape, seq![Cmd::If(body)]),
            if tape.cell(0) != 0 {
                tape.through(body)->Some_0
            } else {
                tape
            },
        ),
{
    let first = started(tape, seq![Cmd::If(body)]);
    let before = Level { code: seq![Cmd::If(body)], next: 0, repeat: false };
    let after = Level { code: seq![Cmd::If(body)], next: 1, repeat: false };
    let len = body.len();
    assert(first.levels.last() == before);
    assert(first.levels.drop_last() =~= Seq::<Level>::empty());
    assert(first.pending() is Silent);
    if tape.cell(0) != 0 {
        let then = tape.through(body)->Some_0;
        let last = State { tape: then, levels: Seq::<Level>::empty() };
        let start = State { tape, levels: seq![after, Level { code: body, next: 0, repeat: false }] };
        let end = State {
            tape: then,
            levels: seq![after, Level { code: body, next: len as int, repeat: false }],
        };
        let out = State { tape: then, levels: seq![after] };
        assert(first.stepped().levels =~= start.levels);
        assert(first.stepped() == start);
        lemma_run_body(tape, seq![after], body, false, 0);
        assert(body.take(0) =~= Seq::<Cmd>::empty());
        assert(seq![after].push(Level { code: body, next: 0, repeat: false }) =~= start.levels);
        assert(seq![after].push(Level { code: body, next: len as int, repeat: false })
            =~= end.levels);
        assert(start.run(len) == end);
        assert(end.levels.last() == Level { code: body, next: len as int, repeat: false });
        assert(end.levels.drop_last() =~= seq![after]);
        assert(end.pending() is Silent);
        assert(end.stepped().levels =~= out.levels);
        assert(end.stepped() == out);
        assert(out.levels.last() == after);
        assert(out.levels.drop_last() =~= Seq::<Level>::empty());
        assert(out.pending() is Silent);
        assert(out.stepped().levels =~= Seq::<Level>::empty());
        assert(out.stepped() == last);
        assert(last.run(0) == last);
        assert(out.run(1) == last);
        assert(end.run(2) == last);
        lemma_run_add(start, len, 2);
        assert(first.run(1 + (len + 2)) == start.run(len + 2));
    } else {
        let last = State { tape, levels: Seq::<Level>::empty() };
        let out = State { tape, levels: seq![after] };
        assert(first.stepped().levels =~= out.levels);
        assert(first.stepped() == out);
        assert(out.levels.last() == after);
        assert(out.levels.drop_last() =~= Seq::<Level>::empty());
        assert(out.pending() is Silent);
        assert(out.stepped().levels =~= Seq::<Level>::empty());
        assert(out.stepped() == last);
        assert(last.run(0) == last);
        assert(out.run(1) == last);
        assert(first.run(2) == last);
    }
}

/// The conditional that replaces a loop does what the loop does. On every
/// tape that holds the current cell and each cell the body names, the loop
/// runs to its end, the conditional runs to its end, and both leave the
/// same tape.
pub proof fn lemma_degeneration_keeps_tape(body: Seq<Cmd>, tape: Tape)
    requires
        degenerated(body) is Some,
        fits(tape, body),
        tape.on_tape(0),
        tape.cells.len() <= i32::MAX,
    ensures
        exists|end: Tape|
            ends_on(started(tape, seq![Cmd::Loop(body)]), end) && #[trigger] ends_on(
                started(tape, seq![degenerated(body)->Some_0]),
                end,
            ),
        tape.through(body.push(Cmd::Assign(0, 0))) is Some,
        forall|scene: Scene|
            scene.tape == tape ==> #[trigger] effect(Cmd::Loop(body), scene, tape.cell(0) as nat)
                == Outcome::Done(
                scene.on(
                    if tape.cell(0) != 0 {
                        tape.through(body.push(Cmd::Assign(0, 0)))->Some_0
                    } else {
                        tape
                    },
                ),
            ),
{
    let count = tape.cell(0) as int;
    let inner = body.push(Cmd::Assign(0, 0));
    let stored = fixed(body, body.len());
    let tapes = |rounds: int| settled_after(tape, body, rounds);
    let end = tapes(count);
    assert(degenerated(body)->Some_0 == Cmd::If(inner));
    assert forall|i: int| 0 <= i < body.len() implies Tape::plain(#[trigger] body[i]) by {
        assert(degenerable(body[i]));
    }
    assert(guarded(body)) by {
        assert forall|i: int| 0 <= i < body.len() implies match #[trigger] body[i] {
            Cmd::Add(offset, _) => offset == 0,
            Cmd::MultAdd(src, _, _) => src != 0,
            Cmd::MultAssign(src, _, _) => src != 0,
            _ => true,
        } by {
            assert(degenerable(body[i]));
        }
    }
    assert forall|i: int| 0 <= i < inner.len() implies Tape::plain(#[trigger] inner[i]) by {
        if i < body.len() {
            assert(inner[i] == body[i]);
        }
    }
    lemma_key_at(tape, tape.position(0), 0);
    assert forall|r: int| 0 <= r <= count implies (#[trigger] tapes(r)).on_tape(0) by {}
    assert forall|r: int| 0 <= r < count implies (#[trigger] tapes(r)).cell(0) != 0 by {}
    assert forall|r: int| 0 <= r < count implies (#[trigger] tapes(r)).through(body) == Some(
        tapes(r + 1),
    ) by {
        lemma_guarded_round(body, tape, r);
    }
    lemma_loop_by_rounds(body, tapes, count, 0);
    lemma_guarded_round(body, tape, 0);
    lemma_through_push(tape, body, Cmd::Assign(0, 0));
    lemma_conditional_runs(inner, tape);
    if count != 0 {
        let once = tapes(1).after(Cmd::Assign(0, 0));
        assert(once.cells =~= end.cells);
    }
    assert forall|scene: Scene| scene.tape == tape implies #[trigger] effect(
        Cmd::Loop(body),
        scene,
        tape.cell(0) as nat,
    ) == Outcome::Done(scene.on(end)) by {
        lemma_loop_meaning(body, tapes, count, 0, scene);
        assert(scene.on(tapes(0)) == scene);
    }
}

} // verus!
