//! Three passes of the optimiser over a parsed program reach a program that
//! a further pass leaves as it is.
//!
//! The proof follows the passes. The first pass turns the loops that can be
//! eliminated into multiplications and makes no conditional: `first_one`
//! says what it gives. The second pass merges what the first has brought
//! side by side, makes the conditionals, and can eliminate no loop that the
//! first has kept: `second_one` and `level` say what it gives. The third
//! pass changes nothing but the bodies of those conditionals, and what it
//! gives is stable.
use vstd::prelude::*;
use crate::command::Cmd;
use crate::compiler::compiled;
use crate::laws::{
    lemma_stable_is_fixed, lemma_wrapping_add_associative, stable, stable_at, stable_upto,
};
use crate::loop_laws::lemma_ascending_lists;
use crate::optimizer::{
    absorbed, absorbs, ascending, control_delta, degenerable, degenerated, delta_at, drift,
    eliminated, emit_add, emit_assign, emit_mult_add, flushed, net_deltas, only_adds_and_moves,
    optimized, reduced, step, walked, writes, Pass,
};
use crate::parser::{parsed, scan, simple, Scanned};

verus! {

/// What the first `n` commands of `a` add to the control cell depends on
/// those commands alone.
proof fn lemma_control_prefix(a: Seq<Cmd>, b: Seq<Cmd>, n: nat)
    requires
        n <= a.len(),
        n <= b.len(),
        forall|i: int| 0 <= i < n ==> a[i] == b[i],
    ensures
        control_delta(a, n) == control_delta(b, n),
    decreases n,
{
    if n > 0 {
        lemma_control_prefix(a, b, (n - 1) as nat);
    }
}

/// What code adds to the control cell with one more command at its end.
proof fn lemma_control_push(code: Seq<Cmd>, last: Cmd)
    ensures
        control_delta(code.push(last), code.len() + 1) == match last {
            Cmd::Add(offset, delta) if offset == 0 => control_delta(code, code.len()).wrapping_add(
                delta,
            ),
            _ => control_delta(code, code.len()),
        },
{
    lemma_control_prefix(code.push(last), code, code.len());
}

/// In code without pointer moves, the net delta of the control cell is what
/// the code adds to it, and the drift is zero.
proof fn lemma_still_code(code: Seq<Cmd>, n: nat)
    requires
        n <= code.len(),
        forall|i: int| 0 <= i < n ==> !(#[trigger] code[i] is MovePtr),
    ensures
        drift(code, n) == 0,
        delta_at(net_deltas(code, n), 0) == control_delta(code, n),
    decreases n,
{
    if n > 0 {
        lemma_still_code(code, (n - 1) as nat);
        assert(!(code[n - 1] is MovePtr));
    }
}

/// The walk over code that only adds and moves: it has emitted `Add`
/// commands only, they add to the control cell what the code walked over
/// adds to it in all, and the pending move is the drift of that code.
proof fn lemma_walk_adds(code: Seq<Cmd>, n: nat)
    requires
        only_adds_and_moves(code),
        n <= code.len(),
    ensures
        forall|i: int| 0 <= i < walked(code, n).out.len() ==> #[trigger] walked(code, n).out[i] is Add,
        walked(code, n).bp == drift(code, n),
        control_delta(walked(code, n).out, walked(code, n).out.len()) == delta_at(
            net_deltas(code, n),
            0,
        ),
    decreases n,
{
    if n > 0 {
        let before = walked(code, (n - 1) as nat);
        let command = code[n - 1];
        let now = walked(code, n);
        lemma_walk_adds(code, (n - 1) as nat);
        assert(now == step(before, command));
        assert(command is Add || command is MovePtr);
        match command {
            Cmd::Add(offset, delta) => {
                let at = before.bp.wrapping_add(offset);
                if before.out.len() > 0 && absorbs(before.out.last(), at) {
                    let head = before.out.drop_last();
                    let last = before.out.last();
                    assert(last is Add);
                    assert(before.out =~= head.push(last));
                    lemma_control_push(head, last);
                    lemma_control_push(head, absorbed(last, delta));
                    lemma_wrapping_add_associative(
                        control_delta(head, head.len()),
                        last->Add_1,
                        delta,
                    );
                    assert forall|i: int| 0 <= i < now.out.len() implies #[trigger] now.out[i] is Add by {
                        if i < head.len() {
                            assert(now.out[i] == before.out[i]);
                        }
                    }
                } else {
                    lemma_control_push(before.out, Cmd::Add(at, delta));
                    assert forall|i: int| 0 <= i < now.out.len() implies #[trigger] now.out[i] is Add by {
                        if i < before.out.len() {
                            assert(now.out[i] == before.out[i]);
                        }
                    }
                }
            },
            _ => {},
        }
    }
}

/// Whether some command among the first `n` of `code` is neither an `Add`
/// nor a `MovePtr`.
spec fn has_other(code: Seq<Cmd>, n: nat) -> bool {
    exists|i: int| 0 <= i < n && i < code.len() && !(#[trigger] code[i] is Add) && !(code[i] is MovePtr)
}

/// A step of the walk after code that holds a command that is neither an
/// `Add` nor a `MovePtr`, or over such a command, emits code that holds one.
proof fn lemma_step_other(pass: Pass, command: Cmd)
    requires
        has_other(pass.out, pass.out.len()) || (!(command is Add) && !(command is MovePtr)),
    ensures
        has_other(step(pass, command).out, step(pass, command).out.len()),
{
    let out = step(pass, command).out;
    if has_other(pass.out, pass.out.len()) {
        let i = choose|i: int|
            0 <= i < pass.out.len() && !(#[trigger] pass.out[i] is Add) && !(pass.out[i] is MovePtr);
        if i < pass.out.len() - 1 {
            assert(out[i] == pass.out[i]);
            assert(!(out[i] is Add) && !(out[i] is MovePtr));
        } else {
            assert(!(out[i] is Add) && !(out[i] is MovePtr));
        }
    } else {
        let j = out.len() - 1;
        assert(!(out[j] is Add) && !(out[j] is MovePtr));
    }
}

/// The walk over code that holds a command that is neither an `Add` nor a
/// `MovePtr` emits code that holds one.
proof fn lemma_walk_other(code: Seq<Cmd>, n: nat)
    requires
        n <= code.len(),
        has_other(code, n),
    ensures
        has_other(walked(code, n).out, walked(code, n).out.len()),
    decreases n,
{
    let before = walked(code, (n - 1) as nat);
    let command = code[n - 1];
    assert(walked(code, n) == step(before, command));
    let i = choose|i: int| 0 <= i < n && i < code.len() && !(#[trigger] code[i] is Add) && !(code[i] is MovePtr);
    if i < n - 1 {
        assert(has_other(code, (n - 1) as nat));
        lemma_walk_other(code, (n - 1) as nat);
    }
    lemma_step_other(before, command);
}

/// The drift of the first `n` commands depends on those commands alone.
proof fn lemma_drift_prefix(a: Seq<Cmd>, b: Seq<Cmd>, n: nat)
    requires
        n <= a.len(),
        n <= b.len(),
        forall|i: int| 0 <= i < n ==> a[i] == b[i],
    ensures
        drift(a, n) == drift(b, n),
    decreases n,
{
    if n > 0 {
        lemma_drift_prefix(a, b, (n - 1) as nat);
    }
}

/// A loop that is eliminated after a pass over its body is eliminated before
/// it: a pass makes no loop one that can be eliminated.
pub proof fn lemma_eliminated_back(body: Seq<Cmd>)
    requires
        eliminated(optimized(body)) is Some,
    ensures
        eliminated(body) is Some,
{
    let end = walked(body, body.len());
    let after = optimized(body);
    if has_other(body, body.len()) {
        lemma_walk_other(body, body.len());
        let i = choose|i: int|
            0 <= i < end.out.len() && !(#[trigger] end.out[i] is Add) && !(end.out[i] is MovePtr);
        assert(after[i] == end.out[i]);
        assert(after[i] is Add || after[i] is MovePtr);
    }
    assert(only_adds_and_moves(body)) by {
        assert forall|i: int| 0 <= i < body.len() implies (#[trigger] body[i] is Add)
            || body[i] is MovePtr by {
            if !(body[i] is Add) && !(body[i] is MovePtr) {
                assert(has_other(body, body.len()));
            }
        }
    }
    lemma_walk_adds(body, body.len());
    assert forall|i: int| 0 <= i < end.out.len() implies !(#[trigger] end.out[i] is MovePtr) by {
        assert(end.out[i] is Add);
    }
    lemma_still_code(end.out, end.out.len());
    if end.bp != 0 {
        lemma_drift_prefix(after, end.out, end.out.len());
        assert(drift(after, after.len()) == drift(after, end.out.len()).wrapping_add(end.bp));
    }
}

/// Whether `next` is a command that may follow a multiplication from the
/// cell at `src`: another `MultAdd` from that cell, or a store to it.
pub open spec fn follows(src: i32, next: Cmd) -> bool {
    match next {
        Cmd::MultAdd(from, _, _) => from == src,
        Cmd::Assign(offset, _) => offset == src,
        Cmd::MultAssign(_, dst, _) => dst == src,
        _ => false,
    }
}

/// Whether command `i` of `code`, where it multiplies, multiplies from one
/// cell onto another and is followed by a command that may follow it.
pub open spec fn tidy_at(code: Seq<Cmd>, i: int) -> bool {
    match code[i] {
        Cmd::MultAdd(src, dst, _) => src != dst && i + 1 < code.len() && follows(src, code[i + 1]),
        Cmd::MultAssign(src, dst, _) => src != dst && i + 1 < code.len() && follows(
            src,
            code[i + 1],
        ),
        _ => true,
    }
}

/// Whether every multiplication in `code`, bodies left aside, is tidy.
pub open spec fn tidy(code: Seq<Cmd>) -> bool {
    forall|i: int| 0 <= i < code.len() ==> tidy_at(code, i)
}

/// Whether `command` is as the parser gives it: no `Assign`, `MultAdd`,
/// `MultAssign` or `If`, and none in a body.
pub open spec fn raw_one(command: Cmd) -> bool
    decreases command, 0nat,
{
    match command {
        Cmd::Add(_, _) => true,
        Cmd::MovePtr(_) => true,
        Cmd::Input(_) => true,
        Cmd::Output(_) => true,
        Cmd::Loop(body) => raw_upto(body, body.len()),
        _ => false,
    }
}

/// Whether each of the first `n` commands of `code` is as the parser gives
/// it.
pub open spec fn raw_upto(code: Seq<Cmd>, n: nat) -> bool
    decreases code, n + 1,
{
    n == 0 || n > code.len() || (raw_upto(code, (n - 1) as nat) && raw_one(code[n - 1]))
}

/// Code is raw up to a command exactly when each command before it is.
proof fn lemma_raw_each(code: Seq<Cmd>, n: nat)
    requires
        n <= code.len(),
    ensures
        raw_upto(code, n) <==> forall|i: int| 0 <= i < n ==> raw_one(#[trigger] code[i]),
    decreases n,
{
    if n > 0 {
        lemma_raw_each(code, (n - 1) as nat);
        if raw_upto(code, n) {
            assert forall|i: int| 0 <= i < n implies raw_one(#[trigger] code[i]) by {}
        }
    }
}

/// Whether `command` is as the first pass gives it: every `Assign` is to
/// the current cell and every `MultAdd` from it, there is no `MultAssign`
/// and no `If`, and every loop has a body of that kind, tidy, that cannot be
/// eliminated.
pub open spec fn first_one(command: Cmd) -> bool
    decreases command, 0nat,
{
    match command {
        Cmd::Assign(offset, _) => offset == 0,
        Cmd::MultAdd(src, _, _) => src == 0,
        Cmd::MultAssign(_, _, _) => false,
        Cmd::If(_) => false,
        Cmd::Loop(body) => first_upto(body, body.len()) && tidy(body) && eliminated(body) is None,
        _ => true,
    }
}

/// Whether each of the first `n` commands of `code` is as the first pass
/// gives it.
pub open spec fn first_upto(code: Seq<Cmd>, n: nat) -> bool
    decreases code, n + 1,
{
    n == 0 || n > code.len() || (first_upto(code, (n - 1) as nat) && first_one(code[n - 1]))
}

/// Code is as the first pass gives it up to a command exactly when each
/// command before it is.
proof fn lemma_first_each(code: Seq<Cmd>, n: nat)
    requires
        n <= code.len(),
    ensures
        first_upto(code, n) <==> forall|i: int| 0 <= i < n ==> first_one(#[trigger] code[i]),
    decreases n,
{
    if n > 0 {
        lemma_first_each(code, (n - 1) as nat);
        if first_upto(code, n) {
            assert forall|i: int| 0 <= i < n implies first_one(#[trigger] code[i]) by {}
        }
    }
}

/// Code as the first pass gives it degenerates only where it can be
/// eliminated: the first pass makes no conditional.
proof fn lemma_first_no_conditional(code: Seq<Cmd>)
    requires
        forall|i: int| 0 <= i < code.len() ==> first_one(#[trigger] code[i]),
        degenerated(code) is Some,
    ensures
        eliminated(code) is Some,
{
    assert forall|i: int| 0 <= i < code.len() implies (#[trigger] code[i] is Add) by {
        assert(degenerable(code[i]));
        assert(first_one(code[i]));
    }
    assert forall|i: int| 0 <= i < code.len() implies !(#[trigger] code[i] is MovePtr) by {
        assert(code[i] is Add);
    }
    lemma_still_code(code, code.len());
}

/// What the walk of the first pass has emitted: commands as the first pass
/// gives them, each of them tidy.
spec fn first_out(out: Seq<Cmd>) -> bool {
    &&& forall|i: int| 0 <= i < out.len() ==> first_one(#[trigger] out[i])
    &&& forall|i: int| 0 <= i < out.len() ==> tidy_at(out, i)
}

/// The step of the first pass over a raw command, after code as the first
/// pass emits it, where the pass over the body of a loop gives code of that
/// kind.
proof fn lemma_first_step(pass: Pass, command: Cmd)
    requires
        first_out(pass.out),
        raw_one(command),
        command matches Cmd::Loop(body) ==> first_out(optimized(body)),
    ensures
        first_out(step(pass, command).out),
{
    let out = step(pass, command).out;
    match command {
        Cmd::Loop(body) => {
            let inner = optimized(body);
            let head = flushed(pass.out, pass.bp);
            let tail = reduced(inner);
            if degenerated(inner) is Some {
                lemma_first_no_conditional(inner);
            }
            lemma_first_each(inner, inner.len());
            match eliminated(inner) {
                Some(code) => {
                    let net = net_deltas(inner, inner.len());
                    let keys = ascending(net.dom().remove(0), i32::MIN as int);
                    lemma_ascending_lists(net.dom().remove(0), i32::MIN as int);
                    assert forall|j: int| 0 <= j < tail.len() implies first_one(#[trigger] tail[j])
                        && (j < tail.len() - 1 ==> tail[j] is MultAdd && tail[j]->MultAdd_0 == 0
                        && tail[j]->MultAdd_1 != 0) by {
                        if j < keys.len() {
                            assert(keys.contains(keys[j]));
                            assert(tail[j] == Cmd::MultAdd(0, keys[j], net[keys[j]]));
                        }
                    }
                    assert(tail.last() == Cmd::Assign(0, 0));
                },
                None => {
                    assert(tail == seq![Cmd::Loop(inner)]);
                },
            }
            assert forall|i: int| 0 <= i < out.len() implies first_one(#[trigger] out[i])
                && tidy_at(out, i) by {
                if i < pass.out.len() {
                    assert(out[i] == pass.out[i]);
                    assert(tidy_at(pass.out, i));
                    if i + 1 < pass.out.len() {
                        assert(out[i + 1] == pass.out[i + 1]);
                    }
                } else if i < head.len() {
                    assert(out[i] == Cmd::MovePtr(pass.bp));
                } else {
                    let j = i - head.len();
                    assert(out[i] == tail[j]);
                    if j + 1 < tail.len() {
                        assert(out[i + 1] == tail[j + 1]);
                    }
                }
            }
        },
        _ => {
            assert forall|i: int| 0 <= i < out.len() implies first_one(#[trigger] out[i])
                && tidy_at(out, i) by {
                if i < pass.out.len() - 1 {
                    assert(out[i] == pass.out[i]);
                    assert(tidy_at(pass.out, i));
                    assert(first_one(pass.out[i + 1]));
                    if i + 1 < pass.out.len() - 1 {
                        assert(out[i + 1] == pass.out[i + 1]);
                    }
                } else if i < pass.out.len() {
                    assert(first_one(pass.out[i]));
                    assert(tidy_at(pass.out, i));
                }
            }
        },
    }
}

/// The first pass over raw code gives code as the first pass gives it.
proof fn lemma_first_walk(code: Seq<Cmd>, n: nat)
    requires
        raw_upto(code, code.len()),
        n <= code.len(),
    ensures
        first_out(walked(code, n).out),
    decreases code, n,
{
    if n > 0 {
        lemma_first_walk(code, (n - 1) as nat);
        lemma_raw_each(code, code.len());
        let command = code[n - 1];
        assert(walked(code, n) == step(walked(code, (n - 1) as nat), command));
        match command {
            Cmd::Loop(body) => {
                lemma_first_pass(body);
                lemma_first_each(optimized(body), optimized(body).len());
            },
            _ => {},
        }
        lemma_first_step(walked(code, (n - 1) as nat), command);
    }
}

/// The first pass over raw code gives tidy code as the first pass gives it.
proof fn lemma_first_pass(code: Seq<Cmd>)
    requires
        raw_upto(code, code.len()),
    ensures
        first_upto(optimized(code), optimized(code).len()),
        tidy(optimized(code)),
    decreases code, code.len() + 1,
{
    let end = walked(code, code.len());
    let out = optimized(code);
    lemma_first_walk(code, code.len());
    assert forall|i: int| 0 <= i < out.len() implies first_one(#[trigger] out[i]) && tidy_at(
        out,
        i,
    ) by {
        if i < end.out.len() {
            assert(out[i] == end.out[i]);
            assert(tidy_at(end.out, i));
            if i + 1 < end.out.len() {
                assert(out[i + 1] == end.out[i + 1]);
            }
        }
    }
    lemma_first_each(out, out.len());
}

/// Whether `next` may stand behind `prev` in what a pass emits: an `Add`
/// not behind a command that absorbs it, an `Assign` not behind a write to
/// its cell, a `MultAdd` not behind the clearing of its destination.
pub open spec fn pair_ok(prev: Cmd, next: Cmd) -> bool {
    match next {
        Cmd::Add(offset, _) => !absorbs(prev, offset),
        Cmd::Assign(offset, _) => !writes(prev, offset),
        Cmd::MultAdd(_, dst, _) => prev != Cmd::Assign(dst, 0),
        _ => true,
    }
}

/// Whether `next` may follow `prev` where `prev` multiplies.
pub open spec fn tidy_next(prev: Cmd, next: Cmd) -> bool {
    match prev {
        Cmd::MultAdd(src, _, _) => follows(src, next),
        Cmd::MultAssign(src, _, _) => follows(src, next),
        _ => true,
    }
}

/// Whether `command`, where it multiplies, does so from one cell onto
/// another.
pub open spec fn apart(command: Cmd) -> bool {
    match command {
        Cmd::MultAdd(src, dst, _) => src != dst,
        Cmd::MultAssign(src, dst, _) => src != dst,
        _ => true,
    }
}

/// Whether command `i` of `code` stands where a pass would leave it, its
/// body left aside: a pointer move is not zero and is last or before a loop
/// or a conditional, and the command may stand behind the one before it.
pub open spec fn settled_at(code: Seq<Cmd>, i: int) -> bool {
    &&& code[i] matches Cmd::MovePtr(offset) ==> offset != 0 && (i + 1 == code.len() || code[i
        + 1] is Loop || code[i + 1] is If)
    &&& i > 0 ==> pair_ok(code[i - 1], code[i])
}

/// Whether every command of `code`, bodies left aside, stands where a pass
/// would leave it and is tidy.
pub open spec fn level(code: Seq<Cmd>) -> bool {
    forall|i: int| 0 <= i < code.len() ==> settled_at(code, i) && tidy_at(code, i)
}

/// Whether `command` is as the second pass gives it. A loop has a body of
/// that kind that is level and neither eliminated nor degenerated. A
/// conditional has a level body of commands that a degenerated loop may
/// hold, with the clearing of the current cell behind it.
pub open spec fn second_one(command: Cmd) -> bool
    decreases command, 0nat,
{
    match command {
        Cmd::Loop(body) => second_upto(body, body.len()) && level(body) && eliminated(body) is None
            && degenerated(body) is None,
        Cmd::If(body) => body.len() > 0 && body.last() == Cmd::Assign(0, 0) && level(
            body.drop_last(),
        ) && forall|i: int| 0 <= i < body.len() - 1 ==> degenerable(#[trigger] body[i]),
        _ => true,
    }
}

/// Whether each of the first `n` commands of `code` is as the second pass
/// gives it.
pub open spec fn second_upto(code: Seq<Cmd>, n: nat) -> bool
    decreases code, n + 1,
{
    n == 0 || n > code.len() || (second_upto(code, (n - 1) as nat) && second_one(code[n - 1]))
}

/// Code is as the second pass gives it up to a command exactly when each
/// command before it is.
proof fn lemma_second_each(code: Seq<Cmd>, n: nat)
    requires
        n <= code.len(),
    ensures
        second_upto(code, n) <==> forall|i: int| 0 <= i < n ==> second_one(#[trigger] code[i]),
    decreases n,
{
    if n > 0 {
        lemma_second_each(code, (n - 1) as nat);
        if second_upto(code, n) {
            assert forall|i: int| 0 <= i < n implies second_one(#[trigger] code[i]) by {}
        }
    }
}

/// What the walk of a later pass has emitted: commands as the second pass
/// gives them, each where a pass would leave it, no pointer move last, and
/// each tidy but perhaps the last, which still multiplies from one cell
/// onto another if it multiplies.
spec fn second_out(out: Seq<Cmd>) -> bool {
    &&& forall|i: int| 0 <= i < out.len() ==> second_one(#[trigger] out[i])
    &&& forall|i: int| 0 <= i < out.len() ==> settled_at(out, i)
    &&& forall|i: int| 0 <= i < out.len() - 1 ==> tidy_at(out, i)
    &&& out.len() > 0 ==> apart(out.last()) && !(out.last() is MovePtr)
}

/// Whether `command`, met with `bp` pending, is one that may follow a
/// multiplication from the cell at `src`.
spec fn near(bp: i32, src: i32, command: Cmd) -> bool {
    match command {
        Cmd::MultAdd(from, _, _) => bp.wrapping_add(from) == src,
        Cmd::Assign(offset, _) => bp.wrapping_add(offset) == src,
        Cmd::MultAssign(_, dst, _) => bp.wrapping_add(dst) == src,
        _ => false,
    }
}

/// Whether the walk may meet `command` with `bp` pending after `out`: where
/// `out` ends in a multiplication, `command` is one that may follow it.
spec fn meets(out: Seq<Cmd>, bp: i32, command: Cmd) -> bool {
    out.len() > 0 ==> match out.last() {
        Cmd::MultAdd(src, _, _) => near(bp, src, command),
        Cmd::MultAssign(src, _, _) => near(bp, src, command),
        _ => true,
    }
}

/// Emitted code stays of its kind when a command that fits is put behind
/// it.
proof fn lemma_out_push(out: Seq<Cmd>, next: Cmd)
    requires
        second_out(out),
        second_one(next),
        apart(next),
        !(next is MovePtr),
        out.len() > 0 ==> pair_ok(out.last(), next) && tidy_next(out.last(), next),
    ensures
        second_out(out.push(next)),
{
    let after = out.push(next);
    assert forall|i: int| 0 <= i < after.len() implies second_one(#[trigger] after[i])
        && settled_at(after, i) by {
        if i < out.len() {
            assert(after[i] == out[i]);
            assert(settled_at(out, i));
            if i > 0 {
                assert(after[i - 1] == out[i - 1]);
            }
            if i + 1 < out.len() {
                assert(after[i + 1] == out[i + 1]);
            }
        } else if i > 0 {
            assert(after[i - 1] == out.last());
        }
    }
    assert forall|i: int| 0 <= i < after.len() - 1 implies tidy_at(after, i) by {
        assert(after[i] == out[i]);
        if i < out.len() - 1 {
            assert(tidy_at(out, i));
            assert(after[i + 1] == out[i + 1]);
        }
    }
}

/// Emitted code stays of its kind when its last command, which is no loop
/// and no conditional, gives way to a command that fits behind the one
/// before it.
proof fn lemma_out_replace(out: Seq<Cmd>, next: Cmd)
    requires
        second_out(out),
        out.len() > 0,
        !(out.last() is Loop),
        !(out.last() is If),
        second_one(next),
        apart(next),
        !(next is MovePtr),
        out.len() > 1 ==> pair_ok(out[out.len() - 2], next) && tidy_next(
            out[out.len() - 2],
            next,
        ),
    ensures
        second_out(out.drop_last().push(next)),
{
    let before = out.drop_last();
    let after = before.push(next);
    assert forall|i: int| 0 <= i < after.len() implies second_one(#[trigger] after[i])
        && settled_at(after, i) by {
        if i < before.len() {
            assert(after[i] == out[i]);
            assert(settled_at(out, i));
            if i > 0 {
                assert(after[i - 1] == out[i - 1]);
            }
            if i + 1 < before.len() {
                assert(after[i + 1] == out[i + 1]);
            }
        } else if i > 0 {
            assert(after[i - 1] == out[out.len() - 2]);
        }
    }
    assert forall|i: int| 0 <= i < after.len() - 1 implies tidy_at(after, i) by {
        assert(after[i] == out[i]);
        assert(tidy_at(out, i));
        if i < before.len() - 1 {
            assert(after[i + 1] == out[i + 1]);
        }
    }
}

/// Emitted code that ends in no multiplication stays of its kind when the
/// pending pointer move and then a loop or a conditional are put behind it.
proof fn lemma_out_gate(out: Seq<Cmd>, bp: i32, gate: Cmd)
    requires
        second_out(out),
        gate is Loop || gate is If,
        second_one(gate),
        out.len() > 0 ==> !(out.last() is MultAdd) && !(out.last() is MultAssign),
    ensures
        second_out(flushed(out, bp).push(gate)),
{
    let head = flushed(out, bp);
    let after = head.push(gate);
    assert forall|i: int| 0 <= i < after.len() implies second_one(#[trigger] after[i])
        && settled_at(after, i) by {
        if i < out.len() {
            assert(after[i] == out[i]);
            assert(settled_at(out, i));
            if i > 0 {
                assert(after[i - 1] == out[i - 1]);
            }
            if i + 1 < out.len() {
                assert(after[i + 1] == out[i + 1]);
            }
        } else if i < head.len() {
            assert(after[i] == Cmd::MovePtr(bp));
            assert(after[i + 1] == gate);
        }
    }
    assert forall|i: int| 0 <= i < after.len() - 1 implies tidy_at(after, i) by {
        if i < out.len() {
            assert(after[i] == out[i]);
            if i < out.len() - 1 {
                assert(tidy_at(out, i));
                assert(after[i + 1] == out[i + 1]);
            }
        } else {
            assert(after[i] == Cmd::MovePtr(bp));
        }
    }
}

/// Adding the same displacement to two offsets gives one cell only where
/// the offsets are one.
proof fn lemma_shift_apart(bp: i32, a: i32, b: i32)
    ensures
        bp.wrapping_add(a) == bp.wrapping_add(b) <==> a == b,
{
}

/// The walk's step over an `Add` keeps emitted code of its kind.
proof fn lemma_second_add(pass: Pass, offset: i32, delta: i32)
    requires
        second_out(pass.out),
        meets(pass.out, pass.bp, Cmd::Add(offset, delta)),
    ensures
        second_out(step(pass, Cmd::Add(offset, delta)).out),
{
    let out = pass.out;
    let at = pass.bp.wrapping_add(offset);
    assert(step(pass, Cmd::Add(offset, delta)).out == emit_add(out, at, delta));
    if out.len() > 0 && absorbs(out.last(), at) {
        let next = absorbed(out.last(), delta);
        assert(settled_at(out, out.len() - 1));
        if out.len() > 1 {
            assert(tidy_at(out, out.len() - 2));
        }
        lemma_out_replace(out, next);
    } else {
        lemma_out_push(out, Cmd::Add(at, delta));
    }
}

/// The walk's step over an `Assign` keeps emitted code of its kind.
proof fn lemma_second_assign(pass: Pass, offset: i32, value: i32)
    requires
        second_out(pass.out),
        meets(pass.out, pass.bp, Cmd::Assign(offset, value)),
    ensures
        second_out(step(pass, Cmd::Assign(offset, value)).out),
{
    let out = pass.out;
    let at = pass.bp.wrapping_add(offset);
    let next = Cmd::Assign(at, value);
    assert(step(pass, Cmd::Assign(offset, value)).out == emit_assign(out, at, value));
    if out.len() > 0 && writes(out.last(), at) {
        assert(settled_at(out, out.len() - 1));
        if out.len() > 1 {
            assert(tidy_at(out, out.len() - 2));
            assert(settled_at(out, out.len() - 2));
        }
        lemma_out_replace(out, next);
    } else {
        lemma_out_push(out, next);
    }
}

/// The walk's step over a `MultAdd` from one cell onto another keeps
/// emitted code of its kind.
proof fn lemma_second_mult(pass: Pass, src: i32, dst: i32, factor: i32)
    requires
        second_out(pass.out),
        meets(pass.out, pass.bp, Cmd::MultAdd(src, dst, factor)),
        src != dst,
    ensures
        second_out(step(pass, Cmd::MultAdd(src, dst, factor)).out),
{
    let out = pass.out;
    let from = pass.bp.wrapping_add(src);
    let onto = pass.bp.wrapping_add(dst);
    lemma_shift_apart(pass.bp, src, dst);
    assert(step(pass, Cmd::MultAdd(src, dst, factor)).out == emit_mult_add(
        out,
        from,
        onto,
        factor,
    ));
    if out.len() > 0 && out.last() == Cmd::Assign(onto, 0) {
        if out.len() > 1 {
            assert(tidy_at(out, out.len() - 2));
        }
        lemma_out_replace(out, Cmd::MultAssign(from, onto, factor));
    } else {
        lemma_out_push(out, Cmd::MultAdd(from, onto, factor));
    }
}

/// The walk's step over a loop whose body, once optimised, is as the second
/// pass gives it, level and not to be eliminated, keeps emitted code of its
/// kind.
proof fn lemma_second_loop(pass: Pass, body: Seq<Cmd>)
    requires
        second_out(pass.out),
        meets(pass.out, pass.bp, Cmd::Loop(body)),
        second_upto(optimized(body), optimized(body).len()),
        level(optimized(body)),
        eliminated(optimized(body)) is None,
    ensures
        second_out(step(pass, Cmd::Loop(body)).out),
{
    let inner = optimized(body);
    let gate = reduced(inner)[0];
    assert(reduced(inner) =~= seq![gate]);
    if degenerated(inner) is Some {
        let held = inner.push(Cmd::Assign(0, 0));
        assert(gate == Cmd::If(held));
        assert(held.drop_last() =~= inner);
        assert forall|i: int| 0 <= i < held.len() - 1 implies degenerable(#[trigger] held[i]) by {
            assert(held[i] == inner[i]);
        }
    }
    lemma_out_gate(pass.out, pass.bp, gate);
    assert(step(pass, Cmd::Loop(body)).out =~= flushed(pass.out, pass.bp).push(gate));
}

/// The second pass over code as the first pass gives it: what the walk has
/// emitted after `n` commands is of the second pass's kind, and where it
/// ends in a multiplication, the next command is one that may follow it.
proof fn lemma_second_walk(code: Seq<Cmd>, n: nat)
    requires
        first_upto(code, code.len()),
        tidy(code),
        n <= code.len(),
    ensures
        second_out(walked(code, n).out),
        n < code.len() ==> meets(walked(code, n).out, walked(code, n).bp, code[n as int]),
        n == code.len() ==> walked(code, n).out.len() > 0 ==> !(walked(code, n).out.last()
            is MultAdd) && !(walked(code, n).out.last() is MultAssign),
    decreases code, n,
{
    if n > 0 {
        lemma_second_walk(code, (n - 1) as nat);
        lemma_first_each(code, code.len());
        let before = walked(code, (n - 1) as nat);
        let command = code[n - 1];
        let after = walked(code, n);
        assert(after == step(before, command));
        assert(first_one(command));
        assert(tidy_at(code, n - 1));
        match command {
            Cmd::Add(offset, delta) => {
                lemma_second_add(before, offset, delta);
            },
            Cmd::Assign(offset, value) => {
                lemma_second_assign(before, offset, value);
            },
            Cmd::MultAdd(src, dst, factor) => {
                lemma_second_mult(before, src, dst, factor);
            },
            Cmd::Loop(body) => {
                lemma_second_pass(body);
                if eliminated(optimized(body)) is Some {
                    lemma_eliminated_back(body);
                }
                lemma_second_loop(before, body);
            },
            Cmd::Input(offset) => {
                lemma_out_push(before.out, Cmd::Input(before.bp.wrapping_add(offset)));
            },
            Cmd::Output(offset) => {
                lemma_out_push(before.out, Cmd::Output(before.bp.wrapping_add(offset)));
            },
            _ => {},
        }
    }
}

/// The second pass over tidy code as the first pass gives it gives level
/// code as the second pass gives it.
proof fn lemma_second_pass(code: Seq<Cmd>)
    requires
        first_upto(code, code.len()),
        tidy(code),
    ensures
        second_upto(optimized(code), optimized(code).len()),
        level(optimized(code)),
    decreases code, code.len() + 1,
{
    let end = walked(code, code.len());
    let out = optimized(code);
    lemma_second_walk(code, code.len());
    assert forall|i: int| 0 <= i < out.len() implies second_one(#[trigger] out[i]) && settled_at(
        out,
        i,
    ) && tidy_at(out, i) by {
        if i < end.out.len() {
            assert(out[i] == end.out[i]);
            assert(settled_at(end.out, i));
            if i > 0 {
                assert(out[i - 1] == end.out[i - 1]);
            }
            if i + 1 < end.out.len() {
                assert(tidy_at(end.out, i));
                assert(out[i + 1] == end.out[i + 1]);
            }
        } else {
            assert(out[i] == Cmd::MovePtr(end.bp));
        }
    }
    lemma_second_each(out, out.len());
}

/// `command` with its body, where it has one, put through a pass.
pub open spec fn mend(command: Cmd) -> Cmd {
    match command {
        Cmd::Loop(body) => Cmd::Loop(optimized(body)),
        Cmd::If(body) => Cmd::If(optimized(body)),
        other => other,
    }
}

/// `code` with every body in it put through a pass.
pub open spec fn mended(code: Seq<Cmd>) -> Seq<Cmd> {
    Seq::new(code.len(), |i: int| mend(code[i]))
}

/// The walk's state after the first `n` commands of level code: what it has
/// walked over, mended, with a pointer move at the end still pending.
spec fn third_walk(code: Seq<Cmd>, n: nat) -> Pass {
    if 0 < n <= code.len() && code[n - 1] is MovePtr {
        Pass { out: mended(code).take(n - 1), bp: code[n - 1]->MovePtr_0 }
    } else {
        Pass { out: mended(code).take(n as int), bp: 0 }
    }
}

/// Two walks over code that agrees in its first `n` commands agree after
/// them.
proof fn lemma_walk_prefix(one: Seq<Cmd>, other: Seq<Cmd>, n: nat)
    requires
        n <= one.len(),
        n <= other.len(),
        forall|i: int| 0 <= i < n ==> one[i] == other[i],
    ensures
        walked(one, n) == walked(other, n),
    decreases n,
{
    if n > 0 {
        lemma_walk_prefix(one, other, (n - 1) as nat);
    }
}

/// Code whose every command is stable where it stands is stable.
proof fn lemma_stable_from_each(code: Seq<Cmd>, n: nat)
    requires
        n <= code.len(),
        forall|i: int| 0 <= i < n ==> #[trigger] stable_at(code, i),
    ensures
        stable_upto(code, n),
    decreases n,
{
    if n > 0 {
        lemma_stable_from_each(code, (n - 1) as nat);
        assert(stable_at(code, n - 1));
    }
}

/// A loop body that a pass only mends, and that is neither eliminated nor
/// degenerated before the pass, is neither after it.
proof fn lemma_kept(body: Seq<Cmd>)
    requires
        optimized(body) == mended(body),
        eliminated(body) is None,
        degenerated(body) is None,
    ensures
        eliminated(optimized(body)) is None,
        degenerated(optimized(body)) is None,
{
    let after = mended(body);
    if eliminated(after) is Some || degenerated(after) is Some {
        assert forall|i: int| 0 <= i < body.len() implies after[i] == body[i] by {
            assert(after[i] == mend(body[i]));
            if eliminated(after) is Some {
                assert(after[i] is Add || after[i] is MovePtr);
            } else {
                assert(degenerable(after[i]));
            }
        }
        assert(after =~= body);
    }
}

/// The step of a walk over level code keeps to `third_walk`, where the pass
/// over the body of a loop leaves it a loop.
proof fn lemma_third_step(code: Seq<Cmd>, n: nat)
    requires
        level(code),
        0 < n <= code.len(),
        code[n - 1] matches Cmd::Loop(body) ==> reduced(optimized(body)) == seq![
            Cmd::Loop(optimized(body)),
        ],
    ensures
        step(third_walk(code, (n - 1) as nat), code[n - 1]) == third_walk(code, n),
{
    let all = mended(code);
    let before = third_walk(code, (n - 1) as nat);
    let command = code[n - 1];
    assert(settled_at(code, n - 1));
    assert(all[n - 1] == mend(command));
    if n > 1 {
        assert(settled_at(code, n - 2));
        assert(all[n - 2] == mend(code[n - 2]));
        assert(all.take(n - 1).last() == all[n - 2]);
    }
    let flush = flushed(before.out, before.bp);
    assert(flush =~= all.take(n - 1)) by {
        if n > 1 && code[n - 2] is MovePtr {
            assert(all.take(n - 2).push(all[n - 2]) =~= all.take(n - 1));
        }
    }
    match command {
        Cmd::Loop(body) => {
            assert(all.take(n - 1) + seq![all[n - 1]] =~= all.take(n as int));
        },
        Cmd::If(body) => {
            assert(all.take(n - 1).push(all[n - 1]) =~= all.take(n as int));
        },
        Cmd::MovePtr(_) => {},
        _ => {
            assert(before.bp == 0);
            assert(before.out == all.take(n - 1));
            assert(step(before, command).out =~= all.take(n as int));
        },
    }
}

/// A walk over level code without a loop emits the code with its bodies
/// mended.
proof fn lemma_loopless_walk(code: Seq<Cmd>, n: nat)
    requires
        level(code),
        forall|i: int| 0 <= i < code.len() ==> !(#[trigger] code[i] is Loop),
        n <= code.len(),
    ensures
        walked(code, n) == third_walk(code, n),
    decreases n,
{
    if n == 0 {
        assert(mended(code).take(0) =~= Seq::<Cmd>::empty());
    } else {
        lemma_loopless_walk(code, (n - 1) as nat);
        assert(!(code[n - 1] is Loop));
        lemma_third_step(code, n);
    }
}

/// The body of a conditional as the second pass makes it is stable after a
/// pass.
proof fn lemma_conditional_settles(body: Seq<Cmd>)
    requires
        second_one(Cmd::If(body)),
    ensures
        stable(optimized(body)),
{
    let held = body.drop_last();
    let count = held.len();
    assert forall|i: int| 0 <= i < count implies degenerable(#[trigger] held[i]) by {
        assert(held[i] == body[i]);
    }
    assert forall|i: int| 0 <= i < count implies !(#[trigger] held[i] is Loop) by {
        assert(degenerable(held[i]));
    }
    lemma_loopless_walk(held, count);
    lemma_walk_prefix(body, held, count);
    assert(mended(held) =~= held) by {
        assert forall|i: int| 0 <= i < count implies mended(held)[i] == held[i] by {
            assert(degenerable(held[i]));
        }
    }
    if count > 0 {
        assert(degenerable(held[count - 1]));
    }
    assert(held.take(count as int) =~= held);
    assert(walked(body, count) == Pass { out: held, bp: 0 });
    assert(walked(body, body.len()) == step(walked(body, count), body[count as int]));
    let after = optimized(body);
    assert(after == emit_assign(held, 0, 0));
    assert forall|i: int| 0 <= i < after.len() implies stable_at(after, i) by {
        if i < after.len() - 1 {
            assert(after[i] == held[i]);
            assert(degenerable(held[i]));
            assert(settled_at(held, i));
            if i > 0 {
                assert(after[i - 1] == held[i - 1]);
            }
        } else if i > 0 {
            assert(after[i] == Cmd::Assign(0, 0));
            assert(after[i - 1] == held[i - 1]);
            assert(degenerable(held[i - 1]));
            if writes(held.last(), 0) {
                assert(degenerable(held[i]));
                assert(settled_at(held, i));
            }
        }
    }
    lemma_stable_from_each(after, after.len());
}

/// A walk over level code as the second pass gives it emits the code with
/// its bodies mended.
proof fn lemma_third_walk(code: Seq<Cmd>, n: nat)
    requires
        second_upto(code, code.len()),
        level(code),
        n <= code.len(),
    ensures
        walked(code, n) == third_walk(code, n),
    decreases code, n,
{
    if n == 0 {
        assert(mended(code).take(0) =~= Seq::<Cmd>::empty());
    } else {
        lemma_third_walk(code, (n - 1) as nat);
        lemma_second_each(code, code.len());
        assert(second_one(code[n - 1]));
        assert(walked(code, n) == step(walked(code, (n - 1) as nat), code[n - 1]));
        match code[n - 1] {
            Cmd::Loop(body) => {
                lemma_third_pass(body);
                lemma_kept(body);
            },
            _ => {},
        }
        lemma_third_step(code, n);
    }
}

/// A pass over level code as the second pass gives it only mends the
/// bodies, and gives stable code.
proof fn lemma_third_pass(code: Seq<Cmd>)
    requires
        second_upto(code, code.len()),
        level(code),
    ensures
        optimized(code) == mended(code),
        stable(optimized(code)),
    decreases code, code.len() + 1,
{
    let n = code.len();
    let all = mended(code);
    lemma_third_walk(code, n);
    lemma_second_each(code, n);
    assert(all.take(n as int) =~= all);
    if n > 0 && code[n - 1] is MovePtr {
        assert(settled_at(code, n - 1));
        assert(all[n - 1] == mend(code[n - 1]));
        assert(all.take(n - 1).push(all[n - 1]) =~= all);
    }
    assert(optimized(code) == all);
    assert forall|i: int| 0 <= i < n implies stable_at(all, i) by {
        assert(all[i] == mend(code[i]));
        assert(settled_at(code, i));
        assert(second_one(code[i]));
        if i > 0 {
            assert(all[i - 1] == mend(code[i - 1]));
        }
        if i + 1 < n {
            assert(all[i + 1] == mend(code[i + 1]));
        }
        match code[i] {
            Cmd::Loop(body) => {
                lemma_third_pass(body);
                lemma_kept(body);
            },
            Cmd::If(body) => {
                lemma_conditional_settles(body);
            },
            _ => {},
        }
    }
    lemma_stable_from_each(all, n);
}

/// A raw command in front of raw code.
proof fn lemma_raw_front(first: Cmd, tail: Seq<Cmd>)
    requires
        raw_one(first),
        raw_upto(tail, tail.len()),
    ensures
        raw_upto(seq![first] + tail, (seq![first] + tail).len()),
{
    let all = seq![first] + tail;
    lemma_raw_each(tail, tail.len());
    assert forall|i: int| 0 <= i < all.len() implies raw_one(#[trigger] all[i]) by {
        if i > 0 {
            assert(all[i] == tail[i - 1]);
        }
    }
    lemma_raw_each(all, all.len());
}

/// What `scan` reads is raw.
proof fn lemma_scan_raw(text: Seq<char>)
    ensures
        match scan(text) {
            Scanned::End(commands) => raw_upto(commands, commands.len()),
            Scanned::Close(commands, _) => raw_upto(commands, commands.len()),
            Scanned::Open => true,
        },
    decreases text.len(),
{
    if text.len() > 0 {
        let rest = text.drop_first();
        lemma_scan_raw(rest);
        if text[0] == '[' {
            if let Scanned::Close(body, after) = scan(rest) {
                if after.len() < text.len() {
                    lemma_scan_raw(after);
                    match scan(after) {
                        Scanned::End(tail) => {
                            lemma_raw_front(Cmd::Loop(body), tail);
                        },
                        Scanned::Close(tail, _) => {
                            lemma_raw_front(Cmd::Loop(body), tail);
                        },
                        Scanned::Open => {},
                    }
                }
            }
        } else if text[0] != ']' {
            match simple(text[0]) {
                Some(command) => match scan(rest) {
                    Scanned::End(tail) => {
                        lemma_raw_front(command, tail);
                    },
                    Scanned::Close(tail, _) => {
                        lemma_raw_front(command, tail);
                    },
                    Scanned::Open => {},
                },
                None => {},
            }
        }
    }
}

/// Three passes settle raw code. Where no command of `code`, at any depth,
/// is an `Assign`, a `MultAdd`, a `MultAssign` or a conditional, the third
/// pass over it gives stable code, which every further pass leaves as it
/// is.
pub proof fn lemma_three_passes_settle(code: Seq<Cmd>)
    requires
        raw_upto(code, code.len()),
    ensures
        stable(optimized(optimized(optimized(code)))),
        optimized(optimized(optimized(optimized(code)))) == optimized(optimized(optimized(code))),
{
    lemma_first_pass(code);
    lemma_second_pass(optimized(code));
    lemma_third_pass(optimized(optimized(code)));
    lemma_stable_is_fixed(optimized(optimized(optimized(code))));
}

/// A fourth pass changes nothing. The program that any text compiles to is
/// stable, and a further pass of the optimiser over it gives the same
/// program.
pub proof fn lemma_fourth_pass(text: Seq<char>)
    ensures
        compiled(text) matches Ok(program) ==> stable(program) && optimized(program) == program,
{
    lemma_scan_raw(text);
    if let Ok(program) = parsed(text) {
        lemma_three_passes_settle(program);
    }
}

} // verus!
