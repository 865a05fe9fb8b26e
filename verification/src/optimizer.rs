//! The rewriting pass over the intermediate representation.
use std::collections::{BTreeMap, BTreeSet};
use vstd::prelude::*;
use vstd::std_specs::iter::IteratorSpec;
use crate::command::{
    lemma_view_composite, lemma_views_add, lemma_views_drop_last, lemma_views_push, views, Cmd,
    Command,
};
use crate::compiler::Compiler;

verus! {

/// Whether `command` stores into the cell at `offset`: as an `Add` or an
/// `Assign` there, or as a `MultAdd` or a `MultAssign` with that destination.
pub open spec fn writes(command: Cmd, offset: i32) -> bool {
    match command {
        Cmd::Add(at, _) => at == offset,
        Cmd::Assign(at, _) => at == offset,
        Cmd::MultAdd(_, dst, _) => dst == offset,
        Cmd::MultAssign(_, dst, _) => dst == offset,
        _ => false,
    }
}

/// Whether an `Add` at `offset` can be merged into `command`: it is an `Add`
/// or an `Assign` at the same offset.
pub open spec fn absorbs(command: Cmd, offset: i32) -> bool {
    match command {
        Cmd::Add(at, _) => at == offset,
        Cmd::Assign(at, _) => at == offset,
        _ => false,
    }
}

/// `command` after an `Add` of `delta` has been merged into it. The sum wraps
/// at 32 bits, which leaves its value modulo the cell width unchanged.
pub open spec fn absorbed(command: Cmd, delta: i32) -> Cmd {
    match command {
        Cmd::Add(at, value) => Cmd::Add(at, value.wrapping_add(delta)),
        Cmd::Assign(at, value) => Cmd::Assign(at, value.wrapping_add(delta)),
        other => other,
    }
}

/// Emits `Assign(offset, value)` after `out`. A last command of `out` that
/// writes the same cell is dead, and is dropped.
pub open spec fn emit_assign(out: Seq<Cmd>, offset: i32, value: i32) -> Seq<Cmd> {
    if out.len() > 0 && writes(out.last(), offset) {
        out.drop_last().push(Cmd::Assign(offset, value))
    } else {
        out.push(Cmd::Assign(offset, value))
    }
}

/// Emits `Add(offset, delta)` after `out`, merging it into the last command
/// of `out` where that command absorbs it.
pub open spec fn emit_add(out: Seq<Cmd>, offset: i32, delta: i32) -> Seq<Cmd> {
    if out.len() > 0 && absorbs(out.last(), offset) {
        out.drop_last().push(absorbed(out.last(), delta))
    } else {
        out.push(Cmd::Add(offset, delta))
    }
}

/// Emits `MultAdd(src, dst, factor)` after `out`. Where `out` ends in
/// `Assign(dst, 0)`, the two become one `MultAssign`.
pub open spec fn emit_mult_add(out: Seq<Cmd>, src: i32, dst: i32, factor: i32) -> Seq<Cmd> {
    if out.len() > 0 && out.last() == Cmd::Assign(dst, 0) {
        out.drop_last().push(Cmd::MultAssign(src, dst, factor))
    } else {
        out.push(Cmd::MultAdd(src, dst, factor))
    }
}

/// Emits the pending pointer displacement `bp` after `out`, if there is any.
pub open spec fn flushed(out: Seq<Cmd>, bp: i32) -> Seq<Cmd> {
    if bp != 0 {
        out.push(Cmd::MovePtr(bp))
    } else {
        out
    }
}

/// The state of one walk over a command sequence: the commands emitted so
/// far, and the pointer displacement that is still pending.
pub struct Pass {
    /// The commands emitted so far.
    pub out: Seq<Cmd>,
    /// The pointer displacement that has been walked over and not emitted.
    pub bp: i32,
}

/// Whether every command of `body` is an `Add` or a `MovePtr`.
pub open spec fn only_adds_and_moves(body: Seq<Cmd>) -> bool {
    forall|i: int| 0 <= i < body.len() ==> (#[trigger] body[i] is Add) || body[i] is MovePtr
}

/// The pointer displacement that the first `n` commands of `body` add up to,
/// counting its `MovePtr` commands only.
pub open spec fn drift(body: Seq<Cmd>, n: nat) -> i32
    decreases n,
{
    if n == 0 || n > body.len() {
        0
    } else {
        match body[n - 1] {
            Cmd::MovePtr(offset) => drift(body, (n - 1) as nat).wrapping_add(offset),
            _ => drift(body, (n - 1) as nat),
        }
    }
}

/// The delta recorded for `offset` in `deltas`: zero where none is.
pub open spec fn delta_at(deltas: Map<i32, i32>, offset: i32) -> i32 {
    if deltas.contains_key(offset) {
        deltas[offset]
    } else {
        0
    }
}

/// The net delta that the `Add` commands among the first `n` commands of
/// `body` contribute to each cell they touch, keyed by the cell's offset from
/// the pointer at the start of `body`.
pub open spec fn net_deltas(body: Seq<Cmd>, n: nat) -> Map<i32, i32>
    decreases n,
{
    if n == 0 || n > body.len() {
        Map::empty()
    } else {
        let before = net_deltas(body, (n - 1) as nat);
        match body[n - 1] {
            Cmd::Add(offset, delta) => {
                let key = drift(body, (n - 1) as nat).wrapping_add(offset);
                before.insert(key, delta_at(before, key).wrapping_add(delta))
            },
            _ => before,
        }
    }
}

/// The members of `keys` that are at least `from`, in ascending order.
pub open spec fn ascending(keys: Set<i32>, from: int) -> Seq<i32>
    decreases i32::MAX + 1 - from,
{
    if from > i32::MAX {
        Seq::empty()
    } else if from >= i32::MIN && keys.contains(from as i32) {
        seq![from as i32] + ascending(keys, from + 1)
    } else {
        ascending(keys, from + 1)
    }
}

/// One `MultAdd` from the control cell for each of `keys`, in their order,
/// with the delta recorded for that key as its factor.
pub open spec fn scaled_adds(deltas: Map<i32, i32>, keys: Seq<i32>) -> Seq<Cmd> {
    Seq::new(keys.len(), |i: int| Cmd::MultAdd(0, keys[i], deltas[keys[i]]))
}

/// The straight-line code that replaces a loop with body `body`, where the
/// body only adds and moves, ends where it began, and takes exactly one from
/// the control cell: a `MultAdd` for every other cell it touches, in
/// ascending order of offset, and then the control cell set to zero.
/// `None` where `body` is no such body.
pub open spec fn eliminated(body: Seq<Cmd>) -> Option<Seq<Cmd>> {
    let net = net_deltas(body, body.len());
    if only_adds_and_moves(body) && drift(body, body.len()) == 0 && delta_at(net, 0) == -1 {
        Some(
            scaled_adds(net, ascending(net.dom().remove(0), i32::MIN as int)).push(
                Cmd::Assign(0, 0),
            ),
        )
    } else {
        None
    }
}

/// Whether `command` may stand in a loop body that degenerates to a
/// conditional: an `Add` to the control cell; or an `Assign`, a `MultAdd` or
/// a `MultAssign` that stores into another cell, and that multiplies, where
/// it does, from another cell too.
///
/// With such commands alone a round changes the control cell by what it
/// adds to it, and leaves in every other cell what no round after it can
/// change.
pub open spec fn degenerable(command: Cmd) -> bool {
    match command {
        Cmd::Add(offset, _) => offset == 0,
        Cmd::Assign(offset, _) => offset != 0,
        Cmd::MultAdd(src, dst, _) => src != 0 && dst != 0,
        Cmd::MultAssign(src, dst, _) => src != 0 && dst != 0,
        _ => false,
    }
}

/// The sum of the deltas that the first `n` commands of `body` add to the
/// control cell.
pub open spec fn control_delta(body: Seq<Cmd>, n: nat) -> i32
    decreases n,
{
    if n == 0 || n > body.len() {
        0
    } else {
        match body[n - 1] {
            Cmd::Add(offset, delta) if offset == 0 => control_delta(body, (n - 1) as nat).wrapping_add(
                delta,
            ),
            _ => control_delta(body, (n - 1) as nat),
        }
    }
}

/// The offsets of the cells that are known to hold zero after the first `n`
/// commands of `body`: the control cell, and every cell whose last write
/// among them is an `Assign` of zero. An `Add`, a `MultAdd` or a
/// `MultAssign` into a cell, or an `Assign` of another value, takes the cell
/// out again.
pub open spec fn zeroed(body: Seq<Cmd>, n: nat) -> Set<i32>
    decreases n,
{
    if n == 0 || n > body.len() {
        set![0i32]
    } else {
        let before = zeroed(body, (n - 1) as nat);
        match body[n - 1] {
            Cmd::Add(offset, _) => if offset == 0 {
                before
            } else {
                before.remove(offset)
            },
            Cmd::MultAdd(_, dst, _) => before.remove(dst),
            Cmd::MultAssign(_, dst, _) => before.remove(dst),
            Cmd::Assign(offset, value) => if value == 0 {
                before.insert(offset)
            } else {
                before.remove(offset)
            },
            _ => before,
        }
    }
}

/// Whether `command` reads a cell that `zero` does not hold, as the source
/// of a `MultAdd` or a `MultAssign`.
pub open spec fn reads_outside(command: Cmd, zero: Set<i32>) -> bool {
    match command {
        Cmd::MultAdd(src, _, _) => !zero.contains(src),
        Cmd::MultAssign(src, _, _) => !zero.contains(src),
        _ => false,
    }
}

/// The conditional that replaces a loop with body `body`, where every
/// command of the body is degenerable, the body takes exactly one from the
/// control cell, and every source that it multiplies from is known to hold
/// zero where it is read. The conditional runs the body once and then sets
/// the control cell to zero. `None` where `body` is no such body.
///
/// Under these conditions every round after the first changes the control
/// cell alone, so that the conditional leaves the tape that the loop leaves:
/// `loop_laws::lemma_degeneration_keeps_tape`.
pub open spec fn degenerated(body: Seq<Cmd>) -> Option<Cmd> {
    if (forall|i: int| 0 <= i < body.len() ==> degenerable(#[trigger] body[i]))
        && control_delta(body, body.len()) == -1
        && (forall|i: int|
            0 <= i < body.len() ==> !reads_outside(#[trigger] body[i], zeroed(body, i as nat))) {
        Some(Cmd::If(body.push(Cmd::Assign(0, 0))))
    } else {
        None
    }
}

/// What a loop whose body has already been optimised is replaced by: its
/// elimination where that applies, else its degeneration where that applies,
/// else the loop itself.
pub open spec fn reduced(body: Seq<Cmd>) -> Seq<Cmd> {
    match eliminated(body) {
        Some(commands) => commands,
        None => match degenerated(body) {
            Some(command) => seq![command],
            None => seq![Cmd::Loop(body)],
        },
    }
}

/// The walk's state after `command`, from state `pass`.
///
/// A pointer move is held back. Any other simple command has the pending
/// displacement added to its offsets, in 32 bits and with wrap-around, and
/// is emitted. A loop or a conditional has the pending displacement emitted
/// before it and its body optimised.
pub open spec fn step(pass: Pass, command: Cmd) -> Pass
    decreases command, 0nat,
{
    match command {
        Cmd::MovePtr(offset) => Pass { out: pass.out, bp: pass.bp.wrapping_add(offset) },
        Cmd::Add(offset, delta) => Pass {
            out: emit_add(pass.out, pass.bp.wrapping_add(offset), delta),
            bp: pass.bp,
        },
        Cmd::Assign(offset, value) => Pass {
            out: emit_assign(pass.out, pass.bp.wrapping_add(offset), value),
            bp: pass.bp,
        },
        Cmd::MultAdd(src, dst, factor) => Pass {
            out: emit_mult_add(
                pass.out,
                pass.bp.wrapping_add(src),
                pass.bp.wrapping_add(dst),
                factor,
            ),
            bp: pass.bp,
        },
        Cmd::MultAssign(src, dst, factor) => Pass {
            out: pass.out.push(
                Cmd::MultAssign(pass.bp.wrapping_add(src), pass.bp.wrapping_add(dst), factor),
            ),
            bp: pass.bp,
        },
        Cmd::Input(offset) => Pass {
            out: pass.out.push(Cmd::Input(pass.bp.wrapping_add(offset))),
            bp: pass.bp,
        },
        Cmd::Output(offset) => Pass {
            out: pass.out.push(Cmd::Output(pass.bp.wrapping_add(offset))),
            bp: pass.bp,
        },
        Cmd::Loop(body) => Pass { out: flushed(pass.out, pass.bp) + reduced(optimized(body)), bp: 0 },
        Cmd::If(body) => Pass {
            out: flushed(pass.out, pass.bp).push(Cmd::If(optimized(body))),
            bp: 0,
        },
    }
}

/// The walk's state after the first `n` of `commands`.
pub open spec fn walked(commands: Seq<Cmd>, n: nat) -> Pass
    decreases commands, n,
{
    if n == 0 || n > commands.len() {
        Pass { out: Seq::empty(), bp: 0 }
    } else {
        step(walked(commands, (n - 1) as nat), commands[n - 1])
    }
}

/// One pass of the optimiser over `commands`.
pub open spec fn optimized(commands: Seq<Cmd>) -> Seq<Cmd>
    decreases commands, commands.len() + 1,
{
    let end = walked(commands, commands.len());
    flushed(end.out, end.bp)
}

/// The keys that a B-tree map hands out in increasing order are strictly
/// ascending integers.
proof fn lemma_increasing_keys(keys: Seq<&i32>)
    requires
        vstd::std_specs::btree::increasing_seq(keys),
    ensures
        forall|i: int, j: int| 0 <= i < j < keys.len() ==> *keys[i] < *keys[j],
{
    broadcast use vstd::laws_cmp::group_laws_cmp;
    broadcast use vstd::std_specs::btree::group_btree_axioms;
    assert forall|i: int, j: int| 0 <= i < j < keys.len() implies *keys[i] < *keys[j] by {
        assert(vstd::std_specs::cmp::OrdSpec::cmp_spec(&keys[i], &keys[j]) is Less);
    }
}

/// A strictly ascending sequence that holds exactly the members of `keys`
/// from `from` upwards is the ascending listing of those members.
proof fn lemma_ascending_unique(listing: Seq<i32>, keys: Set<i32>, from: int)
    requires
        forall|i: int, j: int| 0 <= i < j < listing.len() ==> listing[i] < listing[j],
        forall|key: i32| listing.contains(key) <==> keys.contains(key) && key >= from,
    ensures
        listing == ascending(keys, from),
    decreases i32::MAX + 1 - from,
{
    if from > i32::MAX {
        if listing.len() > 0 {
            assert(listing.contains(listing[0]));
        }
        assert(listing =~= Seq::<i32>::empty());
    } else if from >= i32::MIN && keys.contains(from as i32) {
        let least = from as i32;
        assert(listing.contains(least));
        let at = choose|at: int| 0 <= at < listing.len() && listing[at] == least;
        assert(listing.contains(listing[0]));
        assert(at == 0);
        let rest = listing.drop_first();
        assert forall|key: i32| rest.contains(key) <==> keys.contains(key) && key >= from
            + 1 by {
            if rest.contains(key) {
                let i = choose|i: int| 0 <= i < rest.len() && rest[i] == key;
                assert(listing[i + 1] == key);
                assert(listing.contains(key));
                assert(listing[0] < listing[i + 1]);
            }
            if keys.contains(key) && key >= from + 1 {
                assert(listing.contains(key));
                let i = choose|i: int| 0 <= i < listing.len() && listing[i] == key;
                assert(rest[i - 1] == key);
            }
        }
        lemma_ascending_unique(rest, keys, from + 1);
        assert(listing =~= seq![least] + rest);
    } else {
        assert forall|key: i32| listing.contains(key) <==> keys.contains(key) && key >= from
            + 1 by {}
        lemma_ascending_unique(listing, keys, from + 1);
    }
}

impl Compiler {
    /// Merges an `Add` of `value` at `offset` into `prev`, where `prev` is an
    /// `Add` or an `Assign` at that offset, and says whether it did.
    pub fn merge_add(prev: &mut Command, offset: i32, value: i32) -> (fused: bool)
        ensures
            fused == absorbs(old(prev)@, offset),
            final(prev)@ == (if fused {
                absorbed(old(prev)@, value)
            } else {
                old(prev)@
            }),
    {
        let mut fused = false;
        match prev {
            Command::Add(prev_offset, prev_value) => {
                if *prev_offset == offset {
                    *prev_value = prev_value.wrapping_add(value);
                    fused = true
                }
            },
            Command::Assign(prev_offset, prev_value) => {
                if *prev_offset == offset {
                    *prev_value = prev_value.wrapping_add(value);
                    fused = true
                }
            },
            _ => (),
        }
        fused
    }

    /// Replaces a loop by straight-line code, where its body `commands` only
    /// adds and moves, ends where it began, and takes exactly one from the
    /// control cell.
    ///
    /// The result is then one `MultAdd(0, offset, delta)` for every other cell
    /// that the body touches, in ascending order of offset, followed by
    /// `Assign(0, 0)`; it is `None` for every other body.
    pub fn eliminate_loop(commands: &[Command]) -> (result: Option<Vec<Command>>)
        ensures
            match eliminated(views(commands@)) {
                Some(code) => result matches Some(found) && views(found@) == code,
                None => result is None,
            },
    {
        broadcast use vstd::std_specs::btree::group_btree_axioms;

        let ghost body = views(commands@);
        let mut deltas: BTreeMap<i32, i32> = BTreeMap::new();
        let mut bp: i32 = 0;
        let mut i: usize = 0;
        while i < commands.len()
            invariant
                i <= commands.len(),
                body == views(commands@),
                forall|j: int| 0 <= j < i ==> (#[trigger] body[j] is Add) || body[j] is MovePtr,
                bp == drift(body, i as nat),
                deltas@ == net_deltas(body, i as nat),
            decreases commands.len() - i,
        {
            match &commands[i] {
                Command::Add(offset, value) => {
                    let key = bp.wrapping_add(*offset);
                    let old = match deltas.get(&key) {
                        Some(delta) => *delta,
                        None => 0,
                    };
                    deltas.insert(key, old.wrapping_add(*value));
                },
                Command::MovePtr(offset) => {
                    bp = bp.wrapping_add(*offset);
                },
                _ => {
                    return None;
                },
            }
            i += 1;
        }
        let origin = match deltas.get(&0) {
            Some(delta) => *delta,
            None => 0,
        };
        if bp != 0 || origin != -1 {
            return None;
        }
        deltas.remove(&0);
        let ghost net = net_deltas(body, body.len());
        let mut result: Vec<Command> = Vec::new();
        for key in iter: deltas.keys()
            invariant
                deltas@ == net.remove(0),
                views(result@) == scaled_adds(net, iter.seq().unref().take(iter.index())),
        {
            let delta = match deltas.get(key) {
                Some(delta) => *delta,
                None => 0,
            };
            proof {
                lemma_views_push(result@, Command::MultAdd(0, *key, delta));
                assert(iter.seq().unref().take(iter.index() + 1) =~= iter.seq().unref().take(
                    iter.index(),
                ).push(*key));
                assert(scaled_adds(net, iter.seq().unref().take(iter.index() + 1)) =~= scaled_adds(
                    net,
                    iter.seq().unref().take(iter.index()),
                ).push(Cmd::MultAdd(0, *key, delta)));
            }
            result.push(Command::MultAdd(0, *key, delta));
        }
        proof {
            let listing = deltas.keys().remaining().unref();
            lemma_increasing_keys(deltas.keys().remaining());
            assert forall|key: i32| listing.contains(key) <==> net.dom().remove(0).contains(key)
                && key >= i32::MIN by {
                assert(listing.to_set().contains(key) <==> listing.contains(key));
            }
            lemma_ascending_unique(listing, net.dom().remove(0), i32::MIN as int);
            lemma_views_push(result@, Command::Assign(0, 0));
        }
        result.push(Command::Assign(0, 0));
        Some(result)
    }

    /// Replaces a loop by a conditional, where every command of its body
    /// `commands` is an `Add` to the control cell, or an `Assign`, `MultAdd`
    /// or `MultAssign` between cells other than the control cell, the body
    /// takes exactly one from the control cell, and every source that it
    /// multiplies from is known to hold zero where it is read.
    ///
    /// The conditional runs the body once and then sets the control cell to
    /// zero. The result is `None` for every other body.
    pub fn optimize_complex_loop(commands: &[Command]) -> (result: Option<Command>)
        ensures
            match degenerated(views(commands@)) {
                Some(conditional) => result matches Some(found) && found@ == conditional,
                None => result is None,
            },
    {
        broadcast use vstd::std_specs::btree::group_btree_axioms;

        let ghost body = views(commands@);
        let mut result: Vec<Command> = Vec::new();
        let mut origin_delta: i32 = 0;
        let mut clears: BTreeSet<i32> = BTreeSet::new();
        clears.insert(0);
        let mut i: usize = 0;
        while i < commands.len()
            invariant
                i <= commands.len(),
                body == views(commands@),
                forall|j: int| 0 <= j < i ==> degenerable(#[trigger] body[j]),
                forall|j: int|
                    0 <= j < i ==> !reads_outside(#[trigger] body[j], zeroed(body, j as nat)),
                origin_delta == control_delta(body, i as nat),
                clears@ == zeroed(body, i as nat),
                views(result@) == body.take(i as int),
            decreases commands.len() - i,
        {
            proof {
                assert(body[i as int] == commands@[i as int]@);
                assert(body.take(i + 1) =~= body.take(i as int).push(body[i as int]));
            }
            match &commands[i] {
                Command::Add(offset, value) => {
                    if *offset != 0 {
                        return None;
                    }
                    origin_delta = origin_delta.wrapping_add(*value);
                    proof {
                        lemma_views_push(result@, Command::Add(*offset, *value));
                    }
                    result.push(Command::Add(*offset, *value));
                },
                Command::MultAdd(src, dest, value) => {
                    if *src == 0 || *dest == 0 || !clears.contains(src) {
                        return None;
                    }
                    clears.remove(dest);
                    proof {
                        lemma_views_push(result@, Command::MultAdd(*src, *dest, *value));
                    }
                    result.push(Command::MultAdd(*src, *dest, *value));
                },
                Command::MultAssign(src, dest, value) => {
                    if *src == 0 || *dest == 0 || !clears.contains(src) {
                        return None;
                    }
                    clears.remove(dest);
                    proof {
                        lemma_views_push(result@, Command::MultAssign(*src, *dest, *value));
                    }
                    result.push(Command::MultAssign(*src, *dest, *value));
                },
                Command::Assign(offset, value) => {
                    if *offset == 0 {
                        return None;
                    } else if *value == 0 {
                        clears.insert(*offset);
                    } else {
                        clears.remove(offset);
                    }
                    proof {
                        lemma_views_push(result@, Command::Assign(*offset, *value));
                    }
                    result.push(Command::Assign(*offset, *value));
                },
                _ => {
                    return None;
                },
            }
            i += 1;
        }
        if origin_delta != -1 {
            return None;
        }
        proof {
            assert(body.take(body.len() as int) =~= body);
            lemma_views_push(result@, Command::Assign(0, 0));
        }
        result.push(Command::Assign(0, 0));
        let conditional = Command::If(result);
        proof {
            lemma_view_composite(conditional->If_0);
        }
        Some(conditional)
    }

    /// One pass of the optimiser over `program`, and over every body in it.
    ///
    /// The pass walks each sequence from left to right. Pointer moves are
    /// held back and added to the offsets of the commands that follow; what
    /// is still pending is emitted before a loop or conditional and at the end
    /// of the sequence. An `Add` merges into an `Add` or `Assign` of the same
    /// cell just before it, an `Assign` drops a write to the same cell just
    /// before it, and a `MultAdd` onto a cell just set to zero becomes a
    /// `MultAssign`. A loop has its body optimised and is then eliminated,
    /// degenerated to a conditional, or kept.
    pub fn optimize(program: &[Command]) -> (result: Vec<Command>)
        ensures
            views(result@) == optimized(views(program@)),
        decreases program@,
    {
        let ghost source = views(program@);
        let mut result: Vec<Command> = Vec::new();
        let mut bp: i32 = 0;
        let mut i: usize = 0;
        while i < program.len()
            invariant
                i <= program.len(),
                source == views(program@),
                walked(source, i as nat).out == views(result@),
                walked(source, i as nat).bp == bp,
            decreases program.len() - i,
        {
            proof {
                assert(walked(source, (i + 1) as nat) == step(
                    walked(source, i as nat),
                    source[i as int],
                ));
                if result@.len() > 0 {
                    lemma_views_drop_last(result@);
                }
            }
            match &program[i] {
                Command::Assign(offset, value) => {
                    let actual_offset = bp.wrapping_add(*offset);
                    let n = result.len();
                    if n > 0 {
                        let dead = match &result[n - 1] {
                            Command::Add(prev_offset, _) => *prev_offset == actual_offset,
                            Command::Assign(prev_offset, _) => *prev_offset == actual_offset,
                            Command::MultAdd(_, prev_dest, _) => *prev_dest == actual_offset,
                            Command::MultAssign(_, prev_dest, _) => *prev_dest == actual_offset,
                            _ => false,
                        };
                        if dead {
                            result.pop();
                        }
                    }
                    proof {
                        lemma_views_push(result@, Command::Assign(actual_offset, *value));
                    }
                    result.push(Command::Assign(actual_offset, *value));
                },
                Command::MultAssign(src, dest, value) => {
                    let command = Command::MultAssign(
                        bp.wrapping_add(*src),
                        bp.wrapping_add(*dest),
                        *value,
                    );
                    proof {
                        lemma_views_push(result@, command);
                    }
                    result.push(command);
                },
                Command::Add(offset, cmd_value) => {
                    let actual_offset = bp.wrapping_add(*offset);
                    let mut fused = false;
                    let n = result.len();
                    if n > 0 {
                        fused = Compiler::merge_add(&mut result[n - 1], actual_offset, *cmd_value);
                        proof {
                            lemma_views_drop_last(result@);
                            assert(views(result@) =~= views(result@).drop_last().push(
                                result@.last()@,
                            ));
                        }
                    }
                    if !fused {
                        proof {
                            lemma_views_push(result@, Command::Add(actual_offset, *cmd_value));
                        }
                        result.push(Command::Add(actual_offset, *cmd_value));
                    }
                },
                Command::MultAdd(src, dest, value) => {
                    let actual_offset = bp.wrapping_add(*dest);
                    let n = result.len();
                    let folds = n > 0 && match &result[n - 1] {
                        Command::Assign(prev_offset, prev_value) => *prev_offset == actual_offset
                            && *prev_value == 0,
                        _ => false,
                    };
                    if folds {
                        result.pop();
                        let command = Command::MultAssign(
                            bp.wrapping_add(*src),
                            actual_offset,
                            *value,
                        );
                        proof {
                            lemma_views_push(result@, command);
                        }
                        result.push(command);
                    } else {
                        let command = Command::MultAdd(bp.wrapping_add(*src), actual_offset, *value);
                        proof {
                            lemma_views_push(result@, command);
                        }
                        result.push(command);
                    }
                },
                Command::MovePtr(offset) => {
                    bp = bp.wrapping_add(*offset);
                },
                Command::Input(offset) => {
                    let command = Command::Input(bp.wrapping_add(*offset));
                    proof {
                        lemma_views_push(result@, command);
                    }
                    result.push(command);
                },
                Command::Output(offset) => {
                    let command = Command::Output(bp.wrapping_add(*offset));
                    proof {
                        lemma_views_push(result@, command);
                    }
                    result.push(command);
                },
                Command::Loop(commands) => {
                    if bp != 0 {
                        proof {
                            lemma_views_push(result@, Command::MovePtr(bp));
                        }
                        result.push(Command::MovePtr(bp));
                        bp = 0;
                    }
                    proof {
                        lemma_view_composite(*commands);
                    }
                    let body = Compiler::optimize(commands.as_slice());
                    match Compiler::eliminate_loop(body.as_slice()) {
                        Some(mut code) => {
                            proof {
                                lemma_views_add(result@, code@);
                            }
                            result.append(&mut code);
                        },
                        None => {
                            let command = match Compiler::optimize_complex_loop(body.as_slice()) {
                                Some(conditional) => conditional,
                                None => {
                                    let kept = Command::Loop(body);
                                    proof {
                                        lemma_view_composite(kept->Loop_0);
                                    }
                                    kept
                                },
                            };
                            proof {
                                lemma_views_push(result@, command);
                                assert(views(result@) + seq![command@] =~= views(result@).push(
                                    command@,
                                ));
                            }
                            result.push(command);
                        },
                    }
                },
                Command::If(commands) => {
                    if bp != 0 {
                        proof {
                            lemma_views_push(result@, Command::MovePtr(bp));
                        }
                        result.push(Command::MovePtr(bp));
                        bp = 0;
                    }
                    proof {
                        lemma_view_composite(*commands);
                    }
                    let command = Command::If(Compiler::optimize(commands.as_slice()));
                    proof {
                        lemma_view_composite(command->If_0);
                        lemma_views_push(result@, command);
                    }
                    result.push(command);
                },
            }
            i += 1;
        }
        if bp != 0 {
            proof {
                lemma_views_push(result@, Command::MovePtr(bp));
            }
            result.push(Command::MovePtr(bp));
        }
        result
    }
}

} // verus!
