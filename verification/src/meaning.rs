//! What a program does, from start to end: the tape it leaves, the input it
//! consumes and the output it writes.
use vstd::prelude::*;
use crate::command::Cmd;
use crate::laws::lemma_through_push;
use crate::machine::Tape;

verus! {

/// What a run sees and leaves: the tape, the input that is still unread and
/// the output written so far.
pub struct Scene {
    pub tape: Tape,
    pub input: Seq<u8>,
    pub output: Seq<u8>,
}

impl Scene {
    /// The scene with `tape` as its tape.
    pub open spec fn on(self, tape: Tape) -> Scene {
        Scene { tape, input: self.input, output: self.output }
    }

    /// The scene after one byte of input has been read into the cell at
    /// `offset`: the next unread byte, or zero where the input has ended.
    pub open spec fn read(self, offset: i32) -> Scene {
        if self.input.len() > 0 {
            Scene {
                tape: self.tape.store(offset, self.input[0]),
                input: self.input.drop_first(),
                output: self.output,
            }
        } else {
            Scene { tape: self.tape.store(offset, 0), input: self.input, output: self.output }
        }
    }

    /// The scene after the cell at `offset` has been written to the output.
    pub open spec fn written(self, offset: i32) -> Scene {
        Scene {
            tape: self.tape,
            input: self.input,
            output: self.output.push(self.tape.cell(offset)),
        }
    }
}

/// How a run ends.
pub enum Outcome {
    /// The run came to its end, in this scene.
    Done(Scene),
    /// A command addressed a cell outside the tape.
    Fault,
    /// The fuel was spent before the run came to an end.
    Spent,
}

/// What `command` does from `scene`. A loop may run its body `fuel` times,
/// the rounds of the loops inside it counted in.
pub open spec fn effect(command: Cmd, scene: Scene, fuel: nat) -> Outcome
    decreases fuel, command, 0nat,
{
    match command {
        Cmd::Input(offset) => if scene.tape.on_tape(offset) {
            Outcome::Done(scene.read(offset))
        } else {
            Outcome::Fault
        },
        Cmd::Output(offset) => if scene.tape.on_tape(offset) {
            Outcome::Done(scene.written(offset))
        } else {
            Outcome::Fault
        },
        Cmd::If(body) => if !scene.tape.on_tape(0) {
            Outcome::Fault
        } else if scene.tape.cell(0) == 0 {
            Outcome::Done(scene)
        } else {
            effects(body, body.len(), scene, fuel)
        },
        Cmd::Loop(body) => if !scene.tape.on_tape(0) {
            Outcome::Fault
        } else if scene.tape.cell(0) == 0 {
            Outcome::Done(scene)
        } else if fuel == 0 {
            Outcome::Spent
        } else {
            match effects(body, body.len(), scene, (fuel - 1) as nat) {
                Outcome::Done(next) => effect(command, next, (fuel - 1) as nat),
                other => other,
            }
        },
        plain => if scene.tape.faults(plain) {
            Outcome::Fault
        } else {
            Outcome::Done(scene.on(scene.tape.after(plain)))
        },
    }
}

/// What the first `n` of `commands` do from `scene`, one after the other.
pub open spec fn effects(commands: Seq<Cmd>, n: nat, scene: Scene, fuel: nat) -> Outcome
    decreases fuel, commands, n,
{
    if n == 0 || n > commands.len() {
        Outcome::Done(scene)
    } else {
        match effects(commands, (n - 1) as nat, scene, fuel) {
            Outcome::Done(mid) => effect(commands[n - 1], mid, fuel),
            other => other,
        }
    }
}

/// What `commands` do from `scene`.
pub open spec fn outcome(commands: Seq<Cmd>, scene: Scene, fuel: nat) -> Outcome {
    effects(commands, commands.len(), scene, fuel)
}

/// `first`, and then what `command` does from where it ends.
pub open spec fn then(first: Outcome, command: Cmd, fuel: nat) -> Outcome {
    match first {
        Outcome::Done(mid) => effect(command, mid, fuel),
        other => other,
    }
}

/// A command that ends or faults with some fuel does the same with more.
pub proof fn lemma_more_fuel_one(command: Cmd, scene: Scene, fuel: nat, more: nat)
    requires
        !(effect(command, scene, fuel) is Spent),
    ensures
        effect(command, scene, fuel + more) == effect(command, scene, fuel),
    decreases fuel, command, 0nat,
{
    match command {
        Cmd::If(body) => {
            if scene.tape.on_tape(0) && scene.tape.cell(0) != 0 {
                lemma_more_fuel(body, body.len(), scene, fuel, more);
            }
        },
        Cmd::Loop(body) => {
            if scene.tape.on_tape(0) && scene.tape.cell(0) != 0 {
                let less = (fuel - 1) as nat;
                assert((fuel + more - 1) as nat == less + more);
                lemma_more_fuel(body, body.len(), scene, less, more);
                match effects(body, body.len(), scene, less) {
                    Outcome::Done(next) => {
                        lemma_more_fuel_one(command, next, less, more);
                    },
                    _ => {},
                }
            }
        },
        _ => {},
    }
}

/// Commands that end or fault with some fuel do the same with more.
pub proof fn lemma_more_fuel(commands: Seq<Cmd>, n: nat, scene: Scene, fuel: nat, more: nat)
    requires
        !(effects(commands, n, scene, fuel) is Spent),
    ensures
        effects(commands, n, scene, fuel + more) == effects(commands, n, scene, fuel),
    decreases fuel, commands, n,
{
    if n > 0 && n <= commands.len() {
        lemma_more_fuel(commands, (n - 1) as nat, scene, fuel, more);
        match effects(commands, (n - 1) as nat, scene, fuel) {
            Outcome::Done(mid) => {
                lemma_more_fuel_one(commands[n - 1], mid, fuel, more);
            },
            _ => {},
        }
    }
}

/// What the first `n` commands do depends on those commands alone.
pub proof fn lemma_effects_prefix(a: Seq<Cmd>, b: Seq<Cmd>, n: nat, scene: Scene, fuel: nat)
    requires
        n <= a.len(),
        n <= b.len(),
        forall|i: int| 0 <= i < n ==> a[i] == b[i],
    ensures
        effects(a, n, scene, fuel) == effects(b, n, scene, fuel),
    decreases n,
{
    if n > 0 {
        lemma_effects_prefix(a, b, (n - 1) as nat, scene, fuel);
    }
}

/// What commands do with one more command at their end.
pub proof fn lemma_outcome_push(commands: Seq<Cmd>, last: Cmd, scene: Scene, fuel: nat)
    ensures
        outcome(commands.push(last), scene, fuel) == then(outcome(commands, scene, fuel), last, fuel),
{
    lemma_effects_prefix(commands.push(last), commands, commands.len(), scene, fuel);
}

/// What the first `a.len() + k` commands of `a + b` do.
proof fn lemma_effects_add(a: Seq<Cmd>, b: Seq<Cmd>, k: nat, scene: Scene, fuel: nat)
    requires
        k <= b.len(),
    ensures
        effects(a + b, a.len() + k, scene, fuel) == match outcome(a, scene, fuel) {
            Outcome::Done(mid) => effects(b, k, mid, fuel),
            other => other,
        },
    decreases k,
{
    if k == 0 {
        lemma_effects_prefix(a + b, a, a.len(), scene, fuel);
    } else {
        lemma_effects_add(a, b, (k - 1) as nat, scene, fuel);
        assert((a + b)[a.len() + k - 1] == b[k - 1]);
    }
}

/// What two runs of commands do, one after the other.
pub proof fn lemma_outcome_add(a: Seq<Cmd>, b: Seq<Cmd>, scene: Scene, fuel: nat)
    ensures
        outcome(a + b, scene, fuel) == match outcome(a, scene, fuel) {
            Outcome::Done(mid) => outcome(b, mid, fuel),
            other => other,
        },
{
    lemma_effects_add(a, b, b.len(), scene, fuel);
}

/// A plain command does to the scene what it does to the tape.
pub proof fn lemma_effect_plain(command: Cmd, scene: Scene, fuel: nat)
    requires
        Tape::plain(command),
    ensures
        effect(command, scene, fuel) == if scene.tape.faults(command) {
            Outcome::Fault
        } else {
            Outcome::Done(scene.on(scene.tape.after(command)))
        },
{
}

/// Plain code does to the scene what it does to the tape.
pub proof fn lemma_outcome_plain(code: Seq<Cmd>, n: nat, scene: Scene, fuel: nat)
    requires
        forall|i: int| 0 <= i < code.len() ==> Tape::plain(#[trigger] code[i]),
        n <= code.len(),
    ensures
        effects(code, n, scene, fuel) == match scene.tape.through(code.take(n as int)) {
            Some(tape) => Outcome::Done(scene.on(tape)),
            None => Outcome::Fault,
        },
    decreases n,
{
    if n == 0 {
        assert(code.take(0) =~= Seq::<Cmd>::empty());
        assert(scene.on(scene.tape) == scene);
    } else {
        lemma_outcome_plain(code, (n - 1) as nat, scene, fuel);
        assert(code.take(n as int) =~= code.take(n - 1).push(code[n - 1]));
        lemma_through_push(scene.tape, code.take(n - 1), code[n - 1]);
        let command = code[n - 1];
        assert(Tape::plain(command));
        match effects(code, (n - 1) as nat, scene, fuel) {
            Outcome::Done(mid) => {
                lemma_effect_plain(command, mid, fuel);
            },
            _ => {},
        }
    }
}

/// A command that ends leaves a tape of the length it found.
pub proof fn lemma_length_kept_one(command: Cmd, scene: Scene, fuel: nat)
    requires
        effect(command, scene, fuel) is Done,
    ensures
        effect(command, scene, fuel)->Done_0.tape.cells.len() == scene.tape.cells.len(),
    decreases fuel, command, 0nat,
{
    match command {
        Cmd::If(body) => {
            if scene.tape.cell(0) != 0 {
                lemma_length_kept(body, body.len(), scene, fuel);
            }
        },
        Cmd::Loop(body) => {
            if scene.tape.cell(0) != 0 {
                let less = (fuel - 1) as nat;
                lemma_length_kept(body, body.len(), scene, less);
                lemma_length_kept_one(command, effects(body, body.len(), scene, less)->Done_0, less);
            }
        },
        _ => {},
    }
}

/// Commands that end leave a tape of the length they found.
pub proof fn lemma_length_kept(commands: Seq<Cmd>, n: nat, scene: Scene, fuel: nat)
    requires
        effects(commands, n, scene, fuel) is Done,
    ensures
        effects(commands, n, scene, fuel)->Done_0.tape.cells.len() == scene.tape.cells.len(),
    decreases fuel, commands, n,
{
    if n > 0 && n <= commands.len() {
        lemma_length_kept(commands, (n - 1) as nat, scene, fuel);
        lemma_length_kept_one(
            commands[n - 1],
            effects(commands, (n - 1) as nat, scene, fuel)->Done_0,
            fuel,
        );
    }
}

} // verus!
