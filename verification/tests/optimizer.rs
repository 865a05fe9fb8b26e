use bf::Command::{Add, Assign, If, Input, Loop, MovePtr, MultAdd, MultAssign, Output};
use bf::{Action, Command, Compiler, Machine, Task};

fn run(machine: &mut Machine, program: &[Command], input: &[u8]) -> Vec<u8> {
    let mut task = Task::new(program);
    let mut output = Vec::new();
    let mut read = 0;
    loop {
        match machine.execute(&mut task, 1_000_000) {
            Action::Halt => return output,
            Action::Fault => panic!("cell outside the tape"),
            Action::Pause => {}
            Action::Write(byte) => output.push(byte),
            Action::Read => {
                let byte = if read < input.len() { input[read] } else { 0 };
                read += 1;
                assert!(machine.feed(&mut task, byte));
            }
        }
    }
}

#[test]
fn it_optimizes() {
    let result = vec![
        Add(0, 3),
        Loop(vec![
            Output(0),
            Add(1, 3),
            MultAdd(1, 4, 1),
            Assign(1, 0),
            Add(0, -1),
        ]),
    ];
    let program = Compiler::compile("+++[.>+++[>>>+<<<-]<-]").unwrap();
    assert_eq!(program, result);
    let mut machine = Machine::new();
    let output = run(&mut machine, &program, &[]);
    assert_eq!(machine.memory[0], 0);
    assert_eq!(output, vec![3, 2, 1]);
    assert_eq!(machine.memory[1000], 0);
    assert_eq!(machine.memory[1001], 0);
    assert_eq!(machine.memory[1004], 9);
}

#[test]
fn pointer_moves_fold_into_offsets() {
    let program = vec![MovePtr(2), Add(0, 1), MovePtr(-3), Input(1), Output(-1), MovePtr(5)];
    assert_eq!(
        Compiler::optimize(&program),
        vec![Add(2, 1), Input(0), Output(-2), MovePtr(4)]
    );
    assert_eq!(Compiler::optimize(&[MovePtr(1), MovePtr(-1)]), vec![]);
}

#[test]
fn pending_move_is_flushed_before_a_composite() {
    let program = vec![MovePtr(2), Loop(vec![Output(0)]), MovePtr(1), If(vec![Output(0)])];
    assert_eq!(
        Compiler::optimize(&program),
        vec![MovePtr(2), Loop(vec![Output(0)]), MovePtr(1), If(vec![Output(0)])]
    );
}

#[test]
fn adjacent_adds_fuse() {
    assert_eq!(Compiler::compile("+++---"), Ok(vec![Add(0, 0)]));
    assert_eq!(Compiler::compile("++>+<+"), Ok(vec![Add(0, 2), Add(1, 1), Add(0, 1)]));
    assert_eq!(
        Compiler::optimize(&[Assign(3, 5), Add(3, -2)]),
        vec![Assign(3, 3)]
    );
    assert_eq!(
        Compiler::optimize(&[Add(0, i32::MAX), Add(0, 1)]),
        vec![Add(0, i32::MIN)]
    );
}

#[test]
fn merge_add_changes_only_a_matching_command() {
    let mut prev = Add(2, 5);
    assert!(Compiler::merge_add(&mut prev, 2, -7));
    assert_eq!(prev, Add(2, -2));
    let mut prev = Assign(2, 5);
    assert!(Compiler::merge_add(&mut prev, 2, 1));
    assert_eq!(prev, Assign(2, 6));
    let mut prev = Add(2, 5);
    assert!(!Compiler::merge_add(&mut prev, 3, 1));
    assert_eq!(prev, Add(2, 5));
    let mut prev = MultAdd(0, 2, 5);
    assert!(!Compiler::merge_add(&mut prev, 2, 1));
    assert_eq!(prev, MultAdd(0, 2, 5));
}

#[test]
fn assign_drops_a_dead_store() {
    assert_eq!(Compiler::optimize(&[Add(1, 2), Assign(1, 7)]), vec![Assign(1, 7)]);
    assert_eq!(Compiler::optimize(&[Assign(1, 2), Assign(1, 7)]), vec![Assign(1, 7)]);
    assert_eq!(Compiler::optimize(&[MultAdd(0, 1, 2), Assign(1, 7)]), vec![Assign(1, 7)]);
    assert_eq!(Compiler::optimize(&[MultAssign(0, 1, 2), Assign(1, 7)]), vec![Assign(1, 7)]);
    assert_eq!(
        Compiler::optimize(&[Add(2, 2), Assign(1, 7)]),
        vec![Add(2, 2), Assign(1, 7)]
    );
    assert_eq!(
        Compiler::optimize(&[Output(1), Assign(1, 7)]),
        vec![Output(1), Assign(1, 7)]
    );
}

#[test]
fn mult_add_onto_a_cleared_cell_becomes_mult_assign() {
    assert_eq!(
        Compiler::optimize(&[Assign(4, 0), MultAdd(1, 4, 3)]),
        vec![MultAssign(1, 4, 3)]
    );
    assert_eq!(
        Compiler::optimize(&[Assign(4, 1), MultAdd(1, 4, 3)]),
        vec![Assign(4, 1), MultAdd(1, 4, 3)]
    );
    assert_eq!(
        Compiler::optimize(&[MovePtr(1), Assign(3, 0), MultAdd(0, 3, 3), MultAssign(0, 1, 2)]),
        vec![MultAssign(1, 4, 3), MultAssign(1, 2, 2), MovePtr(1)]
    );
}

#[test]
fn counting_loop_is_eliminated() {
    let program = Compiler::compile("+++[>+++<-]").unwrap();
    assert_eq!(program, vec![Add(0, 3), MultAdd(0, 1, 3), Assign(0, 0)]);
    let mut machine = Machine::new();
    run(&mut machine, &program, &[]);
    assert_eq!(machine.get(1), 9);
    assert_eq!(machine.get(0), 0);
    let naive = Compiler::parse("+++[>+++<-]".chars()).unwrap();
    let mut plain = Machine::new();
    run(&mut plain, &naive, &[]);
    assert_eq!(plain.memory, machine.memory);
    assert_eq!(plain.i, machine.i);
}

#[test]
fn eliminated_loop_lists_offsets_in_ascending_order() {
    let body = vec![
        MovePtr(3),
        Add(0, 2),
        MovePtr(-5),
        Add(0, 7),
        Add(2, -1),
        MovePtr(2),
        Add(1, 4),
        Add(1, -4),
    ];
    assert_eq!(
        Compiler::eliminate_loop(&body),
        Some(vec![MultAdd(0, -2, 7), MultAdd(0, 1, 0), MultAdd(0, 3, 2), Assign(0, 0)])
    );
    assert_eq!(Compiler::eliminate_loop(&[Add(0, -1)]), Some(vec![Assign(0, 0)]));
}

#[test]
fn loops_that_do_not_qualify_are_not_eliminated() {
    assert_eq!(Compiler::eliminate_loop(&[]), None);
    assert_eq!(Compiler::eliminate_loop(&[Add(0, -2), Add(1, 1)]), None);
    assert_eq!(Compiler::eliminate_loop(&[Add(0, 1), Add(1, 1)]), None);
    assert_eq!(Compiler::eliminate_loop(&[Add(0, -1), MovePtr(1)]), None);
    assert_eq!(Compiler::eliminate_loop(&[Add(0, -1), Output(0)]), None);
    assert_eq!(Compiler::eliminate_loop(&[Add(0, -1), Input(0)]), None);
    assert_eq!(Compiler::eliminate_loop(&[Add(0, -1), Assign(1, 0)]), None);
    assert_eq!(Compiler::eliminate_loop(&[Add(0, -1), Loop(vec![])]), None);
    assert_eq!(Compiler::compile("[>+<]"), Ok(vec![Loop(vec![Add(1, 1)])]));
    assert_eq!(Compiler::compile("[]"), Ok(vec![Loop(vec![])]));
}

#[test]
fn guarded_accumulation_degenerates_to_a_conditional() {
    let body = vec![Assign(1, 0), MultAdd(1, 2, 3), Add(0, -1)];
    let conditional = If(vec![Assign(1, 0), MultAdd(1, 2, 3), Add(0, -1), Assign(0, 0)]);
    assert_eq!(Compiler::optimize_complex_loop(&body), Some(conditional.clone()));
    assert_eq!(Compiler::optimize(&[Loop(body.clone())]), vec![conditional.clone()]);
    for entry in [0, 1, 2, 5] {
        let mut looped = Machine::new();
        looped.set(0, entry);
        looped.set(1, 7);
        looped.set(2, 100);
        run(&mut looped, &[Loop(body.clone())], &[]);
        let mut tested = Machine::new();
        tested.set(0, entry);
        tested.set(1, 7);
        tested.set(2, 100);
        run(&mut tested, &[conditional.clone()], &[]);
        assert_eq!(looped.memory, tested.memory);
        assert_eq!(looped.i, tested.i);
        assert_eq!(tested.get(0), 0);
        assert_eq!(tested.get(1), if entry == 0 { 7 } else { 0 });
        assert_eq!(tested.get(2), 100);
    }
}

#[test]
fn a_degenerated_loop_keeps_its_body() {
    let body = vec![Assign(1, 3), Add(0, 2), Assign(2, 0), MultAssign(2, 3, 4), Add(0, -3)];
    let mut kept = body.clone();
    kept.push(Assign(0, 0));
    assert_eq!(Compiler::optimize_complex_loop(&body), Some(If(kept.clone())));
    for entry in [0, 1, 2, 5] {
        let mut looped = Machine::new();
        looped.set(0, entry);
        looped.set(3, 9);
        run(&mut looped, &[Loop(body.clone())], &[]);
        let mut tested = Machine::new();
        tested.set(0, entry);
        tested.set(3, 9);
        run(&mut tested, &[If(kept.clone())], &[]);
        assert_eq!(looped.memory, tested.memory);
        assert_eq!(looped.i, tested.i);
        assert_eq!(tested.get(1), if entry == 0 { 0 } else { 3 });
        assert_eq!(tested.get(3), if entry == 0 { 9 } else { 0 });
    }
}

#[test]
fn a_loop_that_gathers_stays_a_loop() {
    let source = "[>[-]>+<<-]";
    let once = Compiler::optimize(&Compiler::parse(source.chars()).unwrap());
    assert_eq!(
        once,
        vec![Loop(vec![MovePtr(1), Assign(0, 0), Add(1, 1), Add(-1, -1), MovePtr(-1)])]
    );
    let kept = vec![Loop(vec![Assign(1, 0), Add(2, 1), Add(0, -1)])];
    assert_eq!(Compiler::optimize(&once), kept);
    assert_eq!(Compiler::compile(source), Ok(kept.clone()));
    for entry in [0, 1, 2, 5] {
        let mut plain = Machine::new();
        plain.set(0, entry);
        plain.set(1, 7);
        run(&mut plain, &Compiler::parse(source.chars()).unwrap(), &[]);
        let mut fast = Machine::new();
        fast.set(0, entry);
        fast.set(1, 7);
        run(&mut fast, &kept, &[]);
        assert_eq!(plain.memory, fast.memory);
        assert_eq!(fast.get(2), entry);
    }
}

#[test]
fn loops_that_do_not_qualify_are_not_degenerated() {
    assert_eq!(Compiler::optimize_complex_loop(&[]), None);
    assert_eq!(Compiler::optimize_complex_loop(&[Add(0, -1), Assign(0, 0)]), None);
    assert_eq!(Compiler::optimize_complex_loop(&[Add(0, -1), MultAdd(0, 0, 1)]), None);
    assert_eq!(Compiler::optimize_complex_loop(&[Add(0, -1), MultAssign(0, 0, 1)]), None);
    assert_eq!(Compiler::optimize_complex_loop(&[Add(0, -1), MovePtr(0)]), None);
    assert_eq!(Compiler::optimize_complex_loop(&[Add(0, -1), Output(1)]), None);
    assert_eq!(Compiler::optimize_complex_loop(&[Add(0, -1), Input(1)]), None);
    assert_eq!(Compiler::optimize_complex_loop(&[Add(0, -1), If(vec![])]), None);
    assert_eq!(Compiler::optimize_complex_loop(&[Add(0, -1), Loop(vec![])]), None);
    assert_eq!(Compiler::optimize_complex_loop(&[Add(0, -2), Assign(1, 0)]), None);
    assert_eq!(Compiler::optimize_complex_loop(&[Add(0, -1), MultAdd(1, 2, 1)]), None);
    assert_eq!(Compiler::optimize_complex_loop(&[Add(0, -1), Add(1, 1)]), None);
    assert_eq!(Compiler::optimize_complex_loop(&[Assign(1, 0), Add(2, 1), Add(0, -1)]), None);
    assert_eq!(Compiler::optimize_complex_loop(&[MultAdd(0, 2, 1), Add(0, -1)]), None);
    assert_eq!(Compiler::optimize_complex_loop(&[MultAssign(0, 2, 1), Add(0, -1)]), None);
    assert_eq!(
        Compiler::optimize_complex_loop(&[Assign(1, 0), MultAdd(1, 2, 1), Add(1, 5), Add(0, -1)]),
        None
    );
    assert_eq!(
        Compiler::optimize_complex_loop(&[MultAdd(1, 2, 1), Assign(1, 0), Add(0, -1)]),
        None
    );
    assert_eq!(
        Compiler::optimize_complex_loop(&[Assign(1, 0), Add(1, 1), MultAdd(1, 2, 1), Add(0, -1)]),
        None
    );
    assert_eq!(
        Compiler::optimize_complex_loop(&[Assign(1, 0), MultAdd(2, 1, 1), MultAdd(1, 3, 1), Add(0, -1)]),
        None
    );
    assert_eq!(
        Compiler::optimize_complex_loop(&[Assign(1, 0), Assign(1, 2), MultAssign(1, 2, 1), Add(0, -1)]),
        None
    );
}

#[test]
fn a_conditional_keeps_its_shape_and_has_its_body_optimized() {
    assert_eq!(
        Compiler::optimize(&[If(vec![MovePtr(1), Add(0, 1), Add(0, 1), MovePtr(-1), Add(0, -1)])]),
        vec![If(vec![Add(1, 2), Add(0, -1)])]
    );
}

#[test]
fn optimized_straight_line_code_leaves_the_same_tape() {
    let source = "+>++<<->>>+<--<<<+++>>>>>><";
    let naive = Compiler::parse(source.chars()).unwrap();
    let compiled = Compiler::compile(source).unwrap();
    let mut plain = Machine::new();
    run(&mut plain, &naive, &[]);
    let mut fast = Machine::new();
    run(&mut fast, &compiled, &[]);
    assert_eq!(plain.memory, fast.memory);
    assert_eq!(plain.i, fast.i);
    assert_eq!(fast.i, 1003);
    assert_eq!(fast.memory[998], 3);
    assert_eq!(fast.memory[999], 255);
    assert_eq!(fast.memory[1000], 1);
    assert_eq!(fast.memory[1001], 0);
    assert_eq!(fast.memory[1002], 1);
}

#[test]
fn a_fourth_pass_leaves_bracket_free_code_unchanged() {
    for source in ["", "+", "+-+>><,.,<<<++.>", ">>>>", "+++---", ",>,>,<<."] {
        let compiled = Compiler::compile(source).unwrap();
        assert_eq!(Compiler::optimize(&compiled), compiled);
    }
}

#[test]
fn compiled_programs_print_what_the_parsed_ones_print() {
    let sources = [
        "++++++++[>++++[>++>+++>+++>+<<<<-]>+>+>->>+[<]<-]>>.>---.+++++++..+++.>>.<-.<.+++.------.--------.>>+.>++.",
        "++[>+++[>+<-]<-]>>.",
        "+++[>[-]>+<<-]>>.",
        "++[>[-]+++++>+<+++<-]>.>.",
        "+++[>[-]<-]>.",
        "+++++[>+++++[>++<-]<-]>>.[-]<<++[>>+<<-]>>.",
        ",[.,]",
        ">++++[<++++++++>-]<+.[>+>+<<-]>>[<<+>>-]<.",
    ];
    let input = b"tape";
    for source in sources {
        let naive = Compiler::parse(source.chars()).unwrap();
        let compiled = Compiler::compile(source).unwrap();
        let mut plain = Machine::new();
        let expected = run(&mut plain, &naive, input);
        let mut fast = Machine::new();
        let printed = run(&mut fast, &compiled, input);
        assert_eq!(printed, expected);
        assert_eq!(fast.memory, plain.memory);
        assert_eq!(fast.i, plain.i);
    }
    let hello = Compiler::compile(sources[0]).unwrap();
    let mut machine = Machine::new();
    assert_eq!(run(&mut machine, &hello, &[]), b"Hello World!\n".to_vec());
    let product = Compiler::compile(sources[1]).unwrap();
    assert_eq!(
        product,
        vec![
            Add(0, 2),
            Loop(vec![Add(1, 3), MultAdd(1, 2, 1), Assign(1, 0), Add(0, -1)]),
            Output(2),
            MovePtr(2),
        ]
    );
    let mut machine = Machine::new();
    assert_eq!(run(&mut machine, &product, &[]), vec![6]);
}

#[test]
fn a_fourth_pass_leaves_these_nested_programs_unchanged() {
    let sources = [
        "+++[.>+++[>>>+<<<-]<-]",
        "[>+<->+<+>+<->[-]<]",
        "[>>+<<->>[-]<<]",
        "++[>[-]+++++>+<+++<-]",
        "+++[>[-]>+<<-]",
        "[>[-]<-]",
        "[[[[[-]>]<]+]-]",
        ">[-]<[>+<-]>[<++>-]<[[-]>>+<<]",
    ];
    for source in sources {
        let compiled = Compiler::compile(source).unwrap();
        assert_eq!(Compiler::optimize(&compiled), compiled);
    }
    assert_eq!(
        Compiler::compile("[>+<->+<+>+<->[-]<]"),
        Ok(vec![Loop(vec![
            Add(1, 1),
            Add(0, -1),
            Add(1, 1),
            Add(0, 1),
            Add(1, 1),
            Add(0, -1),
            Assign(1, 0),
        ])])
    );
    assert_eq!(
        Compiler::compile("[>[-]<-]"),
        Ok(vec![If(vec![Assign(1, 0), Assign(0, 0)])])
    );
}

#[test]
fn a_fourth_pass_leaves_every_short_program_unchanged() {
    let operators = ['+', '-', '<', '>', '[', ']', '.'];
    let mut sources = vec![String::new()];
    let mut seen = 0;
    for _ in 0..5 {
        let mut longer = Vec::new();
        for source in &sources {
            for op in operators {
                let mut next = source.clone();
                next.push(op);
                longer.push(next);
            }
        }
        for source in &longer {
            if let Ok(compiled) = Compiler::compile(source) {
                assert_eq!(Compiler::optimize(&compiled), compiled, "{source}");
                seen += 1;
            }
        }
        sources = longer;
    }
    assert!(seen > 5000);
}

#[test]
fn offsets_and_deltas_wrap_at_32_bits() {
    assert_eq!(
        Compiler::optimize(&[MovePtr(i32::MAX), Add(1, 1), MovePtr(1)]),
        vec![Add(i32::MIN, 1), MovePtr(i32::MIN)]
    );
    assert_eq!(
        Compiler::optimize(&[MovePtr(i32::MIN), MovePtr(i32::MIN), Output(-1)]),
        vec![Output(-1)]
    );
    assert_eq!(
        Compiler::eliminate_loop(&[Add(0, i32::MAX), Add(0, i32::MIN), Add(3, i32::MIN), Add(3, -1)]),
        Some(vec![MultAdd(0, 3, i32::MAX), Assign(0, 0)])
    );
    assert_eq!(
        Compiler::optimize_complex_loop(&[Add(0, i32::MIN), Assign(1, 0), Add(0, i32::MAX)]),
        Some(If(vec![Add(0, i32::MIN), Assign(1, 0), Add(0, i32::MAX), Assign(0, 0)]))
    );
}

#[test]
fn an_eliminated_loop_names_its_cells_even_where_it_runs_no_round() {
    let source = format!("[{}+{}-]", "<".repeat(1001), ">".repeat(1001));
    let naive = Compiler::parse(source.chars()).unwrap();
    let compiled = Compiler::compile(&source).unwrap();
    assert_eq!(compiled, vec![MultAdd(0, -1001, 1), Assign(0, 0)]);
    let mut plain = Machine::new();
    let mut task = Task::new(&naive);
    assert_eq!(plain.execute(&mut task, 1_000_000), Action::Halt);
    let mut fast = Machine::new();
    let mut task = Task::new(&compiled);
    assert_eq!(fast.execute(&mut task, 1_000_000), Action::Fault);
    let mut near = Machine::new();
    near.move_ptr(1);
    near.set(0, 3);
    assert_eq!(run(&mut near, &compiled, &[]), vec![]);
    assert_eq!(near.memory[0], 3);
    assert_eq!(near.get(0), 0);
}
