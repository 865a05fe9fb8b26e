use bf::Command::{Add, Assign, If, Input, Loop, MovePtr, MultAdd, MultAssign, Output};
use bf::{Action, Compiler, Machine, Task};

#[test]
fn a_fresh_machine_is_blank() {
    let machine = Machine::new();
    assert_eq!(machine.i, 1000);
    assert_eq!(machine.memory.len(), 30000);
    assert!(machine.memory.iter().all(|cell| *cell == 0));
    assert_eq!(machine.get(0), 0);
}

#[test]
fn cells_wrap_modulo_256() {
    let mut machine = Machine::new();
    machine.add(0, -1);
    assert_eq!(machine.get(0), 255);
    machine.add(0, 2);
    assert_eq!(machine.get(0), 1);
    machine.set(3, 256 + 7);
    assert_eq!(machine.get(3), 7);
    machine.set(3, -1);
    assert_eq!(machine.get(3), 255);
    machine.add(3, i32::MAX);
    assert_eq!(machine.get(3), 254);
    machine.add(3, i32::MIN);
    assert_eq!(machine.get(3), 254);
    assert_eq!(machine.memory[1003], 254);
}

#[test]
fn multiplication_is_exact_before_it_is_reduced() {
    let mut machine = Machine::new();
    machine.set(0, 200);
    machine.set(1, 10);
    machine.mult_add(0, 1, 3);
    assert_eq!(machine.get(1), (10 + 600) % 256);
    machine.mult_add(0, 1, -1);
    assert_eq!(machine.get(1), (610 - 200) % 256);
    machine.mult_assign(0, 2, i32::MAX);
    assert_eq!(machine.get(2), ((200i64 * i32::MAX as i64) % 256) as i32);
    machine.mult_assign(0, 2, -3);
    assert_eq!(machine.get(2), 168);
    machine.mult_assign(2, 2, 2);
    assert_eq!(machine.get(2), 80);
}

#[test]
fn the_pointer_moves_and_addresses_follow() {
    let mut machine = Machine::new();
    machine.move_ptr(5);
    assert_eq!(machine.i, 1005);
    machine.set(-5, 9);
    assert_eq!(machine.memory[1000], 9);
    machine.move_ptr(-1006);
    assert_eq!(machine.i, -1);
    assert!(!machine.addresses(0));
    assert!(machine.addresses(1));
    assert!(machine.addresses(30000));
    assert!(!machine.addresses(30001));
    machine.move_ptr(i32::MIN);
    assert_eq!(machine.i, i32::MAX);
    assert!(!machine.addresses(0));
}

#[test]
fn input_is_echoed() {
    let program = Compiler::compile(",.,.").unwrap();
    let mut machine = Machine::new();
    let mut task = Task::new(&program);
    assert_eq!(machine.execute(&mut task, 10), Action::Read);
    assert!(machine.feed(&mut task, b'A'));
    assert_eq!(machine.execute(&mut task, 10), Action::Write(b'A'));
    assert_eq!(machine.execute(&mut task, 10), Action::Read);
    assert!(machine.feed(&mut task, b'B'));
    assert_eq!(machine.execute(&mut task, 10), Action::Write(b'B'));
    assert_eq!(machine.execute(&mut task, 10), Action::Halt);
    assert_eq!(machine.execute(&mut task, 10), Action::Halt);
}

#[test]
fn end_of_input_reads_as_zero() {
    let program = vec![Add(0, 5), Input(0), Output(0)];
    let mut machine = Machine::new();
    let mut task = Task::new(&program);
    assert_eq!(machine.execute(&mut task, 10), Action::Read);
    assert_eq!(machine.get(0), 5);
    assert!(machine.feed(&mut task, 0));
    assert_eq!(machine.execute(&mut task, 10), Action::Write(0));
}

#[test]
fn feed_is_refused_where_no_input_is_awaited() {
    let program = vec![Output(0), Input(40000)];
    let mut machine = Machine::new();
    let mut task = Task::new(&program);
    assert!(!machine.feed(&mut task, 1));
    assert_eq!(machine.execute(&mut task, 10), Action::Write(0));
    assert!(!machine.feed(&mut task, 1));
    assert_eq!(machine.execute(&mut task, 10), Action::Fault);
    let mut done = Task::new(&[]);
    assert_eq!(machine.execute(&mut done, 10), Action::Halt);
    assert!(!machine.feed(&mut done, 1));
    assert!(machine.memory.iter().all(|cell| *cell == 0));
}

#[test]
fn a_run_pauses_when_its_budget_is_spent() {
    let program = vec![Add(0, 1), Add(0, 1), Add(0, 1)];
    let mut machine = Machine::new();
    let mut task = Task::new(&program);
    assert_eq!(machine.execute(&mut task, 2), Action::Pause);
    assert_eq!(machine.get(0), 2);
    assert_eq!(machine.execute(&mut task, 0), Action::Pause);
    assert_eq!(machine.get(0), 2);
    assert_eq!(machine.execute(&mut task, 1), Action::Pause);
    assert_eq!(machine.get(0), 3);
    assert_eq!(machine.execute(&mut task, 1), Action::Halt);
}

#[test]
fn an_endless_loop_never_halts_by_itself() {
    let program = vec![Add(0, 1), Loop(vec![])];
    let mut machine = Machine::new();
    let mut task = Task::new(&program);
    for _ in 0..5 {
        assert_eq!(machine.execute(&mut task, 1000), Action::Pause);
    }
    assert_eq!(machine.get(0), 1);
}

#[test]
fn a_loop_tests_its_cell_before_every_round() {
    let program = vec![Loop(vec![Output(0)]), Add(0, 2), Loop(vec![Output(0), Add(0, -1)])];
    let mut machine = Machine::new();
    let mut task = Task::new(&program);
    assert_eq!(machine.execute(&mut task, 100), Action::Write(2));
    assert_eq!(machine.execute(&mut task, 100), Action::Write(1));
    assert_eq!(machine.execute(&mut task, 100), Action::Halt);
}

#[test]
fn a_conditional_runs_at_most_once() {
    let program = vec![
        If(vec![Output(0)]),
        Add(0, 2),
        If(vec![Output(0)]),
        MovePtr(1),
        Assign(0, 65),
        Output(0),
    ];
    let mut machine = Machine::new();
    let mut task = Task::new(&program);
    assert_eq!(machine.execute(&mut task, 100), Action::Write(2));
    assert_eq!(machine.execute(&mut task, 100), Action::Write(65));
    assert_eq!(machine.execute(&mut task, 100), Action::Halt);
}

#[test]
fn addressing_outside_the_tape_faults() {
    let cases = vec![
        vec![Add(-1001, 1)],
        vec![Assign(29000, 1)],
        vec![MultAdd(-1001, 0, 1)],
        vec![MultAdd(0, 29000, 1)],
        vec![MultAssign(29000, 0, 1)],
        vec![MultAssign(0, -1001, 1)],
        vec![Input(-1001)],
        vec![Output(29000)],
        vec![MovePtr(-1001), Loop(vec![])],
        vec![MovePtr(29000), If(vec![])],
        vec![Add(0, 1), Loop(vec![MovePtr(-1001)])],
    ];
    for program in cases {
        let mut machine = Machine::new();
        let mut task = Task::new(&program);
        assert_eq!(machine.execute(&mut task, 100), Action::Fault);
        assert_eq!(machine.execute(&mut task, 100), Action::Fault);
    }
    let mut machine = Machine::new();
    let edge = vec![Add(-1000, 1), Add(28999, 1), MovePtr(-2000), MovePtr(2000)];
    let mut task = Task::new(&edge);
    assert_eq!(machine.execute(&mut task, 100), Action::Halt);
    assert_eq!(machine.memory[0], 1);
    assert_eq!(machine.memory[29999], 1);
}
