use bf::{Command, Compiler, Error, ErrorKind};

#[test]
fn it_parses() {
    let result = vec![
        Command::Add(0, 1),
        Command::Add(0, -1),
        Command::MovePtr(1),
        Command::MovePtr(-1),
        Command::Input(0),
        Command::Output(0),
    ];
    assert_eq!(Compiler::parse("+-><,.".chars()), Ok(result));
}

#[test]
fn it_parses_loops() {
    let result = vec![Command::Loop(vec![
        Command::Add(0, 1),
        Command::Loop(vec![Command::Add(0, -1)]),
        Command::Add(0, 1),
    ])];
    assert_eq!(Compiler::parse("[+[-]+]".chars()), Ok(result));
}

#[test]
fn stray_close_is_unbalanced() {
    let error = Error { kind: ErrorKind::UnbalancedClose };
    assert_eq!(Compiler::parse("]".chars()), Err(error));
    assert_eq!(Compiler::parse("[]]".chars()), Err(error));
    assert_eq!(Compiler::compile("+]+["), Err(error));
}

#[test]
fn open_loop_is_unclosed() {
    let error = Error { kind: ErrorKind::UnclosedLoop };
    assert_eq!(Compiler::parse("[+".chars()), Err(error));
    assert_eq!(Compiler::parse("[[]".chars()), Err(error));
    assert_eq!(Compiler::compile("[] ["), Err(error));
}

#[test]
fn other_characters_are_comments() {
    assert_eq!(
        Compiler::parse("move > right\nadd + one!\t[ loop: - ]".chars()),
        Ok(vec![
            Command::MovePtr(1),
            Command::Add(0, 1),
            Command::Loop(vec![Command::Add(0, -1)]),
        ])
    );
    assert_eq!(Compiler::parse("".chars()), Ok(vec![]));
    assert_eq!(Compiler::parse("héllo wörld ✓".chars()), Ok(vec![]));
}

#[test]
fn parse_command_knows_the_six_simple_operators() {
    assert_eq!(Compiler::parse_command('+'), Some(Command::Add(0, 1)));
    assert_eq!(Compiler::parse_command('-'), Some(Command::Add(0, -1)));
    assert_eq!(Compiler::parse_command('>'), Some(Command::MovePtr(1)));
    assert_eq!(Compiler::parse_command('<'), Some(Command::MovePtr(-1)));
    assert_eq!(Compiler::parse_command(','), Some(Command::Input(0)));
    assert_eq!(Compiler::parse_command('.'), Some(Command::Output(0)));
    assert_eq!(Compiler::parse_command('['), None);
    assert_eq!(Compiler::parse_command(']'), None);
    assert_eq!(Compiler::parse_command(' '), None);
}

#[test]
fn a_loop_body_ends_at_its_closing_bracket() {
    let mut chars = "+[-]>]<".chars();
    assert_eq!(
        Compiler::parse_loop_body(&mut chars),
        Ok(vec![
            Command::Add(0, 1),
            Command::Loop(vec![Command::Add(0, -1)]),
            Command::MovePtr(1),
        ])
    );
    assert_eq!(chars.as_str(), "<");
    let mut open = "+[-]>".chars();
    assert_eq!(
        Compiler::parse_loop_body(&mut open),
        Err(Error { kind: ErrorKind::UnclosedLoop })
    );
}

#[test]
fn errors_have_messages() {
    assert_eq!(Compiler::compile("]").unwrap_err().message(), "Extra loop closing");
    assert_eq!(Compiler::compile("[").unwrap_err().message(), "Unclosed loop");
}

#[test]
fn a_clone_equals_what_it_was_made_from() {
    let program = Compiler::parse("+[>[-]<,.]".chars()).unwrap();
    let copy: Vec<Command> = program.iter().map(|command| command.clone()).collect();
    assert_eq!(copy, program);
}
