use bf::gen_c::bf_to_c;
use bf::generator::{transpile_to, Target};
use bf::Command::{Add, Assign, If, Input, Loop, MovePtr, MultAdd, MultAssign, Output};
use bf::{Command, Compiler};

const PROLOGUE: &str = "#include <stdint.h>\n#include <stdio.h>\n#include <stdlib.h>\n\nstatic uint8_t read() {\n\tint temp = getchar();\n\treturn (uint8_t)(temp != EOF ? temp : 0);\n}\n\nint main(void) {\n\tuint8_t mem[1000000] = {0};\n\tuint8_t *p = &mem[1000];\n\n";
const EPILOGUE: &str = "\n\treturn EXIT_SUCCESS;\n}\n";

fn body(program: &[Command]) -> String {
    let text = bf_to_c(program);
    assert!(text.starts_with(PROLOGUE));
    assert!(text.ends_with(EPILOGUE));
    text[PROLOGUE.len()..text.len() - EPILOGUE.len()].to_string()
}

#[test]
fn an_empty_program_is_prologue_and_epilogue() {
    assert_eq!(bf_to_c(&[]), format!("{}{}", PROLOGUE, EPILOGUE));
}

#[test]
fn assignments_are_rendered() {
    assert_eq!(body(&[Assign(0, 0)]), "\tp[0] = 0;\n");
    assert_eq!(body(&[Assign(-3, 255)]), "\tp[-3] = 255;\n");
    assert_eq!(body(&[Assign(12, -7)]), "\tp[12] = -7;\n");
    assert_eq!(
        body(&[Assign(i32::MIN, i32::MAX)]),
        "\tp[-2147483648] = 2147483647;\n"
    );
}

#[test]
fn adds_are_rendered() {
    assert_eq!(body(&[Add(0, 1)]), "\tp[0]++;\n");
    assert_eq!(body(&[Add(2, -1)]), "\tp[2]--;\n");
    assert_eq!(body(&[Add(2, 10)]), "\tp[2] += 10;\n");
    assert_eq!(body(&[Add(-2, -100)]), "\tp[-2] -= 100;\n");
    assert_eq!(body(&[Add(0, 0)]), "\tp[0] += 0;\n");
    assert_eq!(body(&[Add(0, i32::MIN)]), "\tp[0] -= 2147483648;\n");
}

#[test]
fn multiplications_are_rendered() {
    assert_eq!(body(&[MultAssign(0, 1, 1)]), "\tp[1] = p[0];\n");
    assert_eq!(body(&[MultAssign(0, 1, 3)]), "\tp[1] = p[0] * 3;\n");
    assert_eq!(body(&[MultAssign(-1, 1, -3)]), "\tp[1] = p[-1] * -3;\n");
    assert_eq!(body(&[MultAdd(0, 1, 1)]), "\tp[1] += p[0];\n");
    assert_eq!(body(&[MultAdd(0, 1, -1)]), "\tp[1] -= p[0];\n");
    assert_eq!(body(&[MultAdd(0, 4, 12)]), "\tp[4] += p[0] * 12;\n");
    assert_eq!(body(&[MultAdd(0, 4, -12)]), "\tp[4] -= p[0] * 12;\n");
    assert_eq!(body(&[MultAdd(0, 4, 0)]), "\tp[4] += p[0] * 0;\n");
}

#[test]
fn pointer_moves_are_rendered() {
    assert_eq!(body(&[MovePtr(1)]), "\tp++;\n");
    assert_eq!(body(&[MovePtr(-1)]), "\tp--;\n");
    assert_eq!(body(&[MovePtr(40)]), "\tp += 40;\n");
    assert_eq!(body(&[MovePtr(-1009)]), "\tp -= 1009;\n");
    assert_eq!(body(&[MovePtr(0)]), "\tp += 0;\n");
}

#[test]
fn input_and_output_are_rendered() {
    assert_eq!(body(&[Input(0)]), "\tp[0] = read();\n");
    assert_eq!(body(&[Output(-1)]), "\tputchar(p[-1]);\n");
}

#[test]
fn blocks_are_indented_by_depth() {
    let program = vec![
        Add(0, 3),
        Loop(vec![Output(0), If(vec![Add(1, 1)]), Add(0, -1)]),
        Loop(vec![]),
    ];
    assert_eq!(
        body(&program),
        "\tp[0] += 3;\n\twhile (*p != 0) {\n\t\tputchar(p[0]);\n\t\tif (*p != 0) {\n\t\t\tp[1]++;\n\t\t}\n\t\tp[0]--;\n\t}\n\twhile (*p != 0) {\n\t}\n"
    );
}

#[test]
fn the_c_target_is_the_c_renderer() {
    let program = Compiler::compile("+++[.>+++[>>>+<<<-]<-]").unwrap();
    assert_eq!(transpile_to(Target::C, &program), bf_to_c(&program));
    assert_eq!(
        body(&program),
        "\tp[0] += 3;\n\twhile (*p != 0) {\n\t\tputchar(p[0]);\n\t\tp[1] += 3;\n\t\tp[4] += p[1];\n\t\tp[1] = 0;\n\t\tp[0]--;\n\t}\n"
    );
}
