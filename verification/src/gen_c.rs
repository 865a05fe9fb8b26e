//! Rendering a program as C source.
use vstd::prelude::*;
use vstd::string::StringExecFns;
use crate::command::{lemma_view_composite, views, Cmd, Command};

verus! {

/// The decimal digit `d`, as text.
pub open spec fn digit(d: int) -> Seq<char> {
    if d == 0 {
        "0"@
    } else if d == 1 {
        "1"@
    } else if d == 2 {
        "2"@
    } else if d == 3 {
        "3"@
    } else if d == 4 {
        "4"@
    } else if d == 5 {
        "5"@
    } else if d == 6 {
        "6"@
    } else if d == 7 {
        "7"@
    } else if d == 8 {
        "8"@
    } else {
        "9"@
    }
}

/// The decimal numeral of `n`, without leading zeros.
pub open spec fn decimal(n: nat) -> Seq<char>
    decreases n,
{
    if n < 10 {
        digit(n as int)
    } else {
        decimal(n / 10) + digit((n % 10) as int)
    }
}

/// The absolute value of `n`.
pub open spec fn magnitude(n: int) -> nat {
    if n < 0 {
        (-n) as nat
    } else {
        n as nat
    }
}

/// The decimal numeral of `n`, with a minus sign in front where it is
/// negative.
pub open spec fn signed(n: int) -> Seq<char> {
    if n < 0 {
        "-"@ + decimal(magnitude(n))
    } else {
        decimal(magnitude(n))
    }
}

/// The operator sign for a compound assignment by `value`: `+` where it is
/// not negative, `-` where it is.
pub open spec fn sign_of(value: int) -> Seq<char> {
    if value >= 0 {
        "+"@
    } else {
        "-"@
    }
}

/// `level` tabs.
pub open spec fn tabs(level: int) -> Seq<char>
    decreases level,
{
    if level <= 0 {
        Seq::empty()
    } else {
        tabs(level - 1) + "\t"@
    }
}

/// One line of output: `code`, indented by `level` tabs and ended by a
/// newline.
pub open spec fn line(code: Seq<char>, level: int) -> Seq<char> {
    tabs(level) + code + "\n"@
}

/// The C statement for a command that is neither a loop nor a conditional.
///
/// A unit step is written with `++` or `--`; any other `Add` or `MovePtr` as
/// a compound assignment by its magnitude. A `MultAdd` adds or subtracts the
/// source cell times the factor's magnitude, and leaves the factor out where
/// that magnitude is one.
pub open spec fn statement(command: Cmd) -> Seq<char> {
    match command {
        Cmd::Assign(offset, value) => "p["@ + signed(offset as int) + "] = "@ + signed(
            value as int,
        ) + ";"@,
        Cmd::Add(offset, value) => if value == 1 {
            "p["@ + signed(offset as int) + "]"@ + "++;"@
        } else if value == -1 {
            "p["@ + signed(offset as int) + "]"@ + "--;"@
        } else {
            "p["@ + signed(offset as int) + "]"@ + " "@ + sign_of(value as int) + "= "@ + decimal(
                magnitude(value as int),
            ) + ";"@
        },
        Cmd::MultAssign(src, dst, factor) => if factor == 1 {
            "p["@ + signed(dst as int) + "] = p["@ + signed(src as int) + "];"@
        } else {
            "p["@ + signed(dst as int) + "] = p["@ + signed(src as int) + "] * "@ + signed(
                factor as int,
            ) + ";"@
        },
        Cmd::MultAdd(src, dst, factor) => if magnitude(factor as int) == 1 {
            "p["@ + signed(dst as int) + "] "@ + sign_of(factor as int) + "= p["@ + signed(
                src as int,
            ) + "];"@
        } else {
            "p["@ + signed(dst as int) + "] "@ + sign_of(factor as int) + "= p["@ + signed(
                src as int,
            ) + "] * "@ + decimal(magnitude(factor as int)) + ";"@
        },
        Cmd::MovePtr(offset) => if offset == 1 {
            "p++;"@
        } else if offset == -1 {
            "p--;"@
        } else {
            "p "@ + sign_of(offset as int) + "= "@ + decimal(magnitude(offset as int)) + ";"@
        },
        Cmd::Input(offset) => "p["@ + signed(offset as int) + "] = read();"@,
        Cmd::Output(offset) => "putchar(p["@ + signed(offset as int) + "]);"@,
        Cmd::If(_) => Seq::empty(),
        Cmd::Loop(_) => Seq::empty(),
    }
}

/// The nesting level of a body that stands in a block at `level`: one more,
/// up to the largest level there is.
pub open spec fn deeper(level: int) -> int {
    if level < i32::MAX {
        level + 1
    } else {
        level
    }
}

/// The lines for one command at nesting level `level`: one line for a
/// simple command; for a conditional or a loop, the `if` or `while` that
/// tests the current cell, the lines of the body one level deeper, and the
/// closing brace.
pub open spec fn block(command: Cmd, level: int) -> Seq<char>
    decreases command, 0nat,
{
    match command {
        Cmd::If(body) => line("if (*p != 0) {"@, level) + lines(body, body.len(), deeper(level))
            + line("}"@, level),
        Cmd::Loop(body) => line("while (*p != 0) {"@, level) + lines(
            body,
            body.len(),
            deeper(level),
        ) + line("}"@, level),
        simple => line(statement(simple), level),
    }
}

/// The lines for the first `n` of `commands`, at nesting level `level`.
pub open spec fn lines(commands: Seq<Cmd>, n: nat, level: int) -> Seq<char>
    decreases commands, n,
{
    if n == 0 || n > commands.len() {
        Seq::empty()
    } else {
        lines(commands, (n - 1) as nat, level) + block(commands[n - 1], level)
    }
}

/// The lines that stand before the program's statements.
pub open spec fn prologue() -> Seq<char> {
    line("#include <stdint.h>"@, 0) + line("#include <stdio.h>"@, 0) + line(
        "#include <stdlib.h>"@,
        0,
    ) + line(""@, 0) + line("static uint8_t read() {"@, 0) + line("int temp = getchar();"@, 1)
        + line("return (uint8_t)(temp != EOF ? temp : 0);"@, 1) + line("}"@, 0) + line(""@, 0)
        + line("int main(void) {"@, 0) + line("uint8_t mem[1000000] = {0};"@, 1) + line(
        "uint8_t *p = &mem[1000];"@,
        1,
    ) + line(""@, 0)
}

/// The lines that stand after the program's statements.
pub open spec fn epilogue() -> Seq<char> {
    line(""@, 0) + line("return EXIT_SUCCESS;"@, 1) + line("}"@, 0)
}

/// The C source of `program`: the prologue, the program's statements inside
/// `main` at nesting level one, and the epilogue.
pub open spec fn c_source(program: Seq<Cmd>) -> Seq<char> {
    prologue() + lines(program, program.len(), 1) + epilogue()
}

/// The text of one decimal digit.
fn digit_text(d: u32) -> (text: &'static str)
    requires
        d < 10,
    ensures
        text@ == digit(d as int),
{
    if d == 0 {
        "0"
    } else if d == 1 {
        "1"
    } else if d == 2 {
        "2"
    } else if d == 3 {
        "3"
    } else if d == 4 {
        "4"
    } else if d == 5 {
        "5"
    } else if d == 6 {
        "6"
    } else if d == 7 {
        "7"
    } else if d == 8 {
        "8"
    } else {
        "9"
    }
}

/// Appends the decimal numeral of `n` to `out`.
fn push_decimal(out: &mut String, n: u32)
    ensures
        final(out)@ == old(out)@ + decimal(n as nat),
    decreases n,
{
    if n >= 10 {
        push_decimal(out, n / 10);
    }
    out.append(digit_text(n % 10));
}

/// The absolute value of `n`.
fn abs(n: i32) -> (size: u32)
    ensures
        size == magnitude(n as int),
{
    if n < 0 {
        (-(n as i64)) as u32
    } else {
        n as u32
    }
}

/// Appends the decimal numeral of `n` to `out`, with its sign.
fn push_signed(out: &mut String, n: i32)
    ensures
        final(out)@ == old(out)@ + signed(n as int),
{
    if n < 0 {
        out.append("-");
    }
    push_decimal(out, abs(n));
}

/// One line of output: `code`, indented by `level` tabs and ended by a
/// newline.
fn emit(code: &str, level: i32) -> (result: String)
    ensures
        result@ == line(code@, level as int),
{
    let mut result = String::new();
    let mut done: i32 = 0;
    while done < level
        invariant
            0 <= done,
            done <= level || done == 0,
            result@ == tabs(done as int),
        decreases level - done,
    {
        result.append("\t");
        done = done + 1;
    }
    result.append(code);
    result.append("\n");
    result
}

/// The operator sign for a compound assignment by `value`.
fn sign(value: i32) -> (result: String)
    ensures
        result@ == sign_of(value as int),
{
    if value >= 0 {
        "+".to_owned()
    } else {
        "-".to_owned()
    }
}

/// The nesting level of a body inside a block at `level`.
fn inside(level: i32) -> (inner: i32)
    ensures
        inner == deeper(level as int),
{
    if level < i32::MAX {
        level + 1
    } else {
        level
    }
}

/// The lines for `program` at nesting level `level`, bodies included.
fn emit_commands(program: &[Command], level: i32) -> (result: String)
    ensures
        result@ == lines(views(program@), program@.len(), level as int),
    decreases program@,
{
    let ghost source = views(program@);
    let mut result = String::new();
    let mut i: usize = 0;
    while i < program.len()
        invariant
            i <= program.len(),
            source == views(program@),
            result@ == lines(source, i as nat, level as int),
        decreases program.len() - i,
    {
        let ghost before = result@;
        proof {
            assert(lines(source, (i + 1) as nat, level as int) == before + block(
                source[i as int],
                level as int,
            ));
        }
        match &program[i] {
            Command::Assign(offset, value) => {
                let mut s = String::new();
                s.append("p[");
                push_signed(&mut s, *offset);
                s.append("] = ");
                push_signed(&mut s, *value);
                s.append(";");
                result.append(emit(s.as_str(), level).as_str());
            },
            Command::Add(offset, value) => {
                let mut s = String::new();
                s.append("p[");
                push_signed(&mut s, *offset);
                s.append("]");
                if *value == 1 {
                    s.append("++;");
                } else if *value == -1 {
                    s.append("--;");
                } else {
                    s.append(" ");
                    s.append(sign(*value).as_str());
                    s.append("= ");
                    push_decimal(&mut s, abs(*value));
                    s.append(";");
                }
                result.append(emit(s.as_str(), level).as_str());
            },
            Command::MultAssign(src, dest, value) => {
                let mut s = String::new();
                s.append("p[");
                push_signed(&mut s, *dest);
                s.append("] = p[");
                push_signed(&mut s, *src);
                if *value == 1 {
                    s.append("];");
                } else {
                    s.append("] * ");
                    push_signed(&mut s, *value);
                    s.append(";");
                }
                result.append(emit(s.as_str(), level).as_str());
            },
            Command::MultAdd(src, dest, value) => {
                let mut s = String::new();
                s.append("p[");
                push_signed(&mut s, *dest);
                s.append("] ");
                s.append(sign(*value).as_str());
                s.append("= p[");
                push_signed(&mut s, *src);
                if abs(*value) == 1 {
                    s.append("];");
                } else {
                    s.append("] * ");
                    push_decimal(&mut s, abs(*value));
                    s.append(";");
                }
                result.append(emit(s.as_str(), level).as_str());
            },
            Command::MovePtr(offset) => {
                if *offset == 1 {
                    result.append(emit("p++;", level).as_str());
                } else if *offset == -1 {
                    result.append(emit("p--;", level).as_str());
                } else {
                    let mut s = String::new();
                    s.append("p ");
                    s.append(sign(*offset).as_str());
                    s.append("= ");
                    push_decimal(&mut s, abs(*offset));
                    s.append(";");
                    result.append(emit(s.as_str(), level).as_str());
                }
            },
            Command::Input(offset) => {
                let mut s = String::new();
                s.append("p[");
                push_signed(&mut s, *offset);
                s.append("] = read();");
                result.append(emit(s.as_str(), level).as_str());
            },
            Command::Output(offset) => {
                let mut s = String::new();
                s.append("putchar(p[");
                push_signed(&mut s, *offset);
                s.append("]);");
                result.append(emit(s.as_str(), level).as_str());
            },
            Command::If(commands) => {
                proof {
                    lemma_view_composite(*commands);
                }
                result.append(emit("if (*p != 0) {", level).as_str());
                result.append(emit_commands(commands.as_slice(), inside(level)).as_str());
                result.append(emit("}", level).as_str());
            },
            Command::Loop(commands) => {
                proof {
                    lemma_view_composite(*commands);
                }
                result.append(emit("while (*p != 0) {", level).as_str());
                result.append(emit_commands(commands.as_slice(), inside(level)).as_str());
                result.append(emit("}", level).as_str());
            },
        }
        i += 1;
    }
    result
}

/// Renders `program` as a self-contained C program.
///
/// The text is a fixed prologue (the includes, a `read` helper that yields
/// zero at the end of input, the zeroed cell buffer and the pointer into
/// it), one statement or block for each command in order, indented by its
/// nesting depth, and a fixed epilogue.
pub fn bf_to_c(program: &[Command]) -> (result: String)
    ensures
        result@ == c_source(views(program@)),
{
    let mut result = String::new();
    result.append(emit("#include <stdint.h>", 0).as_str());
    result.append(emit("#include <stdio.h>", 0).as_str());
    result.append(emit("#include <stdlib.h>", 0).as_str());
    result.append(emit("", 0).as_str());
    result.append(emit("static uint8_t read() {", 0).as_str());
    result.append(emit("int temp = getchar();", 1).as_str());
    result.append(emit("return (uint8_t)(temp != EOF ? temp : 0);", 1).as_str());
    result.append(emit("}", 0).as_str());
    result.append(emit("", 0).as_str());
    result.append(emit("int main(void) {", 0).as_str());
    result.append(emit("uint8_t mem[1000000] = {0};", 1).as_str());
    result.append(emit("uint8_t *p = &mem[1000];", 1).as_str());
    result.append(emit("", 0).as_str());
    result.append(emit_commands(program, 1).as_str());
    result.append(emit("", 0).as_str());
    result.append(emit("return EXIT_SUCCESS;", 1).as_str());
    result.append(emit("}", 0).as_str());
    result
}

} // verus!
