use kanic::codegen::generate;
use kanic::error_reporter::error_message;
use kanic::errors::CompileError;

const PREAMBLE_NO_LOCALS: &str = "\
.intel_syntax noprefix
.globl main

main:
        push rbp
        mov rbp, rsp
        sub rsp, 0
";

#[test]
fn test_generate_empty_program_is_preamble_only() {
    assert_eq!(generate("").unwrap(), PREAMBLE_NO_LOCALS);
}

#[test]
fn test_generate_single_return() {
    let expected = format!(
        "{}{}",
        PREAMBLE_NO_LOCALS,
        "        push 42
        pop rax
        mov rsp, rbp
        pop rbp
        ret
"
    );
    assert_eq!(generate("return 42;").unwrap(), expected);
}

#[test]
fn test_generate_simple_formula() {
    let expected = format!(
        "{}{}",
        PREAMBLE_NO_LOCALS,
        "        push 5
        push 20
        pop rdi
        pop rax
        add rax, rdi
        push rax
        push 4
        pop rdi
        pop rax
        sub rax, rdi
        push rax
        pop rax
        mov rsp, rbp
        pop rbp
        ret
"
    );
    assert_eq!(generate("return 5+20-4;").unwrap(), expected);
}

#[test]
fn test_generate_complex_formula() {
    let expected = format!(
        "{}{}",
        PREAMBLE_NO_LOCALS,
        "        push 3
        push 0
        push 2
        pop rdi
        pop rax
        sub rax, rdi
        push rax
        pop rdi
        pop rax
        add rax, rdi
        push rax
        push 3
        pop rdi
        pop rax
        imul rax, rdi
        push rax
        push 5
        push 5
        pop rdi
        pop rax
        cqo
        idiv rdi
        push rax
        pop rdi
        pop rax
        sub rax, rdi
        push rax
        pop rax
        mov rsp, rbp
        pop rbp
        ret
"
    );
    assert_eq!(generate("return (+3 + -2) * 3 - 5 / 5;").unwrap(), expected);
}

#[test]
fn test_generate_comparison() {
    let expected = format!(
        "{}{}",
        PREAMBLE_NO_LOCALS,
        "        push 1
        push 2
        pop rdi
        pop rax
        cmp rax, rdi
        setl al
        movzb rax, al
        push rax
        pop rax
        mov rsp, rbp
        pop rbp
        ret
"
    );
    assert_eq!(generate("return 1 < 2;").unwrap(), expected);
}

#[test]
fn test_generate_gte_swaps_operands() {
    let expected = format!(
        "{}{}",
        PREAMBLE_NO_LOCALS,
        "        push 2
        push 1
        pop rdi
        pop rax
        cmp rax, rdi
        setle al
        movzb rax, al
        push rax
        pop rax
        mov rsp, rbp
        pop rbp
        ret
"
    );
    assert_eq!(generate("return 1 >= 2;").unwrap(), expected);
}

#[test]
fn test_generate_locals() {
    let expected = "\
.intel_syntax noprefix
.globl main

main:
        push rbp
        mov rbp, rsp
        sub rsp, 16
        push 3
        pop rax
        mov [rbp-8], rax
        push rax
        push 10
        pop rax
        mov [rbp-16], rax
        push rax
        push 3
        push [rbp-8]
        pop rdi
        pop rax
        imul rax, rdi
        push rax
        push [rbp-16]
        pop rdi
        pop rax
        add rax, rdi
        push rax
        pop rax
        mov rsp, rbp
        pop rbp
        ret
";
    assert_eq!(generate("a = 3; bar = 10; return 3 * a + bar;").unwrap(), expected);
}

#[test]
fn test_generate_if_else() {
    let expected = format!(
        "{}{}",
        PREAMBLE_NO_LOCALS,
        "        push 1
        pop rax
        cmp rax, 0
        je .L0
        push 2
        pop rax
        mov rsp, rbp
        pop rbp
        ret
.L0:
        push 3
        pop rax
        mov rsp, rbp
        pop rbp
        ret
"
    );
    assert_eq!(generate("if (1) return 2; else return 3;").unwrap(), expected);
}

#[test]
fn test_generate_while_loop() {
    let expected = "\
.intel_syntax noprefix
.globl main

main:
        push rbp
        mov rbp, rsp
        sub rsp, 8
        push 0
        pop rax
        mov [rbp-8], rax
        push rax
.L0:
        push [rbp-8]
        push 10
        pop rdi
        pop rax
        cmp rax, rdi
        setl al
        movzb rax, al
        push rax
        pop rax
        cmp rax, 0
        je .L1
        push [rbp-8]
        push 1
        pop rdi
        pop rax
        add rax, rdi
        push rax
        pop rax
        mov [rbp-8], rax
        push rax
        jmp .L0
.L1:
        push [rbp-8]
        pop rax
        mov rsp, rbp
        pop rbp
        ret
";
    assert_eq!(
        generate("a = 0; while (a < 10) a = a + 1; return a;").unwrap(),
        expected
    );
}

#[test]
fn test_generate_for_without_clauses_pushes_one() {
    let expected = format!(
        "{}{}",
        PREAMBLE_NO_LOCALS,
        ".L0:
        push 1
        pop rax
        cmp rax, 0
        je .L1
        push 1
        pop rax
        mov rsp, rbp
        pop rbp
        ret
        jmp .L0
.L1:
"
    );
    assert_eq!(generate("for (;;) return 1;").unwrap(), expected);
}

#[test]
fn test_generate_dead_second_return_still_emitted() {
    let expected = format!(
        "{}{}",
        PREAMBLE_NO_LOCALS,
        "        push 10
        pop rax
        mov rsp, rbp
        pop rbp
        ret
        push 12
        pop rax
        mov rsp, rbp
        pop rbp
        ret
"
    );
    assert_eq!(generate("return 10; return 12;").unwrap(), expected);
}

#[test]
fn test_generate_invalid_token_diagnostic() {
    let source = "10 + 2 == == 2";
    match generate(source) {
        Err(CompileError::InvalidToken { location }) => {
            assert_eq!(location, 10);
            assert_eq!(
                error_message(source, location, "Invalid token"),
                "\
10 + 2 == == 2
          ^ Invalid token
"
            );
        }
        other => panic!("expected an invalid-token error, found {:?}", other),
    }
}

#[test]
fn test_generate_rejects_assignment_to_literal() {
    assert_eq!(generate("1 = 2;"), Err(CompileError::InvalidAssignTarget));
}

#[test]
fn test_generate_missing_semicolon() {
    match generate("return 1") {
        Err(CompileError::UnexpectedEndExpecting { expected }) => {
            assert_eq!(format!("{:?}", expected), "SemiColon");
        }
        other => panic!("expected an end-of-input error, found {:?}", other),
    }
}

#[test]
fn test_generate_same_input_same_output() {
    let source = "a = 1; if (a) return a; else return 0;";
    assert_eq!(generate(source), generate(source));
}
