use bfc::translate::translate;
use bfc::translate::CompileError;
use bfc::preamble;
use bfc::trailer;

const INC: &str = "        add byte ptr [r12], 1\n";
const DEC: &str = "        sub byte ptr [r12], 1\n";
const RIGHT: &str = "        add r12, 1\n";
const LEFT: &str = "        sub r12, 1\n";
const WRITE: &str = "        mov rax, 1\n        mov rdi, 1\n        lea rsi, [r12]\n        syscall\n";
const READ: &str = "        mov rax, 0\n        mov rdi, 0\n        lea rsi, [input]\n        syscall\n        mov cl, [input]\n        mov [r12], cl\n";

fn entry(n: usize) -> String {
    format!("l{}:\n        movzx ecx, byte ptr [r12]\n        cmp ecx, 0\n        je le{}\n", n, n)
}

fn exit(n: usize) -> String {
    format!("le{}:\n        movzx ecx, byte ptr [r12]\n        cmp ecx, 0\n        jne l{}\n", n, n)
}

#[test]
fn preamble_text_is_the_fixed_header() {
    let expected = "\
.intel_syntax noprefix

.bss
arr:
        .space 30000
input:
        .space 1

.section .text
        .global _start

_start:
        lea r12, [arr]
        add r12, 14999
        mov rdx, 1
        mov byte ptr [r12], 0
";
    assert_eq!(preamble(), expected);
}

#[test]
fn trailer_text_is_the_exit_block() {
    assert_eq!(trailer(), "        mov rax, 60\n        mov rdi, 0\n        syscall\n");
}

#[test]
fn empty_input_gives_preamble_and_trailer_only() {
    let out = translate("").unwrap();
    assert_eq!(out, format!("{}{}", preamble(), trailer()));
}

#[test]
fn comment_only_input_gives_preamble_and_trailer_only() {
    let out = translate("this whole line is a comment\nand so is this one?!\n").unwrap();
    assert_eq!(out, format!("{}{}", preamble(), trailer()));
}

#[test]
fn three_increments_then_one_write() {
    let out = translate("+++.").unwrap();
    let expected = format!("{}{}{}{}{}{}", preamble(), INC, INC, INC, WRITE, trailer());
    assert_eq!(out, expected);
    assert!(!out.contains("l0:"));
}

#[test]
fn read_loop_write_decrement() {
    let out = translate(",[.-]").unwrap();
    let expected = format!(
        "{}{}{}{}{}{}{}",
        preamble(),
        READ,
        entry(0),
        WRITE,
        DEC,
        exit(0),
        trailer()
    );
    assert_eq!(out, expected);
}

#[test]
fn every_simple_instruction_has_its_block() {
    let out = translate("><+-.,").unwrap();
    let expected = format!(
        "{}{}{}{}{}{}{}{}",
        preamble(),
        RIGHT,
        LEFT,
        INC,
        DEC,
        WRITE,
        READ,
        trailer()
    );
    assert_eq!(out, expected);
}

#[test]
fn one_balanced_pair_gets_label_zero() {
    let out = translate("[]").unwrap();
    let expected = format!("{}{}{}{}", preamble(), entry(0), exit(0), trailer());
    assert_eq!(out, expected);
}

#[test]
fn nested_loops_get_distinct_labels() {
    let out = translate("[[]]").unwrap();
    let expected = format!(
        "{}{}{}{}{}{}",
        preamble(),
        entry(0),
        entry(1),
        exit(1),
        exit(0),
        trailer()
    );
    assert_eq!(out, expected);
}

#[test]
fn sibling_loops_get_distinct_labels() {
    let out = translate("[][]").unwrap();
    let expected = format!(
        "{}{}{}{}{}{}",
        preamble(),
        entry(0),
        exit(0),
        entry(1),
        exit(1),
        trailer()
    );
    assert_eq!(out, expected);
}

#[test]
fn balanced_brackets_have_matching_entry_and_exit_counts() {
    for src in ["[]", "[[]]", "[][]", "[[][]]", "[][][]"] {
        let out = translate(src).unwrap();
        let opens = src.chars().filter(|c| *c == '[').count();
        for n in 0..opens {
            assert_eq!(out.matches(&format!("l{}:", n)).count(), 1);
            assert_eq!(out.matches(&format!("le{}:", n)).count(), 1);
        }
    }
}

#[test]
fn eleven_sibling_loops_reach_a_two_digit_label() {
    let src = "[]".repeat(11);
    let out = translate(&src).unwrap();
    assert_eq!(out.matches("l10:").count(), 1);
    assert_eq!(out.matches("le10:").count(), 1);
    assert!(out.contains("je le10\n"));
    assert!(out.contains("jne l10\n"));
}

#[test]
fn lone_close_is_close_without_open() {
    assert_eq!(translate("]"), Err(CompileError::CloseWithoutOpen));
}

#[test]
fn extra_close_after_balanced_pair_is_close_without_open() {
    assert_eq!(translate("[]]"), Err(CompileError::CloseWithoutOpen));
}

#[test]
fn close_without_open_wins_even_with_later_opens() {
    assert_eq!(translate("]["), Err(CompileError::CloseWithoutOpen));
}

#[test]
fn lone_open_is_open_without_close() {
    assert_eq!(translate("["), Err(CompileError::OpenWithoutClose));
}

#[test]
fn unmatched_trailing_open_is_open_without_close() {
    assert_eq!(translate("[[]"), Err(CompileError::OpenWithoutClose));
}

#[test]
fn error_messages_match_the_diagnostics() {
    assert_eq!(
        CompileError::CloseWithoutOpen.message(),
        "Syntax error! You cannot close a loop which has not been opened."
    );
    assert_eq!(
        CompileError::OpenWithoutClose.message(),
        "Syntax error! You have declared a loop which is never closed."
    );
}

#[test]
fn translating_twice_gives_identical_output() {
    let src = "+[>,<-.]";
    let first = translate(src).unwrap();
    let second = translate(src).unwrap();
    assert_eq!(first, second);
}

#[test]
fn comments_between_instructions_change_nothing() {
    let plain = translate("+.").unwrap();
    let commented = translate("a + b gives c . done").unwrap();
    assert_eq!(plain, commented);
}

#[test]
fn comments_do_not_shift_label_numbering() {
    let plain = translate("[[]]").unwrap();
    let commented = translate("[ outer loop [ inner loop ] close inner ] close outer").unwrap();
    assert_eq!(plain, commented);
}
