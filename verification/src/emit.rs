//! The texts that the translator emits: the fixed preamble and trailer, one
//! assembly block per recognized instruction character, and the decimal
//! numerals used in loop labels.

use vstd::prelude::*;
use vstd::string::StrSliceExecFns;
use vstd::string::StringExecFns;

verus! {

/// The decimal digit character for a value below ten.
pub open spec fn digit_char(d: nat) -> char {
    if d == 0 {
        '0'
    } else if d == 1 {
        '1'
    } else if d == 2 {
        '2'
    } else if d == 3 {
        '3'
    } else if d == 4 {
        '4'
    } else if d == 5 {
        '5'
    } else if d == 6 {
        '6'
    } else if d == 7 {
        '7'
    } else if d == 8 {
        '8'
    } else {
        '9'
    }
}

/// The decimal numeral of `n`: most significant digit first, no leading
/// zeros (a single `'0'` for zero).
pub open spec fn decimal(n: nat) -> Seq<char>
    decreases n,
{
    if n < 10 {
        seq![digit_char(n)]
    } else {
        decimal(n / 10).push(digit_char(n % 10))
    }
}

/// The fixed assembly header: declares the 30,000-byte tape and the one-byte
/// input staging cell, and an entry point that parks the cursor register at
/// the tape midpoint and zeroes that cell.
pub open spec fn preamble_text() -> Seq<char> {
    ".intel_syntax noprefix\n\n.bss\narr:\n        .space 30000\ninput:\n        .space 1\n\n.section .text\n        .global _start\n\n_start:\n        lea r12, [arr]\n        add r12, 14999\n        mov rdx, 1\n        mov byte ptr [r12], 0\n"@
}

/// The fixed process-exit block appended after the last instruction.
pub open spec fn trailer_text() -> Seq<char> {
    "        mov rax, 60\n        mov rdi, 0\n        syscall\n"@
}

/// The six instruction characters that translate to a fixed block of text,
/// with no label bookkeeping.
pub open spec fn is_simple(c: char) -> bool {
    c == '>' || c == '<' || c == '+' || c == '-' || c == '.' || c == ','
}

/// The eight characters the translator recognizes; everything else is
/// comment text and emits nothing.
pub open spec fn is_instruction(c: char) -> bool {
    is_simple(c) || c == '[' || c == ']'
}

/// The assembly block emitted for one simple instruction character.
pub open spec fn simple_block_text(c: char) -> Seq<char>
    recommends
        is_simple(c),
{
    if c == '>' {
        "        add r12, 1\n"@
    } else if c == '<' {
        "        sub r12, 1\n"@
    } else if c == '+' {
        "        add byte ptr [r12], 1\n"@
    } else if c == '-' {
        "        sub byte ptr [r12], 1\n"@
    } else if c == '.' {
        "        mov rax, 1\n        mov rdi, 1\n        lea rsi, [r12]\n        syscall\n"@
    } else {
        "        mov rax, 0\n        mov rdi, 0\n        lea rsi, [input]\n        syscall\n        mov cl, [input]\n        mov [r12], cl\n"@
    }
}

/// The loop-entry block for label id `n`: the entry label, a test of the
/// current cell, and a forward jump to the matching exit label when zero.
pub open spec fn entry_block_text(n: nat) -> Seq<char> {
    seq!['l'] + decimal(n) + ":\n        movzx ecx, byte ptr [r12]\n        cmp ecx, 0\n        je le"@
        + decimal(n) + "\n"@
}

/// The loop-exit block for label id `n`: the exit label, a test of the
/// current cell, and a backward jump to the entry label when nonzero.
pub open spec fn exit_block_text(n: nat) -> Seq<char> {
    "le"@ + decimal(n) + ":\n        movzx ecx, byte ptr [r12]\n        cmp ecx, 0\n        jne l"@
        + decimal(n) + "\n"@
}

/// The fixed assembly header, as a freshly built string.
pub fn preamble() -> (r: String)
    ensures
        r@ == preamble_text(),
{
    String::from_str(
        ".intel_syntax noprefix\n\n.bss\narr:\n        .space 30000\ninput:\n        .space 1\n\n.section .text\n        .global _start\n\n_start:\n        lea r12, [arr]\n        add r12, 14999\n        mov rdx, 1\n        mov byte ptr [r12], 0\n",
    )
}

/// The fixed process-exit block, as a freshly built string.
pub fn trailer() -> (r: String)
    ensures
        r@ == trailer_text(),
{
    String::from_str("        mov rax, 60\n        mov rdi, 0\n        syscall\n")
}

/// The one-character string for a decimal digit.
fn digit_str(d: usize) -> (r: &'static str)
    requires
        d < 10,
    ensures
        r@ == seq![digit_char(d as nat)],
{
    proof {
        reveal_strlit("0");
        reveal_strlit("1");
        reveal_strlit("2");
        reveal_strlit("3");
        reveal_strlit("4");
        reveal_strlit("5");
        reveal_strlit("6");
        reveal_strlit("7");
        reveal_strlit("8");
        reveal_strlit("9");
    }
    if d == 0 {
        proof {
            assert("0"@ =~= seq![digit_char(d as nat)]);
        }
        "0"
    } else if d == 1 {
        proof {
            assert("1"@ =~= seq![digit_char(d as nat)]);
        }
        "1"
    } else if d == 2 {
        proof {
            assert("2"@ =~= seq![digit_char(d as nat)]);
        }
        "2"
    } else if d == 3 {
        proof {
            assert("3"@ =~= seq![digit_char(d as nat)]);
        }
        "3"
    } else if d == 4 {
        proof {
            assert("4"@ =~= seq![digit_char(d as nat)]);
        }
        "4"
    } else if d == 5 {
        proof {
            assert("5"@ =~= seq![digit_char(d as nat)]);
        }
        "5"
    } else if d == 6 {
        proof {
            assert("6"@ =~= seq![digit_char(d as nat)]);
        }
        "6"
    } else if d == 7 {
        proof {
            assert("7"@ =~= seq![digit_char(d as nat)]);
        }
        "7"
    } else if d == 8 {
        proof {
            assert("8"@ =~= seq![digit_char(d as nat)]);
        }
        "8"
    } else {
        proof {
            assert("9"@ =~= seq![digit_char(d as nat)]);
        }
        "9"
    }
}

/// The decimal numeral of `n`, most significant digit first.
pub(crate) fn dec_string(n: usize) -> (r: String)
    ensures
        r@ == decimal(n as nat),
    decreases n,
{
    if n < 10 {
        String::from_str(digit_str(n))
    } else {
        let mut s = dec_string(n / 10);
        s.append(digit_str(n % 10));
        proof {
            assert(s@ =~= decimal(n as nat / 10).push(digit_char(n as nat % 10)));
            assert(n as nat / 10 == (n / 10) as nat);
            assert(n as nat % 10 == (n % 10) as nat);
        }
        s
    }
}

/// The block of text for one simple instruction character.
pub(crate) fn simple_block(c: char) -> (r: &'static str)
    requires
        is_simple(c),
    ensures
        r@ == simple_block_text(c),
{
    if c == '>' {
        "        add r12, 1\n"
    } else if c == '<' {
        "        sub r12, 1\n"
    } else if c == '+' {
        "        add byte ptr [r12], 1\n"
    } else if c == '-' {
        "        sub byte ptr [r12], 1\n"
    } else if c == '.' {
        "        mov rax, 1\n        mov rdi, 1\n        lea rsi, [r12]\n        syscall\n"
    } else {
        "        mov rax, 0\n        mov rdi, 0\n        lea rsi, [input]\n        syscall\n        mov cl, [input]\n        mov [r12], cl\n"
    }
}

/// The loop-entry block for label id `n`.
pub(crate) fn entry_block(n: usize) -> (r: String)
    ensures
        r@ == entry_block_text(n as nat),
{
    let d = dec_string(n);
    let mut s = String::from_str("l");
    s.append(d.as_str());
    s.append(":\n        movzx ecx, byte ptr [r12]\n        cmp ecx, 0\n        je le");
    s.append(d.as_str());
    s.append("\n");
    proof {
        reveal_strlit("l");
        assert("l"@ =~= seq!['l']);
        assert(s@ =~= entry_block_text(n as nat));
    }
    s
}

/// The loop-exit block for label id `n`.
pub(crate) fn exit_block(n: usize) -> (r: String)
    ensures
        r@ == exit_block_text(n as nat),
{
    let d = dec_string(n);
    let mut s = String::from_str("le");
    s.append(d.as_str());
    s.append(":\n        movzx ecx, byte ptr [r12]\n        cmp ecx, 0\n        jne l");
    s.append(d.as_str());
    s.append("\n");
    proof {
        assert(s@ =~= exit_block_text(n as nat));
    }
    s
}

} // verus!
