//! The instruction translator: a left-to-right scan of the source text that
//! appends one assembly block per recognized character, matches loop
//! brackets with a stack, and allocates a fresh numeric label to every loop.
//!
//! The mathematical model is [`parse_at`]: a recursive scan that either
//! yields the sequence of emitted [`Block`]s or stops at the first bracket
//! error.  [`translate`] is proved to return exactly the text that the model
//! prescribes, and to fail if and only if the brackets do not balance.

use vstd::prelude::*;
use vstd::string::StrSliceExecFns;
use vstd::string::StringExecFns;

use crate::emit::entry_block;
use crate::emit::entry_block_text;
use crate::emit::exit_block;
use crate::emit::exit_block_text;
use crate::emit::is_simple;
use crate::emit::preamble;
use crate::emit::preamble_text;
use crate::emit::simple_block;
use crate::emit::simple_block_text;
use crate::emit::trailer_text;

verus! {

/// Why a translation was abandoned: a `]` with no open loop to close, or a
/// `[` still open when the source text ran out.
#[derive(Clone, Copy, Debug, PartialEq, Eq, Structural)]
pub enum CompileError {
    CloseWithoutOpen,
    OpenWithoutClose,
}

/// The diagnostic reported for an unmatched `]`.
pub open spec fn close_without_open_text() -> Seq<char> {
    "Syntax error! You cannot close a loop which has not been opened."@
}

/// The diagnostic reported for a `[` left open at end of input.
pub open spec fn open_without_close_text() -> Seq<char> {
    "Syntax error! You have declared a loop which is never closed."@
}

impl CompileError {
    /// The diagnostic line for this error.
    pub fn message(&self) -> (r: &'static str)
        ensures
            *self == CompileError::CloseWithoutOpen ==> r@ == close_without_open_text(),
            *self == CompileError::OpenWithoutClose ==> r@ == open_without_close_text(),
    {
        match self {
            CompileError::CloseWithoutOpen => "Syntax error! You cannot close a loop which has not been opened.",
            CompileError::OpenWithoutClose => "Syntax error! You have declared a loop which is never closed.",
        }
    }
}

/// One emitted translation unit: a fixed block for a simple instruction
/// character, or a labelled loop-entry or loop-exit block.
pub enum Block {
    Simple(char),
    Open(nat),
    Close(nat),
}

/// The text of one emitted block.
pub open spec fn block_text(b: Block) -> Seq<char> {
    match b {
        Block::Simple(c) => simple_block_text(c),
        Block::Open(n) => entry_block_text(n),
        Block::Close(n) => exit_block_text(n),
    }
}

/// The concatenated text of a sequence of blocks, in order.
pub open spec fn body_text(bs: Seq<Block>) -> Seq<char>
    decreases bs.len(),
{
    if bs.len() == 0 {
        Seq::empty()
    } else {
        block_text(bs[0]) + body_text(bs.skip(1))
    }
}

/// Appending one block appends its text.
pub proof fn lemma_body_text_push(bs: Seq<Block>, b: Block)
    ensures
        body_text(bs.push(b)) == body_text(bs) + block_text(b),
    decreases bs.len(),
{
    assert(bs.push(b).len() == bs.len() + 1);
    if bs.len() == 0 {
        assert(bs.push(b)[0] == b);
        assert(bs.push(b).skip(1) =~= Seq::<Block>::empty());
        assert(body_text(bs.push(b)) == block_text(b) + body_text(Seq::<Block>::empty()));
        assert(block_text(b) + Seq::<char>::empty() =~= block_text(b));
        assert(Seq::<char>::empty() + block_text(b) =~= block_text(b));
    } else {
        assert(bs.push(b)[0] == bs[0]);
        assert(bs.push(b).skip(1) =~= bs.skip(1).push(b));
        assert(body_text(bs.push(b)) == block_text(bs[0]) + body_text(bs.skip(1).push(b)));
        lemma_body_text_push(bs.skip(1), b);
        assert(body_text(bs) == block_text(bs[0]) + body_text(bs.skip(1)));
        assert(block_text(bs[0]) + (body_text(bs.skip(1)) + block_text(b)) =~= (block_text(bs[0])
            + body_text(bs.skip(1))) + block_text(b));
    }
}

/// The translation scan from an intermediate state: `stack` holds the label
/// ids of the loops currently open, innermost last, and `next` is the
/// smallest label id never yet allocated.  Yields the blocks emitted for the
/// rest of the source, or the first bracket error.
pub open spec fn parse_at(s: Seq<char>, stack: Seq<nat>, next: nat) -> Result<
    Seq<Block>,
    CompileError,
>
    decreases s.len(),
{
    if s.len() == 0 {
        if stack.len() == 0 {
            Ok(Seq::empty())
        } else {
            Err(CompileError::OpenWithoutClose)
        }
    } else {
        let c = s[0];
        let rest = s.skip(1);
        if c == '[' {
            match parse_at(rest, stack.push(next), next + 1) {
                Ok(bs) => Ok(seq![Block::Open(next)] + bs),
                Err(e) => Err(e),
            }
        } else if c == ']' {
            if stack.len() == 0 {
                Err(CompileError::CloseWithoutOpen)
            } else {
                match parse_at(rest, stack.drop_last(), next) {
                    Ok(bs) => Ok(seq![Block::Close(stack.last())] + bs),
                    Err(e) => Err(e),
                }
            }
        } else if is_simple(c) {
            match parse_at(rest, stack, next) {
                Ok(bs) => Ok(seq![Block::Simple(c)] + bs),
                Err(e) => Err(e),
            }
        } else {
            parse_at(rest, stack, next)
        }
    }
}

/// The blocks emitted for a whole source text, or its first bracket error.
pub open spec fn parse(s: Seq<char>) -> Result<Seq<Block>, CompileError> {
    parse_at(s, Seq::empty(), 0)
}

/// The complete output for a source text: preamble, one block per
/// recognized character, trailer — or its first bracket error.
pub open spec fn translated_text(s: Seq<char>) -> Result<Seq<char>, CompileError> {
    match parse(s) {
        Ok(bs) => Ok(preamble_text() + body_text(bs) + trailer_text()),
        Err(e) => Err(e),
    }
}

/// The number of `[` characters in `s`.
pub open spec fn opens_in(s: Seq<char>) -> nat
    decreases s.len(),
{
    if s.len() == 0 {
        0
    } else {
        (if s[0] == '[' {
            1nat
        } else {
            0nat
        }) + opens_in(s.skip(1))
    }
}

/// The number of `]` characters in `s`.
pub open spec fn closes_in(s: Seq<char>) -> nat
    decreases s.len(),
{
    if s.len() == 0 {
        0
    } else {
        (if s[0] == ']' {
            1nat
        } else {
            0nat
        }) + closes_in(s.skip(1))
    }
}

/// Some prefix of `s` holds more `]` than `slack` plus its `[` count: a
/// scan started with `slack` loops already open meets a `]` it cannot
/// match.
pub open spec fn crosses_below(s: Seq<char>, slack: nat) -> bool {
    exists|i: int|
        0 <= i <= s.len() && closes_in(#[trigger] s.take(i)) > opens_in(s.take(i)) + slack
}

/// Some prefix of `s` holds strictly more `]` than `[`.
pub open spec fn has_premature_close(s: Seq<char>) -> bool {
    crosses_below(s, 0)
}

/// Every prefix of `s` has at least as many `[` as `]`, and the totals are
/// equal: every bracket finds its match.
pub open spec fn brackets_balanced(s: Seq<char>) -> bool {
    !has_premature_close(s) && opens_in(s) == closes_in(s)
}

/// How consuming the first character changes the unmatched-close condition.
proof fn lemma_crosses_step(s: Seq<char>, slack: nat)
    requires
        s.len() > 0,
    ensures
        s[0] == '[' ==> (crosses_below(s, slack) <==> crosses_below(s.skip(1), (slack + 1) as nat)),
        s[0] == ']' && slack == 0 ==> crosses_below(s, slack),
        s[0] == ']' && slack > 0 ==> (crosses_below(s, slack) <==> crosses_below(
            s.skip(1),
            (slack - 1) as nat,
        )),
        s[0] != '[' && s[0] != ']' ==> (crosses_below(s, slack) <==> crosses_below(
            s.skip(1),
            slack,
        )),
{
    let rest = s.skip(1);
    let odelta: int = if s[0] == '[' {
        1
    } else {
        0
    };
    let cdelta: int = if s[0] == ']' {
        1
    } else {
        0
    };
    assert forall|i: int| 1 <= i <= s.len() implies opens_in(#[trigger] s.take(i)) == odelta
        + opens_in(rest.take(i - 1)) && closes_in(s.take(i)) == cdelta + closes_in(
        rest.take(i - 1),
    ) by {
        assert(s.take(i).len() == i);
        assert(s.take(i)[0] == s[0]);
        assert(s.take(i).skip(1) =~= rest.take(i - 1));
    }
    assert(s.take(0) =~= Seq::<char>::empty());
    if s[0] == ']' && slack == 0 {
        assert(rest.take(0) =~= Seq::<char>::empty());
        assert(closes_in(s.take(1)) > opens_in(s.take(1)) + slack);
        assert(crosses_below(s, slack));
    }
    let rslack: nat = if s[0] == '[' {
        slack + 1
    } else if s[0] == ']' && slack > 0 {
        (slack - 1) as nat
    } else {
        slack
    };
    if !(s[0] == ']' && slack == 0) {
        if crosses_below(s, slack) {
            let i = choose|i: int|
                0 <= i <= s.len() && closes_in(#[trigger] s.take(i)) > opens_in(s.take(i)) + slack;
            assert(i >= 1);
            assert(closes_in(rest.take(i - 1)) > opens_in(rest.take(i - 1)) + rslack);
            assert(crosses_below(rest, rslack));
        }
        if crosses_below(rest, rslack) {
            let j = choose|j: int|
                0 <= j <= rest.len() && closes_in(#[trigger] rest.take(j)) > opens_in(rest.take(j))
                    + rslack;
            assert(closes_in(s.take(j + 1)) > opens_in(s.take(j + 1)) + slack);
            assert(crosses_below(s, slack));
        }
    }
}

/// What the scan returns, characterized by bracket counts alone: an
/// unmatched `]` exactly when some prefix over-closes, an unmatched `[`
/// exactly when the scan ends with loops still open, success otherwise.
pub proof fn lemma_parse_at_status(s: Seq<char>, stack: Seq<nat>, next: nat)
    ensures
        (parse_at(s, stack, next) == Err::<Seq<Block>, CompileError>(
            CompileError::CloseWithoutOpen,
        )) <==> crosses_below(s, stack.len()),
        (parse_at(s, stack, next) == Err::<Seq<Block>, CompileError>(
            CompileError::OpenWithoutClose,
        )) <==> (!crosses_below(s, stack.len()) && opens_in(s) + stack.len() > closes_in(s)),
        (parse_at(s, stack, next) is Ok) <==> (!crosses_below(s, stack.len()) && opens_in(s)
            + stack.len() == closes_in(s)),
    decreases s.len(),
{
    if s.len() == 0 {
        assert forall|i: int| 0 <= i <= s.len() implies !(closes_in(#[trigger] s.take(i))
            > opens_in(s.take(i)) + stack.len()) by {
            assert(s.take(i) =~= s);
        }
    } else {
        lemma_crosses_step(s, stack.len());
        let c = s[0];
        let rest = s.skip(1);
        if c == '[' {
            lemma_parse_at_status(rest, stack.push(next), next + 1);
        } else if c == ']' {
            if stack.len() > 0 {
                lemma_parse_at_status(rest, stack.drop_last(), next);
            }
        } else {
            lemma_parse_at_status(rest, stack, next);
        }
    }
}

/// When translation succeeds and which error it reports otherwise,
/// characterized by the bracket structure of the source alone.
pub proof fn lemma_translated_status(s: Seq<char>)
    ensures
        translated_text(s) is Ok <==> brackets_balanced(s),
        (translated_text(s) == Err::<Seq<char>, CompileError>(CompileError::CloseWithoutOpen))
            <==> has_premature_close(s),
        (translated_text(s) == Err::<Seq<char>, CompileError>(CompileError::OpenWithoutClose))
            <==> (!has_premature_close(s) && opens_in(s) > closes_in(s)),
{
    lemma_parse_at_status(s, Seq::empty(), 0);
}

/// True exactly if the ids held in `v1` and `v2` together are exactly those
/// below `b`.
pub open spec fn ids_below(v1: Seq<usize>, v2: Seq<usize>, b: nat) -> bool {
    forall|m: usize| (v1.contains(m) || v2.contains(m)) <==> (m as nat) < b
}

/// The label ids of an open-loop stack, as the model sees them.
pub open spec fn stack_ids(v: Seq<usize>) -> Seq<nat> {
    v.map_values(|u: usize| u as nat)
}

/// Whether `v` holds `x`, by a linear scan.
fn vec_contains(v: &Vec<usize>, x: usize) -> (b: bool)
    ensures
        b == v@.contains(x),
{
    let mut j: usize = 0;
    while j < v.len()
        invariant
            j <= v@.len(),
            forall|t: int| 0 <= t < j ==> v@[t] != x,
        decreases v@.len() - j,
    {
        if v[j] == x {
            return true;
        }
        j += 1;
    }
    false
}

/// The smallest label id that is neither on the open-loop stack nor already
/// retired, found by the scan the translator uses: try 0, 1, 2, ... until a
/// free id turns up.  `bound` is the count of ids handed out so far; the two
/// vectors hold exactly the ids below it, so the scan stops there.
fn alloc_label(loop_stack: &Vec<usize>, closed_loops: &Vec<usize>, bound: Ghost<usize>) -> (r:
    usize)
    requires
        ids_below(loop_stack@, closed_loops@, bound@ as nat),
    ensures
        !loop_stack@.contains(r),
        !closed_loops@.contains(r),
        forall|m: usize| m < r ==> loop_stack@.contains(m) || closed_loops@.contains(m),
        r == bound@,
{
    let mut loop_counter: usize = 0;
    loop
        invariant
            ids_below(loop_stack@, closed_loops@, bound@ as nat),
            loop_counter <= bound@,
            forall|m: usize|
                m < loop_counter ==> loop_stack@.contains(m) || closed_loops@.contains(m),
        decreases bound@ - loop_counter,
    {
        if !vec_contains(loop_stack, loop_counter) && !vec_contains(closed_loops, loop_counter) {
            return loop_counter;
        }
        loop_counter += 1;
    }
}

/// Translate a whole source text.  On success the returned string is the
/// complete assembly output — preamble, one block per recognized character
/// in source order, trailer — exactly as [`translated_text`] prescribes.
/// Translation fails if and only if the loop brackets do not balance:
/// a prefix with more `]` than `[` reports a close-without-open, a `[`
/// still open at end of input reports an open-without-close.
pub fn translate(source: &str) -> (r: Result<String, CompileError>)
    ensures
        match r {
            Ok(out) => translated_text(source@) == Ok::<Seq<char>, CompileError>(out@),
            Err(e) => translated_text(source@) == Err::<Seq<char>, CompileError>(e),
        },
        r is Ok <==> brackets_balanced(source@),
        (r is Err && r->Err_0 == CompileError::CloseWithoutOpen) <==> has_premature_close(source@),
        (r is Err && r->Err_0 == CompileError::OpenWithoutClose) <==> (!has_premature_close(source@)
            && opens_in(source@) > closes_in(source@)),
{
    let n = source.unicode_len();
    let mut out = preamble();
    let mut loop_stack: Vec<usize> = Vec::new();
    let mut closed_loops: Vec<usize> = Vec::new();
    let ghost mut next: nat = 0;
    let ghost mut blocks: Seq<Block> = Seq::empty();
    let mut i: usize = 0;
    proof {
        assert(source@.skip(0) =~= source@);
        assert(stack_ids(loop_stack@) =~= Seq::<nat>::empty());
        if parse(source@) is Ok {
            assert(Seq::<Block>::empty() + parse(source@)->Ok_0 =~= parse(source@)->Ok_0);
        }
        assert(preamble_text() + body_text(blocks) =~= preamble_text());
    }
    while i < n
        invariant
            n == source@.len(),
            i <= n,
            next <= i,
            ids_below(loop_stack@, closed_loops@, next),
            parse_at(source@.skip(i as int), stack_ids(loop_stack@), next) is Ok ==> parse(source@)
                == Ok::<Seq<Block>, CompileError>(
                blocks + parse_at(source@.skip(i as int), stack_ids(loop_stack@), next)->Ok_0,
            ),
            parse_at(source@.skip(i as int), stack_ids(loop_stack@), next) is Err ==> parse(
                source@,
            ) == parse_at(source@.skip(i as int), stack_ids(loop_stack@), next),
            out@ == preamble_text() + body_text(blocks),
        decreases n - i,
    {
        let ghost rest0 = source@.skip(i as int);
        let ghost rest1 = source@.skip(i as int + 1);
        let ghost stack0 = loop_stack@;
        let ghost closed0 = closed_loops@;
        let ghost blocks0 = blocks;
        let c = source.get_char(i);
        proof {
            assert(rest0[0] == c);
            assert(rest0.skip(1) =~= rest1);
        }
        if c == '[' {
            let id = alloc_label(&loop_stack, &closed_loops, Ghost(next as usize));
            loop_stack.push(id);
            let blk = entry_block(id);
            out.append(blk.as_str());
            proof {
                blocks = blocks.push(Block::Open(next));
                assert(stack_ids(loop_stack@) =~= stack_ids(stack0).push(next));
                assert forall|m: usize| (loop_stack@.contains(m) || closed_loops@.contains(m))
                    <==> (m as nat) < next + 1 by {
                    if (m as nat) < next + 1 {
                        if (m as nat) < next {
                            if stack0.contains(m) {
                                let t = choose|t: int|
                                    0 <= t < stack0.len() && stack0[t] == m;
                                assert(loop_stack@[t] == m);
                            }
                        } else {
                            assert(loop_stack@[stack0.len() as int] == id);
                        }
                    } else {
                        if loop_stack@.contains(m) {
                            let t = choose|t: int|
                                0 <= t < loop_stack@.len() && loop_stack@[t] == m;
                            if t < stack0.len() {
                                assert(stack0[t] == m);
                                assert(stack0.contains(m));
                            }
                        }
                    }
                }
                if parse_at(rest1, stack_ids(loop_stack@), next + 1) is Ok {
                    let bs = parse_at(rest1, stack_ids(loop_stack@), next + 1)->Ok_0;
                    assert(parse_at(rest0, stack_ids(stack0), next) == Ok::<
                        Seq<Block>,
                        CompileError,
                    >(seq![Block::Open(next)] + bs));
                    assert(blocks0 + (seq![Block::Open(next)] + bs) =~= blocks + bs);
                }
                lemma_body_text_push(blocks0, Block::Open(next));
                assert((preamble_text() + body_text(blocks0)) + entry_block_text(next)
                    =~= preamble_text() + body_text(blocks));
                next = next + 1;
            }
        } else if c == ']' {
            if loop_stack.len() == 0 {
                proof {
                    assert(stack_ids(loop_stack@).len() == 0);
                    assert(parse(source@) == Err::<Seq<Block>, CompileError>(
                        CompileError::CloseWithoutOpen,
                    ));
                    lemma_translated_status(source@);
                }
                return Err(CompileError::CloseWithoutOpen);
            }
            let top = loop_stack[loop_stack.len() - 1];
            loop_stack.pop();
            closed_loops.push(top);
            let blk = exit_block(top);
            out.append(blk.as_str());
            proof {
                blocks = blocks.push(Block::Close(top as nat));
                assert(loop_stack@ =~= stack0.drop_last());
                assert(stack_ids(loop_stack@) =~= stack_ids(stack0).drop_last());
                assert(stack_ids(stack0).last() == top as nat);
                assert(closed_loops@ == closed0.push(top));
                assert forall|m: usize| (loop_stack@.contains(m) || closed_loops@.contains(m))
                    <==> (m as nat) < next by {
                    if (m as nat) < next {
                        if stack0.contains(m) {
                            let t = choose|t: int| 0 <= t < stack0.len() && stack0[t] == m;
                            if t < stack0.len() - 1 {
                                assert(loop_stack@[t] == m);
                            } else {
                                assert(closed_loops@[closed0.len() as int] == top);
                            }
                        } else if closed0.contains(m) {
                            let t = choose|t: int| 0 <= t < closed0.len() && closed0[t] == m;
                            assert(closed_loops@[t] == m);
                        }
                    } else {
                        if loop_stack@.contains(m) {
                            let t = choose|t: int|
                                0 <= t < loop_stack@.len() && loop_stack@[t] == m;
                            assert(stack0[t] == m);
                            assert(stack0.contains(m));
                        }
                        if closed_loops@.contains(m) {
                            let t = choose|t: int|
                                0 <= t < closed_loops@.len() && closed_loops@[t] == m;
                            if t < closed0.len() {
                                assert(closed0[t] == m);
                                assert(closed0.contains(m));
                            } else {
                                assert(m == top);
                                assert(stack0.last() == top);
                                assert(stack0.contains(m));
                            }
                        }
                    }
                }
                if parse_at(rest1, stack_ids(loop_stack@), next) is Ok {
                    let bs = parse_at(rest1, stack_ids(loop_stack@), next)->Ok_0;
                    assert(parse_at(rest0, stack_ids(stack0), next) == Ok::<
                        Seq<Block>,
                        CompileError,
                    >(seq![Block::Close(top as nat)] + bs));
                    assert(blocks0 + (seq![Block::Close(top as nat)] + bs) =~= blocks + bs);
                }
                lemma_body_text_push(blocks0, Block::Close(top as nat));
                assert((preamble_text() + body_text(blocks0)) + exit_block_text(top as nat)
                    =~= preamble_text() + body_text(blocks));
            }
        } else if c == '>' || c == '<' || c == '+' || c == '-' || c == '.' || c == ',' {
            out.append(simple_block(c));
            proof {
                blocks = blocks.push(Block::Simple(c));
                if parse_at(rest1, stack_ids(loop_stack@), next) is Ok {
                    let bs = parse_at(rest1, stack_ids(loop_stack@), next)->Ok_0;
                    assert(parse_at(rest0, stack_ids(stack0), next) == Ok::<
                        Seq<Block>,
                        CompileError,
                    >(seq![Block::Simple(c)] + bs));
                    assert(blocks0 + (seq![Block::Simple(c)] + bs) =~= blocks + bs);
                }
                lemma_body_text_push(blocks0, Block::Simple(c));
                assert((preamble_text() + body_text(blocks0)) + simple_block_text(c)
                    =~= preamble_text() + body_text(blocks));
            }
        } else {
            proof {
                assert(!is_simple(c));
                assert(parse_at(rest0, stack_ids(loop_stack@), next) == parse_at(
                    rest1,
                    stack_ids(loop_stack@),
                    next,
                ));
            }
        }
        i += 1;
    }
    proof {
        assert(source@.skip(n as int) =~= Seq::<char>::empty());
    }
    if loop_stack.len() > 0 {
        proof {
            assert(stack_ids(loop_stack@).len() > 0);
            assert(parse(source@) == Err::<Seq<Block>, CompileError>(
                CompileError::OpenWithoutClose,
            ));
            lemma_translated_status(source@);
        }
        return Err(CompileError::OpenWithoutClose);
    }
    out.append("        mov rax, 60\n        mov rdi, 0\n        syscall\n");
    proof {
        assert(stack_ids(loop_stack@).len() == 0);
        assert(blocks + Seq::<Block>::empty() =~= blocks);
        assert(parse(source@) == Ok::<Seq<Block>, CompileError>(blocks));
        assert((preamble_text() + body_text(blocks)) + trailer_text() =~= preamble_text()
            + body_text(blocks) + trailer_text());
        lemma_translated_status(source@);
    }
    Ok(out)
}

} // verus!
