//! The guarantees the translator gives for every source text, stated and
//! proved once: comment-only sources emit nothing, loop labels are unique
//! and paired, translation is deterministic, and comment characters are
//! inert.  (When translation succeeds and which error it reports otherwise
//! is part of the contract of `translate` itself.)

use vstd::prelude::*;

use crate::emit::is_instruction;
use crate::emit::preamble_text;
use crate::emit::trailer_text;
use crate::translate::body_text;
use crate::translate::lemma_parse_at_status;
use crate::translate::opens_in;
use crate::translate::parse;
use crate::translate::parse_at;
use crate::translate::translated_text;
use crate::translate::Block;
use crate::translate::CompileError;

verus! {

/// The characters the translator acts on, as a predicate value for
/// filtering.
pub open spec fn instruction_pred() -> spec_fn(char) -> bool {
    |c: char| is_instruction(c)
}

/// A comment-only rest of the source emits nothing: the scan just reports
/// whether any loop is still open.
proof fn lemma_parse_at_comment_only(s: Seq<char>, stack: Seq<nat>, next: nat)
    requires
        forall|i: int| 0 <= i < s.len() ==> !is_instruction(#[trigger] s[i]),
    ensures
        parse_at(s, stack, next) == parse_at(Seq::empty(), stack, next),
    decreases s.len(),
{
    if s.len() > 0 {
        assert(!is_instruction(s[0]));
        assert forall|i: int| 0 <= i < s.skip(1).len() implies !is_instruction(
            #[trigger] s.skip(1)[i],
        ) by {
            assert(s.skip(1)[i] == s[i + 1]);
        }
        lemma_parse_at_comment_only(s.skip(1), stack, next);
    }
}

/// A source text with no instruction characters at all translates to
/// exactly the preamble followed by the trailer: zero instruction blocks.
pub proof fn lemma_comment_only_output(s: Seq<char>)
    requires
        forall|i: int| 0 <= i < s.len() ==> !is_instruction(#[trigger] s[i]),
    ensures
        translated_text(s) == Ok::<Seq<char>, CompileError>(preamble_text() + trailer_text()),
{
    lemma_parse_at_comment_only(s, Seq::empty(), 0);
    assert(parse(s) == Ok::<Seq<Block>, CompileError>(Seq::<Block>::empty()));
    assert(preamble_text() + body_text(Seq::<Block>::empty()) =~= preamble_text());
    assert(preamble_text() + body_text(Seq::<Block>::empty()) + trailer_text() =~= preamble_text()
        + trailer_text());
}

/// Translation is a function of the source text alone: running it twice on
/// the same text gives byte-identical output, label numbering included.
pub proof fn lemma_translation_deterministic(s1: Seq<char>, s2: Seq<char>)
    requires
        s1 == s2,
    ensures
        translated_text(s1) == translated_text(s2),
{
}

/// The number of loop-entry blocks in `bs`.
pub open spec fn count_opens(bs: Seq<Block>) -> nat
    decreases bs.len(),
{
    if bs.len() == 0 {
        0
    } else {
        (if bs[0] is Open {
            1nat
        } else {
            0nat
        }) + count_opens(bs.skip(1))
    }
}

/// The number of loop-exit blocks in `bs`.
pub open spec fn count_closes(bs: Seq<Block>) -> nat
    decreases bs.len(),
{
    if bs.len() == 0 {
        0
    } else {
        (if bs[0] is Close {
            1nat
        } else {
            0nat
        }) + count_closes(bs.skip(1))
    }
}

/// The number of loop-entry blocks in `bs` that carry label id `m`.
pub open spec fn count_open_id(bs: Seq<Block>, m: nat) -> nat
    decreases bs.len(),
{
    if bs.len() == 0 {
        0
    } else {
        (if bs[0] == Block::Open(m) {
            1nat
        } else {
            0nat
        }) + count_open_id(bs.skip(1), m)
    }
}

/// The number of loop-exit blocks in `bs` that carry label id `m`.
pub open spec fn count_close_id(bs: Seq<Block>, m: nat) -> nat
    decreases bs.len(),
{
    if bs.len() == 0 {
        0
    } else {
        (if bs[0] == Block::Close(m) {
            1nat
        } else {
            0nat
        }) + count_close_id(bs.skip(1), m)
    }
}

/// The number of occurrences of `m` on an open-loop stack.
spec fn count_on_stack(stack: Seq<nat>, m: nat) -> nat
    decreases stack.len(),
{
    if stack.len() == 0 {
        0
    } else {
        count_on_stack(stack.drop_last(), m) + (if stack.last() == m {
            1nat
        } else {
            0nat
        })
    }
}

/// What a successful scan emits, counted: one entry block per `[`, labelled
/// `next`, `next + 1`, ... in source order, each exactly once; one exit
/// block per `]`; and every id is closed exactly as often as it was opened
/// or was already on the stack when the scan began.
proof fn lemma_parse_at_labels(s: Seq<char>, stack: Seq<nat>, next: nat)
    requires
        parse_at(s, stack, next) is Ok,
    ensures
        ({
            let bs = parse_at(s, stack, next)->Ok_0;
            &&& count_opens(bs) == opens_in(s)
            &&& forall|m: nat|
                count_open_id(bs, m) == (if next <= m < next + opens_in(s) {
                    1nat
                } else {
                    0nat
                })
            &&& forall|m: nat|
                #[trigger] count_close_id(bs, m) == count_open_id(bs, m) + count_on_stack(stack, m)
            &&& count_closes(bs) == count_opens(bs) + stack.len()
        }),
    decreases s.len(),
{
    let bs = parse_at(s, stack, next)->Ok_0;
    if s.len() == 0 {
        assert(stack.len() == 0);
    } else {
        let c = s[0];
        let rest = s.skip(1);
        if c == '[' {
            lemma_parse_at_labels(rest, stack.push(next), next + 1);
            let tail = parse_at(rest, stack.push(next), next + 1)->Ok_0;
            assert(bs == seq![Block::Open(next)] + tail);
            assert(bs[0] == Block::Open(next));
            assert(bs.skip(1) =~= tail);
            assert(stack.push(next).drop_last() =~= stack);
            assert(stack.push(next).last() == next);
            assert(opens_in(s) == 1 + opens_in(rest));
            assert(count_opens(bs) == 1 + count_opens(tail));
            assert(count_closes(bs) == count_closes(tail));
            assert forall|m: nat|
                count_open_id(bs, m) == (if next <= m < next + opens_in(s) {
                    1nat
                } else {
                    0nat
                }) by {
                assert(count_open_id(bs, m) == (if bs[0] == Block::Open(m) {
                    1nat
                } else {
                    0nat
                }) + count_open_id(tail, m));
                assert(count_open_id(tail, m) == (if next + 1 <= m < next + 1 + opens_in(rest) {
                    1nat
                } else {
                    0nat
                }));
            }
            assert forall|m: nat| #[trigger] count_close_id(bs, m) == count_open_id(bs, m)
                + count_on_stack(stack, m) by {
                assert(count_close_id(bs, m) == count_close_id(tail, m));
                assert(count_close_id(tail, m) == count_open_id(tail, m) + count_on_stack(
                    stack.push(next),
                    m,
                ));
                assert(count_on_stack(stack.push(next), m) == count_on_stack(stack, m) + (
                if next == m {
                    1nat
                } else {
                    0nat
                }));
                assert(count_open_id(bs, m) == (if bs[0] == Block::Open(m) {
                    1nat
                } else {
                    0nat
                }) + count_open_id(tail, m));
            }
        } else if c == ']' {
            assert(stack.len() > 0);
            lemma_parse_at_labels(rest, stack.drop_last(), next);
            let tail = parse_at(rest, stack.drop_last(), next)->Ok_0;
            assert(bs == seq![Block::Close(stack.last())] + tail);
            assert(bs[0] == Block::Close(stack.last()));
            assert(bs.skip(1) =~= tail);
            assert(opens_in(s) == opens_in(rest));
            assert(count_opens(bs) == count_opens(tail));
            assert(count_closes(bs) == 1 + count_closes(tail));
            assert forall|m: nat|
                count_open_id(bs, m) == (if next <= m < next + opens_in(s) {
                    1nat
                } else {
                    0nat
                }) by {
                assert(count_open_id(bs, m) == count_open_id(tail, m));
            }
            assert forall|m: nat| #[trigger] count_close_id(bs, m) == count_open_id(bs, m)
                + count_on_stack(stack, m) by {
                assert(count_close_id(bs, m) == (if bs[0] == Block::Close(m) {
                    1nat
                } else {
                    0nat
                }) + count_close_id(tail, m));
                assert(count_close_id(tail, m) == count_open_id(tail, m) + count_on_stack(
                    stack.drop_last(),
                    m,
                ));
                assert(count_on_stack(stack, m) == count_on_stack(stack.drop_last(), m) + (
                if stack.last() == m {
                    1nat
                } else {
                    0nat
                }));
                assert(count_open_id(bs, m) == count_open_id(tail, m));
            }
        } else if is_instruction(c) {
            lemma_parse_at_labels(rest, stack, next);
            let tail = parse_at(rest, stack, next)->Ok_0;
            assert(bs == seq![Block::Simple(c)] + tail);
            assert(bs[0] == Block::Simple(c));
            assert(bs.skip(1) =~= tail);
            assert(opens_in(s) == opens_in(rest));
            assert(count_opens(bs) == count_opens(tail));
            assert(count_closes(bs) == count_closes(tail));
            assert forall|m: nat|
                count_open_id(bs, m) == (if next <= m < next + opens_in(s) {
                    1nat
                } else {
                    0nat
                }) by {
                assert(count_open_id(bs, m) == count_open_id(tail, m));
            }
            assert forall|m: nat| #[trigger] count_close_id(bs, m) == count_open_id(bs, m)
                + count_on_stack(stack, m) by {
                assert(count_close_id(bs, m) == count_close_id(tail, m));
                assert(count_close_id(tail, m) == count_open_id(tail, m) + count_on_stack(
                    stack,
                    m,
                ));
                assert(count_open_id(bs, m) == count_open_id(tail, m));
            }
        } else {
            lemma_parse_at_labels(rest, stack, next);
            assert(opens_in(s) == opens_in(rest));
        }
    }
}

/// Loop labels are globally unique and properly paired: in a successful
/// translation the entry blocks carry exactly the ids `0, 1, ...` up to the
/// number of `[` in the source, each exactly once — nested and sibling
/// loops never share an id — and each id's exit block appears exactly as
/// often as its entry block, so entry and exit blocks are equally many.
pub proof fn lemma_labels_unique_and_paired(s: Seq<char>)
    requires
        parse(s) is Ok,
    ensures
        ({
            let bs = parse(s)->Ok_0;
            &&& count_opens(bs) == count_closes(bs)
            &&& forall|m: nat|
                count_open_id(bs, m) == (if m < opens_in(s) {
                    1nat
                } else {
                    0nat
                })
            &&& forall|m: nat| #[trigger] count_close_id(bs, m) == count_open_id(bs, m)
        }),
{
    lemma_parse_at_labels(s, Seq::empty(), 0);
    lemma_parse_at_status(s, Seq::empty(), 0);
}

/// The scan never looks at a character it does not recognize: filtering
/// the comment characters out of the rest of the source changes nothing.
proof fn lemma_parse_at_filter(s: Seq<char>, stack: Seq<nat>, next: nat)
    ensures
        parse_at(s, stack, next) == parse_at(s.filter(instruction_pred()), stack, next),
    decreases s.len(),
{
    reveal(Seq::filter);
    let pred = instruction_pred();
    if s.len() == 0 {
    } else {
        let c = s[0];
        let rest = s.skip(1);
        assert(s =~= seq![c] + rest);
        Seq::filter_distributes_over_add(seq![c], rest, pred);
        assert(seq![c].drop_last() =~= Seq::<char>::empty());
        assert(seq![c].last() == c);
        assert(Seq::<char>::empty().filter(pred) =~= Seq::<char>::empty());
        if is_instruction(c) {
            assert(seq![c].filter(pred) =~= seq![c]);
            assert(s.filter(pred) == seq![c] + rest.filter(pred));
            assert(s.filter(pred)[0] == c);
            assert(s.filter(pred).skip(1) =~= rest.filter(pred));
            if c == '[' {
                lemma_parse_at_filter(rest, stack.push(next), next + 1);
            } else if c == ']' {
                if stack.len() > 0 {
                    lemma_parse_at_filter(rest, stack.drop_last(), next);
                }
            } else {
                lemma_parse_at_filter(rest, stack, next);
            }
        } else {
            assert(seq![c].filter(pred) =~= Seq::<char>::empty());
            assert(s.filter(pred) =~= rest.filter(pred));
            lemma_parse_at_filter(rest, stack, next);
        }
    }
}

/// Comment characters are inert: removing every unrecognized character
/// from the source changes neither the emitted blocks nor the label
/// numbering nor a byte of the output text.
pub proof fn lemma_comments_inert(s: Seq<char>)
    ensures
        parse(s) == parse(s.filter(instruction_pred())),
        translated_text(s) == translated_text(s.filter(instruction_pred())),
{
    lemma_parse_at_filter(s, Seq::empty(), 0);
}

} // verus!
