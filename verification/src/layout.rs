//! The text that comes out, whatever the printer decides at the break
//! hints.
//!
//! A printer puts out the text of each `PrintString` as it is, and at each
//! `PrintSpace` something of its own choice: a space, or a new line and its
//! indentation. The other calls put out nothing. What the printer chooses is
//! left open here: `breaks` holds, for each break hint in its turn, the
//! characters that stand for it.

use vstd::prelude::*;

use crate::printer::printer_calls;
use crate::printer::replay;
use crate::printer::token_calls;
use crate::printer::SpecCall;
use crate::separation::break_points;
use crate::sexp::SpecSexp;
use crate::token::Instr;

verus! {

/// The number of break hints among `calls`.
pub open spec fn break_hints(calls: Seq<SpecCall>) -> nat
    decreases calls.len(),
{
    if calls.len() == 0 {
        0
    } else if calls.last() == SpecCall::PrintSpace {
        break_hints(calls.drop_last()) + 1
    } else {
        break_hints(calls.drop_last())
    }
}

/// The text that `calls` put out when the break hint number `i`, counted
/// from 0, is replaced by `breaks[i]`.
pub open spec fn printed_text(calls: Seq<SpecCall>, breaks: Seq<Seq<char>>) -> Seq<char>
    decreases calls.len(),
{
    if calls.len() == 0 {
        Seq::empty()
    } else {
        let earlier = calls.drop_last();
        printed_text(earlier, breaks) + match calls.last() {
            SpecCall::PrintString(text) => text,
            SpecCall::PrintSpace => breaks[break_hints(earlier) as int],
            _ => Seq::empty(),
        }
    }
}

/// The calls for two runs of tokens are those for the first, then those
/// for the second.
pub proof fn lemma_replay_concat(left: Seq<Instr>, right: Seq<Instr>, indent: nat)
    ensures
        replay(left + right, indent) == replay(left, indent) + replay(right, indent),
    decreases right.len(),
{
    if right.len() == 0 {
        assert(left + right =~= left);
        assert(replay(left, indent) + replay(right, indent) =~= replay(left, indent));
    } else {
        lemma_replay_concat(left, right.drop_last(), indent);
        assert((left + right).drop_last() =~= left + right.drop_last());
        assert(replay(left + right, indent) =~= replay(left, indent) + replay(right, indent));
    }
}

/// The calls for a single token.
pub proof fn lemma_replay_single(token: Instr, indent: nat)
    ensures
        replay(seq![token], indent) == token_calls(token, indent),
{
    assert(seq![token].drop_last() =~= Seq::<Instr>::empty());
    assert(replay(Seq::<Instr>::empty(), indent) + token_calls(token, indent) =~= token_calls(
        token,
        indent,
    ));
}

/// The break hints of two runs of calls add up.
pub proof fn lemma_break_hints_concat(left: Seq<SpecCall>, right: Seq<SpecCall>)
    ensures
        break_hints(left + right) == break_hints(left) + break_hints(right),
    decreases right.len(),
{
    if right.len() == 0 {
        assert(left + right =~= left);
    } else {
        lemma_break_hints_concat(left, right.drop_last());
        assert((left + right).drop_last() =~= left + right.drop_last());
    }
}

/// The calls for one token hold a break hint exactly if the token is a
/// break point.
pub proof fn lemma_token_calls_break_hints(token: Instr, indent: nat)
    ensures
        break_hints(token_calls(token, indent)) == if token == Instr::BreakPoint {
            1nat
        } else {
            0nat
        },
{
    let calls = token_calls(token, indent);
    assert(break_hints(Seq::<SpecCall>::empty()) == 0);
    if calls.len() == 1 {
        assert(calls.drop_last() =~= Seq::<SpecCall>::empty());
    } else {
        let first = seq![calls[0]];
        assert(calls.drop_last() =~= first);
        assert(first.drop_last() =~= Seq::<SpecCall>::empty());
        assert(break_hints(first) == 0);
    }
}

/// The printer meets one break hint for each break point of the tokens.
pub proof fn lemma_replay_break_hints(tokens: Seq<Instr>, indent: nat)
    ensures
        break_hints(replay(tokens, indent)) == break_points(tokens),
    decreases tokens.len(),
{
    if tokens.len() > 0 {
        lemma_replay_break_hints(tokens.drop_last(), indent);
        lemma_token_calls_break_hints(tokens.last(), indent);
        lemma_break_hints_concat(
            replay(tokens.drop_last(), indent),
            token_calls(tokens.last(), indent),
        );
    }
}

/// What one more call adds to the text.
pub proof fn lemma_printed_text_push(calls: Seq<SpecCall>, call: SpecCall, breaks: Seq<Seq<char>>)
    ensures
        printed_text(calls.push(call), breaks) == printed_text(calls, breaks) + match call {
            SpecCall::PrintString(text) => text,
            SpecCall::PrintSpace => breaks[break_hints(calls) as int],
            _ => Seq::empty(),
        },
{
    assert(calls.push(call).drop_last() =~= calls);
}

/// More calls put out more text behind the text that is there: what the
/// first calls put out stays at the front.
pub proof fn lemma_printed_text_grows(
    calls: Seq<SpecCall>,
    more: Seq<SpecCall>,
    breaks: Seq<Seq<char>>,
)
    ensures
        printed_text(calls, breaks).is_prefix_of(printed_text(calls + more, breaks)),
    decreases more.len(),
{
    if more.len() == 0 {
        assert(calls + more =~= calls);
    } else {
        lemma_printed_text_grows(calls, more.drop_last(), breaks);
        assert((calls + more).drop_last() =~= calls + more.drop_last());
    }
}

/// Whatever stands for the break hints, the text of a tree begins with an
/// opening parenthesis and ends with a closing one, also where the tree is
/// a single atom.
pub proof fn lemma_text_in_parentheses(tree: SpecSexp, indent: nat, breaks: Seq<Seq<char>>)
    ensures
        printed_text(printer_calls(tree, indent), breaks).len() >= 2,
        printed_text(printer_calls(tree, indent), breaks).first() == '(',
        printed_text(printer_calls(tree, indent), breaks).last() == ')',
{
    reveal_strlit("(");
    reveal_strlit(")");
    let open = seq![Instr::GroupOpen];
    let close = seq![Instr::GroupClose];
    let head = token_calls(Instr::GroupOpen, indent);
    let inner = replay(tree.tokens(), indent);
    let tail = token_calls(Instr::GroupClose, indent);
    let all = printer_calls(tree, indent);
    lemma_replay_concat(open, tree.tokens(), indent);
    lemma_replay_concat(open + tree.tokens(), close, indent);
    lemma_replay_single(Instr::GroupOpen, indent);
    lemma_replay_single(Instr::GroupClose, indent);
    assert(all == head + inner + tail + seq![SpecCall::PrintFlush]);

    // The end: nothing is put out behind the closing parenthesis.
    let front = printed_text(head + inner, breaks);
    let closed = (head + inner).push(SpecCall::PrintString(")"@));
    lemma_printed_text_push(head + inner, SpecCall::PrintString(")"@), breaks);
    lemma_printed_text_push(closed, SpecCall::CloseBox, breaks);
    lemma_printed_text_push(closed.push(SpecCall::CloseBox), SpecCall::PrintFlush, breaks);
    assert(all =~= closed.push(SpecCall::CloseBox).push(SpecCall::PrintFlush));
    assert(printed_text(all, breaks) =~= front + ")"@);

    // The beginning: nothing is put out before the opening parenthesis.
    let nothing = Seq::<SpecCall>::empty();
    lemma_printed_text_push(nothing, SpecCall::OpenBox(indent), breaks);
    lemma_printed_text_push(
        nothing.push(SpecCall::OpenBox(indent)),
        SpecCall::PrintString("("@),
        breaks,
    );
    assert(head =~= nothing.push(SpecCall::OpenBox(indent)).push(SpecCall::PrintString("("@)));
    assert(printed_text(head, breaks) =~= "("@);
    lemma_printed_text_grows(head, inner, breaks);
    assert(front[0] == printed_text(head, breaks)[0]);
}

} // verus!
