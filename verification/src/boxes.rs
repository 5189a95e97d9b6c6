//! The boxes of the printer are opened and closed like brackets.

use vstd::prelude::*;

use crate::error::RenderError;
use crate::nesting::balanced;
use crate::nesting::group_step;
use crate::nesting::lemma_stream_is_one_group;
use crate::nesting::open_groups;
use crate::printer::call_views;
use crate::printer::printer_calls;
use crate::printer::replay;
use crate::printer::token_calls;
use crate::printer::PrinterCall;
use crate::printer::SpecCall;
use crate::sexp::SpecSexp;
use crate::token::Instr;

verus! {

/// What one call adds to the number of open boxes.
pub open spec fn box_step(call: SpecCall) -> int {
    match call {
        SpecCall::OpenBox(_) => 1,
        SpecCall::CloseBox => -1,
        _ => 0,
    }
}

/// The number of boxes that are open behind `calls`: those opened less
/// those closed.
pub open spec fn open_boxes(calls: Seq<SpecCall>) -> int
    decreases calls.len(),
{
    if calls.len() == 0 {
        0
    } else {
        open_boxes(calls.drop_last()) + box_step(calls.last())
    }
}

/// No call of `calls` closes a box while none is open.
pub open spec fn closes_only_open_boxes(calls: Seq<SpecCall>) -> bool {
    forall|k: int| 0 <= k <= calls.len() ==> open_boxes(#[trigger] calls.take(k)) >= 0
}

/// Looks for a call that closes a box while none is open. There is one
/// exactly if the answer is [`RenderError::UnbalancedGroupError`].
pub fn check_boxes(calls: &Vec<PrinterCall<'_>>) -> (res: Result<(), RenderError>)
    ensures
        closes_only_open_boxes(call_views(calls@)) ==> res is Ok,
        !closes_only_open_boxes(call_views(calls@)) ==> res == Err::<(), RenderError>(
            RenderError::UnbalancedGroupError,
        ),
{
    let ghost models = call_views(calls@);
    let mut depth: usize = 0;
    let mut i: usize = 0;
    proof {
        assert(models.take(0) =~= Seq::<SpecCall>::empty());
    }
    while i < calls.len()
        invariant
            i <= calls.len(),
            models == call_views(calls@),
            depth == open_boxes(models.take(i as int)),
            depth <= i,
            forall|k: int| 0 <= k <= i ==> open_boxes(#[trigger] models.take(k)) >= 0,
        decreases calls.len() - i,
    {
        proof {
            assert(models.take(i + 1).drop_last() =~= models.take(i as int));
            assert(models.take(i + 1).last() == calls@[i as int]@);
        }
        match calls[i] {
            PrinterCall::OpenBox(_) => {
                depth += 1;
            },
            PrinterCall::CloseBox => {
                if depth == 0 {
                    assert(open_boxes(models.take(i + 1)) < 0);
                    return Err(RenderError::UnbalancedGroupError);
                }
                depth -= 1;
            },
            _ => {},
        }
        i += 1;
    }
    Ok(())
}

/// The open boxes behind two runs of calls add up.
pub proof fn lemma_open_boxes_concat(left: Seq<SpecCall>, right: Seq<SpecCall>)
    ensures
        open_boxes(left + right) == open_boxes(left) + open_boxes(right),
    decreases right.len(),
{
    if right.len() == 0 {
        assert(left + right =~= left);
    } else {
        lemma_open_boxes_concat(left, right.drop_last());
        assert((left + right).drop_last() =~= left + right.drop_last());
    }
}

/// The calls for one token open or close a box as the token does a group,
/// and none but the last of them closes a box.
pub proof fn lemma_token_calls_boxes(token: Instr, indent: nat)
    ensures
        open_boxes(token_calls(token, indent)) == group_step(token),
        forall|k: int|
            0 <= k < token_calls(token, indent).len() ==> open_boxes(
                #[trigger] token_calls(token, indent).take(k),
            ) >= 0,
{
    let calls = token_calls(token, indent);
    assert(open_boxes(Seq::<SpecCall>::empty()) == 0);
    assert(calls.take(0) =~= Seq::<SpecCall>::empty());
    assert(calls.take(calls.len() as int) =~= calls);
    if calls.len() == 1 {
        assert(calls.drop_last() =~= Seq::<SpecCall>::empty());
    } else {
        assert(calls.len() == 2);
        assert(calls.take(1).drop_last() =~= Seq::<SpecCall>::empty());
        assert(calls.drop_last() =~= calls.take(1));
        assert(calls.take(1).last() == calls[0]);
    }
    assert forall|k: int| 0 <= k < calls.len() implies open_boxes(#[trigger] calls.take(k))
        >= 0 by {
        assert(k == 0 || k == 1);
    }
}

/// Behind the calls for some tokens as many boxes are open as groups behind
/// the tokens.
pub proof fn lemma_replay_open_boxes(tokens: Seq<Instr>, indent: nat)
    ensures
        open_boxes(replay(tokens, indent)) == open_groups(tokens),
    decreases tokens.len(),
{
    if tokens.len() > 0 {
        lemma_replay_open_boxes(tokens.drop_last(), indent);
        lemma_token_calls_boxes(tokens.last(), indent);
        lemma_open_boxes_concat(
            replay(tokens.drop_last(), indent),
            token_calls(tokens.last(), indent),
        );
    }
}

/// Tokens that close no group but an open one give calls that close no box
/// but an open one.
pub proof fn lemma_replay_closes_only_open_boxes(tokens: Seq<Instr>, indent: nat)
    requires
        forall|k: int| 0 <= k <= tokens.len() ==> open_groups(#[trigger] tokens.take(k)) >= 0,
    ensures
        closes_only_open_boxes(replay(tokens, indent)),
    decreases tokens.len(),
{
    let calls = replay(tokens, indent);
    if tokens.len() == 0 {
        assert forall|k: int| 0 <= k <= calls.len() implies open_boxes(#[trigger] calls.take(k))
            >= 0 by {
            assert(calls.take(k) =~= Seq::<SpecCall>::empty());
        }
    } else {
        let earlier = tokens.drop_last();
        let before = replay(earlier, indent);
        let last = token_calls(tokens.last(), indent);
        assert forall|k: int| 0 <= k <= earlier.len() implies open_groups(
            #[trigger] earlier.take(k),
        ) >= 0 by {
            assert(earlier.take(k) =~= tokens.take(k));
        }
        lemma_replay_closes_only_open_boxes(earlier, indent);
        lemma_replay_open_boxes(earlier, indent);
        lemma_token_calls_boxes(tokens.last(), indent);
        assert(earlier =~= tokens.take(tokens.len() - 1));
        assert(tokens =~= tokens.take(tokens.len() as int));
        assert(open_groups(tokens) == open_groups(earlier) + group_step(tokens.last()));
        assert forall|k: int| 0 <= k <= calls.len() implies open_boxes(#[trigger] calls.take(k))
            >= 0 by {
            if k <= before.len() {
                assert(calls.take(k) =~= before.take(k));
            } else {
                let rest = k - before.len();
                assert(calls.take(k) =~= before + last.take(rest));
                lemma_open_boxes_concat(before, last.take(rest));
                if rest == last.len() {
                    assert(last.take(rest) =~= last);
                }
            }
        }
    }
}

/// The calls that print a tree close no box but an open one, and leave none
/// open: [`check_boxes`] finds nothing wrong with them.
pub proof fn lemma_printer_calls_balanced(tree: SpecSexp, indent: nat)
    ensures
        closes_only_open_boxes(printer_calls(tree, indent)),
        open_boxes(printer_calls(tree, indent)) == 0,
{
    let calls = replay(tree.stream(), indent);
    let all = printer_calls(tree, indent);
    lemma_stream_is_one_group(tree);
    lemma_replay_closes_only_open_boxes(tree.stream(), indent);
    lemma_replay_open_boxes(tree.stream(), indent);
    assert(all.drop_last() =~= calls);
    assert forall|k: int| 0 <= k <= all.len() implies open_boxes(#[trigger] all.take(k))
        >= 0 by {
        if k <= calls.len() {
            assert(all.take(k) =~= calls.take(k));
        } else {
            assert(all.take(k) =~= all);
        }
    }
}

} // verus!
