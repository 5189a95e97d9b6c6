//! Break points stand between neighbouring children, and nowhere else.

use vstd::prelude::*;

use crate::sexp::SpecSexp;
use crate::token::later_sibling_tokens;
use crate::token::sibling_tokens;
use crate::token::Instr;

verus! {

/// The number of break points among `tokens`.
pub open spec fn break_points(tokens: Seq<Instr>) -> nat
    decreases tokens.len(),
{
    if tokens.len() == 0 {
        0
    } else if tokens.last() == Instr::BreakPoint {
        break_points(tokens.drop_last()) + 1
    } else {
        break_points(tokens.drop_last())
    }
}

/// The number of break points that the children from index `from` on hold
/// inside themselves, all taken together.
pub open spec fn inner_break_points(children: Seq<SpecSexp>, from: int) -> nat
    decreases children.len() - from,
{
    if 0 <= from < children.len() {
        break_points(children[from].tokens()) + inner_break_points(children, from + 1)
    } else {
        0
    }
}

/// The break points of two runs of tokens add up.
pub proof fn lemma_break_points_concat(left: Seq<Instr>, right: Seq<Instr>)
    ensures
        break_points(left + right) == break_points(left) + break_points(right),
    decreases right.len(),
{
    if right.len() == 0 {
        assert(left + right =~= left);
    } else {
        lemma_break_points_concat(left, right.drop_last());
        assert((left + right).drop_last() =~= left + right.drop_last());
    }
}

/// A single token is one break point if it is one, else none.
pub proof fn lemma_break_points_single(token: Instr)
    ensures
        break_points(seq![token]) == if token == Instr::BreakPoint {
            1nat
        } else {
            0nat
        },
{
    assert(seq![token].drop_last() =~= Seq::<Instr>::empty());
    assert(break_points(Seq::<Instr>::empty()) == 0);
}

/// Each child from `from` on brings one break point before it, besides
/// those inside it.
pub proof fn lemma_later_sibling_break_points(children: Seq<SpecSexp>, from: int)
    requires
        0 <= from <= children.len(),
    ensures
        break_points(later_sibling_tokens(children, from)) == (children.len() - from)
            + inner_break_points(children, from),
    decreases children.len() - from,
{
    if from < children.len() {
        let hint = seq![Instr::BreakPoint];
        let child = children[from].tokens();
        lemma_later_sibling_break_points(children, from + 1);
        lemma_break_points_single(Instr::BreakPoint);
        lemma_break_points_concat(hint, child);
        lemma_break_points_concat(hint + child, later_sibling_tokens(children, from + 1));
    }
}

/// A list of `n` children, `n` at least one, holds exactly `n - 1` break
/// points of its own: all its other break points lie inside its children,
/// however deep these are.
pub proof fn lemma_sibling_separation(children: Seq<SpecSexp>)
    requires
        children.len() >= 1,
    ensures
        break_points(SpecSexp::List(children).tokens()) == (children.len() - 1)
            + inner_break_points(children, 0),
{
    let open = seq![Instr::GroupOpen];
    let close = seq![Instr::GroupClose];
    let first = children[0].tokens();
    let later = later_sibling_tokens(children, 1);
    lemma_later_sibling_break_points(children, 1);
    lemma_break_points_concat(first, later);
    lemma_break_points_single(Instr::GroupOpen);
    lemma_break_points_single(Instr::GroupClose);
    lemma_break_points_concat(open, sibling_tokens(children));
    lemma_break_points_concat(open + sibling_tokens(children), close);
}

} // verus!
