//! Groups are opened and closed like brackets: what holds of the token
//! stream of every tree.

use vstd::prelude::*;

use crate::sexp::SpecSexp;
use crate::token::later_sibling_tokens;
use crate::token::sibling_tokens;
use crate::token::Instr;

verus! {

/// What one token adds to the number of open groups.
pub open spec fn group_step(token: Instr) -> int {
    match token {
        Instr::GroupOpen => 1,
        Instr::GroupClose => -1,
        _ => 0,
    }
}

/// The number of groups that are open behind `tokens`: those opened less
/// those closed.
pub open spec fn open_groups(tokens: Seq<Instr>) -> int
    decreases tokens.len(),
{
    if tokens.len() == 0 {
        0
    } else {
        open_groups(tokens.drop_last()) + group_step(tokens.last())
    }
}

/// No token of `tokens` closes a group that is not open, and none is left
/// open at the end.
pub open spec fn balanced(tokens: Seq<Instr>) -> bool {
    &&& open_groups(tokens) == 0
    &&& forall|k: int| 0 <= k <= tokens.len() ==> open_groups(#[trigger] tokens.take(k)) >= 0
}

/// Behind a single token, what it adds to nothing.
pub proof fn lemma_open_groups_single(token: Instr)
    ensures
        open_groups(seq![token]) == group_step(token),
{
    assert(seq![token].drop_last() =~= Seq::<Instr>::empty());
    assert(open_groups(Seq::<Instr>::empty()) == 0);
}

/// The open groups behind two runs of tokens add up.
pub proof fn lemma_open_groups_concat(left: Seq<Instr>, right: Seq<Instr>)
    ensures
        open_groups(left + right) == open_groups(left) + open_groups(right),
    decreases right.len(),
{
    if right.len() == 0 {
        assert(left + right =~= left);
    } else {
        lemma_open_groups_concat(left, right.drop_last());
        assert((left + right).drop_last() =~= left + right.drop_last());
    }
}

/// Two balanced runs of tokens, one behind the other, are balanced.
pub proof fn lemma_balanced_concat(left: Seq<Instr>, right: Seq<Instr>)
    requires
        balanced(left),
        balanced(right),
    ensures
        balanced(left + right),
{
    let both = left + right;
    lemma_open_groups_concat(left, right);
    assert forall|k: int| 0 <= k <= both.len() implies open_groups(#[trigger] both.take(k))
        >= 0 by {
        if k <= left.len() {
            assert(both.take(k) =~= left.take(k));
        } else {
            assert(both.take(k) =~= left + right.take(k - left.len()));
            lemma_open_groups_concat(left, right.take(k - left.len()));
        }
    }
}

/// A single token that neither opens nor closes a group is balanced.
pub proof fn lemma_balanced_single(token: Instr)
    requires
        group_step(token) == 0,
    ensures
        balanced(seq![token]),
{
    let one = seq![token];
    lemma_open_groups_single(token);
    assert forall|k: int| 0 <= k <= one.len() implies open_groups(#[trigger] one.take(k))
        >= 0 by {
        if k == 0 {
            assert(one.take(k) =~= Seq::<Instr>::empty());
        } else {
            assert(one.take(k) =~= one);
        }
    }
}

/// A balanced run inside a group of its own: the group stays open from its
/// first token to the one before its last, and is closed by the last.
pub proof fn lemma_group_encloses(inner: Seq<Instr>)
    requires
        balanced(inner),
    ensures
        balanced(seq![Instr::GroupOpen] + inner + seq![Instr::GroupClose]),
        forall|k: int|
            0 < k <= inner.len() + 1 ==> open_groups(
                #[trigger] (seq![Instr::GroupOpen] + inner + seq![Instr::GroupClose]).take(k),
            ) >= 1,
{
    let open = seq![Instr::GroupOpen];
    let close = seq![Instr::GroupClose];
    let whole = open + inner + close;
    lemma_open_groups_single(Instr::GroupOpen);
    lemma_open_groups_single(Instr::GroupClose);
    lemma_open_groups_concat(open, inner);
    lemma_open_groups_concat(open + inner, close);
    assert forall|k: int| 0 < k <= inner.len() + 1 implies open_groups(#[trigger] whole.take(k))
        >= 1 by {
        assert(whole.take(k) =~= open + inner.take(k - 1));
        lemma_open_groups_concat(open, inner.take(k - 1));
    }
    assert forall|k: int| 0 <= k <= whole.len() implies open_groups(#[trigger] whole.take(k))
        >= 0 by {
        if k == 0 {
            assert(whole.take(k) =~= Seq::<Instr>::empty());
        } else if k == whole.len() {
            assert(whole.take(k) =~= whole);
        }
    }
}

/// The tokens of every tree are balanced.
pub proof fn lemma_tokens_balanced(tree: SpecSexp)
    ensures
        balanced(tree.tokens()),
    decreases tree, 0nat,
{
    match tree {
        SpecSexp::Atom(text) => {
            lemma_balanced_single(Instr::Text(text));
        },
        SpecSexp::List(children) => {
            lemma_sibling_tokens_balanced(children);
            lemma_group_encloses(sibling_tokens(children));
        },
    }
}

/// The tokens of the children of one list are balanced.
pub proof fn lemma_sibling_tokens_balanced(children: Seq<SpecSexp>)
    ensures
        balanced(sibling_tokens(children)),
    decreases children, children.len() + 1,
{
    if children.len() == 0 {
        assert(Seq::<Instr>::empty().take(0) =~= Seq::<Instr>::empty());
        assert forall|k: int| 0 <= k <= 0 implies open_groups(
            #[trigger] Seq::<Instr>::empty().take(k),
        ) >= 0 by {
            assert(Seq::<Instr>::empty().take(k) =~= Seq::<Instr>::empty());
        }
    } else {
        lemma_tokens_balanced(children[0]);
        lemma_later_sibling_tokens_balanced(children, 1);
        lemma_balanced_concat(children[0].tokens(), later_sibling_tokens(children, 1));
    }
}

/// The tokens of the children from `from` on, with their break points, are
/// balanced.
pub proof fn lemma_later_sibling_tokens_balanced(children: Seq<SpecSexp>, from: int)
    ensures
        balanced(later_sibling_tokens(children, from)),
    decreases children, children.len() - from,
{
    if 0 <= from < children.len() {
        lemma_balanced_single(Instr::BreakPoint);
        lemma_tokens_balanced(children[from]);
        lemma_later_sibling_tokens_balanced(children, from + 1);
        lemma_balanced_concat(seq![Instr::BreakPoint], children[from].tokens());
        lemma_balanced_concat(
            seq![Instr::BreakPoint] + children[from].tokens(),
            later_sibling_tokens(children, from + 1),
        );
    } else {
        assert forall|k: int| 0 <= k <= 0 implies open_groups(
            #[trigger] Seq::<Instr>::empty().take(k),
        ) >= 0 by {
            assert(Seq::<Instr>::empty().take(k) =~= Seq::<Instr>::empty());
        }
    }
}

/// The stream of every tree begins with the start of a group and ends with
/// the end of that same group: the group is open behind every token but the
/// last, and no group is open behind the last.
pub proof fn lemma_stream_is_one_group(tree: SpecSexp)
    ensures
        tree.stream().first() == Instr::GroupOpen,
        tree.stream().last() == Instr::GroupClose,
        balanced(tree.stream()),
        forall|k: int|
            0 < k < tree.stream().len() ==> open_groups(#[trigger] tree.stream().take(k)) >= 1,
{
    lemma_tokens_balanced(tree);
    lemma_group_encloses(tree.tokens());
}

} // verus!
