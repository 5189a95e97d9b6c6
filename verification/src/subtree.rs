//! The tokens of a tree hold the tokens of every tree inside it.

use vstd::prelude::*;

use crate::sexp::SpecSexp;
use crate::token::later_sibling_tokens;
use crate::token::sibling_tokens;
use crate::token::Instr;

verus! {

/// `part` stands in `whole` from position `at` on, unchanged and in one
/// piece.
pub open spec fn stands_at(part: Seq<Instr>, whole: Seq<Instr>, at: int) -> bool {
    &&& 0 <= at
    &&& at + part.len() <= whole.len()
    &&& whole.subrange(at, at + part.len()) == part
}

/// What stands in a run of tokens still stands there, further back, when
/// other tokens are put before the run and behind it.
pub proof fn lemma_stands_at_inside(
    part: Seq<Instr>,
    whole: Seq<Instr>,
    at: int,
    before: Seq<Instr>,
    behind: Seq<Instr>,
)
    requires
        stands_at(part, whole, at),
    ensures
        stands_at(part, before + whole + behind, before.len() + at),
{
    let all = before + whole + behind;
    assert(all.subrange(before.len() + at, before.len() + at + part.len()) =~= whole.subrange(
        at,
        at + part.len(),
    ));
}

/// What stands in a part of a run of tokens stands in the run.
pub proof fn lemma_stands_at_trans(
    inner: Seq<Instr>,
    middle: Seq<Instr>,
    outer: Seq<Instr>,
    inner_at: int,
    middle_at: int,
)
    requires
        stands_at(inner, middle, inner_at),
        stands_at(middle, outer, middle_at),
    ensures
        stands_at(inner, outer, middle_at + inner_at),
{
    assert(outer.subrange(middle_at + inner_at, middle_at + inner_at + inner.len())
        =~= outer.subrange(middle_at, middle_at + middle.len()).subrange(
        inner_at,
        inner_at + inner.len(),
    ));
}

/// The tokens of the child `i` stand among those of the children from
/// `from` on, where `from` is at most `i`. The result is their position.
pub proof fn lemma_child_among_later_siblings(children: Seq<SpecSexp>, from: int, i: int) -> (at:
    int)
    requires
        0 <= from <= i < children.len(),
    ensures
        stands_at(children[i].tokens(), later_sibling_tokens(children, from), at),
    decreases i - from,
{
    let hint = seq![Instr::BreakPoint];
    let child = children[from].tokens();
    let rest = later_sibling_tokens(children, from + 1);
    if from == i {
        assert(stands_at(child, child, 0)) by {
            assert(child.subrange(0, child.len() as int) =~= child);
        }
        lemma_stands_at_inside(child, child, 0, hint, rest);
        1
    } else {
        let at = lemma_child_among_later_siblings(children, from + 1, i);
        lemma_stands_at_inside(children[i].tokens(), rest, at, hint + child, Seq::empty());
        assert(hint + child + rest + Seq::<Instr>::empty() =~= hint + child + rest);
        1 + child.len() + at
    }
}

/// The tokens of each child of a list stand among the tokens of the list.
/// The result is their position.
pub proof fn lemma_child_tokens_in_list(children: Seq<SpecSexp>, i: int) -> (at: int)
    requires
        0 <= i < children.len(),
    ensures
        stands_at(children[i].tokens(), SpecSexp::List(children).tokens(), at),
{
    let open = seq![Instr::GroupOpen];
    let close = seq![Instr::GroupClose];
    let first = children[0].tokens();
    let later = later_sibling_tokens(children, 1);
    let among = if i == 0 {
        assert(stands_at(first, first, 0)) by {
            assert(first.subrange(0, first.len() as int) =~= first);
        }
        lemma_stands_at_inside(first, first, 0, Seq::empty(), later);
        assert(Seq::<Instr>::empty() + first + later =~= first + later);
        0
    } else {
        let at = lemma_child_among_later_siblings(children, 1, i);
        lemma_stands_at_inside(children[i].tokens(), later, at, first, Seq::empty());
        assert(first + later + Seq::<Instr>::empty() =~= first + later);
        first.len() + at
    };
    lemma_stands_at_inside(children[i].tokens(), sibling_tokens(children), among, open, close);
    1 + among
}

/// The tokens of every tree inside a tree, however deep, stand among the
/// tokens of that tree. The result is their position.
pub proof fn lemma_descendant_tokens_in_tree(tree: SpecSexp, path: Seq<int>) -> (at: int)
    requires
        tree.descendant(path) is Some,
    ensures
        stands_at(tree.descendant(path)->Some_0.tokens(), tree.tokens(), at),
    decreases path.len(),
{
    if path.len() == 0 {
        assert(tree.tokens().subrange(0, tree.tokens().len() as int) =~= tree.tokens());
        0
    } else {
        let children = tree->List_0;
        let child = children[path[0]];
        let below = lemma_descendant_tokens_in_tree(child, path.drop_first());
        let child_at = lemma_child_tokens_in_list(children, path[0]);
        lemma_stands_at_trans(
            tree.descendant(path)->Some_0.tokens(),
            child.tokens(),
            tree.tokens(),
            below,
            child_at,
        );
        child_at + below
    }
}

} // verus!
