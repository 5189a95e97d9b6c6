//! From a tree to its token stream, with a work stack in place of recursion.

use vstd::prelude::*;

use crate::error::RenderError;
use crate::sexp::Sexp;
use crate::sexp::SpecSexp;
use crate::token::later_sibling_tokens;
use crate::token::sibling_tokens;
use crate::token::token_views;
use crate::token::FormatToken;
use crate::token::Instr;

verus! {

/// One piece of work that is still to be done: a token to hand out, or a
/// tree to take apart.
enum StackToken<'a> {
    Open,
    Breakhint,
    Close,
    Sexp(&'a Sexp),
}

impl<'a> StackToken<'a> {
    /// The tokens that this piece of work will have put out when it is done.
    spec fn tokens(self) -> Seq<Instr> {
        match self {
            StackToken::Open => seq![Instr::GroupOpen],
            StackToken::Breakhint => seq![Instr::BreakPoint],
            StackToken::Close => seq![Instr::GroupClose],
            StackToken::Sexp(tree) => tree@.tokens(),
        }
    }

    /// A tree that waits on the stack holds no empty list.
    spec fn well_formed(self) -> bool {
        match self {
            StackToken::Sexp(tree) => tree@.well_formed(),
            _ => true,
        }
    }
}

/// The tokens that the whole stack will put out, its top (the last entry)
/// first.
spec fn pending(stack: Seq<StackToken<'_>>) -> Seq<Instr>
    decreases stack.len(),
{
    if stack.len() == 0 {
        Seq::empty()
    } else {
        stack.last().tokens() + pending(stack.drop_last())
    }
}

spec fn all_well_formed(stack: Seq<StackToken<'_>>) -> bool {
    forall|i: int| 0 <= i < stack.len() ==> (#[trigger] stack[i]).well_formed()
}

proof fn lemma_pending_push(stack: Seq<StackToken<'_>>, item: StackToken<'_>)
    ensures
        pending(stack.push(item)) == item.tokens() + pending(stack),
{
    assert(stack.push(item).drop_last() =~= stack);
}

proof fn lemma_all_well_formed_push(stack: Seq<StackToken<'_>>, item: StackToken<'_>)
    ensures
        all_well_formed(stack.push(item)) <==> all_well_formed(stack) && item.well_formed(),
{
    let pushed = stack.push(item);
    if all_well_formed(pushed) {
        assert(pushed[stack.len() as int].well_formed());
        assert forall|i: int| 0 <= i < stack.len() implies (#[trigger] stack[i]).well_formed() by {
            assert(pushed[i].well_formed());
        }
    }
    if all_well_formed(stack) && item.well_formed() {
        assert forall|i: int| 0 <= i < pushed.len() implies (#[trigger] pushed[i]).well_formed() by {
            if i < stack.len() {
                assert(stack[i].well_formed());
            }
        }
    }
}

/// Every tree puts out at least one token.
proof fn lemma_tokens_nonempty(tree: SpecSexp)
    ensures
        tree.tokens().len() >= 1,
{
}

/// Every entry of the stack puts out at least one token.
proof fn lemma_pending_len(stack: Seq<StackToken<'_>>)
    ensures
        pending(stack).len() >= stack.len(),
    decreases stack.len(),
{
    if stack.len() > 0 {
        lemma_pending_len(stack.drop_last());
        match stack.last() {
            StackToken::Sexp(tree) => lemma_tokens_nonempty(tree@),
            _ => {},
        }
    }
}

/// The children of a list, as the view of the list holds them.
spec fn child_views(children: Seq<Sexp>) -> Seq<SpecSexp> {
    Seq::new(children.len(), |i: int| children[i]@)
}

/// A list is well formed exactly if it has children and each of them is
/// well formed.
proof fn lemma_list_well_formed(children: Seq<Sexp>)
    ensures
        SpecSexp::List(child_views(children)).well_formed() <==> children.len() > 0 && forall|
            j: int,
        |
            0 <= j < children.len() ==> (#[trigger] children[j])@.well_formed(),
{
    let views = child_views(children);
    if SpecSexp::List(views).well_formed() {
        assert forall|j: int| 0 <= j < children.len() implies (#[trigger] children[j])@.well_formed() by {
            assert(views[j].well_formed());
        }
    }
    if children.len() > 0 && forall|j: int|
        0 <= j < children.len() ==> (#[trigger] children[j])@.well_formed() {
        assert forall|i: int| 0 <= i < views.len() implies (#[trigger] views[i]).well_formed() by {
            assert(children[i]@.well_formed());
        }
    }
}

/// Puts the work for one list on the stack: the end of its group lowest,
/// above it each later child under its break point, the last child lowest,
/// then the first child, and the start of the group on top.
fn push_list<'a>(stack: &mut Vec<StackToken<'a>>, children: &'a Vec<Sexp>)
    requires
        children.len() > 0,
    ensures
        final(stack)@.len() == old(stack)@.len() + 2 * children.len() + 1,
        pending(final(stack)@) == seq![Instr::GroupOpen] + sibling_tokens(child_views(children@))
            + seq![Instr::GroupClose] + pending(old(stack)@),
        all_well_formed(final(stack)@) <==> all_well_formed(old(stack)@) && forall|j: int|
            0 <= j < children.len() ==> (#[trigger] children@[j])@.well_formed(),
{
    let ghost views = child_views(children@);
    stack.push(StackToken::Close);
    proof {
        lemma_pending_push(old(stack)@, StackToken::Close);
        lemma_all_well_formed_push(old(stack)@, StackToken::Close);
    }
    let mut i: usize = children.len();
    while i > 1
        invariant
            1 <= i <= children.len(),
            views == child_views(children@),
            stack@.len() == old(stack)@.len() + 1 + 2 * (children.len() - i),
            pending(stack@) == later_sibling_tokens(views, i as int) + seq![Instr::GroupClose]
                + pending(old(stack)@),
            all_well_formed(stack@) <==> all_well_formed(old(stack)@) && forall|j: int|
                i <= j < children.len() ==> (#[trigger] children@[j])@.well_formed(),
        decreases i,
    {
        i -= 1;
        let ghost before = stack@;
        stack.push(StackToken::Sexp(&children[i]));
        stack.push(StackToken::Breakhint);
        proof {
            lemma_pending_push(before, StackToken::Sexp(&children[i as int]));
            lemma_pending_push(
                before.push(StackToken::Sexp(&children[i as int])),
                StackToken::Breakhint,
            );
            assert(views[i as int] == children@[i as int]@);
            assert(pending(stack@) =~= later_sibling_tokens(views, i as int)
                + seq![Instr::GroupClose] + pending(old(stack)@));
            lemma_all_well_formed_push(before, StackToken::Sexp(&children[i as int]));
            lemma_all_well_formed_push(
                before.push(StackToken::Sexp(&children[i as int])),
                StackToken::Breakhint,
            );
        }
    }
    let ghost before = stack@;
    stack.push(StackToken::Sexp(&children[0]));
    stack.push(StackToken::Open);
    proof {
        lemma_pending_push(before, StackToken::Sexp(&children[0]));
        lemma_pending_push(before.push(StackToken::Sexp(&children[0])), StackToken::Open);
        assert(views[0] == children@[0]@);
        assert(pending(stack@) =~= seq![Instr::GroupOpen] + sibling_tokens(views)
            + seq![Instr::GroupClose] + pending(old(stack)@));
        lemma_all_well_formed_push(before, StackToken::Sexp(&children[0]));
        lemma_all_well_formed_push(before.push(StackToken::Sexp(&children[0])), StackToken::Open);
    }
}

/// What tokenizing `tree` has to come to: its stream where it is well
/// formed, and else the error for an empty list.
pub open spec fn tokenizes_to(tree: SpecSexp, res: Result<Vec<FormatToken<'_>>, RenderError>) -> bool {
    &&& tree.well_formed() ==> res is Ok && token_views(res->Ok_0@) == tree.stream()
    &&& !tree.well_formed() ==> res is Err && res->Err_0 == RenderError::EmptyListError
}

/// The token stream of a tree: one group round everything, and inside it
/// the tokens of the tree, [`SpecSexp::stream`].
///
/// The tree is walked with a stack of work that is still to be done, so
/// that its depth costs no call frames. The walk ends with
/// [`RenderError::EmptyListError`] exactly if some list of the tree has no
/// children.
pub fn pp_tokenize<'a>(sexp: &'a Sexp) -> (res: Result<Vec<FormatToken<'a>>, RenderError>)
    ensures
        tokenizes_to(sexp@, res),
{
    let mut tokens: Vec<FormatToken<'a>> = Vec::new();
    tokens.push(FormatToken::Open);
    let mut stack: Vec<StackToken<'a>> = Vec::new();
    stack.push(StackToken::Sexp(sexp));
    proof {
        lemma_pending_push(Seq::empty(), StackToken::Sexp(sexp));
        assert(token_views(tokens@) + pending(stack@) =~= seq![Instr::GroupOpen]
            + sexp@.tokens());
    }
    while stack.len() > 0
        invariant
            token_views(tokens@) + pending(stack@) == seq![Instr::GroupOpen] + sexp@.tokens(),
            all_well_formed(stack@) <==> sexp@.well_formed(),
        decreases 2 * pending(stack@).len() - stack@.len(),
    {
        let ghost before = stack@;
        let ghost emitted = token_views(tokens@);
        proof {
            lemma_pending_len(before);
            lemma_pending_len(before.drop_last());
        }
        let top = stack.pop().unwrap();
        proof {
            assert(before =~= stack@.push(top));
            lemma_all_well_formed_push(stack@, top);
        }
        match top {
            StackToken::Sexp(tree) => match tree {
                Sexp::Atom(text) => {
                    tokens.push(FormatToken::Str(text));
                    assert(token_views(tokens@) =~= emitted + seq![Instr::Text(text@)]);
                },
                Sexp::List(children) => {
                    if children.len() == 0 {
                        proof {
                            assert(tree@->List_0 =~= child_views(children@));
                            lemma_list_well_formed(children@);
                        }
                        return Err(RenderError::EmptyListError);
                    }
                    push_list(&mut stack, children);
                    proof {
                        lemma_pending_len(stack@);
                        assert(tree@->List_0 =~= child_views(children@));
                        lemma_list_well_formed(children@);
                    }
                },
            },
            StackToken::Open => {
                tokens.push(FormatToken::Open);
                assert(token_views(tokens@) =~= emitted + seq![Instr::GroupOpen]);
            },
            StackToken::Close => {
                tokens.push(FormatToken::Close);
                assert(token_views(tokens@) =~= emitted + seq![Instr::GroupClose]);
            },
            StackToken::Breakhint => {
                tokens.push(FormatToken::Breakhint);
                assert(token_views(tokens@) =~= emitted + seq![Instr::BreakPoint]);
            },
        }
        assert(token_views(tokens@) + pending(stack@) =~= emitted + pending(before));
    }
    tokens.push(FormatToken::Close);
    assert(token_views(tokens@) =~= sexp@.stream());
    Ok(tokens)
}

/// Tokenizing is determined by the tree: two runs on the same tree both
/// fail, or hand out the same tokens.
pub proof fn lemma_tokenize_is_determined(
    tree: SpecSexp,
    first: Result<Vec<FormatToken<'_>>, RenderError>,
    second: Result<Vec<FormatToken<'_>>, RenderError>,
)
    requires
        tokenizes_to(tree, first),
        tokenizes_to(tree, second),
    ensures
        first is Ok <==> second is Ok,
        first is Ok ==> token_views(first->Ok_0@) == token_views(second->Ok_0@),
        first is Err ==> first->Err_0 == second->Err_0,
{
}

} // verus!
