//! Layout tokens, and the token stream that a tree stands for.

use vstd::prelude::*;

use crate::sexp::SpecSexp;

verus! {

/// One token of the stream that describes the layout of a tree.
///
/// Every group of a stream is indented alike. The amount is no part of the
/// token: the printer is told when the stream is replayed.
#[derive(Debug, Clone, Copy, PartialEq, Eq, PartialOrd, Ord)]
pub enum FormatToken<'a> {
    /// A group begins.
    Open,
    /// The innermost open group ends.
    Close,
    /// A place at which the line may be broken.
    Breakhint,
    /// Literal text, borrowed from the tree.
    Str(&'a String),
}

/// The mathematical model of a [`FormatToken`].
pub ghost enum Instr {
    GroupOpen,
    GroupClose,
    BreakPoint,
    Text(Seq<char>),
}

impl<'a> View for FormatToken<'a> {
    type V = Instr;

    open spec fn view(&self) -> Instr {
        match self {
            FormatToken::Open => Instr::GroupOpen,
            FormatToken::Close => Instr::GroupClose,
            FormatToken::Breakhint => Instr::BreakPoint,
            FormatToken::Str(text) => Instr::Text(text@),
        }
    }
}

/// The models of the tokens of `tokens`, in order.
pub open spec fn token_views(tokens: Seq<FormatToken<'_>>) -> Seq<Instr> {
    Seq::new(tokens.len(), |i: int| tokens[i]@)
}

impl SpecSexp {
    /// The tokens of the tree itself: its text for an atom; for a list an
    /// opened group, its children with a break point between each two
    /// neighbours, and the end of the group.
    pub open spec fn tokens(self) -> Seq<Instr>
        decreases self, 0nat,
    {
        match self {
            SpecSexp::Atom(text) => seq![Instr::Text(text)],
            SpecSexp::List(children) => seq![Instr::GroupOpen] + sibling_tokens(children)
                + seq![Instr::GroupClose],
        }
    }

    /// The whole stream for the tree: its tokens, inside one more group.
    pub open spec fn stream(self) -> Seq<Instr> {
        seq![Instr::GroupOpen] + self.tokens() + seq![Instr::GroupClose]
    }
}

/// The tokens of the children of one list: the first child, then each
/// further child behind a break point.
pub open spec fn sibling_tokens(children: Seq<SpecSexp>) -> Seq<Instr>
    decreases children, children.len() + 1,
{
    if children.len() == 0 {
        Seq::empty()
    } else {
        children[0].tokens() + later_sibling_tokens(children, 1)
    }
}

/// The tokens of the children from index `from` on, each behind a break
/// point.
pub open spec fn later_sibling_tokens(children: Seq<SpecSexp>, from: int) -> Seq<Instr>
    decreases children, children.len() - from,
{
    if 0 <= from < children.len() {
        seq![Instr::BreakPoint] + children[from].tokens() + later_sibling_tokens(
            children,
            from + 1,
        )
    } else {
        Seq::empty()
    }
}

} // verus!
