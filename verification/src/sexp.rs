//! The tree that is printed, and its mathematical model.

use vstd::prelude::*;

verus! {

/// An S-expression: a piece of literal text, or an ordered list of
/// S-expressions.
///
/// A list that is printed must hold at least one child.
#[derive(Debug, PartialEq, Eq, PartialOrd, Ord)]
pub enum Sexp {
    Atom(String),
    List(Vec<Sexp>),
}

/// The mathematical model of a [`Sexp`]: text as a sequence of characters,
/// children as a sequence of trees.
pub ghost enum SpecSexp {
    Atom(Seq<char>),
    List(Seq<SpecSexp>),
}

impl View for Sexp {
    type V = SpecSexp;

    open spec fn view(&self) -> SpecSexp
        decreases self,
    {
        match self {
            Sexp::Atom(text) => SpecSexp::Atom(text@),
            Sexp::List(children) => SpecSexp::List(
                Seq::new(
                    children@.len(),
                    |i: int|
                        if 0 <= i < children@.len() {
                            children@[i].view()
                        } else {
                            // Outside the sequence: never looked at.
                            SpecSexp::Atom(Seq::empty())
                        },
                ),
            ),
        }
    }
}

impl Clone for Sexp {
    /// A deep copy: the same tree, in storage of its own.
    fn clone(&self) -> (copy: Sexp)
        ensures
            copy@ == self@,
        decreases self,
    {
        match self {
            Sexp::Atom(text) => Sexp::Atom(text.clone()),
            Sexp::List(children) => {
                let mut copies: Vec<Sexp> = Vec::new();
                let mut i: usize = 0;
                while i < children.len()
                    invariant
                        *self == Sexp::List(*children),
                        i <= children.len(),
                        copies.len() == i,
                        forall|j: int| 0 <= j < i ==> copies@[j]@ == children@[j]@,
                    decreases children.len() - i,
                {
                    assert(decreases_to!(self => self->List_0));
                    assert(decreases_to!(children => children@[i as int]));
                    copies.push(children[i].clone());
                    i += 1;
                }
                assert(Sexp::List(copies)@->List_0 =~= self@->List_0);
                Sexp::List(copies)
            },
        }
    }
}

impl SpecSexp {
    /// The tree that is reached from this one along `path`, if there is one:
    /// each entry of the path is the index of a child.
    pub open spec fn descendant(self, path: Seq<int>) -> Option<SpecSexp>
        decreases path.len(),
    {
        if path.len() == 0 {
            Some(self)
        } else {
            match self {
                SpecSexp::Atom(_) => None,
                SpecSexp::List(children) => if 0 <= path[0] < children.len() {
                    children[path[0]].descendant(path.drop_first())
                } else {
                    None
                },
            }
        }
    }

    /// No list of the tree, at any depth, is empty.
    pub open spec fn well_formed(self) -> bool
        decreases self,
    {
        match self {
            SpecSexp::Atom(_) => true,
            SpecSexp::List(children) => {
                &&& children.len() > 0
                &&& forall|i: int|
                    0 <= i < children.len() ==> (#[trigger] children[i]).well_formed()
            },
        }
    }
}

/// A tree with an empty list anywhere in it is not well formed.
pub proof fn lemma_empty_list_breaks_tree(tree: SpecSexp, path: Seq<int>)
    requires
        tree.descendant(path) == Some(SpecSexp::List(Seq::empty())),
    ensures
        !tree.well_formed(),
    decreases path.len(),
{
    if path.len() > 0 {
        let children = tree->List_0;
        lemma_empty_list_breaks_tree(children[path[0]], path.drop_first());
    }
}

/// In a tree that is not well formed an empty list can be found: the
/// result is a path to one.
pub proof fn lemma_broken_tree_has_empty_list(tree: SpecSexp) -> (path: Seq<int>)
    requires
        !tree.well_formed(),
    ensures
        tree.descendant(path) == Some(SpecSexp::List(Seq::empty())),
    decreases tree,
{
    let children = tree->List_0;
    if children.len() == 0 {
        assert(children =~= Seq::<SpecSexp>::empty());
        Seq::empty()
    } else {
        let i = choose|i: int| 0 <= i < children.len() && !(#[trigger] children[i]).well_formed();
        let below = lemma_broken_tree_has_empty_list(children[i]);
        let path = seq![i] + below;
        assert(path.drop_first() =~= below);
        path
    }
}

} // verus!
