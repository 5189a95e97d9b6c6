//! What a box-model printer is asked to do for a tree.
//!
//! The printer itself is not part of this library. It keeps a stack of
//! boxes, decides at each break hint whether the line goes on or a new one
//! begins, and collects the text. Here the token stream of a tree is turned
//! into the calls that such a printer has to receive, in their order.

use vstd::prelude::*;

use crate::error::RenderError;
use crate::sexp::Sexp;
use crate::sexp::SpecSexp;
use crate::token::token_views;
use crate::token::FormatToken;
use crate::token::Instr;
use crate::tokenize::pp_tokenize;

verus! {

/// The width of a line, in columns.
pub const LINE_WIDTH: usize = 78;

/// The room that the printer keeps free at the end of a line.
pub const MIN_SPACE_LEFT: usize = 10;

/// The widest text that one line may hold behind its indentation.
pub const RIBBON_WIDTH: usize = 68;

/// The number of undecided tokens that the printer may keep.
pub const MAX_BUFFERED: usize = 100000;

/// The columns by which the lines of a broken group are moved to the right.
pub const GROUP_INDENT: usize = 2;

/// One call to the printer.
#[derive(Debug, Clone, Copy, PartialEq, Eq)]
pub enum PrinterCall<'a> {
    /// Open a box whose further lines are indented by the given columns.
    OpenBox(usize),
    /// Close the innermost open box.
    CloseBox,
    /// Put out the text as it is.
    PrintString(&'a str),
    /// A break hint: a space, or a new line with the indentation of the box.
    PrintSpace,
    /// Put out whatever the printer still holds back.
    PrintFlush,
}

/// The mathematical model of a [`PrinterCall`].
pub ghost enum SpecCall {
    OpenBox(nat),
    CloseBox,
    PrintString(Seq<char>),
    PrintSpace,
    PrintFlush,
}

impl<'a> View for PrinterCall<'a> {
    type V = SpecCall;

    open spec fn view(&self) -> SpecCall {
        match self {
            PrinterCall::OpenBox(indent) => SpecCall::OpenBox(*indent as nat),
            PrinterCall::CloseBox => SpecCall::CloseBox,
            PrinterCall::PrintString(text) => SpecCall::PrintString(text@),
            PrinterCall::PrintSpace => SpecCall::PrintSpace,
            PrinterCall::PrintFlush => SpecCall::PrintFlush,
        }
    }
}

/// The models of the calls of `calls`, in order.
pub open spec fn call_views(calls: Seq<PrinterCall<'_>>) -> Seq<SpecCall> {
    Seq::new(calls.len(), |i: int| calls[i]@)
}

/// The calls for one token. A group is a box with a parenthesis at either
/// end, inside the box.
pub open spec fn token_calls(token: Instr, indent: nat) -> Seq<SpecCall> {
    match token {
        Instr::GroupOpen => seq![SpecCall::OpenBox(indent), SpecCall::PrintString("("@)],
        Instr::GroupClose => seq![SpecCall::PrintString(")"@), SpecCall::CloseBox],
        Instr::BreakPoint => seq![SpecCall::PrintSpace],
        Instr::Text(text) => seq![SpecCall::PrintString(text)],
    }
}

/// The calls for a sequence of tokens: those of each token, in the order of
/// the tokens.
pub open spec fn replay(tokens: Seq<Instr>, indent: nat) -> Seq<SpecCall>
    decreases tokens.len(),
{
    if tokens.len() == 0 {
        Seq::empty()
    } else {
        replay(tokens.drop_last(), indent) + token_calls(tokens.last(), indent)
    }
}

/// All the calls that print a tree: those of its token stream, and a flush
/// at the end.
pub open spec fn printer_calls(tree: SpecSexp, indent: nat) -> Seq<SpecCall> {
    replay(tree.stream(), indent) + seq![SpecCall::PrintFlush]
}

/// The calls for the tokens of `tokens`, each group indented by `indent`.
fn replay_tokens<'a>(tokens: &Vec<FormatToken<'a>>, indent: usize) -> (calls: Vec<PrinterCall<'a>>)
    ensures
        call_views(calls@) == replay(token_views(tokens@), indent as nat),
{
    let ghost models = token_views(tokens@);
    let mut calls: Vec<PrinterCall<'a>> = Vec::new();
    let mut i: usize = 0;
    while i < tokens.len()
        invariant
            i <= tokens.len(),
            models == token_views(tokens@),
            call_views(calls@) == replay(models.take(i as int), indent as nat),
        decreases tokens.len() - i,
    {
        let ghost before = call_views(calls@);
        match tokens[i] {
            FormatToken::Open => {
                calls.push(PrinterCall::OpenBox(indent));
                calls.push(PrinterCall::PrintString("("));
            },
            FormatToken::Close => {
                calls.push(PrinterCall::PrintString(")"));
                calls.push(PrinterCall::CloseBox);
            },
            FormatToken::Breakhint => {
                calls.push(PrinterCall::PrintSpace);
            },
            FormatToken::Str(text) => {
                calls.push(PrinterCall::PrintString(text.as_str()));
            },
        }
        proof {
            let next = models.take(i + 1);
            assert(next.drop_last() =~= models.take(i as int));
            assert(next.last() == tokens@[i as int]@);
            assert(call_views(calls@) =~= before + token_calls(tokens@[i as int]@, indent as nat));
        }
        i += 1;
    }
    assert(models.take(i as int) =~= models);
    calls
}

/// What printing `tree` has to come to: its calls where it is well formed,
/// and else the error for an empty list.
pub open spec fn prints_as(
    tree: SpecSexp,
    indent: nat,
    res: Result<Vec<PrinterCall<'_>>, RenderError>,
) -> bool {
    &&& tree.well_formed() ==> res is Ok && call_views(res->Ok_0@) == printer_calls(tree, indent)
    &&& !tree.well_formed() ==> res is Err && res->Err_0 == RenderError::EmptyListError
}

/// The calls that print `sexp` with every group indented by `indent`:
/// [`printer_calls`] of the tree.
///
/// There are calls to hand out exactly if no list of the tree is empty;
/// otherwise the answer is [`RenderError::EmptyListError`].
pub fn pp_hum_indent<'a>(sexp: &'a Sexp, indent: usize) -> (res: Result<
    Vec<PrinterCall<'a>>,
    RenderError,
>)
    ensures
        prints_as(sexp@, indent as nat, res),
{
    match pp_tokenize(sexp) {
        Ok(tokens) => {
            let mut calls = replay_tokens(&tokens, indent);
            let ghost before = call_views(calls@);
            calls.push(PrinterCall::PrintFlush);
            assert(call_views(calls@) =~= before + seq![SpecCall::PrintFlush]);
            Ok(calls)
        },
        Err(error) => Err(error),
    }
}

/// Printing is determined by the tree and the indentation: two runs on
/// the same tree both fail, or hand out the same calls.
pub proof fn lemma_printing_is_determined(
    tree: SpecSexp,
    indent: nat,
    first: Result<Vec<PrinterCall<'_>>, RenderError>,
    second: Result<Vec<PrinterCall<'_>>, RenderError>,
)
    requires
        prints_as(tree, indent, first),
        prints_as(tree, indent, second),
    ensures
        first is Ok <==> second is Ok,
        first is Ok ==> call_views(first->Ok_0@) == call_views(second->Ok_0@),
        first is Err ==> first->Err_0 == second->Err_0,
{
}

} // verus!
