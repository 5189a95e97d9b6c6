use sexp_pretty::boxes::check_boxes;
use sexp_pretty::error::RenderError;
use sexp_pretty::printer::pp_hum_indent;
use sexp_pretty::printer::PrinterCall;
use sexp_pretty::printer::GROUP_INDENT;
use sexp_pretty::printer::LINE_WIDTH;
use sexp_pretty::printer::MAX_BUFFERED;
use sexp_pretty::printer::MIN_SPACE_LEFT;
use sexp_pretty::printer::RIBBON_WIDTH;
use sexp_pretty::Sexp;

#[test]
fn printer_settings() {
    assert_eq!(LINE_WIDTH, 78);
    assert_eq!(MIN_SPACE_LEFT, 10);
    assert_eq!(RIBBON_WIDTH, 68);
    assert_eq!(MAX_BUFFERED, 100000);
    assert_eq!(GROUP_INDENT, 2);
}

#[test]
fn calls_of_a_tree_pass_the_check() {
    let tree = Sexp::List(vec![
        Sexp::Atom("a".to_string()),
        Sexp::List(vec![Sexp::Atom("b".to_string()), Sexp::Atom("c".to_string())]),
    ]);
    let calls = pp_hum_indent(&tree, GROUP_INDENT).unwrap();
    assert_eq!(check_boxes(&calls), Ok(()));
}

#[test]
fn closing_without_a_box_is_found() {
    let calls = vec![PrinterCall::CloseBox];
    assert_eq!(check_boxes(&calls), Err(RenderError::UnbalancedGroupError));
    let calls = vec![
        PrinterCall::OpenBox(2),
        PrinterCall::PrintString("("),
        PrinterCall::CloseBox,
        PrinterCall::PrintSpace,
        PrinterCall::CloseBox,
        PrinterCall::OpenBox(2),
    ];
    assert_eq!(check_boxes(&calls), Err(RenderError::UnbalancedGroupError));
}

#[test]
fn boxes_left_open_close_nothing_that_is_not_open() {
    assert_eq!(check_boxes(&vec![]), Ok(()));
    let calls = vec![PrinterCall::OpenBox(2), PrinterCall::OpenBox(2), PrinterCall::CloseBox];
    assert_eq!(check_boxes(&calls), Ok(()));
}
