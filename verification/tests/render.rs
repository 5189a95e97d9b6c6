use sexp_pretty::printer::pp_hum_indent;
use sexp_pretty::printer::PrinterCall;
use sexp_pretty::printer::GROUP_INDENT;
use sexp_pretty::printer::LINE_WIDTH;
use sexp_pretty::Sexp;

fn atom(text: &str) -> Sexp {
    Sexp::Atom(text.to_string())
}

fn list(children: Vec<Sexp>) -> Sexp {
    Sexp::List(children)
}

/// Performs the calls as a box printer does once its decisions are made:
/// the break hint number `i` becomes a new line if `new_line[i]` says so,
/// indented by the column at which the innermost box was opened plus the
/// indentation of that box, and a space otherwise.
fn lay_out(calls: &[PrinterCall], new_line: &[bool]) -> String {
    let mut out = String::new();
    let mut column: usize = 0;
    let mut boxes: Vec<usize> = Vec::new();
    let mut hint: usize = 0;
    for call in calls {
        match call {
            PrinterCall::OpenBox(indent) => boxes.push(column + indent),
            PrinterCall::CloseBox => {
                boxes.pop().expect("a box to close");
            }
            PrinterCall::PrintString(text) => {
                out.push_str(text);
                column += text.chars().count();
            }
            PrinterCall::PrintSpace => {
                if new_line[hint] {
                    let indent = *boxes.last().expect("a box round the hint");
                    out.push('\n');
                    for _ in 0..indent {
                        out.push(' ');
                    }
                    column = indent;
                } else {
                    out.push(' ');
                    column += 1;
                }
                hint += 1;
            }
            PrinterCall::PrintFlush => {}
        }
    }
    assert_eq!(hint, new_line.len());
    assert!(boxes.is_empty());
    out
}

fn hints(calls: &[PrinterCall]) -> usize {
    calls.iter().filter(|call| matches!(call, PrinterCall::PrintSpace)).count()
}

#[test]
fn test_simple() {
    let simple_sexp = list(vec![atom("symbol_id"), atom("1")]);

    let calls = pp_hum_indent(&simple_sexp, GROUP_INDENT).unwrap();
    assert_eq!(
        calls,
        vec![
            PrinterCall::OpenBox(2),
            PrinterCall::PrintString("("),
            PrinterCall::OpenBox(2),
            PrinterCall::PrintString("("),
            PrinterCall::PrintString("symbol_id"),
            PrinterCall::PrintSpace,
            PrinterCall::PrintString("1"),
            PrinterCall::PrintString(")"),
            PrinterCall::CloseBox,
            PrinterCall::PrintString(")"),
            PrinterCall::CloseBox,
            PrinterCall::PrintFlush,
        ]
    );
    let text = lay_out(&calls, &[false]);
    println!("{}", text);
    assert_eq!(text, "((symbol_id 1))");
}

#[test]
fn test_sexp_longer() {
    let longer_sexp = list(vec![
        list(vec![atom("timestamp"), atom("2019-05-03 12:00:00-04:00")]),
        list(vec![
            atom("payload"),
            list(vec![
                atom("Add order"),
                list(vec![
                    list(vec![atom("symbol_id"), atom("1")]),
                    list(vec![atom("order_id"), atom("1")]),
                    list(vec![atom("dir"), atom("buy")]),
                    list(vec![atom("price"), atom("10.00")]),
                    list(vec![atom("size"), atom("1")]),
                    list(vec![atom("is_active"), atom("true")]),
                ]),
            ]),
        ]),
    ]);

    let calls = pp_hum_indent(&longer_sexp, GROUP_INDENT).unwrap();
    assert_eq!(hints(&calls), 15);

    // On one line the text is too wide for the printer.
    let one_line = lay_out(&calls, &[false; 15]);
    assert_eq!(
        one_line,
        "(((timestamp 2019-05-03 12:00:00-04:00) (payload (Add order ((symbol_id 1) \
         (order_id 1) (dir buy) (price 10.00) (size 1) (is_active true))))))"
    );
    assert!(one_line.chars().count() > LINE_WIDTH);

    // Broken behind the first list, behind `payload`, behind `Add order` and
    // behind the first pair, it fits.
    let mut new_line = [false; 15];
    new_line[1] = true;
    new_line[2] = true;
    new_line[3] = true;
    new_line[5] = true;
    let text = lay_out(&calls, &new_line);
    println!("{}", text);
    let expected = "\
(((timestamp 2019-05-03 12:00:00-04:00)
   (payload
     (Add order
       ((symbol_id 1)
         (order_id 1) (dir buy) (price 10.00) (size 1) (is_active true))))))";
    assert_eq!(text, expected);
    for line in text.lines() {
        assert!(line.chars().count() <= LINE_WIDTH);
    }
}

#[test]
fn indent_is_handed_to_every_box() {
    let tree = list(vec![atom("a"), list(vec![atom("b")])]);
    let calls = pp_hum_indent(&tree, 5).unwrap();
    let opened: Vec<&PrinterCall> =
        calls.iter().filter(|call| matches!(call, PrinterCall::OpenBox(_))).collect();
    assert_eq!(opened.len(), 3);
    for call in opened {
        assert_eq!(*call, PrinterCall::OpenBox(5));
    }
}

#[test]
fn single_atom_is_wrapped() {
    let tree = atom("lonely");
    let calls = pp_hum_indent(&tree, GROUP_INDENT).unwrap();
    assert_eq!(
        calls,
        vec![
            PrinterCall::OpenBox(2),
            PrinterCall::PrintString("("),
            PrinterCall::PrintString("lonely"),
            PrinterCall::PrintString(")"),
            PrinterCall::CloseBox,
            PrinterCall::PrintFlush,
        ]
    );
    assert_eq!(lay_out(&calls, &[]), "(lonely)");
}

#[test]
fn text_begins_and_ends_with_parentheses_however_it_is_broken() {
    let tree = list(vec![atom("a"), list(vec![atom("b"), atom("c")]), atom("d")]);
    let calls = pp_hum_indent(&tree, GROUP_INDENT).unwrap();
    assert_eq!(hints(&calls), 3);
    for choice in 0..8u32 {
        let new_line = [choice & 1 != 0, choice & 2 != 0, choice & 4 != 0];
        let text = lay_out(&calls, &new_line);
        assert!(text.starts_with('('));
        assert!(text.ends_with(')'));
    }
    assert_eq!(lay_out(&calls, &[false, false, false]), "((a (b c) d))");
    assert_eq!(lay_out(&calls, &[true, true, true]), "((a\n   (b\n     c)\n   d))");
}

#[test]
fn printing_twice_gives_the_same_calls() {
    let tree = list(vec![atom("x"), list(vec![atom("y"), atom("z")])]);
    let first = pp_hum_indent(&tree, GROUP_INDENT);
    let second = pp_hum_indent(&tree, GROUP_INDENT);
    assert_eq!(first, second);
    let copy = tree.clone();
    assert_eq!(pp_hum_indent(&copy, GROUP_INDENT), first);
}

#[test]
fn flush_comes_last_and_once() {
    let tree = list(vec![atom("x"), atom("y")]);
    let calls = pp_hum_indent(&tree, GROUP_INDENT).unwrap();
    assert_eq!(calls.last(), Some(&PrinterCall::PrintFlush));
    assert_eq!(calls.iter().filter(|call| **call == PrinterCall::PrintFlush).count(), 1);
}
