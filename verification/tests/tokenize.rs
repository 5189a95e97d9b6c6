use sexp_pretty::error::RenderError;
use sexp_pretty::printer::pp_hum_indent;
use sexp_pretty::token::FormatToken;
use sexp_pretty::tokenize::pp_tokenize;
use sexp_pretty::Sexp;

fn atom(text: &str) -> Sexp {
    Sexp::Atom(text.to_string())
}

fn list(children: Vec<Sexp>) -> Sexp {
    Sexp::List(children)
}

fn breaks(tokens: &[FormatToken]) -> usize {
    tokens.iter().filter(|token| **token == FormatToken::Breakhint).count()
}

#[test]
fn atom_stream_is_one_group_round_its_text() {
    let tree = atom("word");
    let text = "word".to_string();
    assert_eq!(
        pp_tokenize(&tree),
        Ok(vec![FormatToken::Open, FormatToken::Str(&text), FormatToken::Close])
    );
}

#[test]
fn list_stream_keeps_the_order_of_the_children() {
    let tree = list(vec![atom("h"), atom("c1"), atom("c2")]);
    let (h, c1, c2) = ("h".to_string(), "c1".to_string(), "c2".to_string());
    assert_eq!(
        pp_tokenize(&tree),
        Ok(vec![
            FormatToken::Open,
            FormatToken::Open,
            FormatToken::Str(&h),
            FormatToken::Breakhint,
            FormatToken::Str(&c1),
            FormatToken::Breakhint,
            FormatToken::Str(&c2),
            FormatToken::Close,
            FormatToken::Close,
        ])
    );
}

#[test]
fn nested_list_stream() {
    let tree = list(vec![list(vec![atom("a"), atom("b")]), atom("c"), list(vec![atom("d")])]);
    let (a, b, c, d) = ("a".to_string(), "b".to_string(), "c".to_string(), "d".to_string());
    assert_eq!(
        pp_tokenize(&tree),
        Ok(vec![
            FormatToken::Open,
            FormatToken::Open,
            FormatToken::Open,
            FormatToken::Str(&a),
            FormatToken::Breakhint,
            FormatToken::Str(&b),
            FormatToken::Close,
            FormatToken::Breakhint,
            FormatToken::Str(&c),
            FormatToken::Breakhint,
            FormatToken::Open,
            FormatToken::Str(&d),
            FormatToken::Close,
            FormatToken::Close,
            FormatToken::Close,
        ])
    );
}

#[test]
fn singleton_list_has_no_break_point() {
    let tree = list(vec![atom("only")]);
    let tokens = pp_tokenize(&tree).unwrap();
    assert_eq!(tokens.len(), 5);
    assert_eq!(breaks(&tokens), 0);
}

#[test]
fn a_list_of_n_children_has_n_less_one_break_points_of_its_own() {
    for n in 1..20usize {
        let children: Vec<Sexp> = (0..n).map(|i| atom(&i.to_string())).collect();
        let tree = list(children);
        let tokens = pp_tokenize(&tree).unwrap();
        assert_eq!(breaks(&tokens), n - 1);
    }
    // The break points inside the children come on top.
    let inner = list(vec![atom("p"), atom("q"), atom("r")]);
    let tree = list(vec![inner.clone(), atom("s"), inner]);
    let tokens = pp_tokenize(&tree).unwrap();
    assert_eq!(breaks(&tokens), 2 + 2 + 2);
}

#[test]
fn empty_list_is_refused() {
    let tree = list(vec![]);
    assert_eq!(pp_tokenize(&tree), Err(RenderError::EmptyListError));
    assert_eq!(pp_hum_indent(&tree, 2), Err(RenderError::EmptyListError));
}

#[test]
fn empty_list_deep_inside_is_refused() {
    let tree = list(vec![atom("a"), list(vec![atom("b"), list(vec![list(vec![])]), atom("c")])]);
    assert_eq!(pp_tokenize(&tree), Err(RenderError::EmptyListError));
    assert_eq!(pp_hum_indent(&tree, 2), Err(RenderError::EmptyListError));
    let last = list(vec![atom("a"), atom("b"), list(vec![])]);
    assert_eq!(pp_tokenize(&last), Err(RenderError::EmptyListError));
}

#[test]
fn groups_are_opened_and_closed_like_brackets() {
    let tree = list(vec![list(vec![atom("a"), list(vec![atom("b")])]), atom("c")]);
    let tokens = pp_tokenize(&tree).unwrap();
    assert_eq!(tokens.first(), Some(&FormatToken::Open));
    assert_eq!(tokens.last(), Some(&FormatToken::Close));
    let mut depth: i64 = 0;
    for (i, token) in tokens.iter().enumerate() {
        match token {
            FormatToken::Open => depth += 1,
            FormatToken::Close => depth -= 1,
            _ => {}
        }
        if i + 1 < tokens.len() {
            assert!(depth >= 1);
        }
    }
    assert_eq!(depth, 0);
}

#[test]
fn tokenizing_twice_gives_the_same_stream() {
    let tree = list(vec![atom("x"), list(vec![atom("y"), atom("z")])]);
    assert_eq!(pp_tokenize(&tree), pp_tokenize(&tree));
}

#[test]
fn atom_text_is_taken_as_it_is() {
    let tree = list(vec![atom("Add order"), atom("(not a list)"), atom("")]);
    let tokens = pp_tokenize(&tree).unwrap();
    let texts: Vec<&str> = tokens
        .iter()
        .filter_map(|token| match token {
            FormatToken::Str(text) => Some(text.as_str()),
            _ => None,
        })
        .collect();
    assert_eq!(texts, vec!["Add order", "(not a list)", ""]);
}

#[test]
fn very_deep_tree_is_tokenized() {
    let depth: usize = 200_000;
    let mut tree = atom("core");
    for _ in 0..depth {
        tree = list(vec![tree]);
    }
    {
        let tokens = pp_tokenize(&tree).unwrap();
        assert_eq!(tokens.len(), 2 * depth + 3);
        assert_eq!(breaks(&tokens), 0);
        assert!(matches!(tokens[depth + 1], FormatToken::Str(_)));
        assert_eq!(tokens[depth], FormatToken::Open);
        assert_eq!(tokens[depth + 2], FormatToken::Close);
    }
    // Taken apart from the outside in, so that dropping it needs no deep
    // recursion either.
    while let Sexp::List(mut children) = tree {
        tree = children.pop().unwrap();
    }
}
