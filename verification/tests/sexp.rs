use sexp_pretty::Sexp;

#[test]
fn clone_is_the_same_tree() {
    let tree = Sexp::List(vec![
        Sexp::Atom("a".to_string()),
        Sexp::List(vec![Sexp::Atom("b".to_string())]),
    ]);
    let copy = tree.clone();
    assert_eq!(copy, tree);
}

#[test]
fn trees_are_compared_by_structure() {
    let a = Sexp::Atom("a".to_string());
    let b = Sexp::Atom("b".to_string());
    assert!(a < b);
    assert_ne!(a, b);
    assert_eq!(Sexp::List(vec![a.clone(), b.clone()]), Sexp::List(vec![a.clone(), b.clone()]));
    assert_ne!(Sexp::List(vec![a.clone(), b.clone()]), Sexp::List(vec![b.clone(), a.clone()]));
    assert!(Sexp::Atom("z".to_string()) < Sexp::List(vec![a.clone()]));
    assert!(Sexp::List(vec![a.clone()]) < Sexp::List(vec![a, b]));
}
