use esp_generate::block::BlockKind;
use esp_generate::expr::eval_expr;
use esp_generate::vcs::should_initialize_git_repo;

fn opts(names: &[&str]) -> Vec<Vec<u8>> {
    names.iter().map(|s| s.as_bytes().to_vec()).collect()
}

fn eval(expression: &str, names: &[&str]) -> Option<bool> {
    eval_expr(expression.as_bytes(), &opts(names))
}

#[test]
fn predicate_tests_membership() {
    assert_eq!(Some(true), eval("option(\"a\")", &["a", "b"]));
    assert_eq!(Some(false), eval("option(\"c\")", &["a", "b"]));
}

#[test]
fn negation_conjunction_disjunction() {
    assert_eq!(Some(false), eval("!option(\"a\")", &["a"]));
    assert_eq!(Some(true), eval("!option(\"z\")", &["a"]));
    assert_eq!(Some(true), eval("option(\"a\") && option(\"b\")", &["a", "b"]));
    assert_eq!(Some(false), eval("option(\"a\") && option(\"b\")", &["a"]));
    assert_eq!(Some(true), eval("option(\"a\") || option(\"b\")", &["b"]));
    assert_eq!(Some(false), eval("option(\"a\") || option(\"b\")", &[]));
}

#[test]
fn conjunction_binds_tighter_than_disjunction() {
    let e = "option(\"a\") || option(\"b\") && option(\"c\")";
    assert_eq!(Some(true), eval(e, &["a"]));
    assert_eq!(Some(false), eval(e, &["b"]));
    assert_eq!(Some(true), eval(e, &["b", "c"]));
}

#[test]
fn parentheses_group() {
    let e = "(option(\"a\") || option(\"b\")) && option(\"c\")";
    assert_eq!(Some(false), eval(e, &["a"]));
    assert_eq!(Some(true), eval(e, &["a", "c"]));
}

#[test]
fn whitespace_is_insignificant() {
    assert_eq!(Some(true), eval("  option( \"a\" )  ", &["a"]));
    assert_eq!(Some(true), eval("!option(\"x\")&&!option(\"y\")", &[]));
}

#[test]
fn malformed_expressions_evaluate_to_nothing() {
    assert_eq!(None, eval("", &["a"]));
    assert_eq!(None, eval("option(", &["a"]));
    assert_eq!(None, eval("option(\"a\") &&", &["a"]));
    assert_eq!(None, eval("option(\"a\") ** option(\"b\")", &["a"]));
    assert_eq!(None, eval("(option(\"a\")", &["a"]));
    assert_eq!(None, eval("selected(\"a\")", &["a"]));
}

#[test]
fn block_kind_frames() {
    assert!(BlockKind::Root.include_line());
    assert!(BlockKind::new_if(true).include_line());
    assert!(!BlockKind::new_if(false).include_line());

    // After a fired branch, an ELIF never emits again.
    let after_true = BlockKind::new_if(true).into_else_if(true);
    assert!(!after_true.include_line());
    // After nothing fired, an ELIF with a true condition emits.
    let after_false = BlockKind::new_if(false).into_else_if(true);
    assert!(after_false.include_line());

    // ELSE emits iff no branch fired before it.
    assert!(BlockKind::new_if(false).into_else().include_line());
    assert!(!BlockKind::new_if(true).into_else().include_line());
    assert!(!BlockKind::new_if(false).into_else_if(true).into_else().include_line());
}

#[test]
fn git_repo_initialized_only_outside_existing_repos() {
    assert!(should_initialize_git_repo(&vec![]));
    assert!(should_initialize_git_repo(&vec![false, false]));
    assert!(!should_initialize_git_repo(&vec![false, true, false]));
    assert!(!should_initialize_git_repo(&vec![true]));
}

#[test]
fn double_negation_and_nested_parens() {
    assert_eq!(Some(true), eval("!!option(\"a\")", &["a"]));
    assert_eq!(Some(true), eval("((option(\"a\")))", &["a"]));
    assert_eq!(Some(false), eval("!(option(\"a\") || option(\"b\"))", &["b"]));
}
