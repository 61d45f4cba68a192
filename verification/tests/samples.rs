use explicit_reinitialization::samples::{first_os_replaced, trimmed};
use explicit_reinitialization::samples::{should_lint, should_lint_2};
use explicit_reinitialization::samples::{should_not_lint_3, should_not_lint_5};

#[test]
fn samples_run() {
    should_lint();
    should_lint_2();
    should_not_lint_3();
    assert_eq!(should_not_lint_5(vec!["a".to_string(), "b".to_string()]), Vec::<String>::new());
    assert_eq!(should_not_lint_5(vec![]), Vec::<String>::new());
}

#[test]
fn first_three_are_replaced() {
    assert_eq!(first_os_replaced("foo book"), "faa baok");
    assert_eq!(first_os_replaced("none of it"), "nane af it");
    assert_eq!(first_os_replaced(""), "");
}

#[test]
fn ends_are_trimmed() {
    assert_eq!(trimmed(" \t a b\u{3000}\n"), "a b");
    assert_eq!(trimmed("\u{a0}\u{85}"), "");
    assert_eq!(trimmed("ab"), "ab");
}
