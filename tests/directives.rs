use gql_safeguard::directives::{
    extract_directives_from_directive_list, has_throw_action, should_ignore_directive,
    ArgumentSyntax, DirectiveSyntax,
};
use gql_safeguard::graphql::{Directive, DirectiveType};

fn arg(name: &str, value: Option<&str>) -> ArgumentSyntax {
    ArgumentSyntax { name: name.to_string(), enum_value: value.map(|v| v.to_string()) }
}

fn syntax(name: &str, line: u32, column: u32, arguments: Vec<ArgumentSyntax>) -> DirectiveSyntax {
    DirectiveSyntax { name: name.to_string(), line, column, arguments }
}

#[test]
fn throw_action_needs_action_throw_enum() {
    assert!(has_throw_action(&vec![arg("action", Some("THROW"))]));
    assert!(has_throw_action(&vec![arg("other", None), arg("action", Some("THROW"))]));
    assert!(!has_throw_action(&vec![arg("action", Some("LOG"))]));
    assert!(!has_throw_action(&vec![arg("action", None)]));
    assert!(!has_throw_action(&vec![arg("mode", Some("THROW"))]));
    assert!(!has_throw_action(&vec![]));
}

#[test]
fn ignore_comment_on_previous_line() {
    let content = "query Q {\n  # gql-safeguard-ignore\n  name @throwOnFieldError\n}";
    assert!(should_ignore_directive(content, 3));
    assert!(!should_ignore_directive(content, 2));
    assert!(!should_ignore_directive(content, 1));
    assert!(!should_ignore_directive(content, 0));
    assert!(!should_ignore_directive(content, 9));
}

#[test]
fn ignore_comment_must_be_whole_line() {
    let content = "a\n# gql-safeguard-ignore please\nb @throwOnFieldError";
    assert!(!should_ignore_directive(content, 3));
    let crlf = "a\r\n\t# gql-safeguard-ignore \r\nb";
    assert!(should_ignore_directive(crlf, 3));
}

#[test]
fn ignore_comment_on_last_line_has_no_line_below() {
    let content = "a\n# gql-safeguard-ignore\n";
    assert!(!should_ignore_directive(content, 3));
}

#[test]
fn only_protection_directives_are_kept() {
    let content = "query Q {\n  a @catch @include(if: true)\n  b @throwOnFieldError\n  c @required(action: THROW)\n  d @required(action: LOG)\n}";
    let ds = vec![
        syntax("catch", 2, 5, vec![]),
        syntax("include", 2, 12, vec![arg("if", None)]),
        syntax("throwOnFieldError", 3, 5, vec![]),
        syntax("required", 4, 5, vec![arg("action", Some("THROW"))]),
        syntax("required", 5, 5, vec![arg("action", Some("LOG"))]),
    ];
    let kept = extract_directives_from_directive_list(&ds, 10, content);
    assert_eq!(
        kept,
        vec![
            Directive { directive_type: DirectiveType::Catch, line: 11, col: 5 },
            Directive { directive_type: DirectiveType::ThrowOnFieldError, line: 12, col: 5 },
            Directive { directive_type: DirectiveType::RequiredThrow, line: 13, col: 5 },
        ]
    );
}

#[test]
fn ignored_throwing_directives_are_dropped_but_catch_is_kept() {
    let content = "query Q {\n  # gql-safeguard-ignore\n  b @throwOnFieldError @catch\n  # gql-safeguard-ignore\n  c @required(action: THROW)\n}";
    let ds = vec![
        syntax("throwOnFieldError", 3, 5, vec![]),
        syntax("catch", 3, 24, vec![]),
        syntax("required", 5, 5, vec![arg("action", Some("THROW"))]),
    ];
    let kept = extract_directives_from_directive_list(&ds, 1, content);
    assert_eq!(kept, vec![Directive { directive_type: DirectiveType::Catch, line: 3, col: 24 }]);
}
