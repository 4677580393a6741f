use gql_safeguard::text::{str_lt, strip_suffix};
use gql_safeguard::validate::display_location;

#[test]
fn strip_suffix_removes_trailing_text() {
    assert_eq!(strip_suffix("UserFragment", "Fragment"), Some("User".to_string()));
    assert_eq!(strip_suffix("Fragment", "Fragment"), Some(String::new()));
    assert_eq!(strip_suffix("User", "Fragment"), None);
    assert_eq!(strip_suffix("FragmentUser", "Fragment"), None);
}

#[test]
fn str_lt_orders_like_str() {
    assert!(str_lt("query...A...B.y", "query...A.x"));
    assert!(!str_lt("query.a", "query.a"));
    assert!(str_lt("query", "query.a"));
    assert!(!str_lt("b", "a"));
    assert!(str_lt("Z", "a"));
}

#[test]
fn display_location_shortens_paths() {
    assert_eq!(display_location("query.user.name"), "name");
    assert_eq!(display_location("query.user...ProfileFragment.avatar"), "ProfileFragment.avatar");
    assert_eq!(display_location("query...Frag.name"), "name");
    assert_eq!(display_location("query level"), "query level");
    assert_eq!(display_location("query.a...B...C.d"), "C.d");
    assert_eq!(display_location("plain"), "plain");
}

#[test]
fn names_and_titles() {
    assert_eq!(gql_safeguard::graphql::DirectiveType::Catch.name(), "catch");
    assert_eq!(gql_safeguard::graphql::DirectiveType::ThrowOnFieldError.name(), "throwOnFieldError");
    assert_eq!(gql_safeguard::graphql::DirectiveType::RequiredThrow.name(), "requiredThrow");
    assert_eq!(
        gql_safeguard::validate::ValidationErrorType::UnprotectedThrowOnFieldError.title(),
        "Unprotected @throwOnFieldError"
    );
}
