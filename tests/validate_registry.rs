use gql_safeguard::graphql::{
    Directive, DirectiveType, FieldSelection, FragmentDefinition, FragmentSpread, GraphQLItem,
    InlineFragment, QueryOperation, Selection,
};
use gql_safeguard::registry::GraphQLRegistry;
use gql_safeguard::validate::{validate_registry, ValidationErrorType, ValidationResult};

fn dir(kind: DirectiveType) -> Directive {
    Directive { directive_type: kind, line: 1, col: 1 }
}

fn catch() -> Directive {
    dir(DirectiveType::Catch)
}

fn throw() -> Directive {
    dir(DirectiveType::ThrowOnFieldError)
}

fn field(name: &str, directives: Vec<Directive>, selections: Vec<Selection>) -> Selection {
    Selection::Field(FieldSelection { name: name.to_string(), directives, selections })
}

fn spread(name: &str, directives: Vec<Directive>) -> Selection {
    Selection::FragmentSpread(FragmentSpread { name: name.to_string(), directives })
}

fn inline(type_condition: Option<&str>, directives: Vec<Directive>, selections: Vec<Selection>) -> Selection {
    Selection::InlineFragment(InlineFragment {
        type_condition: type_condition.map(|t| t.to_string()),
        directives,
        selections,
    })
}

fn query(name: &str, directives: Vec<Directive>, selections: Vec<Selection>) -> GraphQLItem {
    GraphQLItem::Query(QueryOperation {
        name: name.to_string(),
        selections,
        directives,
        file_path: format!("{}.ts", name.to_lowercase()),
    })
}

fn fragment(name: &str, directives: Vec<Directive>, selections: Vec<Selection>) -> GraphQLItem {
    GraphQLItem::Fragment(FragmentDefinition {
        name: name.to_string(),
        type_condition: "User".to_string(),
        selections,
        directives,
        file_path: format!("{}.ts", name.to_lowercase()),
    })
}

fn registry(items: Vec<GraphQLItem>) -> GraphQLRegistry {
    let mut r = GraphQLRegistry::new();
    for item in items {
        r.insert_item(item);
    }
    r
}

fn locations(result: &ValidationResult) -> Vec<String> {
    result.errors.iter().map(|e| e.context.location_path.clone()).collect()
}

#[test]
fn catch_on_parent_field_protects_child() {
    let r = registry(vec![query(
        "Q",
        vec![],
        vec![field("user", vec![catch()], vec![field("name", vec![throw()], vec![])])],
    )]);
    let result = validate_registry(&r);
    assert!(result.is_valid());
    assert!(!result.has_errors());
    assert_eq!(result.errors.len(), 0);
}

#[test]
fn unprotected_nested_field_is_reported() {
    let r = registry(vec![query(
        "Q",
        vec![],
        vec![field("user", vec![], vec![field("name", vec![throw()], vec![])])],
    )]);
    let result = validate_registry(&r);
    assert!(result.has_errors());
    assert_eq!(result.errors.len(), 1);
    let e = &result.errors[0];
    assert_eq!(e.error_type, ValidationErrorType::UnprotectedThrowOnFieldError);
    assert_eq!(e.context.query_name, "Q");
    assert_eq!(e.context.query_file, "q.ts");
    assert_eq!(e.context.location_path, "query.user.name");
    assert_eq!(e.context.fragment_name, None);
    assert_eq!(e.context.fragment_file, None);
    assert_eq!(e.explanation, "");
    assert_eq!(
        e.tree_visualization,
        "📄 Query: Q (q.ts)\n└── 🔍 Selections:\n    └── 🔹 Field: user\n        └── 🔹 Field: name ❌ [☄️ @throwOnFieldError]"
    );
}

#[test]
fn unprotected_field_in_fragment_names_the_fragment() {
    let r = registry(vec![
        query("Q", vec![], vec![spread("Frag", vec![])]),
        fragment("Frag", vec![], vec![field("name", vec![throw()], vec![])]),
    ]);
    let result = validate_registry(&r);
    assert_eq!(result.errors.len(), 1);
    let e = &result.errors[0];
    assert_eq!(e.context.fragment_name, Some("Frag".to_string()));
    assert_eq!(e.context.fragment_file, Some("frag.ts".to_string()));
    assert_eq!(e.context.location_path, "query...Frag.name");
    assert_eq!(
        e.tree_visualization,
        "📄 Query: Q (q.ts)\n└── 🔍 Selections:\n    └── 📋 FragmentSpread: Frag\n        └── Fragment Content:\n            └── 🔹 Field: name ❌ [☄️ @throwOnFieldError]"
    );
}

#[test]
fn operation_catch_skips_fragment() {
    let r = registry(vec![
        query("Q", vec![catch()], vec![spread("Frag", vec![])]),
        fragment("Frag", vec![], vec![field("name", vec![throw()], vec![])]),
    ]);
    let result = validate_registry(&r);
    assert!(result.is_valid());
}

#[test]
fn fragment_cycle_terminates_and_reports_what_it_found() {
    let r = registry(vec![
        query("Q", vec![], vec![spread("A", vec![])]),
        fragment("A", vec![], vec![spread("B", vec![]), field("x", vec![throw()], vec![])]),
        fragment("B", vec![], vec![spread("A", vec![]), field("y", vec![throw()], vec![])]),
    ]);
    let result = validate_registry(&r);
    assert_eq!(locations(&result), vec!["query...A...B.y".to_string(), "query...A.x".to_string()]);
    assert_eq!(result.errors[0].context.fragment_name, Some("B".to_string()));
    assert_eq!(result.errors[1].context.fragment_name, Some("A".to_string()));
}

#[test]
fn self_referencing_fragment_terminates() {
    let r = registry(vec![
        query("Q", vec![], vec![spread("A", vec![])]),
        fragment("A", vec![], vec![spread("A", vec![]), field("x", vec![throw()], vec![])]),
    ]);
    let result = validate_registry(&r);
    assert_eq!(locations(&result), vec!["query...A.x".to_string()]);
}

#[test]
fn validation_is_idempotent() {
    let r = registry(vec![
        query("B", vec![], vec![field("b", vec![throw()], vec![]), spread("F", vec![])]),
        query("A", vec![], vec![spread("F", vec![]), field("a", vec![throw()], vec![])]),
        fragment("F", vec![], vec![field("f", vec![throw()], vec![])]),
    ]);
    let first = validate_registry(&r);
    let second = validate_registry(&r);
    assert_eq!(first, second);
    assert_eq!(first.errors.len(), 4);
}

#[test]
fn errors_are_ordered_by_query_then_location() {
    let r = registry(vec![
        query("B", vec![], vec![field("z", vec![throw()], vec![]), field("a", vec![throw()], vec![])]),
        query("A", vec![], vec![field("m", vec![throw()], vec![])]),
    ]);
    let result = validate_registry(&r);
    let pairs: Vec<(String, String)> = result
        .errors
        .iter()
        .map(|e| (e.context.query_name.clone(), e.context.location_path.clone()))
        .collect();
    assert_eq!(
        pairs,
        vec![
            ("A".to_string(), "query.m".to_string()),
            ("B".to_string(), "query.a".to_string()),
            ("B".to_string(), "query.z".to_string()),
        ]
    );
}

#[test]
fn no_throwing_directive_means_no_error() {
    let r = registry(vec![
        query(
            "Q",
            vec![],
            vec![
                field("a", vec![catch()], vec![field("b", vec![], vec![])]),
                spread("F", vec![catch()]),
                inline(Some("User"), vec![], vec![field("c", vec![], vec![])]),
            ],
        ),
        fragment("F", vec![], vec![field("d", vec![], vec![])]),
    ]);
    assert!(validate_registry(&r).is_valid());
}

#[test]
fn catch_on_inline_fragment_protects_its_content() {
    let r = registry(vec![query(
        "Q",
        vec![],
        vec![inline(Some("User"), vec![catch()], vec![field("name", vec![throw()], vec![])])],
    )]);
    assert!(validate_registry(&r).is_valid());
}

#[test]
fn catch_on_fragment_definition_protects_its_content() {
    let r = registry(vec![
        query("Q", vec![], vec![spread("F", vec![])]),
        fragment("F", vec![catch()], vec![field("name", vec![throw()], vec![])]),
    ]);
    assert!(validate_registry(&r).is_valid());
}

#[test]
fn catch_on_spread_protects_fragment_content() {
    let r = registry(vec![
        query("Q", vec![], vec![spread("F", vec![catch()])]),
        fragment("F", vec![], vec![field("name", vec![throw()], vec![])]),
    ]);
    assert!(validate_registry(&r).is_valid());
}

#[test]
fn throwing_directive_on_spread_is_reported_at_the_spread() {
    let r = registry(vec![
        query("Q", vec![], vec![spread("F", vec![throw()])]),
        fragment("F", vec![], vec![field("name", vec![], vec![])]),
    ]);
    let result = validate_registry(&r);
    assert_eq!(locations(&result), vec!["query...F".to_string()]);
    assert_eq!(result.errors[0].context.fragment_name, Some("F".to_string()));
}

#[test]
fn spread_catch_before_throw_stops_the_check() {
    let r = registry(vec![
        query("Q", vec![], vec![spread("F", vec![catch(), throw()])]),
        fragment("F", vec![], vec![field("name", vec![throw()], vec![])]),
    ]);
    assert!(validate_registry(&r).is_valid());
}

#[test]
fn spread_throw_before_catch_is_reported() {
    let r = registry(vec![
        query("Q", vec![], vec![spread("F", vec![throw(), catch()])]),
        fragment("F", vec![], vec![field("name", vec![throw()], vec![])]),
    ]);
    assert_eq!(locations(&validate_registry(&r)), vec!["query...F".to_string()]);
}

#[test]
fn catch_on_sibling_does_not_protect() {
    let r = registry(vec![query(
        "Q",
        vec![],
        vec![
            field("a", vec![catch()], vec![field("x", vec![], vec![])]),
            field("b", vec![], vec![field("y", vec![throw()], vec![])]),
        ],
    )]);
    assert_eq!(locations(&validate_registry(&r)), vec!["query.b.y".to_string()]);
}

#[test]
fn catch_on_spread_does_not_protect_later_siblings() {
    let r = registry(vec![
        query(
            "Q",
            vec![],
            vec![spread("F", vec![catch()]), field("b", vec![], vec![field("y", vec![throw()], vec![])])],
        ),
        fragment("F", vec![], vec![field("name", vec![], vec![])]),
    ]);
    assert_eq!(locations(&validate_registry(&r)), vec!["query.b.y".to_string()]);
}

#[test]
fn catch_on_descendant_does_not_protect_ancestor() {
    let r = registry(vec![query(
        "Q",
        vec![],
        vec![field("user", vec![throw()], vec![field("name", vec![catch()], vec![])])],
    )]);
    assert_eq!(locations(&validate_registry(&r)), vec!["query.user".to_string()]);
}

#[test]
fn field_catch_does_not_cover_its_own_throw() {
    let r = registry(vec![query("Q", vec![], vec![field("user", vec![catch(), throw()], vec![])])]);
    assert_eq!(locations(&validate_registry(&r)), vec!["query.user".to_string()]);
}

#[test]
fn each_throwing_directive_is_one_error() {
    let r = registry(vec![query(
        "Q",
        vec![],
        vec![field("user", vec![throw(), dir(DirectiveType::RequiredThrow)], vec![])],
    )]);
    assert_eq!(
        locations(&validate_registry(&r)),
        vec!["query.user".to_string(), "query.user".to_string()]
    );
}

#[test]
fn query_level_throw_is_reported() {
    let r = registry(vec![query("Q", vec![throw()], vec![field("a", vec![], vec![])])]);
    let result = validate_registry(&r);
    assert_eq!(locations(&result), vec!["query level".to_string()]);
    assert_eq!(
        result.errors[0].tree_visualization,
        "📄 Query: Q (q.ts)\n├── 🏷️  Query Directives:\n|   └── ☄️ @throwOnFieldError ❌\n└── 🔍 Selections:\n    └── 🔹 Field: a"
    );
}

#[test]
fn query_level_throw_with_query_catch_is_not_reported() {
    let r = registry(vec![query("Q", vec![catch(), throw()], vec![field("a", vec![throw()], vec![])])]);
    assert!(validate_registry(&r).is_valid());
}

#[test]
fn missing_fragment_contributes_nothing() {
    let r = registry(vec![query("Q", vec![], vec![spread("Missing", vec![])])]);
    assert!(validate_registry(&r).is_valid());
}

#[test]
fn inline_fragment_paths_use_type_condition() {
    let r = registry(vec![query(
        "Q",
        vec![],
        vec![
            inline(Some("UserFragment"), vec![], vec![field("a", vec![throw()], vec![])]),
            inline(Some("User"), vec![], vec![field("b", vec![throw()], vec![])]),
            inline(None, vec![throw()], vec![]),
        ],
    )]);
    let result = validate_registry(&r);
    assert_eq!(
        locations(&result),
        vec![
            "query...InlineFragment".to_string(),
            "query...InlineFragment.b".to_string(),
            "query...User.a".to_string(),
        ]
    );
    assert_eq!(result.errors[0].context.fragment_name, None);
    assert_eq!(result.errors[1].context.fragment_name, None);
    assert_eq!(result.errors[2].context.fragment_name, None);
}

#[test]
fn inline_fragment_throw_names_stripped_type_condition() {
    let r = registry(vec![query("Q", vec![], vec![inline(Some("UserFragment"), vec![throw()], vec![])])]);
    let result = validate_registry(&r);
    assert_eq!(locations(&result), vec!["query...User".to_string()]);
    assert_eq!(result.errors[0].context.fragment_name, Some("User".to_string()));
}

#[test]
fn inline_catch_does_not_cover_its_own_throw() {
    let r = registry(vec![query("Q", vec![], vec![inline(Some("User"), vec![catch(), throw()], vec![])])]);
    assert_eq!(locations(&validate_registry(&r)), vec!["query...InlineFragment".to_string()]);
}

#[test]
fn fragment_spread_twice_is_walked_twice() {
    let r = registry(vec![
        query("Q", vec![], vec![field("a", vec![], vec![spread("F", vec![])]), spread("F", vec![])]),
        fragment("F", vec![], vec![field("x", vec![throw()], vec![])]),
    ]);
    assert_eq!(
        locations(&validate_registry(&r)),
        vec!["query...F.x".to_string(), "query.a...F.x".to_string()]
    );
}

#[test]
fn empty_registry_is_valid() {
    let r = GraphQLRegistry::new();
    let result = validate_registry(&r);
    assert!(result.is_valid());
    assert_eq!(r.query_count(), 0);
    assert_eq!(r.fragment_count(), 0);
}
