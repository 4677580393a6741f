use gql_safeguard::graphql::{
    Directive, DirectiveType, FieldSelection, FragmentDefinition, FragmentSpread, GraphQLItem,
    InlineFragment, QueryOperation, Selection,
};
use gql_safeguard::registry::GraphQLRegistry;
use gql_safeguard::validate::{ValidationError, ValidationResult, ErrorContext, ValidationErrorType};

fn op(name: &str, file: &str, selections: Vec<Selection>) -> GraphQLItem {
    GraphQLItem::Query(QueryOperation {
        name: name.to_string(),
        selections,
        directives: vec![],
        file_path: file.to_string(),
    })
}

#[test]
fn later_insert_under_same_name_wins() {
    let mut r = GraphQLRegistry::new();
    r.insert_item(op("Q", "first.ts", vec![]));
    r.insert_item(op("Q", "second.ts", vec![]));
    assert_eq!(r.query_count(), 1);
    assert_eq!(r.lookup_operation("Q").unwrap().file_path, "second.ts");
}

#[test]
fn fragments_and_operations_are_kept_apart() {
    let mut r = GraphQLRegistry::new();
    r.insert_item(op("Same", "q.ts", vec![]));
    r.insert_item(GraphQLItem::Fragment(FragmentDefinition {
        name: "Same".to_string(),
        type_condition: "User".to_string(),
        selections: vec![],
        directives: vec![],
        file_path: "f.ts".to_string(),
    }));
    assert_eq!(r.query_count(), 1);
    assert_eq!(r.fragment_count(), 1);
    assert_eq!(r.lookup_fragment("Same").unwrap().file_path, "f.ts");
    assert_eq!(r.lookup_operation("Same").unwrap().file_path, "q.ts");
    assert!(r.lookup_fragment("Other").is_none());
    assert!(r.lookup_operation("Other").is_none());
}

#[test]
fn query_names_lists_each_operation_once() {
    let mut r = GraphQLRegistry::new();
    r.insert_item(op("A", "a.ts", vec![]));
    r.insert_item(op("B", "b.ts", vec![]));
    r.insert_item(op("A", "a2.ts", vec![]));
    let mut names = r.query_names();
    names.sort();
    assert_eq!(names, vec!["A".to_string(), "B".to_string()]);
}

#[test]
fn file_count_is_stored() {
    let mut r = GraphQLRegistry::new();
    assert_eq!(r.file_count(), 0);
    r.set_file_count(7);
    assert_eq!(r.file_count(), 7);
}

#[test]
fn fields_and_fragments_flatten_in_document_order() {
    let d = Directive { directive_type: DirectiveType::Catch, line: 3, col: 9 };
    let q = QueryOperation {
        name: "Q".to_string(),
        selections: vec![
            Selection::Field(FieldSelection {
                name: "user".to_string(),
                directives: vec![d],
                selections: vec![
                    Selection::Field(FieldSelection { name: "id".to_string(), directives: vec![], selections: vec![] }),
                    Selection::FragmentSpread(FragmentSpread { name: "A".to_string(), directives: vec![d] }),
                ],
            }),
            Selection::InlineFragment(InlineFragment {
                type_condition: None,
                directives: vec![],
                selections: vec![
                    Selection::Field(FieldSelection { name: "name".to_string(), directives: vec![], selections: vec![] }),
                    Selection::FragmentSpread(FragmentSpread { name: "B".to_string(), directives: vec![] }),
                ],
            }),
        ],
        directives: vec![],
        file_path: "q.ts".to_string(),
    };
    let names: Vec<String> = q.fields().iter().map(|f| f.name.clone()).collect();
    assert_eq!(names, vec!["user".to_string(), "id".to_string(), "name".to_string()]);
    assert_eq!(q.fields()[0].directives, vec![d]);
    let spreads: Vec<String> = q.fragments().iter().map(|s| s.name.clone()).collect();
    assert_eq!(spreads, vec!["A".to_string(), "B".to_string()]);
    assert_eq!(q.fragments()[0].directives, vec![d]);

    let f = FragmentDefinition {
        name: "F".to_string(),
        type_condition: "User".to_string(),
        selections: q.selections,
        directives: vec![],
        file_path: "f.ts".to_string(),
    };
    assert_eq!(f.fields().len(), 3);
    assert_eq!(f.fragments().len(), 2);
}

#[test]
fn result_add_error_and_predicates() {
    let mut result = ValidationResult::new();
    assert!(result.is_valid());
    result.add_error(ValidationError {
        error_type: ValidationErrorType::UnprotectedThrowOnFieldError,
        context: ErrorContext {
            query_name: "Q".to_string(),
            query_file: "q.ts".to_string(),
            location_path: "query.a".to_string(),
            fragment_file: None,
            fragment_name: None,
        },
        tree_visualization: String::new(),
        explanation: String::new(),
    });
    assert!(result.has_errors());
    assert!(!result.is_valid());
    assert_eq!(result.errors.len(), 1);
}
