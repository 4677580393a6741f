use gql_safeguard::graphql::{
    Directive, DirectiveType, FieldSelection, FragmentDefinition, FragmentSpread, GraphQLItem,
    QueryOperation, Selection,
};
use gql_safeguard::registry::GraphQLRegistry;
use gql_safeguard::registry_to_graph::{registry_to_dependency_graph, GraphError, ResolveError};

fn d(kind: DirectiveType, line: u32) -> Directive {
    Directive { directive_type: kind, line, col: 1 }
}

fn field(name: &str, selections: Vec<Selection>) -> Selection {
    Selection::Field(FieldSelection { name: name.to_string(), directives: vec![], selections })
}

fn spread(name: &str, directives: Vec<Directive>) -> Selection {
    Selection::FragmentSpread(FragmentSpread { name: name.to_string(), directives })
}

fn registry(queries: Vec<(&str, Vec<Selection>)>, fragments: Vec<(&str, Vec<Directive>, Vec<Selection>)>) -> GraphQLRegistry {
    let mut r = GraphQLRegistry::new();
    for (name, selections) in queries {
        r.insert_item(GraphQLItem::Query(QueryOperation {
            name: name.to_string(),
            selections,
            directives: vec![],
            file_path: "q.ts".to_string(),
        }));
    }
    for (name, directives, selections) in fragments {
        r.insert_item(GraphQLItem::Fragment(FragmentDefinition {
            name: name.to_string(),
            type_condition: "User".to_string(),
            selections,
            directives,
            file_path: "f.ts".to_string(),
        }));
    }
    r
}

#[test]
fn spreads_become_inline_fragments_with_merged_directives() {
    let r = registry(
        vec![("Q", vec![field("user", vec![spread("F", vec![d(DirectiveType::Catch, 2)])])])],
        vec![("F", vec![d(DirectiveType::ThrowOnFieldError, 7)], vec![field("name", vec![])])],
    );
    let graph = registry_to_dependency_graph(&r).unwrap();
    assert_eq!(graph.len(), 1);
    assert_eq!(graph[0].name, "Q");
    match &graph[0].selections[0] {
        Selection::Field(user) => match &user.selections[0] {
            Selection::InlineFragment(inl) => {
                assert_eq!(inl.type_condition, Some("FFragment".to_string()));
                assert_eq!(inl.directives, vec![d(DirectiveType::Catch, 2), d(DirectiveType::ThrowOnFieldError, 7)]);
                match &inl.selections[0] {
                    Selection::Field(name) => assert_eq!(name.name, "name"),
                    other => panic!("unexpected {:?}", other),
                }
            }
            other => panic!("unexpected {:?}", other),
        },
        other => panic!("unexpected {:?}", other),
    }
}

#[test]
fn missing_fragment_is_an_error() {
    let r = registry(vec![("Q", vec![spread("Nope", vec![])])], vec![]);
    let err = registry_to_dependency_graph(&r).unwrap_err();
    assert_eq!(
        err,
        GraphError { query_name: "Q".to_string(), cause: ResolveError::FragmentNotFound("Nope".to_string()) }
    );
}

#[test]
fn cycle_is_an_error() {
    let r = registry(
        vec![("Q", vec![spread("A", vec![])])],
        vec![("A", vec![], vec![spread("B", vec![])]), ("B", vec![], vec![spread("A", vec![])])],
    );
    let err = registry_to_dependency_graph(&r).unwrap_err();
    assert_eq!(err.query_name, "Q");
    assert_eq!(err.cause, ResolveError::CircularDependency("A".to_string()));
}

#[test]
fn same_fragment_twice_is_not_a_cycle() {
    let r = registry(
        vec![("Q", vec![spread("F", vec![]), field("x", vec![spread("F", vec![])])])],
        vec![("F", vec![], vec![field("id", vec![])])],
    );
    let graph = registry_to_dependency_graph(&r).unwrap();
    assert_eq!(graph[0].selections.len(), 2);
}

#[test]
fn queries_come_out_by_name_and_first_failure_wins() {
    let ok = registry(vec![("B", vec![]), ("A", vec![field("a", vec![])])], vec![]);
    let names: Vec<String> = registry_to_dependency_graph(&ok).unwrap().iter().map(|q| q.name.clone()).collect();
    assert_eq!(names, vec!["A".to_string(), "B".to_string()]);

    let bad = registry(vec![("B", vec![spread("X", vec![])]), ("C", vec![spread("Y", vec![])])], vec![]);
    let err = registry_to_dependency_graph(&bad).unwrap_err();
    assert_eq!(err.query_name, "B");
    assert_eq!(err.cause, ResolveError::FragmentNotFound("X".to_string()));
}
