//! Full expansion of an operation: every fragment spread replaced by the content of the
//! fragment it names, recursively. Unlike the protection walk, which resolves spreads
//! only where it must and passes over cycles, expansion fails on a missing fragment or
//! on a fragment that would contain itself.
use vstd::prelude::*;
use crate::graphql::{Directive, FieldSelection, FragmentDefinition, InlineFragment, QueryOperation, Selection, copy_directives};
use crate::protection::{contains_name, lemma_names_of_push, names_of, opt_view};
use crate::registry::GraphQLRegistry;
use crate::text::{concat_str, copy_str};
use crate::validate::{names_view, sort_names, sorted_names, lemma_ascending_unique};

verus! {

broadcast use vstd::std_specs::vec::group_vec_axioms, vstd::seq::group_seq_axioms;

/// An operation with every spread expanded.
#[derive(Debug)]
pub struct QueryWithFragments {
    pub name: String,
    pub file_path: String,
    pub directives: Vec<Directive>,
    pub selections: Vec<Selection>,
}

/// A fragment with every spread inside it expanded.
#[derive(Debug)]
pub struct FragmentNode {
    pub name: String,
    pub file_path: String,
    pub directives: Vec<Directive>,
    pub selections: Vec<Selection>,
}

/// Why a spread could not be expanded.
#[derive(Clone, Debug, PartialEq, Eq)]
pub enum ResolveError {
    FragmentNotFound(String),
    CircularDependency(String),
}

/// An expansion failure and the operation it happened in.
#[derive(Clone, Debug, PartialEq, Eq)]
pub struct GraphError {
    pub query_name: String,
    pub cause: ResolveError,
}

/// A selection tree as values.
pub enum SelectionModel {
    Field { name: Seq<char>, directives: Seq<Directive>, selections: Seq<SelectionModel> },
    FragmentSpread { name: Seq<char>, directives: Seq<Directive> },
    InlineFragment { type_condition: Option<Seq<char>>, directives: Seq<Directive>, selections: Seq<SelectionModel> },
}

pub enum ResolveErrorModel {
    FragmentNotFound(Seq<char>),
    CircularDependency(Seq<char>),
}

pub struct QueryModel {
    pub name: Seq<char>,
    pub file_path: Seq<char>,
    pub directives: Seq<Directive>,
    pub selections: Seq<SelectionModel>,
}

pub open spec fn selection_model(s: Selection) -> SelectionModel
    decreases s,
{
    match s {
        Selection::Field(f) => SelectionModel::Field {
            name: f.name@,
            directives: f.directives@,
            selections: selections_model(f.selections@),
        },
        Selection::FragmentSpread(f) => SelectionModel::FragmentSpread { name: f.name@, directives: f.directives@ },
        Selection::InlineFragment(i) => SelectionModel::InlineFragment {
            type_condition: opt_view(i.type_condition),
            directives: i.directives@,
            selections: selections_model(i.selections@),
        },
    }
}

pub open spec fn selections_model(s: Seq<Selection>) -> Seq<SelectionModel>
    decreases s,
{
    if s.len() == 0 {
        Seq::empty()
    } else {
        selections_model(s.drop_last()).push(selection_model(s.last()))
    }
}

impl ResolveError {
    pub open spec fn model(self) -> ResolveErrorModel {
        match self {
            ResolveError::FragmentNotFound(n) => ResolveErrorModel::FragmentNotFound(n@),
            ResolveError::CircularDependency(n) => ResolveErrorModel::CircularDependency(n@),
        }
    }
}

impl QueryWithFragments {
    pub open spec fn model(self) -> QueryModel {
        QueryModel {
            name: self.name@,
            file_path: self.file_path@,
            directives: self.directives@,
            selections: selections_model(self.selections@),
        }
    }
}

/// The expansion of a selection list, or the first failure met going through it in
/// document order. `visiting` holds the fragments being expanded further up.
pub open spec fn expand_list(
    frags: Map<Seq<char>, FragmentDefinition>,
    sels: Seq<Selection>,
    visiting: Set<Seq<char>>,
) -> Result<Seq<SelectionModel>, ResolveErrorModel>
    decreases frags.dom().difference(visiting).len(), sels,
    when frags.dom().finite()
{
    if sels.len() == 0 {
        Ok(Seq::empty())
    } else {
        match expand_list(frags, sels.drop_last(), visiting) {
            Err(e) => Err(e),
            Ok(prev) => match expand_node(frags, sels.last(), visiting) {
                Err(e) => Err(e),
                Ok(m) => Ok(prev.push(m)),
            },
        }
    }
}

/// The expansion of one selection. A spread becomes an inline fragment whose type
/// condition is the fragment's name followed by `Fragment`, carrying the spread's
/// directives and then the fragment's.
pub open spec fn expand_node(
    frags: Map<Seq<char>, FragmentDefinition>,
    sel: Selection,
    visiting: Set<Seq<char>>,
) -> Result<SelectionModel, ResolveErrorModel>
    decreases frags.dom().difference(visiting).len(), sel,
    when frags.dom().finite()
{
    match sel {
        Selection::Field(f) => match expand_list(frags, f.selections@, visiting) {
            Err(e) => Err(e),
            Ok(ch) => Ok(SelectionModel::Field { name: f.name@, directives: f.directives@, selections: ch }),
        },
        Selection::InlineFragment(i) => match expand_list(frags, i.selections@, visiting) {
            Err(e) => Err(e),
            Ok(ch) => Ok(SelectionModel::InlineFragment {
                type_condition: opt_view(i.type_condition),
                directives: i.directives@,
                selections: ch,
            }),
        },
        Selection::FragmentSpread(s) => {
            if !frags.contains_key(s.name@) {
                Err(ResolveErrorModel::FragmentNotFound(s.name@))
            } else if visiting.contains(s.name@) {
                Err(ResolveErrorModel::CircularDependency(s.name@))
            } else {
                let d = frags[s.name@];
                proof {
                    frags.dom().lemma_set_insert_diff_decreases(visiting, s.name@);
                }
                match expand_list(frags, d.selections@, visiting.insert(s.name@)) {
                    Err(e) => Err(e),
                    Ok(ch) => Ok(SelectionModel::InlineFragment {
                        type_condition: Some(s.name@ + "Fragment"@),
                        directives: s.directives@ + d.directives@,
                        selections: ch,
                    }),
                }
            }
        },
    }
}

/// A failure in a prefix of a list is the failure of the whole list.
proof fn lemma_prefix_failure(
    frags: Map<Seq<char>, FragmentDefinition>,
    sels: Seq<Selection>,
    k: int,
    visiting: Set<Seq<char>>,
)
    requires
        frags.dom().finite(),
        0 <= k <= sels.len(),
        expand_list(frags, sels.take(k), visiting) is Err,
    ensures
        expand_list(frags, sels, visiting) == expand_list(frags, sels.take(k), visiting),
    decreases sels.len() - k,
{
    if k < sels.len() {
        assert(sels.drop_last().take(k) =~= sels.take(k));
        lemma_prefix_failure(frags, sels.drop_last(), k, visiting);
    } else {
        assert(sels.take(k) =~= sels);
    }
}

/// Expands `sels` against the registry's fragments.
pub fn resolve_selections_with_fragments(
    sels: &Vec<Selection>,
    registry: &GraphQLRegistry,
    visiting: &mut Vec<String>,
) -> (r: Result<Vec<Selection>, ResolveError>)
    requires
        registry.wf(),
    ensures
        final(visiting)@ == old(visiting)@,
        match r {
            Ok(v) => expand_list(registry.fragment_map(), sels@, names_of(old(visiting)@)) == Ok::<
                Seq<SelectionModel>,
                ResolveErrorModel,
            >(selections_model(v@)),
            Err(e) => expand_list(registry.fragment_map(), sels@, names_of(old(visiting)@)) == Err::<
                Seq<SelectionModel>,
                ResolveErrorModel,
            >(e.model()),
        },
    decreases registry.fragment_map().dom().difference(names_of(old(visiting)@)).len(), sels@,
{
    let ghost frags = registry.fragment_map();
    let ghost vis = visiting@;
    let mut out: Vec<Selection> = Vec::new();
    assert(sels@.take(0) =~= Seq::<Selection>::empty());
    assert(selections_model(out@) =~= Seq::<SelectionModel>::empty());
    for i in 0..sels.len()
        invariant
            registry.wf(),
            frags == registry.fragment_map(),
            vis == old(visiting)@,
            visiting@ == vis,
            expand_list(frags, sels@.take(i as int), names_of(vis)) == Ok::<Seq<SelectionModel>, ResolveErrorModel>(
                selections_model(out@),
            ),
    {
        assert(sels@.take(i + 1).drop_last() =~= sels@.take(i as int));
        assert(sels@.take(i + 1).last() == sels@[i as int]);
        assert(decreases_to!(sels@ => sels@[i as int]));
        match resolve_selection(&sels[i], registry, visiting) {
            Ok(s) => {
                let ghost prev = out@;
                out.push(s);
                assert(out@.drop_last() =~= prev);
            },
            Err(e) => {
                proof {
                    lemma_prefix_failure(frags, sels@, i + 1, names_of(vis));
                }
                return Err(e);
            },
        }
    }
    assert(sels@.take(sels@.len() as int) =~= sels@);
    Ok(out)
}

fn resolve_selection(
    sel: &Selection,
    registry: &GraphQLRegistry,
    visiting: &mut Vec<String>,
) -> (r: Result<Selection, ResolveError>)
    requires
        registry.wf(),
    ensures
        final(visiting)@ == old(visiting)@,
        match r {
            Ok(s) => expand_node(registry.fragment_map(), *sel, names_of(old(visiting)@)) == Ok::<
                SelectionModel,
                ResolveErrorModel,
            >(selection_model(s)),
            Err(e) => expand_node(registry.fragment_map(), *sel, names_of(old(visiting)@)) == Err::<
                SelectionModel,
                ResolveErrorModel,
            >(e.model()),
        },
    decreases registry.fragment_map().dom().difference(names_of(old(visiting)@)).len(), *sel,
{
    let ghost frags = registry.fragment_map();
    let ghost vis = visiting@;
    match sel {
        Selection::Field(f) => {
            let children = resolve_selections_with_fragments(&f.selections, registry, visiting)?;
            Ok(Selection::Field(FieldSelection {
                name: copy_str(&f.name),
                directives: copy_directives(&f.directives),
                selections: children,
            }))
        },
        Selection::InlineFragment(inl) => {
            let children = resolve_selections_with_fragments(&inl.selections, registry, visiting)?;
            let tc = match &inl.type_condition {
                Some(t) => Some(copy_str(t)),
                None => None,
            };
            Ok(Selection::InlineFragment(InlineFragment {
                type_condition: tc,
                directives: copy_directives(&inl.directives),
                selections: children,
            }))
        },
        Selection::FragmentSpread(s) => {
            let d = match registry.lookup_fragment(s.name.as_str()) {
                Some(d) => d,
                None => {
                    return Err(ResolveError::FragmentNotFound(copy_str(&s.name)));
                },
            };
            if contains_name(visiting, &s.name) {
                return Err(ResolveError::CircularDependency(copy_str(&s.name)));
            }
            visiting.push(copy_str(&s.name));
            proof {
                lemma_names_of_push(vis, visiting@.last());
                assert(visiting@ == vis.push(visiting@.last()));
                frags.dom().lemma_set_insert_diff_decreases(names_of(vis), s.name@);
            }
            let resolved = resolve_selections_with_fragments(&d.selections, registry, visiting);
            visiting.pop();
            assert(visiting@ =~= vis);
            let children = resolved?;
            let mut directives = copy_directives(&s.directives);
            let mut more = copy_directives(&d.directives);
            directives.append(&mut more);
            Ok(Selection::InlineFragment(InlineFragment {
                type_condition: Some(concat_str(s.name.as_str(), "Fragment")),
                directives,
                selections: children,
            }))
        },
    }
}

pub open spec fn expand_query(frags: Map<Seq<char>, FragmentDefinition>, q: QueryOperation) -> Result<QueryModel, ResolveErrorModel> {
    match expand_list(frags, q.selections@, Set::empty()) {
        Err(e) => Err(e),
        Ok(ch) => Ok(QueryModel { name: q.name@, file_path: q.file_path@, directives: q.directives@, selections: ch }),
    }
}

/// The expansions of the operations named by `names`, in that order, or the first
/// failure with the name of the operation it happened in.
pub open spec fn expand_queries(
    frags: Map<Seq<char>, FragmentDefinition>,
    queries: Map<Seq<char>, QueryOperation>,
    names: Seq<Seq<char>>,
) -> Result<Seq<QueryModel>, (Seq<char>, ResolveErrorModel)>
    decreases names.len(),
{
    if names.len() == 0 {
        Ok(Seq::empty())
    } else {
        match expand_queries(frags, queries, names.drop_last()) {
            Err(e) => Err(e),
            Ok(prev) => match expand_query(frags, queries[names.last()]) {
                Err(e) => Err((names.last(), e)),
                Ok(m) => Ok(prev.push(m)),
            },
        }
    }
}

/// Every operation of the registry expanded, by ascending name; or the first failure
/// in that order.
pub open spec fn dependency_graph(
    frags: Map<Seq<char>, FragmentDefinition>,
    queries: Map<Seq<char>, QueryOperation>,
) -> Result<Seq<QueryModel>, (Seq<char>, ResolveErrorModel)> {
    expand_queries(frags, queries, sorted_names(queries.dom()))
}

proof fn lemma_query_prefix_failure(
    frags: Map<Seq<char>, FragmentDefinition>,
    queries: Map<Seq<char>, QueryOperation>,
    names: Seq<Seq<char>>,
    k: int,
)
    requires
        0 <= k <= names.len(),
        expand_queries(frags, queries, names.take(k)) is Err,
    ensures
        expand_queries(frags, queries, names) == expand_queries(frags, queries, names.take(k)),
    decreases names.len() - k,
{
    if k < names.len() {
        assert(names.drop_last().take(k) =~= names.take(k));
        lemma_query_prefix_failure(frags, queries, names.drop_last(), k);
    } else {
        assert(names.take(k) =~= names);
    }
}

/// Expands every operation of the registry, in ascending order of name.
pub fn registry_to_dependency_graph(registry: &GraphQLRegistry) -> (r: Result<Vec<QueryWithFragments>, GraphError>)
    requires
        registry.wf(),
    ensures
        match r {
            Ok(v) => dependency_graph(registry.fragment_map(), registry.query_map()) == Ok::<
                Seq<QueryModel>,
                (Seq<char>, ResolveErrorModel),
            >(v@.map_values(|q: QueryWithFragments| q.model())),
            Err(e) => dependency_graph(registry.fragment_map(), registry.query_map()) == Err::<
                Seq<QueryModel>,
                (Seq<char>, ResolveErrorModel),
            >((e.query_name@, e.cause.model())),
        },
{
    let ghost frags = registry.fragment_map();
    let ghost queries = registry.query_map();
    let unordered = registry.query_names();
    let names = sort_names(unordered);
    let ghost order = names_view(names@);
    proof {
        assert(order.to_set() =~= queries.dom()) by {
            assert forall|k: Seq<char>| queries.dom().contains(k) implies order.to_set().contains(k) by {
                let i = choose|i: int| 0 <= i < unordered@.len() && unordered@[i]@ == k;
                assert(names_view(unordered@)[i] == k);
                assert(names_view(unordered@).to_set().contains(k));
            }
            assert forall|k: Seq<char>| order.to_set().contains(k) implies queries.dom().contains(k) by {
                assert(names_view(unordered@).to_set().contains(k));
                let i = choose|i: int| 0 <= i < unordered@.len() && names_view(unordered@)[i] == k;
                assert(queries.contains_key(unordered@[i]@));
            }
        }
        lemma_ascending_unique(order, sorted_names(queries.dom()));
    }
    let mut result: Vec<QueryWithFragments> = Vec::new();
    assert(order.take(0) =~= Seq::<Seq<char>>::empty());
    assert(result@.map_values(|q: QueryWithFragments| q.model()) =~= Seq::<QueryModel>::empty());
    for i in 0..names.len()
        invariant
            registry.wf(),
            frags == registry.fragment_map(),
            queries == registry.query_map(),
            order == names_view(names@),
            order.to_set() == queries.dom(),
            order == sorted_names(queries.dom()),
            expand_queries(frags, queries, order.take(i as int)) == Ok::<Seq<QueryModel>, (Seq<char>, ResolveErrorModel)>(
                result@.map_values(|q: QueryWithFragments| q.model()),
            ),
    {
        assert(order.take(i + 1).drop_last() =~= order.take(i as int));
        assert(order.take(i + 1).last() == names@[i as int]@);
        assert(order.to_set().contains(order[i as int]));
        let q = match registry.lookup_operation(names[i].as_str()) {
            Some(q) => q,
            None => {
                assert(false);
                return Err(GraphError {
                    query_name: copy_str(&names[i]),
                    cause: ResolveError::FragmentNotFound(copy_str(&names[i])),
                });
            },
        };
        let mut visiting: Vec<String> = Vec::new();
        proof {
            assert(names_of(visiting@) =~= Set::<Seq<char>>::empty());
        }
        match resolve_selections_with_fragments(&q.selections, registry, &mut visiting) {
            Ok(selections) => {
                let ghost prev = result@;
                result.push(QueryWithFragments {
                    name: copy_str(&q.name),
                    file_path: copy_str(&q.file_path),
                    directives: copy_directives(&q.directives),
                    selections,
                });
                assert(result@.map_values(|q: QueryWithFragments| q.model())
                    =~= prev.map_values(|q: QueryWithFragments| q.model()).push(result@.last().model()));
            },
            Err(cause) => {
                proof {
                    assert(expand_query(frags, queries[order[i as int]]) == Err::<QueryModel, ResolveErrorModel>(cause.model()));
                    lemma_query_prefix_failure(frags, queries, order, i + 1);
                    assert(order.take(names@.len() as int) =~= order);
                }
                return Err(GraphError { query_name: copy_str(&names[i]), cause });
            },
        }
    }
    assert(order.take(names@.len() as int) =~= order);
    Ok(result)
}

} // verus!
