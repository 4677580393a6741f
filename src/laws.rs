//! Properties of the protection walk and of registry validation, proved from the
//! definitions the exec code is verified against.
use vstd::prelude::*;
use crate::graphql::{Directive, FragmentDefinition, QueryOperation, Selection, has_catch, is_throwing, throw_count, until_catch};
use crate::protection::{
    Origin, Site, field_path, fragment_path, inline_label, inline_name, opt_view, selection_sites, sites_for,
    unprotected_sites,
};
use crate::registry::GraphQLRegistry;
use crate::validate::{ValidationResult, query_errors, query_sites, validation_errors};

verus! {

broadcast use vstd::std_specs::vec::group_vec_axioms, vstd::seq::group_seq_axioms;

/// No throwing directive can be reached from `sels`: not on any field, spread or inline
/// fragment, nor inside any fragment a spread names (fragments in `visiting` are not
/// entered again).
pub open spec fn throw_free(frags: Map<Seq<char>, FragmentDefinition>, sels: Seq<Selection>, visiting: Set<Seq<char>>) -> bool
    decreases frags.dom().difference(visiting).len(), sels,
    when frags.dom().finite()
{
    if sels.len() == 0 {
        true
    } else {
        throw_free(frags, sels.drop_last(), visiting) && node_throw_free(frags, sels.last(), visiting)
    }
}

pub open spec fn node_throw_free(frags: Map<Seq<char>, FragmentDefinition>, sel: Selection, visiting: Set<Seq<char>>) -> bool
    decreases frags.dom().difference(visiting).len(), sel,
    when frags.dom().finite()
{
    match sel {
        Selection::Field(f) => throw_count(f.directives@) == 0 && throw_free(frags, f.selections@, visiting),
        Selection::InlineFragment(i) => throw_count(i.directives@) == 0 && throw_free(frags, i.selections@, visiting),
        Selection::FragmentSpread(s) => throw_count(s.directives@) == 0 && if frags.contains_key(s.name@)
            && !visiting.contains(s.name@) {
            proof {
                frags.dom().lemma_set_insert_diff_decreases(visiting, s.name@);
            }
            throw_free(frags, frags[s.name@].selections@, visiting.insert(s.name@))
        } else {
            true
        },
    }
}

pub proof fn lemma_throw_count_until_catch(ds: Seq<Directive>)
    ensures
        throw_count(until_catch(ds)) <= throw_count(ds),
    decreases ds.len(),
{
    reveal_with_fuel(throw_count, 2);
    if ds.len() > 0 {
        lemma_throw_count_until_catch(ds.drop_first());
        lemma_throw_count_front(ds);
        if !crate::graphql::is_catch(ds[0]) {
            lemma_throw_count_front(seq![ds[0]] + until_catch(ds.drop_first()));
            assert((seq![ds[0]] + until_catch(ds.drop_first())).drop_first() =~= until_catch(ds.drop_first()));
        }
    }
}

/// Counting throwing directives from the front.
pub proof fn lemma_throw_count_front(ds: Seq<Directive>)
    requires
        ds.len() > 0,
    ensures
        throw_count(ds) == throw_count(ds.drop_first()) + if is_throwing(ds[0]) { 1nat } else { 0nat },
    decreases ds.len(),
{
    if ds.len() == 1 {
        assert(ds.drop_last() =~= Seq::<Directive>::empty());
        assert(ds.drop_first() =~= Seq::<Directive>::empty());
    } else {
        lemma_throw_count_front(ds.drop_last());
        assert(ds.drop_last().drop_first() =~= ds.drop_first().drop_last());
    }
}

/// Below a catch directive nothing is reported: a protected walk finds no violation.
pub proof fn lemma_protected_walk_is_empty(
    frags: Map<Seq<char>, FragmentDefinition>,
    sels: Seq<Selection>,
    path: Seq<char>,
    visiting: Set<Seq<char>>,
    origin: Origin,
)
    requires
        frags.dom().finite(),
    ensures
        unprotected_sites(frags, sels, path, true, visiting, origin) == Seq::<Site>::empty(),
    decreases sels,
{
    if sels.len() > 0 {
        lemma_protected_walk_is_empty(frags, sels.drop_last(), path, visiting, origin);
        lemma_protected_node_is_empty(frags, sels.last(), path, visiting, origin);
        assert(Seq::<Site>::empty() + Seq::<Site>::empty() =~= Seq::<Site>::empty());
    }
}

pub proof fn lemma_protected_node_is_empty(
    frags: Map<Seq<char>, FragmentDefinition>,
    sel: Selection,
    path: Seq<char>,
    visiting: Set<Seq<char>>,
    origin: Origin,
)
    requires
        frags.dom().finite(),
    ensures
        selection_sites(frags, sel, path, true, visiting, origin) == Seq::<Site>::empty(),
    decreases sel,
{
    match sel {
        Selection::Field(f) => {
            lemma_protected_walk_is_empty(frags, f.selections@, field_path(path, f.name@), visiting, origin);
            assert(Seq::<Site>::empty() + Seq::<Site>::empty() =~= Seq::<Site>::empty());
        },
        Selection::InlineFragment(i) => {
            let here = fragment_path(path, inline_label(opt_view(i.type_condition)));
            lemma_protected_walk_is_empty(frags, i.selections@, here, visiting, origin);
            assert(Seq::<Site>::empty() + Seq::<Site>::empty() =~= Seq::<Site>::empty());
        },
        Selection::FragmentSpread(_) => {},
    }
}

pub proof fn lemma_until_catch_shorter(ds: Seq<Directive>)
    ensures
        has_catch(ds) ==> until_catch(ds).len() < ds.len(),
        !has_catch(ds) ==> until_catch(ds) == ds,
    decreases ds.len(),
{
    if ds.len() > 0 {
        lemma_until_catch_shorter(ds.drop_first());
        if has_catch(ds) && !crate::graphql::is_catch(ds[0]) {
            let k = choose|k: int| 0 <= k < ds.len() && crate::graphql::is_catch(#[trigger] ds[k]);
            assert(ds.drop_first()[k - 1] == ds[k]);
        }
        if !has_catch(ds) {
            assert forall|k: int| 0 <= k < ds.drop_first().len() implies !crate::graphql::is_catch(#[trigger] ds.drop_first()[k]) by {
                assert(ds.drop_first()[k] == ds[k + 1]);
            }
            assert(!crate::graphql::is_catch(ds[0]));
            assert(ds =~= seq![ds[0]] + ds.drop_first());
        }
    }
}

/// Selections with no reachable throwing directive give no violation, whatever the
/// protection state and wherever catch directives sit.
pub proof fn lemma_throw_free_walk_is_empty(
    frags: Map<Seq<char>, FragmentDefinition>,
    sels: Seq<Selection>,
    path: Seq<char>,
    protected: bool,
    visiting: Set<Seq<char>>,
    origin: Origin,
)
    requires
        frags.dom().finite(),
        throw_free(frags, sels, visiting),
    ensures
        unprotected_sites(frags, sels, path, protected, visiting, origin) == Seq::<Site>::empty(),
    decreases frags.dom().difference(visiting).len(), sels,
{
    if sels.len() > 0 {
        lemma_throw_free_walk_is_empty(frags, sels.drop_last(), path, protected, visiting, origin);
        lemma_throw_free_node_is_empty(frags, sels.last(), path, protected, visiting, origin);
        assert(Seq::<Site>::empty() + Seq::<Site>::empty() =~= Seq::<Site>::empty());
    }
}

pub proof fn lemma_throw_free_node_is_empty(
    frags: Map<Seq<char>, FragmentDefinition>,
    sel: Selection,
    path: Seq<char>,
    protected: bool,
    visiting: Set<Seq<char>>,
    origin: Origin,
)
    requires
        frags.dom().finite(),
        node_throw_free(frags, sel, visiting),
    ensures
        selection_sites(frags, sel, path, protected, visiting, origin) == Seq::<Site>::empty(),
    decreases frags.dom().difference(visiting).len(), sel,
{
    assert(Seq::<Site>::empty() + Seq::<Site>::empty() =~= Seq::<Site>::empty());
    match sel {
        Selection::Field(f) => {
            let here = field_path(path, f.name@);
            assert(sites_for(0, Site { location: here, fragment_name: origin.name, fragment_file: origin.file }) =~= Seq::<Site>::empty());
            lemma_throw_free_walk_is_empty(frags, f.selections@, here, protected || has_catch(f.directives@), visiting, origin);
        },
        Selection::InlineFragment(i) => {
            let tc = opt_view(i.type_condition);
            let here = fragment_path(path, inline_label(tc));
            assert(sites_for(0, Site { location: here, fragment_name: inline_name(tc), fragment_file: origin.file }) =~= Seq::<Site>::empty());
            lemma_throw_free_walk_is_empty(frags, i.selections@, here, protected || has_catch(i.directives@), visiting, origin);
        },
        Selection::FragmentSpread(s) => {
            if !protected {
                let here = fragment_path(path, s.name@);
                lemma_throw_count_until_catch(s.directives@);
                assert(sites_for(0, Site { location: here, fragment_name: Some(s.name@), fragment_file: origin.file }) =~= Seq::<Site>::empty());
                let head = until_catch(s.directives@);
                if !(head.len() < s.directives@.len() || !frags.contains_key(s.name@) || visiting.contains(s.name@)) {
                    let d = frags[s.name@];
                    frags.dom().lemma_set_insert_diff_decreases(visiting, s.name@);
                    lemma_throw_free_walk_is_empty(
                        frags,
                        d.selections@,
                        here,
                        has_catch(d.directives@),
                        visiting.insert(s.name@),
                        Origin { name: Some(d.name@), file: Some(d.file_path@) },
                    );
                }
            }
        },
    }
}

/// An operation with no throwing directive on it and none reachable from its
/// selections gets no report, wherever catch directives are placed.
pub proof fn lemma_no_throw_no_violation(
    frags: Map<Seq<char>, FragmentDefinition>,
    queries: Map<Seq<char>, QueryOperation>,
    name: Seq<char>,
)
    requires
        frags.dom().finite(),
        queries.contains_key(name),
        throw_count(queries[name].directives@) == 0,
        throw_free(frags, queries[name].selections@, Set::empty()),
    ensures
        query_errors(frags, queries, name) == Seq::<crate::validate::ErrorView>::empty(),
{
    let q = queries[name];
    lemma_throw_free_walk_is_empty(frags, q.selections@, "query"@, has_catch(q.directives@), Set::empty(), Origin { name: None, file: None });
    assert(sites_for(0, Site { location: crate::render::query_level(), fragment_name: None, fragment_file: None }) =~= Seq::<Site>::empty());
    assert(query_sites(frags, q) =~= Seq::<Site>::empty());
}

/// The path of a selection's own node, below `path`.
pub open spec fn own_path(sel: Selection, path: Seq<char>) -> Seq<char> {
    match sel {
        Selection::Field(f) => field_path(path, f.name@),
        Selection::FragmentSpread(s) => fragment_path(path, s.name@),
        Selection::InlineFragment(i) => fragment_path(path, inline_label(opt_view(i.type_condition))),
    }
}

/// The selection, or (for a spread) the fragment it names, carries a catch directive.
pub open spec fn guarded_by_catch(frags: Map<Seq<char>, FragmentDefinition>, sel: Selection) -> bool {
    match sel {
        Selection::Field(f) => has_catch(f.directives@),
        Selection::InlineFragment(i) => has_catch(i.directives@),
        Selection::FragmentSpread(s) => has_catch(s.directives@) || (frags.contains_key(s.name@)
            && has_catch(frags[s.name@].directives@)),
    }
}

/// A catch directive on a field, an inline fragment, a spread or the fragment a spread
/// names guards everything below that node: every violation the node yields is on the
/// node itself, none comes from below it.
pub proof fn lemma_catch_guards_subtree(
    frags: Map<Seq<char>, FragmentDefinition>,
    sel: Selection,
    path: Seq<char>,
    protected: bool,
    visiting: Set<Seq<char>>,
    origin: Origin,
)
    requires
        frags.dom().finite(),
        guarded_by_catch(frags, sel),
    ensures
        forall|k: int| 0 <= k < selection_sites(frags, sel, path, protected, visiting, origin).len()
            ==> (#[trigger] selection_sites(frags, sel, path, protected, visiting, origin)[k]).location == own_path(sel, path),
{
    let here = own_path(sel, path);
    match sel {
        Selection::Field(f) => {
            lemma_protected_walk_is_empty(frags, f.selections@, here, visiting, origin);
        },
        Selection::InlineFragment(i) => {
            lemma_protected_walk_is_empty(frags, i.selections@, here, visiting, origin);
        },
        Selection::FragmentSpread(s) => {
            lemma_until_catch_shorter(s.directives@);
            if !protected && !has_catch(s.directives@) && frags.contains_key(s.name@) && !visiting.contains(s.name@) {
                let d = frags[s.name@];
                lemma_protected_walk_is_empty(
                    frags,
                    d.selections@,
                    here,
                    visiting.insert(s.name@),
                    Origin { name: Some(d.name@), file: Some(d.file_path@) },
                );
            }
        },
    }
}

/// An operation with a catch directive of its own gets no report at all.
pub proof fn lemma_operation_catch_guards_all(
    frags: Map<Seq<char>, FragmentDefinition>,
    queries: Map<Seq<char>, QueryOperation>,
    name: Seq<char>,
)
    requires
        frags.dom().finite(),
        queries.contains_key(name),
        has_catch(queries[name].directives@),
    ensures
        query_errors(frags, queries, name) == Seq::<crate::validate::ErrorView>::empty(),
{
    let q = queries[name];
    lemma_protected_walk_is_empty(frags, q.selections@, "query"@, Set::empty(), Origin { name: None, file: None });
    assert(query_sites(frags, q) =~= Seq::<Site>::empty());
}

/// The violations of two sibling lists are those of each list, one after the other:
/// a catch directive in one list never changes what the other yields.
pub proof fn lemma_siblings_independent(
    frags: Map<Seq<char>, FragmentDefinition>,
    a: Seq<Selection>,
    b: Seq<Selection>,
    path: Seq<char>,
    protected: bool,
    visiting: Set<Seq<char>>,
    origin: Origin,
)
    requires
        frags.dom().finite(),
    ensures
        unprotected_sites(frags, a + b, path, protected, visiting, origin)
            == unprotected_sites(frags, a, path, protected, visiting, origin)
            + unprotected_sites(frags, b, path, protected, visiting, origin),
    decreases b.len(),
{
    if b.len() == 0 {
        assert(a + b =~= a);
        assert(unprotected_sites(frags, a, path, protected, visiting, origin) + Seq::<Site>::empty()
            =~= unprotected_sites(frags, a, path, protected, visiting, origin));
    } else {
        lemma_siblings_independent(frags, a, b.drop_last(), path, protected, visiting, origin);
        assert((a + b).drop_last() =~= a + b.drop_last());
        assert((a + b).last() == b.last());
    }
}

/// What a node yields for its own directives depends only on the inherited state and
/// those directives: a catch directive below a field or inline fragment does not guard
/// it, and the field's own violations come first, one per throwing directive.
pub proof fn lemma_descendant_catch_does_not_protect(
    frags: Map<Seq<char>, FragmentDefinition>,
    sel: Selection,
    path: Seq<char>,
    visiting: Set<Seq<char>>,
    origin: Origin,
)
    requires
        frags.dom().finite(),
        !(sel is FragmentSpread),
    ensures
        selection_sites(frags, sel, path, false, visiting, origin).len() >= own_count(sel),
        forall|k: int| 0 <= k < own_count(sel)
            ==> (#[trigger] selection_sites(frags, sel, path, false, visiting, origin)[k]).location == own_path(sel, path),
{
}

/// How many throwing directives the node itself carries (for a spread, those before its
/// first catch directive).
pub open spec fn own_count(sel: Selection) -> nat {
    match sel {
        Selection::Field(f) => throw_count(f.directives@),
        Selection::InlineFragment(i) => throw_count(i.directives@),
        Selection::FragmentSpread(s) => throw_count(until_catch(s.directives@)),
    }
}

/// The site reported for a throwing directive on the node itself.
pub open spec fn own_site(sel: Selection, path: Seq<char>, origin: Origin) -> Site {
    match sel {
        Selection::Field(_) => Site { location: own_path(sel, path), fragment_name: origin.name, fragment_file: origin.file },
        Selection::FragmentSpread(s) => Site { location: own_path(sel, path), fragment_name: Some(s.name@), fragment_file: origin.file },
        Selection::InlineFragment(i) => Site {
            location: own_path(sel, path),
            fragment_name: inline_name(opt_view(i.type_condition)),
            fragment_file: origin.file,
        },
    }
}

/// In an unprotected branch, each throwing directive on the `i`-th selection of a list
/// is reported exactly once, at that node's path, in the place the walk reaches it.
/// A spread with a catch directive of its own is left out.
pub proof fn lemma_unguarded_throw_reported(
    frags: Map<Seq<char>, FragmentDefinition>,
    sels: Seq<Selection>,
    i: int,
    path: Seq<char>,
    visiting: Set<Seq<char>>,
    origin: Origin,
)
    requires
        frags.dom().finite(),
        0 <= i < sels.len(),
        match sels[i] {
            Selection::FragmentSpread(s) => !has_catch(s.directives@),
            _ => true,
        },
    ensures
        ({
            let all = unprotected_sites(frags, sels, path, false, visiting, origin);
            let start = unprotected_sites(frags, sels.take(i), path, false, visiting, origin).len();
            let n = own_count(sels[i]);
            &&& start + n <= all.len()
            &&& all.subrange(start as int, (start + n) as int) == sites_for(n, own_site(sels[i], path, origin))
        }),
{
    let sel = sels[i];
    let rest = sels.skip(i + 1);
    assert(sels =~= sels.take(i) + (seq![sel] + rest));
    lemma_siblings_independent(frags, sels.take(i), seq![sel] + rest, path, false, visiting, origin);
    lemma_siblings_independent(frags, seq![sel], rest, path, false, visiting, origin);
    assert(seq![sel].drop_last() =~= Seq::<Selection>::empty());
    let pre = unprotected_sites(frags, sels.take(i), path, false, visiting, origin);
    let one = unprotected_sites(frags, seq![sel], path, false, visiting, origin);
    assert(seq![sel].last() == sel);
    assert(unprotected_sites(frags, Seq::<Selection>::empty(), path, false, visiting, origin) == Seq::<Site>::empty());
    assert(one =~= Seq::<Site>::empty() + selection_sites(frags, sel, path, false, visiting, origin));
    assert(one =~= selection_sites(frags, sel, path, false, visiting, origin));
    let n = own_count(sel);
    match sel {
        Selection::FragmentSpread(s) => {
            lemma_until_catch_shorter(s.directives@);
        },
        _ => {},
    }
    assert(one.len() >= n);
    assert(one.subrange(0, n as int) =~= sites_for(n, own_site(sel, path, origin)));
    let all = unprotected_sites(frags, sels, path, false, visiting, origin);
    assert(all.subrange(pre.len() as int, (pre.len() + n) as int) =~= one.subrange(0, n as int));
}

/// Validating one registry twice gives the same reports in the same order: the result
/// depends only on what the registry holds, not on how the work was scheduled.
pub proof fn lemma_validation_idempotent(registry: &GraphQLRegistry, first: ValidationResult, second: ValidationResult)
    requires
        registry.wf(),
        first@ == validation_errors(registry.fragment_map(), registry.query_map()),
        second@ == validation_errors(registry.fragment_map(), registry.query_map()),
    ensures
        first@ == second@,
{
}

} // verus!
