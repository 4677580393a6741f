//! The tree picture of an operation that goes with each violation. Fragment spreads are
//! shown with the content of the fragment they name, so that a reader sees where a
//! throwing directive came from; the node at the violation's path is marked.
use vstd::prelude::*;
use crate::graphql::{Directive, DirectiveType, FragmentDefinition, QueryOperation, Selection};
use crate::protection::{
    contains_name, field_path, fragment_path, inline_label, inline_parts, lemma_names_of_push,
    names_of, opt_view,
};
use crate::registry::GraphQLRegistry;
use crate::text::{concat_str, copy_str};
use crate::tree_formatter::{Lines, TreeFormatter, render_tree};

verus! {

broadcast use vstd::std_specs::vec::group_vec_axioms, vstd::seq::group_seq_axioms;

/// The location that marks a violation on the operation's own directives.
pub open spec fn query_level() -> Seq<char> {
    "query level"@
}

pub open spec fn directive_label(d: Directive) -> Seq<char> {
    match d.directive_type {
        DirectiveType::Catch => "🧤 @catch"@,
        DirectiveType::ThrowOnFieldError => "☄️ @throwOnFieldError"@,
        DirectiveType::RequiredThrow => "☄️ @requiredThrow"@,
    }
}

/// The labels of `ds`, separated by commas.
pub open spec fn directive_list(ds: Seq<Directive>) -> Seq<char>
    decreases ds.len(),
{
    if ds.len() == 0 {
        Seq::empty()
    } else if ds.len() == 1 {
        directive_label(ds[0])
    } else {
        directive_list(ds.drop_last()) + ", "@ + directive_label(ds.last())
    }
}

/// What follows a node's name when it carries directives.
pub open spec fn directive_suffix(ds: Seq<Directive>) -> Seq<char> {
    if ds.len() == 0 {
        Seq::empty()
    } else {
        " ["@ + directive_list(ds) + "]"@
    }
}

pub open spec fn marker(error_location: Option<Seq<char>>, path: Seq<char>) -> Seq<char> {
    if error_location == Some(path) {
        " ❌"@
    } else {
        Seq::empty()
    }
}

/// The lines of a selection list at `depth`; `visiting` holds the fragments shown
/// further up, whose content is not shown again.
pub open spec fn selection_lines(
    frags: Map<Seq<char>, FragmentDefinition>,
    sels: Seq<Selection>,
    depth: usize,
    error_location: Option<Seq<char>>,
    path: Seq<char>,
    visiting: Set<Seq<char>>,
) -> Lines
    decreases frags.dom().difference(visiting).len(), sels,
    when frags.dom().finite()
{
    if sels.len() == 0 {
        Seq::empty()
    } else {
        selection_lines(frags, sels.drop_last(), depth, error_location, path, visiting)
            + node_lines(frags, sels.last(), depth, error_location, path, visiting)
    }
}

/// The lines of one selection: its own line, then what lies below it. A subtree that
/// would sit deeper than `usize` can count is left out.
pub open spec fn node_lines(
    frags: Map<Seq<char>, FragmentDefinition>,
    sel: Selection,
    depth: usize,
    error_location: Option<Seq<char>>,
    path: Seq<char>,
    visiting: Set<Seq<char>>,
) -> Lines
    decreases frags.dom().difference(visiting).len(), sel,
    when frags.dom().finite()
{
    match sel {
        Selection::Field(f) => {
            let here = field_path(path, f.name@);
            let text = "🔹 Field: "@ + f.name@ + marker(error_location, here) + directive_suffix(f.directives@);
            seq![(depth, text)] + if depth < usize::MAX {
                selection_lines(frags, f.selections@, (depth + 1) as usize, error_location, here, visiting)
            } else {
                Seq::empty()
            }
        },
        Selection::FragmentSpread(s) => {
            let here = fragment_path(path, s.name@);
            let text = "📋 FragmentSpread: "@ + s.name@ + marker(error_location, here) + directive_suffix(s.directives@);
            seq![(depth, text)] + if frags.contains_key(s.name@) && !visiting.contains(s.name@)
                && frags[s.name@].selections@.len() > 0 && depth + 2 <= usize::MAX {
                proof {
                    frags.dom().lemma_set_insert_diff_decreases(visiting, s.name@);
                }
                seq![((depth + 1) as usize, "Fragment Content:"@)] + selection_lines(
                    frags,
                    frags[s.name@].selections@,
                    (depth + 2) as usize,
                    error_location,
                    here,
                    visiting.insert(s.name@),
                )
            } else {
                Seq::empty()
            }
        },
        Selection::InlineFragment(i) => {
            let label = inline_label(opt_view(i.type_condition));
            let here = fragment_path(path, label);
            let text = "🧩 Fragment: "@ + label + marker(error_location, here) + directive_suffix(i.directives@);
            seq![(depth, text)] + if depth < usize::MAX {
                selection_lines(frags, i.selections@, (depth + 1) as usize, error_location, here, visiting)
            } else {
                Seq::empty()
            }
        },
    }
}

pub open spec fn query_directive_lines(ds: Seq<Directive>, error_location: Option<Seq<char>>) -> Lines {
    ds.map_values(|d: Directive| (2usize, directive_label(d) + marker(error_location, query_level())))
}

/// The lines of the picture of operation `name`.
pub open spec fn visualization_lines(
    frags: Map<Seq<char>, FragmentDefinition>,
    queries: Map<Seq<char>, QueryOperation>,
    name: Seq<char>,
    file: Seq<char>,
    error_location: Option<Seq<char>>,
) -> Lines {
    let head = seq![(0usize, "📄 Query: "@ + name + " ("@ + file + ")"@)];
    if !queries.contains_key(name) {
        head
    } else {
        let q = queries[name];
        let dirs = if q.directives@.len() == 0 {
            Seq::empty()
        } else {
            seq![(1usize, "🏷️  Query Directives:"@)] + query_directive_lines(q.directives@, error_location)
        };
        let sels = if q.selections@.len() == 0 {
            Seq::empty()
        } else {
            seq![(1usize, "🔍 Selections:"@)] + selection_lines(frags, q.selections@, 2, error_location, "query"@, Set::empty())
        };
        head + dirs + sels
    }
}

pub open spec fn visualization(
    frags: Map<Seq<char>, FragmentDefinition>,
    queries: Map<Seq<char>, QueryOperation>,
    name: Seq<char>,
    file: Seq<char>,
    error_location: Option<Seq<char>>,
) -> Seq<char> {
    render_tree(visualization_lines(frags, queries, name, file, error_location))
}

fn label_of(d: &Directive) -> (r: &'static str)
    ensures
        r@ == directive_label(*d),
{
    match d.directive_type {
        DirectiveType::Catch => "🧤 @catch",
        DirectiveType::ThrowOnFieldError => "☄️ @throwOnFieldError",
        DirectiveType::RequiredThrow => "☄️ @requiredThrow",
    }
}

/// Appends the directive suffix of `ds` to `text`.
fn append_directives(text: &mut String, ds: &Vec<Directive>)
    ensures
        final(text)@ == old(text)@ + directive_suffix(ds@),
{
    if ds.len() == 0 {
        assert(old(text)@ + Seq::<char>::empty() =~= old(text)@);
        return;
    }
    let mut list = String::new();
    for i in 0..ds.len()
        invariant
            ds@.len() > 0,
            i == 0 ==> list@ == Seq::<char>::empty(),
            i > 0 ==> list@ == directive_list(ds@.take(i as int)),
    {
        assert(ds@.take(i + 1).drop_last() =~= ds@.take(i as int));
        if i > 0 {
            list.append(", ");
        } else {
            assert(ds@.take(1)[0] == ds@[0]);
        }
        list.append(label_of(&ds[i]));
    }
    assert(ds@.take(ds@.len() as int) =~= ds@);
    text.append(" [");
    text.append(list.as_str());
    text.append("]");
    assert(final(text)@ =~= old(text)@ + directive_suffix(ds@));
}

fn append_marker(text: &mut String, error_location: &Option<String>, here: &String)
    ensures
        final(text)@ == old(text)@ + marker(opt_view(*error_location), here@),
{
    match error_location {
        Some(e) => {
            if *e == *here {
                text.append(" ❌");
                return;
            }
        },
        None => {},
    }
    assert(old(text)@ + Seq::<char>::empty() =~= old(text)@);
}

/// Adds the lines of `sels` at `depth` to `formatter`.
pub fn format_selections_for_optimized_visualization_with_path(
    formatter: &mut TreeFormatter,
    sels: &Vec<Selection>,
    depth: usize,
    error_location: &Option<String>,
    registry: &GraphQLRegistry,
    path: &String,
    visiting: &mut Vec<String>,
)
    requires
        registry.wf(),
    ensures
        final(visiting)@ == old(visiting)@,
        final(formatter)@ == old(formatter)@ + selection_lines(
            registry.fragment_map(),
            sels@,
            depth,
            opt_view(*error_location),
            path@,
            names_of(old(visiting)@),
        ),
    decreases registry.fragment_map().dom().difference(names_of(old(visiting)@)).len(), sels@,
{
    let ghost frags = registry.fragment_map();
    let ghost start = formatter@;
    let ghost vis = visiting@;
    let ghost err = opt_view(*error_location);
    assert(sels@.take(0) =~= Seq::<Selection>::empty());
    assert(start + Seq::<(usize, Seq<char>)>::empty() =~= start);
    for i in 0..sels.len()
        invariant
            registry.wf(),
            frags == registry.fragment_map(),
            vis == old(visiting)@,
            visiting@ == vis,
            err == opt_view(*error_location),
            formatter@ == start + selection_lines(frags, sels@.take(i as int), depth, err, path@, names_of(vis)),
    {
        let ghost before = formatter@;
        assert(sels@.take(i + 1).drop_last() =~= sels@.take(i as int));
        assert(sels@.take(i + 1).last() == sels@[i as int]);
        assert(decreases_to!(sels@ => sels@[i as int]));
        format_node(formatter, &sels[i], depth, error_location, registry, path, visiting);
        assert(formatter@ =~= before + formatter@.skip(before.len() as int));
    }
    assert(sels@.take(sels@.len() as int) =~= sels@);
}

/// Adds the lines of one selection to `formatter`.
fn format_node(
    formatter: &mut TreeFormatter,
    sel: &Selection,
    depth: usize,
    error_location: &Option<String>,
    registry: &GraphQLRegistry,
    path: &String,
    visiting: &mut Vec<String>,
)
    requires
        registry.wf(),
    ensures
        final(visiting)@ == old(visiting)@,
        final(formatter)@ == old(formatter)@ + node_lines(
            registry.fragment_map(),
            *sel,
            depth,
            opt_view(*error_location),
            path@,
            names_of(old(visiting)@),
        ),
    decreases registry.fragment_map().dom().difference(names_of(old(visiting)@)).len(), *sel,
{
    let ghost frags = registry.fragment_map();
    let ghost before = formatter@;
    let ghost vis = visiting@;
    let ghost err = opt_view(*error_location);
    match sel {
        Selection::Field(f) => {
            let here = concat_str(path.as_str(), ".");
            let here = concat_str(here.as_str(), f.name.as_str());
            let mut text = concat_str("🔹 Field: ", f.name.as_str());
            append_marker(&mut text, error_location, &here);
            append_directives(&mut text, &f.directives);
            formatter.add_line(depth, text.as_str());
            let ghost mid = formatter@;
            if depth < usize::MAX {
                format_selections_for_optimized_visualization_with_path(formatter, &f.selections, depth + 1, error_location, registry, &here, visiting);
            }
            assert(formatter@ =~= before + (seq![(depth, text@)] + formatter@.skip(mid.len() as int)));
        },
        Selection::FragmentSpread(s) => {
            let here = concat_str(path.as_str(), "...");
            let here = concat_str(here.as_str(), s.name.as_str());
            let mut text = concat_str("📋 FragmentSpread: ", s.name.as_str());
            append_marker(&mut text, error_location, &here);
            append_directives(&mut text, &s.directives);
            formatter.add_line(depth, text.as_str());
            let ghost mid = formatter@;
            if !contains_name(visiting, &s.name) && depth < usize::MAX - 1 {
                match registry.lookup_fragment(s.name.as_str()) {
                    Some(d) => {
                        if d.selections.len() > 0 {
                            formatter.add_line(depth + 1, "Fragment Content:");
                            visiting.push(copy_str(&s.name));
                            proof {
                                lemma_names_of_push(vis, visiting@.last());
                                assert(visiting@ == vis.push(visiting@.last()));
                                frags.dom().lemma_set_insert_diff_decreases(names_of(vis), s.name@);
                            }
                            format_selections_for_optimized_visualization_with_path(formatter, &d.selections, depth + 2, error_location, registry, &here, visiting);
                            visiting.pop();
                            assert(visiting@ =~= vis);
                        }
                    },
                    None => {},
                }
            }
            assert(formatter@ =~= before + (seq![(depth, text@)] + formatter@.skip(mid.len() as int)));
        },
        Selection::InlineFragment(inl) => {
            let (label, _inner) = inline_parts(&inl.type_condition);
            let here = concat_str(path.as_str(), "...");
            let here = concat_str(here.as_str(), label.as_str());
            let mut text = concat_str("🧩 Fragment: ", label.as_str());
            append_marker(&mut text, error_location, &here);
            append_directives(&mut text, &inl.directives);
            formatter.add_line(depth, text.as_str());
            let ghost mid = formatter@;
            if depth < usize::MAX {
                format_selections_for_optimized_visualization_with_path(formatter, &inl.selections, depth + 1, error_location, registry, &here, visiting);
            }
            assert(formatter@ =~= before + (seq![(depth, text@)] + formatter@.skip(mid.len() as int)));
        },
    }
}

/// The picture of operation `query_name` as it stands in the registry, with the node
/// at `error_location` marked.
pub fn create_optimized_tree_visualization(
    registry: &GraphQLRegistry,
    query_name: &String,
    query_file: &String,
    error_location: &Option<String>,
) -> (r: String)
    requires
        registry.wf(),
    ensures
        r@ == visualization(
            registry.fragment_map(),
            registry.query_map(),
            query_name@,
            query_file@,
            opt_view(*error_location),
        ),
{
    let ghost err = opt_view(*error_location);
    let mut formatter = TreeFormatter::new();
    let mut head = concat_str("📄 Query: ", query_name.as_str());
    head.append(" (");
    head.append(query_file.as_str());
    head.append(")");
    formatter.add_line(0, head.as_str());
    let ghost head_lines = formatter@;
    assert(head_lines =~= seq![(0usize, "📄 Query: "@ + query_name@ + " ("@ + query_file@ + ")"@)]);
    match registry.lookup_operation(query_name.as_str()) {
        Some(q) => {
            if q.directives.len() > 0 {
                formatter.add_line(1, "🏷️  Query Directives:");
                let ghost with_title = formatter@;
                let at_query = match error_location {
                    Some(e) => *e == String::from_str("query level"),
                    None => false,
                };
                assert(query_directive_lines(q.directives@.take(0), err) =~= Seq::<(usize, Seq<char>)>::empty());
                assert(with_title + Seq::<(usize, Seq<char>)>::empty() =~= with_title);
                for i in 0..q.directives.len()
                    invariant
                        formatter@ == with_title + query_directive_lines(q.directives@.take(i as int), err),
                        at_query == (err == Some(query_level())),
                {
                    let mut text = String::from_str(label_of(&q.directives[i]));
                    if at_query {
                        text.append(" ❌");
                    }
                    let ghost prev = formatter@;
                    formatter.add_line(2, text.as_str());
                    assert(query_directive_lines(q.directives@.take(i + 1), err)
                        =~= query_directive_lines(q.directives@.take(i as int), err).push((2usize, text@)));
                }
                assert(q.directives@.take(q.directives@.len() as int) =~= q.directives@);
            }
            let ghost mid = formatter@;
            if q.selections.len() > 0 {
                formatter.add_line(1, "🔍 Selections:");
                let mut visiting: Vec<String> = Vec::new();
                let root = String::from_str("query");
                proof {
                    assert(names_of(visiting@) =~= Set::<Seq<char>>::empty());
                }
                format_selections_for_optimized_visualization_with_path(&mut formatter, &q.selections, 2, error_location, registry, &root, &mut visiting);
            }
            assert(mid =~= head_lines + mid.skip(head_lines.len() as int));
            assert(formatter@ =~= head_lines + mid.skip(head_lines.len() as int) + formatter@.skip(mid.len() as int));
            assert(formatter@ =~= visualization_lines(registry.fragment_map(), registry.query_map(), query_name@, query_file@, err));
        },
        None => {},
    }
    formatter.to_string()
}

} // verus!
