//! The protection walk: which throwing directives are not guarded by a catch directive
//! on some ancestor, found by carrying a protected / unprotected state down each
//! operation's selection tree.
//!
//! A spread is resolved against the registry only while the branch is unprotected:
//! below a catch directive nothing can be a violation, so the subtree is skipped
//! without being looked at. Fragments that are being expanded further up the branch
//! are not entered again, which keeps reference cycles finite.
use vstd::prelude::*;
use crate::graphql::{
    DirectiveType, Directive, FragmentDefinition, Selection, has_catch, has_catch_directive,
    is_catch, throw_count, until_catch,
};
use crate::registry::GraphQLRegistry;
use crate::text::{concat_str, copy_str, strip_suffix, strip_suffix_of};

verus! {

broadcast use vstd::std_specs::vec::group_vec_axioms, vstd::seq::group_seq_axioms;

/// Where an unguarded throwing directive was found: the path of the node that carries
/// it, and the fragment definition the walk was in (for a spread: the fragment it names).
pub struct Site {
    pub location: Seq<char>,
    pub fragment_name: Option<Seq<char>>,
    pub fragment_file: Option<Seq<char>>,
}

/// The fragment definition whose selections a walk is inside of, if any.
pub struct Origin {
    pub name: Option<Seq<char>>,
    pub file: Option<Seq<char>>,
}

pub open spec fn opt_view(o: Option<String>) -> Option<Seq<char>> {
    match o {
        Some(s) => Some(s@),
        None => None,
    }
}

/// The fragment name an inline fragment stands for: its type condition without a
/// trailing `Fragment`, if it has one.
pub open spec fn inline_name(type_condition: Option<Seq<char>>) -> Option<Seq<char>> {
    match type_condition {
        Some(t) => strip_suffix_of(t, "Fragment"@),
        None => None,
    }
}

/// The path segment of an inline fragment.
pub open spec fn inline_label(type_condition: Option<Seq<char>>) -> Seq<char> {
    match inline_name(type_condition) {
        Some(n) => n,
        None => "InlineFragment"@,
    }
}

pub open spec fn field_path(path: Seq<char>, name: Seq<char>) -> Seq<char> {
    path + "."@ + name
}

pub open spec fn fragment_path(path: Seq<char>, name: Seq<char>) -> Seq<char> {
    path + "..."@ + name
}

/// `n` copies of one site.
pub open spec fn sites_for(n: nat, site: Site) -> Seq<Site> {
    Seq::new(n, |_i: int| site)
}

/// The violations of a selection list, in walk order: each throwing directive met
/// while the branch is unprotected is one site. `visiting` holds the fragments being
/// expanded on the way down, which are not entered again.
pub open spec fn unprotected_sites(
    frags: Map<Seq<char>, FragmentDefinition>,
    sels: Seq<Selection>,
    path: Seq<char>,
    protected: bool,
    visiting: Set<Seq<char>>,
    origin: Origin,
) -> Seq<Site>
    decreases frags.dom().difference(visiting).len(), sels,
    when frags.dom().finite()
{
    if sels.len() == 0 {
        Seq::empty()
    } else {
        unprotected_sites(frags, sels.drop_last(), path, protected, visiting, origin)
            + selection_sites(frags, sels.last(), path, protected, visiting, origin)
    }
}

/// The violations of one selection and of what lies below it.
pub open spec fn selection_sites(
    frags: Map<Seq<char>, FragmentDefinition>,
    sel: Selection,
    path: Seq<char>,
    protected: bool,
    visiting: Set<Seq<char>>,
    origin: Origin,
) -> Seq<Site>
    decreases frags.dom().difference(visiting).len(), sel,
    when frags.dom().finite()
{
    match sel {
        Selection::Field(f) => {
            let here = field_path(path, f.name@);
            let own = if protected {
                Seq::empty()
            } else {
                sites_for(
                    throw_count(f.directives@),
                    Site { location: here, fragment_name: origin.name, fragment_file: origin.file },
                )
            };
            own + unprotected_sites(
                frags,
                f.selections@,
                here,
                protected || has_catch(f.directives@),
                visiting,
                origin,
            )
        },
        Selection::FragmentSpread(s) => {
            let here = fragment_path(path, s.name@);
            if protected {
                Seq::empty()
            } else {
                let head = until_catch(s.directives@);
                let own = sites_for(
                    throw_count(head),
                    Site { location: here, fragment_name: Some(s.name@), fragment_file: origin.file },
                );
                if head.len() < s.directives@.len() || !frags.contains_key(s.name@)
                    || visiting.contains(s.name@) {
                    own
                } else {
                    let d = frags[s.name@];
                    proof {
                        frags.dom().lemma_set_insert_diff_decreases(visiting, s.name@);
                    }
                    own + unprotected_sites(
                        frags,
                        d.selections@,
                        here,
                        has_catch(d.directives@),
                        visiting.insert(s.name@),
                        Origin { name: Some(d.name@), file: Some(d.file_path@) },
                    )
                }
            }
        },
        Selection::InlineFragment(i) => {
            let tc = opt_view(i.type_condition);
            let here = fragment_path(path, inline_label(tc));
            let own = if protected {
                Seq::empty()
            } else {
                sites_for(
                    throw_count(i.directives@),
                    Site { location: here, fragment_name: inline_name(tc), fragment_file: origin.file },
                )
            };
            own + unprotected_sites(
                frags,
                i.selections@,
                here,
                protected || has_catch(i.directives@),
                visiting,
                origin,
            )
        },
    }
}

/// One violation as the walk finds it.
pub struct Finding {
    pub location_path: String,
    pub fragment_name: Option<String>,
    pub fragment_file: Option<String>,
}

impl Finding {
    pub open spec fn site(self) -> Site {
        Site {
            location: self.location_path@,
            fragment_name: opt_view(self.fragment_name),
            fragment_file: opt_view(self.fragment_file),
        }
    }
}

pub open spec fn findings_view(s: Seq<Finding>) -> Seq<Site> {
    s.map_values(|f: Finding| f.site())
}

/// The names held by a stack of fragment names.
pub open spec fn names_of(v: Seq<String>) -> Set<Seq<char>> {
    Set::new(|k: Seq<char>| exists|i: int| 0 <= i < v.len() && v[i]@ == k)
}

pub proof fn lemma_names_of_push(v: Seq<String>, x: String)
    ensures
        names_of(v.push(x)) == names_of(v).insert(x@),
{
    assert forall|k: Seq<char>| names_of(v.push(x)).contains(k) implies names_of(v).insert(x@).contains(k) by {
        let i = choose|i: int| 0 <= i < v.push(x).len() && v.push(x)[i]@ == k;
        if i < v.len() {
            assert(v[i]@ == k);
        }
    }
    assert forall|k: Seq<char>| names_of(v).insert(x@).contains(k) implies names_of(v.push(x)).contains(k) by {
        if k == x@ {
            assert(v.push(x)[v.len() as int]@ == k);
        } else {
            let i = choose|i: int| 0 <= i < v.len() && v[i]@ == k;
            assert(v.push(x)[i]@ == k);
        }
    }
    assert(names_of(v.push(x)) =~= names_of(v).insert(x@));
}

pub proof fn lemma_until_catch_prefix(ds: Seq<Directive>, k: int)
    requires
        0 <= k <= ds.len(),
        forall|j: int| 0 <= j < k ==> !is_catch(#[trigger] ds[j]),
        k == ds.len() || is_catch(ds[k]),
    ensures
        until_catch(ds) == ds.take(k),
    decreases ds.len(),
{
    if ds.len() == 0 {
        assert(ds.take(k) =~= ds);
    } else if k == 0 {
        assert(ds.take(k) =~= Seq::<Directive>::empty());
    } else {
        lemma_until_catch_prefix(ds.drop_first(), k - 1);
        assert(ds.take(k) =~= seq![ds[0]] + ds.drop_first().take(k - 1));
    }
}

pub fn copy_opt(o: &Option<String>) -> (r: Option<String>)
    ensures
        opt_view(r) == opt_view(*o),
{
    match o {
        Some(s) => Some(copy_str(s)),
        None => None,
    }
}

/// Index of the first catch directive, or the length if there is none.
fn first_catch(ds: &Vec<Directive>) -> (k: usize)
    ensures
        k <= ds@.len(),
        until_catch(ds@) == ds@.take(k as int),
        (k < ds@.len()) == has_catch(ds@),
{
    let mut k: usize = 0;
    while k < ds.len() && ds[k].directive_type != DirectiveType::Catch
        invariant
            k <= ds@.len(),
            forall|j: int| 0 <= j < k ==> !is_catch(#[trigger] ds@[j]),
        decreases ds@.len() - k,
    {
        k = k + 1;
    }
    proof {
        lemma_until_catch_prefix(ds@, k as int);
    }
    k
}

/// Appends one finding for each throwing directive among the first `upto` of `ds`.
pub fn push_findings(
    ds: &Vec<Directive>,
    upto: usize,
    location: &String,
    name: &Option<String>,
    file: &Option<String>,
    out: &mut Vec<Finding>,
)
    requires
        upto <= ds@.len(),
    ensures
        findings_view(final(out)@) == findings_view(old(out)@) + sites_for(
            throw_count(ds@.take(upto as int)),
            Site { location: location@, fragment_name: opt_view(*name), fragment_file: opt_view(*file) },
        ),
{
    let ghost site = Site { location: location@, fragment_name: opt_view(*name), fragment_file: opt_view(*file) };
    let ghost start = findings_view(out@);
    assert(ds@.take(0) =~= Seq::<Directive>::empty());
    assert(sites_for(0, site) =~= Seq::<Site>::empty());
    assert(start + sites_for(0, site) =~= start);
    for i in 0..upto
        invariant
            upto <= ds@.len(),
            findings_view(out@) == start + sites_for(throw_count(ds@.take(i as int)), site),
            site == (Site { location: location@, fragment_name: opt_view(*name), fragment_file: opt_view(*file) }),
    {
        assert(ds@.take(i + 1).drop_last() =~= ds@.take(i as int));
        if ds[i].directive_type != DirectiveType::Catch {
            let ghost before = findings_view(out@);
            out.push(Finding { location_path: copy_str(location), fragment_name: copy_opt(name), fragment_file: copy_opt(file) });
            assert(findings_view(out@) =~= before.push(site));
            let ghost n = throw_count(ds@.take(i as int));
            assert(sites_for(n + 1, site) =~= sites_for(n, site).push(site));
            assert(start + sites_for(n + 1, site) =~= (start + sites_for(n, site)).push(site));
        }
    }
}

pub fn contains_name(visiting: &Vec<String>, name: &String) -> (r: bool)
    ensures
        r == names_of(visiting@).contains(name@),
{
    for i in 0..visiting.len()
        invariant
            forall|j: int| 0 <= j < i ==> (#[trigger] visiting@[j])@ != name@,
    {
        if visiting[i] == *name {
            assert(visiting@[i as int]@ == name@);
            return true;
        }
    }
    false
}

/// The path segment and fragment name of an inline fragment.
pub fn inline_parts(type_condition: &Option<String>) -> (r: (String, Option<String>))
    ensures
        r.0@ == inline_label(opt_view(*type_condition)),
        opt_view(r.1) == inline_name(opt_view(*type_condition)),
{
    match type_condition {
        Some(tc) => match strip_suffix(tc.as_str(), "Fragment") {
            Some(n) => (copy_str(&n), Some(n)),
            None => (String::from_str("InlineFragment"), None),
        },
        None => (String::from_str("InlineFragment"), None),
    }
}

/// Appends the violations of `sels` to `out`, as `unprotected_sites` lists them.
pub fn walk_selections(
    registry: &GraphQLRegistry,
    sels: &Vec<Selection>,
    path: &String,
    protected: bool,
    visiting: &mut Vec<String>,
    origin_name: &Option<String>,
    origin_file: &Option<String>,
    out: &mut Vec<Finding>,
)
    requires
        registry.wf(),
    ensures
        final(visiting)@ == old(visiting)@,
        findings_view(final(out)@) == findings_view(old(out)@) + unprotected_sites(
            registry.fragment_map(),
            sels@,
            path@,
            protected,
            names_of(old(visiting)@),
            Origin { name: opt_view(*origin_name), file: opt_view(*origin_file) },
        ),
    decreases registry.fragment_map().dom().difference(names_of(old(visiting)@)).len(), sels@,
{
    let ghost frags = registry.fragment_map();
    let ghost start = findings_view(out@);
    let ghost vis = visiting@;
    let ghost origin = Origin { name: opt_view(*origin_name), file: opt_view(*origin_file) };
    assert(sels@.take(0) =~= Seq::<Selection>::empty());
    assert(start + Seq::<Site>::empty() =~= start);
    for i in 0..sels.len()
        invariant
            registry.wf(),
            frags == registry.fragment_map(),
            vis == old(visiting)@,
            visiting@ == vis,
            origin == (Origin { name: opt_view(*origin_name), file: opt_view(*origin_file) }),
            findings_view(out@) == start + unprotected_sites(frags, sels@.take(i as int), path@, protected, names_of(vis), origin),
    {
        let ghost before = findings_view(out@);
        assert(sels@.take(i + 1).drop_last() =~= sels@.take(i as int));
        assert(sels@.take(i + 1).last() == sels@[i as int]);
        assert(decreases_to!(sels@ => sels@[i as int]));
        walk_selection(registry, &sels[i], path, protected, visiting, origin_name, origin_file, out);
        assert(findings_view(out@) =~= before + findings_view(out@).skip(before.len() as int));
    }
    assert(sels@.take(sels@.len() as int) =~= sels@);
}

/// Appends the violations of one selection and its subtree to `out`.
fn walk_selection(
    registry: &GraphQLRegistry,
    sel: &Selection,
    path: &String,
    protected: bool,
    visiting: &mut Vec<String>,
    origin_name: &Option<String>,
    origin_file: &Option<String>,
    out: &mut Vec<Finding>,
)
    requires
        registry.wf(),
    ensures
        final(visiting)@ == old(visiting)@,
        findings_view(final(out)@) == findings_view(old(out)@) + selection_sites(
            registry.fragment_map(),
            *sel,
            path@,
            protected,
            names_of(old(visiting)@),
            Origin { name: opt_view(*origin_name), file: opt_view(*origin_file) },
        ),
    decreases registry.fragment_map().dom().difference(names_of(old(visiting)@)).len(), *sel,
{
    let ghost frags = registry.fragment_map();
    let ghost before = findings_view(out@);
    let ghost vis = visiting@;
    let ghost origin = Origin { name: opt_view(*origin_name), file: opt_view(*origin_file) };
    match sel {
        Selection::Field(f) => {
            let here = concat_str(path.as_str(), ".");
            let here = concat_str(here.as_str(), f.name.as_str());
            if !protected {
                push_findings(&f.directives, f.directives.len(), &here, origin_name, origin_file, out);
                assert(f.directives@.take(f.directives@.len() as int) =~= f.directives@);
            } else {
                assert(findings_view(out@) =~= before + Seq::<Site>::empty());
            }
            let ghost mid = findings_view(out@);
            let below = protected || has_catch_directive(&f.directives);
            walk_selections(registry, &f.selections, &here, below, visiting, origin_name, origin_file, out);
            assert(mid =~= before + mid.skip(before.len() as int));
            assert(findings_view(out@) =~= before + (mid.skip(before.len() as int) + unprotected_sites(frags, f.selections@, here@, below, names_of(vis), origin)));
        },
        Selection::FragmentSpread(s) => {
            if !protected {
                let here = concat_str(path.as_str(), "...");
                let here = concat_str(here.as_str(), s.name.as_str());
                let k = first_catch(&s.directives);
                let spread_name = Some(copy_str(&s.name));
                push_findings(&s.directives, k, &here, &spread_name, origin_file, out);
                let ghost mid = findings_view(out@);
                assert(mid =~= before + mid.skip(before.len() as int));
                if k == s.directives.len() && !contains_name(visiting, &s.name) {
                    match registry.lookup_fragment(s.name.as_str()) {
                        Some(d) => {
                            let below = has_catch_directive(&d.directives);
                            let inner_name = Some(copy_str(&d.name));
                            let inner_file = Some(copy_str(&d.file_path));
                            visiting.push(copy_str(&s.name));
                            proof {
                                lemma_names_of_push(vis, visiting@.last());
                                assert(visiting@ == vis.push(visiting@.last()));
                                frags.dom().lemma_set_insert_diff_decreases(names_of(vis), s.name@);
                            }
                            walk_selections(registry, &d.selections, &here, below, visiting, &inner_name, &inner_file, out);
                            visiting.pop();
                            assert(visiting@ =~= vis);
                            assert(findings_view(out@) =~= before + (mid.skip(before.len() as int) + findings_view(out@).skip(mid.len() as int)));
                        },
                        None => {},
                    }
                }
            } else {
                assert(findings_view(out@) =~= before + Seq::<Site>::empty());
            }
        },
        Selection::InlineFragment(inl) => {
            let (label, inner) = inline_parts(&inl.type_condition);
            let here = concat_str(path.as_str(), "...");
            let here = concat_str(here.as_str(), label.as_str());
            if !protected {
                push_findings(&inl.directives, inl.directives.len(), &here, &inner, origin_file, out);
                assert(inl.directives@.take(inl.directives@.len() as int) =~= inl.directives@);
            } else {
                assert(findings_view(out@) =~= before + Seq::<Site>::empty());
            }
            let ghost mid = findings_view(out@);
            let below = protected || has_catch_directive(&inl.directives);
            walk_selections(registry, &inl.selections, &here, below, visiting, origin_name, origin_file, out);
            assert(mid =~= before + mid.skip(before.len() as int));
            assert(findings_view(out@) =~= before + (mid.skip(before.len() as int) + unprotected_sites(frags, inl.selections@, here@, below, names_of(vis), origin)));
        },
    }
}

} // verus!
