//! Validation of a whole registry: every operation is walked on its own, its
//! violations are reported with a picture of the operation, and the reports of all
//! operations are put in a fixed order (by operation name, then by location).
use vstd::prelude::*;
use rayon::iter::{IntoParallelRefIterator, ParallelIterator};
use crate::graphql::{FragmentDefinition, QueryOperation, has_catch, has_catch_directive, throw_count};
use crate::protection::{
    Finding, Origin, Site, copy_opt, findings_view, names_of, opt_view, push_findings, sites_for,
    unprotected_sites, walk_selections,
};
use crate::registry::GraphQLRegistry;
use crate::render::{create_optimized_tree_visualization, query_level, visualization};
use crate::text::{chars_of, copy_str, lemma_seq_lt_irreflexive, lemma_seq_lt_total, lemma_seq_lt_transitive, seq_lt, str_lt};

verus! {

broadcast use vstd::std_specs::vec::group_vec_axioms, vstd::seq::group_seq_axioms;

#[derive(Clone, Copy, Debug, PartialEq, Eq, Structural)]
pub enum ValidationErrorType {
    UnprotectedThrowOnFieldError,
}

impl ValidationErrorType {
    /// The heading a report of this kind is shown under.
    pub fn title(&self) -> (r: &'static str)
        ensures
            r@ == "Unprotected @throwOnFieldError"@,
    {
        "Unprotected @throwOnFieldError"
    }
}

/// Where a violation is: the operation, the path of the node inside it, and the
/// fragment definition the node was reached through, if any.
#[derive(Clone, Debug, PartialEq, Eq)]
pub struct ErrorContext {
    pub query_name: String,
    pub query_file: String,
    pub location_path: String,
    pub fragment_file: Option<String>,
    pub fragment_name: Option<String>,
}

#[derive(Clone, Debug, PartialEq, Eq)]
pub struct ValidationError {
    pub error_type: ValidationErrorType,
    pub context: ErrorContext,
    pub tree_visualization: String,
    pub explanation: String,
}

#[derive(Clone, Debug, PartialEq, Eq)]
pub struct ValidationResult {
    pub errors: Vec<ValidationError>,
}

/// A violation report as values.
pub struct ErrorView {
    pub query_name: Seq<char>,
    pub query_file: Seq<char>,
    pub site: Site,
    pub tree: Seq<char>,
    pub explanation: Seq<char>,
}

impl View for ValidationError {
    type V = ErrorView;

    open spec fn view(&self) -> ErrorView {
        ErrorView {
            query_name: self.context.query_name@,
            query_file: self.context.query_file@,
            site: Site {
                location: self.context.location_path@,
                fragment_name: opt_view(self.context.fragment_name),
                fragment_file: opt_view(self.context.fragment_file),
            },
            tree: self.tree_visualization@,
            explanation: self.explanation@,
        }
    }
}

pub open spec fn errors_view(s: Seq<ValidationError>) -> Seq<ErrorView> {
    s.map_values(|e: ValidationError| e@)
}

impl View for ValidationResult {
    type V = Seq<ErrorView>;

    open spec fn view(&self) -> Seq<ErrorView> {
        errors_view(self.errors@)
    }
}

impl ValidationResult {
    pub fn new() -> (r: Self)
        ensures
            r.errors@.len() == 0,
    {
        ValidationResult { errors: Vec::new() }
    }

    pub fn add_error(&mut self, error: ValidationError)
        ensures
            final(self).errors@ == old(self).errors@.push(error),
    {
        self.errors.push(error);
    }

    pub fn has_errors(&self) -> (r: bool)
        ensures
            r == (self.errors@.len() > 0),
    {
        self.errors.len() > 0
    }

    pub fn is_valid(&self) -> (r: bool)
        ensures
            r == (self.errors@.len() == 0),
    {
        self.errors.len() == 0
    }
}

/// The violations of one operation, in walk order: first those of the operation's own
/// directives, then those of its selection tree. An operation with a catch directive
/// starts protected.
pub open spec fn query_sites(frags: Map<Seq<char>, FragmentDefinition>, q: QueryOperation) -> Seq<Site> {
    let protected = has_catch(q.directives@);
    let own = if protected {
        Seq::empty()
    } else {
        sites_for(
            throw_count(q.directives@),
            Site { location: query_level(), fragment_name: None, fragment_file: None },
        )
    };
    own + unprotected_sites(frags, q.selections@, "query"@, protected, Set::empty(), Origin { name: None, file: None })
}

pub open spec fn error_for(
    frags: Map<Seq<char>, FragmentDefinition>,
    queries: Map<Seq<char>, QueryOperation>,
    name: Seq<char>,
    site: Site,
) -> ErrorView {
    let file = queries[name].file_path@;
    ErrorView {
        query_name: name,
        query_file: file,
        site: site,
        tree: visualization(frags, queries, name, file, Some(site.location)),
        explanation: Seq::empty(),
    }
}

/// The reports of operation `name`, in walk order.
pub open spec fn query_errors(
    frags: Map<Seq<char>, FragmentDefinition>,
    queries: Map<Seq<char>, QueryOperation>,
    name: Seq<char>,
) -> Seq<ErrorView> {
    query_sites(frags, queries[name]).map_values(|s: Site| error_for(frags, queries, name, s))
}

/// `sorted` with `e` placed after every report whose location is not after its own.
pub open spec fn insert_by_location(sorted: Seq<ErrorView>, e: ErrorView) -> Seq<ErrorView>
    decreases sorted.len(),
{
    if sorted.len() == 0 {
        seq![e]
    } else if seq_lt(e.site.location, sorted.last().site.location) {
        insert_by_location(sorted.drop_last(), e).push(sorted.last())
    } else {
        sorted.push(e)
    }
}

/// Stable sort by location: reports at equal locations keep their order.
pub open spec fn sort_by_location(s: Seq<ErrorView>) -> Seq<ErrorView>
    decreases s.len(),
{
    if s.len() == 0 {
        Seq::empty()
    } else {
        insert_by_location(sort_by_location(s.drop_last()), s.last())
    }
}

pub open spec fn ascending(s: Seq<Seq<char>>) -> bool {
    forall|i: int, j: int| 0 <= i < j < s.len() ==> seq_lt(s[i], s[j])
}

/// The members of a finite set of names in ascending order.
pub open spec fn sorted_names(names: Set<Seq<char>>) -> Seq<Seq<char>> {
    choose|s: Seq<Seq<char>>| ascending(s) && s.to_set() == names
}

/// Every report of a registry: operations by ascending name, and within each operation
/// the reports sorted stably by location.
pub open spec fn validation_errors(
    frags: Map<Seq<char>, FragmentDefinition>,
    queries: Map<Seq<char>, QueryOperation>,
) -> Seq<ErrorView> {
    sorted_names(queries.dom()).map_values(|n: Seq<char>| sort_by_location(query_errors(frags, queries, n))).flatten()
}

proof fn lemma_insert_at(sorted: Seq<ErrorView>, e: ErrorView, j: int)
    requires
        0 <= j <= sorted.len(),
        forall|k: int| j <= k < sorted.len() ==> seq_lt(e.site.location, (#[trigger] sorted[k]).site.location),
        j == 0 || !seq_lt(e.site.location, sorted[j - 1].site.location),
    ensures
        insert_by_location(sorted, e) == sorted.take(j).push(e) + sorted.skip(j),
    decreases sorted.len(),
{
    if sorted.len() == j {
        if j == 0 {
            assert(sorted.take(j).push(e) + sorted.skip(j) =~= seq![e]);
        } else {
            assert(sorted.take(j).push(e) + sorted.skip(j) =~= sorted.push(e));
        }
    } else {
        lemma_insert_at(sorted.drop_last(), e, j);
        assert(sorted.drop_last().take(j) =~= sorted.take(j));
        assert((sorted.take(j).push(e) + sorted.drop_last().skip(j)).push(sorted.last())
            =~= sorted.take(j).push(e) + sorted.skip(j));
    }
}

/// Sorts reports stably by location.
fn sort_errors(v: Vec<ValidationError>) -> (r: Vec<ValidationError>)
    ensures
        errors_view(r@) == sort_by_location(errors_view(v@)),
{
    let ghost orig = errors_view(v@);
    let mut rest = v;
    let mut res: Vec<ValidationError> = Vec::new();
    let n = rest.len();
    assert(orig.take(0) =~= Seq::<ErrorView>::empty());
    assert(errors_view(res@) =~= Seq::<ErrorView>::empty());
    for i in 0..n
        invariant
            n == orig.len(),
            rest@.len() == n - i,
            errors_view(rest@) == orig.skip(i as int),
            errors_view(res@) == sort_by_location(orig.take(i as int)),
    {
        assert(errors_view(rest@)[0] == orig[i as int]);
        let ghost before = rest@;
        let e = rest.remove(0);
        assert(rest@ =~= before.skip(1));
        assert(errors_view(rest@) =~= errors_view(before).skip(1));
        assert(orig.skip(i as int).skip(1) =~= orig.skip(i + 1));
        let ghost sorted = errors_view(res@);
        let mut j = res.len();
        while j > 0 && str_lt(e.context.location_path.as_str(), res[j - 1].context.location_path.as_str())
            invariant
                j <= res@.len(),
                sorted == errors_view(res@),
                forall|k: int| j <= k < sorted.len() ==> seq_lt(e@.site.location, (#[trigger] sorted[k]).site.location),
            decreases j,
        {
            assert(sorted[j - 1] == res@[j - 1]@);
            j = j - 1;
        }
        proof {
            if j > 0 {
                assert(sorted[j - 1] == res@[j - 1]@);
            }
            lemma_insert_at(sorted, e@, j as int);
        }
        let ghost ev = e@;
        res.insert(j, e);
        assert(errors_view(res@) =~= sorted.take(j as int).push(ev) + sorted.skip(j as int));
        assert(orig.take(i + 1).drop_last() =~= orig.take(i as int));
        assert(orig.take(i + 1).last() == ev);
    }
    assert(orig.take(n as int) =~= orig);
    res
}

/// The reports of operation `name`, sorted stably by location.
pub fn validate_query(registry: &GraphQLRegistry, name: &String) -> (r: Vec<ValidationError>)
    requires
        registry.wf(),
        registry.query_map().contains_key(name@),
    ensures
        errors_view(r@) == sort_by_location(query_errors(registry.fragment_map(), registry.query_map(), name@)),
{
    let ghost frags = registry.fragment_map();
    let ghost queries = registry.query_map();
    let q = match registry.lookup_operation(name.as_str()) {
        Some(q) => q,
        None => {
            assert(false);
            return Vec::new();
        },
    };
    let protected = has_catch_directive(&q.directives);
    let mut findings: Vec<Finding> = Vec::new();
    let no_name: Option<String> = None;
    let no_file: Option<String> = None;
    if !protected {
        let at = String::from_str("query level");
        push_findings(&q.directives, q.directives.len(), &at, &no_name, &no_file, &mut findings);
        assert(q.directives@.take(q.directives@.len() as int) =~= q.directives@);
    } else {
        assert(findings_view(findings@) =~= Seq::<Site>::empty());
    }
    let ghost own = findings_view(findings@);
    let mut visiting: Vec<String> = Vec::new();
    let root = String::from_str("query");
    proof {
        assert(names_of(visiting@) =~= Set::<Seq<char>>::empty());
    }
    walk_selections(registry, &q.selections, &root, protected, &mut visiting, &no_name, &no_file, &mut findings);
    let ghost sites = findings_view(findings@);
    assert(sites =~= query_sites(frags, *q));
    let mut errors: Vec<ValidationError> = Vec::new();
    for i in 0..findings.len()
        invariant
            registry.wf(),
            frags == registry.fragment_map(),
            queries == registry.query_map(),
            queries.contains_key(name@),
            *q == queries[name@],
            sites == findings_view(findings@),
            errors_view(errors@) == sites.take(i as int).map_values(|s: Site| error_for(frags, queries, name@, s)),
    {
        let f = &findings[i];
        let at = Some(copy_str(&f.location_path));
        let tree = create_optimized_tree_visualization(registry, name, &q.file_path, &at);
        let error = ValidationError {
            error_type: ValidationErrorType::UnprotectedThrowOnFieldError,
            context: ErrorContext {
                query_name: copy_str(name),
                query_file: copy_str(&q.file_path),
                location_path: copy_str(&f.location_path),
                fragment_file: copy_opt(&f.fragment_file),
                fragment_name: copy_opt(&f.fragment_name),
            },
            tree_visualization: tree,
            explanation: String::new(),
        };
        assert(sites[i as int] == f.site());
        assert(error@ == error_for(frags, queries, name@, sites[i as int]));
        errors.push(error);
        assert(sites.take(i + 1).map_values(|s: Site| error_for(frags, queries, name@, s))
            =~= sites.take(i as int).map_values(|s: Site| error_for(frags, queries, name@, s)).push(error_for(frags, queries, name@, sites[i as int])));
        assert(errors_view(errors@) =~= errors_view(errors@).drop_last().push(error@));
    }
    assert(sites.take(sites.len() as int) =~= sites);
    sort_errors(errors)
}

pub open spec fn names_view(v: Seq<String>) -> Seq<Seq<char>> {
    v.map_values(|s: String| s@)
}

/// Two ascending sequences with the same members are the same sequence.
pub proof fn lemma_ascending_unique(a: Seq<Seq<char>>, b: Seq<Seq<char>>)
    requires
        ascending(a),
        ascending(b),
        a.to_set() == b.to_set(),
    ensures
        a == b,
    decreases a.len(),
{
    if a.len() == 0 {
        if b.len() > 0 {
            assert(b.to_set().contains(b[0]));
        }
        assert(a =~= b);
    } else {
        assert(a.to_set().contains(a[0]));
        assert(b.to_set().contains(a[0]));
        let j = choose|j: int| 0 <= j < b.len() && b[j] == a[0];
        assert(b.to_set().contains(b[0]));
        assert(a.to_set().contains(b[0]));
        let i = choose|i: int| 0 <= i < a.len() && a[i] == b[0];
        if j > 0 {
            assert(seq_lt(b[0], b[j]));
            if i > 0 {
                assert(seq_lt(a[0], a[i]));
                lemma_seq_lt_transitive(a[0], a[i], a[0]);
            }
            lemma_seq_lt_irreflexive(a[0]);
        }
        assert(a[0] == b[0]);
        let a1 = a.drop_first();
        let b1 = b.drop_first();
        assert forall|x: Seq<char>| a1.to_set().contains(x) implies b1.to_set().contains(x) by {
            let k = choose|k: int| 0 <= k < a1.len() && a1[k] == x;
            assert(seq_lt(a[0], a[k + 1]));
            lemma_seq_lt_irreflexive(x);
            assert(a.to_set().contains(x));
            let m = choose|m: int| 0 <= m < b.len() && b[m] == x;
            assert(m != 0);
            assert(b1[m - 1] == x);
        }
        assert forall|x: Seq<char>| b1.to_set().contains(x) implies a1.to_set().contains(x) by {
            let k = choose|k: int| 0 <= k < b1.len() && b1[k] == x;
            assert(seq_lt(b[0], b[k + 1]));
            lemma_seq_lt_irreflexive(x);
            assert(b.to_set().contains(x));
            let m = choose|m: int| 0 <= m < a.len() && a[m] == x;
            assert(m != 0);
            assert(a1[m - 1] == x);
        }
        assert(a1.to_set() =~= b1.to_set());
        lemma_ascending_unique(a1, b1);
        assert(a =~= seq![a[0]] + a1);
        assert(b =~= seq![b[0]] + b1);
    }
}

/// Sorts distinct names into ascending order.
pub fn sort_names(v: Vec<String>) -> (r: Vec<String>)
    requires
        forall|i: int, j: int| 0 <= i < j < v@.len() ==> v@[i]@ != v@[j]@,
    ensures
        r@.len() == v@.len(),
        ascending(names_view(r@)),
        names_view(r@).to_set() == names_view(v@).to_set(),
{
    let ghost orig = names_view(v@);
    let mut res: Vec<String> = Vec::new();
    let n = v.len();
    assert(names_view(res@).to_set() =~= orig.take(0).to_set());
    for i in 0..n
        invariant
            n == v@.len(),
            orig == names_view(v@),
            forall|a: int, b: int| 0 <= a < b < orig.len() ==> orig[a] != orig[b],
            res@.len() == i,
            ascending(names_view(res@)),
            names_view(res@).to_set() == orig.take(i as int).to_set(),
    {
        let x = copy_str(&v[i]);
        let ghost xs = x@;
        let ghost sorted = names_view(res@);
        assert(!sorted.to_set().contains(xs)) by {
            if sorted.to_set().contains(xs) {
                assert(orig.take(i as int).to_set().contains(xs));
                let k = choose|k: int| 0 <= k < i && orig.take(i as int)[k] == xs;
                assert(orig[k] == orig[i as int]);
            }
        }
        let mut j = res.len();
        while j > 0 && str_lt(x.as_str(), res[j - 1].as_str())
            invariant
                j <= res@.len(),
                sorted == names_view(res@),
                xs == x@,
                forall|k: int| j <= k < sorted.len() ==> seq_lt(xs, #[trigger] sorted[k]),
            decreases j,
        {
            assert(sorted[j - 1] == res@[j - 1]@);
            j = j - 1;
        }
        proof {
            if j > 0 {
                assert(sorted[j - 1] == res@[j - 1]@);
                assert(sorted.to_set().contains(sorted[j - 1]));
                lemma_seq_lt_total(xs, sorted[j - 1]);
                assert forall|k: int| 0 <= k < j implies seq_lt(#[trigger] sorted[k], xs) by {
                    if k < j - 1 {
                        lemma_seq_lt_transitive(sorted[k], sorted[j - 1], xs);
                    }
                }
            }
        }
        res.insert(j, x);
        let ghost now = names_view(res@);
        assert(now =~= sorted.insert(j as int, xs));
        assert forall|a: int, b: int| 0 <= a < b < now.len() implies seq_lt(now[a], now[b]) by {
            if b < j {
            } else if b == j {
            } else if a < j {
                lemma_seq_lt_transitive(now[a], xs, now[b]);
            } else if a == j {
            } else {
            }
        }
        assert(orig.take(i + 1) =~= orig.take(i as int).push(xs));
        assert forall|y: Seq<char>| now.to_set().contains(y) implies sorted.to_set().insert(xs).contains(y) by {
            let k = choose|k: int| 0 <= k < now.len() && now[k] == y;
            if k < j {
                assert(sorted[k] == y);
            } else if k > j {
                assert(sorted[k - 1] == y);
            }
        }
        assert forall|y: Seq<char>| sorted.to_set().insert(xs).contains(y) implies now.to_set().contains(y) by {
            if y == xs {
                assert(now[j as int] == y);
            } else {
                let k = choose|k: int| 0 <= k < sorted.len() && sorted[k] == y;
                if k < j {
                    assert(now[k] == y);
                } else {
                    assert(now[k + 1] == y);
                }
            }
        }
        assert(now.to_set() =~= sorted.to_set().insert(xs));
        proof {
            orig.take(i as int).lemma_push_to_set_commute(xs);
        }
    }
    assert(orig.take(n as int) =~= orig);
    res
}

/// Relies on rayon's `par_iter().map().collect()` into a `Vec`: one result per name,
/// in the order of `names`, each computed by the verified `validate_query`.
#[verifier::external_body]
fn validate_each_in_parallel(registry: &GraphQLRegistry, names: &Vec<String>) -> (r: Vec<Vec<ValidationError>>)
    requires
        registry.wf(),
        forall|i: int| 0 <= i < names@.len() ==> registry.query_map().contains_key(#[trigger] names@[i]@),
    ensures
        r@.len() == names@.len(),
        forall|i: int| 0 <= i < r@.len() ==> errors_view(#[trigger] r@[i]@) == sort_by_location(
            query_errors(registry.fragment_map(), registry.query_map(), names@[i]@),
        ),
{
    names.par_iter().map(|n| validate_query(registry, n)).collect()
}

/// Checks every operation of the registry and reports each throwing directive that no
/// catch directive guards, ordered by operation name and then by location.
pub fn validate_registry(registry: &GraphQLRegistry) -> (r: ValidationResult)
    requires
        registry.wf(),
    ensures
        r@ == validation_errors(registry.fragment_map(), registry.query_map()),
{
    let ghost frags = registry.fragment_map();
    let ghost queries = registry.query_map();
    let unordered = registry.query_names();
    let names = sort_names(unordered);
    let ghost order = names_view(names@);
    proof {
        assert(order.to_set() =~= queries.dom()) by {
            assert forall|k: Seq<char>| queries.dom().contains(k) implies order.to_set().contains(k) by {
                let i = choose|i: int| 0 <= i < unordered@.len() && unordered@[i]@ == k;
                assert(names_view(unordered@)[i] == k);
                assert(names_view(unordered@).to_set().contains(k));
            }
            assert forall|k: Seq<char>| order.to_set().contains(k) implies queries.dom().contains(k) by {
                assert(names_view(unordered@).to_set().contains(k));
                let i = choose|i: int| 0 <= i < unordered@.len() && names_view(unordered@)[i] == k;
                assert(queries.contains_key(unordered@[i]@));
            }
        }
        lemma_ascending_unique(order, sorted_names(queries.dom()));
        assert forall|i: int| 0 <= i < names@.len() implies queries.contains_key(#[trigger] names@[i]@) by {
            assert(order[i] == names@[i]@);
            assert(order.to_set().contains(order[i]));
        }
    }
    let mut groups = validate_each_in_parallel(registry, &names);
    let ghost per = order.map_values(|n: Seq<char>| sort_by_location(query_errors(frags, queries, n)));
    let mut all: Vec<ValidationError> = Vec::new();
    let count = groups.len();
    assert(per.take(0).flatten_alt() =~= Seq::<ErrorView>::empty());
    assert(errors_view(all@) =~= Seq::<ErrorView>::empty());
    for i in 0..count
        invariant
            count == per.len(),
            groups@.len() == count - i,
            forall|k: int| 0 <= k < groups@.len() ==> errors_view(#[trigger] groups@[k]@) == per[k + i],
            errors_view(all@) == per.take(i as int).flatten_alt(),
    {
        let ghost before = groups@;
        let ghost acc = errors_view(all@);
        let mut group = groups.remove(0);
        assert(groups@ =~= before.skip(1));
        assert forall|k: int| 0 <= k < groups@.len() implies errors_view(#[trigger] groups@[k]@) == per[k + i + 1] by {
            assert(groups@[k] == before[k + 1]);
        }
        assert(errors_view(group@) == per[i as int]);
        all.append(&mut group);
        assert(errors_view(all@) =~= acc + per[i as int]);
        assert(per.take(i + 1).drop_last() =~= per.take(i as int));
    }
    assert(per.take(count as int) =~= per);
    proof {
        per.lemma_flatten_and_flatten_alt_are_equivalent();
    }
    ValidationResult { errors: all }
}

/// Index of the last `c` in `s`.
pub open spec fn last_index_of(s: Seq<char>, c: char) -> Option<int>
    decreases s.len(),
{
    if s.len() == 0 {
        None
    } else if s.last() == c {
        Some(s.len() - 1)
    } else {
        last_index_of(s.drop_last(), c)
    }
}

/// Start of the last `...` in `s`.
pub open spec fn last_ellipsis(s: Seq<char>) -> Option<int>
    decreases s.len(),
{
    if s.len() < 3 {
        None
    } else if s.subrange(s.len() - 3, s.len() as int) == "..."@ {
        Some(s.len() - 3)
    } else {
        last_ellipsis(s.drop_last())
    }
}

/// The short location shown to a reader: `Fragment.field` when the path went through a
/// fragment before its last field, else the last field, with a leading `query.` dropped.
pub open spec fn short_location(path: Seq<char>) -> Seq<char> {
    let p = "query."@;
    let simplified = if path.len() >= p.len() && path.take(p.len() as int) == p {
        path.skip(p.len() as int)
    } else {
        path
    };
    match last_index_of(simplified, '.') {
        Some(d) => {
            let field = simplified.skip(d + 1);
            let before = simplified.take(d);
            match last_ellipsis(before) {
                Some(e) => before.skip(e + 3) + "."@ + field,
                None => field,
            }
        },
        None => simplified,
    }
}

/// The short location of a violation path, as `short_location` describes it.
pub fn display_location(location_path: &str) -> (r: String)
    ensures
        r@ == short_location(location_path@),
{
    proof {
        reveal_strlit("query.");
        reveal_strlit("...");
    }
    let c = chars_of(location_path);
    let n = c.len();
    let mut start: usize = 0;
    if n >= 6 && c[0] == 'q' && c[1] == 'u' && c[2] == 'e' && c[3] == 'r' && c[4] == 'y' && c[5] == '.' {
        start = 6;
        assert(c@.take(6) =~= "query."@);
    } else {
        assert(!(c@.len() >= 6 && c@.take(6) == "query."@)) by {
            if c@.len() >= 6 && c@.take(6) == "query."@ {
                assert(c@.take(6)[0] == 'q');
                assert(c@.take(6)[1] == 'u');
                assert(c@.take(6)[2] == 'e');
                assert(c@.take(6)[3] == 'r');
                assert(c@.take(6)[4] == 'y');
                assert(c@.take(6)[5] == '.');
            }
        }
    }
    let ghost simplified = c@.subrange(start as int, n as int);
    assert(start == 6 ==> simplified =~= c@.skip(6));
    assert(start == 0 ==> simplified =~= c@);
    let mut d = n;
    while d > start && c[d - 1] != '.'
        invariant
            start <= d <= n,
            n == c@.len(),
            simplified == c@.subrange(start as int, n as int),
            last_index_of(simplified, '.') == last_index_of(c@.subrange(start as int, d as int), '.'),
        decreases d,
    {
        assert(c@.subrange(start as int, d as int).drop_last() =~= c@.subrange(start as int, d - 1));
        d = d - 1;
    }
    if d == start {
        assert(c@.subrange(start as int, d as int) =~= Seq::<char>::empty());
        return String::from_str(location_path.substring_char(start, n));
    }
    let dot = d - 1;
    assert(last_index_of(c@.subrange(start as int, d as int), '.') == Some(dot - start));
    let ghost before = simplified.take(dot - start);
    assert(before =~= c@.subrange(start as int, dot as int));
    let mut e = dot;
    while e >= start + 3 && !(c[e - 3] == '.' && c[e - 2] == '.' && c[e - 1] == '.')
        invariant
            start <= e <= dot < n,
            start <= 6,
            n == c@.len(),
            before == c@.subrange(start as int, dot as int),
            last_ellipsis(before) == last_ellipsis(c@.subrange(start as int, e as int)),
        decreases e,
    {
        let ghost w = c@.subrange(start as int, e as int);
        assert(w.subrange(w.len() - 3, w.len() as int) != "..."@) by {
            reveal_strlit("...");
            if w.subrange(w.len() - 3, w.len() as int) == "..."@ {
                assert(w.subrange(w.len() - 3, w.len() as int)[0] == c@[e - 3]);
                assert(w.subrange(w.len() - 3, w.len() as int)[1] == c@[e - 2]);
                assert(w.subrange(w.len() - 3, w.len() as int)[2] == c@[e - 1]);
            }
        }
        assert(w.drop_last() =~= c@.subrange(start as int, e - 1));
        e = e - 1;
    }
    let field = location_path.substring_char(dot + 1, n);
    assert(field@ =~= simplified.skip(dot - start + 1));
    if e < start + 3 {
        return String::from_str(field);
    }
    let ghost w = c@.subrange(start as int, e as int);
    proof {
        reveal_strlit("...");
    }
    assert(w.subrange(w.len() - 3, w.len() as int) =~= "..."@);
    let name = location_path.substring_char(e, dot);
    assert(name@ =~= before.skip(e - start));
    let mut out = String::from_str(name);
    out.append(".");
    out.append(field);
    out
}


impl Default for ValidationResult {
    fn default() -> (r: Self)
        ensures
            r.errors@.len() == 0,
    {
        Self::new()
    }
}

} // verus!
