//! The parsed form of operations and fragments: selection trees carrying the two
//! directive families that the protection check looks at.
use vstd::prelude::*;

verus! {

broadcast use vstd::std_specs::vec::group_vec_axioms, vstd::seq::group_seq_axioms;

/// The directives that matter for error protection; all others are dropped when a
/// document is read.
#[derive(Clone, Copy, Debug, PartialEq, Eq, Structural)]
pub enum DirectiveType {
    Catch,
    ThrowOnFieldError,
    RequiredThrow,
}

/// A directive with its position in the source file.
#[derive(Clone, Copy, Debug, PartialEq, Eq, Structural)]
pub struct Directive {
    pub directive_type: DirectiveType,
    pub line: u32,
    pub col: u32,
}

/// A field with the directives written on it, without its nested selections.
#[derive(Clone, Debug)]
pub struct Field {
    pub name: String,
    pub directives: Vec<Directive>,
}

#[derive(Debug)]
pub enum Selection {
    Field(FieldSelection),
    FragmentSpread(FragmentSpread),
    InlineFragment(InlineFragment),
}

#[derive(Debug)]
pub struct FieldSelection {
    pub name: String,
    pub directives: Vec<Directive>,
    pub selections: Vec<Selection>,
}

/// A reference by name to a fragment definition.
#[derive(Clone, Debug)]
pub struct FragmentSpread {
    pub name: String,
    pub directives: Vec<Directive>,
}

#[derive(Debug)]
pub struct InlineFragment {
    pub type_condition: Option<String>,
    pub directives: Vec<Directive>,
    pub selections: Vec<Selection>,
}

/// A named query operation; `file_path` is the file it was found in.
#[derive(Debug)]
pub struct QueryOperation {
    pub name: String,
    pub selections: Vec<Selection>,
    pub directives: Vec<Directive>,
    pub file_path: String,
}

#[derive(Debug)]
pub struct FragmentDefinition {
    pub name: String,
    pub type_condition: String,
    pub selections: Vec<Selection>,
    pub directives: Vec<Directive>,
    pub file_path: String,
}

#[derive(Debug)]
pub enum GraphQLItem {
    Query(QueryOperation),
    Fragment(FragmentDefinition),
}

impl DirectiveType {
    /// The directive's name as written in a document (`requiredThrow` for
    /// `@required(action: THROW)`).
    pub fn name(&self) -> (r: &'static str)
        ensures
            r@ == match *self {
                DirectiveType::Catch => "catch"@,
                DirectiveType::ThrowOnFieldError => "throwOnFieldError"@,
                DirectiveType::RequiredThrow => "requiredThrow"@,
            },
    {
        match self {
            DirectiveType::Catch => "catch",
            DirectiveType::ThrowOnFieldError => "throwOnFieldError",
            DirectiveType::RequiredThrow => "requiredThrow",
        }
    }
}

pub open spec fn is_throwing(d: Directive) -> bool {
    d.directive_type != DirectiveType::Catch
}

pub open spec fn is_catch(d: Directive) -> bool {
    d.directive_type == DirectiveType::Catch
}

pub open spec fn has_catch(ds: Seq<Directive>) -> bool {
    exists|i: int| 0 <= i < ds.len() && is_catch(#[trigger] ds[i])
}

/// How many throwing directives `ds` holds.
pub open spec fn throw_count(ds: Seq<Directive>) -> nat
    decreases ds.len(),
{
    if ds.len() == 0 {
        0
    } else {
        throw_count(ds.drop_last()) + if is_throwing(ds.last()) {
            1nat
        } else {
            0nat
        }
    }
}

/// The directives before the first catch directive (all of them if there is none).
pub open spec fn until_catch(ds: Seq<Directive>) -> Seq<Directive>
    decreases ds.len(),
{
    if ds.len() == 0 {
        ds
    } else if is_catch(ds[0]) {
        Seq::empty()
    } else {
        seq![ds[0]] + until_catch(ds.drop_first())
    }
}

/// Depth-first, in document order: each field's name and directives, then those of
/// the fields below it. Inline fragments are looked through; spreads are not followed.
pub open spec fn field_list(sels: Seq<Selection>) -> Seq<(Seq<char>, Seq<Directive>)>
    decreases sels,
{
    if sels.len() == 0 {
        Seq::empty()
    } else {
        let rest = field_list(sels.drop_last());
        rest + match sels.last() {
            Selection::Field(f) => seq![(f.name@, f.directives@)] + field_list(f.selections@),
            Selection::InlineFragment(i) => field_list(i.selections@),
            Selection::FragmentSpread(_) => Seq::empty(),
        }
    }
}

/// Depth-first, in document order: the name and directives of every spread, looking
/// through fields and inline fragments but not into referenced fragments.
pub open spec fn spread_list(sels: Seq<Selection>) -> Seq<(Seq<char>, Seq<Directive>)>
    decreases sels,
{
    if sels.len() == 0 {
        Seq::empty()
    } else {
        let rest = spread_list(sels.drop_last());
        rest + match sels.last() {
            Selection::Field(f) => spread_list(f.selections@),
            Selection::InlineFragment(i) => spread_list(i.selections@),
            Selection::FragmentSpread(s) => seq![(s.name@, s.directives@)],
        }
    }
}

pub open spec fn fields_view(r: Seq<Field>) -> Seq<(Seq<char>, Seq<Directive>)> {
    r.map_values(|f: Field| (f.name@, f.directives@))
}

pub open spec fn spreads_view(r: Seq<FragmentSpread>) -> Seq<(Seq<char>, Seq<Directive>)> {
    r.map_values(|s: FragmentSpread| (s.name@, s.directives@))
}

pub fn copy_directives(ds: &Vec<Directive>) -> (r: Vec<Directive>)
    ensures
        r@ == ds@,
{
    let mut out: Vec<Directive> = Vec::new();
    for i in 0..ds.len()
        invariant
            out@ == ds@.take(i as int),
    {
        out.push(ds[i]);
        assert(out@ =~= ds@.take(i + 1));
    }
    assert(out@ =~= ds@);
    out
}

pub fn has_catch_directive(ds: &Vec<Directive>) -> (r: bool)
    ensures
        r == has_catch(ds@),
{
    for i in 0..ds.len()
        invariant
            forall|j: int| 0 <= j < i ==> !is_catch(#[trigger] ds@[j]),
    {
        if ds[i].directive_type == DirectiveType::Catch {
            return true;
        }
    }
    false
}

fn collect_fields(sels: &Vec<Selection>, out: &mut Vec<Field>)
    ensures
        fields_view(final(out)@) == fields_view(old(out)@) + field_list(sels@),
    decreases sels@,
{
    let ghost start = fields_view(out@);
    for i in 0..sels.len()
        invariant
            fields_view(out@) == start + field_list(sels@.take(i as int)),
    {
        assert(sels@.take(i + 1).drop_last() =~= sels@.take(i as int));
        assert(decreases_to!(sels@ => sels@[i as int]));
        let ghost before = fields_view(out@);
        assert(sels@.take(i + 1).last() == sels@[i as int]);
        match &sels[i] {
            Selection::Field(f) => {
                out.push(Field { name: f.name.clone(), directives: copy_directives(&f.directives) });
                assert(fields_view(out@) =~= before + seq![(f.name@, f.directives@)]);
                collect_fields(&f.selections, out);
            },
            Selection::InlineFragment(inl) => {
                collect_fields(&inl.selections, out);
            },
            Selection::FragmentSpread(_) => {},
        }
        assert(fields_view(out@) =~= start + field_list(sels@.take(i + 1)));
    }
    assert(sels@.take(sels@.len() as int) =~= sels@);
}

fn collect_spreads(sels: &Vec<Selection>, out: &mut Vec<FragmentSpread>)
    ensures
        spreads_view(final(out)@) == spreads_view(old(out)@) + spread_list(sels@),
    decreases sels@,
{
    let ghost start = spreads_view(out@);
    for i in 0..sels.len()
        invariant
            spreads_view(out@) == start + spread_list(sels@.take(i as int)),
    {
        assert(sels@.take(i + 1).drop_last() =~= sels@.take(i as int));
        assert(decreases_to!(sels@ => sels@[i as int]));
        let ghost before = spreads_view(out@);
        assert(sels@.take(i + 1).last() == sels@[i as int]);
        match &sels[i] {
            Selection::Field(f) => {
                collect_spreads(&f.selections, out);
            },
            Selection::InlineFragment(inl) => {
                collect_spreads(&inl.selections, out);
            },
            Selection::FragmentSpread(s) => {
                out.push(FragmentSpread { name: s.name.clone(), directives: copy_directives(&s.directives) });
                assert(spreads_view(out@) =~= before + seq![(s.name@, s.directives@)]);
            },
        }
        assert(spreads_view(out@) =~= start + spread_list(sels@.take(i + 1)));
    }
    assert(sels@.take(sels@.len() as int) =~= sels@);
}

impl QueryOperation {
    /// Every field of the operation's own selection tree, depth-first.
    pub fn fields(&self) -> (r: Vec<Field>)
        ensures
            fields_view(r@) == field_list(self.selections@),
    {
        let mut out: Vec<Field> = Vec::new();
        collect_fields(&self.selections, &mut out);
        assert(fields_view(Seq::<Field>::empty()) =~= Seq::empty());
        assert(Seq::<(Seq<char>, Seq<Directive>)>::empty() + field_list(self.selections@) =~= field_list(self.selections@));
        out
    }

    /// Every fragment spread of the operation's own selection tree, depth-first.
    pub fn fragments(&self) -> (r: Vec<FragmentSpread>)
        ensures
            spreads_view(r@) == spread_list(self.selections@),
    {
        let mut out: Vec<FragmentSpread> = Vec::new();
        collect_spreads(&self.selections, &mut out);
        assert(spreads_view(Seq::<FragmentSpread>::empty()) =~= Seq::empty());
        assert(Seq::<(Seq<char>, Seq<Directive>)>::empty() + spread_list(self.selections@) =~= spread_list(self.selections@));
        out
    }
}

impl FragmentDefinition {
    /// Every field of the fragment's own selection tree, depth-first.
    pub fn fields(&self) -> (r: Vec<Field>)
        ensures
            fields_view(r@) == field_list(self.selections@),
    {
        let mut out: Vec<Field> = Vec::new();
        collect_fields(&self.selections, &mut out);
        assert(fields_view(Seq::<Field>::empty()) =~= Seq::empty());
        assert(Seq::<(Seq<char>, Seq<Directive>)>::empty() + field_list(self.selections@) =~= field_list(self.selections@));
        out
    }

    /// Every fragment spread of the fragment's own selection tree, depth-first.
    pub fn fragments(&self) -> (r: Vec<FragmentSpread>)
        ensures
            spreads_view(r@) == spread_list(self.selections@),
    {
        let mut out: Vec<FragmentSpread> = Vec::new();
        collect_spreads(&self.selections, &mut out);
        assert(spreads_view(Seq::<FragmentSpread>::empty()) =~= Seq::empty());
        assert(Seq::<(Seq<char>, Seq<Directive>)>::empty() + spread_list(self.selections@) =~= spread_list(self.selections@));
        out
    }
}

} // verus!
