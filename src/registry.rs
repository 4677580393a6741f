//! The name-keyed store of every fragment and operation found in a source tree.
//!
//! Both maps are `dashmap::DashMap`s so that readers on many threads need no further
//! locking. What a map holds is named by a spec function, and the few calls made on
//! a map are wrappers whose contracts speak of that name.
use std::sync::Arc;
use dashmap::DashMap;
use vstd::prelude::*;
use crate::graphql::{FragmentDefinition, GraphQLItem, QueryOperation};

verus! {

#[verifier::external_type_specification]
#[verifier::external_body]
#[verifier::reject_recursive_types(K)]
#[verifier::reject_recursive_types(V)]
#[verifier::reject_recursive_types(S)]
pub struct ExDashMap<K, V, S>(DashMap<K, V, S>);

/// Fragment definitions by name, shared between threads.
pub type FragmentMap = DashMap<String, Arc<FragmentDefinition>>;

/// Operations by name, shared between threads.
pub type QueryMap = DashMap<String, Arc<QueryOperation>>;

/// What a fragment map holds, by the characters of each key.
pub uninterp spec fn fragment_entries(m: FragmentMap) -> Map<Seq<char>, FragmentDefinition>;

/// What an operation map holds, by the characters of each key.
pub uninterp spec fn query_entries(m: QueryMap) -> Map<Seq<char>, QueryOperation>;

/// Relies on `DashMap::new`: a new map holds nothing.
#[verifier::external_body]
fn new_fragment_map() -> (r: FragmentMap)
    ensures
        fragment_entries(r).dom() == Set::<Seq<char>>::empty(),
{
    DashMap::new()
}

/// Relies on `DashMap::new`: a new map holds nothing.
#[verifier::external_body]
fn new_query_map() -> (r: QueryMap)
    ensures
        query_entries(r).dom() == Set::<Seq<char>>::empty(),
{
    DashMap::new()
}

/// Relies on `DashMap::insert`: the key is bound to the value, replacing an earlier
/// value under an equal key; other keys keep theirs.
#[verifier::external_body]
fn insert_fragment_entry(m: &mut FragmentMap, k: String, v: Arc<FragmentDefinition>)
    ensures
        fragment_entries(*final(m)) == fragment_entries(*old(m)).insert(k@, *v),
{
    m.insert(k, v);
}

/// Relies on `DashMap::insert`: the key is bound to the value, replacing an earlier
/// value under an equal key; other keys keep theirs.
#[verifier::external_body]
fn insert_query_entry(m: &mut QueryMap, k: String, v: Arc<QueryOperation>)
    ensures
        query_entries(*final(m)) == query_entries(*old(m)).insert(k@, *v),
{
    m.insert(k, v);
}

/// Relies on `DashMap::get`: the value under the key, if any. The `Arc` is cloned,
/// so the caller shares the stored definition.
#[verifier::external_body]
fn get_fragment_entry(m: &FragmentMap, k: &str) -> (r: Option<Arc<FragmentDefinition>>)
    ensures
        match r {
            Some(f) => fragment_entries(*m).contains_key(k@) && *f == fragment_entries(*m)[k@],
            None => !fragment_entries(*m).contains_key(k@),
        },
{
    m.get(k).map(|e| Arc::clone(e.value()))
}

/// Relies on `DashMap::get`: the value under the key, if any. The `Arc` is cloned,
/// so the caller shares the stored operation.
#[verifier::external_body]
fn get_query_entry(m: &QueryMap, k: &str) -> (r: Option<Arc<QueryOperation>>)
    ensures
        match r {
            Some(q) => query_entries(*m).contains_key(k@) && *q == query_entries(*m)[k@],
            None => !query_entries(*m).contains_key(k@),
        },
{
    m.get(k).map(|e| Arc::clone(e.value()))
}

/// Relies on `DashMap::len`: the number of keys held.
#[verifier::external_body]
fn fragment_map_len(m: &FragmentMap) -> (r: usize)
    ensures
        r == fragment_entries(*m).dom().len(),
{
    m.len()
}

/// Relies on `DashMap::len`: the number of keys held.
#[verifier::external_body]
fn query_map_len(m: &QueryMap) -> (r: usize)
    ensures
        r == query_entries(*m).dom().len(),
{
    m.len()
}

/// Relies on `DashMap::iter`: it visits every entry once, in an order that depends on
/// hashing; each key is copied out.
#[verifier::external_body]
fn query_map_keys(m: &QueryMap) -> (r: Vec<String>)
    ensures
        r@.len() == query_entries(*m).dom().len(),
        forall|i: int| 0 <= i < r@.len() ==> query_entries(*m).contains_key(#[trigger] r@[i]@),
        forall|k: Seq<char>| #[trigger] query_entries(*m).contains_key(k) ==> exists|i: int| 0 <= i < r@.len() && r@[i]@ == k,
        forall|i: int, j: int| 0 <= i < j < r@.len() ==> r@[i]@ != r@[j]@,
{
    m.iter().map(|e| e.key().clone()).collect()
}

/// Relies on `DashMap::iter`: it visits every entry once, in an order that depends on
/// hashing; each key is copied out.
#[verifier::external_body]
fn fragment_map_keys(m: &FragmentMap) -> (r: Vec<String>)
    ensures
        r@.len() == fragment_entries(*m).dom().len(),
        forall|i: int| 0 <= i < r@.len() ==> fragment_entries(*m).contains_key(#[trigger] r@[i]@),
        forall|k: Seq<char>| #[trigger] fragment_entries(*m).contains_key(k) ==> exists|i: int| 0 <= i < r@.len() && r@[i]@ == k,
        forall|i: int, j: int| 0 <= i < j < r@.len() ==> r@[i]@ != r@[j]@,
{
    m.iter().map(|e| e.key().clone()).collect()
}

/// All fragments and operations of a run, each kind keyed by name, and the number
/// of files that were read to fill them.
pub struct GraphQLRegistry {
    fragments: FragmentMap,
    queries: QueryMap,
    file_count: usize,
}

impl GraphQLRegistry {
    /// The fragments held, by name.
    pub closed spec fn fragment_map(&self) -> Map<Seq<char>, FragmentDefinition> {
        fragment_entries(self.fragments)
    }

    /// The operations held, by name.
    pub closed spec fn query_map(&self) -> Map<Seq<char>, QueryOperation> {
        query_entries(self.queries)
    }

    /// How many files were read to fill the maps.
    pub closed spec fn files_read(&self) -> usize {
        self.file_count
    }

    pub open spec fn wf(&self) -> bool {
        &&& self.fragment_map().dom().finite()
        &&& self.query_map().dom().finite()
    }

    pub fn new() -> (r: Self)
        ensures
            r.wf(),
            r.fragment_map().dom() == Set::<Seq<char>>::empty(),
            r.query_map().dom() == Set::<Seq<char>>::empty(),
            r.files_read() == 0,
    {
        GraphQLRegistry { fragments: new_fragment_map(), queries: new_query_map(), file_count: 0 }
    }

    /// Stores an item under its name, in the map of its kind. An item stored earlier
    /// under the same name and kind is replaced.
    pub fn insert_item(&mut self, item: GraphQLItem)
        requires
            old(self).wf(),
        ensures
            final(self).wf(),
            final(self).files_read() == old(self).files_read(),
            match item {
                GraphQLItem::Fragment(f) => {
                    &&& final(self).fragment_map() == old(self).fragment_map().insert(f.name@, f)
                    &&& final(self).query_map() == old(self).query_map()
                },
                GraphQLItem::Query(q) => {
                    &&& final(self).query_map() == old(self).query_map().insert(q.name@, q)
                    &&& final(self).fragment_map() == old(self).fragment_map()
                },
            },
    {
        match item {
            GraphQLItem::Fragment(f) => {
                let key = f.name.clone();
                insert_fragment_entry(&mut self.fragments, key, Arc::new(f));
            },
            GraphQLItem::Query(q) => {
                let key = q.name.clone();
                insert_query_entry(&mut self.queries, key, Arc::new(q));
            },
        }
    }

    /// The fragment stored under `name`, if any.
    pub fn lookup_fragment(&self, name: &str) -> (r: Option<Arc<FragmentDefinition>>)
        ensures
            match r {
                Some(f) => self.fragment_map().contains_key(name@) && *f == self.fragment_map()[name@],
                None => !self.fragment_map().contains_key(name@),
            },
    {
        get_fragment_entry(&self.fragments, name)
    }

    /// The operation stored under `name`, if any.
    pub fn lookup_operation(&self, name: &str) -> (r: Option<Arc<QueryOperation>>)
        ensures
            match r {
                Some(q) => self.query_map().contains_key(name@) && *q == self.query_map()[name@],
                None => !self.query_map().contains_key(name@),
            },
    {
        get_query_entry(&self.queries, name)
    }

    pub fn file_count(&self) -> (r: usize)
        ensures
            r == self.files_read(),
    {
        self.file_count
    }

    pub fn set_file_count(&mut self, n: usize)
        requires
            old(self).wf(),
        ensures
            final(self).wf(),
            final(self).files_read() == n,
            final(self).fragment_map() == old(self).fragment_map(),
            final(self).query_map() == old(self).query_map(),
    {
        self.file_count = n;
    }

    pub fn fragment_count(&self) -> (r: usize)
        ensures
            r == self.fragment_map().dom().len(),
    {
        fragment_map_len(&self.fragments)
    }

    pub fn query_count(&self) -> (r: usize)
        ensures
            r == self.query_map().dom().len(),
    {
        query_map_len(&self.queries)
    }

    /// The names of all operations, each once, in no particular order.
    pub fn query_names(&self) -> (r: Vec<String>)
        ensures
            r@.len() == self.query_map().dom().len(),
            forall|i: int| 0 <= i < r@.len() ==> self.query_map().contains_key(#[trigger] r@[i]@),
            forall|k: Seq<char>| #[trigger] self.query_map().contains_key(k) ==> exists|i: int| 0 <= i < r@.len() && r@[i]@ == k,
            forall|i: int, j: int| 0 <= i < j < r@.len() ==> r@[i]@ != r@[j]@,
    {
        query_map_keys(&self.queries)
    }

    /// The names of all fragments, each once, in no particular order.
    pub fn fragment_names(&self) -> (r: Vec<String>)
        ensures
            r@.len() == self.fragment_map().dom().len(),
            forall|i: int| 0 <= i < r@.len() ==> self.fragment_map().contains_key(#[trigger] r@[i]@),
            forall|k: Seq<char>| #[trigger] self.fragment_map().contains_key(k) ==> exists|i: int| 0 <= i < r@.len() && r@[i]@ == k,
            forall|i: int, j: int| 0 <= i < j < r@.len() ==> r@[i]@ != r@[j]@,
    {
        fragment_map_keys(&self.fragments)
    }
}


impl Default for GraphQLRegistry {
    fn default() -> (r: Self)
        ensures
            r.wf(),
            r.fragment_map().dom() == Set::<Seq<char>>::empty(),
            r.query_map().dom() == Set::<Seq<char>>::empty(),
            r.files_read() == 0,
    {
        Self::new()
    }
}

} // verus!
