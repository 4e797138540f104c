//! The inverted index of the clause store, kept in a `multimap::MultiMap`
//! from a literal's key (the number of its atom and whether it is negated) to
//! the positions of the clauses that hold it.
use multimap::MultiMap;
use vstd::prelude::*;

verus! {

#[verifier::external_type_specification]
#[verifier::external_body]
#[verifier::reject_recursive_types(K)]
#[verifier::reject_recursive_types(V)]
#[verifier::reject_recursive_types(S)]
pub struct ExMultiMap<K, V, S>(MultiMap<K, V, S>);

/// The key of a literal: the number of its atom and whether it is negated.
pub type IndexKey = (usize, bool);

/// The index from literal keys to clause positions.
pub type LiteralIndex = MultiMap<IndexKey, usize>;

/// What an index holds: for each key present, its values in the order in
/// which they were inserted.
pub uninterp spec fn index_entries(m: LiteralIndex) -> Map<IndexKey, Seq<usize>>;

/// Relies on `MultiMap::new`: the map starts with no key.
#[verifier::external_body]
pub(crate) fn new_index() -> (r: LiteralIndex)
    ensures
        index_entries(r).dom() == Set::<IndexKey>::empty(),
{
    MultiMap::new()
}

/// Relies on `MultiMap::insert`: the value is pushed onto the vector of its
/// key, which is created holding only that value when the key is absent;
/// other keys keep their vectors.
#[verifier::external_body]
pub(crate) fn index_insert(m: &mut LiteralIndex, k: IndexKey, v: usize)
    ensures
        index_entries(*final(m)) == index_entries(*old(m)).insert(
            k,
            if index_entries(*old(m)).contains_key(k) {
                index_entries(*old(m))[k].push(v)
            } else {
                seq![v]
            },
        ),
{
    m.insert(k, v)
}

/// Relies on `MultiMap::get_vec`: the vector of the key when it is present,
/// `None` when it is not.
#[verifier::external_body]
pub(crate) fn index_get(m: &LiteralIndex, k: IndexKey) -> (r: Option<&Vec<usize>>)
    ensures
        match r {
            Some(vs) => index_entries(*m).contains_key(k) && vs@ == index_entries(*m)[k],
            None => !index_entries(*m).contains_key(k),
        },
{
    m.get_vec(&k)
}

} // verus!
