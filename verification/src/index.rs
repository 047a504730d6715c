//! The name index of a node's children, kept in an insertion-ordered multimap.

use ordered_multimap::ListOrderedMultimap;
use vstd::prelude::*;

verus! {

/// `ordered_multimap::ListOrderedMultimap`: a multimap that keeps its entries in
/// the order of their insertion. What is inside it is hidden from the verifier.
#[verifier::external_type_specification]
#[verifier::external_body]
#[verifier::reject_recursive_types(Key)]
#[verifier::reject_recursive_types(Value)]
#[verifier::reject_recursive_types(State)]
pub struct ExListOrderedMultimap<Key, Value, State>(ListOrderedMultimap<Key, Value, State>);

/// The `(key, value)` entries of a multimap in the order of their insertion, as
/// `ListOrderedMultimap::iter` yields them, each key by its characters.
pub uninterp spec fn entries(map: ListOrderedMultimap<String, usize>) -> Seq<(Seq<char>, usize)>;

/// The values of those of `entries` whose key is `key`, in the order of the entries.
pub open spec fn values_of(entries: Seq<(Seq<char>, usize)>, key: Seq<char>) -> Seq<usize>
    decreases entries.len(),
{
    if entries.len() == 0 {
        Seq::empty()
    } else if entries.last().0 == key {
        values_of(entries.drop_last(), key).push(entries.last().1)
    } else {
        values_of(entries.drop_last(), key)
    }
}

/// `ListOrderedMultimap::new`: a multimap without entries.
#[verifier::external_body]
pub(crate) fn new_index() -> (map: ListOrderedMultimap<String, usize>)
    ensures
        entries(map) == Seq::<(Seq<char>, usize)>::empty(),
{
    ListOrderedMultimap::new()
}

/// `ListOrderedMultimap::append`: the entry `(key, value)` is added behind all
/// others, whether or not the key is present already. The multimap takes fewer
/// than `usize::MAX` entries.
#[verifier::external_body]
pub(crate) fn append_index(map: &mut ListOrderedMultimap<String, usize>, key: String, value: usize)
    requires
        entries(*old(map)).len() + 1 < usize::MAX,
    ensures
        entries(*final(map)) == entries(*old(map)).push((key@, value)),
{
    let _ = map.append(key, value);
}

/// `ListOrderedMultimap::get_all`: the values of the entries whose key is `key`,
/// in the order of their insertion.
#[verifier::external_body]
pub(crate) fn get_all_index(map: &ListOrderedMultimap<String, usize>, key: &str) -> (values: Vec<
    usize,
>)
    ensures
        values@ == values_of(entries(*map), key@),
{
    map.get_all(key).copied().collect()
}

} // verus!
