//! The outside collections the handler keeps, and what it relies on of them.
use vstd::prelude::*;
use frozen_collections::{FzScalarMap, FzScalarSet};
use tinyset::SetUsize;

verus! {

#[verifier::external_type_specification]
#[verifier::external_body]
#[verifier::reject_recursive_types(K)]
#[verifier::reject_recursive_types(V)]
pub struct ExFzScalarMap<K, V>(FzScalarMap<K, V>);

#[verifier::external_type_specification]
#[verifier::external_body]
#[verifier::reject_recursive_types(T)]
pub struct ExFzScalarSet<T>(FzScalarSet<T>);

#[verifier::external_type_specification]
#[verifier::external_body]
pub struct ExSetUsize(SetUsize);

/// What a frozen keycode map holds.
pub uninterp spec fn scalar_map_contents(m: FzScalarMap<u32, usize>) -> Map<u32, usize>;

/// What a frozen index set holds.
pub uninterp spec fn scalar_set_contents(s: FzScalarSet<usize>) -> Set<usize>;

/// What a compact index set holds.
pub uninterp spec fn set_usize_contents(s: SetUsize) -> Set<usize>;

/// The map that a list of entries describes when a later entry for a key
/// replaces an earlier one.
pub open spec fn entries_map(entries: Seq<(u32, usize)>) -> Map<u32, usize>
    decreases entries.len(),
{
    if entries.len() == 0 {
        Map::empty()
    } else {
        entries_map(entries.drop_last()).insert(entries.last().0, entries.last().1)
    }
}

/// `FzScalarMap::new`: the map holds the entries, a later entry for a key
/// replacing an earlier one (as its documentation says of duplicate keys).
#[verifier::external_body]
pub(crate) fn scalar_map_new(entries: Vec<(u32, usize)>) -> (m: FzScalarMap<u32, usize>)
    ensures
        scalar_map_contents(m) == entries_map(entries@),
{
    FzScalarMap::new(entries)
}

/// `FzScalarMap::get`: the value stored for the key, if there is one.
#[verifier::external_body]
pub(crate) fn scalar_map_get(m: &FzScalarMap<u32, usize>, key: u32) -> (r: Option<usize>)
    ensures
        r == (if scalar_map_contents(*m).contains_key(key) {
            Some(scalar_map_contents(*m)[key])
        } else {
            None::<usize>
        }),
{
    m.get(&key).copied()
}

/// `FzScalarSet::new`: the set holds exactly the given values.
#[verifier::external_body]
pub(crate) fn scalar_set_new(values: Vec<usize>) -> (s: FzScalarSet<usize>)
    ensures
        scalar_set_contents(s) == values@.to_set(),
{
    FzScalarSet::new(values)
}

/// `FzScalarSet::contains`: whether the value is in the set.
#[verifier::external_body]
pub(crate) fn scalar_set_contains(s: &FzScalarSet<usize>, value: usize) -> (r: bool)
    ensures
        r == scalar_set_contents(*s).contains(value),
{
    s.contains(&value)
}

/// `SetUsize::new`: an empty set.
#[verifier::external_body]
pub(crate) fn set_usize_new() -> (s: SetUsize)
    ensures
        set_usize_contents(s) == Set::<usize>::empty(),
{
    SetUsize::new()
}

/// `SetUsize::insert`: adds the value; true when it was not there before.
#[verifier::external_body]
pub(crate) fn set_usize_insert(s: &mut SetUsize, value: usize) -> (r: bool)
    ensures
        set_usize_contents(*final(s)) == set_usize_contents(*old(s)).insert(value),
        r == !set_usize_contents(*old(s)).contains(value),
{
    s.insert(value)
}

/// `SetUsize::remove`: removes the value; true when it was there before.
#[verifier::external_body]
pub(crate) fn set_usize_remove(s: &mut SetUsize, value: usize) -> (r: bool)
    ensures
        set_usize_contents(*final(s)) == set_usize_contents(*old(s)).remove(value),
        r == set_usize_contents(*old(s)).contains(value),
{
    s.remove(value)
}

/// `SetUsize::drain`: empties the set and hands out each value it held once,
/// in an order that the set's layout decides and that is left unsaid here.
#[verifier::external_body]
pub(crate) fn set_usize_drain(s: &mut SetUsize) -> (values: Vec<usize>)
    ensures
        set_usize_contents(*final(s)) == Set::<usize>::empty(),
        values@.no_duplicates(),
        values@.to_set() == set_usize_contents(*old(s)),
{
    s.drain().collect()
}

} // verus!
