//! The concurrent hash map that holds a write buffer's entries, and its
//! read-only form. Both come from the `dashmap` crate; what is stated of
//! them here is taken on trust from that crate's source.

use dashmap::DashMap;
use dashmap::ReadOnlyView;
use vstd::prelude::*;

verus! {

/// `dashmap::DashMap`, taken as it is: nothing is known of what is inside a
/// map but what the functions below say.
#[verifier::external_type_specification]
#[verifier::external_body]
#[verifier::reject_recursive_types(K)]
#[verifier::reject_recursive_types(V)]
#[verifier::reject_recursive_types(S)]
pub struct ExDashMap<K, V, S>(DashMap<K, V, S>);

/// `dashmap::ReadOnlyView`, taken as it is.
#[verifier::external_type_specification]
#[verifier::external_body]
#[verifier::reject_recursive_types(K)]
#[verifier::reject_recursive_types(V)]
#[verifier::reject_recursive_types(S)]
pub struct ExReadOnlyView<K, V, S>(ReadOnlyView<K, V, S>);

/// The record that an optional value stands for: `None` is a deletion.
pub open spec fn record_of(v: Option<Vec<u8>>) -> Option<Seq<u8>> {
    match v {
        Some(x) => Some(x@),
        None => None,
    }
}

/// What a `DashMap` holds: for each key rank present, the value inserted
/// last for it, `None` standing for a deletion.
pub uninterp spec fn live_entries(m: DashMap<u128, Option<Vec<u8>>>) -> Map<u128, Option<Seq<u8>>>;

/// What a `ReadOnlyView` holds.
pub uninterp spec fn sealed_entries(v: ReadOnlyView<u128, Option<Vec<u8>>>) -> Map<
    u128,
    Option<Seq<u8>>,
>;

/// `DashMap::new`: a map that holds nothing.
#[verifier::external_body]
pub(crate) fn map_new() -> (m: DashMap<u128, Option<Vec<u8>>>)
    ensures
        live_entries(m) =~= Map::empty(),
{
    DashMap::new()
}

/// `DashMap::insert`: the key now maps to the value, whatever it mapped to
/// before; every other key is as it was.
#[verifier::external_body]
pub(crate) fn map_insert(m: &mut DashMap<u128, Option<Vec<u8>>>, key: u128, value: Option<Vec<u8>>)
    ensures
        live_entries(*final(m)) == live_entries(*old(m)).insert(key, record_of(value)),
{
    m.insert(key, value);
}

/// `DashMap::get`, with the value cloned out of the guard: the value the key
/// maps to, or `None` where the map does not hold the key.
#[verifier::external_body]
pub(crate) fn map_get(m: &DashMap<u128, Option<Vec<u8>>>, key: u128) -> (r: Option<Option<Vec<u8>>>)
    ensures
        match r {
            Some(x) => live_entries(*m).dom().contains(key) && live_entries(*m)[key] == record_of(
                x,
            ),
            None => !live_entries(*m).dom().contains(key),
        },
{
    m.get(&key).map(|x| x.value().clone())
}

/// `DashMap::len`: the number of keys held.
#[verifier::external_body]
pub(crate) fn map_len(m: &DashMap<u128, Option<Vec<u8>>>) -> (n: usize)
    requires
        live_entries(*m).dom().finite(),
    ensures
        n == live_entries(*m).dom().len(),
{
    m.len()
}

/// `DashMap::into_read_only`: the view holds what the map held.
#[verifier::external_body]
pub(crate) fn map_seal(m: DashMap<u128, Option<Vec<u8>>>) -> (v: ReadOnlyView<
    u128,
    Option<Vec<u8>>,
>)
    ensures
        sealed_entries(v) == live_entries(m),
{
    m.into_read_only()
}

/// `ReadOnlyView::get`: a reference to the value the key maps to, or `None`
/// where the view does not hold the key.
#[verifier::external_body]
pub(crate) fn view_get(v: &ReadOnlyView<u128, Option<Vec<u8>>>, key: u128) -> (r: Option<
    &Option<Vec<u8>>,
>)
    ensures
        match r {
            Some(x) => sealed_entries(*v).dom().contains(key) && sealed_entries(*v)[key]
                == record_of(*x),
            None => !sealed_entries(*v).dom().contains(key),
        },
{
    v.get(&key)
}

/// `ReadOnlyView::keys`, collected: every key held, once each, in an order
/// of which nothing is claimed.
#[verifier::external_body]
pub(crate) fn view_keys(v: &ReadOnlyView<u128, Option<Vec<u8>>>) -> (keys: Vec<u128>)
    ensures
        keys@.no_duplicates(),
        keys@.to_set() == sealed_entries(*v).dom(),
{
    v.keys().copied().collect()
}

/// `slice::sort_unstable` on integers: the same items, in ascending order.
#[verifier::external_body]
pub(crate) fn sort_ranks(keys: &mut Vec<u128>)
    ensures
        final(keys)@.to_multiset() == old(keys)@.to_multiset(),
        forall|i: int, j: int|
            0 <= i <= j < final(keys)@.len() ==> final(keys)@[i] <= final(keys)@[j],
{
    keys.sort_unstable();
}

} // verus!
