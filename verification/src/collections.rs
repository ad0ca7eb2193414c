//! The insertion-ordered and hashed collections the extractors keep their
//! state in, keyed by class and node indices.
//!
//! The collections are those of `indexmap` and `rustc-hash`. Their contents
//! are named here, and every method the library calls has a wrapper whose
//! contract speaks of those names; nothing in this file is proved.
use indexmap::{IndexMap, IndexSet};
use rustc_hash::{FxBuildHasher, FxHashMap, FxHashSet};
use vstd::prelude::*;

verus! {

/// `indexmap::IndexMap`, opaque to the prover.
#[verifier::external_type_specification]
#[verifier::external_body]
#[verifier::reject_recursive_types(K)]
#[verifier::reject_recursive_types(V)]
#[verifier::reject_recursive_types(S)]
pub struct ExIndexMap<K, V, S>(IndexMap<K, V, S>);

/// `indexmap::IndexSet`, opaque to the prover.
#[verifier::external_type_specification]
#[verifier::external_body]
#[verifier::reject_recursive_types(T)]
#[verifier::reject_recursive_types(S)]
pub struct ExIndexSet<T, S>(IndexSet<T, S>);

/// `rustc_hash::FxBuildHasher`, the hasher of the `FxHashMap` and `FxHashSet`
/// aliases.
#[verifier::external_type_specification]
#[verifier::external_body]
pub struct ExFxBuildHasher(FxBuildHasher);

/// `items` are the `n` items of `all`, each at one position.
pub open spec fn lists(items: Seq<usize>, all: Set<usize>, n: nat) -> bool {
    &&& items.len() == n
    &&& items.no_duplicates()
    &&& items.to_set() == all
}

// ---------------------------------------------------------------------------
// IndexMap<usize, usize>
// ---------------------------------------------------------------------------

/// What an `IndexMap<usize, usize>` maps each key to.
pub uninterp spec fn id_map(m: IndexMap<usize, usize>) -> Map<usize, usize>;

/// The keys of an `IndexMap<usize, usize>`, in the order it iterates them.
pub uninterp spec fn id_keys(m: IndexMap<usize, usize>) -> Seq<usize>;

/// `IndexMap::new`: an empty map.
#[verifier::external_body]
pub(crate) fn id_map_new() -> (m: IndexMap<usize, usize>)
    ensures
        id_map(m) =~= Map::empty(),
        id_keys(m) =~= Seq::empty(),
{
    IndexMap::new()
}

/// `IndexMap::clone`: the same entries in the same order.
#[verifier::external_body]
pub(crate) fn id_map_clone(m: &IndexMap<usize, usize>) -> (r: IndexMap<usize, usize>)
    ensures
        id_map(r) == id_map(*m),
        id_keys(r) == id_keys(*m),
{
    m.clone()
}

/// `IndexMap::get`: the value stored for `key`, if there is one.
#[verifier::external_body]
pub(crate) fn id_map_get(m: &IndexMap<usize, usize>, key: usize) -> (r: Option<usize>)
    ensures
        r == (if id_map(*m).contains_key(key) {
            Some(id_map(*m)[key])
        } else {
            None
        }),
{
    m.get(&key).copied()
}

/// `IndexMap::insert`: a new key goes last in the order, a known one keeps its
/// place and has its value replaced; the replaced value is returned.
#[verifier::external_body]
pub(crate) fn id_map_insert(m: &mut IndexMap<usize, usize>, key: usize, value: usize) -> (r: Option<
    usize,
>)
    ensures
        id_map(*final(m)) == id_map(*old(m)).insert(key, value),
        id_keys(*final(m)) == (if id_map(*old(m)).contains_key(key) {
            id_keys(*old(m))
        } else {
            id_keys(*old(m)).push(key)
        }),
        r == (if id_map(*old(m)).contains_key(key) {
            Some(id_map(*old(m))[key])
        } else {
            None
        }),
{
    m.insert(key, value)
}

/// `IndexMap::len`: the number of entries, each key of the map standing at
/// exactly one position of the order.
#[verifier::external_body]
pub(crate) fn id_map_len(m: &IndexMap<usize, usize>) -> (r: usize)
    ensures
        lists(id_keys(*m), id_map(*m).dom(), r as nat),
{
    m.len()
}

/// `IndexMap::get_index`: the entry at a position of the order.
#[verifier::external_body]
pub(crate) fn id_map_get_index(m: &IndexMap<usize, usize>, index: usize) -> (r: Option<
    (usize, usize),
>)
    ensures
        r == (if index < id_keys(*m).len() {
            Some((id_keys(*m)[index as int], id_map(*m)[id_keys(*m)[index as int]]))
        } else {
            None
        }),
        r matches Some((k, _)) ==> id_map(*m).contains_key(k),
{
    m.get_index(index).map(|(k, v)| (*k, *v))
}

// ---------------------------------------------------------------------------
// IndexMap<usize, i64>
// ---------------------------------------------------------------------------

/// What an `IndexMap<usize, i64>` maps each key to.
pub uninterp spec fn num_map(m: IndexMap<usize, i64>) -> Map<usize, i64>;

/// The keys of an `IndexMap<usize, i64>`, in the order it iterates them.
pub uninterp spec fn num_keys(m: IndexMap<usize, i64>) -> Seq<usize>;

/// `IndexMap::new`: an empty map.
#[verifier::external_body]
pub(crate) fn num_map_new() -> (m: IndexMap<usize, i64>)
    ensures
        num_map(m) =~= Map::empty(),
        num_keys(m) =~= Seq::empty(),
{
    IndexMap::new()
}

/// `IndexMap::get`: the value stored for `key`, if there is one.
#[verifier::external_body]
pub(crate) fn num_map_get(m: &IndexMap<usize, i64>, key: usize) -> (r: Option<&i64>)
    ensures
        r == (if num_map(*m).contains_key(key) {
            Some(&num_map(*m)[key])
        } else {
            None
        }),
{
    m.get(&key)
}

/// `IndexMap::insert`: a new key goes last in the order, a known one keeps its
/// place and has its value replaced; the replaced value is returned.
#[verifier::external_body]
pub(crate) fn num_map_insert(m: &mut IndexMap<usize, i64>, key: usize, value: i64) -> (r: Option<
    i64,
>)
    ensures
        num_map(*final(m)) == num_map(*old(m)).insert(key, value),
        num_keys(*final(m)) == (if num_map(*old(m)).contains_key(key) {
            num_keys(*old(m))
        } else {
            num_keys(*old(m)).push(key)
        }),
        r == (if num_map(*old(m)).contains_key(key) {
            Some(num_map(*old(m))[key])
        } else {
            None
        }),
{
    m.insert(key, value)
}

/// `IndexMap::shift_remove`: drops an entry, the later ones closing up.
#[verifier::external_body]
pub(crate) fn num_map_shift_remove(m: &mut IndexMap<usize, i64>, key: usize) -> (r: Option<i64>)
    ensures
        num_map(*final(m)) == num_map(*old(m)).remove(key),
        num_keys(*final(m)) == num_keys(*old(m)).remove_value(key),
        r == (if num_map(*old(m)).contains_key(key) {
            Some(num_map(*old(m))[key])
        } else {
            None
        }),
{
    m.shift_remove(&key)
}

/// `IndexMap::clear`: drops every entry.
#[verifier::external_body]
pub(crate) fn num_map_clear(m: &mut IndexMap<usize, i64>)
    ensures
        num_map(*final(m)) =~= Map::empty(),
        num_keys(*final(m)) =~= Seq::empty(),
{
    m.clear()
}

/// `IndexMap::len`: the number of entries, each key of the map standing at
/// exactly one position of the order.
#[verifier::external_body]
pub(crate) fn num_map_len(m: &IndexMap<usize, i64>) -> (r: usize)
    ensures
        lists(num_keys(*m), num_map(*m).dom(), r as nat),
{
    m.len()
}

/// `IndexMap::get_index`: the entry at a position of the order.
#[verifier::external_body]
pub(crate) fn num_map_get_index(m: &IndexMap<usize, i64>, index: usize) -> (r: Option<
    (usize, i64),
>)
    ensures
        r == (if index < num_keys(*m).len() {
            Some((num_keys(*m)[index as int], num_map(*m)[num_keys(*m)[index as int]]))
        } else {
            None
        }),
        r matches Some((k, _)) ==> num_map(*m).contains_key(k),
{
    m.get_index(index).map(|(k, v)| (*k, *v))
}

// ---------------------------------------------------------------------------
// IndexSet<usize>
// ---------------------------------------------------------------------------

/// The items of an `IndexSet<usize>`, in the order it iterates them.
pub uninterp spec fn id_set(s: IndexSet<usize>) -> Seq<usize>;

/// `IndexSet::new`: an empty set.
#[verifier::external_body]
pub(crate) fn id_set_new() -> (s: IndexSet<usize>)
    ensures
        id_set(s) =~= Seq::empty(),
{
    IndexSet::new()
}

/// `IndexSet::clone`: the same items in the same order.
#[verifier::external_body]
pub(crate) fn id_set_clone(s: &IndexSet<usize>) -> (r: IndexSet<usize>)
    ensures
        id_set(r) == id_set(*s),
{
    s.clone()
}

/// `IndexSet::insert`: a new item goes last; whether it was new is returned.
#[verifier::external_body]
pub(crate) fn id_set_insert(s: &mut IndexSet<usize>, item: usize) -> (r: bool)
    ensures
        r == !id_set(*old(s)).contains(item),
        id_set(*final(s)) == (if r {
            id_set(*old(s)).push(item)
        } else {
            id_set(*old(s))
        }),
{
    s.insert(item)
}

/// `IndexSet::contains`.
#[verifier::external_body]
pub(crate) fn id_set_contains(s: &IndexSet<usize>, item: usize) -> (r: bool)
    ensures
        r == id_set(*s).contains(item),
{
    s.contains(&item)
}

/// `IndexSet::shift_remove`: drops an item, the later ones closing up.
#[verifier::external_body]
pub(crate) fn id_set_shift_remove(s: &mut IndexSet<usize>, item: usize) -> (r: bool)
    ensures
        r == id_set(*old(s)).contains(item),
        id_set(*final(s)) == id_set(*old(s)).remove_value(item),
{
    s.shift_remove(&item)
}

/// `IndexSet::clear`: drops every item.
#[verifier::external_body]
pub(crate) fn id_set_clear(s: &mut IndexSet<usize>)
    ensures
        id_set(*final(s)) =~= Seq::empty(),
{
    s.clear()
}

/// `IndexSet::len`: the number of items, which are pairwise different.
#[verifier::external_body]
pub(crate) fn id_set_len(s: &IndexSet<usize>) -> (r: usize)
    ensures
        lists(id_set(*s), id_set(*s).to_set(), r as nat),
{
    s.len()
}

/// `IndexSet::get_index`: the item at a position of the order.
#[verifier::external_body]
pub(crate) fn id_set_get_index(s: &IndexSet<usize>, index: usize) -> (r: Option<usize>)
    ensures
        r == (if index < id_set(*s).len() {
            Some(id_set(*s)[index as int])
        } else {
            None
        }),
{
    s.get_index(index).copied()
}

// ---------------------------------------------------------------------------
// IndexSet<(usize, usize)>
// ---------------------------------------------------------------------------

/// The pairs of an `IndexSet<(usize, usize)>`, in the order it iterates them.
pub uninterp spec fn pair_set(s: IndexSet<(usize, usize)>) -> Seq<(usize, usize)>;

/// `IndexSet::new`: an empty set.
#[verifier::external_body]
pub(crate) fn pair_set_new() -> (s: IndexSet<(usize, usize)>)
    ensures
        pair_set(s) =~= Seq::empty(),
{
    IndexSet::new()
}

/// `IndexSet::insert`: a new pair goes last; whether it was new is returned.
#[verifier::external_body]
pub(crate) fn pair_set_insert(s: &mut IndexSet<(usize, usize)>, item: (usize, usize)) -> (r: bool)
    ensures
        r == !pair_set(*old(s)).contains(item),
        pair_set(*final(s)) == (if r {
            pair_set(*old(s)).push(item)
        } else {
            pair_set(*old(s))
        }),
{
    s.insert(item)
}

/// `IndexSet::clear`: drops every pair.
#[verifier::external_body]
pub(crate) fn pair_set_clear(s: &mut IndexSet<(usize, usize)>)
    ensures
        pair_set(*final(s)) =~= Seq::empty(),
{
    s.clear()
}

/// `IndexSet::len`: the number of pairs.
#[verifier::external_body]
pub(crate) fn pair_set_len(s: &IndexSet<(usize, usize)>) -> (r: usize)
    ensures
        r == pair_set(*s).len(),
{
    s.len()
}

/// `IndexSet::get_index`: the pair at a position of the order.
#[verifier::external_body]
pub(crate) fn pair_set_get_index(s: &IndexSet<(usize, usize)>, index: usize) -> (r: Option<
    (usize, usize),
>)
    ensures
        r == (if index < pair_set(*s).len() {
            Some(pair_set(*s)[index as int])
        } else {
            None
        }),
{
    s.get_index(index).copied()
}

// ---------------------------------------------------------------------------
// FxHashSet<usize>, FxHashMap<usize, i64>: the hashed collections of std with
// the hasher of `rustc-hash`
// ---------------------------------------------------------------------------

/// `HashSet::insert` with an `FxBuildHasher`: the item is in the set, and
/// whether it was new is returned.
#[verifier::external_body]
pub(crate) fn fx_set_insert(s: &mut FxHashSet<usize>, item: usize) -> (r: bool)
    ensures
        r == !old(s)@.contains(item),
        final(s)@ == old(s)@.insert(item),
{
    s.insert(item)
}

/// `HashSet::contains` with an `FxBuildHasher`.
#[verifier::external_body]
pub(crate) fn fx_set_contains(s: &FxHashSet<usize>, item: usize) -> (r: bool)
    ensures
        r == s@.contains(item),
{
    s.contains(&item)
}

/// `HashMap::insert` with an `FxBuildHasher`: the value is stored for the key,
/// and the replaced one returned.
#[verifier::external_body]
pub(crate) fn fx_map_insert(m: &mut FxHashMap<usize, i64>, key: usize, value: i64) -> (r: Option<
    i64,
>)
    ensures
        final(m)@ == old(m)@.insert(key, value),
        r == (if old(m)@.contains_key(key) {
            Some(old(m)@[key])
        } else {
            None
        }),
{
    m.insert(key, value)
}

/// `HashMap::get` with an `FxBuildHasher`: the value stored for the key, if
/// there is one.
#[verifier::external_body]
pub(crate) fn fx_map_get(m: &FxHashMap<usize, i64>, key: usize) -> (r: Option<&i64>)
    ensures
        r == (if m@.contains_key(key) {
            Some(&m@[key])
        } else {
            None
        }),
{
    m.get(&key)
}

} // verus!
