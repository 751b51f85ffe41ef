//! The arena of resting orders: a slab whose keys stay valid until removed.
use vstd::prelude::*;
use slab::Slab;
use crate::orders::RestingOrder;

verus! {

#[verifier::external_type_specification]
#[verifier::external_body]
#[verifier::reject_recursive_types(T)]
pub struct ExSlab<T>(Slab<T>);

/// What a slab of resting orders holds: the order stored under each
/// occupied key.
pub uninterp spec fn slab_cells(s: Slab<RestingOrder>) -> Map<usize, RestingOrder>;

/// Relies on `Slab::with_capacity`: a slab with no occupied key.
#[verifier::external_body]
pub(crate) fn arena_with_capacity(capacity: usize) -> (r: Slab<RestingOrder>)
    ensures
        slab_cells(r).dom().is_empty(),
{
    Slab::with_capacity(capacity)
}

/// Relies on `Slab::insert`: the value is stored under the slab's next vacant
/// key, which is returned. The count of stored values is incremented, so it
/// must stay below `usize::MAX`.
#[verifier::external_body]
pub(crate) fn arena_insert(s: &mut Slab<RestingOrder>, value: RestingOrder) -> (r: usize)
    requires
        slab_cells(*old(s)).len() < usize::MAX,
    ensures
        !slab_cells(*old(s)).contains_key(r),
        slab_cells(*final(s)) == slab_cells(*old(s)).insert(r, value),
{
    s.insert(value)
}

/// Relies on `Slab::remove`: the value under an occupied key is taken out and
/// the key released; it panics on a vacant key.
#[verifier::external_body]
pub(crate) fn arena_remove(s: &mut Slab<RestingOrder>, key: usize) -> (r: RestingOrder)
    requires
        slab_cells(*old(s)).contains_key(key),
    ensures
        r == slab_cells(*old(s))[key],
        slab_cells(*final(s)) == slab_cells(*old(s)).remove(key),
{
    s.remove(key)
}

/// Relies on `Index` for `Slab`: the value under an occupied key; it panics
/// on a vacant key.
#[verifier::external_body]
pub(crate) fn arena_get(s: &Slab<RestingOrder>, key: usize) -> (r: RestingOrder)
    requires
        slab_cells(*s).contains_key(key),
    ensures
        r == slab_cells(*s)[key],
{
    s[key]
}

/// Relies on `IndexMut` for `Slab`: the value under an occupied key is
/// replaced; it panics on a vacant key.
#[verifier::external_body]
pub(crate) fn arena_set(s: &mut Slab<RestingOrder>, key: usize, value: RestingOrder)
    requires
        slab_cells(*old(s)).contains_key(key),
    ensures
        slab_cells(*final(s)) == slab_cells(*old(s)).insert(key, value),
{
    s[key] = value;
}

/// Relies on `IndexMut` for `Slab`: a mutable reference to the value under
/// an occupied key, whose final value is what the slab then holds there; it
/// panics on a vacant key.
#[verifier::external_body]
pub(crate) fn arena_entry_mut(s: &mut Slab<RestingOrder>, key: usize) -> (r: &mut RestingOrder)
    requires
        slab_cells(*old(s)).contains_key(key),
    ensures
        *r == slab_cells(*old(s))[key],
        slab_cells(*final(s)) == slab_cells(*old(s)).insert(key, *final(r)),
{
    &mut s[key]
}

/// Relies on `Slab::get`: the value under a key if it is occupied, `None`
/// otherwise.
#[verifier::external_body]
pub(crate) fn arena_lookup(s: &Slab<RestingOrder>, key: usize) -> (r: Option<RestingOrder>)
    ensures
        r == (if slab_cells(*s).contains_key(key) {
            Some(slab_cells(*s)[key])
        } else {
            None::<RestingOrder>
        }),
{
    s.get(key).copied()
}

/// Relies on `Slab::len`: the number of occupied keys.
#[verifier::external_body]
pub(crate) fn arena_len(s: &Slab<RestingOrder>) -> (r: usize)
    ensures
        r == slab_cells(*s).len(),
{
    s.len()
}

} // verus!
