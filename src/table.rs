//! The connection table: a slab of connections, keyed by handle.

use vstd::prelude::*;
use crate::connection::Connection;

verus! {

/// The slab type, opaque; what it holds is `slab_contents`.
#[verifier::external_type_specification]
#[verifier::external_body]
#[verifier::reject_recursive_types(T)]
pub struct ExSlab<T>(slab::Slab<T>);

/// The connections that a slab holds, by key.
pub uninterp spec fn slab_contents(s: slab::Slab<Connection>) -> Map<usize, Connection>;

/// Relies on slab::Slab::new: a new slab holds nothing.
#[verifier::external_body]
pub(crate) fn slab_new() -> (r: slab::Slab<Connection>)
    ensures
        slab_contents(r).dom() =~= Set::empty(),
{
    slab::Slab::new()
}

/// Relies on slab::Slab::len: the number of values stored.
#[verifier::external_body]
pub(crate) fn slab_len(s: &slab::Slab<Connection>) -> (r: usize)
    ensures
        r == slab_contents(*s).len(),
{
    s.len()
}

/// Relies on slab::Slab::contains: whether a value is stored under `key`.
#[verifier::external_body]
pub(crate) fn slab_contains(s: &slab::Slab<Connection>, key: usize) -> (r: bool)
    ensures
        r == slab_contents(*s).contains_key(key),
{
    s.contains(key)
}

/// Relies on slab::Slab's `Index`: the value stored under `key`, which must be
/// present (else it panics).
#[verifier::external_body]
pub(crate) fn slab_get(s: &slab::Slab<Connection>, key: usize) -> (r: &Connection)
    requires
        slab_contents(*s).contains_key(key),
    ensures
        *r == slab_contents(*s)[key],
{
    &s[key]
}

/// Relies on slab::Slab::insert: the value is stored under a key that was
/// vacant, which is returned; nothing else changes.
#[verifier::external_body]
pub(crate) fn slab_insert(s: &mut slab::Slab<Connection>, val: Connection) -> (key: usize)
    ensures
        !slab_contents(*old(s)).contains_key(key),
        slab_contents(*final(s)) == slab_contents(*old(s)).insert(key, val),
{
    s.insert(val)
}

/// Relies on slab::Slab::try_remove: the value under `key`, if any, is taken
/// out and returned.
#[verifier::external_body]
pub(crate) fn slab_try_remove(s: &mut slab::Slab<Connection>, key: usize) -> (r: Option<Connection>)
    ensures
        slab_contents(*final(s)) == slab_contents(*old(s)).remove(key),
        r == (if slab_contents(*old(s)).contains_key(key) {
            Some(slab_contents(*old(s))[key])
        } else {
            None::<Connection>
        }),
{
    s.try_remove(key)
}

/// Relies on slab::Slab's `IndexMut`: a mutable borrow of the value under
/// `key`, which must be present (else it panics).
#[verifier::external_body]
pub(crate) fn slab_get_mut(s: &mut slab::Slab<Connection>, key: usize) -> (r: &mut Connection)
    requires
        slab_contents(*old(s)).contains_key(key),
    ensures
        *r == slab_contents(*old(s))[key],
        slab_contents(*final(s)) == slab_contents(*old(s)).insert(key, *final(r)),
{
    &mut s[key]
}

} // verus!
