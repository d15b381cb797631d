//! Laws of the container, stated over its model.
//!
//! Each law is a consequence of the contracts of [`crate::Rules`] and
//! [`crate::Context`] alone: `resolution_post` is what
//! [`crate::Context::get`] ensures of every call, `evolves` bounds every
//! state change a call may make, and registration is an insertion into the
//! rule map. The proofs hold for every configuration, every value type and
//! every constructor type.

use vstd::prelude::*;

use crate::model::BindingModel;
use crate::model::Key;
use crate::model::ResolutionError;
use crate::model::Slot;
use crate::model::evolves;
use crate::model::has_type;
use crate::model::registered_names;
use crate::model::resolution_post;

verus! {

/// Memoization: once a `get` of a key has succeeded, every further `get` of
/// the same key returns the very same value and changes nothing — the
/// constructor ran during the first call or earlier, and never again.
pub proof fn lemma_memoization<V, C>(
    m0: Map<Key, BindingModel<V, C>>,
    m1: Map<Key, BindingModel<V, C>>,
    m2: Map<Key, BindingModel<V, C>>,
    ty: int,
    name: Seq<char>,
    r1: Result<V, ResolutionError>,
    r2: Result<V, ResolutionError>,
)
    requires
        evolves(m0, m1),
        resolution_post(m0, ty, name, m1, r1),
        resolution_post(m1, ty, name, m2, r2),
        r1 is Ok,
    ensures
        r2 == r1,
        m2 == m1,
{
    let k = (ty, name);
    assert(m1.dom().contains(k));
    assert(has_type(m1, ty));
}

/// Laziness of registration: adding a rule touches no other key, and the
/// binding it installs is unconstructed — whatever its constructor would do,
/// nothing runs it until the key is first requested.
pub proof fn lemma_registration_isolated<V, C>(
    m: Map<Key, BindingModel<V, C>>,
    k: Key,
    ctor: C,
    k2: Key,
)
    requires
        k2 != k,
    ensures
        m.insert(k, (BindingModel { ctor: ctor, slot: Slot::Empty })).dom().contains(k2)
            == m.dom().contains(k2),
        m.dom().contains(k2) ==> m.insert(k, (BindingModel { ctor: ctor, slot: Slot::Empty }))[k2]
            == m[k2],
        m.insert(k, (BindingModel { ctor: ctor, slot: Slot::Empty }))[k].slot is Empty,
{
}

/// Name scoping: one name under two different type tags makes two
/// independent keys — registering under the one leaves the binding under
/// the other exactly as it was.
pub proof fn lemma_name_scoping<V, C>(
    m: Map<Key, BindingModel<V, C>>,
    ty_a: int,
    ty_b: int,
    name: Seq<char>,
    ctor: C,
)
    requires
        ty_a != ty_b,
    ensures
        m.insert((ty_a, name), (BindingModel { ctor: ctor, slot: Slot::Empty })).dom().contains(
            (ty_b, name),
        ) == m.dom().contains((ty_b, name)),
        m.dom().contains((ty_b, name)) ==> m.insert(
            (ty_a, name),
            (BindingModel { ctor: ctor, slot: Slot::Empty }),
        )[(ty_b, name)] == m[(ty_b, name)],
{
    lemma_registration_isolated(m, (ty_a, name), ctor, (ty_b, name));
}

/// Missing name: when the type tag has bindings but not under this name,
/// `get` fails with `UnknownLabel` — not `UnknownType` — and changes
/// nothing.
pub proof fn lemma_missing_label<V, C>(
    m0: Map<Key, BindingModel<V, C>>,
    ty: int,
    name: Seq<char>,
    m1: Map<Key, BindingModel<V, C>>,
    r: Result<V, ResolutionError>,
)
    requires
        has_type(m0, ty),
        !m0.dom().contains((ty, name)),
        resolution_post(m0, ty, name, m1, r),
    ensures
        r == Err::<V, ResolutionError>(ResolutionError::UnknownLabel),
        m1 == m0,
{
}

/// Missing type: when nothing at all is registered under the type tag,
/// `get` fails with `UnknownType` and changes nothing.
pub proof fn lemma_missing_type<V, C>(
    m0: Map<Key, BindingModel<V, C>>,
    ty: int,
    name: Seq<char>,
    m1: Map<Key, BindingModel<V, C>>,
    r: Result<V, ResolutionError>,
)
    requires
        !has_type(m0, ty),
        resolution_post(m0, ty, name, m1, r),
    ensures
        r == Err::<V, ResolutionError>(ResolutionError::UnknownType),
        m1 == m0,
{
}

/// Cycle detection, self-referential or mutual: a `get` that reaches a key
/// whose construction is already underway in the current resolution chain
/// fails with `CyclicDependency` and changes nothing, instead of recursing
/// forever. A constructor that requests its own key hits this directly; two
/// constructors that request each other hit it when the second loops back to
/// the first, whose slot is still `InProgress`.
pub proof fn lemma_reentry_fails<V, C>(
    m0: Map<Key, BindingModel<V, C>>,
    ty: int,
    name: Seq<char>,
    m1: Map<Key, BindingModel<V, C>>,
    r: Result<V, ResolutionError>,
)
    requires
        m0.dom().contains((ty, name)),
        m0[(ty, name)].slot is InProgress,
        resolution_post(m0, ty, name, m1, r),
    ensures
        r == Err::<V, ResolutionError>(ResolutionError::CyclicDependency),
        m1 == m0,
{
    assert(has_type(m0, ty));
}

/// Iteration excludes construction: which names are listed for a type tag
/// depends only on which keys are registered — never on any binding's cache
/// slot, so listing neither needs nor triggers construction.
pub proof fn lemma_names_ignore_slots<V, C>(
    m: Map<Key, BindingModel<V, C>>,
    m2: Map<Key, BindingModel<V, C>>,
    ty: int,
    names: Seq<Seq<char>>,
)
    requires
        m2.dom() == m.dom(),
        registered_names(m, ty, names),
    ensures
        registered_names(m2, ty, names),
{
}

} // verus!
