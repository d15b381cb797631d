//! The mathematical model of the container.
//!
//! A container is modelled as a finite map from keys to bindings. A key is a
//! pair of a runtime type tag and a name; a [`BindingModel`] holds the
//! registered constructor and the binding's cache [`Slot`]. The executable
//! structures keep their bindings in a vector sorted strictly by key; the
//! functions here define that representation's view as a map and prove how
//! the view moves under the vector operations the library performs.

use vstd::prelude::*;

use crate::order::lemma_lex_lt_irreflexive;
use crate::order::lemma_lex_lt_transitive;
use crate::order::lex_lt;

verus! {

/// A resolution key: the runtime type tag and the name registered under it.
pub type Key = (int, Seq<char>);

/// Why a `get` request failed.
#[derive(Clone, Copy, Debug, PartialEq, Eq, Structural)]
pub enum ResolutionError {
    /// No binding at all is registered under the requested type tag.
    UnknownType,
    /// The type tag has bindings, but none under the requested name.
    UnknownLabel,
    /// The requested key is already under construction in this resolution
    /// chain: the configured graph is cyclic.
    CyclicDependency,
}

/// The cache slot of one binding. Over a binding's lifetime the slot moves
/// from `Empty` to `InProgress` while its constructor runs, and to `Ready`
/// when the constructor has produced a value; a `Ready` slot never changes
/// again.
pub enum Slot<V> {
    /// The constructor has never been invoked.
    Empty,
    /// The constructor is running in the current resolution chain.
    InProgress,
    /// The constructed value, returned (as a duplicate) by every later `get`.
    Ready(V),
}

/// Everything the container holds for one key.
pub ghost struct BindingModel<V, C> {
    /// The registered constructor.
    pub ctor: C,
    /// The binding's cache slot.
    pub slot: Slot<V>,
}

/// One stored binding: the executable counterpart of a key and its
/// [`BindingModel`].
pub(crate) struct Entry<V, C> {
    pub(crate) ty: u64,
    pub(crate) name: String,
    pub(crate) ctor: C,
    pub(crate) slot: Slot<V>,
}

pub(crate) open spec fn entry_key<V, C>(e: Entry<V, C>) -> Key {
    (e.ty as int, e.name@)
}

pub(crate) open spec fn entry_model<V, C>(e: Entry<V, C>) -> BindingModel<V, C> {
    BindingModel { ctor: e.ctor, slot: e.slot }
}

/// Strict order on keys: by type tag first, then by name.
pub open spec fn key_lt(a: Key, b: Key) -> bool {
    a.0 < b.0 || (a.0 == b.0 && lex_lt(a.1, b.1))
}

pub proof fn lemma_key_lt_irreflexive(a: Key)
    ensures
        !key_lt(a, a),
{
    lemma_lex_lt_irreflexive(a.1);
}

pub proof fn lemma_key_lt_transitive(a: Key, b: Key, c: Key)
    requires
        key_lt(a, b),
        key_lt(b, c),
    ensures
        key_lt(a, c),
{
    if a.0 == b.0 && b.0 == c.0 {
        lemma_lex_lt_transitive(a.1, b.1, c.1);
    }
}

/// The entries are strictly increasing by key.
pub(crate) open spec fn entries_sorted<V, C>(s: Seq<Entry<V, C>>) -> bool {
    forall|i: int, j: int|
        0 <= i < j < s.len() ==> #[trigger] key_lt(entry_key(s[i]), entry_key(s[j]))
}

/// No two entries share a key.
pub(crate) open spec fn keys_distinct<V, C>(s: Seq<Entry<V, C>>) -> bool {
    forall|i: int, j: int|
        0 <= i < j < s.len() ==> #[trigger] entry_key(s[i]) != #[trigger] entry_key(s[j])
}

pub(crate) proof fn lemma_sorted_distinct<V, C>(s: Seq<Entry<V, C>>)
    requires
        entries_sorted(s),
    ensures
        keys_distinct(s),
{
    assert forall|i: int, j: int|
        0 <= i < j < s.len() implies #[trigger] entry_key(s[i]) != #[trigger] entry_key(s[j]) by {
        assert(key_lt(entry_key(s[i]), entry_key(s[j])));
        lemma_key_lt_irreflexive(entry_key(s[i]));
    }
}

/// Some entry carries the key `k`.
pub(crate) open spec fn seq_has_key<V, C>(s: Seq<Entry<V, C>>, k: Key) -> bool {
    exists|i: int| 0 <= i < s.len() && entry_key(s[i]) == k
}

pub(crate) open spec fn seq_index_of<V, C>(s: Seq<Entry<V, C>>, k: Key) -> int {
    choose|i: int| 0 <= i < s.len() && entry_key(s[i]) == k
}

/// The entries, read as a map from key to binding.
pub(crate) open spec fn map_of<V, C>(s: Seq<Entry<V, C>>) -> Map<Key, BindingModel<V, C>> {
    Map::new(|k: Key| seq_has_key(s, k), |k: Key| entry_model(s[seq_index_of(s, k)]))
}

/// With distinct keys, the entry at any position is what the map holds for
/// that entry's key.
pub(crate) proof fn lemma_map_of_index<V, C>(s: Seq<Entry<V, C>>, i: int)
    requires
        keys_distinct(s),
        0 <= i < s.len(),
    ensures
        map_of(s).dom().contains(entry_key(s[i])),
        map_of(s)[entry_key(s[i])] == entry_model(s[i]),
{
    let k = entry_key(s[i]);
    assert(seq_has_key(s, k));
    let j = seq_index_of(s, k);
    assert(0 <= j < s.len() && entry_key(s[j]) == k);
    if j < i {
        assert(entry_key(s[j]) != entry_key(s[i]));
    } else if i < j {
        assert(entry_key(s[i]) != entry_key(s[j]));
    }
}

/// A key no entry carries is not in the map.
pub(crate) proof fn lemma_map_of_absent<V, C>(s: Seq<Entry<V, C>>, k: Key)
    requires
        forall|i: int| 0 <= i < s.len() ==> #[trigger] entry_key(s[i]) != k,
    ensures
        !map_of(s).dom().contains(k),
{
}

/// Inserting an entry with a fresh key inserts its binding into the map.
pub(crate) proof fn lemma_map_of_insert<V, C>(s: Seq<Entry<V, C>>, i: int, e: Entry<V, C>)
    requires
        keys_distinct(s),
        0 <= i <= s.len(),
        forall|j: int| 0 <= j < s.len() ==> #[trigger] entry_key(s[j]) != entry_key(e),
    ensures
        map_of(s.insert(i, e)) == map_of(s).insert(entry_key(e), entry_model(e)),
{
    let s2 = s.insert(i, e);
    s.insert_ensures(i, e);
    assert forall|j1: int, j2: int|
        0 <= j1 < j2 < s2.len() implies #[trigger] entry_key(s2[j1]) != #[trigger] entry_key(
        s2[j2],
    ) by {
        let o1 = if j1 < i { j1 } else { j1 - 1 };
        let o2 = if j2 < i { j2 } else { j2 - 1 };
        if j1 == i {
            assert(entry_key(s[o2]) != entry_key(e));
        } else if j2 == i {
            assert(entry_key(s[o1]) != entry_key(e));
        } else {
            assert(entry_key(s[o1]) != entry_key(s[o2]));
        }
    }
    assert forall|k: Key| #[trigger] seq_has_key(s2, k) == (seq_has_key(s, k) || k == entry_key(
        e,
    )) by {
        if seq_has_key(s2, k) {
            let j = choose|j: int| 0 <= j < s2.len() && entry_key(s2[j]) == k;
            if j == i {
                assert(k == entry_key(e));
            } else {
                let o = if j < i { j } else { j - 1 };
                assert(entry_key(s[o]) == k);
                assert(seq_has_key(s, k));
            }
        }
        if seq_has_key(s, k) {
            let j = choose|j: int| 0 <= j < s.len() && entry_key(s[j]) == k;
            let n = if j < i { j } else { j + 1 };
            assert(entry_key(s2[n]) == k);
            assert(seq_has_key(s2, k));
        }
        if k == entry_key(e) {
            assert(entry_key(s2[i]) == k);
            assert(seq_has_key(s2, k));
        }
    }
    assert forall|k: Key| seq_has_key(s2, k) implies entry_model(
        s2[seq_index_of(s2, k)],
    ) == map_of(s).insert(entry_key(e), entry_model(e))[k] by {
        let j = seq_index_of(s2, k);
        assert(0 <= j < s2.len() && entry_key(s2[j]) == k);
        if j == i {
            assert(k == entry_key(e));
            assert(entry_model(s2[j]) == entry_model(e));
        } else {
            let o = if j < i { j } else { j - 1 };
            assert(s2[j] == s[o]);
            assert(k != entry_key(e));
            assert(seq_has_key(s, k));
            let j0 = seq_index_of(s, k);
            assert(0 <= j0 < s.len() && entry_key(s[j0]) == k);
            if j0 < o {
                assert(entry_key(s[j0]) != entry_key(s[o]));
            } else if o < j0 {
                assert(entry_key(s[o]) != entry_key(s[j0]));
            }
            assert(j0 == o);
        }
    }
    assert(map_of(s.insert(i, e)) =~= map_of(s).insert(entry_key(e), entry_model(e)));
}

/// Replacing the entry at a position, keeping its key, updates the map at
/// that key alone.
pub(crate) proof fn lemma_map_of_update<V, C>(s: Seq<Entry<V, C>>, i: int, e: Entry<V, C>)
    requires
        keys_distinct(s),
        0 <= i < s.len(),
        entry_key(e) == entry_key(s[i]),
    ensures
        map_of(s.update(i, e)) == map_of(s).insert(entry_key(e), entry_model(e)),
{
    let s2 = s.update(i, e);
    assert(s2.len() == s.len());
    assert forall|j1: int, j2: int|
        0 <= j1 < j2 < s2.len() implies #[trigger] entry_key(s2[j1]) != #[trigger] entry_key(
        s2[j2],
    ) by {
        assert(entry_key(s[j1]) != entry_key(s[j2]));
    }
    assert forall|k: Key| #[trigger] seq_has_key(s2, k) == seq_has_key(s, k) by {
        if seq_has_key(s2, k) {
            let j = choose|j: int| 0 <= j < s2.len() && entry_key(s2[j]) == k;
            assert(entry_key(s[j]) == k);
            assert(seq_has_key(s, k));
        }
        if seq_has_key(s, k) {
            let j = choose|j: int| 0 <= j < s.len() && entry_key(s[j]) == k;
            assert(entry_key(s2[j]) == k);
            assert(seq_has_key(s2, k));
        }
    }
    assert forall|k: Key| seq_has_key(s2, k) implies entry_model(
        s2[seq_index_of(s2, k)],
    ) == map_of(s).insert(entry_key(e), entry_model(e))[k] by {
        let j = seq_index_of(s2, k);
        assert(0 <= j < s2.len() && entry_key(s2[j]) == k);
        if j == i {
            assert(entry_model(s2[j]) == entry_model(e));
        } else {
            assert(s2[j] == s[j]);
            assert(entry_key(s[i]) != entry_key(s[j]));
            assert(k != entry_key(e));
            assert(seq_has_key(s, k));
            let j0 = seq_index_of(s, k);
            assert(0 <= j0 < s.len() && entry_key(s[j0]) == k);
            if j0 < j {
                assert(entry_key(s[j0]) != entry_key(s[j]));
            } else if j < j0 {
                assert(entry_key(s[j]) != entry_key(s[j0]));
            }
            assert(j0 == j);
        }
    }
    assert(map_of(s2) =~= map_of(s).insert(entry_key(e), entry_model(e)));
}

/// Removing an entry and inserting another at the same position is an update.
pub(crate) proof fn lemma_remove_insert_is_update<V, C>(s: Seq<Entry<V, C>>, i: int, e: Entry<V, C>)
    requires
        0 <= i < s.len(),
    ensures
        s.remove(i).insert(i, e) == s.update(i, e),
{
    s.remove_ensures(i);
    s.remove(i).insert_ensures(i, e);
    assert(s.remove(i).insert(i, e) =~= s.update(i, e));
}

/// An update that keeps the entry's key keeps the entries sorted.
pub(crate) proof fn lemma_sorted_update_same_key<V, C>(s: Seq<Entry<V, C>>, i: int, e: Entry<V, C>)
    requires
        entries_sorted(s),
        0 <= i < s.len(),
        entry_key(e) == entry_key(s[i]),
    ensures
        entries_sorted(s.update(i, e)),
{
    let s2 = s.update(i, e);
    assert forall|j1: int, j2: int|
        0 <= j1 < j2 < s2.len() implies #[trigger] key_lt(entry_key(s2[j1]), entry_key(s2[j2])) by {
        assert(key_lt(entry_key(s[j1]), entry_key(s[j2])));
    }
}

/// Whether any binding is registered under the type tag `ty`.
pub open spec fn has_type<V, C>(m: Map<Key, BindingModel<V, C>>, ty: int) -> bool {
    exists|k: Key| #[trigger] m.dom().contains(k) && k.0 == ty
}

/// With distinct keys, the map has the type tag exactly when some entry
/// carries it.
pub(crate) proof fn lemma_has_type_iff<V, C>(s: Seq<Entry<V, C>>, ty: int)
    ensures
        has_type(map_of(s), ty) == exists|i: int| 0 <= i < s.len() && (#[trigger] s[i].ty) == ty,
{
    if has_type(map_of(s), ty) {
        let k = choose|k: Key| #[trigger] map_of(s).dom().contains(k) && k.0 == ty;
        let i = choose|i: int| 0 <= i < s.len() && entry_key(s[i]) == k;
        assert(0 <= i < s.len() && s[i].ty == ty);
    }
    if exists|i: int| 0 <= i < s.len() && (#[trigger] s[i].ty) == ty {
        let i = choose|i: int| 0 <= i < s.len() && (#[trigger] s[i].ty) == ty;
        assert(seq_has_key(s, entry_key(s[i])));
        assert(map_of(s).dom().contains(entry_key(s[i])));
    }
}

/// How a container state may change while a `get` request runs: no key
/// appears or disappears, no constructor is replaced, a constructed value is
/// never dropped or rebuilt, and a binding whose construction is underway
/// stays underway.
pub open spec fn evolves<V, C>(
    pre: Map<Key, BindingModel<V, C>>,
    post: Map<Key, BindingModel<V, C>>,
) -> bool {
    &&& post.dom() == pre.dom()
    &&& forall|k: Key| #[trigger] pre.dom().contains(k) ==> {
        &&& post[k].ctor == pre[k].ctor
        &&& (pre[k].slot is Ready ==> post[k].slot == pre[k].slot)
        &&& (pre[k].slot is InProgress ==> post[k].slot == pre[k].slot)
    }
}

/// What one `get` request does, as a relation between the container state
/// `m0` before the call, the state `m1` after it, and the result `r`.
///
/// The requested key decides the outcome. An unregistered type tag or name
/// fails with the matching error and leaves the container as it was; so does
/// a key already under construction, which is a cyclic configuration. A
/// `Ready` binding answers from its cache, unchanged. Only an `Empty` binding
/// runs its constructor: on success the produced value is cached and
/// returned, and on failure the binding is left unconstructed and the
/// constructor's error is passed through.
pub open spec fn resolution_post<V, C>(
    m0: Map<Key, BindingModel<V, C>>,
    ty: int,
    name: Seq<char>,
    m1: Map<Key, BindingModel<V, C>>,
    r: Result<V, ResolutionError>,
) -> bool {
    let k = (ty, name);
    if !has_type(m0, ty) {
        r == Err::<V, ResolutionError>(ResolutionError::UnknownType) && m1 == m0
    } else if !m0.dom().contains(k) {
        r == Err::<V, ResolutionError>(ResolutionError::UnknownLabel) && m1 == m0
    } else {
        match m0[k].slot {
            Slot::Empty => match r {
                Ok(v) => m1[k].slot == Slot::Ready(v),
                Err(_) => m1[k].slot is Empty,
            },
            Slot::InProgress => r == Err::<V, ResolutionError>(ResolutionError::CyclicDependency)
                && m1 == m0,
            Slot::Ready(v) => r == Ok::<V, ResolutionError>(v) && m1 == m0,
        }
    }
}

/// `names` lists exactly the names registered under `ty`, each once, in
/// strictly increasing lexicographic order.
pub open spec fn registered_names<V, C>(
    m: Map<Key, BindingModel<V, C>>,
    ty: int,
    names: Seq<Seq<char>>,
) -> bool {
    &&& forall|i: int| 0 <= i < names.len() ==> m.dom().contains((ty, #[trigger] names[i]))
    &&& forall|k: Key|
        #[trigger] m.dom().contains(k) && k.0 == ty ==> exists|i: int|
            0 <= i < names.len() && names[i] == k.1
    &&& forall|i: int, j: int| 0 <= i < j < names.len() ==> lex_lt(names[i], names[j])
}

} // verus!
