//! The sealed container and its resolution engine.
//!
//! [`Context`] holds the bindings frozen by the rule set that was committed.
//! [`Context::get`] drives each binding's cache slot through the transitions
//! `Empty` to `InProgress` to `Ready`: the first request for a key runs its
//! constructor, every later request answers from the cache, and a request
//! that reaches a slot already `InProgress` has re-entered a key mid
//! construction and fails as a cyclic dependency.

use vstd::prelude::*;

use crate::model::BindingModel;
use crate::model::Entry;
use crate::model::Key;
use crate::model::ResolutionError;
use crate::model::Slot;
use crate::model::entries_sorted;
use crate::model::entry_key;
use crate::model::entry_model;
use crate::model::evolves;
use crate::model::has_type;
use crate::model::lemma_has_type_iff;
use crate::model::lemma_map_of_absent;
use crate::model::lemma_map_of_index;
use crate::model::lemma_map_of_update;
use crate::model::lemma_remove_insert_is_update;
use crate::model::lemma_sorted_distinct;
use crate::model::lemma_sorted_update_same_key;
use crate::model::map_of;
use crate::model::registered_names;
use crate::model::resolution_post;
use crate::order::Cmp;
use crate::order::lex_lt;
use crate::order::str_compare;

verus! {

/// A value the container can hand out: `dup` produces an equal, independent
/// value (typically a clone of a cheaply duplicable handle, such as a
/// reference-counted pointer). `get` caches one constructed value per key
/// and returns a duplicate of it to every caller.
pub trait Duplicable: Sized {
    fn dup(&self) -> (r: Self)
        ensures
            r == *self,
    ;
}

/// A construction rule. The container invokes `construct` the first time its
/// key is requested, handing it the container itself so that the rule can
/// resolve its own dependencies with further `get` calls.
///
/// The contract is what the container relies on of host-supplied rules: a
/// constructor interacts with the container only through its public
/// interface, so the set of bindings and their constructors stay as they
/// were, constructed values stay constructed, and bindings under
/// construction in this chain stay under construction.
pub trait Constructor<V>: Sized {
    fn construct(&self, ctx: &mut Context<V, Self>) -> (r: Result<V, ResolutionError>)
        requires
            old(ctx).wf(),
        ensures
            final(ctx).wf(),
            evolves(old(ctx)@, final(ctx)@),
    ;
}

/// The sealed container: an immutable set of construction rules and one
/// cache slot per rule.
pub struct Context<V, C> {
    pub(crate) entries: Vec<Entry<V, C>>,
}

impl<V, C> View for Context<V, C> {
    type V = Map<Key, BindingModel<V, C>>;

    closed spec fn view(&self) -> Map<Key, BindingModel<V, C>> {
        map_of(self.entries@)
    }
}

impl<V, C> Context<V, C> {
    /// The container's internal order is intact.
    pub closed spec fn wf(self) -> bool {
        entries_sorted(self.entries@)
    }

    /// The position of the entry with the requested key, if any.
    fn find(&self, ty: u64, name: &str) -> (r: Option<usize>)
        ensures
            match r {
                Some(i) => i < self.entries@.len() && entry_key(self.entries@[i as int]) == (
                ty as int,
                name@,
                ),
                None => forall|j: int|
                    0 <= j < self.entries@.len() ==> #[trigger] entry_key(self.entries@[j]) != (
                    ty as int,
                    name@,
                    ),
            },
    {
        let n = self.entries.len();
        let mut i: usize = 0;
        while i < n
            invariant
                i <= n,
                n == self.entries@.len(),
                forall|j: int|
                    0 <= j < i ==> #[trigger] entry_key(self.entries@[j]) != (ty as int, name@),
            decreases n - i,
        {
            let e = &self.entries[i];
            if e.ty == ty {
                let c = str_compare(e.name.as_str(), name);
                if let Cmp::Equal = c {
                    return Some(i);
                }
            }
            i = i + 1;
        }
        None
    }

    /// Whether any entry carries the type tag `ty`.
    fn probe_type(&self, ty: u64) -> (r: bool)
        ensures
            r == has_type(self@, ty as int),
    {
        let n = self.entries.len();
        let mut i: usize = 0;
        while i < n
            invariant
                i <= n,
                n == self.entries@.len(),
                forall|j: int| 0 <= j < i ==> (#[trigger] self.entries@[j].ty) != ty,
            decreases n - i,
        {
            if self.entries[i].ty == ty {
                proof {
                    lemma_has_type_iff(self.entries@, ty as int);
                }
                return true;
            }
            i = i + 1;
        }
        proof {
            lemma_has_type_iff(self.entries@, ty as int);
        }
        false
    }

    /// Whether a binding is registered under the key, constructed or not.
    /// Never invokes a constructor.
    pub fn contains(&self, ty: u64, name: &str) -> (r: bool)
        ensures
            r == self@.dom().contains((ty as int, name@)),
    {
        let found = self.find(ty, name);
        proof {
            let k: Key = (ty as int, name@);
            match found {
                Some(i) => {
                    assert(crate::model::seq_has_key(self.entries@, k));
                },
                None => {
                    lemma_map_of_absent(self.entries@, k);
                },
            }
        }
        found.is_some()
    }

    /// All names registered under the type tag `ty`, in increasing
    /// lexicographic order, whether or not their values have been
    /// constructed. A tag with no bindings yields the empty vector. Never
    /// invokes a constructor.
    pub fn keys(&self, ty: u64) -> (r: Vec<String>)
        requires
            self.wf(),
        ensures
            registered_names(self@, ty as int, r@.map_values(|s: String| s@)),
    {
        let n = self.entries.len();
        let mut out: Vec<String> = Vec::new();
        let ghost mut src: Seq<int> = Seq::empty();
        let mut i: usize = 0;
        while i < n
            invariant
                i <= n,
                n == self.entries@.len(),
                entries_sorted(self.entries@),
                src.len() == out@.len(),
                forall|a: int|
                    0 <= a < src.len() ==> 0 <= #[trigger] src[a] < i && self.entries@[src[a]].ty
                        == ty && out@[a]@ == self.entries@[src[a]].name@,
                forall|j: int|
                    0 <= j < i && (#[trigger] self.entries@[j].ty) == ty ==> exists|a: int|
                        0 <= a < src.len() && #[trigger] src[a] == j,
                forall|a: int, b: int| 0 <= a < b < src.len() ==> #[trigger] src[a] < #[trigger] src[b],
            decreases n - i,
        {
            let ghost src0 = src;
            let e = &self.entries[i];
            if e.ty == ty {
                out.push(e.name.clone());
                proof {
                    src = src.push(i as int);
                    assert(out@[out@.len() - 1]@ == self.entries@[i as int].name@);
                    assert forall|j: int|
                        0 <= j < i + 1 && (#[trigger] self.entries@[j].ty) == ty implies exists|
                        a: int,
                    | 0 <= a < src.len() && #[trigger] src[a] == j by {
                        if j < i {
                            let a = choose|a: int| 0 <= a < src0.len() && #[trigger] src0[a] == j;
                            assert(src[a] == j);
                        } else {
                            assert(src[src.len() - 1] == j);
                        }
                    }
                }
            }
            i = i + 1;
        }
        proof {
            let m = self@;
            let names = out@.map_values(|s: String| s@);
            assert(names.len() == out@.len());
            assert forall|a: int| 0 <= a < names.len() implies m.dom().contains(
                (ty as int, #[trigger] names[a]),
            ) by {
                let j = src[a];
                assert(names[a] == out@[a]@);
                assert(entry_key(self.entries@[j]) == (ty as int, names[a]));
                assert(crate::model::seq_has_key(self.entries@, (ty as int, names[a])));
            }
            assert forall|k: Key| #[trigger] m.dom().contains(k) && k.0 == ty as int implies exists|
                a: int,
            | 0 <= a < names.len() && #[trigger] names[a] == k.1 by {
                let j = choose|j: int|
                    0 <= j < self.entries@.len() && entry_key(self.entries@[j]) == k;
                assert(self.entries@[j].ty == ty);
                let a = choose|a: int| 0 <= a < src.len() && #[trigger] src[a] == j;
                assert(names[a] == out@[a]@);
                assert(names[a] == k.1);
            }
            assert forall|a: int, b: int|
                0 <= a < b < names.len() implies lex_lt(names[a], names[b]) by {
                assert(crate::model::key_lt(
                    entry_key(self.entries@[src[a]]),
                    entry_key(self.entries@[src[b]]),
                ));
                assert(names[a] == out@[a]@);
                assert(names[b] == out@[b]@);
            }
        }
        out
    }
}

/// What the closed well-formedness and view of [`Context`] are, for the
/// module that seals a rule set into a container.
pub(crate) proof fn lemma_context_repr<V, C>(c: Context<V, C>)
    ensures
        c.wf() == entries_sorted(c.entries@),
        c@ == map_of(c.entries@),
{
}

impl<V: Duplicable, C: Constructor<V> + Clone> Context<V, C> {
    /// Resolve the key `(ty, name)` to a value.
    ///
    /// A binding already constructed answers from its cache, without running
    /// any constructor. A binding never requested before runs its
    /// constructor, caches the value it produces, and returns a duplicate;
    /// if the constructor fails, its error is passed through and the binding
    /// is left unconstructed. A key whose construction is already underway
    /// in this resolution chain fails with
    /// [`ResolutionError::CyclicDependency`], and a key with no binding
    /// fails with [`ResolutionError::UnknownType`] or
    /// [`ResolutionError::UnknownLabel`]; none of these failures changes the
    /// container.
    pub fn get(&mut self, ty: u64, name: &str) -> (r: Result<V, ResolutionError>)
        requires
            old(self).wf(),
        ensures
            final(self).wf(),
            evolves(old(self)@, final(self)@),
            resolution_post(old(self)@, ty as int, name@, final(self)@, r),
    {
        let ghost k: Key = (ty as int, name@);
        let ghost m0 = self@;
        let found = self.find(ty, name);
        let i = match found {
            None => {
                proof {
                    lemma_map_of_absent(self.entries@, k);
                }
                let has = self.probe_type(ty);
                if has {
                    return Err(ResolutionError::UnknownLabel);
                } else {
                    return Err(ResolutionError::UnknownType);
                }
            },
            Some(i) => i,
        };
        proof {
            lemma_sorted_distinct(self.entries@);
            lemma_map_of_index(self.entries@, i as int);
            assert(m0.dom().contains(k));
            assert(has_type(m0, ty as int));
            assert(m0[k] == entry_model(self.entries@[i as int]));
        }
        match &self.entries[i].slot {
            Slot::Ready(v) => {
                let out = v.dup();
                return Ok(out);
            },
            Slot::InProgress => {
                return Err(ResolutionError::CyclicDependency);
            },
            Slot::Empty => {},
        }
        // Mark the binding as under construction before running its
        // constructor, so that a re-entrant request for the same key is
        // caught instead of recursing forever.
        let ghost s0 = self.entries@;
        let mut e = self.entries.remove(i);
        let ctor = e.ctor.clone();
        e.slot = Slot::InProgress;
        self.entries.insert(i, e);
        proof {
            lemma_remove_insert_is_update(s0, i as int, self.entries@[i as int]);
            assert(self.entries@ == s0.update(i as int, self.entries@[i as int]));
            lemma_sorted_update_same_key(s0, i as int, self.entries@[i as int]);
            lemma_map_of_update(s0, i as int, self.entries@[i as int]);
            assert(self@ == m0.insert(
                k,
                BindingModel { ctor: m0[k].ctor, slot: Slot::InProgress },
            ));
            assert(self@.dom() =~= m0.dom());
        }
        let ghost m_marked = self@;
        let res = ctor.construct(self);
        let ghost m_built = self@;
        proof {
            assert(evolves(m_marked, m_built));
            assert(m_built.dom() == m_marked.dom());
            assert(m_built[k].slot is InProgress);
            assert(m_built[k].ctor == m0[k].ctor);
        }
        let found2 = self.find(ty, name);
        let i2 = match found2 {
            None => {
                proof {
                    lemma_map_of_absent(self.entries@, k);
                    assert(false);
                }
                vstd::pervasive::unreached()
            },
            Some(i2) => i2,
        };
        proof {
            lemma_sorted_distinct(self.entries@);
            lemma_map_of_index(self.entries@, i2 as int);
            assert(m_built[k] == entry_model(self.entries@[i2 as int]));
        }
        let ghost s1 = self.entries@;
        match res {
            Ok(v) => {
                let out = v.dup();
                let mut e2 = self.entries.remove(i2);
                e2.slot = Slot::Ready(v);
                self.entries.insert(i2, e2);
                proof {
                    lemma_remove_insert_is_update(s1, i2 as int, self.entries@[i2 as int]);
                    assert(self.entries@ == s1.update(i2 as int, self.entries@[i2 as int]));
                    lemma_sorted_update_same_key(s1, i2 as int, self.entries@[i2 as int]);
                    lemma_map_of_update(s1, i2 as int, self.entries@[i2 as int]);
                    assert(self@ == m_built.insert(
                        k,
                        BindingModel { ctor: m0[k].ctor, slot: Slot::Ready(v) },
                    ));
                    lemma_get_evolution(m0, m_marked, m_built, self@, k);
                }
                Ok(out)
            },
            Err(er) => {
                let mut e2 = self.entries.remove(i2);
                e2.slot = Slot::Empty;
                self.entries.insert(i2, e2);
                proof {
                    lemma_remove_insert_is_update(s1, i2 as int, self.entries@[i2 as int]);
                    assert(self.entries@ == s1.update(i2 as int, self.entries@[i2 as int]));
                    lemma_sorted_update_same_key(s1, i2 as int, self.entries@[i2 as int]);
                    lemma_map_of_update(s1, i2 as int, self.entries@[i2 as int]);
                    assert(self@ == m_built.insert(
                        k,
                        BindingModel { ctor: m0[k].ctor, slot: Slot::Empty },
                    ));
                    lemma_get_evolution(m0, m_marked, m_built, self@, k);
                }
                Err(er)
            },
        }
    }
}

/// The state changes of a completed `get` of key `k`, chained together,
/// evolve the container: the key went from `Empty` to `InProgress` to its
/// final slot, and every other binding only evolved under the constructor.
proof fn lemma_get_evolution<V, C>(
    m0: Map<Key, BindingModel<V, C>>,
    m_marked: Map<Key, BindingModel<V, C>>,
    m_built: Map<Key, BindingModel<V, C>>,
    m1: Map<Key, BindingModel<V, C>>,
    k: Key,
)
    requires
        m0.dom().contains(k),
        m0[k].slot is Empty,
        m_marked == m0.insert(k, (BindingModel { ctor: m0[k].ctor, slot: Slot::InProgress })),
        evolves(m_marked, m_built),
        m1.dom() == m_built.dom().insert(k),
        forall|k2: Key| k2 != k && #[trigger] m_built.dom().contains(k2) ==> m1[k2] == m_built[k2],
        m1[k].ctor == m0[k].ctor,
    ensures
        evolves(m0, m1),
{
    assert(m_marked.dom() =~= m0.dom());
    assert(m1.dom() =~= m0.dom());
    assert forall|k2: Key| #[trigger] m0.dom().contains(k2) implies {
        &&& m1[k2].ctor == m0[k2].ctor
        &&& (m0[k2].slot is Ready ==> m1[k2].slot == m0[k2].slot)
        &&& (m0[k2].slot is InProgress ==> m1[k2].slot == m0[k2].slot)
    } by {
        if k2 != k {
            assert(m_marked[k2] == m0[k2]);
            assert(m_marked.dom().contains(k2));
        }
    }
}

} // verus!
