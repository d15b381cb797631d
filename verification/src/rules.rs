//! The build-time accumulator of construction rules.
//!
//! A [`Rules`] value collects `(type tag, name) -> constructor` bindings.
//! Registering a binding is pure bookkeeping: no constructor runs, no
//! validation of the dependency graph happens, and registering under an
//! already-taken key replaces the previous rule. [`Rules::commit`] consumes
//! the accumulator and seals it into a [`Context`], after which the rule set
//! can never change.

use vstd::prelude::*;

use crate::model::BindingModel;
use crate::model::Entry;
use crate::model::Key;
use crate::model::Slot;
use crate::model::entries_sorted;
use crate::model::entry_key;
use crate::model::key_lt;
use crate::model::lemma_key_lt_irreflexive;
use crate::model::lemma_key_lt_transitive;
use crate::model::lemma_map_of_insert;
use crate::model::lemma_map_of_update;
use crate::model::lemma_remove_insert_is_update;
use crate::model::lemma_sorted_distinct;
use crate::model::lemma_sorted_update_same_key;
use crate::model::map_of;
use crate::order::Cmp;
use crate::order::str_compare;
use crate::resolver::Context;
use crate::resolver::lemma_context_repr;

verus! {

/// Compare two keys, type tag first, then name.
fn key_compare(a_ty: u64, a_name: &str, b_ty: u64, b_name: &str) -> (o: Cmp)
    ensures
        (o is Less) == key_lt((a_ty as int, a_name@), (b_ty as int, b_name@)),
        (o is Equal) == ((a_ty as int, a_name@) == (b_ty as int, b_name@)),
        (o is Greater) == key_lt((b_ty as int, b_name@), (a_ty as int, a_name@)),
{
    if a_ty < b_ty {
        Cmp::Less
    } else if b_ty < a_ty {
        Cmp::Greater
    } else {
        str_compare(a_name, b_name)
    }
}

/// The mutable registry of construction rules, consumed by [`Rules::commit`].
pub struct Rules<V, C> {
    entries: Vec<Entry<V, C>>,
}

impl<V, C> View for Rules<V, C> {
    type V = Map<Key, BindingModel<V, C>>;

    closed spec fn view(&self) -> Map<Key, BindingModel<V, C>> {
        map_of(self.entries@)
    }
}

impl<V, C> Rules<V, C> {
    /// The registry's internal order is intact.
    pub closed spec fn wf(self) -> bool {
        entries_sorted(self.entries@)
    }

    /// An empty rule set.
    pub fn new() -> (r: Rules<V, C>)
        ensures
            r.wf(),
            r@ == Map::<Key, BindingModel<V, C>>::empty(),
    {
        let r = Rules { entries: Vec::new() };
        proof {
            assert(r@ =~= Map::<Key, BindingModel<V, C>>::empty());
        }
        r
    }

    /// Where the key `(ty, name)` stands, or would stand, among the entries:
    /// the first position whose key is not below it, and whether that
    /// position already carries it.
    fn position_of(&self, ty: u64, name: &str) -> (p: (usize, bool))
        ensures
            p.0 <= self.entries@.len(),
            forall|j: int|
                0 <= j < p.0 ==> key_lt(#[trigger] entry_key(self.entries@[j]), (ty as int, name@)),
            p.1 ==> p.0 < self.entries@.len() && entry_key(self.entries@[p.0 as int]) == (
            ty as int,
            name@,
            ),
            !p.1 ==> p.0 == self.entries@.len() || key_lt(
                (ty as int, name@),
                entry_key(self.entries@[p.0 as int]),
            ),
    {
        let n = self.entries.len();
        let mut i: usize = 0;
        while i < n
            invariant
                i <= n,
                n == self.entries@.len(),
                forall|j: int|
                    0 <= j < i ==> key_lt(
                        #[trigger] entry_key(self.entries@[j]),
                        (ty as int, name@),
                    ),
            decreases n - i,
        {
            let e = &self.entries[i];
            let c = key_compare(e.ty, e.name.as_str(), ty, name);
            match c {
                Cmp::Less => {
                    i = i + 1;
                },
                Cmp::Equal => {
                    return (i, true);
                },
                Cmp::Greater => {
                    return (i, false);
                },
            }
        }
        (i, false)
    }

    /// Register the constructor for the key `(ty, name)`, replacing any rule
    /// already registered under that key. The new binding starts
    /// unconstructed: nothing is validated and no constructor runs until the
    /// key is first requested from the sealed container.
    pub fn add(&mut self, ty: u64, name: String, ctor: C)
        requires
            old(self).wf(),
        ensures
            final(self).wf(),
            final(self)@ == old(self)@.insert(
                (ty as int, name@),
                (BindingModel { ctor: ctor, slot: Slot::Empty }),
            ),
    {
        let ghost k: Key = (ty as int, name@);
        let ghost s0 = self.entries@;
        let (i, found) = self.position_of(ty, name.as_str());
        if found {
            let _ = self.entries.remove(i);
            self.entries.insert(i, Entry { ty, name, ctor, slot: Slot::Empty });
            proof {
                lemma_remove_insert_is_update(s0, i as int, self.entries@[i as int]);
                assert(self.entries@ == s0.update(i as int, self.entries@[i as int]));
                lemma_sorted_update_same_key(s0, i as int, self.entries@[i as int]);
                lemma_sorted_distinct(s0);
                lemma_map_of_update(s0, i as int, self.entries@[i as int]);
            }
        } else {
            proof {
                lemma_sorted_distinct(s0);
                assert forall|j: int| 0 <= j < s0.len() implies #[trigger] entry_key(s0[j])
                    != k by {
                    if j < i {
                        assert(key_lt(entry_key(s0[j]), k));
                        lemma_key_lt_irreflexive(k);
                    } else {
                        assert(key_lt(k, entry_key(s0[i as int])));
                        if j > i {
                            assert(key_lt(entry_key(s0[i as int]), entry_key(s0[j])));
                            lemma_key_lt_transitive(k, entry_key(s0[i as int]), entry_key(s0[j]));
                        }
                        lemma_key_lt_irreflexive(k);
                    }
                }
            }
            self.entries.insert(i, Entry { ty, name, ctor, slot: Slot::Empty });
            proof {
                let s2 = self.entries@;
                let e = s2[i as int];
                s0.insert_ensures(i as int, e);
                assert(entry_key(e) == k);
                assert forall|j1: int, j2: int|
                    0 <= j1 < j2 < s2.len() implies #[trigger] key_lt(
                    entry_key(s2[j1]),
                    entry_key(s2[j2]),
                ) by {
                    let o1 = if j1 < i { j1 } else { j1 - 1 };
                    let o2 = if j2 < i { j2 } else { j2 - 1 };
                    if j1 == i {
                        // The entry at j2 came from position o2 >= i.
                        assert(s2[j2] == s0[o2]);
                        assert(key_lt(k, entry_key(s0[i as int])));
                        if o2 > i {
                            assert(key_lt(entry_key(s0[i as int]), entry_key(s0[o2])));
                            lemma_key_lt_transitive(k, entry_key(s0[i as int]), entry_key(s0[o2]));
                        }
                    } else if j2 == i {
                        assert(s2[j1] == s0[o1]);
                        assert(key_lt(entry_key(s0[o1]), k));
                    } else {
                        assert(s2[j1] == s0[o1]);
                        assert(s2[j2] == s0[o2]);
                        assert(key_lt(entry_key(s0[o1]), entry_key(s0[o2])));
                    }
                }
                lemma_map_of_insert(s0, i as int, e);
            }
        }
    }

    /// Seal the rule set: consume the registry and hand the very same
    /// bindings, none of them constructed yet, to a [`Context`]. No
    /// validation happens here; a rule that could never be satisfied
    /// surfaces only when the key is first requested.
    pub fn commit(self) -> (r: Context<V, C>)
        requires
            self.wf(),
        ensures
            r.wf(),
            r@ == self@,
    {
        let r = Context { entries: self.entries };
        proof {
            lemma_context_repr(r);
        }
        r
    }
}

} // verus!
