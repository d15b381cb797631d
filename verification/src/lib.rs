//! A lazy, memoizing dependency-resolution container.
//!
//! A [`Rules`] value accumulates construction rules, each keyed by a pair of
//! a runtime type tag and a name; names are scoped per type tag, and the
//! empty name is an ordinary default identity. Sealing the rules with
//! [`Rules::commit`] produces a [`Context`], which resolves keys on demand:
//! the first `get` for a key runs the registered [`Constructor`], caches the
//! produced value, and every later `get` returns a duplicate of the cached
//! value without running the constructor again. A constructor may itself
//! call `get` on the same context to pull its own dependencies; a request
//! for a key whose construction is already underway in the same resolution
//! chain is reported as a cyclic dependency instead of recursing forever.
//!
//! Misconfiguration is reported through [`ResolutionError`]: a type tag with
//! no bindings, a missing name under a known type tag, and re-entrant
//! construction each have their own variant. Sealing performs no
//! validation: a rule whose constructor could never succeed is harmless
//! until the first `get` that actually needs it.
//!
//! The container's behaviour is specified against a mathematical model — a
//! map from keys to bindings, each binding a constructor and a cache
//! [`Slot`] — and the laws the model obeys (memoization, laziness of
//! registration, name scoping, error taxonomy, cycle detection, iteration
//! without construction) are stated and proved as the `lemma_` functions of
//! this crate.

mod laws;
mod model;
mod order;
mod resolver;
mod rules;

pub use laws::lemma_memoization;
pub use laws::lemma_missing_label;
pub use laws::lemma_missing_type;
pub use laws::lemma_name_scoping;
pub use laws::lemma_names_ignore_slots;
pub use laws::lemma_reentry_fails;
pub use laws::lemma_registration_isolated;
pub use model::BindingModel;
pub use model::Key;
pub use model::ResolutionError;
pub use model::Slot;
pub use model::evolves;
pub use model::has_type;
pub use model::key_lt;
pub use model::registered_names;
pub use model::resolution_post;
pub use order::lex_lt;
pub use resolver::Constructor;
pub use resolver::Context;
pub use resolver::Duplicable;
pub use rules::Rules;
