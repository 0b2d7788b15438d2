//! An in-process publish/subscribe registry.
//!
//! Callers register callbacks ("listeners") under an event key and later
//! dispatch a payload to every listener registered for that key.  Each
//! registration is handed a unique, strictly increasing identifier, by which
//! the listener can be removed again.
//!
//! The registry is modelled by [`EmitterView`]: a counter for the next
//! identifier and a map from the key's abstract value to the sequence of
//! identifiers registered under it, in registration order.  The contracts of
//! [`EventEmitter`] pin each operation down against that model, and the
//! lemmas in [`laws`] state the properties that follow from them.

mod callback;
mod emitter;
pub mod laws;
mod model;

pub use callback::Listener;
pub use emitter::Error;
pub use emitter::EventEmitter;
pub use model::EmitterView;
pub use model::eq_decides_view;
