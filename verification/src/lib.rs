//! A sparse change-set for heterogeneous component values.
//!
//! A [`changes::ChangeSet`] records, per component-type descriptor, either a
//! new value or an explicit removal.  It is produced by a [`changes::Builder`]
//! and can be carried over the wire in two independent forms: a compact binary
//! protocol form ([`wire`]) and a human-readable keyed-map form
//! ([`string_form`]).

pub mod changes;
pub mod identifier;
pub mod registry;
pub mod string_form;
pub mod varint;
pub mod wire;
