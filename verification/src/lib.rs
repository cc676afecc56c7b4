//! A caller-scoped, in-memory record store.
//!
//! Every stored record is partitioned by the identity of the party that
//! wrote it.  Two store variants exist: an open profile book, where each
//! owner keeps a growable list of profiles and a global name index maps a
//! profile name to the identity that last registered it, and an
//! authenticated key/value store, where mutation is gated by an
//! authorization guard over an allow-list of identities.

pub mod assoc;
pub mod caller;
pub mod kv;
pub mod profile;
pub mod text;
