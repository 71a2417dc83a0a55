//! Core of a small template-editor utility: an ordered, reorderable list of
//! text snippets with stable session-local identifiers, persisted to a JSON
//! document.
//!
//! - [`store`] owns the ordered collection and its identity invariants;
//! - [`codec`] converts between the texts and the persisted document, with a
//!   proved round-trip law and a tolerant decoder;
//! - [`gateway`] fixes what is loaded from whatever the file held and what
//!   is written back;
//! - [`paths`] and [`shell`] resolve the storage location and hold the state
//!   the window drives.
//!
//! Rendering and the filesystem sit outside this verified core; they
//! exchange plain values with it.

pub mod codec;
pub mod gateway;
pub mod paths;
pub mod shell;
pub mod store;
