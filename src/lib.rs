//! A bridge through which a dynamically typed scripting language holds references into
//! a host's live values: values owned by a wrapper, and values kept in a shared store
//! by (type, entity) key. A reference stores a root and a path, never an address, and
//! finds its target again on every access; borrows are counted at run time, so that
//! a conflicting access, a stale reference and an owner destroyed while borrowed are
//! all caught.
pub mod codegen;
pub mod handle;
pub mod host;
pub mod laws;
pub mod value;
pub mod wrapper;
