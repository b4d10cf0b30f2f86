//! Host/guest bridge for a script engine running inside a sandboxed unit:
//! the capability table exposed to scripts, the import object layout, the
//! memory-bridge arithmetic, the value codec, the initialization lifecycle and
//! the dispatch decisions.
pub mod capability;
pub mod codec;
pub mod dispatch;
pub mod imports;
pub mod lifecycle;
pub mod memory;
