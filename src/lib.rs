//! An in-memory asset registry: values live behind cheap identity handles,
//! mutations are tracked for write-back, file changes trigger reloads, and a
//! derived form of each asset is computed lazily and dropped whenever its
//! source changes.
pub mod handle;
pub mod shared;
pub mod assets;
pub mod laws;
