//! Package-download metrics: the synchronization and persistence engine
//! for public registry download statistics.
//!
//! Two registry adapters report a package's daily download series as
//! plain (date, count) points; [`sync`] applies the inclusive lookback
//! window (ending yesterday, the freshest complete day) and upserts each
//! accepted point into the canonical time-series [`store`], keyed by
//! (date, package, registry, version), so re-running a sync never
//! duplicates or doubles rows. [`mappings`] materializes the declarative
//! repo-to-package configuration by full replacement; [`goals`] keeps
//! metric targets and merges configuration loads per metric. [`strbytes`]
//! supplies the byte-level string equality and ordering the contracts are
//! stated over.

pub mod strbytes;
pub mod store;
pub mod sync;
pub mod goals;
pub mod mappings;
