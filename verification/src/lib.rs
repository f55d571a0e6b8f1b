//! A cache of compiled stylesheets.
//!
//! One pass finds the candidate files under a source root, keeps those that
//! are compiled directly, runs each through the stylesheet engine, and caches
//! what compiled under a flat key derived from the file's path:
//!
//! * [`root`] resolves the source root and names its ignore-file;
//! * [`discovery`] lists the candidates, through the ignore-file or by a walk;
//! * [`tree`] says what a walk over a directory tree finds;
//! * [`eligibility`] decides which candidates are compiled;
//! * [`engine`] holds the engine and its settings;
//! * [`key`] derives the cache key of a file;
//! * [`cache`] is the store of compiled stylesheets;
//! * [`pass`] runs a pass and says what it leaves in the cache.
//!
//! The library reads no directory itself, except through the ignore-file, and
//! writes no log: it asks for directories to be read and reports the files
//! that did not compile, and leaves both to its caller.

pub mod cache;
pub mod discovery;
pub mod eligibility;
pub mod engine;
pub mod key;
pub mod pass;
pub mod root;
pub mod text;
pub mod tree;

pub use cache::StyleCache;
pub use discovery::{discover, plan_discovery, Discovery, Entry, Walk};
pub use eligibility::{eligible_files, is_eligible};
pub use key::normalize_key;
pub use pass::{assemble, compile, Failure, Pass};
pub use root::{fallback_root, ignore_file_path, resolve_root};
