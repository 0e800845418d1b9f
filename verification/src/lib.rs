//! A data-driven test runner: specification files in YAML are read into a
//! tree of slabs, the leaves to run are selected by their flags, and each
//! leaf is run once for every point of the product of its data matrix.
pub mod file;
pub mod flag;
pub mod focustree;
pub mod multistringmap;
pub mod nodule;
pub mod runner;
pub mod text;
pub mod tree;
pub mod writable;
pub mod yaml;

pub use focustree::{Flag, FlagStat, Shaped, Tree};
pub use multistringmap::{Dict, MultiStringMap, MultiStringMapProductIterator};
pub use runner::{ioless_run, FailStatus, RunError};
pub use writable::Writable;
