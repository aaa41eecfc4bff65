//! Hierarchical path sets: a compressed representation of sets of absolute
//! filesystem paths in which a directory entry stands for its whole subtree,
//! with union, strict and relaxed difference, sorted listing, and an
//! evaluator that folds signed terms into one set.
//!
//! Beside the path sets live the smaller pieces of the boot tooling that the
//! image tool ships with: the kernel command line rewrite and argument
//! reading for kexec, an argument lexer, shell completion, the boot
//! manager's request logic, and the package database's bookkeeping.

pub mod order;
pub mod filename;
pub mod path_set;
pub mod laws;
pub mod expression;
pub mod query;

pub mod aggregate;
pub mod args;
pub mod boot_manager;
pub mod completion;
pub mod kexec;
pub mod package_database;

pub use expression::{EvaluateOptions, FilenamesProducer, Sign, Term};
pub use filename::Filename;
pub use path_set::{
    ErrorKind, FilenameSet, FilenamesIter, LeafKind, PathClassifier, PathSetError, SubtractPolicy,
};
pub use query::{
    query_filenames, BackupModule, Cli, Commands, QueryArgs, QueryModule, QueryModuleOutput,
};
