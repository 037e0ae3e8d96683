//! Verified core of a local-file search client that keeps a remote
//! content index in step with a watched directory tree.
//!
//! - [`ignore_rules`]: gitignore-style filtering with ancestor-directory
//!   pruning and an unconditional exclusion of version-control metadata;
//! - [`scanner`]: the decisions of the one-time recursive scan;
//! - [`events`]: which raw filesystem events feed the pipeline, and in
//!   what root-relative form;
//! - [`debounce`]: the per-path pending table that coalesces bursts of
//!   changes, with the single-path model of its timing laws;
//! - [`upload`]: content fingerprinting and the upload record;
//! - [`index`]: the document bookkeeping of the index that uploads feed;
//! - [`paths`], [`kvmap`], [`config`]: path normalization, the keyed
//!   table both state holders share, and the session configuration.
//!
//! The OS event subscription, file and network I/O, clocks and locks
//! live with the callers; everything here is a function of the values
//! they pass in.

pub mod config;
pub mod debounce;
pub mod events;
pub mod ignore_rules;
pub mod index;
pub mod kvmap;
pub mod paths;
pub mod scanner;
mod strutil;
pub mod upload;
