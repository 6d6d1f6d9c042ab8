//! Synchronisation engine for a package repository mirror.
//!
//! A mirror keeps, for every logical package that the newest release of a
//! remote repository publishes, the newest build in a local repository
//! directory. This crate holds the decisions of one synchronisation cycle
//! and leaves everything that touches the outside to its caller:
//!
//! - [`name`] decodes the logical name of a package from the name of an
//!   artifact file, and picks the package files out of a directory listing;
//! - [`version`] reads what the version comparison utility printed;
//! - [`reduce`] collapses a list of artifacts to one artifact for each
//!   logical name, asking for a comparison wherever two artifacts share one;
//! - [`listing`] reads the names of the assets of the newest release out of
//!   the release listing;
//! - [`layout`] names the files of the repository directory and the
//!   addresses of the hosting service;
//! - [`cycle`] is the cycle itself, a machine that hands out one action at
//!   a time and takes in what came of it;
//! - [`plan`] says what a cycle changes, as a function of what it finds, and
//!   proves that a second cycle finds nothing left to change;
//! - [`drive`] proves that the machine, driven without a fault, performs
//!   exactly that plan.

pub mod cycle;
pub mod drive;
pub mod error;
pub mod layout;
pub mod listing;
pub mod name;
pub mod plan;
pub mod reduce;
pub mod text;
pub mod version;
