//! Container Device Interface: qualified device names, container edits,
//! specification validation and the device cache.
pub mod chars;
pub mod parser;
pub mod specs;
pub mod container_edits;
pub mod annotations;
pub mod version;
pub mod k8s;
pub mod spec;
pub mod runtime;
pub mod textorder;
pub mod cache;
pub mod format;
pub mod validations;
pub mod spec_dirs;
pub mod registry;
