//! Lily: a verified local version-control engine.
//!
//! The library models a repository ("garden") as an explicit value: branches,
//! commits, staged paths and snapshot objects are all plain data, and every
//! operation on them is specified and checked. Compression, archiving,
//! hashing and glob matching are performed by outside crates behind small
//! trusted boundaries; everything that decides or computes is verified.

pub mod auth;
pub mod codec;
pub mod config;
pub mod docs;
pub mod garden;
pub mod model;
pub mod pack;
pub mod patch;
pub mod registry;
pub mod render;
pub mod repos;
pub mod script;
pub mod services;
pub mod slime;
pub mod smap;
pub mod stage;
pub mod util;
pub mod text;
