//! A build/run library for GPU-kernel source trees.
//!
//! The library composes a final kernel source out of named source nodes
//! (inline code, files, generated code, recursively fetched packages),
//! resolves a layered variable environment used to parameterize the
//! composition, caches the composition by content digest, and models the
//! execution side: typed compute buffers and kernel-argument marshalling.

pub mod compose;
pub mod conf;
pub mod digest;
pub mod env;
pub mod expr;
pub mod gpu;
pub mod jobs;
pub mod error;
pub mod maps;
pub mod parse;
pub mod strutil;
pub mod utils;
pub mod value;
