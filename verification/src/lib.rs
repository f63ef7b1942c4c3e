//! Build-configuration flag handling for a native simulation library.
//!
//! The heart of this crate is a small text-processing engine that parses
//! compiler/linker flag strings (`-D`, `-I`, `-L`, `-l`) out of a
//! Makefile-like configuration format, classifies them, rewrites relative
//! paths to absolute ones, and re-serializes them for two different
//! consumers (a linker invocation and a preprocessor argument list).

pub mod config;
pub mod flags;
pub mod options;
pub mod probe;
pub mod text;
