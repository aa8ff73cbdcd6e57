//! The execution core of a multi-linter runner: select the files a tool's
//! include and exclude globs admit from a directory tree, run the tool over
//! them in as many invocations as the platform's command-line length budget
//! requires, detect files the tool silently rewrote, and compile
//! percent-directive formats into matchers that turn the tool's raw output
//! into structured diagnostics.
//!
//! What each function computes is stated in its contract and verified; calls
//! into the surrounding crates (glob matching and tree walking, budgeted
//! process spawning, digests, compiled regular expressions) stand behind
//! trusted declarations whose contracts name exactly what is relied on.

pub mod config;
pub mod detect;
pub mod exec;
pub mod linter;
pub mod parser;
pub mod patterns;
pub mod strutil;
pub mod walker;
