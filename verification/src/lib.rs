//! The planning core of a static site generator.
//!
//! A site is made from a source directory: page templates are rendered,
//! everything else is copied, and the result lands in `dist` inside the
//! source directory with the same layout. This library decides what is to be
//! done and leaves the doing to its caller. It never touches the disk.
//!
//! The caller lists the source directory as a tree of [`classify::Entry`]
//! values and hands it to [`site::generate_site`], which sorts the entries
//! into pages, files and directories ([`classify`]) by the rules of
//! [`names`]. For each of them, [`materialize::plan_entry`] gives the steps
//! that bring it to its place in the output, which [`mapping`] computes:
//! first the directories from the output directory down to that place, then
//! the copy or the write. Pages are rendered by the template engine, reached
//! through [`engine`].
//!
//! Paths are sequences of names ([`path`]); contracts speak of them, and of
//! every other value, through views made of `Seq`.

pub mod classify;
pub mod engine;
pub mod error;
pub mod mapping;
pub mod materialize;
pub mod names;
pub mod path;
pub mod site;
