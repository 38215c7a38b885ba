//! Persistence and consistency core of a hierarchical note-taking tool.
//!
//! The crate keeps an in-memory graph of short text notes with ordered,
//! duplicate-tolerant parent/child links, renders that graph into a
//! date-bucketed, content-addressed object tree, and migrates on-disk
//! layouts through an ordered chain of version handlers.

pub mod data;
pub mod ids;
pub mod json;
pub mod repo;
pub mod shell;
pub mod store;
pub mod text;


