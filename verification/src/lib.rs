//! The verified core of an automatic committer for git working trees: it
//! reads `git status --porcelain=v1 -z` output, classifies every changed
//! path, groups the changes into directory and per-file commits, derives
//! the commit messages, drives the steps that commit exactly a given set of
//! paths, and decides what a run amounts to.
pub mod commit;
pub mod components;
pub mod config;
pub mod error;
pub mod grouping;
pub mod paths;
pub mod status;
pub mod steps;
pub mod text;
pub mod types;
