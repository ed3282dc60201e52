//! Selective execution, flaky-test scoring and build-cache rules for Gradle CI.

pub mod cache;
pub mod text;
pub mod paths;
pub mod lock;
pub mod affected;
pub mod digest;
pub mod patterns;
pub mod sync;
pub mod score;
pub mod db;
pub mod junit;
pub mod github;
pub mod meta;
pub mod config;
pub mod gitdiff;
pub mod web;
pub mod run;
pub mod pages;
