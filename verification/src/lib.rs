//! Dependency resolution and lock-file model of the `jx` Java package manager.
//!
//! The heart of the crate is the coordinate model ([`dependency`]), the
//! metadata source ([`metadata`]), the resolver with its transitive
//! expansion, cycle detection, conflict detection and ordering
//! ([`resolve`]), and the lock store ([`lock`]). Around it stand the readers
//! and editors of configuration text ([`adapter`], [`editor`], [`facts`],
//! [`project`]) and small helpers of the commands.
//!
//! Every function is verified against the contract written on it. The few
//! functions that call code outside the crate say so in their comment: of
//! those, the contract is taken on trust.

pub mod adapter;
pub mod config;
pub mod dependency;
pub mod download;
pub mod editor;
pub mod facts;
pub mod graph;
pub mod info;
pub mod install;
pub mod lock;
pub mod metadata;
pub mod project;
pub mod registry;
pub mod resolve;
pub mod search;
pub mod text;
pub mod venv;
