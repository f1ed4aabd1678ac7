//! Core of a declarative orchestrator for versioned deployable units
//! ("charts") described by one configuration document: dependency ordering,
//! idempotent synchronisation, and non-destructive edits of the document text.
pub mod config;
pub mod dag;
pub mod deploy;
pub mod encryption;
pub mod engine;
pub mod filter;
pub mod lock;
pub mod source;
pub mod text;
pub mod updater;
pub mod versions;
