//! Audits localization usage: dictionaries of translated strings, a scanner
//! that finds key references in source lines, and the reconciliation of both.

pub mod interactive;
pub mod keys;
pub mod reconcile;
pub mod text;
pub mod translation_file;
pub mod ts_file;
