//! Icon-theme discovery and preview resolution for a desktop appearance page.
//!
//! The library scans icon-theme search roots for theme manifests, extracts
//! each theme's display name and inheritance chain, deduplicates themes by
//! display name, and resolves a fixed set of preview icons per theme while
//! validating that every resolved icon really originates from the theme's own
//! directory or one of its inherited directories.
//!
//! All filesystem and environment access stays with the caller: the caller
//! reads directories, manifest lines and icon-lookup results and hands them to
//! this crate as plain values, so that every decision made here is verified.

pub mod discovery;
pub mod manifest;
pub mod preview;
pub mod roots;
pub mod text;
pub mod theme;
