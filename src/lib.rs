//! Collects a rank-ordered census table page by page and renders it as text
//! ordered by score.

pub mod collector;
pub mod record;
pub mod finalizer;
pub mod report;
