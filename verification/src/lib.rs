//! Enumerates the entries under a directory: an ignore pattern prunes whole
//! subtrees while walking, a match pattern and a limit select what is shown,
//! and each surviving entry is rendered as a path.

pub mod channel;
pub mod cli;
pub mod entry;
pub mod laws;
pub mod pattern;
pub mod rmate;
pub mod text;
pub mod walk;
