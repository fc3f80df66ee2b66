//! Asset discovery and stylesheet extraction for an icon report: a
//! filtered directory scan that groups image files into per-project
//! collections, a two-phase locator for one or two auxiliary icon-font
//! stylesheets, and a line-oriented stylesheet parser that rewrites
//! embedded relative asset references to absolute paths and harvests icon
//! class names.
//!
//! All path and stylesheet text is handled as UTF-8 bytes; the surrounding
//! program does the I/O (walking the tree, testing existence, reading
//! files) and hands plain values in.

pub mod cli;
pub mod css;
pub mod locate;
pub mod paths;
pub mod scan;
pub mod sort;
pub mod text;
