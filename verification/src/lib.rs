//! Parsed unified diffs of the changes a commit will contain, and the
//! bookkeeping of their review: context around hunks, the file tree beside
//! the files, comment anchors and syntax highlights.

pub mod chars;
pub mod command;
pub mod decision;
pub mod diff;
pub mod diff_view;
pub mod lines;
pub mod marked;
pub mod panels;
pub mod scope;
pub mod review;
pub mod syntax;
pub mod text_area;
pub mod theme;
pub mod widgets;
