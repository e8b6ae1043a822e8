//! Splitting a relational-database dump into one file per table, and
//! replaying those files against a live database.
//!
//! A dump is a sequence of lines: a preamble, then one segment per table,
//! then a postamble. `scan` finds the preamble and the postamble, `split`
//! cuts the dump into one file per table, and `segments` and `directory`
//! state what that gives for dumps of a known shape and in the output
//! directory. `import` builds the invocation of the database client for one
//! file, `batches` groups the files, and `orchestrator` decides what an
//! import does next. Nothing here reads or writes a file or runs a program:
//! the caller does, and hands over lines and events.

pub mod batches;
pub mod directory;
pub mod import;
pub mod markers;
pub mod orchestrator;
pub mod scan;
pub mod segments;
pub mod split;
pub mod text;
