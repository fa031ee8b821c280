//! Merging of timestamped log files into one chronologically ordered,
//! scrollable stream.
//!
//! Every file is indexed once by the byte offsets of its lines, every line is
//! reduced to a small record of its instant and position, the records of all
//! files are merged by instant, and a bounded window over the merged records
//! is materialised on demand.
//!
//! - [`timestamp`] reads the instant from the start of a line.
//! - [`text`] holds a file with the index of its lines, and [`lines`] says
//!   what the lines of a text are.
//! - [`mergeline`] merges records by instant.
//! - [`app`] is the viewer: the list of files, the window over the merged
//!   lines, and the commands that move it. [`model`] says of each command what
//!   it makes of the viewer.
//! - [`listing`], [`severity`] and [`popup`] decide what the screen shows of a
//!   file and of a line, and where it shows a dialog.
//! - [`scan`], [`utf8`] and [`decimal`] serve the others.

pub mod app;
pub mod decimal;
pub mod lines;
pub mod listing;
pub mod mergeline;
pub mod model;
pub mod popup;
pub mod scan;
pub mod scrolling;
pub mod severity;
pub mod text;
pub mod timestamp;
pub mod utf8;
