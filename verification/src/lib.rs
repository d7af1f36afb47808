//! A runner for ordered exercises that are revealed one at a time.
//!
//! The exercises of a course lie in numbered directories, one numbered file
//! each. A marker, a text with one line for each exercise that has been
//! opened, tells how far the learner has come. One run tests the open
//! exercises in order, stops at the first that fails, and opens the next
//! exercise where all of them pass.
//!
//! - [`text`]: the order of names, and numbers in two digits;
//! - [`pattern`]: the search for a pattern in a name;
//! - [`koan`]: one exercise, read from the names of its directory and file;
//! - [`order`]: the order of the catalog, and sorting by it;
//! - [`catalog`]: all exercises of a listing, in order;
//! - [`progress`]: the marker and its records;
//! - [`collection`]: catalog and marker together;
//! - [`driver`]: a run, step by step;
//! - [`runs`]: whole runs, and what holds of all of them.
//!
//! Nothing here reads a directory, writes a file or starts a program: the
//! caller lists the directories, hands over the text of the marker, runs the
//! tests that the driver asks for, and writes what was added to the marker.

pub mod catalog;
pub mod collection;
pub mod driver;
pub mod koan;
pub mod order;
pub mod pattern;
pub mod progress;
pub mod runs;
pub mod text;

pub use collection::KoanCollection;
pub use koan::Koan;
