//! Issues as collaborative objects.
//!
//! An issue lives in a document that is not stored as such: what is stored
//! is a history of entries, each with a change of the document and the ids
//! of its causal parents. This library replays such a history into one
//! document, reads the document as an issue, makes the changes that create
//! an issue and add a comment, and draws the graph of the entries.
//!
//! - [`history`]: entries and their causal order; [`dag`]: the ordering of
//!   a graph given by numbers.
//! - [`change`]: changes and their transportable form.
//! - [`backend`]: the merged state of a document; [`frontend`]: the view on
//!   which a change is made; [`edit`]: what an edit does to a value tree.
//! - [`evaluate`]: the replay of a history.
//! - [`value`]: value trees; [`issue`]: their reading as issues.
//! - [`changegraph`]: the graph of a history and its text; [`text`]: the
//!   building of text.
//! - [`lifecycle`]: create, retrieve, comment, list, draw.
//! - [`crdt`]: the document engine that the merging itself is left to.

pub mod backend;
pub mod change;
pub mod changegraph;
pub mod crdt;
pub mod dag;
pub mod edit;
pub mod evaluate;
pub mod frontend;
pub mod history;
pub mod issue;
pub mod lifecycle;
pub mod text;
pub mod value;
