//! Turns slash-separated path strings into a box-drawing tree listing, and
//! keeps an editable store of such paths in step with its rendered rows.
pub mod path;
pub mod node;
pub mod store;
pub mod session;
