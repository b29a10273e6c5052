//! Layered JSON models: the deep merge of JSON values with null as a
//! deletion marker, and the location of same-named model files along a
//! directory hierarchy.
pub mod json;
pub mod locate;
pub mod merge;
