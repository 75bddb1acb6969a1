//! Recovery of lost page annotation lists in documents made of indirectly
//! referenced objects.
//!
//! A page whose annotation list was truncated is given back the first array
//! of references found in the document that strictly contains what the page
//! still lists.

pub mod model;
pub mod select;
pub mod repair;
pub mod pdf;
pub mod outcome;
pub mod laws;
