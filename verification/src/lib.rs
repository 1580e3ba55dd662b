//! Core logic of a browser music-catalog page: grouping raw directory
//! entries into songs, ordering them for display, mapping badge labels to
//! stable colors, and resolving URL hash fragments to a selected version.

pub mod badge;
pub mod model;
pub mod numeral;
pub mod order;
pub mod router;
pub mod text;
