//! Font browsing logic: reading the font catalogue that `fc-list` prints,
//! grouping it into families, filtering and navigating the family list,
//! and the selection state of the font viewer.

pub mod text;
pub mod pages;
pub mod viewer;
