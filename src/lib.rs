//! Border tracking for a spreadsheet grid: four sparse planes of edge styles,
//! update batches with exact undo, and the resolver that turns a border mode
//! over a range into rectangle assignments.
pub mod rect;
pub mod plane;
pub mod borders;
pub mod operations;
pub mod toggle;
pub mod laws;
