//! Work-hour log: parsing a timestamp log into per-day records and rendering
//! totals and per-day calendar views.

pub mod cli;
pub mod render;
pub mod report;
pub mod stamp;
