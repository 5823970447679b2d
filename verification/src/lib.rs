//! The linear-scan floor: the scan that every PIR query is divided by, the
//! buffer it is measured over, and the pure parts of the harness around it.

pub mod scan;
pub mod buffer;
pub mod stats;
pub mod text;
pub mod host;
pub mod sweep;
pub mod report;
pub mod json;
