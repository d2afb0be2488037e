//! Inspection and read-modify-write editing of HID Feature Reports.
//!
//! The library works on a report layout given as plain values (bit ranges,
//! logical ranges, report ID) and on raw report bytes: it locates and decodes
//! each field, sizes device transfers, and merges a partial byte patch onto
//! fetched bytes.

pub mod decode;
pub mod devices;
pub mod layout;
pub mod patch;
pub mod rows;
pub mod select;
pub mod text;
