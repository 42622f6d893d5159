//! Discovery of the live hosts of a local IPv4 subnet by address resolution,
//! and the reconciliation of what was found with a label inventory and a
//! static hostname-mapping file.

pub mod address;
pub mod text;
pub mod registry;
pub mod labels;
pub mod hosts_file;
pub mod frame;
pub mod scan;
pub mod report;
