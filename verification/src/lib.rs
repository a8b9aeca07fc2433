//! Per-adapter graphics usage: adapter identities, grouping of usage samples
//! by physical device, and the bounded enumeration that feeds them.

pub mod gpu;
pub mod luid;
pub mod scan;
pub mod usage;
