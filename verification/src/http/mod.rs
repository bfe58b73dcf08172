//! The fixed vocabulary of the protocol: methods and statuses.

pub mod method;
pub mod status;
