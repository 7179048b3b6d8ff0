//! Running the targets.

pub mod exam;
pub mod forksrv;
pub mod session;
