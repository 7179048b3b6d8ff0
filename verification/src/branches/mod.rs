//! Coverage: what the targets report, and what is remembered of it.

pub mod boundary;
pub mod branch_type;
pub mod calibrate;
pub mod favor;
pub mod frontier;
pub mod global;
pub mod lookup;
pub mod notes;
pub mod paths;
pub mod registry;
pub mod tracker;
pub mod update;

pub use self::branch_type::BranchType;
pub use self::global::{GlobalBranches, MapSizeData};
pub use self::tracker::Branches;
