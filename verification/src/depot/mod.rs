//! Seed store and scheduling.

pub mod branch_priority;
pub mod depot_dir;
pub mod favor_queue;
pub mod queue;
pub mod seed_info;
pub mod store;
pub mod sync;

pub use self::branch_priority::BranchPriority;
pub use self::depot_dir::DepotDir;
pub use self::favor_queue::FavorQueue;
pub use self::seed_info::SeedInfo;
pub use self::store::Depot;
pub use self::sync::{clip_seed, sync_depot};
