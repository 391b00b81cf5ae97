//! The bookkeeping of an arena allocator whose memory comes from a `memfd_secret`.

pub mod arena;
pub mod diagnostics;
pub mod error;
pub mod geometry;
pub mod heap;
pub mod holes;
pub mod laws;
pub mod ledger;
pub mod mapping;
pub mod model;
pub mod process;
pub mod promises;
pub mod request;

pub use arena::SecretArena;
pub use diagnostics::Diagnostics;
pub use error::MemfdSecretFailed;
pub use geometry::MapIndexForPot;
pub use mapping::Region;
pub use model::{Allocation, Expansion, Step, SystemCall};
pub use request::Request;
