//! A live index for an incremental build cache: it tracks, for each build
//! result (identified by a content hash), the glob patterns the result still
//! depends on, and retires those associations as filesystem change batches
//! arrive, so that cache-validity queries become cheap lookups.


pub mod client;
pub mod kvlist;
pub mod matcher;
pub mod model;
pub mod paths;
pub mod strset;
pub mod watcher;

pub use client::CachingStatus;
pub use client::Membership;
pub use client::Team;
pub use client::TeamsResponse;
pub use client::User;
pub use client::UserResponse;
pub use strset::StrSet;
pub use watcher::Glob;
pub use watcher::HashGlobWatcher;
pub use watcher::SessionError;


