//! Time-boxed contests over performance signals: entry aggregation, scoring,
//! ranking, winner selection and prize shares.

pub mod contest;
pub mod entry;
pub mod prizes;
pub mod ranking;
pub mod registry;

pub use contest::{Contest, ContestError, ContestMetric, ContestStatus};
pub use entry::{apply_submission, calculate_score, new_entry, ContestEntry};
pub use prizes::{distribute_prizes, prize_share, PrizeRecord};
pub use ranking::{get_qualified_entries, rank_entries, select_winners, top_entries, MAX_WINNERS};
pub use registry::ContestRegistry;
