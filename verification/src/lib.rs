//! An interactive picker for local git branches.
//!
//! The library is the verified core of the picker: it parses the
//! pipe-delimited ref listing produced by the version-control tool,
//! attaches pull-request numbers from an optional PR-listing tool,
//! orders the records by commit recency with a stable sort, and drives
//! the cursor/selection state machine that a terminal front end renders.

pub mod epoch;
pub mod listing;
pub mod model;
pub mod parse;
pub mod prs;
pub mod record;
pub mod sort;

pub use listing::build_listing;
pub use model::App;
pub use model::InputEvent;
pub use prs::pr_pairs_from_json;
pub use record::BranchRecord;
pub use record::RecordView;
