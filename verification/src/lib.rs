//! A uniform outcome envelope for data-access and remote-call operations.
//!
//! Every fallible operation in a host service produces the same shaped
//! success/failure record, the envelope is turned into a wire-ready JSON
//! string at the boundary, and failing steps inside a database transaction
//! are rolled back before the failure envelope is produced.
pub mod guard;
pub mod json;
pub mod parse;
pub mod resp;

pub use guard::GuardFlow;
pub use guard::Rollback;
pub use guard::rollback;
pub use guard::rollback_for_no_match;
pub use json::JsonValue;
pub use resp::ApiResp;
pub use resp::DaoResult;
pub use resp::ErrorInfo;
pub use resp::OpError;
pub use resp::TransformResult;
