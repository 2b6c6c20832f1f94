//! Statistics over load-test request samples: grouping by endpoint,
//! nearest-rank percentiles, the measurement window and error counts.

pub mod aggregate;
pub mod percentile;
pub mod record;
pub mod window;

pub use aggregate::{aggregate, mean_floor, summarize_endpoint, EndpointSummary, GlobalSummary, Report};
pub use percentile::{get_percentile, percentile};
pub use record::{is_error, validate_records, Instant, RecordField, ReportError, Stats};
pub use window::window_seconds;
