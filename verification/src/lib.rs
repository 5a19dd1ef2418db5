//! Flint: an embedded, persistent rate limiter.
//!
//! The library holds the limiter's logic: duration parsing, the three
//! rate-limiting algorithms, the event-sourced limiter state and its replay,
//! the integrity checks of the append-only log and of the snapshot, and the
//! small decisions of the command-line and HTTP front ends. Files, locks,
//! clocks, JSON encoding and the network stay with the caller.

pub mod algo;
pub mod canon;
pub mod decide;
pub mod error;
pub mod front;
pub mod integrity;
pub mod json;
pub mod keymap;
pub mod laws;
pub mod parse;
pub mod queries;
pub mod replay;
pub mod state;
pub mod text;
pub mod types;

pub use error::FlintError;
pub use parse::{duration_in_range, parse_duration, parse_duration_millis};
pub use algo::KeyRecord;
pub use decide::{configure, validate_cost, validate_cost_for_config, validate_multi_items};
pub use front::{
    authorize, check_server_start, default_algorithm, default_cost, error_status,
    is_value_error, multi_items_from_cli, parse_u64, CliError, IntErrorKind, ServerStartError,
};
pub use integrity::{
    check_snapshot_envelope, check_snapshot_version, constant_time_eq, hex_sha256,
    snapshot_string_checksum, verify_entry_checksum, verify_snapshot_checksum,
    LOG_FORMAT_VERSION, SNAPSHOT_FORMAT_VERSION,
};
pub use canon::{canonical_value, canonicalize_json};
pub use json::{
    looks_like_snapshot_envelope, parse_multi_item, parse_multi_items, JsonNumber, JsonValue,
};
pub use replay::{replay_lines, LineParse, LogLine};
pub use state::State;
pub use types::{
    Algorithm, BucketState, CheckResult, DoctorReport, Event, FixedWindowState, LimitConfig,
    LimitMetrics, LimitSummary, MultiCheckItem, MultiCheckResult, TopBy, TopEntry, WireError,
};
