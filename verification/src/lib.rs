//! Woodpecker: a logging library. Levels are set globally, per module path
//! and per ranges of lines of a file, looked up hierarchically, and read from
//! `env_logger`-style or JSON specs.

pub mod levels;
pub mod text;
pub mod line_range;
pub mod global;
pub mod json;
pub mod spec;
pub mod logger;
pub mod formatter;
pub mod handlers;
pub mod log_thread;
pub mod squash_order;

pub use levels::LogLevel;
pub use line_range::LineRangeBound;
