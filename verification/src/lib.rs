//! A verified core for a time-series CLI: exposition-format parsing and
//! validation, conversions between the exposition, record-array and
//! tabular forms, symbolic time-range resolution, query-result rendering,
//! and a permissive query check.  Numeric tokens are carried as text and
//! truncated exactly, so no floating-point arithmetic is needed here.

pub mod config;
pub mod convert;
pub mod display;
pub mod error;
pub mod expo;
pub mod numtext;
pub mod promql;
pub mod queryfmt;
pub mod strutil;
pub mod timerange;
