//! Lints localization files against a base language: missing keys, extra keys
//! and placeholder mismatches.
pub mod diff;
pub mod files;
pub mod flatten;
pub mod placeholders;
pub mod policy;
pub mod render;
pub mod strmap;

pub use diff::{diff, Finding, Locale, Report, Totals};
pub use flatten::{flatten, Doc};
pub use policy::{exit_code, CliOptions};
