//! Daily time-log arithmetic: finds one day's block in a free-form log,
//! parses `START-END [tag] description` entries, groups their durations by
//! tag and compares the day's total with a fixed working day.

pub mod day;
pub mod duration;
pub mod entry;
pub mod output;
pub mod tags;
pub mod text;

pub use day::find_and_collect_day;
pub use duration::{Duration, TimeOfDay};
pub use entry::{process_line, process_lines};
pub use output::{compare_to_expected, HumanDuration};
pub use tags::{summarize_durations, sums_fit, TagDurations};
