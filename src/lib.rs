//! Text analysis: word frequency, line-length histograms, and detection of
//! duplicated blocks of lines across files, with overlapping duplicates
//! resolved in favour of the larger ones.

pub mod agreement;
pub mod blocks;
pub mod duplication;
pub mod file_utils;
pub mod frequency;
pub mod groups;
pub mod line_length;
pub mod overlap;
pub mod rank;
pub mod text;
pub mod types;

pub use duplication::{find_duplicate_lines, find_duplications, find_multi_line_duplications};
pub use file_utils::{is_text_content, merge_file_lines};
pub use frequency::generate_frequency_map;
pub use line_length::calculate_line_length_histogram;
pub use types::{Command, Config, FileEntry, FrequencyItem, LineEntry, LineLengthItem, MappedContent};
