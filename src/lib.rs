//! Puzzle solvers over line-oriented input: first-marker detection in a
//! symbol stream, and a directory tree rebuilt from a shell transcript.
pub mod error;
pub mod filesystem;
pub mod marker;
pub mod render;
pub mod sizes;
pub mod transcript;

pub use error::{AppError, InputArgs};
pub use filesystem::{DirNode, Entry, Filesystem};
pub use marker::{_find_marker, day_6_1, day_6_2, find_marker_hashset, find_marker_pairwise};
pub use sizes::{add_sizes_up_to_threshold, day_7_1, SMALL_DIR_LIMIT};
pub use transcript::{collect_input, parse_input, Command, FileDesc, InputLine};
