//! Clusters a list of names into groups that share a leading or trailing run
//! of grapheme clusters, and reports one tag per group.

pub mod extract;
pub mod graphemes;
pub mod laws;
pub mod matcher;
pub mod table;
pub mod tag_set;
pub mod text;

pub use crate::extract::{assign_tags, collect_tags, extract_tags, extract_tags_from_clusters};
pub use crate::graphemes::{grapheme_nth, segment_names, take_tag};
pub use crate::matcher::{check_prefix_suffix, shared_run_len};
pub use crate::table::insert_check_map;
pub use crate::tag_set::TagSet;
