//! An index of trade-flow records kept in a height-balanced binary search
//! tree keyed by the ordinal of each record's date, with scans of the whole
//! tree by record value.

pub mod bucket;
pub mod date;
pub mod laws;
pub mod numeral;
pub mod record;
pub mod scan;
pub mod tree;

pub use bucket::{hash, hashing};
pub use date::{convert_date_to_days, date_to_days};
pub use record::{Data, ParseError};
pub use scan::{collect_matching, find_max_value_node, find_min_value_node, nodes_with_same_value};
pub use tree::{height, AvlTree, Node, TreeError};
