//! Persistence of a structured value in a self-describing tree format that
//! tolerates changes of the value's shape between the writer and the reader.
pub mod tree;
pub mod merge;
pub mod container;

pub use tree::{Tree, TreeView};
pub use merge::merge;
pub use container::JsonStruct;
