use vstd::prelude::*;

pub mod arena;
pub mod build_data;
pub mod ntree;

pub use self::arena::{Arena, ArenaIndex};
pub use self::build_data::{read_tree, BuildData};
pub use self::ntree::NTree;

verus! {

/// Errors of the arena, the tree and the outline reader.
#[derive(Clone, Copy, Debug, PartialEq, Eq, Structural)]
pub enum TreeError {
    /// An index that does not name a cell of this arena.
    IndexOutOfRange(usize),
    /// An outline line whose indent is smaller than the current one but matches no
    /// enclosing level.
    NoSibling(usize),
}

} // verus!
