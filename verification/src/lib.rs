//! Binary space partitioning of a rectangular area into rooms and corridors.
//!
//! A [`DungeonTree`] holds the regions of the partition in an index-addressed
//! collection of optional nodes. Regions are divided with
//! [`DungeonTree::split_sub_dungeon`], leaves receive rooms from
//! [`DungeonTree::build_rooms`], and [`DungeonTree::gen_paths`] routes a
//! corridor between each pair of sibling leaves. A subtree is copied out
//! with [`DungeonTree::get_subtree`] and pruned with
//! [`DungeonTree::remove_at_idx`].
//!
//! The tree takes no part in drawing: [`DungeonTree::nodes`],
//! [`DungeonTree::get_leaves`] and [`DungeonTree::paths`] hand out what there
//! is to draw, and [`DungeonTree::room_grid`] lays the rooms out as text.

pub mod corridors;
pub mod error;
pub mod geometry;
pub mod grid;
pub mod node;
pub mod path;
pub mod prune;
pub mod rooms;
pub mod split;
pub mod subtree;
pub mod traverse;
pub mod tree;

pub use error::TreeError;
pub use geometry::{get_direction_of_point, RectFace};
pub use node::DungeonNode;
pub use path::{get_path, DungeonPath};
pub use tree::DungeonTree;
