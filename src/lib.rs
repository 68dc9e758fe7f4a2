pub mod options;
pub mod geometry;
pub mod object;
pub mod node;
pub mod query;
pub mod insert;
pub mod rtree;
pub mod remove;
pub mod nearest;
pub mod minmax;
pub mod update;
pub mod small;

pub use geometry::Rect;
pub use object::{AxisBox, Point, SpatialObject};
pub use options::RTreeOptions;
pub use rtree::RTree;
