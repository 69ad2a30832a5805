//! Order-book history cache and the integer side of the render pipeline that
//! turns it into density plots.

pub mod grid;
pub mod history;
pub mod ladder;
pub mod pipeline;
pub mod splat;
pub mod timestamp;
pub mod tree;

