//! A scanline region builder for 2D vector rasterization.
//!
//! Geometry is carried in fixed-point subpixel coordinates (see [`fixed`]),
//! so every stage of the pipeline — grid-line enumeration, monotone-segment
//! sampling, hit collection, the region walk, and coverage estimation — is
//! exact integer arithmetic with verified contracts.

pub mod fixed;
pub mod grid_lines;
pub mod laws;
pub mod monotonics;
pub mod regions;
pub mod sampling;
pub mod shade;

pub use fixed::Bounds;
pub use fixed::V2;
pub use grid_lines::GridLinesIter;
pub use monotonics::Intersection;
pub use monotonics::Segment;
pub use regions::Hit;
pub use regions::Region;
pub use regions::RegionList;
pub use sampling::Coverage;
pub use sampling::SampleDepth;
pub use shade::ShadeCommand;
