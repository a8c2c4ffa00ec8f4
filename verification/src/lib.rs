//! Building blocks of an offline path tracer whose behaviour is stated in
//! contracts: the image buffer and its tiles, the partition of an image into
//! tiles, the layout of a bounding-volume hierarchy, the decisions the
//! integrators take along a path, triangle meshes and the text of a PPM file.

pub mod colour;
pub mod bvh;
pub mod image;
pub mod integrator;
pub mod mesh;
pub mod pdf;
pub mod ppm;
pub mod tiling;

pub use crate::image::Image;
pub use crate::image::ImageTile;
pub use crate::tiling::TileGrid;
pub use crate::bvh::BvhPlan;
pub use crate::integrator::{
    BRDFSampledPathIntegrator, ImportanceSampleLightIntegrator,
    MultipleImportanceSampleIntegrator, UniformSampledPathIntegrator,
};
pub use crate::pdf::MixtureMethod;
pub use crate::mesh::{create_mesh, Mesh, Triangle};
