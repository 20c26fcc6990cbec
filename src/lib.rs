//! Point-cloud processing for autonomous-vehicle LiDAR sweeps: fixed-point
//! points and clouds, bounding boxes, crop-box and voxel-grid filters, RANSAC
//! plane segmentation, a k-d tree for radius search and Euclidean cluster
//! extraction.

pub mod point;
pub mod point_cloud;
pub mod bounding_box;
pub mod crop_box;
pub mod kdtree;
pub mod extract_clusters;
mod random;
pub mod sac;
pub mod voxel_grid;
pub mod ego;
pub mod objects;
pub mod point_cloud2;
pub mod image;
pub mod filters;
pub mod pipeline;
