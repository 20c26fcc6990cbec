//! Kinds of camera image that accompany a point cloud.

use vstd::prelude::*;

verus! {

/// File format of a stored camera image.
#[derive(Debug, Clone, Copy, PartialEq, Eq, Structural)]
pub enum ImageKind {
    JPG,
    WEBP,
}

/// Pixel encoding of a camera image.
#[derive(Debug, Clone, Copy, PartialEq, Eq, Structural)]
pub enum EncodingKind {
    BGR8,
}

} // verus!
