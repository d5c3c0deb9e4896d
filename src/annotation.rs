//! The parsed-annotation model: one image, its size and its labelled objects.
use vstd::prelude::*;

verus! {

/// An annotation of one image.
#[derive(Debug, Clone)]
pub struct Annotation {
    /// Name of the folder that held the image when it was labelled.
    pub folder: String,
    /// Name of the image file.
    pub filename: String,
    /// Path of the image when it was labelled.
    pub path: String,
    /// Where the image is on this machine: beside the annotation file, under
    /// `filename`.
    pub system_path: String,
    /// Where the image comes from.
    pub source: Source,
    /// Dimensions of the image.
    pub size: Size,
    /// Whether the image is segmented.
    pub segmented: bool,
    /// The labelled objects, in document order.
    pub objects: Vec<Object>,
}

/// The origin of an image; each part may be absent.
#[derive(Debug, Clone)]
pub struct Source {
    pub database: Option<String>,
    pub annotation: Option<String>,
    pub image: Option<String>,
}

/// Dimensions of an image, in pixels, and its number of channels.
#[derive(Debug, Clone, Copy)]
pub struct Size {
    pub width: u32,
    pub height: u32,
    pub depth: u8,
}

/// One labelled object.
#[derive(Debug, Clone)]
pub struct Object {
    /// The label.
    pub name: String,
    pub pose: String,
    pub truncated: bool,
    pub difficult: bool,
    /// The bounding box.
    pub bndbox: BndBox,
}

/// A bounding box in pixel coordinates.
#[derive(Debug, Clone, Copy)]
pub struct BndBox {
    pub xmin: u32,
    pub ymin: u32,
    pub xmax: u32,
    pub ymax: u32,
}

} // verus!
