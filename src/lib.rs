//! Compiles object-detection image annotations into a stable label map and a
//! checksum-framed stream of serialized training examples.

pub mod annotation;
pub mod cli;
pub mod features;
pub mod label_map;
pub mod partition;
pub mod prepare;
pub mod record;
pub mod tfrecord;
pub mod wire;
