//! What holds of every image, of every file and of images written one after the other.

pub mod calls;
pub mod file;
pub mod image;
