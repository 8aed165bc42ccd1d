//! Vision and tracking pipeline for a screen-captured game: image
//! primitives, colour classification, speckle removal, connected-component
//! labelling and the per-frame detector built on top of them.

pub mod background;
pub mod capture;
pub mod capture_windows;
mod flood_fill;
pub mod grid;
pub mod img;
pub mod img_connected_components;
mod labelling;
pub mod regions;
pub mod robot;
pub mod traversal;
