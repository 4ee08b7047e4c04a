use vstd::prelude::*;

pub mod fixed;
pub mod xyz;
pub mod color;
pub mod object;
pub mod img;
pub mod render;
pub mod palette;
pub mod parse;
pub mod filters;

verus! {

/// The processing modes that a front end can offer for a loaded image.
#[derive(Clone, Copy, PartialEq, Eq, Structural)]
pub enum ProcessingOption {
    Dithering,
    Color,
}

} // verus!
