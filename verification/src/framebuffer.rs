//! Generic data types surrounding framebuffers.

use vstd::prelude::*;

verus! {

#[derive(Debug, Copy, Clone, PartialEq, Eq, Structural)]
pub enum PixelFormat {
    R5G6B5,
}

#[derive(Debug, Clone, Copy, PartialEq, Eq, Structural)]
pub struct Format {
    pub height: u32,
    pub width: u32,
    pub stride: u32,
    pub pixel: PixelFormat,
}

} // verus!
