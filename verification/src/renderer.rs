//! What can go wrong when a frame is rendered.
use vstd::prelude::*;

use crate::text::{copy, join};

verus! {

/// Why a renderer could not draw a frame.
#[derive(Debug)]
pub enum RenderError {
    /// The surface must be set up again.
    SurfaceLost,
    /// The surface ran out of memory.
    OutOfMemory,
    /// A frame was dropped; the next may succeed.
    Transient,
    /// Another failure, in words.
    Backend(String),
}

/// An error in words.
pub open spec fn render_error_text(e: RenderError) -> Seq<char> {
    match e {
        RenderError::SurfaceLost => "render surface lost/outdated"@,
        RenderError::OutOfMemory => "render surface out of memory"@,
        RenderError::Transient => "transient frame error"@,
        RenderError::Backend(m) => "backend error: "@ + m@,
    }
}

impl RenderError {
    /// The error in words.
    pub fn to_text(&self) -> (r: String)
        ensures
            r@ == render_error_text(*self),
    {
        match self {
            RenderError::SurfaceLost => copy("render surface lost/outdated"),
            RenderError::OutOfMemory => copy("render surface out of memory"),
            RenderError::Transient => copy("transient frame error"),
            RenderError::Backend(m) => join("backend error: ", m.as_str()),
        }
    }
}

} // verus!
