//! Verified core of a PDF cropping tool: the integer and text logic that
//! decides what a crop keeps, how content streams are segmented, and how
//! CMap and ToUnicode data are read.

pub mod cmap;
pub mod codemap;
pub mod codes;
pub mod findtext;
pub mod font;
pub mod keep;
pub mod ops;
pub mod parse;
pub mod pdf;
pub mod pixels;
pub mod segment;
pub mod selection;
pub mod stream;
pub mod text;
pub mod tounicode;

use vstd::prelude::*;

verus! {

/// How the bounding box of a page's content is found.
#[derive(Clone, Copy, Debug, PartialEq, Eq, Structural)]
pub enum BBoxMethod {
    /// Ghostscript's bbox device (needs Ghostscript installed).
    Ghostscript,
    /// Rendering the page and scanning it for content.
    ContentStream,
    /// Ghostscript first, rendering where Ghostscript is unavailable.
    Auto,
}

} // verus!
