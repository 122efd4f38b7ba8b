//! Choosing the box a page is cropped to: a per-page box, a manual box for
//! odd or even pages or for all pages (possibly shrunk to the content
//! inside it), or a detected one; and whether the page's content is clipped.

use vstd::prelude::*;

verus! {

/// How the crop box of a page is to be found.
#[derive(Debug, PartialEq, Eq)]
pub enum BoxPlan<B> {
    /// Use this box as given (a manual box).
    Use(B),
    /// Detect the content inside this manual box.
    ShrinkWithin(B),
    /// Detect the content of the whole page.
    Detect,
}

/// The manual box for the page at 0-based index `page_index`: the odd-page
/// box on odd pages (1st, 3rd, ...), the even-page box on even pages, each
/// falling back to the box for all pages.
pub open spec fn manual_box<B>(odd: Option<B>, even: Option<B>, all: Option<B>, page_index: nat) -> Option<B> {
    let side = if page_index % 2 == 0 {
        odd
    } else {
        even
    };
    match side {
        Some(b) => Some(b),
        None => all,
    }
}

/// The plan for a page: a per-page box comes first, then the manual box
/// (shrunk to its content when `shrink` is set), else detection.
pub open spec fn box_plan<B>(
    per_page: Option<B>,
    odd: Option<B>,
    even: Option<B>,
    all: Option<B>,
    page_index: nat,
    shrink: bool,
) -> BoxPlan<B> {
    match per_page {
        Some(b) => BoxPlan::Use(b),
        None => match manual_box(odd, even, all, page_index) {
            Some(b) => if shrink {
                BoxPlan::ShrinkWithin(b)
            } else {
                BoxPlan::Use(b)
            },
            None => BoxPlan::Detect,
        },
    }
}

/// Plans how the crop box of the page at 0-based index `page_index` is
/// found.
pub fn plan_box<B: Copy>(
    per_page: Option<B>,
    odd: Option<B>,
    even: Option<B>,
    all: Option<B>,
    page_index: usize,
    shrink: bool,
) -> (r: BoxPlan<B>)
    ensures
        r == box_plan(per_page, odd, even, all, page_index as nat, shrink),
{
    match per_page {
        Some(b) => BoxPlan::Use(b),
        None => {
            let side = if page_index % 2 == 0 {
                odd
            } else {
                even
            };
            let manual = match side {
                Some(b) => Some(b),
                None => all,
            };
            match manual {
                Some(b) => if shrink {
                    BoxPlan::ShrinkWithin(b)
                } else {
                    BoxPlan::Use(b)
                },
                None => BoxPlan::Detect,
            }
        },
    }
}

/// The box after trying to shrink a manual box to its content, and whether
/// it still counts as manual: the detected box where detection succeeded
/// (not manual), else the manual box itself (manual).
pub fn shrink_outcome<B: Copy>(manual: B, detected: Option<B>) -> (r: (B, bool))
    ensures
        match detected {
            Some(d) => r == (d, false),
            None => r == (manual, true),
        },
{
    match detected {
        Some(d) => (d, false),
        None => (manual, true),
    }
}

/// Whether the content of a page is clipped to its box: only when clipping
/// is asked for and the box was given by hand; a detected box already fits
/// the content.
pub fn should_clip(clip_content: bool, is_manual: bool) -> (r: bool)
    ensures
        r == (clip_content && is_manual),
{
    clip_content && is_manual
}

} // verus!
