//! The preview shown after a capture: whether it is shown, where it stands,
//! and what a click on it opens.

use vstd::prelude::*;
use crate::geometry::Rect;
use crate::state::{path_parent, parent_dir};

verus! {

/// Blank between the preview and the bottom of the monitor, in pixels.
pub const BOTTOM_MARGIN: i32 = 24;

/// `a / b` rounded toward zero, as integer division does in Rust.
pub open spec fn div_toward_zero(a: int, b: int) -> int {
    if a >= 0 {
        a / b
    } else {
        -((-a) / b)
    }
}

/// Where the preview window stands (its top-left corner) and its size.
#[derive(Clone, Copy, PartialEq, Eq, Structural, Debug)]
pub struct Placement {
    pub x: i32,
    pub y: i32,
    pub width: i32,
    pub height: i32,
}

/// Whether a preview of `size` is shown for a `capture_w` by `capture_h`
/// capture at `percent`: not at 0 percent, not for an empty capture, and
/// not when its size rounds down to nothing.
pub open spec fn preview_shown(capture_w: int, capture_h: int, percent: int, size: (int, int)) -> bool {
    percent != 0 && capture_w > 0 && capture_h > 0 && size.0 > 0 && size.1 > 0
}

/// Where a preview of `size` stands on `monitor`: centred horizontally,
/// `BOTTOM_MARGIN` above the monitor's bottom.
pub open spec fn preview_at(monitor: Rect, size: (int, int)) -> (int, int) {
    let mw = monitor.right - monitor.left;
    (monitor.left + div_toward_zero(mw - size.0, 2), monitor.bottom - size.1 - BOTTOM_MARGIN)
}

/// Where and how large the preview of a `capture_w` by `capture_h` capture
/// stands on `monitor` at `percent`, or `None` when it is not shown.
/// `size` is the size that the scale gives the capture: `percent / 100`
/// times the smaller of the monitor's width over the capture's and its
/// height over the capture's, computed in single-precision floating point
/// by the caller, each side then turned into an integer toward zero.
pub fn preview_placement(capture_w: i32, capture_h: i32, monitor: Rect, percent: u8, size: (i32, i32)) -> (r: Option<
    Placement,
>)
    requires
        preview_shown(capture_w as int, capture_h as int, percent as int, (size.0 as int, size.1 as int)) ==> {
            let mw = monitor.right - monitor.left;
            let at = preview_at(monitor, (size.0 as int, size.1 as int));
            &&& i32::MIN <= mw <= i32::MAX
            &&& i32::MIN <= mw - size.0 <= i32::MAX
            &&& i32::MIN <= at.0 <= i32::MAX
            &&& i32::MIN <= monitor.bottom - size.1 <= i32::MAX
            &&& i32::MIN <= at.1 <= i32::MAX
        },
    ensures
        preview_shown(capture_w as int, capture_h as int, percent as int, (size.0 as int, size.1 as int))
            <==> r is Some,
        r matches Some(pl) ==> {
            let at = preview_at(monitor, (size.0 as int, size.1 as int));
            &&& pl.x == at.0 && pl.y == at.1 && pl.width == size.0 && pl.height == size.1
            &&& pl.y + pl.height + BOTTOM_MARGIN == monitor.bottom
            &&& -1 <= (monitor.right - (pl.x + pl.width)) - (pl.x - monitor.left) <= 1
        },
{
    if percent == 0 || capture_w <= 0 || capture_h <= 0 {
        return None;
    }
    let (w, h) = size;
    if w <= 0 || h <= 0 {
        return None;
    }
    let mw = monitor.right - monitor.left;
    let x = monitor.left + (mw - w) / 2;
    let y = monitor.bottom - h - BOTTOM_MARGIN;
    Some(Placement { x, y, width: w, height: h })
}

/// The preview stands on the monitor it is placed on, whatever that
/// monitor's position: its bottom edge is `BOTTOM_MARGIN` above the
/// monitor's bottom, and the blanks to its left and right differ by at most
/// one pixel.
pub proof fn lemma_preview_on_monitor(monitor: Rect, size: (int, int))
    ensures
        preview_at(monitor, size).1 + size.1 + BOTTOM_MARGIN == monitor.bottom,
        -1 <= (monitor.right - (preview_at(monitor, size).0 + size.0)) - (preview_at(monitor, size).0
            - monitor.left) <= 1,
{
}

/// Moving the monitor moves the preview by as much: a monitor shifted by
/// `(dx, dy)` from another places the same preview shifted by `(dx, dy)`.
pub proof fn lemma_preview_moves_with_monitor(m1: Rect, m2: Rect, size: (int, int))
    requires
        m2.right - m1.right == m2.left - m1.left,
        m2.bottom - m1.bottom == m2.top - m1.top,
    ensures
        preview_at(m2, size).0 == preview_at(m1, size).0 + (m2.left - m1.left),
        preview_at(m2, size).1 == preview_at(m1, size).1 + (m2.top - m1.top),
{
}

} // verus!

verus! {

/// A mouse button released over the preview.
#[derive(Clone, Copy, PartialEq, Eq, Structural, Debug)]
pub enum Click {
    Left,
    Right,
}

/// What a click on the preview opens.
pub enum PreviewOpen {
    /// The saved image.
    File,
    /// This folder, the one that holds the saved image.
    Folder(std::path::PathBuf),
    Nothing,
}

/// What a click on the preview of the image saved at `path` (`None`: it
/// was not saved) opens: the left button the image, the right button the
/// folder that holds it.
pub fn preview_click(path: Option<&std::path::PathBuf>, click: Click) -> (r: PreviewOpen)
    ensures
        match path {
            None => r is Nothing,
            Some(p) => match click {
                Click::Left => r is File,
                Click::Right => match path_parent(*p) {
                    Some(d) => r == PreviewOpen::Folder(d),
                    None => r is Nothing,
                },
            },
        },
{
    match path {
        None => PreviewOpen::Nothing,
        Some(p) => match click {
            Click::Left => PreviewOpen::File,
            Click::Right => match parent_dir(p) {
                Some(d) => PreviewOpen::Folder(d),
                None => PreviewOpen::Nothing,
            },
        },
    }
}

} // verus!
