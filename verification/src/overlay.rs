//! The region picker: while the user moves the mouse over the frozen
//! screen, the window under the cursor is highlighted; pressing and
//! dragging past the drag threshold draws a rectangle instead; releasing
//! the button picks the highlighted rectangle, and Escape or the right
//! button cancels.

use vstd::prelude::*;
use crate::geometry::{Point, Rect, bounding_box, span, union_rect, span_rect};

verus! {

/// The state of the region picker.
pub struct Overlay {
    /// The rectangles of the visible windows, topmost first.
    pub windows: Vec<Rect>,
    /// The rectangle that is highlighted, and picked on release.
    pub active_rect: Rect,
    /// Where the left button went down, while it is held.
    pub press: Option<Point>,
    /// Whether the mouse has moved far enough since the press to draw.
    pub dragging: bool,
    /// How far (horizontally, vertically) the mouse must move to start drawing.
    pub drag_threshold: (i32, i32),
    /// The rectangle picked, once finished (`None`: cancelled or empty).
    pub result: Option<Rect>,
    pub finished: bool,
}

/// The position of the first window rectangle at or after `i` that holds `p`.
pub open spec fn first_hit_from(windows: Seq<Rect>, p: Point, i: int) -> Option<int>
    decreases windows.len() - i,
{
    if i < 0 || i >= windows.len() {
        None
    } else if windows[i].holds(p) {
        Some(i)
    } else {
        first_hit_from(windows, p, i + 1)
    }
}

/// The topmost window rectangle that holds `p`, if any.
pub open spec fn first_hit(windows: Seq<Rect>, p: Point) -> Option<Rect> {
    match first_hit_from(windows, p, 0) {
        Some(i) => Some(windows[i]),
        None => None,
    }
}

pub open spec fn abs_diff(a: i32, b: i32) -> int {
    if a >= b {
        a - b
    } else {
        b - a
    }
}

/// Whether the mouse at `p` has moved far enough from the press at `press`.
pub open spec fn past_threshold(press: Point, p: Point, threshold: (i32, i32)) -> bool {
    abs_diff(p.x, press.x) >= threshold.0 || abs_diff(p.y, press.y) >= threshold.1
}

/// Whether the picker draws a rectangle after the mouse moved to `p`.
pub open spec fn drags_after_move(o: Overlay, p: Point) -> bool {
    o.dragging || (o.press matches Some(q) && past_threshold(q, p, o.drag_threshold))
}

/// The highlighted rectangle after the mouse moved to `p`: while dragging,
/// the rectangle from the press to `p`; while the button is held without
/// dragging, unchanged; otherwise the topmost window under `p`, or
/// unchanged if there is none.
pub open spec fn active_after_move(o: Overlay, p: Point) -> Rect {
    match o.press {
        Some(q) => if drags_after_move(o, p) {
            span(q, p)
        } else {
            o.active_rect
        },
        None => match first_hit(o.windows@, p) {
            Some(r) => r,
            None => o.active_rect,
        },
    }
}

/// The topmost window rectangle that holds `p`.
fn window_under(windows: &Vec<Rect>, p: Point) -> (r: Option<Rect>)
    ensures
        r == first_hit(windows@, p),
{
    let mut i: usize = 0;
    while i < windows.len()
        invariant
            i <= windows@.len(),
            first_hit_from(windows@, p, i as int) == first_hit_from(windows@, p, 0),
        decreases windows@.len() - i,
    {
        if windows[i].contains(p) {
            return Some(windows[i]);
        }
        i = i + 1;
    }
    None
}

impl Overlay {
    /// A picker over the given window rectangles, nothing highlighted yet.
    pub fn new(windows: Vec<Rect>, drag_threshold: (i32, i32)) -> (r: Overlay)
        ensures
            r.windows == windows,
            r.active_rect == (Rect { left: 0, top: 0, right: 0, bottom: 0 }),
            r.press is None,
            !r.dragging,
            r.drag_threshold == drag_threshold,
            r.result is None,
            !r.finished,
    {
        Overlay {
            windows,
            active_rect: Rect::zero(),
            press: None,
            dragging: false,
            drag_threshold,
            result: None,
            finished: false,
        }
    }

    /// The mouse moved to `p`. Returns the rectangle to repaint: the
    /// bounding box of the highlighted rectangle before and after.
    pub fn mouse_move(&mut self, p: Point) -> (dirty: Rect)
        ensures
            final(self).dragging == drags_after_move(*old(self), p),
            final(self).active_rect == active_after_move(*old(self), p),
            final(self).windows == old(self).windows,
            final(self).press == old(self).press,
            final(self).drag_threshold == old(self).drag_threshold,
            final(self).result == old(self).result,
            final(self).finished == old(self).finished,
            dirty == bounding_box(old(self).active_rect, final(self).active_rect),
    {
        if let Some(press) = self.press {
            let dx: i64 = if p.x >= press.x {
                p.x as i64 - press.x as i64
            } else {
                press.x as i64 - p.x as i64
            };
            let dy: i64 = if p.y >= press.y {
                p.y as i64 - press.y as i64
            } else {
                press.y as i64 - p.y as i64
            };
            let far = dx >= self.drag_threshold.0 as i64 || dy >= self.drag_threshold.1 as i64;
            self.dragging = self.dragging || far;
        }
        let old_rect = self.active_rect;
        match self.press {
            Some(press) => {
                if self.dragging {
                    self.active_rect = span_rect(press, p);
                }
            },
            None => {
                if let Some(r) = window_under(&self.windows, p) {
                    self.active_rect = r;
                }
            },
        }
        union_rect(&old_rect, &self.active_rect)
    }

    /// The left button went down at `p`.
    pub fn button_down(&mut self, p: Point)
        ensures
            final(self).press == Some(p),
            final(self).windows == old(self).windows,
            final(self).active_rect == old(self).active_rect,
            final(self).dragging == old(self).dragging,
            final(self).drag_threshold == old(self).drag_threshold,
            final(self).result == old(self).result,
            final(self).finished == old(self).finished,
    {
        self.press = Some(p);
    }

    /// Ends the picking with `result`.
    pub fn finish(&mut self, result: Option<Rect>)
        ensures
            final(self).result == result,
            final(self).finished,
            final(self).windows == old(self).windows,
            final(self).active_rect == old(self).active_rect,
            final(self).press == old(self).press,
            final(self).dragging == old(self).dragging,
            final(self).drag_threshold == old(self).drag_threshold,
    {
        self.result = result;
        self.finished = true;
    }

    /// The left button was released: the highlighted rectangle is picked,
    /// if it covers at least one pixel.
    pub fn button_up(&mut self)
        ensures
            final(self).finished,
            final(self).result == if old(self).active_rect.is_nonempty() {
                Some(old(self).active_rect)
            } else {
                None
            },
            final(self).windows == old(self).windows,
            final(self).active_rect == old(self).active_rect,
            final(self).press == old(self).press,
            final(self).dragging == old(self).dragging,
    {
        let rect = self.active_rect;
        let valid = rect.right > rect.left && rect.bottom > rect.top;
        self.finish(if valid {
            Some(rect)
        } else {
            None
        });
    }

    /// Escape or the right button: the picking ends with nothing picked.
    pub fn cancel(&mut self)
        ensures
            final(self).finished,
            final(self).result is None,
            final(self).windows == old(self).windows,
            final(self).active_rect == old(self).active_rect,
            final(self).press == old(self).press,
            final(self).dragging == old(self).dragging,
    {
        self.finish(None);
    }
}

proof fn lemma_first_hit_from(windows: Seq<Rect>, p: Point, i: int)
    requires
        0 <= i <= windows.len(),
    ensures
        match first_hit_from(windows, p, i) {
            Some(k) => i <= k < windows.len() && windows[k].holds(p) && forall|j: int|
                i <= j < k ==> !(#[trigger] windows[j]).holds(p),
            None => forall|j: int| i <= j < windows.len() ==> !(#[trigger] windows[j]).holds(p),
        },
    decreases windows.len() - i,
{
    if i < windows.len() {
        lemma_first_hit_from(windows, p, i + 1);
    }
}

/// The window highlighted under the mouse is the topmost one that holds
/// the mouse; when none does, no window holds it.
pub proof fn lemma_first_hit(windows: Seq<Rect>, p: Point)
    ensures
        match first_hit(windows, p) {
            Some(r) => exists|k: int|
                0 <= k < windows.len() && windows[k] == r && r.holds(p) && forall|j: int|
                    0 <= j < k ==> !(#[trigger] windows[j]).holds(p),
            None => forall|j: int| 0 <= j < windows.len() ==> !(#[trigger] windows[j]).holds(p),
        },
{
    lemma_first_hit_from(windows, p, 0);
}

/// While drawing, the highlighted rectangle is the one between the press
/// and the mouse, with its sides in order, whichever way the mouse went;
/// and once the picker draws, it keeps drawing.
pub proof fn lemma_drag_rectangle(o: Overlay, p: Point)
    ensures
        o.dragging ==> drags_after_move(o, p),
        match o.press {
            Some(q) => drags_after_move(o, p) ==> {
                let r = active_after_move(o, p);
                &&& r == span(q, p)
                &&& r.left <= r.right && r.top <= r.bottom
                &&& (r.left == q.x || r.left == p.x) && (r.right == q.x || r.right == p.x)
                &&& (r.top == q.y || r.top == p.y) && (r.bottom == q.y || r.bottom == p.y)
                &&& r.left <= q.x <= r.right && r.left <= p.x <= r.right
                &&& r.top <= q.y <= r.bottom && r.top <= p.y <= r.bottom
            },
            None => true,
        },
{
}

} // verus!
