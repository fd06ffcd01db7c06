//! The tray's popup menu: its layout from the text metrics and the screen
//! resolution, where it opens, and how it follows the mouse.

use vstd::prelude::*;
use crate::geometry::{Point, Rect};

verus! {

broadcast use vstd::std_specs::vec::group_vec_axioms;

/// Width of the menu's border, in pixels.
pub const BORDER_WIDTH: i32 = 1;
/// Size of the menu font, in points at 96 dots per inch.
pub const FONT_SIZE: u32 = 11;
/// Blank to each side of an item's text, at 96 dots per inch.
pub const PADDING_X: u32 = 14;
/// Blank above and below an item's text, at 96 dots per inch.
pub const PADDING_Y: u32 = 6;

/// `v` pixels at 96 dots per inch scaled to `dpi` (at least 1), rounded to
/// the nearest pixel, halves away from zero.
pub open spec fn scaled_px(v: nat, dpi: nat) -> int {
    let d = if dpi == 0 {
        1
    } else {
        dpi
    };
    ((2 * v * d + 96) / 192) as int
}

/// `v` pixels at 96 dots per inch scaled to `dpi` dots per inch, rounded to
/// the nearest pixel (a `dpi` of 0 counts as 1), and limited to `i32::MAX`.
pub fn px(v: u32, dpi: u32) -> (r: i32)
    ensures
        r == if scaled_px(v as nat, dpi as nat) <= i32::MAX {
            scaled_px(v as nat, dpi as nat)
        } else {
            i32::MAX as int
        },
{
    let d: u128 = if dpi == 0 {
        1
    } else {
        dpi as u128
    };
    assert(2 * v * d + 96 <= 2 * 0xffff_ffff * 0xffff_ffff + 96) by (nonlinear_arith)
        requires
            v <= 0xffff_ffff,
            d <= 0xffff_ffff,
    ;
    let n = (2 * v as u128 * d + 96) / 192;
    if n <= i32::MAX as u128 {
        n as i32
    } else {
        i32::MAX
    }
}

/// The layout of a menu of `n` items whose rows are `row_h` high and
/// `item_w` wide: the rectangle of each item, below each other inside the
/// border, and the size of the whole menu.
pub open spec fn item_rect(i: int, row_h: int, item_w: int) -> Rect {
    Rect {
        left: BORDER_WIDTH,
        top: (BORDER_WIDTH + i * row_h) as i32,
        right: (BORDER_WIDTH + item_w) as i32,
        bottom: (BORDER_WIDTH + i * row_h + row_h) as i32,
    }
}

/// The rectangles of the items and the size of a menu.
pub struct MenuLayout {
    pub item_rects: Vec<Rect>,
    pub width: i32,
    pub height: i32,
}

/// The widest of the labels' widths, or 0 when there is none.
pub open spec fn widest(widths: Seq<i32>) -> int
    decreases widths.len(),
{
    if widths.len() == 0 {
        0
    } else {
        let w = widest(widths.drop_last());
        if widths.len() == 1 || widths.last() > w {
            widths.last() as int
        } else {
            w
        }
    }
}

/// The widest of the labels' widths, or 0 when there is none.
pub fn max_width(widths: &Vec<i32>) -> (r: i32)
    ensures
        r == widest(widths@),
{
    let mut best: i32 = 0;
    let mut k: usize = 0;
    while k < widths.len()
        invariant
            k <= widths@.len(),
            best == widest(widths@.take(k as int)),
        decreases widths@.len() - k,
    {
        assert(widths@.take(k + 1).drop_last() =~= widths@.take(k as int));
        if k == 0 || widths[k] > best {
            best = widths[k];
        }
        k = k + 1;
    }
    assert(widths@.take(widths@.len() as int) =~= widths@);
    best
}

/// The layout of a menu of `n` items, for a font whose lines are
/// `text_height` high, labels at most `text_width` wide, at `dpi` dots per
/// inch: each row is the line with `PADDING_Y` above and below, each item
/// the widest label with `PADDING_X` to each side, and the border around.
pub fn menu_layout(n: usize, text_height: i32, text_width: i32, dpi: u32) -> (r: MenuLayout)
    requires
        n <= i32::MAX,
        0 <= text_height,
        0 <= text_width,
        text_height + 2 * scaled_px(PADDING_Y as nat, dpi as nat) <= i32::MAX,
        n * (text_height + 2 * scaled_px(PADDING_Y as nat, dpi as nat)) + 2 * BORDER_WIDTH <= i32::MAX,
        text_width + 2 * scaled_px(PADDING_X as nat, dpi as nat) + 2 * BORDER_WIDTH <= i32::MAX,
    ensures
        ({
            let row_h = text_height + 2 * scaled_px(PADDING_Y as nat, dpi as nat);
            let item_w = text_width + 2 * scaled_px(PADDING_X as nat, dpi as nat);
            &&& r.item_rects@.len() == n
            &&& forall|i: int| 0 <= i < n ==> #[trigger] r.item_rects@[i] == item_rect(i, row_h, item_w)
            &&& r.width == item_w + 2 * BORDER_WIDTH
            &&& r.height == n * row_h + 2 * BORDER_WIDTH
        }),
{
    let pad_y = px(PADDING_Y, dpi);
    let pad_x = px(PADDING_X, dpi);
    let ghost d: int = if dpi == 0 {
        1
    } else {
        dpi as int
    };
    assert(0 <= pad_y && 0 <= pad_x) by (nonlinear_arith)
        requires
            pad_y == (2 * 6 * d + 96) / 192,
            pad_x == (2 * 14 * d + 96) / 192,
            d >= 1,
    ;
    let row_h = text_height + 2 * pad_y;
    let item_w = text_width + 2 * pad_x;
    assert(n * row_h >= 0) by (nonlinear_arith)
        requires
            row_h >= 0,
    ;
    let mut rects: Vec<Rect> = Vec::new();
    let mut i: usize = 0;
    while i < n
        invariant
            i <= n <= i32::MAX,
            0 <= row_h,
            0 <= item_w,
            n * row_h + 2 * BORDER_WIDTH <= i32::MAX,
            item_w + 2 * BORDER_WIDTH <= i32::MAX,
            rects@.len() == i,
            forall|k: int| 0 <= k < i ==> #[trigger] rects@[k] == item_rect(k, row_h as int, item_w as int),
        decreases n - i,
    {
        assert(i * row_h + row_h <= n * row_h && 0 <= i * row_h) by (nonlinear_arith)
            requires
                i < n,
                0 <= row_h,
        ;
        let top = BORDER_WIDTH + i as i32 * row_h;
        rects.push(Rect { left: BORDER_WIDTH, top, right: BORDER_WIDTH + item_w, bottom: top + row_h });
        i = i + 1;
    }
    MenuLayout {
        item_rects: rects,
        width: item_w + 2 * BORDER_WIDTH,
        height: n as i32 * row_h + 2 * BORDER_WIDTH,
    }
}

/// Where a menu of size `w` by `h` opens: its bottom-right corner at the
/// cursor, moved left and up as needed to stay inside `bounds` (the left
/// and top edges win when it does not fit).
pub open spec fn menu_origin(cursor: Point, w: int, h: int, bounds: Rect) -> (int, int) {
    let x0 = cursor.x - w;
    let x1 = if x0 <= bounds.right - w {
        x0
    } else {
        bounds.right - w
    };
    let x = if x1 >= bounds.left {
        x1
    } else {
        bounds.left as int
    };
    let y0 = cursor.y - h;
    let y1 = if y0 <= bounds.bottom - h {
        y0
    } else {
        bounds.bottom - h
    };
    let y = if y1 >= bounds.top {
        y1
    } else {
        bounds.top as int
    };
    (x, y)
}

/// Where a menu of size `w` by `h` opens, for the cursor at `cursor` on a
/// screen whose bounds are `bounds`.
pub fn menu_position(cursor: Point, w: i32, h: i32, bounds: Rect) -> (r: (i32, i32))
    requires
        i32::MIN <= cursor.x - w,
        i32::MIN <= cursor.y - h,
        i32::MIN <= bounds.right - w <= i32::MAX,
        i32::MIN <= bounds.bottom - h <= i32::MAX,
        cursor.x - w <= i32::MAX,
        cursor.y - h <= i32::MAX,
    ensures
        (r.0 as int, r.1 as int) == menu_origin(cursor, w as int, h as int, bounds),
{
    let x0 = cursor.x - w;
    let x1 = if x0 <= bounds.right - w {
        x0
    } else {
        bounds.right - w
    };
    let x = if x1 >= bounds.left {
        x1
    } else {
        bounds.left
    };
    let y0 = cursor.y - h;
    let y1 = if y0 <= bounds.bottom - h {
        y0
    } else {
        bounds.bottom - h
    };
    let y = if y1 >= bounds.top {
        y1
    } else {
        bounds.top
    };
    (x, y)
}

/// The first item whose row holds the height `y`, from index `i` on.
pub open spec fn row_at_from(rects: Seq<Rect>, y: i32, i: int) -> Option<int>
    decreases rects.len() - i,
{
    if i < 0 || i >= rects.len() {
        None
    } else if rects[i].top <= y < rects[i].bottom {
        Some(i)
    } else {
        row_at_from(rects, y, i + 1)
    }
}

proof fn lemma_row_at_from(rects: Seq<Rect>, y: i32, i: int)
    requires
        0 <= i <= rects.len(),
    ensures
        match row_at_from(rects, y, i) {
            Some(k) => i <= k < rects.len() && rects[k].top <= y < rects[k].bottom && forall|j: int|
                i <= j < k ==> !((#[trigger] rects[j]).top <= y < rects[j].bottom),
            None => forall|j: int| i <= j < rects.len() ==> !((#[trigger] rects[j]).top <= y < rects[j].bottom),
        },
    decreases rects.len() - i,
{
    if i < rects.len() {
        lemma_row_at_from(rects, y, i + 1);
    }
}

/// The item under the height `y`, if any.
pub fn item_at(rects: &Vec<Rect>, y: i32) -> (r: Option<usize>)
    ensures
        match row_at_from(rects@, y, 0) {
            Some(i) => r == Some(i as usize),
            None => r is None,
        },
{
    let mut i: usize = 0;
    while i < rects.len()
        invariant
            i <= rects@.len(),
            row_at_from(rects@, y, i as int) == row_at_from(rects@, y, 0),
        decreases rects@.len() - i,
    {
        if y >= rects[i].top && y < rects[i].bottom {
            return Some(i);
        }
        i = i + 1;
    }
    None
}

/// The rectangle where an item's label is drawn: the item, less a third of
/// its height on the left and on the right.
pub fn text_rect(r: &Rect) -> (t: Rect)
    requires
        0 <= r.bottom - r.top <= i32::MAX,
        r.left + (r.bottom - r.top) / 3 <= i32::MAX,
        i32::MIN <= r.right - (r.bottom - r.top) / 3,
    ensures
        t == (Rect {
            left: (r.left + (r.bottom - r.top) / 3) as i32,
            top: r.top,
            right: (r.right - (r.bottom - r.top) / 3) as i32,
            bottom: r.bottom,
        }),
{
    let pad = (r.bottom - r.top) / 3;
    Rect { left: r.left + pad, top: r.top, right: r.right - pad, bottom: r.bottom }
}

/// What the menu does while it is open.
pub struct MenuState {
    pub item_rects: Vec<Rect>,
    /// The item under the mouse.
    pub hover: Option<usize>,
    /// The item chosen, once the button is released.
    pub selected: Option<usize>,
    /// Whether the menu has asked to hear when the mouse leaves it.
    pub tracking_leave: bool,
}

/// What the menu window must do after a mouse move.
pub struct MoveReaction {
    /// Ask to be told when the mouse leaves.
    pub start_tracking: bool,
    /// The highlighted item changed: draw it again.
    pub redraw: bool,
}

impl MenuState {
    /// The highlighted and the chosen item are items of the menu.
    pub open spec fn wf(&self) -> bool {
        &&& (self.hover matches Some(i) ==> i < self.item_rects@.len())
        &&& (self.selected matches Some(i) ==> i < self.item_rects@.len())
    }

    /// A menu with the given item rectangles, nothing highlighted.
    pub fn new(item_rects: Vec<Rect>) -> (r: MenuState)
        ensures
            r.item_rects == item_rects,
            r.hover is None,
            r.selected is None,
            !r.tracking_leave,
            r.wf(),
    {
        MenuState { item_rects, hover: None, selected: None, tracking_leave: false }
    }

    /// The mouse moved to height `y`: the item under it is highlighted.
    pub fn mouse_move(&mut self, y: i32) -> (r: MoveReaction)
        requires
            old(self).wf(),
        ensures
            final(self).wf(),
            r.start_tracking == !old(self).tracking_leave,
            final(self).tracking_leave,
            match row_at_from(old(self).item_rects@, y, 0) {
                Some(i) => final(self).hover == Some(i as usize),
                None => final(self).hover is None,
            },
            r.redraw == (final(self).hover != old(self).hover),
            final(self).item_rects == old(self).item_rects,
            final(self).selected == old(self).selected,
    {
        let start_tracking = !self.tracking_leave;
        self.tracking_leave = true;
        let hover = item_at(&self.item_rects, y);
        proof {
            lemma_row_at_from(self.item_rects@, y, 0);
        }
        let redraw = hover != self.hover;
        self.hover = hover;
        MoveReaction { start_tracking, redraw }
    }

    /// The mouse left the menu: nothing is highlighted. Returns whether
    /// the menu must be drawn again.
    pub fn mouse_leave(&mut self) -> (redraw: bool)
        requires
            old(self).wf(),
        ensures
            final(self).wf(),
            !final(self).tracking_leave,
            final(self).hover is None,
            redraw == (old(self).hover is Some),
            final(self).item_rects == old(self).item_rects,
            final(self).selected == old(self).selected,
    {
        self.tracking_leave = false;
        let redraw = self.hover.is_some();
        self.hover = None;
        redraw
    }

    /// The button was released: the highlighted item, if any, is chosen and
    /// the menu closes.
    pub fn click(&mut self)
        requires
            old(self).wf(),
        ensures
            final(self).wf(),
            final(self).selected == old(self).hover,
            final(self).hover == old(self).hover,
            final(self).item_rects == old(self).item_rects,
            final(self).tracking_leave == old(self).tracking_leave,
    {
        self.selected = self.hover;
    }
}

/// What the menu hands back: the value of the chosen item, if any.
pub fn chosen<T: Copy>(items: &Vec<T>, selected: Option<usize>) -> (r: Option<T>)
    requires
        selected matches Some(i) ==> i < items@.len(),
    ensures
        match selected {
            Some(i) => r == Some(items@[i as int]),
            None => r is None,
        },
{
    match selected {
        Some(i) => Some(items[i]),
        None => None,
    }
}

} // verus!

verus! {

/// A menu that fits between the edges of the screen opens entirely on it:
/// with its width at most the screen's, it lies between the left and right
/// edges, and likewise between the top and bottom.
pub proof fn lemma_menu_stays_on_screen(cursor: Point, w: int, h: int, bounds: Rect)
    requires
        0 <= w <= bounds.right - bounds.left,
        0 <= h <= bounds.bottom - bounds.top,
    ensures
        bounds.left <= menu_origin(cursor, w, h, bounds).0,
        menu_origin(cursor, w, h, bounds).0 + w <= bounds.right,
        bounds.top <= menu_origin(cursor, w, h, bounds).1,
        menu_origin(cursor, w, h, bounds).1 + h <= bounds.bottom,
{
}

/// When there is room, the menu opens with its bottom-right corner at the
/// cursor.
pub proof fn lemma_menu_opens_at_cursor(cursor: Point, w: int, h: int, bounds: Rect)
    requires
        bounds.left <= cursor.x - w,
        cursor.x <= bounds.right,
        bounds.top <= cursor.y - h,
        cursor.y <= bounds.bottom,
    ensures
        menu_origin(cursor, w, h, bounds) == (cursor.x - w, cursor.y - h),
{
}

/// The widest width is one of the widths, and no width is wider.
pub proof fn lemma_widest(widths: Seq<i32>)
    requires
        widths.len() > 0,
    ensures
        exists|i: int| 0 <= i < widths.len() && widths[i] == widest(widths),
        forall|j: int| 0 <= j < widths.len() ==> widths[j] <= widest(widths),
    decreases widths.len(),
{
    let n = widths.len() as int;
    if n == 1 {
        assert(widths[0] == widest(widths));
    } else {
        let p = widths.drop_last();
        lemma_widest(p);
        let k = choose|i: int| 0 <= i < p.len() && p[i] == widest(p);
        assert forall|j: int| 0 <= j < n implies widths[j] <= widest(widths) by {
            if j < n - 1 {
                assert(widths[j] == p[j]);
            }
        }
        if widths.last() > widest(p) {
            assert(widths[n - 1] == widest(widths));
        } else {
            assert(widths[k] == p[k]);
        }
    }
}

/// The items of a menu lie one under the other inside its border, without
/// gap or overlap: each is a row high and the items' width wide, the first
/// starts at the border, each starts where the one above ends, and the
/// last ends at the border at the bottom of the menu.
pub proof fn lemma_items_stacked(i: int, n: int, row_h: int, item_w: int)
    requires
        0 <= i < n,
        0 <= row_h,
        0 <= item_w,
        n * row_h + 2 * BORDER_WIDTH <= i32::MAX,
        item_w + 2 * BORDER_WIDTH <= i32::MAX,
    ensures
        item_rect(i, row_h, item_w).bottom - item_rect(i, row_h, item_w).top == row_h,
        item_rect(i, row_h, item_w).left == BORDER_WIDTH,
        item_rect(i, row_h, item_w).right - item_rect(i, row_h, item_w).left == item_w,
        item_rect(0, row_h, item_w).top == BORDER_WIDTH,
        i + 1 < n ==> item_rect(i + 1, row_h, item_w).top == item_rect(i, row_h, item_w).bottom,
        item_rect(n - 1, row_h, item_w).bottom + BORDER_WIDTH == n * row_h + 2 * BORDER_WIDTH,
{
    assert(0 <= i * row_h && i * row_h + row_h <= n * row_h && (i + 1) * row_h == i * row_h + row_h
        && (n - 1) * row_h + row_h == n * row_h && 0 <= (n - 1) * row_h) by (nonlinear_arith)
        requires
            0 <= i < n,
            0 <= row_h,
    ;
}

} // verus!
