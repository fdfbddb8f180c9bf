//! Authored firmware layout, glyphs and navigation; no UEFI or OS dependency.
use vstd::prelude::*;
use vstd::string::StrSliceExecFns;

verus! {

pub const MAX_PIXELS: usize = 8847360;

/// A framebuffer pixel built from 8-bit red, green and blue.
pub trait Pixel: Copy {
    fn rgb(red: u8, green: u8, blue: u8) -> Self;
}

#[derive(Debug, Clone, Copy, PartialEq, Eq, Structural)]
pub enum ViewError {
    Dimensions,
    Selection,
    Allocation,
}

#[derive(Debug, Clone, Copy, PartialEq, Eq, Structural)]
pub enum Action {
    Previous,
    Next,
    First,
    Last,
    Boot,
    Cancel,
    Nothing,
}

#[derive(Debug, Clone, Copy, PartialEq, Eq, Structural)]
pub enum Update {
    Redraw,
    Boot(usize),
    Cancel,
    Unchanged,
}

/// The selection after `action` among `count` entries.
pub open spec fn next_selection(selected: int, count: int, action: Action) -> int {
    match action {
        Action::Previous => if selected == 0 {
            count - 1
        } else {
            selected - 1
        },
        Action::Next => (selected + 1) % count,
        Action::First => 0,
        Action::Last => count - 1,
        _ => selected,
    }
}

/// Moves the selection. Boot and Cancel leave it as it is; an empty list or
/// an out-of-range selection cancels.
pub fn navigate(selected: &mut usize, count: usize, action: Action) -> (r: Update)
    ensures
        (count == 0 || *old(selected) >= count) ==> r == Update::Cancel && *final(selected) == *old(selected),
        (0 < count && *old(selected) < count) ==> {
            &&& *final(selected) == next_selection(*old(selected) as int, count as int, action)
            &&& *final(selected) < count
            &&& r == match action {
                Action::Boot => Update::Boot(*old(selected)),
                Action::Cancel => Update::Cancel,
                _ => if *final(selected) == *old(selected) {
                    Update::Unchanged
                } else {
                    Update::Redraw
                },
            }
        },
{
    if count == 0 || *selected >= count {
        return Update::Cancel;
    }
    let old = *selected;
    match action {
        Action::Previous => {
            *selected = if old == 0 {
                count - 1
            } else {
                old - 1
            };
        },
        Action::Next => {
            *selected = (old + 1) % count;
        },
        Action::First => {
            *selected = 0;
        },
        Action::Last => {
            *selected = count - 1;
        },
        Action::Boot => {
            return Update::Boot(old);
        },
        Action::Cancel => {
            return Update::Cancel;
        },
        Action::Nothing => {},
    }
    if *selected == old {
        Update::Unchanged
    } else {
        Update::Redraw
    }
}

/// Moving to the next entry and back to the previous one restores the
/// selection, whatever it was.
pub proof fn lemma_next_then_previous(selected: int, count: int)
    requires
        0 <= selected < count,
    ensures
        next_selection(next_selection(selected, count, Action::Next), count, Action::Previous) == selected,
{
    if selected + 1 < count {
        assert((selected + 1) % count == selected + 1) by (nonlinear_arith)
            requires
                0 <= selected + 1 < count,
        ;
    } else {
        assert((selected + 1) % count == 0) by (nonlinear_arith)
            requires
                selected + 1 == count,
                count > 0,
        ;
    }
}

/// Moving to the previous entry and then to the next one restores the
/// selection, whatever it was.
pub proof fn lemma_previous_then_next(selected: int, count: int)
    requires
        0 <= selected < count,
    ensures
        next_selection(next_selection(selected, count, Action::Previous), count, Action::Next) == selected,
{
    let back = next_selection(selected, count, Action::Previous);
    if selected == 0 {
        assert((back + 1) % count == 0) by (nonlinear_arith)
            requires
                back == count - 1,
                count > 0,
        ;
    } else {
        assert((back + 1) % count == back + 1) by (nonlinear_arith)
            requires
                back == selected - 1,
                0 <= back + 1 < count,
        ;
    }
}

const BG: u32 = 0x08090b;

const TILE: u32 = 0x16191e;

const LINE: u32 = 0x313741;

const WHITE: u32 = 0xf3f5f7;

const MUTED: u32 = 0x969fae;

const ACCENT: u32 = 0xb9edce;

struct Canvas<P> {
    pixels: Vec<P>,
    width: usize,
    height: usize,
}

/// Whether `(row, col)` lies in the rectangle at `(x, y)` of `w` by `h` pixels.
spec fn in_box(row: int, col: int, x: int, y: int, w: int, h: int) -> bool {
    y <= row < y + h && x <= col < x + w
}

/// The index of pixel `(row, col)` on a canvas `width` pixels wide.
spec fn at(width: int, row: int, col: int) -> int {
    row * width + col
}

proof fn lemma_at_bound(width: int, height: int, row: int, col: int)
    requires
        0 <= row < height,
        0 <= col < width,
    ensures
        0 <= at(width, row, col) < width * height,
{
    assert(0 <= row * width + col < width * height) by (nonlinear_arith)
        requires
            0 <= row < height,
            0 <= col < width,
    ;
}

proof fn lemma_at_injective(width: int, r1: int, c1: int, r2: int, c2: int)
    requires
        0 <= c1 < width,
        0 <= c2 < width,
        0 <= r1,
        0 <= r2,
    ensures
        at(width, r1, c1) == at(width, r2, c2) ==> r1 == r2 && c1 == c2,
{
    if r1 < r2 {
        assert(r1 * width + c1 < r2 * width + c2) by (nonlinear_arith)
            requires
                r1 < r2,
                0 <= c1 < width,
                0 <= c2,
        ;
    } else if r2 < r1 {
        assert(r2 * width + c2 < r1 * width + c1) by (nonlinear_arith)
            requires
                r2 < r1,
                0 <= c2 < width,
                0 <= c1,
        ;
    }
}

/// How far row `dy` of a rectangle `h` rows tall lies into a corner of radius `r`.
spec fn corner_edge(dy: int, h: int, r: int) -> int {
    if dy < r {
        r - dy - 1
    } else if dy >= h - r {
        dy - (h - r)
    } else {
        0
    }
}

/// The least inset from `i` on, up to `r`, at which a corner row of depth `edge` fits the
/// circle of radius `r`.
spec fn inset_from(r: int, edge: int, i: int) -> int
    decreases r - i,
{
    if i >= r {
        i
    } else if (r - i) * (r - i) + edge * edge <= r * r {
        i
    } else {
        inset_from(r, edge, i + 1)
    }
}

/// The inset of row `dy` of a rounded rectangle.
spec fn row_inset(dy: int, h: int, r: int) -> int {
    inset_from(r, corner_edge(dy, h, r), 0)
}

/// Whether `(row, col)` lies in the rounded rectangle at `(x, y)`: on one of its rows,
/// between that row's insets.
spec fn in_rounded(row: int, col: int, x: int, y: int, w: int, h: int, r: int) -> bool {
    let dy = row - y;
    let inset = row_inset(dy, h, r);
    &&& 0 <= dy < h
    &&& in_box(row, col, x + inset, row, if w >= 2 * inset { w - 2 * inset } else { 0 }, 1)
}

/// The left column of a line of `len` characters, at most `max_chars`, centred on `center`.
spec fn centered_x(center: int, len: int, scale: int, max_chars: int) -> int {
    let chars = if len < max_chars { len } else { max_chars };
    let width = if chars * (6 * scale) >= scale { chars * (6 * scale) - scale } else { 0 };
    if center >= width / 2 { center - width / 2 } else { 0 }
}

/// How many characters of `text` a line of `max_chars` shows.
spec fn shown_len(text: Seq<char>, max_chars: int) -> int {
    if text.len() > max_chars {
        max_chars
    } else {
        text.len() as int
    }
}

/// Character `index` as drawn: a dot in the last three places of a cut line.
spec fn text_char(text: Seq<char>, max_chars: int, index: int) -> char {
    if text.len() > max_chars && index >= (if max_chars >= 3 { max_chars - 3 } else { 0 }) {
        '.'
    } else {
        text[index]
    }
}

/// The bit of glyph column `k`, the leftmost column highest.
spec fn cell_mask(k: int) -> u8 {
    if k == 0 {
        16
    } else if k == 1 {
        8
    } else if k == 2 {
        4
    } else if k == 3 {
        2
    } else {
        1
    }
}

/// Whether cell `(g, k)` of the glyph of character `i` is lit.
spec fn lit(text: Seq<char>, max_chars: int, i: int, g: int, k: int) -> bool {
    glyph_rows(text_char(text, max_chars, i))[g] & cell_mask(k) != 0
}

/// Whether `(row, col)` lies in the square of cell `(g, k)` of character `i`.
spec fn in_cell(row: int, col: int, x: int, y: int, scale: int, i: int, g: int, k: int) -> bool {
    in_box(row, col, x + i * 6 * scale + k * scale, y + g * scale, scale, scale)
}

/// Whether `(row, col)` lies in a lit cell among the first `n` cells in drawing order.
spec fn written(row: int, col: int, x: int, y: int, text: Seq<char>, scale: int, max_chars: int, n: int) -> bool {
    exists|i: int, g: int, k: int|
        0 <= i < shown_len(text, max_chars) && 0 <= g < 7 && 0 <= k < 5 && i * 35 + g * 5 + k < n && lit(
            text,
            max_chars,
            i,
            g,
            k,
        ) && #[trigger] in_cell(row, col, x, y, scale, i, g, k)
}

/// The canvas pixels of the square of one cell are all alike.
spec fn cell_uniform<P>(pixels: Seq<P>, width: int, height: int, x: int, y: int, scale: int, i: int, g: int, k: int) -> bool {
    forall|r1: int, c1: int, r2: int, c2: int|
        0 <= r1 < height && 0 <= c1 < width && 0 <= r2 < height && 0 <= c2 < width && in_cell(r1, c1, x, y, scale, i, g, k)
            && in_cell(r2, c2, x, y, scale, i, g, k) ==> #[trigger] pixels[at(width, r1, c1)] == #[trigger] pixels[at(
            width,
            r2,
            c2,
        )]
}

/// The squares of two different cells share no pixel.
proof fn lemma_cells_apart(r: int, c: int, x: int, y: int, scale: int, i1: int, g1: int, k1: int, i2: int, g2: int, k2: int)
    requires
        scale >= 1,
        0 <= i1 && 0 <= i2,
        0 <= g1 < 7 && 0 <= g2 < 7,
        0 <= k1 < 5 && 0 <= k2 < 5,
        i1 * 35 + g1 * 5 + k1 != i2 * 35 + g2 * 5 + k2,
        in_cell(r, c, x, y, scale, i1, g1, k1),
    ensures
        !in_cell(r, c, x, y, scale, i2, g2, k2),
{
    if in_cell(r, c, x, y, scale, i2, g2, k2) {
        if g1 != g2 {
            let (a, b) = if g1 < g2 { (g1, g2) } else { (g2, g1) };
            assert(a * scale + scale <= b * scale) by (nonlinear_arith)
                requires
                    a < b,
                    scale >= 1,
            ;
        } else {
            let m1 = i1 * 6 + k1;
            let m2 = i2 * 6 + k2;
            assert(m1 != m2);
            assert(i1 * 6 * scale + k1 * scale == m1 * scale) by (nonlinear_arith)
                requires
                    m1 == i1 * 6 + k1,
            ;
            assert(i2 * 6 * scale + k2 * scale == m2 * scale) by (nonlinear_arith)
                requires
                    m2 == i2 * 6 + k2,
            ;
            let (a, b) = if m1 < m2 { (m1, m2) } else { (m2, m1) };
            assert(a * scale + scale <= b * scale) by (nonlinear_arith)
                requires
                    a < b,
                    scale >= 1,
            ;
        }
    }
}

impl<P: Pixel> Canvas<P> {
    spec fn wf(&self) -> bool {
        &&& self.pixels@.len() == self.width * self.height
        &&& self.width <= 4096
        &&& self.height <= 2160
    }

    fn color(value: u32) -> P {
        P::rgb(((value >> 16u32) & 0xff) as u8, ((value >> 8u32) & 0xff) as u8, (value & 0xff) as u8)
    }

    /// Fills the part of the rectangle that lies on the canvas.
    fn rect(&mut self, x: usize, y: usize, w: usize, h: usize, color: u32)
        requires
            old(self).wf(),
        ensures
            final(self).wf(),
            final(self).width == old(self).width,
            final(self).height == old(self).height,
            forall|row: int, col: int|
                0 <= row < old(self).height && 0 <= col < old(self).width && !in_box(row, col, x as int, y as int, w as int, h as int)
                    ==> #[trigger] final(self).pixels@[at(old(self).width as int, row, col)] == old(self).pixels@[at(
                    old(self).width as int,
                    row,
                    col,
                )],
            forall|r1: int, c1: int, r2: int, c2: int|
                0 <= r1 < old(self).height && 0 <= c1 < old(self).width && in_box(r1, c1, x as int, y as int, w as int, h as int)
                    && 0 <= r2 < old(self).height && 0 <= c2 < old(self).width && in_box(r2, c2, x as int, y as int, w as int, h as int)
                    ==> #[trigger] final(self).pixels@[at(old(self).width as int, r1, c1)]
                    == #[trigger] final(self).pixels@[at(old(self).width as int, r2, c2)],
    {
        let ghost width = self.width as int;
        let ghost height = self.height as int;
        let ghost before = self.pixels@;
        let right = if x.saturating_add(w) < self.width {
            x.saturating_add(w)
        } else {
            self.width
        };
        let bottom = if y.saturating_add(h) < self.height {
            y.saturating_add(h)
        } else {
            self.height
        };
        if x >= right || y >= bottom {
            return;
        }
        let fill = Self::color(color);
        let mut row = y;
        while row < bottom
            invariant
                self.wf(),
                self.width == old(self).width,
                self.height == old(self).height,
                width == self.width,
                height == self.height,
                before == old(self).pixels@,
                y <= row <= bottom <= self.height,
                x < right <= self.width,
                right == (if x + w < width { x + w } else { width }),
                bottom == (if y + h < height { y + h } else { height }),
                forall|r: int, c: int|
                    0 <= r < height && 0 <= c < width ==> #[trigger] self.pixels@[at(width, r, c)] == (if in_box(
                        r,
                        c,
                        x as int,
                        y as int,
                        w as int,
                        h as int,
                    ) && r < row {
                        fill
                    } else {
                        before[at(width, r, c)]
                    }),
            decreases bottom - row,
        {
            let mut col = x;
            while col < right
                invariant
                    self.wf(),
                    self.width == old(self).width,
                    self.height == old(self).height,
                    width == self.width,
                    height == self.height,
                    row < bottom <= self.height,
                    y <= row,
                    x <= col <= right <= self.width,
                    right == (if x + w < width { x + w } else { width }),
                    bottom == (if y + h < height { y + h } else { height }),
                    forall|r: int, c: int|
                        0 <= r < height && 0 <= c < width ==> #[trigger] self.pixels@[at(width, r, c)] == (if in_box(
                            r,
                            c,
                            x as int,
                            y as int,
                            w as int,
                            h as int,
                        ) && (r < row || (r == row && c < col)) {
                            fill
                        } else {
                            before[at(width, r, c)]
                        }),
                decreases right - col,
            {
                let _n = self.pixels.len();
                proof {
                    lemma_at_bound(width, height, row as int, col as int);
                }
                let ghost prior = self.pixels@;
                self.pixels.set(row * self.width + col, fill);
                proof {
                    assert forall|r: int, c: int| 0 <= r < height && 0 <= c < width implies #[trigger] self.pixels@[at(
                        width,
                        r,
                        c,
                    )] == (if in_box(r, c, x as int, y as int, w as int, h as int) && (r < row || (r == row
                        && c < col + 1)) {
                        fill
                    } else {
                        before[at(width, r, c)]
                    }) by {
                        lemma_at_injective(width, r, c, row as int, col as int);
                        lemma_at_bound(width, height, r, c);
                        assert(prior[at(width, r, c)] == (if in_box(r, c, x as int, y as int, w as int, h as int)
                            && (r < row || (r == row && c < col)) {
                            fill
                        } else {
                            before[at(width, r, c)]
                        }));
                    }
                }
                col = col + 1;
            }
            row = row + 1;
        }
    }

    /// Fills a rectangle with corners of radius `r` rounded off, one row at a time:
    /// each row is one uniform run, inset at the corners.
    fn rounded(&mut self, x: usize, y: usize, w: usize, h: usize, r: usize, color: u32)
        requires
            old(self).wf(),
            r <= 16,
            2 * r <= h <= 4096,
            w <= 4096,
            x <= 8192,
            y <= 8192,
        ensures
            final(self).wf(),
            final(self).width == old(self).width,
            final(self).height == old(self).height,
            forall|row: int, col: int|
                0 <= row < old(self).height && 0 <= col < old(self).width && !in_rounded(row, col, x as int, y as int, w as int, h as int, r as int)
                    ==> #[trigger] final(self).pixels@[at(old(self).width as int, row, col)] == old(self).pixels@[at(
                    old(self).width as int,
                    row,
                    col,
                )],
            forall|row: int, c1: int, c2: int|
                0 <= row < old(self).height && 0 <= c1 < old(self).width && 0 <= c2 < old(self).width
                    && in_rounded(row, c1, x as int, y as int, w as int, h as int, r as int)
                    && in_rounded(row, c2, x as int, y as int, w as int, h as int, r as int)
                    ==> #[trigger] final(self).pixels@[at(old(self).width as int, row, c1)]
                    == #[trigger] final(self).pixels@[at(old(self).width as int, row, c2)],
    {
        let ghost width = self.width as int;
        let ghost height = self.height as int;
        let ghost start = self.pixels@;
        let mut dy: usize = 0;
        while dy < h
            invariant
                self.wf(),
                r <= 16,
                2 * r <= h <= 4096,
                w <= 4096,
                x <= 8192,
                y <= 8192,
                self.width == old(self).width,
                self.height == old(self).height,
                width == self.width,
                height == self.height,
                start == old(self).pixels@,
                dy <= h,
                forall|row: int, col: int|
                    0 <= row < height && 0 <= col < width && !(in_rounded(row, col, x as int, y as int, w as int, h as int, r as int)
                        && row < y + dy) ==> #[trigger] self.pixels@[at(width, row, col)] == start[at(width, row, col)],
                forall|row: int, c1: int, c2: int|
                    0 <= row < height && 0 <= c1 < width && 0 <= c2 < width && row < y + dy
                        && in_rounded(row, c1, x as int, y as int, w as int, h as int, r as int)
                        && in_rounded(row, c2, x as int, y as int, w as int, h as int, r as int)
                        ==> #[trigger] self.pixels@[at(width, row, c1)] == #[trigger] self.pixels@[at(width, row, c2)],
            decreases h - dy,
        {
            let edge = if dy < r {
                r - dy - 1
            } else if dy >= h - r {
                dy - (h - r)
            } else {
                0
            };
            assert(edge == corner_edge(dy as int, h as int, r as int));
            let mut inset: usize = 0;
            loop
                invariant
                    inset <= r <= 16,
                    edge <= 16,
                    edge == corner_edge(dy as int, h as int, r as int),
                    inset_from(r as int, edge as int, 0) == inset_from(r as int, edge as int, inset as int),
                ensures
                    inset <= r,
                    inset == inset_from(r as int, edge as int, 0),
                decreases r - inset,
            {
                if inset >= r {
                    break;
                }
                let d = r - inset;
                assert(d * d <= 256 && edge * edge <= 256 && r * r <= 256) by (nonlinear_arith)
                    requires
                        d <= 16,
                        edge <= 16,
                        r <= 16,
                ;
                if d * d + edge * edge <= r * r {
                    break;
                }
                inset = inset + 1;
            }
            assert(inset == row_inset(dy as int, h as int, r as int));
            let ghost before = self.pixels@;
            self.rect(x + inset, y + dy, w.saturating_sub(2 * inset), 1, color);
            proof {
                let row_now = y + dy;
                assert forall|row: int, col: int|
                    0 <= row < height && 0 <= col < width && !(in_rounded(row, col, x as int, y as int, w as int, h as int, r as int)
                        && row < y + dy + 1) implies #[trigger] self.pixels@[at(width, row, col)] == start[at(width, row, col)] by {
                    assert(before[at(width, row, col)] == start[at(width, row, col)]);
                }
                assert forall|row: int, c1: int, c2: int|
                    0 <= row < height && 0 <= c1 < width && 0 <= c2 < width && row < y + dy + 1
                        && in_rounded(row, c1, x as int, y as int, w as int, h as int, r as int)
                        && in_rounded(row, c2, x as int, y as int, w as int, h as int, r as int)
                        implies #[trigger] self.pixels@[at(width, row, c1)] == #[trigger] self.pixels@[at(width, row, c2)] by {
                    if row < y + dy {
                        assert(before[at(width, row, c1)] == before[at(width, row, c2)]);
                    }
                }
            }
            dy = dy + 1;
        }
    }

    /// Draws the first characters of `text` that fit `max_chars`, the last three shown as
    /// dots where it is cut: every lit cell of every glyph is one uniform square of `scale`
    /// pixels, and nothing else on the canvas changes.
    fn text(&mut self, x: usize, y: usize, text: &Vec<char>, scale: usize, color: u32, max_chars: usize)
        requires
            old(self).wf(),
            x <= 8192,
            y <= 8192,
            1 <= scale <= 3,
            max_chars <= 64,
        ensures
            final(self).wf(),
            final(self).width == old(self).width,
            final(self).height == old(self).height,
            forall|row: int, col: int|
                0 <= row < old(self).height && 0 <= col < old(self).width && !written(
                    row,
                    col,
                    x as int,
                    y as int,
                    text@,
                    scale as int,
                    max_chars as int,
                    35 * shown_len(text@, max_chars as int),
                ) ==> #[trigger] final(self).pixels@[at(old(self).width as int, row, col)] == old(self).pixels@[at(
                    old(self).width as int,
                    row,
                    col,
                )],
            forall|i: int, g: int, k: int|
                0 <= i < shown_len(text@, max_chars as int) && 0 <= g < 7 && 0 <= k < 5 && lit(text@, max_chars as int, i, g, k)
                    ==> #[trigger] cell_uniform(final(self).pixels@, old(self).width as int, old(self).height as int, x as int, y as int, scale as int, i, g, k),
    {
        let ghost width = self.width as int;
        let ghost height = self.height as int;
        let ghost start = self.pixels@;
        let ghost xs = x as int;
        let ghost ys = y as int;
        let ghost sc = scale as int;
        let ghost mx = max_chars as int;
        let truncated = text.len() > max_chars;
        let shown = if truncated {
            max_chars
        } else {
            text.len()
        };
        assert(shown == shown_len(text@, mx));
        let mut index: usize = 0;
        while index < shown
            invariant
                self.wf(),
                shown <= max_chars <= 64,
                shown <= text@.len(),
                shown == shown_len(text@, mx),
                truncated == (text@.len() > max_chars),
                x <= 8192,
                y <= 8192,
                1 <= scale <= 3,
                self.width == old(self).width,
                self.height == old(self).height,
                width == self.width && height == self.height,
                start == old(self).pixels@,
                xs == x && ys == y && sc == scale && mx == max_chars,
                index <= shown,
                forall|row: int, col: int|
                    0 <= row < height && 0 <= col < width && !written(row, col, xs, ys, text@, sc, mx, 35 * index)
                        ==> #[trigger] self.pixels@[at(width, row, col)] == start[at(width, row, col)],
                forall|i: int, g: int, k: int|
                    0 <= i < shown && 0 <= g < 7 && 0 <= k < 5 && i * 35 + g * 5 + k < 35 * index && lit(text@, mx, i, g, k)
                        ==> #[trigger] cell_uniform(self.pixels@, width, height, xs, ys, sc, i, g, k),
            decreases shown - index,
        {
            let ch = if truncated && index >= max_chars.saturating_sub(3) {
                '.'
            } else {
                text[index]
            };
            assert(ch == text_char(text@, mx, index as int));
            let rows = glyph(ch);
            let mut row: usize = 0;
            while row < 7
                invariant
                    self.wf(),
                    index < shown,
                    shown <= 64,
                    shown == shown_len(text@, mx),
                    x <= 8192,
                    y <= 8192,
                    1 <= scale <= 3,
                    self.width == old(self).width,
                    self.height == old(self).height,
                    width == self.width && height == self.height,
                    start == old(self).pixels@,
                    xs == x && ys == y && sc == scale && mx == max_chars,
                    rows@ == glyph_rows(text_char(text@, mx, index as int)),
                    row <= 7,
                    forall|r: int, c: int|
                        0 <= r < height && 0 <= c < width && !written(r, c, xs, ys, text@, sc, mx, 35 * index + 5 * row)
                            ==> #[trigger] self.pixels@[at(width, r, c)] == start[at(width, r, c)],
                    forall|i: int, g: int, k: int|
                        0 <= i < shown && 0 <= g < 7 && 0 <= k < 5 && i * 35 + g * 5 + k < 35 * index + 5 * row && lit(text@, mx, i, g, k)
                            ==> #[trigger] cell_uniform(self.pixels@, width, height, xs, ys, sc, i, g, k),
                decreases 7 - row,
            {
                let bits = rows[row];
                let mut col: usize = 0;
                while col < 5
                    invariant
                        self.wf(),
                        index < shown,
                        shown <= 64,
                        shown == shown_len(text@, mx),
                        row < 7,
                        x <= 8192,
                        y <= 8192,
                        1 <= scale <= 3,
                        self.width == old(self).width,
                        self.height == old(self).height,
                        width == self.width && height == self.height,
                        start == old(self).pixels@,
                        xs == x && ys == y && sc == scale && mx == max_chars,
                        bits == glyph_rows(text_char(text@, mx, index as int))[row as int],
                        col <= 5,
                        forall|r: int, c: int|
                            0 <= r < height && 0 <= c < width && !written(r, c, xs, ys, text@, sc, mx, 35 * index + 5 * row + col)
                                ==> #[trigger] self.pixels@[at(width, r, c)] == start[at(width, r, c)],
                        forall|i: int, g: int, k: int|
                            0 <= i < shown && 0 <= g < 7 && 0 <= k < 5 && i * 35 + g * 5 + k < 35 * index + 5 * row + col
                                && lit(text@, mx, i, g, k) ==> #[trigger] cell_uniform(self.pixels@, width, height, xs, ys, sc, i, g, k),
                    decreases 5 - col,
                {
                    let mask: u8 = if col == 0 {
                        16
                    } else if col == 1 {
                        8
                    } else if col == 2 {
                        4
                    } else if col == 3 {
                        2
                    } else {
                        1
                    };
                    assert(mask == cell_mask(col as int));
                    let ghost n = 35 * index + 5 * row + col;
                    if bits & mask != 0 {
                        assert(index * 6 * scale <= 64 * 18 && col * scale <= 15 && row * scale <= 21) by (nonlinear_arith)
                            requires
                                index < 64,
                                col < 5,
                                row < 7,
                                scale <= 3,
                        ;
                        let ghost before = self.pixels@;
                        self.rect(x + index * 6 * scale + col * scale, y + row * scale, scale, scale, color);
                        proof {
                            assert(lit(text@, mx, index as int, row as int, col as int));
                            assert forall|r: int, c: int|
                                0 <= r < height && 0 <= c < width && !written(r, c, xs, ys, text@, sc, mx, n + 1)
                                    implies #[trigger] self.pixels@[at(width, r, c)] == start[at(width, r, c)] by {
                                if written(r, c, xs, ys, text@, sc, mx, n) {
                                    let (i, g, k) = choose|i: int, g: int, k: int|
                                        0 <= i < shown_len(text@, mx) && 0 <= g < 7 && 0 <= k < 5 && i * 35 + g * 5 + k < n
                                            && lit(text@, mx, i, g, k) && #[trigger] in_cell(r, c, xs, ys, sc, i, g, k);
                                    assert(i * 35 + g * 5 + k < n + 1);
                                }
                                if in_cell(r, c, xs, ys, sc, index as int, row as int, col as int) {
                                    assert(index * 35 + row * 5 + col < n + 1);
                                    assert(written(r, c, xs, ys, text@, sc, mx, n + 1));
                                }
                            }
                            assert forall|i: int, g: int, k: int|
                                0 <= i < shown && 0 <= g < 7 && 0 <= k < 5 && i * 35 + g * 5 + k < n + 1 && lit(text@, mx, i, g, k)
                                    implies #[trigger] cell_uniform(self.pixels@, width, height, xs, ys, sc, i, g, k) by {
                                if i * 35 + g * 5 + k == n {
                                    assert(i == index && g == row && k == col);
                                } else {
                                    assert(cell_uniform(before, width, height, xs, ys, sc, i, g, k));
                                    assert forall|r: int, c: int| 0 <= r < height && 0 <= c < width && #[trigger] in_cell(r, c, xs, ys, sc, i, g, k)
                                        implies self.pixels@[at(width, r, c)] == before[at(width, r, c)] by {
                                        lemma_cells_apart(r, c, xs, ys, sc, i, g, k, index as int, row as int, col as int);
                                    }
                                }
                            }
                        }
                    } else {
                        proof {
                            assert(!lit(text@, mx, index as int, row as int, col as int));
                            assert forall|r: int, c: int|
                                0 <= r < height && 0 <= c < width && !written(r, c, xs, ys, text@, sc, mx, n + 1)
                                    implies #[trigger] self.pixels@[at(width, r, c)] == start[at(width, r, c)] by {
                                if written(r, c, xs, ys, text@, sc, mx, n) {
                                    let (i, g, k) = choose|i: int, g: int, k: int|
                                        0 <= i < shown_len(text@, mx) && 0 <= g < 7 && 0 <= k < 5 && i * 35 + g * 5 + k < n
                                            && lit(text@, mx, i, g, k) && #[trigger] in_cell(r, c, xs, ys, sc, i, g, k);
                                    assert(i * 35 + g * 5 + k < n + 1);
                                }
                            }
                            assert forall|i: int, g: int, k: int|
                                0 <= i < shown && 0 <= g < 7 && 0 <= k < 5 && i * 35 + g * 5 + k < n + 1 && lit(text@, mx, i, g, k)
                                    implies #[trigger] cell_uniform(self.pixels@, width, height, xs, ys, sc, i, g, k) by {
                                if i * 35 + g * 5 + k == n {
                                    assert(i == index && g == row && k == col);
                                }
                            }
                        }
                    }
                    col = col + 1;
                }
                row = row + 1;
            }
            index = index + 1;
        }
    }

    /// Draws `text` as `text` does, its line centred on column `center`.
    fn centered(&mut self, center: usize, y: usize, text: &Vec<char>, scale: usize, color: u32, max_chars: usize)
        requires
            old(self).wf(),
            center <= 8192,
            y <= 8192,
            1 <= scale <= 3,
            max_chars <= 64,
        ensures
            final(self).wf(),
            final(self).width == old(self).width,
            final(self).height == old(self).height,
            forall|row: int, col: int|
                0 <= row < old(self).height && 0 <= col < old(self).width && !written(
                    row,
                    col,
                    centered_x(center as int, text@.len() as int, scale as int, max_chars as int),
                    y as int,
                    text@,
                    scale as int,
                    max_chars as int,
                    35 * shown_len(text@, max_chars as int),
                ) ==> #[trigger] final(self).pixels@[at(old(self).width as int, row, col)] == old(self).pixels@[at(
                    old(self).width as int,
                    row,
                    col,
                )],
            forall|i: int, g: int, k: int|
                0 <= i < shown_len(text@, max_chars as int) && 0 <= g < 7 && 0 <= k < 5 && lit(text@, max_chars as int, i, g, k)
                    ==> #[trigger] cell_uniform(
                    final(self).pixels@,
                    old(self).width as int,
                    old(self).height as int,
                    centered_x(center as int, text@.len() as int, scale as int, max_chars as int),
                    y as int,
                    scale as int,
                    i,
                    g,
                    k,
                ),
    {
        let chars = if text.len() < max_chars {
            text.len()
        } else {
            max_chars
        };
        assert(chars * (6 * scale) <= 64 * 18) by (nonlinear_arith)
            requires
                chars <= 64,
                scale <= 3,
        ;
        let width = (chars * (6 * scale)).saturating_sub(scale);
        let left = center.saturating_sub(width / 2);
        assert(left == centered_x(center as int, text@.len() as int, scale as int, max_chars as int));
        self.text(left, y, text, scale, color, max_chars);
    }
}

/// The characters of `s`, in order.
fn chars_of(s: &str) -> (r: Vec<char>)
    ensures
        r@ == s@,
{
    let mut v: Vec<char> = Vec::new();
    let n = s.unicode_len();
    let mut i: usize = 0;
    while i < n
        invariant
            n == s@.len(),
            i <= n,
            v@ == s@.subrange(0, i as int),
        decreases n - i,
    {
        v.push(s.get_char(i));
        proof {
            assert(v@ =~= s@.subrange(0, i + 1));
        }
        i = i + 1;
    }
    proof {
        assert(v@ =~= s@);
    }
    v
}

/// The two decimal digits of `n` (below 100).
fn two_digits(n: usize, out: &mut Vec<char>)
    requires
        n < 100,
    ensures
        final(out)@ == old(out)@.push((48 + n / 10) as char).push((48 + n % 10) as char),
{
    let digits: [char; 10] = ['0', '1', '2', '3', '4', '5', '6', '7', '8', '9'];
    out.push(digits[n / 10]);
    out.push(digits[n % 10]);
}

/// The first rule the request breaks, in the order the view checks them.
pub open spec fn view_error(width: int, height: int, names: int, selected: int) -> Option<ViewError> {
    if width * height > usize::MAX || width < 640 || height < 480 || width > 4096 || height > 2160 || width
        * height > MAX_PIXELS {
        Some(ViewError::Dimensions)
    } else if names == 0 || names > 64 || selected >= names {
        Some(ViewError::Selection)
    } else {
        None
    }
}

/// Draws the picker: header, the visible tiles around the selection and the
/// key hints, into a row-major framebuffer of `width * height` pixels.
pub fn render<P: Pixel>(
    width: usize,
    height: usize,
    names: &[&str],
    volume: &str,
    selected: usize,
    starting: bool,
) -> (r: Result<Vec<P>, ViewError>)
    ensures
        view_error(width as int, height as int, names@.len() as int, selected as int) matches Some(e) ==> r == Err::<Vec<P>, ViewError>(e),
        view_error(width as int, height as int, names@.len() as int, selected as int) is None ==> (r matches Ok(p) ==> p@.len() == width * height),
        r matches Err(e) ==> view_error(width as int, height as int, names@.len() as int, selected as int) == Some(e) || e == ViewError::Allocation,
{
    let size = match width.checked_mul(height) {
        Some(s) => s,
        None => return Err(ViewError::Dimensions),
    };
    if width < 640 || height < 480 || width > 4096 || height > 2160 || size > MAX_PIXELS {
        return Err(ViewError::Dimensions);
    }
    if names.len() == 0 || names.len() > 64 || selected >= names.len() {
        return Err(ViewError::Selection);
    }
    let mut pixels: Vec<P> = Vec::new();
    if pixels.try_reserve(size).is_err() {
        return Err(ViewError::Allocation);
    }
    pixels.resize(size, Canvas::<P>::color(BG));
    let mut c = Canvas { pixels, width, height };
    let pad: usize = if width >= 900 {
        56
    } else {
        32
    };
    c.rounded(pad, 32, 30, 30, 8, ACCENT);
    c.text(pad + 8, 40, &chars_of("N"), 2, BG, 1);
    c.text(pad + 44, 39, &chars_of("NextCore"), 3, WHITE, 8);
    c.text(pad + 45, 69, &chars_of("BOOT MANAGER"), 1, MUTED, 20);
    c.rect(pad, 100, width - pad * 2, 1, LINE);
    let title_y: usize = if height >= 600 {
        142
    } else {
        123
    };
    let title = if starting {
        chars_of("Starting selected system")
    } else {
        chars_of("Choose your system")
    };
    c.centered(width / 2, title_y, &title, if width >= 900 {
        3
    } else {
        2
    }, WHITE, 35);
    c.centered(width / 2, title_y + 34, &chars_of("Your next session starts here"), 1, MUTED, 40);
    let wide: usize = if width >= 1080 {
        3
    } else if width >= 740 {
        2
    } else {
        1
    };
    let visible = if wide < names.len() {
        wide
    } else {
        names.len()
    };
    let gap: usize = 20;
    assert((width - pad * 2 - gap * (visible - 1)) as int / visible as int >= 280) by (nonlinear_arith)
        requires
            1 <= visible <= wide,
            wide == 1 || (wide == 2 && width >= 740) || (wide == 3 && width >= 1080),
            width >= 640,
            pad <= 56,
            gap == 20,
    ;
    let spread = (width - pad * 2 - gap * (visible - 1)) / visible;
    let tile_w: usize = if spread < 280 {
        spread
    } else {
        280
    };
    let tile_h: usize = if height >= 600 {
        236
    } else {
        164
    };
    let tile_y: usize = if height >= 600 {
        (height - tile_h) / 2 + 32
    } else {
        185
    };
    assert(visible * tile_w + (visible - 1) * gap <= 3 * 280 + 2 * 20) by (nonlinear_arith)
        requires
            1 <= visible <= 3,
            tile_w <= 280,
            gap == 20,
    ;
    let all_w = visible * tile_w + (visible - 1) * gap;
    assert(all_w <= width) by (nonlinear_arith)
        requires
            all_w == visible * tile_w + (visible - 1) * gap,
            1 <= visible <= wide,
            wide == 1 || (wide == 2 && width >= 740) || (wide == 3 && width >= 1080),
            width >= 640,
            tile_w == 280,
            gap == 20,
    ;
    let start_x = (width - all_w) / 2;
    let back = selected.saturating_sub(visible / 2);
    let first = if back < names.len() - visible {
        back
    } else {
        names.len() - visible
    };
    let volume_chars = chars_of(volume);
    let mut slot: usize = 0;
    while slot < visible
        invariant
            c.wf(),
            c.width == width,
            c.height == height,
            640 <= width <= 4096,
            480 <= height <= 2160,
            visible <= 3,
            visible <= names@.len() <= 64,
            first + visible <= names@.len(),
            tile_w == 280,
            tile_h == 236 || tile_h == 164,
            tile_y <= 2160,
            start_x <= 4096,
            gap == 20,
        decreases visible - slot,
    {
        let index = first + slot;
        assert(slot * (tile_w + gap) <= 600) by (nonlinear_arith)
            requires
                slot < 3,
                tile_w == 280,
                gap == 20,
        ;
        let x = start_x + slot * (tile_w + gap);
        let active = index == selected;
        c.rounded(x, tile_y, tile_w, tile_h, 14, if active {
            ACCENT
        } else {
            LINE
        });
        c.rounded(x + 2, tile_y + 2, tile_w - 4, tile_h - 4, 12, if active {
            0x1c2723
        } else {
            TILE
        });
        if active {
            let label = if starting {
                chars_of("STARTING")
            } else {
                chars_of("SELECTED")
            };
            c.text(x + 18, tile_y + 18, &label, 1, ACCENT, 12);
        }
        let center = x + tile_w / 2;
        let icon_y = tile_y + if tile_h > 180 {
            61
        } else {
            42
        };
        // A neutral authored volume icon; no OS logo or unsupported badge.
        c.rounded(center - 30, icon_y, 60, 43, 7, if active {
            0x476458
        } else {
            0x353c46
        });
        c.rect(center - 20, icon_y + 11, 40, 2, if active {
            ACCENT
        } else {
            MUTED
        });
        c.rect(center + 14, icon_y + 30, 6, 3, if active {
            ACCENT
        } else {
            MUTED
        });
        let label_y = icon_y + if tile_h > 180 {
            66
        } else {
            57
        };
        c.centered(center, label_y, &chars_of(names[index]), 2, WHITE, (tile_w - 28) / 12);
        c.centered(center, label_y + 27, &volume_chars, 1, MUTED, (tile_w - 28) / 6);
        let mut counter: Vec<char> = Vec::new();
        two_digits(index + 1, &mut counter);
        counter.push(' ');
        counter.push('/');
        counter.push(' ');
        two_digits(names.len(), &mut counter);
        c.centered(center, tile_y + tile_h - 22, &counter, 1, if active {
            ACCENT
        } else {
            MUTED
        }, 12);
        slot = slot + 1;
    }
    let footer = height - 46;
    c.rect(pad, footer - 20, width - pad * 2, 1, LINE);
    c.text(pad, footer, &chars_of("ARROWS / TAB  Choose"), 1, MUTED, 24);
    c.centered(width / 2, footer, &chars_of("ENTER  Boot"), 1, ACCENT, 14);
    let esc = chars_of("ESC  Cancel");
    c.text(width - pad - 11 * 6, footer, &esc, 1, MUTED, 14);
    Ok(c.pixels)
}

// Independently authored 5x7 bitmap alphabet. Unsupported Unicode is explicit
// '?' fallback; no control code can write outside the fixed glyph rectangle.
/// The rows of the 5x7 bitmap of `ch`, top first, the leftmost column in bit 4;
/// characters outside the alphabet draw as '?'.
pub open spec fn glyph_rows(ch: char) -> Seq<u8> {
    match ch {
        'a' => seq![0u8, 0u8, 14u8, 1u8, 15u8, 17u8, 15u8],
        'b' => seq![16u8, 16u8, 22u8, 25u8, 17u8, 17u8, 30u8],
        'c' => seq![0u8, 0u8, 14u8, 17u8, 16u8, 17u8, 14u8],
        'd' => seq![1u8, 1u8, 13u8, 19u8, 17u8, 17u8, 15u8],
        'e' => seq![0u8, 0u8, 14u8, 17u8, 31u8, 16u8, 14u8],
        'f' => seq![6u8, 9u8, 8u8, 28u8, 8u8, 8u8, 8u8],
        'g' => seq![0u8, 0u8, 15u8, 17u8, 15u8, 1u8, 14u8],
        'h' => seq![16u8, 16u8, 22u8, 25u8, 17u8, 17u8, 17u8],
        'i' => seq![4u8, 0u8, 12u8, 4u8, 4u8, 4u8, 14u8],
        'j' => seq![2u8, 0u8, 6u8, 2u8, 2u8, 18u8, 12u8],
        'k' => seq![16u8, 16u8, 18u8, 20u8, 24u8, 20u8, 18u8],
        'l' => seq![12u8, 4u8, 4u8, 4u8, 4u8, 4u8, 14u8],
        'm' => seq![0u8, 0u8, 26u8, 21u8, 21u8, 17u8, 17u8],
        'n' => seq![0u8, 0u8, 22u8, 25u8, 17u8, 17u8, 17u8],
        'o' => seq![0u8, 0u8, 14u8, 17u8, 17u8, 17u8, 14u8],
        'p' => seq![0u8, 0u8, 30u8, 17u8, 30u8, 16u8, 16u8],
        'q' => seq![0u8, 0u8, 15u8, 17u8, 15u8, 1u8, 1u8],
        'r' => seq![0u8, 0u8, 22u8, 25u8, 16u8, 16u8, 16u8],
        's' => seq![0u8, 0u8, 15u8, 16u8, 14u8, 1u8, 30u8],
        't' => seq![8u8, 8u8, 28u8, 8u8, 8u8, 9u8, 6u8],
        'u' => seq![0u8, 0u8, 17u8, 17u8, 17u8, 19u8, 13u8],
        'v' => seq![0u8, 0u8, 17u8, 17u8, 17u8, 10u8, 4u8],
        'w' => seq![0u8, 0u8, 17u8, 17u8, 21u8, 21u8, 10u8],
        'x' => seq![0u8, 0u8, 17u8, 10u8, 4u8, 10u8, 17u8],
        'y' => seq![0u8, 0u8, 17u8, 17u8, 15u8, 1u8, 14u8],
        'z' => seq![0u8, 0u8, 31u8, 2u8, 4u8, 8u8, 31u8],
        'A' => seq![14u8, 17u8, 17u8, 31u8, 17u8, 17u8, 17u8],
        'B' => seq![30u8, 17u8, 17u8, 30u8, 17u8, 17u8, 30u8],
        'C' => seq![14u8, 17u8, 16u8, 16u8, 16u8, 17u8, 14u8],
        'D' => seq![30u8, 17u8, 17u8, 17u8, 17u8, 17u8, 30u8],
        'E' => seq![31u8, 16u8, 16u8, 30u8, 16u8, 16u8, 31u8],
        'F' => seq![31u8, 16u8, 16u8, 30u8, 16u8, 16u8, 16u8],
        'G' => seq![14u8, 17u8, 16u8, 23u8, 17u8, 17u8, 15u8],
        'H' => seq![17u8, 17u8, 17u8, 31u8, 17u8, 17u8, 17u8],
        'I' => seq![14u8, 4u8, 4u8, 4u8, 4u8, 4u8, 14u8],
        'J' => seq![7u8, 2u8, 2u8, 2u8, 2u8, 18u8, 12u8],
        'K' => seq![17u8, 18u8, 20u8, 24u8, 20u8, 18u8, 17u8],
        'L' => seq![16u8, 16u8, 16u8, 16u8, 16u8, 16u8, 31u8],
        'M' => seq![17u8, 27u8, 21u8, 21u8, 17u8, 17u8, 17u8],
        'N' => seq![17u8, 25u8, 25u8, 21u8, 19u8, 19u8, 17u8],
        'O' => seq![14u8, 17u8, 17u8, 17u8, 17u8, 17u8, 14u8],
        'P' => seq![30u8, 17u8, 17u8, 30u8, 16u8, 16u8, 16u8],
        'Q' => seq![14u8, 17u8, 17u8, 17u8, 21u8, 18u8, 13u8],
        'R' => seq![30u8, 17u8, 17u8, 30u8, 20u8, 18u8, 17u8],
        'S' => seq![15u8, 16u8, 16u8, 14u8, 1u8, 1u8, 30u8],
        'T' => seq![31u8, 4u8, 4u8, 4u8, 4u8, 4u8, 4u8],
        'U' => seq![17u8, 17u8, 17u8, 17u8, 17u8, 17u8, 14u8],
        'V' => seq![17u8, 17u8, 17u8, 17u8, 17u8, 10u8, 4u8],
        'W' => seq![17u8, 17u8, 17u8, 21u8, 21u8, 21u8, 10u8],
        'X' => seq![17u8, 17u8, 10u8, 4u8, 10u8, 17u8, 17u8],
        'Y' => seq![17u8, 17u8, 10u8, 4u8, 4u8, 4u8, 4u8],
        'Z' => seq![31u8, 1u8, 2u8, 4u8, 8u8, 16u8, 31u8],
        '0' => seq![14u8, 17u8, 19u8, 21u8, 25u8, 17u8, 14u8],
        '1' => seq![4u8, 12u8, 4u8, 4u8, 4u8, 4u8, 14u8],
        '2' => seq![14u8, 17u8, 1u8, 2u8, 4u8, 8u8, 31u8],
        '3' => seq![30u8, 1u8, 1u8, 14u8, 1u8, 1u8, 30u8],
        '4' => seq![2u8, 6u8, 10u8, 18u8, 31u8, 2u8, 2u8],
        '5' => seq![31u8, 16u8, 16u8, 30u8, 1u8, 1u8, 30u8],
        '6' => seq![14u8, 16u8, 16u8, 30u8, 17u8, 17u8, 14u8],
        '7' => seq![31u8, 1u8, 2u8, 4u8, 8u8, 8u8, 8u8],
        '8' => seq![14u8, 17u8, 17u8, 14u8, 17u8, 17u8, 14u8],
        '9' => seq![14u8, 17u8, 17u8, 15u8, 1u8, 1u8, 14u8],
        ' ' => seq![0u8, 0u8, 0u8, 0u8, 0u8, 0u8, 0u8],
        '.' => seq![0u8, 0u8, 0u8, 0u8, 0u8, 6u8, 6u8],
        '-' => seq![0u8, 0u8, 0u8, 31u8, 0u8, 0u8, 0u8],
        '_' => seq![0u8, 0u8, 0u8, 0u8, 0u8, 0u8, 31u8],
        '/' => seq![1u8, 2u8, 2u8, 4u8, 8u8, 8u8, 16u8],
        '(' => seq![2u8, 4u8, 8u8, 8u8, 8u8, 4u8, 2u8],
        ')' => seq![8u8, 4u8, 2u8, 2u8, 2u8, 4u8, 8u8],
        ':' => seq![0u8, 6u8, 6u8, 0u8, 6u8, 6u8, 0u8],
        _ => seq![14u8, 17u8, 1u8, 2u8, 4u8, 0u8, 4u8],
    }
}

/// The characters the picker's bitmap alphabet draws: ASCII letters and digits,
/// space and `.-_/():`.
pub open spec fn in_alphabet(ch: char) -> bool {
    let c = ch as u32;
    ||| 0x61 <= c <= 0x7a
    ||| 0x41 <= c <= 0x5a
    ||| 0x30 <= c <= 0x39
    ||| ch == ' ' || ch == '.' || ch == '-' || ch == '_' || ch == '/' || ch == '(' || ch == ')' || ch == ':'
}

/// Every character outside the alphabet draws as '?'.
pub proof fn lemma_unsupported_draws_as_question(ch: char)
    requires
        !in_alphabet(ch),
    ensures
        glyph_rows(ch) == glyph_rows('?'),
{
}

fn glyph(ch: char) -> (r: [u8; 7])
    ensures
        r@ == glyph_rows(ch),
{
    match ch {
        'a' => [0, 0, 14, 1, 15, 17, 15],
        'b' => [16, 16, 22, 25, 17, 17, 30],
        'c' => [0, 0, 14, 17, 16, 17, 14],
        'd' => [1, 1, 13, 19, 17, 17, 15],
        'e' => [0, 0, 14, 17, 31, 16, 14],
        'f' => [6, 9, 8, 28, 8, 8, 8],
        'g' => [0, 0, 15, 17, 15, 1, 14],
        'h' => [16, 16, 22, 25, 17, 17, 17],
        'i' => [4, 0, 12, 4, 4, 4, 14],
        'j' => [2, 0, 6, 2, 2, 18, 12],
        'k' => [16, 16, 18, 20, 24, 20, 18],
        'l' => [12, 4, 4, 4, 4, 4, 14],
        'm' => [0, 0, 26, 21, 21, 17, 17],
        'n' => [0, 0, 22, 25, 17, 17, 17],
        'o' => [0, 0, 14, 17, 17, 17, 14],
        'p' => [0, 0, 30, 17, 30, 16, 16],
        'q' => [0, 0, 15, 17, 15, 1, 1],
        'r' => [0, 0, 22, 25, 16, 16, 16],
        's' => [0, 0, 15, 16, 14, 1, 30],
        't' => [8, 8, 28, 8, 8, 9, 6],
        'u' => [0, 0, 17, 17, 17, 19, 13],
        'v' => [0, 0, 17, 17, 17, 10, 4],
        'w' => [0, 0, 17, 17, 21, 21, 10],
        'x' => [0, 0, 17, 10, 4, 10, 17],
        'y' => [0, 0, 17, 17, 15, 1, 14],
        'z' => [0, 0, 31, 2, 4, 8, 31],
        'A' => [14, 17, 17, 31, 17, 17, 17],
        'B' => [30, 17, 17, 30, 17, 17, 30],
        'C' => [14, 17, 16, 16, 16, 17, 14],
        'D' => [30, 17, 17, 17, 17, 17, 30],
        'E' => [31, 16, 16, 30, 16, 16, 31],
        'F' => [31, 16, 16, 30, 16, 16, 16],
        'G' => [14, 17, 16, 23, 17, 17, 15],
        'H' => [17, 17, 17, 31, 17, 17, 17],
        'I' => [14, 4, 4, 4, 4, 4, 14],
        'J' => [7, 2, 2, 2, 2, 18, 12],
        'K' => [17, 18, 20, 24, 20, 18, 17],
        'L' => [16, 16, 16, 16, 16, 16, 31],
        'M' => [17, 27, 21, 21, 17, 17, 17],
        'N' => [17, 25, 25, 21, 19, 19, 17],
        'O' => [14, 17, 17, 17, 17, 17, 14],
        'P' => [30, 17, 17, 30, 16, 16, 16],
        'Q' => [14, 17, 17, 17, 21, 18, 13],
        'R' => [30, 17, 17, 30, 20, 18, 17],
        'S' => [15, 16, 16, 14, 1, 1, 30],
        'T' => [31, 4, 4, 4, 4, 4, 4],
        'U' => [17, 17, 17, 17, 17, 17, 14],
        'V' => [17, 17, 17, 17, 17, 10, 4],
        'W' => [17, 17, 17, 21, 21, 21, 10],
        'X' => [17, 17, 10, 4, 10, 17, 17],
        'Y' => [17, 17, 10, 4, 4, 4, 4],
        'Z' => [31, 1, 2, 4, 8, 16, 31],
        '0' => [14, 17, 19, 21, 25, 17, 14],
        '1' => [4, 12, 4, 4, 4, 4, 14],
        '2' => [14, 17, 1, 2, 4, 8, 31],
        '3' => [30, 1, 1, 14, 1, 1, 30],
        '4' => [2, 6, 10, 18, 31, 2, 2],
        '5' => [31, 16, 16, 30, 1, 1, 30],
        '6' => [14, 16, 16, 30, 17, 17, 14],
        '7' => [31, 1, 2, 4, 8, 8, 8],
        '8' => [14, 17, 17, 14, 17, 17, 14],
        '9' => [14, 17, 17, 15, 1, 1, 14],
        ' ' => [0, 0, 0, 0, 0, 0, 0],
        '.' => [0, 0, 0, 0, 0, 6, 6],
        '-' => [0, 0, 0, 31, 0, 0, 0],
        '_' => [0, 0, 0, 0, 0, 0, 31],
        '/' => [1, 2, 2, 4, 8, 8, 16],
        '(' => [2, 4, 8, 8, 8, 4, 2],
        ')' => [8, 4, 2, 2, 2, 4, 8],
        ':' => [0, 6, 6, 0, 6, 6, 0],
        _ => [14, 17, 1, 2, 4, 0, 4],
    }
}

} // verus!
