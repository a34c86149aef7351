//! The canvas: a sparse, growable grid of Braille cells addressed by
//! dot coordinates, with line, rectangle and ellipse drawing and
//! serialization to text rows.

use vstd::prelude::*;
use vstd::math::*;
use crate::cell::{Cell, CellMap, store_clear, store_get, store_insert, store_new};
use crate::raster::{
    axis_delta, box_center, ellipse_axis_pair, ellipse_err, ellipse_group, ellipse_main,
    ellipse_tail, ellipse_trace, lemma_append_keeps, lemma_axis_pair_closed,
    lemma_dx_bound, lemma_empty_closed, lemma_err_bound, lemma_err_init, lemma_err_step_dx,
    lemma_single_closed,
    lemma_err_step_dy,
    lemma_extend_group, lemma_extend_pair, lemma_group_closed, lemma_group_has_poles,
    lemma_group_near, line_points, line_seq, mirrors_closed, points_near,
};
use vstd::string::{StrSliceExecFns, StringExecFns};
use crate::paint::{char_from_code, paint, push_char};

verus! {

/// The cell coordinate addressing the dot `(x, y)`: each cell is two
/// dots wide and four dots tall, and coordinates wrap at the cell
/// grid's `u16` limits.
pub open spec fn cell_key(x: u32, y: u32) -> (u16, u16) {
    ((x / 2) as u16, (y / 4) as u16)
}

/// The bit within a cell's dot bitmask that stands for the dot
/// `(x, y)`: bits 0, 1, 2 and 6 are the left column's rows from top to
/// bottom, bits 3, 4, 5 and 7 the right column's.
pub open spec fn spec_mask(x: u32, y: u32) -> u8 {
    if x % 2 == 0 {
        if y % 4 == 0 {
            0x01u8
        } else if y % 4 == 1 {
            0x02u8
        } else if y % 4 == 2 {
            0x04u8
        } else {
            0x40u8
        }
    } else {
        if y % 4 == 0 {
            0x08u8
        } else if y % 4 == 1 {
            0x10u8
        } else if y % 4 == 2 {
            0x20u8
        } else {
            0x80u8
        }
    }
}

/// A cell that was never written: no dots, a space as its character,
/// no color.
pub open spec fn blank_cell() -> Cell {
    Cell { dots: 0u8, ch: ' ', paint: None }
}

/// The content stored for cell `k`, or a blank cell if none is.
pub open spec fn cell_at(m: Map<(u16, u16), Cell>, k: (u16, u16)) -> Cell {
    if m.contains_key(k) {
        m[k]
    } else {
        blank_cell()
    }
}

/// The cell mapping after the dot `(x, y)` is set: its bit is turned
/// on, and the cell is forced back to plain dot display, dropping any
/// character override or color.
pub open spec fn spec_set(m: Map<(u16, u16), Cell>, x: u32, y: u32) -> Map<(u16, u16), Cell> {
    let k = cell_key(x, y);
    m.insert(k, Cell { dots: cell_at(m, k).dots | spec_mask(x, y), ch: ' ', paint: None })
}

/// The cell mapping after the dot `(x, y)` is set with color `color`:
/// as `spec_set`, but the cell is tagged to draw its dots in that
/// color; the last written color wins.
pub open spec fn spec_set_colored(
    m: Map<(u16, u16), Cell>,
    x: u32,
    y: u32,
    color: colored::Color,
) -> Map<(u16, u16), Cell> {
    let k = cell_key(x, y);
    m.insert(
        k,
        Cell { dots: cell_at(m, k).dots | spec_mask(x, y), ch: ' ', paint: Some(color) },
    )
}

/// The cell mapping after the cell holding `(x, y)` is overridden to
/// show the character `c`: all dots accumulated there are dropped.
pub open spec fn spec_set_char(m: Map<(u16, u16), Cell>, x: u32, y: u32, c: char) -> Map<
    (u16, u16),
    Cell,
> {
    m.insert(cell_key(x, y), Cell { dots: 0u8, ch: c, paint: None })
}

/// The cell mapping after the dot `(x, y)` is cleared: only its bit
/// changes; character and color are left as they were.
pub open spec fn spec_unset(m: Map<(u16, u16), Cell>, x: u32, y: u32) -> Map<(u16, u16), Cell> {
    let k = cell_key(x, y);
    let c = cell_at(m, k);
    m.insert(k, Cell { dots: c.dots & !spec_mask(x, y), ch: c.ch, paint: c.paint })
}

/// The cell mapping after the dot `(x, y)` is flipped: only its bit
/// changes; character and color are left as they were.
pub open spec fn spec_toggle(m: Map<(u16, u16), Cell>, x: u32, y: u32) -> Map<(u16, u16), Cell> {
    let k = cell_key(x, y);
    let c = cell_at(m, k);
    m.insert(k, Cell { dots: c.dots ^ spec_mask(x, y), ch: c.ch, paint: c.paint })
}

/// Whether the dot `(x, y)` is set: false wherever no cell was ever
/// created.
pub open spec fn spec_get(m: Map<(u16, u16), Cell>, x: u32, y: u32) -> bool {
    cell_at(m, cell_key(x, y)).dots & spec_mask(x, y) != 0
}

/// The cell mapping after every dot of `pts` is set, in order.
pub open spec fn draw_seq(m: Map<(u16, u16), Cell>, pts: Seq<(u32, u32)>) -> Map<
    (u16, u16),
    Cell,
>
    decreases pts.len(),
{
    if pts.len() == 0 {
        m
    } else {
        spec_set(draw_seq(m, pts.drop_last()), pts.last().0, pts.last().1)
    }
}

/// The cell mapping after every dot of `pts` is set with `color`, in
/// order.
pub open spec fn draw_seq_colored(
    m: Map<(u16, u16), Cell>,
    pts: Seq<(u32, u32)>,
    color: colored::Color,
) -> Map<(u16, u16), Cell>
    decreases pts.len(),
{
    if pts.len() == 0 {
        m
    } else {
        spec_set_colored(draw_seq_colored(m, pts.drop_last(), color), pts.last().0, pts.last().1, color)
    }
}

/// The cell mapping after the first `n` characters of `s` are written
/// as cell overrides, left to right from `(x, y)`, two dot columns per
/// character, those whose offset exceeds `maxw` left out.
pub open spec fn text_cells(
    m: Map<(u16, u16), Cell>,
    x: u32,
    y: u32,
    maxw: u32,
    s: Seq<char>,
    n: int,
) -> Map<(u16, u16), Cell>
    decreases n,
{
    if n <= 0 {
        m
    } else {
        let prev = text_cells(m, x, y, maxw, s, n - 1);
        if 2 * (n - 1) <= maxw {
            spec_set_char(prev, (x + 2 * (n - 1)) as u32, y, s[n - 1])
        } else {
            prev
        }
    }
}

/// The largest column offset `text` actually writes at: two per
/// character, capped by the largest even offset within `maxw`.
pub open spec fn text_span(maxw: u32, len: int) -> int {
    min(2 * (len - 1), 2 * ((maxw / 2) as int))
}

/// Once one character's offset exceeds `maxw`, every later one's does
/// too, so the written cells no longer change.
proof fn lemma_text_cells_stops(
    m: Map<(u16, u16), Cell>,
    x: u32,
    y: u32,
    maxw: u32,
    s: Seq<char>,
    i: int,
    n: int,
)
    requires
        0 <= i <= n,
        2 * i > maxw,
    ensures
        text_cells(m, x, y, maxw, s, n) == text_cells(m, x, y, maxw, s, i),
    decreases n,
{
    if n > i {
        lemma_text_cells_stops(m, x, y, maxw, s, i, n - 1);
    }
}

/// The character one cell renders to before coloring: its override
/// character while no dot is set, else the Braille character whose
/// code point is `0x2800` plus the dot bitmask.
pub open spec fn glyph(c: Cell) -> char {
    if c.dots == 0 {
        c.ch
    } else {
        (0x2800 + c.dots as int) as char
    }
}

/// Whether a cell renders as its bare glyph: it shows its override
/// character, or it carries no color.
pub open spec fn is_plain(c: Cell) -> bool {
    c.dots == 0 || c.paint is None
}

/// Whether every written cell renders as its bare glyph.
pub open spec fn all_plain(m: Map<(u16, u16), Cell>) -> bool {
    forall|k: (u16, u16)| #[trigger] m.contains_key(k) ==> is_plain(m[k])
}

/// The characters row `yy` serializes to when every cell renders
/// plainly: one glyph per cell column.
pub open spec fn plain_row(m: Map<(u16, u16), Cell>, yy: int, n: int) -> Seq<char> {
    Seq::new(n as nat, |xx: int| glyph(cell_at(m, (xx as u16, yy as u16))))
}

/// What one serialized cell may look like: exactly its glyph when it
/// renders plainly, and any text holding the glyph when it is colored,
/// since the escape sequences around it depend on the terminal.
pub open spec fn cell_render_ok(c: Cell, s: Seq<char>) -> bool {
    if is_plain(c) {
        s == seq![glyph(c)]
    } else {
        s.contains(glyph(c))
    }
}

/// What one serialized row may look like: one rendered cell after the
/// other, over the first `n` cell columns of row `yy`.
pub open spec fn row_render_ok(m: Map<(u16, u16), Cell>, yy: int, n: int, s: Seq<char>) -> bool
    decreases n,
{
    if n <= 0 {
        s == Seq::<char>::empty()
    } else {
        exists|s1: Seq<char>, s2: Seq<char>|
            s == s1 + s2 && row_render_ok(m, yy, n - 1, s1) && cell_render_ok(
                cell_at(m, ((n - 1) as u16, yy as u16)),
                s2,
            )
    }
}

/// The serialized rows joined with newline separators, none trailing.
pub open spec fn join_rows(rs: Seq<Seq<char>>) -> Seq<char>
    decreases rs.len(),
{
    if rs.len() == 0 {
        Seq::<char>::empty()
    } else if rs.len() == 1 {
        rs[0]
    } else {
        join_rows(rs.drop_last()) + seq!['\n'] + rs.last()
    }
}

/// A canvas that draws to the terminal with Braille characters.
///
/// Dots can be set anywhere; writing beyond the current extent grows
/// the rendered area, and the pixel dimensions given at construction
/// only set a minimum.
pub struct Canvas {
    chars: CellMap,
    width: u16,
    height: u16,
    xmax: u16,
    ymax: u16,
}

impl Canvas {
    /// The mapping from cell coordinate to cell content.
    pub closed spec fn cells(&self) -> Map<(u16, u16), Cell> {
        self.chars@
    }

    /// The configured minimum extent, in cell columns.
    pub closed spec fn min_width(&self) -> u16 {
        self.width
    }

    /// The configured minimum extent, in cell rows.
    pub closed spec fn min_height(&self) -> u16 {
        self.height
    }

    /// The largest cell column holding an entry, zero if none does.
    pub closed spec fn col_extent(&self) -> u16 {
        self.xmax
    }

    /// The largest cell row holding an entry, zero if none does.
    pub closed spec fn row_extent(&self) -> u16 {
        self.ymax
    }

    /// The recorded extents bound every entry and are reached by one,
    /// wherever they exceed zero.
    pub closed spec fn wf(&self) -> bool {
        &&& forall|k: (u16, u16)|
            #[trigger] self.chars@.contains_key(k) ==> k.0 <= self.xmax && k.1 <= self.ymax
        &&& self.xmax != 0 ==> exists|k: (u16, u16)|
            #[trigger] self.chars@.contains_key(k) && k.0 == self.xmax
        &&& self.ymax != 0 ==> exists|k: (u16, u16)|
            #[trigger] self.chars@.contains_key(k) && k.1 == self.ymax
    }

    /// How many cell columns a serialized row spans.
    pub open spec fn ncols(&self) -> int {
        max(self.min_width() as int, self.col_extent() as int) + 1
    }

    /// How many rows `rows()` serializes to.
    pub open spec fn nrows(&self) -> int {
        max(self.min_height() as int, self.row_extent() as int) + 1
    }

    /// Creates a new `Canvas` with the given pixel width and height,
    /// floor-divided to whole cells as the minimum visible extent.
    ///
    /// The canvas still draws outside these dimensions if a dot is set
    /// there, growing the rendered area.
    pub fn new(width: u32, height: u32) -> (c: Canvas)
        ensures
            c.wf(),
            c.cells() == Map::<(u16, u16), Cell>::empty(),
            c.min_width() == (width / 2) as u16,
            c.min_height() == (height / 4) as u16,
            c.col_extent() == 0,
            c.row_extent() == 0,
    {
        let c = Canvas {
            chars: store_new(),
            width: (width / 2) as u16,
            height: (height / 4) as u16,
            xmax: 0,
            ymax: 0,
        };
        proof {
            assert(c.chars@ =~= Map::<(u16, u16), Cell>::empty());
        }
        c
    }

    /// Clears the canvas: every cell is removed, while the configured
    /// minimum extent stays.
    pub fn clear(&mut self)
        ensures
            final(self).wf(),
            final(self).cells() == Map::<(u16, u16), Cell>::empty(),
            final(self).min_width() == old(self).min_width(),
            final(self).min_height() == old(self).min_height(),
            final(self).col_extent() == 0,
            final(self).row_extent() == 0,
    {
        store_clear(&mut self.chars);
        self.xmax = 0;
        self.ymax = 0;
        proof {
            assert(self.chars@ =~= Map::<(u16, u16), Cell>::empty());
        }
    }

    /// A mapping that keeps every entry of `m` also keeps the entries
    /// that reach the recorded extents.
    proof fn lemma_extent_witnesses(
        m: Map<(u16, u16), Cell>,
        m2: Map<(u16, u16), Cell>,
        xmax: u16,
        ymax: u16,
    )
        requires
            forall|q: (u16, u16)| #[trigger] m.contains_key(q) ==> m2.contains_key(q),
            xmax != 0 ==> exists|q: (u16, u16)| #[trigger] m.contains_key(q) && q.0 == xmax,
            ymax != 0 ==> exists|q: (u16, u16)| #[trigger] m.contains_key(q) && q.1 == ymax,
        ensures
            xmax != 0 ==> exists|q: (u16, u16)| #[trigger] m2.contains_key(q) && q.0 == xmax,
            ymax != 0 ==> exists|q: (u16, u16)| #[trigger] m2.contains_key(q) && q.1 == ymax,
    {
        if xmax != 0 {
            let q = choose|q: (u16, u16)| #[trigger] m.contains_key(q) && q.0 == xmax;
            assert(m2.contains_key(q));
        }
        if ymax != 0 {
            let q = choose|q: (u16, u16)| #[trigger] m.contains_key(q) && q.1 == ymax;
            assert(m2.contains_key(q));
        }
    }

    /// Records that cell `k` now holds an entry, growing the tracked
    /// extents.
    fn touch(&mut self, k: (u16, u16))
        requires
            old(self).cells().contains_key(k),
            forall|q: (u16, u16)|
                #[trigger] old(self).cells().contains_key(q) && q != k ==> q.0 <= old(
                    self,
                ).col_extent() && q.1 <= old(self).row_extent(),
            old(self).col_extent() != 0 && k.0 < old(self).col_extent() ==> exists|q: (u16, u16)|
                #[trigger] old(self).cells().contains_key(q) && q.0 == old(self).col_extent(),
            old(self).row_extent() != 0 && k.1 < old(self).row_extent() ==> exists|q: (u16, u16)|
                #[trigger] old(self).cells().contains_key(q) && q.1 == old(self).row_extent(),
        ensures
            final(self).wf(),
            final(self).cells() == old(self).cells(),
            final(self).min_width() == old(self).min_width(),
            final(self).min_height() == old(self).min_height(),
            final(self).col_extent() as int == max(old(self).col_extent() as int, k.0 as int),
            final(self).row_extent() as int == max(old(self).row_extent() as int, k.1 as int),
    {
        if k.0 > self.xmax {
            self.xmax = k.0;
        }
        if k.1 > self.ymax {
            self.ymax = k.1;
        }
        proof {
            if k.0 == self.xmax {
                assert(self.chars@.contains_key(k) && k.0 == self.xmax);
            }
            if k.1 == self.ymax {
                assert(self.chars@.contains_key(k) && k.1 == self.ymax);
            }
        }
    }

    /// Sets the dot at `(x, y)`, putting its cell back into plain dot
    /// display.
    pub fn set(&mut self, x: u32, y: u32)
        requires
            old(self).wf(),
        ensures
            final(self).wf(),
            final(self).cells() == spec_set(old(self).cells(), x, y),
            final(self).min_width() == old(self).min_width(),
            final(self).min_height() == old(self).min_height(),
            final(self).col_extent() as int == max(
                old(self).col_extent() as int,
                cell_key(x, y).0 as int,
            ),
            final(self).row_extent() as int == max(
                old(self).row_extent() as int,
                cell_key(x, y).1 as int,
            ),
    {
        let k: (u16, u16) = ((x / 2) as u16, (y / 4) as u16);
        let mask = dot_mask(x, y);
        let prev = match store_get(&self.chars, k) {
            Some(c) => c,
            None => Cell { dots: 0, ch: ' ', paint: None },
        };
        store_insert(&mut self.chars, k, Cell { dots: prev.dots | mask, ch: ' ', paint: None });
        proof {
            Self::lemma_extent_witnesses(
                old(self).cells(),
                self.cells(),
                old(self).col_extent(),
                old(self).row_extent(),
            );
        }
        self.touch(k);
    }

    /// Sets the dot at `(x, y)` and tags its cell to draw in `color`;
    /// the last written color wins.
    pub fn set_colored(&mut self, x: u32, y: u32, color: colored::Color)
        requires
            old(self).wf(),
        ensures
            final(self).wf(),
            final(self).cells() == spec_set_colored(old(self).cells(), x, y, color),
            final(self).min_width() == old(self).min_width(),
            final(self).min_height() == old(self).min_height(),
            final(self).col_extent() as int == max(
                old(self).col_extent() as int,
                cell_key(x, y).0 as int,
            ),
            final(self).row_extent() as int == max(
                old(self).row_extent() as int,
                cell_key(x, y).1 as int,
            ),
    {
        let k: (u16, u16) = ((x / 2) as u16, (y / 4) as u16);
        let mask = dot_mask(x, y);
        let prev = match store_get(&self.chars, k) {
            Some(c) => c,
            None => Cell { dots: 0, ch: ' ', paint: None },
        };
        store_insert(
            &mut self.chars,
            k,
            Cell { dots: prev.dots | mask, ch: ' ', paint: Some(color) },
        );
        proof {
            Self::lemma_extent_witnesses(
                old(self).cells(),
                self.cells(),
                old(self).col_extent(),
                old(self).row_extent(),
            );
        }
        self.touch(k);
    }

    /// Overrides the cell holding `(x, y)` to show the character `c`,
    /// dropping any dots accumulated there.
    pub fn set_char(&mut self, x: u32, y: u32, c: char)
        requires
            old(self).wf(),
        ensures
            final(self).wf(),
            final(self).cells() == spec_set_char(old(self).cells(), x, y, c),
            final(self).min_width() == old(self).min_width(),
            final(self).min_height() == old(self).min_height(),
            final(self).col_extent() as int == max(
                old(self).col_extent() as int,
                cell_key(x, y).0 as int,
            ),
            final(self).row_extent() as int == max(
                old(self).row_extent() as int,
                cell_key(x, y).1 as int,
            ),
    {
        let k: (u16, u16) = ((x / 2) as u16, (y / 4) as u16);
        store_insert(&mut self.chars, k, Cell { dots: 0, ch: c, paint: None });
        proof {
            Self::lemma_extent_witnesses(
                old(self).cells(),
                self.cells(),
                old(self).col_extent(),
                old(self).row_extent(),
            );
        }
        self.touch(k);
    }

    /// Clears the dot at `(x, y)`; other dots, the cell's character
    /// and its color stay as they were.
    pub fn unset(&mut self, x: u32, y: u32)
        requires
            old(self).wf(),
        ensures
            final(self).wf(),
            final(self).cells() == spec_unset(old(self).cells(), x, y),
            final(self).min_width() == old(self).min_width(),
            final(self).min_height() == old(self).min_height(),
            final(self).col_extent() as int == max(
                old(self).col_extent() as int,
                cell_key(x, y).0 as int,
            ),
            final(self).row_extent() as int == max(
                old(self).row_extent() as int,
                cell_key(x, y).1 as int,
            ),
    {
        let k: (u16, u16) = ((x / 2) as u16, (y / 4) as u16);
        let mask = dot_mask(x, y);
        let prev = match store_get(&self.chars, k) {
            Some(c) => c,
            None => Cell { dots: 0, ch: ' ', paint: None },
        };
        store_insert(
            &mut self.chars,
            k,
            Cell { dots: prev.dots & !mask, ch: prev.ch, paint: prev.paint },
        );
        proof {
            Self::lemma_extent_witnesses(
                old(self).cells(),
                self.cells(),
                old(self).col_extent(),
                old(self).row_extent(),
            );
        }
        self.touch(k);
    }

    /// Flips the dot at `(x, y)`; other dots, the cell's character and
    /// its color stay as they were.
    pub fn toggle(&mut self, x: u32, y: u32)
        requires
            old(self).wf(),
        ensures
            final(self).wf(),
            final(self).cells() == spec_toggle(old(self).cells(), x, y),
            final(self).min_width() == old(self).min_width(),
            final(self).min_height() == old(self).min_height(),
            final(self).col_extent() as int == max(
                old(self).col_extent() as int,
                cell_key(x, y).0 as int,
            ),
            final(self).row_extent() as int == max(
                old(self).row_extent() as int,
                cell_key(x, y).1 as int,
            ),
    {
        let k: (u16, u16) = ((x / 2) as u16, (y / 4) as u16);
        let mask = dot_mask(x, y);
        let prev = match store_get(&self.chars, k) {
            Some(c) => c,
            None => Cell { dots: 0, ch: ' ', paint: None },
        };
        store_insert(
            &mut self.chars,
            k,
            Cell { dots: prev.dots ^ mask, ch: prev.ch, paint: prev.paint },
        );
        proof {
            Self::lemma_extent_witnesses(
                old(self).cells(),
                self.cells(),
                old(self).col_extent(),
                old(self).row_extent(),
            );
        }
        self.touch(k);
    }

    /// Whether the dot at `(x, y)` is set.
    pub fn get(&self, x: u32, y: u32) -> (r: bool)
        ensures
            r == spec_get(self.cells(), x, y),
    {
        let k: (u16, u16) = ((x / 2) as u16, (y / 4) as u16);
        let mask = dot_mask(x, y);
        proof {
            let m = spec_mask(x, y);
            assert(0u8 & m == 0) by (bit_vector);
        }
        match store_get(&self.chars, k) {
            Some(c) => c.dots & mask != 0,
            None => false,
        }
    }

    /// Writes `text` as cell overrides, left to right from `(x, y)`,
    /// advancing two dot columns per character and stopping once the
    /// advancing offset exceeds `max_width`.
    pub fn text(&mut self, x: u32, y: u32, max_width: u32, text: &str)
        requires
            old(self).wf(),
            text@.len() > 0 ==> x + text_span(max_width, text@.len() as int) <= u32::MAX,
        ensures
            final(self).wf(),
            final(self).cells() == text_cells(
                old(self).cells(),
                x,
                y,
                max_width,
                text@,
                text@.len() as int,
            ),
            final(self).min_width() == old(self).min_width(),
            final(self).min_height() == old(self).min_height(),
    {
        let n = text.unicode_len();
        let mut i: usize = 0;
        while i < n
            invariant
                self.wf(),
                n == text@.len(),
                i <= n,
                text@.len() > 0 ==> x + text_span(max_width, text@.len() as int) <= u32::MAX,
                self.cells() == text_cells(old(self).cells(), x, y, max_width, text@, i as int),
                self.min_width() == old(self).min_width(),
                self.min_height() == old(self).min_height(),
            decreases n - i,
        {
            if i > (u32::MAX / 2) as usize {
                proof {
                    lemma_text_cells_stops(
                        old(self).cells(),
                        x,
                        y,
                        max_width,
                        text@,
                        i as int,
                        text@.len() as int,
                    );
                }
                return;
            }
            let w: u32 = (i as u32) * 2;
            if w > max_width {
                proof {
                    lemma_text_cells_stops(
                        old(self).cells(),
                        x,
                        y,
                        max_width,
                        text@,
                        i as int,
                        text@.len() as int,
                    );
                }
                return;
            }
            let c = text.get_char(i);
            proof {
                vstd::arithmetic::div_mod::lemma_div_is_ordered(
                    2 * (i as int),
                    max_width as int,
                    2,
                );
                assert((2 * (i as int)) / 2 == i as int);
                assert(2 * (i as int) <= text_span(max_width, text@.len() as int));
                assert(x + 2 * (i as int) <= u32::MAX);
            }
            self.set_char(x + w, y, c);
            i = i + 1;
        }
    }

    /// Draws the digital line from `(x1, y1)` to `(x2, y2)`: every
    /// rasterized dot is set, in step order.
    pub fn line(&mut self, x1: u32, y1: u32, x2: u32, y2: u32)
        requires
            old(self).wf(),
        ensures
            final(self).wf(),
            final(self).cells() == draw_seq(old(self).cells(), line_seq(x1, y1, x2, y2)),
            final(self).min_width() == old(self).min_width(),
            final(self).min_height() == old(self).min_height(),
    {
        let pts = line_points(x1, y1, x2, y2);
        let ghost target = line_seq(x1, y1, x2, y2);
        let mut i: usize = 0;
        while i < pts.len()
            invariant
                self.wf(),
                i <= pts@.len(),
                pts@ == target,
                self.cells() == draw_seq(old(self).cells(), target.take(i as int)),
                self.min_width() == old(self).min_width(),
                self.min_height() == old(self).min_height(),
            decreases pts@.len() - i,
        {
            let p = pts[i];
            self.set(p.0, p.1);
            proof {
                assert(target.take(i as int + 1).drop_last() =~= target.take(i as int));
            }
            i = i + 1;
        }
        proof {
            assert(target.take(pts@.len() as int) =~= target);
        }
    }

    /// Draws the digital line from `(x1, y1)` to `(x2, y2)` with every
    /// dot set in `color`.
    pub fn line_colored(&mut self, x1: u32, y1: u32, x2: u32, y2: u32, color: colored::Color)
        requires
            old(self).wf(),
        ensures
            final(self).wf(),
            final(self).cells() == draw_seq_colored(
                old(self).cells(),
                line_seq(x1, y1, x2, y2),
                color,
            ),
            final(self).min_width() == old(self).min_width(),
            final(self).min_height() == old(self).min_height(),
    {
        let pts = line_points(x1, y1, x2, y2);
        let ghost target = line_seq(x1, y1, x2, y2);
        let mut i: usize = 0;
        while i < pts.len()
            invariant
                self.wf(),
                i <= pts@.len(),
                pts@ == target,
                self.cells() == draw_seq_colored(old(self).cells(), target.take(i as int), color),
                self.min_width() == old(self).min_width(),
                self.min_height() == old(self).min_height(),
            decreases pts@.len() - i,
        {
            let p = pts[i];
            self.set_colored(p.0, p.1, color);
            proof {
                assert(target.take(i as int + 1).drop_last() =~= target.take(i as int));
            }
            i = i + 1;
        }
        proof {
            assert(target.take(pts@.len() as int) =~= target);
        }
    }

    /// Draws the rectangle whose opposite corners are `(x1, y1)` and
    /// `(x2, y2)`, one edge line after the other.
    pub fn rectangle(&mut self, x1: u32, y1: u32, x2: u32, y2: u32)
        requires
            old(self).wf(),
        ensures
            final(self).wf(),
            final(self).cells() == draw_seq(
                draw_seq(
                    draw_seq(
                        draw_seq(old(self).cells(), line_seq(x1, y1, x2, y1)),
                        line_seq(x1, y1, x1, y2),
                    ),
                    line_seq(x1, y2, x2, y2),
                ),
                line_seq(x2, y1, x2, y2),
            ),
            final(self).min_width() == old(self).min_width(),
            final(self).min_height() == old(self).min_height(),
    {
        self.line(x1, y1, x2, y1);
        self.line(x1, y1, x1, y2);
        self.line(x1, y2, x2, y2);
        self.line(x2, y1, x2, y2);
    }

    /// Setting one more dot extends the drawn sequence by one.
    proof fn lemma_draw_snoc(m: Map<(u16, u16), Cell>, pts: Seq<(u32, u32)>, p: (u32, u32))
        ensures
            draw_seq(m, pts.push(p)) == spec_set(draw_seq(m, pts), p.0, p.1),
    {
        assert(pts.push(p).drop_last() =~= pts);
        assert(pts.push(p).last() == p);
    }

    /// Drawing one dot sequence after another draws their
    /// concatenation.
    proof fn lemma_draw_concat(m: Map<(u16, u16), Cell>, s1: Seq<(u32, u32)>, s2: Seq<(u32, u32)>)
        ensures
            draw_seq(draw_seq(m, s1), s2) == draw_seq(m, s1 + s2),
        decreases s2.len(),
    {
        if s2.len() == 0 {
            assert(s1 + s2 =~= s1);
        } else {
            Self::lemma_draw_concat(m, s1, s2.drop_last());
            assert((s1 + s2).drop_last() =~= s1 + s2.drop_last());
            assert((s1 + s2).last() == s2.last());
        }
    }

    /// Sets the up-to-four mirrored boundary points for the offsets
    /// `(dx, dy)` from the center `(xm, ym)`, dropping mirrors whose
    /// coordinate would go negative.
    fn emit_group(&mut self, xm: u32, ym: u32, dx: u32, dy: u32)
        requires
            old(self).wf(),
            xm + dx <= u32::MAX,
            ym + dy <= u32::MAX,
        ensures
            final(self).wf(),
            final(self).min_width() == old(self).min_width(),
            final(self).min_height() == old(self).min_height(),
            final(self).cells() == draw_seq(old(self).cells(), ellipse_group(xm, ym, dx, dy)),
    {
        let ghost orig = old(self).cells();
        let ghost mut pts: Seq<(u32, u32)> = Seq::empty();
        self.set(xm + dx, ym + dy);
        proof {
            Self::lemma_draw_snoc(orig, pts, ((xm + dx) as u32, (ym + dy) as u32));
            pts = pts.push(((xm + dx) as u32, (ym + dy) as u32));
        }
        if xm >= dx {
            self.set(xm - dx, ym + dy);
            proof {
                Self::lemma_draw_snoc(orig, pts, ((xm - dx) as u32, (ym + dy) as u32));
                pts = pts.push(((xm - dx) as u32, (ym + dy) as u32));
            }
            if ym >= dy {
                self.set(xm - dx, ym - dy);
                proof {
                    Self::lemma_draw_snoc(orig, pts, ((xm - dx) as u32, (ym - dy) as u32));
                    pts = pts.push(((xm - dx) as u32, (ym - dy) as u32));
                }
            }
        }
        if ym >= dy {
            self.set(xm + dx, ym - dy);
            proof {
                Self::lemma_draw_snoc(orig, pts, ((xm + dx) as u32, (ym - dy) as u32));
                pts = pts.push(((xm + dx) as u32, (ym - dy) as u32));
            }
        }
        proof {
            assert(pts =~= ellipse_group(xm, ym, dx, dy));
        }
    }

    /// Sets the mirrored pair for the offset `dx` on the center row,
    /// dropping the mirror if its coordinate would go negative.
    fn emit_axis_pair(&mut self, xm: u32, ym: u32, dx: u32)
        requires
            old(self).wf(),
            xm + dx <= u32::MAX,
        ensures
            final(self).wf(),
            final(self).min_width() == old(self).min_width(),
            final(self).min_height() == old(self).min_height(),
            final(self).cells() == draw_seq(old(self).cells(), ellipse_axis_pair(xm, ym, dx)),
    {
        let ghost orig = old(self).cells();
        let ghost mut pts: Seq<(u32, u32)> = Seq::empty();
        self.set(xm + dx, ym);
        proof {
            Self::lemma_draw_snoc(orig, pts, ((xm + dx) as u32, ym));
            pts = pts.push(((xm + dx) as u32, ym));
        }
        if xm >= dx {
            self.set(xm - dx, ym);
            proof {
                Self::lemma_draw_snoc(orig, pts, ((xm - dx) as u32, ym));
                pts = pts.push(((xm - dx) as u32, ym));
            }
        }
        proof {
            assert(pts =~= ellipse_axis_pair(xm, ym, dx));
        }
    }

    /// Draws the ellipse centered at `(xm, ym)` with horizontal radius
    /// `a` and vertical radius `b`, by midpoint stepping with 4-way
    /// mirroring; a mirrored point that would need a negative
    /// coordinate is dropped.
    ///
    /// Exactly the dots of `ellipse_trace` are set, in its order; that
    /// point set is symmetric across both center axes except for the
    /// dropped mirrors, stays within `b` rows and a step beyond `2 a`
    /// columns of the center, and reaches the vertical extremes of the
    /// ellipse.
    #[verifier::rlimit(40)]
    pub fn ellipse_center(&mut self, xm: u32, ym: u32, a: u32, b: u32)
        requires
            old(self).wf(),
            a <= 0xFFFF,
            b <= 0xFFFF,
            xm + 2 * a + 1 <= u32::MAX,
            ym + b <= u32::MAX,
        ensures
            final(self).wf(),
            final(self).min_width() == old(self).min_width(),
            final(self).min_height() == old(self).min_height(),
            final(self).cells() == draw_seq(old(self).cells(), ellipse_trace(xm, ym, a, b)),
            mirrors_closed(ellipse_trace(xm, ym, a, b), xm, ym),
            points_near(ellipse_trace(xm, ym, a, b), xm, ym, 2 * a + 1, b as int),
            ellipse_trace(xm, ym, a, b).contains((xm, (ym + b) as u32)),
            ym >= b ==> ellipse_trace(xm, ym, a, b).contains((xm, (ym - b) as u32)),
    {
        let ghost orig = old(self).cells();
        let ghost mw = old(self).min_width();
        let ghost mh = old(self).min_height();
        let ghost trace = ellipse_trace(xm, ym, a, b);
        if b == 0 {
            if a == 0 {
                self.set(xm, ym);
                proof {
                    let pts = seq![(xm, ym)];
                    Self::lemma_draw_snoc(orig, Seq::empty(), (xm, ym));
                    assert(pts =~= Seq::<(u32, u32)>::empty().push((xm, ym)));
                    assert(trace =~= pts);
                    assert(self.cells() == draw_seq(orig, trace));
                    lemma_single_closed((xm, ym), xm, ym, 2 * a + 1, b as int);
                    assert(trace.contains((xm, (ym + b) as u32)));
                    assert(trace.contains((xm, (ym - b) as u32)));
                }
                return;
            }
            self.emit_group(xm, ym, 0, 0);
            let ghost mut pts: Seq<(u32, u32)> = ellipse_group(xm, ym, 0, 0);
            proof {
                lemma_group_closed(xm, ym, 0, 0);
                lemma_group_near(xm, ym, 0, 0, 2 * a + 1, b as int);
                lemma_group_has_poles(xm, ym, 0);
                assert(pts.contains((xm, (ym + b) as u32)));
                assert(pts.contains((xm, (ym - b) as u32)));
            }
            let mut dx: u32 = 0;
            while dx < a
                invariant
                    self.wf(),
                    self.min_width() == mw,
                    self.min_height() == mh,
                    a <= 0xFFFF,
                    b == 0,
                    xm + 2 * a + 1 <= u32::MAX,
                    dx <= a,
                    trace == ellipse_trace(xm, ym, a, b),
                    trace == pts + ellipse_tail(xm, ym, dx as int, a as int),
                    self.cells() == draw_seq(orig, pts),
                    mirrors_closed(pts, xm, ym),
                    points_near(pts, xm, ym, 2 * a + 1, b as int),
                    pts.contains((xm, (ym + b) as u32)),
                    pts.contains((xm, (ym - b) as u32)),
                decreases a - dx,
            {
                proof {
                    assert(ellipse_tail(xm, ym, dx as int, a as int) == ellipse_axis_pair(
                        xm,
                        ym,
                        (dx + 1) as u32,
                    ) + ellipse_tail(xm, ym, dx as int + 1, a as int));
                }
                dx = dx + 1;
                let ghost top = pts;
                self.emit_axis_pair(xm, ym, dx);
                proof {
                    Self::lemma_draw_concat(orig, top, ellipse_axis_pair(xm, ym, dx));
                    lemma_extend_pair(top, xm, ym, dx, 2 * a + 1, b as int, b);
                    pts = top + ellipse_axis_pair(xm, ym, dx);
                    assert(trace =~= pts + ellipse_tail(xm, ym, dx as int, a as int));
                }
            }
            proof {
                assert(trace =~= pts);
            }
            return;
        }
        proof {
            vstd::arithmetic::mul::lemma_mul_upper_bound(a as int, 0xFFFF, a as int, 0xFFFF);
            vstd::arithmetic::mul::lemma_mul_upper_bound(b as int, 0xFFFF, b as int, 0xFFFF);
            vstd::arithmetic::mul::lemma_mul_nonnegative(a as int, a as int);
            vstd::arithmetic::mul::lemma_mul_nonnegative(b as int, b as int);
        }
        let a2: i128 = (a as i128) * (a as i128);
        let b2: i128 = (b as i128) * (b as i128);
        let mut dx: u32 = 0;
        let mut dy: u32 = b;
        proof {
            vstd::arithmetic::mul::lemma_mul_upper_bound(
                2 * (b as int) - 1,
                0x1FFFF,
                a2 as int,
                (0xFFFF * 0xFFFF) as int,
            );
            vstd::arithmetic::mul::lemma_mul_nonnegative(2 * (b as int) - 1, a2 as int);
            assert((b as int) * (b as int) >= 1) by (nonlinear_arith)
                requires
                    b as int >= 1;
        }
        let mut err: i128 = b2 - (2 * (b as i128) - 1) * a2;
        let ghost mut pts: Seq<(u32, u32)> = Seq::empty();
        let ghost mut fuel: nat = (2 * (a as int) + 2 + (b as int)) as nat;
        proof {
            lemma_empty_closed(xm, ym, 2 * a + 1, b as int);
            lemma_err_init(a as int, b as int);
            assert(trace == pts + ellipse_main(
                xm,
                ym,
                a2 as int,
                b2 as int,
                dx as int,
                dy as int,
                err as int,
                fuel,
            ).0 + ellipse_tail(
                xm,
                ym,
                ellipse_main(
                    xm,
                    ym,
                    a2 as int,
                    b2 as int,
                    dx as int,
                    dy as int,
                    err as int,
                    fuel,
                ).1,
                a as int,
            )) by {
                let m = ellipse_main(
                    xm,
                    ym,
                    a2 as int,
                    b2 as int,
                    0,
                    b as int,
                    err as int,
                    fuel,
                );
                assert(pts + m.0 =~= m.0);
            }
        }
        loop
            invariant_except_break
                trace == pts + ellipse_main(
                    xm,
                    ym,
                    a2 as int,
                    b2 as int,
                    dx as int,
                    dy as int,
                    err as int,
                    fuel,
                ).0 + ellipse_tail(
                    xm,
                    ym,
                    ellipse_main(
                        xm,
                        ym,
                        a2 as int,
                        b2 as int,
                        dx as int,
                        dy as int,
                        err as int,
                        fuel,
                    ).1,
                    a as int,
                ),
            invariant
                self.wf(),
                self.min_width() == mw,
                self.min_height() == mh,
                a <= 0xFFFF,
                1 <= b <= 0xFFFF,
                xm + 2 * a + 1 <= u32::MAX,
                ym + b <= u32::MAX,
                a2 == (a as int) * (a as int),
                b2 == (b as int) * (b as int),
                0 <= a2 <= (0xFFFF * 0xFFFF) as i128,
                1 <= b2 <= (0xFFFF * 0xFFFF) as i128,
                1 <= dy <= b,
                dx <= 2 * a + 1,
                err == ellipse_err(a as int, b as int, dx as int, dy as int),
                fuel >= 2 * a + 2 - dx + dy,
                trace == ellipse_trace(xm, ym, a, b),
                self.cells() == draw_seq(orig, pts),
                mirrors_closed(pts, xm, ym),
                points_near(pts, xm, ym, 2 * a + 1, b as int),
                pts.len() == 0 ==> dx == 0 && dy == b,
                pts.len() > 0 ==> pts.contains((xm, (ym + b) as u32)) && (ym >= b
                    ==> pts.contains((xm, (ym - b) as u32))),
            ensures
                self.wf(),
                self.min_width() == mw,
                self.min_height() == mh,
                a <= 0xFFFF,
                1 <= b,
                xm + 2 * a + 1 <= u32::MAX,
                dx <= 2 * a + 1,
                trace == ellipse_trace(xm, ym, a, b),
                trace == pts + ellipse_tail(xm, ym, dx as int, a as int),
                self.cells() == draw_seq(orig, pts),
                mirrors_closed(pts, xm, ym),
                points_near(pts, xm, ym, 2 * a + 1, b as int),
                pts.contains((xm, (ym + b) as u32)),
                ym >= b ==> pts.contains((xm, (ym - b) as u32)),
            decreases 2 * a + 2 - dx + dy,
        {
            let ghost fuel0 = fuel;
            let ghost dx0 = dx as int;
            let ghost dy0 = dy as int;
            let ghost err0 = err as int;
            let ghost m0 = ellipse_main(xm, ym, a2 as int, b2 as int, dx0, dy0, err0, fuel0);
            let ghost top = pts;
            self.emit_group(xm, ym, dx, dy);
            proof {
                Self::lemma_draw_concat(orig, top, ellipse_group(xm, ym, dx, dy));
                lemma_extend_group(top, xm, ym, dx, dy, 2 * a + 1, b as int, b);
                pts = top + ellipse_group(xm, ym, dx, dy);
                lemma_err_bound(a as int, b as int, dx as int, dy as int);
            }
            let err_plus: i128 = err + err;
            proof {
                vstd::arithmetic::mul::lemma_mul_upper_bound(
                    2 * (dx as int) + 1,
                    0x40003,
                    b2 as int,
                    (0xFFFF * 0xFFFF) as int,
                );
                vstd::arithmetic::mul::lemma_mul_nonnegative(2 * (dx as int) + 1, b2 as int);
            }
            let new_err1: i128 = (2 * (dx as i128) + 1) * b2;
            proof {
                assert(new_err1 as int >= b2 as int) by (nonlinear_arith)
                    requires
                        b2 as int >= 0,
                        dx as int >= 0,
                        new_err1 as int == (2 * (dx as int) + 1) * (b2 as int);
            }
            if err_plus < new_err1 {
                proof {
                    lemma_dx_bound(a as int, b as int, dx as int, dy as int);
                    lemma_err_step_dx(a as int, b as int, dx as int, dy as int);
                }
                dx = dx + 1;
                err = err + new_err1;
            }
            proof {
                vstd::arithmetic::mul::lemma_mul_upper_bound(
                    2 * (dy as int) - 1,
                    0x1FFFF,
                    a2 as int,
                    (0xFFFF * 0xFFFF) as int,
                );
                vstd::arithmetic::mul::lemma_mul_nonnegative(2 * (dy as int) - 1, a2 as int);
                lemma_err_bound(a as int, b as int, dx as int, dy as int);
            }
            let new_err2: i128 = (2 * (dy as i128) - 1) * a2;
            if err_plus > -new_err2 {
                if dy <= 1 {
                    proof {
                        assert(m0.0 == ellipse_group(xm, ym, dx0 as u32, dy0 as u32) && m0.1
                            == dx as int);
                        assert(trace =~= pts + ellipse_tail(xm, ym, dx as int, a as int));
                    }
                    break;
                }
                proof {
                    lemma_err_step_dy(a as int, b as int, dx as int, dy as int);
                }
                dy = dy - 1;
                err = err - new_err2;
            }
            proof {
                fuel = (fuel - 1) as nat;
                let m1 = ellipse_main(
                    xm,
                    ym,
                    a2 as int,
                    b2 as int,
                    dx as int,
                    dy as int,
                    err as int,
                    fuel,
                );
                assert(m0.0 == ellipse_group(xm, ym, dx0 as u32, dy0 as u32) + m1.0 && m0.1
                    == m1.1);
                assert(trace =~= pts + m1.0 + ellipse_tail(xm, ym, m1.1, a as int));
            }
        }
        let mut dx: u32 = dx;
        while dx < a
            invariant
                self.wf(),
                self.min_width() == mw,
                self.min_height() == mh,
                a <= 0xFFFF,
                1 <= b,
                xm + 2 * a + 1 <= u32::MAX,
                dx <= 2 * a + 1,
                trace == ellipse_trace(xm, ym, a, b),
                trace == pts + ellipse_tail(xm, ym, dx as int, a as int),
                self.cells() == draw_seq(orig, pts),
                mirrors_closed(pts, xm, ym),
                points_near(pts, xm, ym, 2 * a + 1, b as int),
                pts.contains((xm, (ym + b) as u32)),
                ym >= b ==> pts.contains((xm, (ym - b) as u32)),
            decreases a - dx,
        {
            proof {
                assert(ellipse_tail(xm, ym, dx as int, a as int) == ellipse_axis_pair(
                    xm,
                    ym,
                    (dx + 1) as u32,
                ) + ellipse_tail(xm, ym, dx as int + 1, a as int));
            }
            dx = dx + 1;
            let ghost top = pts;
            self.emit_axis_pair(xm, ym, dx);
            proof {
                Self::lemma_draw_concat(orig, top, ellipse_axis_pair(xm, ym, dx));
                lemma_extend_pair(top, xm, ym, dx, 2 * a + 1, b as int, b);
                pts = top + ellipse_axis_pair(xm, ym, dx);
                assert(trace =~= pts + ellipse_tail(xm, ym, dx as int, a as int));
            }
        }
        proof {
            assert(trace =~= pts);
        }
    }

    /// Draws the ellipse inscribed in the box with corners `(x1, y1)`
    /// and `(x2, y2)`, in either corner order: the center is the box's
    /// midpoint, the radii its half-extents, rounded toward zero.
    pub fn ellipse_box(&mut self, x1: u32, y1: u32, x2: u32, y2: u32)
        requires
            old(self).wf(),
            axis_delta(x1, x2) / 2 <= 0xFFFF,
            axis_delta(y1, y2) / 2 <= 0xFFFF,
            box_center(x1, x2) + 2 * (axis_delta(x1, x2) / 2) + 1 <= u32::MAX,
            box_center(y1, y2) + axis_delta(y1, y2) / 2 <= u32::MAX,
        ensures
            final(self).wf(),
            final(self).min_width() == old(self).min_width(),
            final(self).min_height() == old(self).min_height(),
            final(self).cells() == draw_seq(
                old(self).cells(),
                ellipse_trace(
                    box_center(x1, x2) as u32,
                    box_center(y1, y2) as u32,
                    (axis_delta(x1, x2) / 2) as u32,
                    (axis_delta(y1, y2) / 2) as u32,
                ),
            ),
            mirrors_closed(
                ellipse_trace(
                    box_center(x1, x2) as u32,
                    box_center(y1, y2) as u32,
                    (axis_delta(x1, x2) / 2) as u32,
                    (axis_delta(y1, y2) / 2) as u32,
                ),
                box_center(x1, x2) as u32,
                box_center(y1, y2) as u32,
            ),
    {
        let ax: u32 = if x1 >= x2 {
            x1 - x2
        } else {
            x2 - x1
        };
        let ay: u32 = if y1 >= y2 {
            y1 - y2
        } else {
            y2 - y1
        };
        let a: u32 = ax / 2;
        let b: u32 = ay / 2;
        let cx: u32 = if x1 >= x2 {
            x2 + a
        } else {
            x2 - a
        };
        let cy: u32 = if y1 >= y2 {
            y2 + b
        } else {
            y2 - b
        };
        self.ellipse_center(cx, cy, a, b);
    }

    /// Sets the minimum width of the rendered area, in cell columns;
    /// already-drawn cells keep counting toward the extent.
    pub fn set_min_width(&mut self, width: u32)
        ensures
            final(self).cells() == old(self).cells(),
            final(self).min_width() == width as u16,
            final(self).min_height() == old(self).min_height(),
            final(self).col_extent() == old(self).col_extent(),
            final(self).row_extent() == old(self).row_extent(),
            old(self).wf() ==> final(self).wf(),
    {
        self.width = width as u16;
    }

    /// Sets the minimum height of the rendered area, in cell rows;
    /// already-drawn cells keep counting toward the extent.
    pub fn set_min_height(&mut self, height: u32)
        ensures
            final(self).cells() == old(self).cells(),
            final(self).min_width() == old(self).min_width(),
            final(self).min_height() == height as u16,
            final(self).col_extent() == old(self).col_extent(),
            final(self).row_extent() == old(self).row_extent(),
            old(self).wf() ==> final(self).wf(),
    {
        self.height = height as u16;
    }

    /// One pen stroke: draws the line from `(x1, y1)` to `(x2, y2)` --
    /// colored wherever a color is held -- while the pen is down, and
    /// leaves the canvas untouched while it is up. Where the canvas
    /// goes depends on the pen and color alone; the caller's position
    /// bookkeeping never does.
    pub fn stroke(
        &mut self,
        pen_down: bool,
        color: Option<colored::Color>,
        x1: u32,
        y1: u32,
        x2: u32,
        y2: u32,
    )
        requires
            old(self).wf(),
        ensures
            final(self).wf(),
            final(self).min_width() == old(self).min_width(),
            final(self).min_height() == old(self).min_height(),
            !pen_down ==> *final(self) == *old(self),
            pen_down && color is None ==> final(self).cells() == draw_seq(
                old(self).cells(),
                line_seq(x1, y1, x2, y2),
            ),
            forall|c: colored::Color|
                pen_down && color == Some(c) ==> final(self).cells() == draw_seq_colored(
                    old(self).cells(),
                    line_seq(x1, y1, x2, y2),
                    c,
                ),
    {
        if pen_down {
            match color {
                Some(c) => self.line_colored(x1, y1, x2, y2, c),
                None => self.line(x1, y1, x2, y2),
            }
        }
    }

    /// The rows a canvas whose every cell renders plainly serializes
    /// to.
    pub open spec fn plain_rows(&self) -> Seq<Seq<char>> {
        Seq::new(self.nrows() as nat, |yy: int| plain_row(self.cells(), yy, self.ncols()))
    }

    /// Serializes one row: the rendered cells of row `yy`, over the
    /// first `ncols` cell columns.
    fn render_row(&self, yy: u16, ncols: u32) -> (s: String)
        requires
            1 <= ncols <= 0x10000,
        ensures
            row_render_ok(self.cells(), yy as int, ncols as int, s@),
            s@.len() >= ncols,
            all_plain(self.cells()) ==> s@ == plain_row(self.cells(), yy as int, ncols as int),
    {
        let mut s = String::new();
        let mut xx: u32 = 0;
        proof {
            assert(s@ =~= Seq::<char>::empty());
        }
        while xx < ncols
            invariant
                xx <= ncols,
                ncols <= 0x10000,
                row_render_ok(self.cells(), yy as int, xx as int, s@),
                s@.len() >= xx,
                all_plain(self.cells()) ==> s@ == plain_row(self.cells(), yy as int, xx as int),
            decreases ncols - xx,
        {
            let k: (u16, u16) = (xx as u16, yy);
            let c = match store_get(&self.chars, k) {
                Some(c) => c,
                None => Cell { dots: 0, ch: ' ', paint: None },
            };
            let ghost pre = s@;
            let ghost cur = cell_at(self.cells(), k);
            let ghost seg: Seq<char>;
            if c.dots == 0 {
                push_char(&mut s, c.ch);
                proof {
                    seg = seq![c.ch];
                    assert(s@ =~= pre + seg);
                }
            } else {
                let code: u32 = 0x2800 + (c.dots as u32);
                let g = char_from_code(code);
                proof {
                    assert(g == glyph(cur));
                }
                match &c.paint {
                    None => {
                        push_char(&mut s, g);
                        proof {
                            seg = seq![g];
                            assert(s@ =~= pre + seg);
                        }
                    },
                    Some(col) => {
                        let piece = paint(g, col);
                        s.append(piece.as_str());
                        proof {
                            seg = piece@;
                            let i = choose|i: int| 0 <= i < seg.len() && seg[i] == g;
                            assert(seg.len() >= 1);
                            if all_plain(self.cells()) {
                                assert(self.cells().contains_key(k));
                                assert(is_plain(cur));
                                assert(false);
                            }
                        }
                    },
                }
            }
            proof {
                assert(cell_render_ok(cur, seg));
                assert(row_render_ok(self.cells(), yy as int, xx as int + 1, s@)) by {
                    assert(s@ == pre + seg);
                    assert(row_render_ok(self.cells(), yy as int, xx as int, pre));
                }
                if all_plain(self.cells()) {
                    assert(plain_row(self.cells(), yy as int, xx as int + 1) =~= plain_row(
                        self.cells(),
                        yy as int,
                        xx as int,
                    ) + seq![glyph(cur)]);
                }
            }
            xx = xx + 1;
        }
        s
    }

    /// Returns one text row per cell row: rows and columns span the
    /// configured minimum extent or the highest cell ever written,
    /// whichever is larger, blank-padded wherever nothing was drawn.
    pub fn rows(&self) -> (r: Vec<String>)
        requires
            self.wf(),
        ensures
            r@.len() == self.nrows(),
            forall|yy: int|
                0 <= yy < r@.len() ==> row_render_ok(
                    self.cells(),
                    yy,
                    self.ncols(),
                    (#[trigger] r@[yy])@,
                ),
            forall|yy: int| 0 <= yy < r@.len() ==> (#[trigger] r@[yy])@.len() >= self.ncols(),
            all_plain(self.cells()) ==> forall|yy: int|
                0 <= yy < r@.len() ==> (#[trigger] r@[yy])@ == plain_row(
                    self.cells(),
                    yy,
                    self.ncols(),
                ),
    {
        let colmax: u16 = if self.width >= self.xmax {
            self.width
        } else {
            self.xmax
        };
        let rowmax: u16 = if self.height >= self.ymax {
            self.height
        } else {
            self.ymax
        };
        let ncols: u32 = colmax as u32 + 1;
        let nrows: u32 = rowmax as u32 + 1;
        let mut result: Vec<String> = Vec::new();
        let mut yy: u32 = 0;
        while yy < nrows
            invariant
                nrows == self.nrows(),
                ncols == self.ncols(),
                1 <= ncols <= 0x10000,
                yy <= nrows,
                result@.len() == yy,
                forall|j: int|
                    0 <= j < yy ==> row_render_ok(
                        self.cells(),
                        j,
                        self.ncols(),
                        (#[trigger] result@[j])@,
                    ),
                forall|j: int| 0 <= j < yy ==> (#[trigger] result@[j])@.len() >= self.ncols(),
                all_plain(self.cells()) ==> forall|j: int|
                    0 <= j < yy ==> (#[trigger] result@[j])@ == plain_row(
                        self.cells(),
                        j,
                        self.ncols(),
                    ),
            decreases nrows - yy,
        {
            let row = self.render_row(yy as u16, ncols);
            result.push(row);
            yy = yy + 1;
        }
        result
    }

    /// Serializes the whole canvas: the rows joined with newline
    /// separators, none trailing.
    pub fn frame(&self) -> (s: String)
        requires
            self.wf(),
        ensures
            exists|rs: Seq<Seq<char>>|
                rs.len() == self.nrows() && (forall|yy: int|
                    0 <= yy < rs.len() ==> row_render_ok(
                        self.cells(),
                        yy,
                        self.ncols(),
                        #[trigger] rs[yy],
                    )) && s@ == join_rows(rs),
            all_plain(self.cells()) ==> s@ == join_rows(self.plain_rows()),
    {
        let rows = self.rows();
        let ghost rsv = Seq::new(rows@.len(), |j: int| rows@[j]@);
        let mut s = String::new();
        let mut i: usize = 0;
        proof {
            assert(s@ =~= Seq::<char>::empty());
            assert(join_rows(rsv.take(0)) == Seq::<char>::empty());
        }
        while i < rows.len()
            invariant
                i <= rows@.len(),
                rsv == Seq::new(rows@.len(), |j: int| rows@[j]@),
                s@ == join_rows(rsv.take(i as int)),
            decreases rows@.len() - i,
        {
            if i > 0 {
                push_char(&mut s, '\n');
            }
            let rowi: &String = &rows[i];
            s.append(rowi.as_str());
            proof {
                assert(rsv.take(i as int + 1).drop_last() =~= rsv.take(i as int));
                if i == 0 {
                    assert(s@ =~= rsv[0]);
                } else {
                    assert(s@ =~= join_rows(rsv.take(i as int)) + seq!['\n'] + rsv[i as int]);
                }
            }
            i = i + 1;
        }
        proof {
            assert(rsv.take(rows@.len() as int) =~= rsv);
            assert(rsv.len() == self.nrows());
            assert(forall|yy: int|
                0 <= yy < rsv.len() ==> row_render_ok(
                    self.cells(),
                    yy,
                    self.ncols(),
                    #[trigger] rsv[yy],
                ));
            if all_plain(self.cells()) {
                assert(rsv =~= self.plain_rows());
            }
        }
        s
    }
}

/// The dot bit for `(x, y)`, as `spec_mask` lays the bits out.
fn dot_mask(x: u32, y: u32) -> (m: u8)
    ensures
        m == spec_mask(x, y),
{
    let xr = x % 2;
    let yr = y % 4;
    if xr == 0 {
        if yr == 0 {
            0x01
        } else if yr == 1 {
            0x02
        } else if yr == 2 {
            0x04
        } else {
            0x40
        }
    } else {
        if yr == 0 {
            0x08
        } else if yr == 1 {
            0x10
        } else if yr == 2 {
            0x20
        } else {
            0x80
        }
    }
}

/// Law: a freshly set dot reads back as set, whatever was there.
pub proof fn lemma_set_then_get(m: Map<(u16, u16), Cell>, x: u32, y: u32)
    ensures
        spec_get(spec_set(m, x, y), x, y),
{
    let msk = spec_mask(x, y);
    let d = cell_at(m, cell_key(x, y)).dots;
    assert((d | msk) & msk == msk) by (bit_vector);
    assert(msk != 0);
}

/// Law: a freshly cleared dot reads back as unset, whatever was
/// there.
pub proof fn lemma_unset_then_get(m: Map<(u16, u16), Cell>, x: u32, y: u32)
    ensures
        !spec_get(spec_unset(m, x, y), x, y),
{
    let msk = spec_mask(x, y);
    let d = cell_at(m, cell_key(x, y)).dots;
    assert((d & !msk) & msk == 0) by (bit_vector);
}

/// Law: setting a dot twice leaves exactly the cells that setting it
/// once leaves.
pub proof fn lemma_set_idempotent(m: Map<(u16, u16), Cell>, x: u32, y: u32)
    ensures
        spec_set(spec_set(m, x, y), x, y) == spec_set(m, x, y),
{
    let msk = spec_mask(x, y);
    let d = cell_at(m, cell_key(x, y)).dots;
    assert((d | msk) | msk == d | msk) by (bit_vector);
    assert(spec_set(spec_set(m, x, y), x, y) =~= spec_set(m, x, y));
}

/// Law: toggling a dot twice restores every dot reading, the toggled
/// dot's and every other's.
pub proof fn lemma_toggle_twice(m: Map<(u16, u16), Cell>, x: u32, y: u32)
    ensures
        forall|x2: u32, y2: u32|
            #[trigger] spec_get(spec_toggle(spec_toggle(m, x, y), x, y), x2, y2) == spec_get(
                m,
                x2,
                y2,
            ),
{
    let k = cell_key(x, y);
    let msk = spec_mask(x, y);
    let d = cell_at(m, k).dots;
    assert(d ^ msk ^ msk == d) by (bit_vector);
    let m2 = spec_toggle(spec_toggle(m, x, y), x, y);
    assert forall|x2: u32, y2: u32|
        #[trigger] spec_get(m2, x2, y2) == spec_get(m, x2, y2) by {
        let k2 = cell_key(x2, y2);
        if k2 == k {
            assert(cell_at(m2, k2).dots == d);
        } else {
            assert(cell_at(m2, k2) == cell_at(m, k2));
        }
    }
}

/// Law: the serialized extent on each axis is the configured minimum
/// or the highest cell ever written, whichever is larger.
pub proof fn lemma_extent(c: &Canvas)
    requires
        c.wf(),
    ensures
        c.ncols() >= c.min_width() + 1,
        c.nrows() >= c.min_height() + 1,
        forall|k: (u16, u16)|
            #[trigger] c.cells().contains_key(k) ==> k.0 < c.ncols() && k.1 < c.nrows(),
        c.ncols() > c.min_width() + 1 ==> exists|k: (u16, u16)|
            #[trigger] c.cells().contains_key(k) && k.0 + 1 == c.ncols(),
        c.nrows() > c.min_height() + 1 ==> exists|k: (u16, u16)|
            #[trigger] c.cells().contains_key(k) && k.1 + 1 == c.nrows(),
{
    if c.ncols() > c.min_width() + 1 {
        let k = choose|k: (u16, u16)| #[trigger] c.cells().contains_key(k) && k.0 == c.col_extent();
        assert(c.cells().contains_key(k) && k.0 + 1 == c.ncols());
    }
    if c.nrows() > c.min_height() + 1 {
        let k = choose|k: (u16, u16)| #[trigger] c.cells().contains_key(k) && k.1 == c.row_extent();
        assert(c.cells().contains_key(k) && k.1 + 1 == c.nrows());
    }
}

} // verus!
