use vstd::prelude::*;

use crate::bounds::AABB;
use vstd::math::abs;

verus! {

/// One buffered write: the character `ch` placed at cell `(x, y)`.
#[derive(Clone, Copy, Debug)]
pub struct Cell {
    pub x: i32,
    pub y: i32,
    pub ch: char,
}

/// The sparse character buffer that a write log denotes: later writes to the
/// same cell overwrite earlier ones.
pub open spec fn map_of(cells: Seq<Cell>) -> Map<(int, int), char>
    decreases cells.len(),
{
    if cells.len() == 0 {
        Map::empty()
    } else {
        map_of(cells.drop_last()).insert(
            (cells.last().x as int, cells.last().y as int),
            cells.last().ch,
        )
    }
}

/// Appending one write updates the denoted buffer at exactly that cell.
/// This is the overwrite rule: whatever any earlier primitive put at the
/// cell, the latest write's character is the one the buffer holds.
pub proof fn lemma_last_write_wins(cells: Seq<Cell>, c: Cell)
    ensures
        map_of(cells.push(c)) == map_of(cells).insert((c.x as int, c.y as int), c.ch),
{
    assert(cells.push(c).drop_last() =~= cells);
    assert(cells.push(c).last() == c);
}

/// The character the rectangle-outline primitive leaves at cell `(px, py)`,
/// or `None` where it writes nothing: `'|'` along the left and right columns,
/// `'-'` along the top and bottom rows. The columns are written after the
/// rows, so where both overlap (the four corners) the bar wins.
pub open spec fn rect_char(cx: int, cy: int, hw: int, hh: int, px: int, py: int) -> Option<char> {
    if hh >= 0 && (px == cx - hw || px == cx + hw) && cy - hh <= py <= cy + hh {
        Some('|')
    } else if hw >= 0 && (py == cy - hh || py == cy + hh) && cx - hw <= px <= cx + hw {
        Some('-')
    } else {
        None
    }
}

/// The sparse buffer after a rectangle outline is drawn over `m`.
pub open spec fn rect_map(
    m: Map<(int, int), char>,
    cx: int,
    cy: int,
    hw: int,
    hh: int,
) -> Map<(int, int), char> {
    Map::new(
        |p: (int, int)| m.contains_key(p) || rect_char(cx, cy, hw, hh, p.0, p.1) is Some,
        |p: (int, int)|
            match rect_char(cx, cy, hw, hh, p.0, p.1) {
                Some(c) => c,
                None => m[p],
            },
    )
}

/// The bounding box after a rectangle outline is drawn: widened to the
/// written extent, or unchanged when both half-extents are negative and
/// nothing is written.
pub open spec fn rect_bounds(b: AABB, cx: int, cy: int, hw: int, hh: int) -> AABB {
    if hw >= 0 || hh >= 0 {
        b.widened(cx - abs(hw), cy - abs(hh)).widened(cx + abs(hw), cy + abs(hh))
    } else {
        b
    }
}

/// The dashes of the top and bottom rows whose column lies left of `upto`.
spec fn dash_at(cx: int, cy: int, hw: int, hh: int, upto: int, px: int, py: int) -> bool {
    (py == cy - hh || py == cy + hh) && cx - hw <= px < upto
}

/// The buffer mid-way through the row loop of the rectangle outline.
spec fn dash_map(
    m: Map<(int, int), char>,
    cx: int,
    cy: int,
    hw: int,
    hh: int,
    upto: int,
) -> Map<(int, int), char> {
    Map::new(
        |p: (int, int)| m.contains_key(p) || dash_at(cx, cy, hw, hh, upto, p.0, p.1),
        |p: (int, int)|
            if dash_at(cx, cy, hw, hh, upto, p.0, p.1) {
                '-'
            } else {
                m[p]
            },
    )
}

/// The bars of the left and right columns whose row lies below `upto`.
spec fn bar_at(cx: int, cy: int, hw: int, hh: int, upto: int, px: int, py: int) -> bool {
    (px == cx - hw || px == cx + hw) && cy - hh <= py < upto
}

/// The buffer mid-way through the column loop of the rectangle outline.
spec fn bar_map(
    m: Map<(int, int), char>,
    cx: int,
    cy: int,
    hw: int,
    hh: int,
    upto: int,
) -> Map<(int, int), char> {
    Map::new(
        |p: (int, int)| m.contains_key(p) || bar_at(cx, cy, hw, hh, upto, p.0, p.1),
        |p: (int, int)|
            if bar_at(cx, cy, hw, hh, upto, p.0, p.1) {
                '|'
            } else {
                m[p]
            },
    )
}

/// The column where a text run of length `len` starts when horizontally
/// centered on column `cx` (integer half-length offset).
pub open spec fn text_start(cx: int, len: int) -> int {
    cx - len / 2
}

/// Whether the text run centered on `(cx, cy)` covers cell `(px, py)`; the
/// covered cells are the first `upto` of the run.
pub open spec fn text_at(cx: int, cy: int, len: int, upto: int, px: int, py: int) -> bool {
    py == cy && text_start(cx, len) <= px < text_start(cx, len) + upto
}

/// The sparse buffer after a text run is written over `m`, character `i` of
/// the text at column `text_start + i` of row `cy`.
pub open spec fn text_map(
    m: Map<(int, int), char>,
    cx: int,
    cy: int,
    t: Seq<char>,
) -> Map<(int, int), char> {
    Map::new(
        |p: (int, int)| m.contains_key(p) || text_at(cx, cy, t.len() as int, t.len() as int, p.0, p.1),
        |p: (int, int)|
            if text_at(cx, cy, t.len() as int, t.len() as int, p.0, p.1) {
                t[p.0 - text_start(cx, t.len() as int)]
            } else {
                m[p]
            },
    )
}

/// The bounding box after a text run: widened to the run's first and last
/// cell, or unchanged for an empty text.
pub open spec fn text_bounds(b: AABB, cx: int, cy: int, len: int) -> AABB {
    if len > 0 {
        b.widened(text_start(cx, len), cy).widened(text_start(cx, len) + len - 1, cy)
    } else {
        b
    }
}

/// The later-issued primitive owns a shared cell: wherever a text run
/// covers a cell, the buffer after the run holds the run's character there,
/// whatever any earlier primitive had put at that cell.
pub proof fn lemma_text_overwrites(
    m: Map<(int, int), char>,
    cx: int,
    cy: int,
    t: Seq<char>,
    px: int,
    py: int,
)
    requires
        text_at(cx, cy, t.len() as int, t.len() as int, px, py),
    ensures
        text_map(m, cx, cy, t).contains_key((px, py)),
        text_map(m, cx, cy, t)[(px, py)] == t[px - text_start(cx, t.len() as int)],
{
}

/// Likewise for a rectangle outline: wherever the outline writes, the
/// buffer after the draw holds the outline's character, regardless of what
/// any earlier primitive had left there.
pub proof fn lemma_rect_overwrites(
    m: Map<(int, int), char>,
    cx: int,
    cy: int,
    hw: int,
    hh: int,
    px: int,
    py: int,
)
    requires
        rect_char(cx, cy, hw, hh, px, py) is Some,
    ensures
        rect_map(m, cx, cy, hw, hh).contains_key((px, py)),
        Some(rect_map(m, cx, cy, hw, hh)[(px, py)]) == rect_char(cx, cy, hw, hh, px, py),
{
}

/// A canvas: a log of character writes plus the bounding box of every cell
/// ever written (together with the origin, where the box starts).
pub struct AsciiCanvas {
    pub cells: Vec<Cell>,
    pub bounds: AABB,
}

/// Taking one more write from the log updates the denoted buffer at exactly
/// that write's cell.
proof fn lemma_map_of_take_succ(cells: Seq<Cell>, k: int)
    requires
        0 <= k < cells.len(),
    ensures
        map_of(cells.take(k + 1)) == map_of(cells.take(k)).insert(
            (cells[k].x as int, cells[k].y as int),
            cells[k].ch,
        ),
{
    assert(cells.take(k + 1).drop_last() =~= cells.take(k));
    assert(cells.take(k + 1).last() == cells[k]);
}

/// Every key of the denoted buffer comes from some write in the log.
proof fn lemma_map_of_dom(cells: Seq<Cell>, p: (int, int))
    requires
        map_of(cells).contains_key(p),
    ensures
        exists|i: int|
            0 <= i < cells.len() && (#[trigger] cells[i].x as int, cells[i].y as int) == p,
    decreases cells.len(),
{
    if cells.len() > 0 {
        let last = cells.last();
        if (last.x as int, last.y as int) == p {
            assert(cells[cells.len() - 1] == last);
        } else {
            lemma_map_of_dom(cells.drop_last(), p);
            let i = choose|i: int|
                0 <= i < cells.drop_last().len() && (
                #[trigger] cells.drop_last()[i].x as int,
                cells.drop_last()[i].y as int,
                ) == p;
            assert(cells[i] == cells.drop_last()[i]);
        }
    }
}

impl AsciiCanvas {
    /// The sparse buffer this canvas denotes.
    pub open spec fn buffer(self) -> Map<(int, int), char> {
        map_of(self.cells@)
    }

    /// Every cell the buffer holds lies inside the bounding box: the dense
    /// grid sized to the box at render time clips no written character.
    pub proof fn lemma_buffer_within_bounds(self, p: (int, int))
        requires
            self.wf(),
            self.buffer().contains_key(p),
        ensures
            self.bounds.contains(p.0, p.1),
    {
        lemma_map_of_dom(self.cells@, p);
    }

    /// The character cell `(x, y)` shows when rendered: the buffered
    /// character, or a space where nothing was written.
    pub open spec fn cell_at(self, x: int, y: int) -> char {
        if self.buffer().contains_key((x, y)) {
            self.buffer()[(x, y)]
        } else {
            ' '
        }
    }

    /// The width of the dense grid: one column per x between the bounds.
    pub open spec fn width(self) -> int {
        self.bounds.x_max - self.bounds.x_min + 1
    }

    /// The height of the dense grid: one row per y between the bounds.
    pub open spec fn height(self) -> int {
        self.bounds.y_max - self.bounds.y_min + 1
    }

    /// One rendered line: the characters of row `y`, left to right.
    pub open spec fn row_seq(self, y: int) -> Seq<char> {
        Seq::new(self.width() as nat, |i: int| self.cell_at(self.bounds.x_min + i, y))
    }

    /// The rendered lines for rows `y` down to the bottom bound, each
    /// terminated by a newline: the y axis grows upward, so the topmost row
    /// is emitted first.
    pub open spec fn rows_from(self, y: int) -> Seq<char>
        decreases y - self.bounds.y_min + 1,
    {
        if y < self.bounds.y_min {
            Seq::empty()
        } else {
            self.row_seq(y) + seq!['\n'] + self.rows_from(y - 1)
        }
    }

    /// The full rendered text: every row between the bounds, topmost first,
    /// each line ending in a newline.
    pub open spec fn spec_render(self) -> Seq<char> {
        self.rows_from(self.bounds.y_max as int)
    }

    /// Every logged write lies inside the bounding box, and the box is well
    /// formed; the dense grid built at render time therefore contains every
    /// written cell with no clipping.
    pub open spec fn wf(self) -> bool {
        &&& self.bounds.wf()
        &&& forall|i: int|
            0 <= i < self.cells@.len() ==> self.bounds.contains(
                #[trigger] self.cells@[i].x as int,
                self.cells@[i].y as int,
            )
    }

    pub fn new() -> (r: AsciiCanvas)
        ensures
            r.wf(),
            r.buffer() == Map::<(int, int), char>::empty(),
            r.bounds == AABB::origin(),
    {
        AsciiCanvas { cells: Vec::new(), bounds: AABB::new() }
    }

    /// Records one character at a cell already inside the bounding box.
    fn put(&mut self, x: i32, y: i32, ch: char)
        requires
            old(self).wf(),
            old(self).bounds.contains(x as int, y as int),
        ensures
            final(self).wf(),
            final(self).bounds == old(self).bounds,
            final(self).buffer() == old(self).buffer().insert((x as int, y as int), ch),
    {
        let c = Cell { x, y, ch };
        self.cells.push(c);
        proof {
            lemma_last_write_wins(old(self).cells@, c);
        }
    }

    /// Draws an axis-aligned rectangle outline around the integer center
    /// `(cx, cy)` with half-extents `half_width` and `half_height`: dashes
    /// along the top and bottom rows, bars along the left and right columns.
    /// The columns are written after the rows, so the four corner cells end
    /// up as bars. A negative half-extent skips the corresponding pair of
    /// loops, which yields the degenerate writes the sparse buffer model
    /// describes. The bounding box grows to the written extent.
    pub fn rect(&mut self, cx: i32, cy: i32, half_width: i32, half_height: i32)
        requires
            old(self).wf(),
            half_width >= 0 || half_height >= 0 ==> {
                &&& i32::MIN <= cx - abs(half_width as int)
                &&& cx + abs(half_width as int) <= i32::MAX
                &&& i32::MIN <= cy - abs(half_height as int)
                &&& cy + abs(half_height as int) <= i32::MAX
            },
        ensures
            final(self).wf(),
            final(self).bounds == rect_bounds(
                old(self).bounds,
                cx as int,
                cy as int,
                half_width as int,
                half_height as int,
            ),
            final(self).buffer() == rect_map(
                old(self).buffer(),
                cx as int,
                cy as int,
                half_width as int,
                half_height as int,
            ),
    {
        let ghost buf0 = old(self).buffer();
        let ghost cxi = cx as int;
        let ghost cyi = cy as int;
        let ghost hwi = half_width as int;
        let ghost hhi = half_height as int;
        if half_width >= 0 || half_height >= 0 {
            let aw: i32 = if half_width >= 0 {
                half_width
            } else {
                -half_width
            };
            let ah: i32 = if half_height >= 0 {
                half_height
            } else {
                -half_height
            };
            self.note(cx - aw, cy - ah);
            self.note(cx + aw, cy + ah);
        }
        proof {
            assert(self.bounds == rect_bounds(old(self).bounds, cxi, cyi, hwi, hhi));
            assert(self.buffer() == buf0);
        }
        if half_width >= 0 {
            let mut dx: i64 = -(half_width as i64);
            let py_top: i32 = cy - half_height;
            let py_bot: i32 = cy + half_height;
            proof {
                assert(self.buffer() =~= dash_map(buf0, cxi, cyi, hwi, hhi, cxi + dx));
            }
            while dx <= half_width as i64
                invariant
                    self.wf(),
                    cxi == cx as int,
                    cyi == cy as int,
                    hwi == half_width as int,
                    hhi == half_height as int,
                    -hwi <= dx <= hwi + 1,
                    hwi >= 0,
                    i32::MIN <= cxi - abs(hwi) && cxi + abs(hwi) <= i32::MAX,
                    i32::MIN <= cyi - abs(hhi) && cyi + abs(hhi) <= i32::MAX,
                    py_top == cyi - hhi,
                    py_bot == cyi + hhi,
                    self.bounds == rect_bounds(old(self).bounds, cxi, cyi, hwi, hhi),
                    self.buffer() == dash_map(buf0, cxi, cyi, hwi, hhi, cxi + dx),
                decreases hwi + 1 - dx,
            {
                proof {
                    assert(cxi - abs(hwi) <= cxi + dx <= cxi + abs(hwi));
                }
                let px: i32 = (cx as i64 + dx) as i32;
                proof {
                    assert(px as int == cxi + dx);
                    assert(self.bounds.contains(px as int, py_top as int));
                    assert(self.bounds.contains(px as int, py_bot as int));
                }
                self.put(px, py_top, '-');
                self.put(px, py_bot, '-');
                proof {
                    assert(self.buffer() =~= dash_map(buf0, cxi, cyi, hwi, hhi, cxi + dx + 1));
                }
                dx = dx + 1;
            }
        }
        let ghost mid = self.buffer();
        if half_height >= 0 {
            let mut dy: i64 = -(half_height as i64);
            let px_left: i32 = cx - half_width;
            let px_right: i32 = cx + half_width;
            proof {
                assert(mid =~= bar_map(mid, cxi, cyi, hwi, hhi, cyi + dy));
            }
            while dy <= half_height as i64
                invariant
                    self.wf(),
                    cxi == cx as int,
                    cyi == cy as int,
                    hwi == half_width as int,
                    hhi == half_height as int,
                    -hhi <= dy <= hhi + 1,
                    hhi >= 0,
                    i32::MIN <= cxi - abs(hwi) && cxi + abs(hwi) <= i32::MAX,
                    i32::MIN <= cyi - abs(hhi) && cyi + abs(hhi) <= i32::MAX,
                    px_left == cxi - hwi,
                    px_right == cxi + hwi,
                    self.bounds == rect_bounds(old(self).bounds, cxi, cyi, hwi, hhi),
                    self.buffer() == bar_map(mid, cxi, cyi, hwi, hhi, cyi + dy),
                decreases hhi + 1 - dy,
            {
                proof {
                    assert(cyi - abs(hhi) <= cyi + dy <= cyi + abs(hhi));
                }
                let py: i32 = (cy as i64 + dy) as i32;
                proof {
                    assert(py as int == cyi + dy);
                    assert(self.bounds.contains(px_left as int, py as int));
                    assert(self.bounds.contains(px_right as int, py as int));
                }
                self.put(px_left, py, '|');
                self.put(px_right, py, '|');
                proof {
                    assert(self.buffer() =~= bar_map(mid, cxi, cyi, hwi, hhi, cyi + dy + 1));
                }
                dy = dy + 1;
            }
        }
        proof {
            assert(self.buffer() =~= rect_map(buf0, cxi, cyi, hwi, hhi));
        }
    }

    /// Writes `t` left to right on row `cy`, horizontally centered on column
    /// `cx`: character `i` lands at `(cx - len/2 + i, cy)`. Every written
    /// cell is folded into the bounding box; an empty text writes nothing and
    /// leaves the canvas unchanged.
    pub fn text(&mut self, cx: i32, cy: i32, t: &str)
        requires
            old(self).wf(),
            t@.len() <= i32::MAX,
            i32::MIN <= cx - t@.len() / 2,
            t@.len() > 0 ==> cx - t@.len() / 2 + t@.len() - 1 <= i32::MAX,
        ensures
            final(self).wf(),
            final(self).bounds == text_bounds(
                old(self).bounds,
                cx as int,
                cy as int,
                t@.len() as int,
            ),
            final(self).buffer() == text_map(old(self).buffer(), cx as int, cy as int, t@),
    {
        let ghost buf0 = old(self).buffer();
        let ghost cxi = cx as int;
        let ghost cyi = cy as int;
        let ghost leni = t@.len() as int;
        let n: usize = t.unicode_len();
        let start_x: i32 = cx - (n as i32) / 2;
        proof {
            assert(start_x as int == text_start(cxi, leni));
        }
        if n > 0 {
            self.note(start_x, cy);
            let end_x: i32 = start_x + (n as i32 - 1);
            self.note(end_x, cy);
        }
        proof {
            assert(self.bounds == text_bounds(old(self).bounds, cxi, cyi, leni));
            assert(self.buffer() == buf0);
            assert(self.buffer() =~= Map::new(
                |p: (int, int)| buf0.contains_key(p) || text_at(cxi, cyi, leni, 0, p.0, p.1),
                |p: (int, int)|
                    if text_at(cxi, cyi, leni, 0, p.0, p.1) {
                        t@[p.0 - text_start(cxi, leni)]
                    } else {
                        buf0[p]
                    },
            ));
        }
        let mut i: usize = 0;
        while i < n
            invariant
                self.wf(),
                cxi == cx as int,
                cyi == cy as int,
                leni == t@.len() as int,
                n == t@.len(),
                n <= i32::MAX,
                start_x as int == text_start(cxi, leni),
                n > 0 ==> start_x as int + leni - 1 <= i32::MAX,
                i <= n,
                self.bounds == text_bounds(old(self).bounds, cxi, cyi, leni),
                self.bounds.wf(),
                n > 0 ==> self.bounds.contains(start_x as int, cyi),
                n > 0 ==> self.bounds.contains(start_x as int + leni - 1, cyi),
                self.buffer() == Map::new(
                    |p: (int, int)|
                        buf0.contains_key(p) || text_at(cxi, cyi, leni, i as int, p.0, p.1),
                    |p: (int, int)|
                        if text_at(cxi, cyi, leni, i as int, p.0, p.1) {
                            t@[p.0 - text_start(cxi, leni)]
                        } else {
                            buf0[p]
                        },
                ),
            decreases n - i,
        {
            let c = t.get_char(i);
            let px: i32 = start_x + (i as i32);
            proof {
                assert(px as int == start_x as int + i);
                assert(self.bounds.contains(px as int, cyi));
            }
            self.put(px, cy, c);
            proof {
                assert(self.buffer() =~= Map::new(
                    |p: (int, int)|
                        buf0.contains_key(p) || text_at(cxi, cyi, leni, i + 1, p.0, p.1),
                    |p: (int, int)|
                        if text_at(cxi, cyi, leni, i + 1, p.0, p.1) {
                            t@[p.0 - text_start(cxi, leni)]
                        } else {
                            buf0[p]
                        },
                ));
            }
            i = i + 1;
        }
        proof {
            assert(self.buffer() =~= text_map(buf0, cxi, cyi, t@));
        }
    }

    /// Materializes the sparse buffer into a dense grid exactly sized to the
    /// bounding box and serializes it: one line per row, topmost row first
    /// (the y axis grows upward), each line newline-terminated, unwritten
    /// cells as spaces. The result is a function of the canvas alone, so
    /// rendering the same unmodified canvas twice gives identical text.
    pub fn render(&self) -> (s: String)
        requires
            self.wf(),
            self.width() <= usize::MAX,
            self.height() <= usize::MAX,
        ensures
            s@ == self.spec_render(),
    {
        let x_min: i32 = self.bounds.x_min;
        let y_min: i32 = self.bounds.y_min;
        let w: usize = (self.bounds.x_max as i64 - x_min as i64 + 1) as usize;
        let h: usize = (self.bounds.y_max as i64 - y_min as i64 + 1) as usize;
        proof {
            assert(w == self.width());
            assert(h == self.height());
        }
        let mut grid: Vec<Vec<char>> = Vec::new();
        while grid.len() < h
            invariant
                grid@.len() <= h,
                forall|r: int| 0 <= r < grid@.len() ==> (#[trigger] grid@[r])@.len() == w,
                forall|r: int, j: int|
                    0 <= r < grid@.len() && 0 <= j < w ==> #[trigger] grid@[r]@[j] == ' ',
            decreases h - grid@.len(),
        {
            let mut line: Vec<char> = Vec::new();
            while line.len() < w
                invariant
                    line@.len() <= w,
                    forall|j: int| 0 <= j < line@.len() ==> #[trigger] line@[j] == ' ',
                decreases w - line@.len(),
            {
                line.push(' ');
            }
            grid.push(line);
        }
        let mut k: usize = 0;
        while k < self.cells.len()
            invariant
                self.wf(),
                w == self.width(),
                h == self.height(),
                x_min == self.bounds.x_min,
                y_min == self.bounds.y_min,
                k <= self.cells@.len(),
                grid@.len() == h,
                forall|r: int| 0 <= r < h ==> (#[trigger] grid@[r])@.len() == w,
                forall|r: int, j: int|
                    0 <= r < h && 0 <= j < w ==> #[trigger] grid@[r]@[j] == ({
                        let pm = map_of(self.cells@.take(k as int));
                        let p = (x_min + j, y_min + r);
                        if pm.contains_key(p) {
                            pm[p]
                        } else {
                            ' '
                        }
                    }),
            decreases self.cells@.len() - k,
        {
            let cell = self.cells[k];
            proof {
                assert(self.bounds.contains(cell.x as int, cell.y as int));
            }
            let gx: usize = (cell.x as i64 - x_min as i64) as usize;
            let gy: usize = (cell.y as i64 - y_min as i64) as usize;
            proof {
                assert(gx == cell.x - x_min);
                assert(gy == cell.y - y_min);
                assert(gx < w);
                assert(gy < h);
                lemma_map_of_take_succ(self.cells@, k as int);
            }
            grid[gy][gx] = cell.ch;
            k = k + 1;
        }
        proof {
            assert(self.cells@.take(self.cells@.len() as int) =~= self.cells@);
        }
        let mut out: Vec<char> = Vec::new();
        let mut done: usize = 0;
        proof {
            assert(out@ + self.rows_from(self.bounds.y_max as int) =~= self.spec_render());
        }
        while done < h
            invariant
                self.wf(),
                w == self.width(),
                h == self.height(),
                x_min == self.bounds.x_min,
                y_min == self.bounds.y_min,
                done <= h,
                grid@.len() == h,
                forall|r: int| 0 <= r < h ==> (#[trigger] grid@[r])@.len() == w,
                forall|r: int, j: int|
                    0 <= r < h && 0 <= j < w ==> #[trigger] grid@[r]@[j] == self.cell_at(
                        x_min + j,
                        y_min + r,
                    ),
                out@ + self.rows_from(self.bounds.y_max - done) == self.spec_render(),
            decreases h - done,
        {
            let gy: usize = h - 1 - done;
            let ghost ycur: int = self.bounds.y_max - done;
            let ghost out0 = out@;
            proof {
                assert(ycur == y_min + gy);
                assert(out@ =~= out0 + self.row_seq(ycur).take(0));
            }
            let mut j: usize = 0;
            while j < w
                invariant
                    self.wf(),
                    w == self.width(),
                    h == self.height(),
                    x_min == self.bounds.x_min,
                    y_min == self.bounds.y_min,
                    gy < h,
                    ycur == y_min + gy,
                    j <= w,
                    grid@.len() == h,
                    forall|r: int| 0 <= r < h ==> (#[trigger] grid@[r])@.len() == w,
                    forall|r: int, jj: int|
                        0 <= r < h && 0 <= jj < w ==> #[trigger] grid@[r]@[jj] == self.cell_at(
                            x_min + jj,
                            y_min + r,
                        ),
                    out@ == out0 + self.row_seq(ycur).take(j as int),
                decreases w - j,
            {
                let ch = grid[gy][j];
                out.push(ch);
                proof {
                    assert(out@ =~= out0 + self.row_seq(ycur).take(j as int + 1));
                }
                j = j + 1;
            }
            out.push('\n');
            proof {
                assert(self.row_seq(ycur).take(w as int) =~= self.row_seq(ycur));
                assert(self.rows_from(ycur) == self.row_seq(ycur) + seq!['\n'] + self.rows_from(
                    ycur - 1,
                ));
                assert(out@ + self.rows_from(ycur - 1) =~= out0 + self.rows_from(ycur));
            }
            done = done + 1;
        }
        proof {
            assert(self.rows_from(self.bounds.y_max - h) == Seq::<char>::empty());
            assert(out@ + Seq::<char>::empty() =~= out@);
        }
        crate::label::chars_to_string(&out)
    }

    /// Rendering is deterministic: the text is a function of the canvas
    /// alone, so two renders of the same unmodified canvas are identical.
    pub proof fn lemma_render_deterministic(self, s1: Seq<char>, s2: Seq<char>)
        requires
            s1 == self.spec_render(),
            s2 == self.spec_render(),
        ensures
            s1 == s2,
    {
    }

    /// The rendered text has one line per row of the bounding box and one
    /// character per column, plus the newline ending each line.
    pub proof fn lemma_render_len(self)
        requires
            self.bounds.wf(),
        ensures
            self.spec_render().len() == self.height() * (self.width() + 1),
    {
        self.lemma_rows_from_len(self.bounds.y_max as int);
    }

    proof fn lemma_rows_from_len(self, y: int)
        requires
            self.bounds.wf(),
            y >= self.bounds.y_min - 1,
        ensures
            self.rows_from(y).len() == (y - self.bounds.y_min + 1) * (self.width() + 1),
        decreases y - self.bounds.y_min + 1,
    {
        let w = self.width();
        let lo = self.bounds.y_min as int;
        if y < lo {
            assert((y - lo + 1) * (w + 1) == 0) by (nonlinear_arith)
                requires
                    y - lo + 1 == 0,
            ;
        } else {
            self.lemma_rows_from_len(y - 1);
            assert(self.rows_from(y).len() == (w + 1) + (y - 1 - lo + 1) * (w + 1));
            assert((w + 1) + (y - 1 - lo + 1) * (w + 1) == (y - lo + 1) * (w + 1))
                by (nonlinear_arith);
        }
    }

    /// A canvas whose only write is a single character at the origin cell
    /// renders as exactly one line of one character: the degenerate initial
    /// bounding box already contains the origin, so nothing pads the grid.
    pub proof fn lemma_render_single_origin(self, ch: char)
        requires
            self.bounds == AABB::origin(),
            self.buffer() == Map::<(int, int), char>::empty().insert((0int, 0int), ch),
        ensures
            self.spec_render() == seq![ch, '\n'],
    {
        assert(self.row_seq(0) =~= seq![ch]);
        assert(self.rows_from(-1) == Seq::<char>::empty());
        assert(self.rows_from(0) == self.row_seq(0) + seq!['\n'] + self.rows_from(-1));
        assert(self.spec_render() =~= seq![ch, '\n']);
    }

    /// Widens the bounding box to contain `(x, y)` without writing anything.
    fn note(&mut self, x: i32, y: i32)
        requires
            old(self).wf(),
        ensures
            final(self).wf(),
            final(self).cells == old(self).cells,
            final(self).bounds == old(self).bounds.widened(x as int, y as int),
    {
        self.bounds.include_point(x, y);
        proof {
            old(self).bounds.lemma_widened_monotone(x as int, y as int);
        }
    }
}

} // verus!
