//! A character canvas for box-drawing diagrams: cells with a character and
//! colours, line junctions that merge as routes cross, and the conversion of
//! a finished canvas into rows of styled spans.
use vstd::prelude::*;
use crate::diagram::NodeShape;
use crate::style::{Color, Style, StyledSpan};
use crate::text::{chars_of, push_char};
use crate::theme::Theme;
use std::collections::HashSet;

verus! {

pub const CONN_UP: u8 = 1;
pub const CONN_DOWN: u8 = 2;
pub const CONN_LEFT: u8 = 4;
pub const CONN_RIGHT: u8 = 8;

/// The box-drawing character for a set of connections, given as the sum of
/// the `CONN_*` directions it joins.
pub open spec fn junction(connects: u8) -> char {
    if connects == 3 {
        '│'
    } else if connects == 12 {
        '─'
    } else if connects == 10 {
        '┌'
    } else if connects == 6 {
        '┐'
    } else if connects == 9 {
        '└'
    } else if connects == 5 {
        '┘'
    } else if connects == 11 {
        '├'
    } else if connects == 7 {
        '┤'
    } else if connects == 14 {
        '┬'
    } else if connects == 13 {
        '┴'
    } else if connects == 15 {
        '┼'
    } else if connects == 1 || connects == 2 {
        '│'
    } else if connects == 4 || connects == 8 {
        '─'
    } else {
        '·'
    }
}

pub fn junction_char(connects: u8) -> (c: char)
    ensures
        c == junction(connects),
{
    if connects == 3 {
        '│'
    } else if connects == 12 {
        '─'
    } else if connects == 10 {
        '┌'
    } else if connects == 6 {
        '┐'
    } else if connects == 9 {
        '└'
    } else if connects == 5 {
        '┘'
    } else if connects == 11 {
        '├'
    } else if connects == 7 {
        '┤'
    } else if connects == 14 {
        '┬'
    } else if connects == 13 {
        '┴'
    } else if connects == 15 {
        '┼'
    } else if connects == 1 || connects == 2 {
        '│'
    } else if connects == 4 || connects == 8 {
        '─'
    } else {
        '·'
    }
}

#[derive(Clone, Copy, PartialEq, Eq, Structural, Debug)]
pub struct CanvasCell {
    pub ch: char,
    pub fg: Option<Color>,
    pub bg: Option<Color>,
    /// Part of a node box; routes never draw over it.
    pub is_node: bool,
    /// The directions of the lines that meet here (`CONN_*` bits).
    pub connects: u8,
}

pub open spec fn blank_cell() -> CanvasCell {
    CanvasCell { ch: ' ', fg: None, bg: None, is_node: false, connects: 0 }
}

impl Default for CanvasCell {
    fn default() -> (c: CanvasCell)
        ensures
            c == blank_cell(),
    {
        CanvasCell { ch: ' ', fg: None, bg: None, is_node: false, connects: 0 }
    }
}

pub struct Canvas {
    pub width: usize,
    pub height: usize,
    pub cells: Vec<Vec<CanvasCell>>,
}

/// `grid` with the cell at `(x, y)` replaced, when that cell exists.
pub open spec fn put(grid: Seq<Seq<CanvasCell>>, x: int, y: int, cell: CanvasCell) -> Seq<Seq<CanvasCell>> {
    if 0 <= y < grid.len() && 0 <= x < grid[y].len() {
        grid.update(y, grid[y].update(x, cell))
    } else {
        grid
    }
}

/// The cell at `(x, y)` after a line in directions `dir` and colour `fg`
/// joins it: node cells stay as they are.
pub open spec fn connected(c: CanvasCell, dir: u8, fg: Option<Color>) -> CanvasCell {
    if c.is_node {
        c
    } else {
        CanvasCell {
            connects: c.connects | dir,
            ch: junction(c.connects | dir),
            fg: if fg is Some { fg } else { c.fg },
            ..c
        }
    }
}

/// `height` rows of `width` blank cells.
pub open spec fn blank_grid(width: int, height: int) -> Seq<Seq<CanvasCell>> {
    Seq::new(height as nat, |y: int| Seq::new(width as nat, |x: int| blank_cell()))
}

/// `a + b`, or `usize::MAX` where the sum is larger.
pub open spec fn sat_add(a: int, b: int) -> int {
    if a + b <= usize::MAX {
        a + b
    } else {
        usize::MAX as int
    }
}

/// `a - b`, or 0 where the difference is negative.
pub open spec fn sat_sub(a: int, b: int) -> int {
    if a >= b {
        a - b
    } else {
        0
    }
}

/// Whether `(x, y)` is a cell of `g`.
pub open spec fn on_grid(g: Seq<Seq<CanvasCell>>, x: int, y: int) -> bool {
    0 <= y < g.len() && 0 <= x < g[y].len()
}

/// `g` after writing `ch` in colour `fg` at `(x, y)`, if that cell exists.
pub open spec fn set_at(g: Seq<Seq<CanvasCell>>, x: int, y: int, ch: char, fg: Option<Color>) -> Seq<Seq<CanvasCell>> {
    if on_grid(g, x, y) {
        put(g, x, y, CanvasCell { ch, fg, ..g[y][x] })
    } else {
        g
    }
}

/// `g` after writing `ch` in colour `fg` at `(x, y)` as part of a node box.
pub open spec fn node_set_at(g: Seq<Seq<CanvasCell>>, x: int, y: int, ch: char, fg: Option<Color>) -> Seq<Seq<CanvasCell>> {
    if on_grid(g, x, y) {
        put(g, x, y, CanvasCell { ch, fg, is_node: true, ..g[y][x] })
    } else {
        g
    }
}

/// `g` after a line in directions `dir` joins the cell at `(x, y)`.
pub open spec fn joined_at(g: Seq<Seq<CanvasCell>>, x: int, y: int, dir: u8, fg: Option<Color>) -> Seq<Seq<CanvasCell>> {
    if on_grid(g, x, y) {
        put(g, x, y, connected(g[y][x], dir, fg))
    } else {
        g
    }
}

/// Vertical line cells in column `x`, rows `from` up to `to`, top first.
pub open spec fn vertical_run_at(g: Seq<Seq<CanvasCell>>, x: int, from: int, to: int, fg: Option<Color>) -> Seq<Seq<CanvasCell>>
    decreases to - from,
{
    if from < to {
        vertical_run_at(joined_at(g, x, from, CONN_UP | CONN_DOWN, fg), x, from + 1, to, fg)
    } else {
        g
    }
}

/// Horizontal line cells in row `y`, columns `from` up to `to`, left first.
pub open spec fn horizontal_run_at(g: Seq<Seq<CanvasCell>>, y: int, from: int, to: int, fg: Option<Color>) -> Seq<Seq<CanvasCell>>
    decreases to - from,
{
    if from < to {
        horizontal_run_at(joined_at(g, from, y, CONN_LEFT | CONN_RIGHT, fg), y, from + 1, to, fg)
    } else {
        g
    }
}

/// The characters of `t` from index `i` on, written from column `x + i` of
/// row `y` rightwards.
pub open spec fn text_at(g: Seq<Seq<CanvasCell>>, x: int, y: int, t: Seq<char>, i: int, fg: Option<Color>) -> Seq<Seq<CanvasCell>>
    decreases t.len() - i,
{
    if 0 <= i < t.len() {
        text_at(set_at(g, x + i, y, t[i], fg), x, y, t, i + 1, fg)
    } else {
        g
    }
}

/// Node cells `ch` in row `y`, columns `x + i` (saturating) for `i` from
/// `i` up to `to`.
pub open spec fn node_run_at(g: Seq<Seq<CanvasCell>>, x: int, y: int, i: int, to: int, ch: char, fg: Option<Color>) -> Seq<Seq<CanvasCell>>
    decreases to - i,
{
    if i < to {
        node_run_at(node_set_at(g, sat_add(x, i), y, ch, fg), x, y, i + 1, to, ch, fg)
    } else {
        g
    }
}

/// The label of a node from index `i` on: character `k` at column
/// `x + 1 + pad + k` of row `y`, left of the right border `right`.
pub open spec fn label_at(
    g: Seq<Seq<CanvasCell>>,
    x: int,
    y: int,
    right: int,
    pad: int,
    t: Seq<char>,
    i: int,
    fg: Option<Color>,
) -> Seq<Seq<CanvasCell>>
    decreases t.len() - i,
{
    if 0 <= i < t.len() {
        let lx = sat_add(sat_add(sat_add(x, 1), pad), i);
        label_at(
            if lx < right {
                node_set_at(g, lx, y, t[i], fg)
            } else {
                g
            },
            x,
            y,
            right,
            pad,
            t,
            i + 1,
            fg,
        )
    } else {
        g
    }
}

/// The corners of a node box: top left, top right, bottom left, bottom
/// right.
pub open spec fn box_corners(shape: NodeShape) -> (char, char, char, char) {
    match shape {
        NodeShape::Rectangle => ('┌', '┐', '└', '┘'),
        NodeShape::Rounded | NodeShape::Circle => ('╭', '╮', '╰', '╯'),
        NodeShape::Diamond => ('◆', '◆', '◆', '◆'),
    }
}

/// `g` with a three-row node box `width` columns wide centred on column
/// `cx`, its top border on row `y`: borders in `bfg`, the middle row blanked
/// and the label centred on it in `tfg`, clipped at the right border.
pub open spec fn node_drawn(
    g: Seq<Seq<CanvasCell>>,
    cx: int,
    y: int,
    width: int,
    label: Seq<char>,
    shape: NodeShape,
    bfg: Option<Color>,
    tfg: Option<Color>,
) -> Seq<Seq<CanvasCell>> {
    let x = sat_sub(cx, width / 2);
    let right = sat_add(x, width - 1);
    let y1 = sat_add(y, 1);
    let y2 = sat_add(y, 2);
    let (tl, tr, bl, br) = box_corners(shape);
    let pad = sat_sub(width - 2, label.len() as int) / 2;
    let g1 = node_run_at(node_set_at(g, x, y, tl, bfg), x, y, 1, width - 1, '─', bfg);
    let g2 = node_set_at(g1, right, y, tr, bfg);
    let g3 = node_run_at(node_set_at(g2, x, y1, '│', bfg), x, y1, 1, width - 1, ' ', tfg);
    let g4 = node_set_at(label_at(g3, x, y1, right, pad, label, 0, tfg), right, y1, '│', bfg);
    let g5 = node_run_at(node_set_at(g4, x, y2, bl, bfg), x, y2, 1, width - 1, '─', bfg);
    node_set_at(g5, right, y2, br, bfg)
}

pub open spec fn label_view(label: Option<&str>) -> Option<Seq<char>> {
    match label {
        Some(t) => Some(t@),
        None => None,
    }
}

/// The row of the bus of a bent top-down edge: the given row where it lies
/// strictly between the two borders, else the middle of the gap.
pub open spec fn bus_row(sb: int, dt: int, bus: Option<usize>) -> int {
    let mid = sb + 1 + (dt - sb - 1) / 2;
    match bus {
        Some(b) => if sb < b < dt {
            b as int
        } else {
            mid
        },
        None => mid,
    }
}

/// `g` with a forward edge of a top-down diagram from the bottom border at
/// row `sb` (column `sx`) to the top border at row `dt` (column `dx`); no
/// edge where the gap has fewer than two rows.
pub open spec fn edge_td_drawn(
    g: Seq<Seq<CanvasCell>>,
    sx: int,
    sb: int,
    dx: int,
    dt: int,
    label: Option<Seq<char>>,
    efg: Option<Color>,
    lfg: Option<Color>,
    bus: Option<usize>,
) -> Seq<Seq<CanvasCell>> {
    if sb + 1 >= dt {
        g
    } else if sx == dx {
        let g1 = set_at(vertical_run_at(g, sx, sb + 1, dt, efg), dx, dt - 1, '▼', efg);
        match label {
            Some(t) => text_at(g1, sat_add(sx, 2), sb + 1, t, 0, lfg),
            None => g1,
        }
    } else {
        let mid = bus_row(sb, dt, bus);
        let lo = if sx < dx { sx } else { dx };
        let hi = if sx < dx { dx } else { sx };
        let g1 = joined_at(
            vertical_run_at(g, sx, sb + 1, mid, efg),
            sx,
            mid,
            if dx > sx { CONN_UP | CONN_RIGHT } else { CONN_UP | CONN_LEFT },
            efg,
        );
        let g2 = joined_at(
            horizontal_run_at(g1, mid, lo + 1, hi, efg),
            dx,
            mid,
            if dx > sx { CONN_LEFT | CONN_DOWN } else { CONN_RIGHT | CONN_DOWN },
            efg,
        );
        let g3 = set_at(vertical_run_at(g2, dx, mid + 1, dt, efg), dx, dt - 1, '▼', efg);
        match label {
            Some(t) => text_at(
                g3,
                lo + sat_sub(hi - lo, t.len() as int) / 2,
                if mid > 0 { mid - 1 } else { mid },
                t,
                0,
                lfg,
            ),
            None => g3,
        }
    }
}

/// `g` with a forward edge of a left-right diagram from the right border at
/// column `sr` (row `sy`) to the left border at column `dl` (row `dy`),
/// bending at column `bend` or in the middle of the gap.
pub open spec fn edge_lr_drawn(
    g: Seq<Seq<CanvasCell>>,
    sr: int,
    sy: int,
    dl: int,
    dy: int,
    label: Option<Seq<char>>,
    efg: Option<Color>,
    lfg: Option<Color>,
    bend: Option<usize>,
) -> Seq<Seq<CanvasCell>> {
    if sr + 1 >= dl {
        g
    } else if sy == dy {
        let g1 = set_at(horizontal_run_at(g, sy, sr + 1, dl, efg), dl - 1, dy, '▶', efg);
        match label {
            Some(t) => text_at(g1, sr + 2, if sy > 0 { sy - 1 } else { 0 }, t, 0, lfg),
            None => g1,
        }
    } else {
        let mid = match bend {
            Some(b) => b as int,
            None => sr + 1 + (dl - sr - 1) / 2,
        };
        let lo = if sy < dy { sy } else { dy };
        let hi = if sy < dy { dy } else { sy };
        let g1 = joined_at(
            horizontal_run_at(g, sy, sr + 1, mid, efg),
            mid,
            sy,
            if dy > sy { CONN_LEFT | CONN_DOWN } else { CONN_LEFT | CONN_UP },
            efg,
        );
        let g2 = joined_at(
            vertical_run_at(g1, mid, lo + 1, hi, efg),
            mid,
            dy,
            if dy > sy { CONN_UP | CONN_RIGHT } else { CONN_DOWN | CONN_RIGHT },
            efg,
        );
        let g3 = set_at(horizontal_run_at(g2, dy, sat_add(mid, 1), dl, efg), dl - 1, dy, '▶', efg);
        match label {
            Some(t) => text_at(g3, sat_add(mid, 2), lo + sat_sub(hi - lo, 1) / 2, t, 0, lfg),
            None => g3,
        }
    }
}

/// `g` with a feedback route of a top-down diagram: down from the source,
/// right to the lane, up the lane, left to the target and down into it.
pub open spec fn feedback_td_drawn(g: Seq<Seq<CanvasCell>>, r: FeedbackRouteTd, fg: Option<Color>) -> Seq<Seq<CanvasCell>> {
    let ex = r.exit_x as int;
    let ey = r.exit_y as int;
    let nx = r.entry_x as int;
    let ny = r.entry_y as int;
    let lx = r.lane_x as int;
    let ay = sat_sub(r.dst_top_y as int, 1);
    let g1 = joined_at(vertical_run_at(g, ex, sat_add(r.src_bottom_y as int, 1), ey, fg), ex, ey, CONN_UP | CONN_RIGHT, fg);
    let g2 = joined_at(horizontal_run_at(g1, ey, sat_add(ex, 1), lx, fg), lx, ey, CONN_LEFT | CONN_UP, fg);
    let g3 = joined_at(vertical_run_at(g2, lx, sat_add(ny, 1), ey, fg), lx, ny, CONN_DOWN | CONN_LEFT, fg);
    let g4 = joined_at(horizontal_run_at(g3, ny, sat_add(nx, 1), lx, fg), nx, ny, CONN_RIGHT | CONN_DOWN, fg);
    set_at(vertical_run_at(g4, nx, sat_add(ny, 1), ay, fg), nx, ay, '▼', fg)
}

/// `g` with a feedback route of a left-right diagram: under the source to
/// its exit column, down to the lane, left along it, up beside the target
/// and under it, into its bottom border.
pub open spec fn feedback_lr_drawn(g: Seq<Seq<CanvasCell>>, r: FeedbackRouteLr, fg: Option<Color>) -> Seq<Seq<CanvasCell>> {
    let ey = sat_add(r.src_bottom_y as int, 1);
    let ny = sat_add(r.dst_bottom_y as int, 2);
    let ex = r.exit_x as int;
    let elx = r.exit_lane_x as int;
    let nlx = r.entry_lane_x as int;
    let nx = r.entry_x as int;
    let ly = r.lane_y as int;
    let g1 = joined_at(horizontal_run_at(joined_at(g, ex, ey, CONN_UP | CONN_RIGHT, fg), ey, sat_add(ex, 1), elx, fg), elx, ey, CONN_LEFT | CONN_DOWN, fg);
    let g2 = joined_at(vertical_run_at(g1, elx, sat_add(ey, 1), ly, fg), elx, ly, CONN_UP | CONN_LEFT, fg);
    let g3 = joined_at(horizontal_run_at(g2, ly, sat_add(nlx, 1), elx, fg), nlx, ly, CONN_UP | CONN_RIGHT, fg);
    let g4 = joined_at(vertical_run_at(g3, nlx, sat_add(ny, 1), ly, fg), nlx, ny, CONN_DOWN | CONN_RIGHT, fg);
    let g5 = joined_at(horizontal_run_at(g4, ny, sat_add(nlx, 1), nx, fg), nx, ny, CONN_LEFT | CONN_UP, fg);
    set_at(g5, nx, sat_add(r.dst_bottom_y as int, 1), '▲', fg)
}

impl Canvas {
    pub open spec fn grid(&self) -> Seq<Seq<CanvasCell>> {
        self.cells@.map_values(|row: Vec<CanvasCell>| row@)
    }

    /// `height` rows of `width` cells each.
    pub open spec fn wf(&self) -> bool {
        &&& self.cells@.len() == self.height
        &&& forall|y: int| 0 <= y < self.height ==> (#[trigger] self.cells@[y])@.len() == self.width
    }

    /// On a well-formed canvas, the cells of the grid are those inside its
    /// width and height.
    pub proof fn lemma_on_grid(&self, x: int, y: int)
        requires
            self.wf(),
        ensures
            on_grid(self.grid(), x, y) <==> (0 <= y < self.height && 0 <= x < self.width),
            self.grid().len() == self.height,
            forall|k: int| 0 <= k < self.height ==> (#[trigger] self.grid()[k]).len() == self.width,
    {
        assert forall|k: int| 0 <= k < self.height implies (#[trigger] self.grid()[k]).len() == self.width by {
            assert(self.grid()[k] == self.cells@[k]@);
        }
        if 0 <= y < self.height {
            assert(self.grid()[y] == self.cells@[y]@);
        }
    }

    /// A blank canvas.
    pub fn new(width: usize, height: usize) -> (c: Canvas)
        ensures
            c.wf(),
            c.width == width,
            c.height == height,
            forall|y: int, x: int| 0 <= y < height && 0 <= x < width ==> #[trigger] c.grid()[y][x] == blank_cell(),
            c.grid() == blank_grid(width as int, height as int),
    {
        let mut cells: Vec<Vec<CanvasCell>> = Vec::new();
        while cells.len() < height
            invariant
                cells.len() <= height,
                forall|y: int| 0 <= y < cells.len() ==> (#[trigger] cells@[y])@.len() == width,
                forall|y: int, x: int| 0 <= y < cells.len() && 0 <= x < width ==> #[trigger] cells@[y]@[x] == blank_cell(),
            decreases height - cells.len(),
        {
            let mut row: Vec<CanvasCell> = Vec::new();
            while row.len() < width
                invariant
                    row.len() <= width,
                    forall|x: int| 0 <= x < row.len() ==> #[trigger] row@[x] == blank_cell(),
                decreases width - row.len(),
            {
                row.push(CanvasCell::default());
            }
            cells.push(row);
            proof {
                assert forall|y: int, x: int| 0 <= y < cells.len() && 0 <= x < width implies #[trigger] cells@[y]@[x] == blank_cell() by {
                    if y < cells.len() - 1 {
                        assert(cells@[y] == cells@.drop_last()[y]);
                    }
                }
            }
        }
        let c = Canvas { width, height, cells };
        proof {
            assert forall|y: int, x: int| 0 <= y < height && 0 <= x < width implies #[trigger] c.grid()[y][x] == blank_cell() by {
                assert(c.grid()[y] == c.cells@[y]@);
            }
            let b = blank_grid(width as int, height as int);
            assert forall|y: int| 0 <= y < height implies #[trigger] c.grid()[y] =~= b[y] by {
                assert(c.grid()[y] == c.cells@[y]@);
            }
            assert(c.grid() =~= b);
        }
        c
    }

    /// Replaces the cell at `(x, y)`, if it is on the canvas.
    fn put_cell(&mut self, x: usize, y: usize, cell: CanvasCell)
        requires
            old(self).wf(),
        ensures
            final(self).wf(),
            final(self).width == old(self).width,
            final(self).height == old(self).height,
            final(self).grid() == put(old(self).grid(), x as int, y as int, cell),
    {
        if y < self.height && x < self.width {
            let ghost g0 = self.grid();
            let mut row = copy_row(&self.cells[y]);
            row.set(x, cell);
            self.cells.set(y, row);
            proof {
                assert(g0[y as int] == old(self).cells@[y as int]@);
                assert(self.grid() =~= put(g0, x as int, y as int, cell));
            }
        } else {
            proof {
                assert(!(0 <= y < self.grid().len() && 0 <= x < self.grid()[y as int].len())) by {
                    if y < self.grid().len() {
                        assert(self.grid()[y as int] == self.cells@[y as int]@);
                    }
                }
            }
        }
    }

    fn cell(&self, x: usize, y: usize) -> (c: CanvasCell)
        requires
            self.wf(),
            x < self.width,
            y < self.height,
        ensures
            c == self.grid()[y as int][x as int],
    {
        self.cells[y][x]
    }

    /// Writes a character in colour `fg`.
    pub fn set(&mut self, x: usize, y: usize, ch: char, fg: Option<Color>)
        requires
            old(self).wf(),
        ensures
            final(self).wf(),
            final(self).width == old(self).width,
            final(self).height == old(self).height,
            0 <= y < old(self).height && 0 <= x < old(self).width ==> final(self).grid() == put(
                old(self).grid(),
                x as int,
                y as int,
                CanvasCell { ch, fg, ..old(self).grid()[y as int][x as int] },
            ),
            !(0 <= y < old(self).height && 0 <= x < old(self).width) ==> final(self).grid() == old(self).grid(),
            final(self).grid() == set_at(old(self).grid(), x as int, y as int, ch, fg),
    {
        proof {
            self.lemma_on_grid(x as int, y as int);
        }
        if y < self.height && x < self.width {
            let c = self.cell(x, y);
            self.put_cell(x, y, CanvasCell { ch, fg, ..c });
        }
    }

    /// Writes a character of a node box in colour `fg`.
    pub fn set_node(&mut self, x: usize, y: usize, ch: char, fg: Option<Color>)
        requires
            old(self).wf(),
        ensures
            final(self).wf(),
            final(self).width == old(self).width,
            final(self).height == old(self).height,
            0 <= y < old(self).height && 0 <= x < old(self).width ==> final(self).grid() == put(
                old(self).grid(),
                x as int,
                y as int,
                CanvasCell { ch, fg, is_node: true, ..old(self).grid()[y as int][x as int] },
            ),
            !(0 <= y < old(self).height && 0 <= x < old(self).width) ==> final(self).grid() == old(self).grid(),
            final(self).grid() == node_set_at(old(self).grid(), x as int, y as int, ch, fg),
    {
        proof {
            self.lemma_on_grid(x as int, y as int);
        }
        if y < self.height && x < self.width {
            let c = self.cell(x, y);
            self.put_cell(x, y, CanvasCell { ch, fg, is_node: true, ..c });
        }
    }

    /// Joins a line in directions `dir` to the cell at `(x, y)`: the cell's
    /// junction character is redrawn for all the lines that meet there. Node
    /// cells are left alone.
    pub fn add_connection(&mut self, x: usize, y: usize, dir: u8, fg: Option<Color>)
        requires
            old(self).wf(),
        ensures
            final(self).wf(),
            final(self).width == old(self).width,
            final(self).height == old(self).height,
            0 <= y < old(self).height && 0 <= x < old(self).width ==> final(self).grid() == put(
                old(self).grid(),
                x as int,
                y as int,
                connected(old(self).grid()[y as int][x as int], dir, fg),
            ),
            !(0 <= y < old(self).height && 0 <= x < old(self).width) ==> final(self).grid() == old(self).grid(),
            final(self).grid() == joined_at(old(self).grid(), x as int, y as int, dir, fg),
    {
        proof {
            self.lemma_on_grid(x as int, y as int);
        }
        if y < self.height && x < self.width {
            let c = self.cell(x, y);
            if !c.is_node {
                let connects = c.connects | dir;
                let ch = junction_char(connects);
                let new_fg = if fg.is_some() {
                    fg
                } else {
                    c.fg
                };
                self.put_cell(x, y, CanvasCell { ch, fg: new_fg, connects, ..c });
            } else {
                proof {
                    assert(put(self.grid(), x as int, y as int, c) =~= self.grid()) by {
                        assert(self.grid()[y as int].update(x as int, c) =~= self.grid()[y as int]);
                    }
                }
            }
        }
    }

    /// One cell of a feedback route; such routes are planned to run only
    /// through gap rows and columns, which hold no node cells.
    fn connect_route(&mut self, x: usize, y: usize, dir: u8, fg: Option<Color>)
        requires
            old(self).wf(),
        ensures
            final(self).wf(),
            final(self).width == old(self).width,
            final(self).height == old(self).height,
            final(self).grid() == joined_at(old(self).grid(), x as int, y as int, dir, fg),
    {
        self.add_connection(x, y, dir, fg);
    }

    /// Draws a three-row node box of `width` columns centred on column `cx`
    /// with its top border on row `y`, its label centred on the middle row.
    pub fn draw_node(
        &mut self,
        cx: usize,
        y: usize,
        width: usize,
        label: &str,
        shape: NodeShape,
        border_fg: Option<Color>,
        text_fg: Option<Color>,
    )
        requires
            old(self).wf(),
            width >= 2,
        ensures
            final(self).wf(),
            final(self).width == old(self).width,
            final(self).height == old(self).height,
            final(self).grid() == node_drawn(old(self).grid(), cx as int, y as int, width as int, label@, shape, border_fg, text_fg),
    {
        let x = cx.saturating_sub(width / 2);
        let (tl, tr, bl, br, h, v) = match shape {
            NodeShape::Rectangle => ('┌', '┐', '└', '┘', '─', '│'),
            NodeShape::Rounded | NodeShape::Circle => ('╭', '╮', '╰', '╯', '─', '│'),
            NodeShape::Diamond => ('◆', '◆', '◆', '◆', '─', '│'),
        };
        proof {
            assert(box_corners(shape) == (tl, tr, bl, br));
        }
        let right = x.saturating_add(width - 1);
        let y1 = y.saturating_add(1);
        let y2 = y.saturating_add(2);

        // Top border
        self.set_node(x, y, tl, border_fg);
        let ghost g1 = self.grid();
        let mut i: usize = 1;
        while i < width - 1
            invariant
                self.wf(),
                self.width == old(self).width,
                self.height == old(self).height,
                1 <= i <= width - 1,
                h == '─',
                node_run_at(self.grid(), x as int, y as int, i as int, width - 1, h, border_fg) == node_run_at(g1, x as int, y as int, 1, width - 1, h, border_fg),
            decreases width - 1 - i,
        {
            self.set_node(x.saturating_add(i), y, h, border_fg);
            i = i + 1;
        }
        self.set_node(right, y, tr, border_fg);

        // Content line
        self.set_node(x, y1, v, border_fg);
        let ghost g2 = self.grid();
        let mut i: usize = 1;
        while i < width - 1
            invariant
                self.wf(),
                self.width == old(self).width,
                self.height == old(self).height,
                1 <= i <= width - 1,
                node_run_at(self.grid(), x as int, y1 as int, i as int, width - 1, ' ', text_fg) == node_run_at(g2, x as int, y1 as int, 1, width - 1, ' ', text_fg),
            decreases width - 1 - i,
        {
            self.set_node(x.saturating_add(i), y1, ' ', text_fg);
            i = i + 1;
        }
        let label_chars = chars_of(label);
        let padding = (width - 2).saturating_sub(label_chars.len());
        let left_pad = padding / 2;
        let ghost g3 = self.grid();
        let mut i: usize = 0;
        while i < label_chars.len()
            invariant
                self.wf(),
                self.width == old(self).width,
                self.height == old(self).height,
                i <= label_chars.len(),
                label_chars@ == label@,
                label_at(self.grid(), x as int, y1 as int, right as int, left_pad as int, label@, i as int, text_fg)
                    == label_at(g3, x as int, y1 as int, right as int, left_pad as int, label@, 0, text_fg),
            decreases label_chars.len() - i,
        {
            let lx = x.saturating_add(1).saturating_add(left_pad).saturating_add(i);
            if lx < right {
                self.set_node(lx, y1, label_chars[i], text_fg);
            }
            i = i + 1;
        }
        self.set_node(right, y1, v, border_fg);

        // Bottom border
        self.set_node(x, y2, bl, border_fg);
        let ghost g4 = self.grid();
        let mut i: usize = 1;
        while i < width - 1
            invariant
                self.wf(),
                self.width == old(self).width,
                self.height == old(self).height,
                1 <= i <= width - 1,
                h == '─',
                node_run_at(self.grid(), x as int, y2 as int, i as int, width - 1, h, border_fg) == node_run_at(g4, x as int, y2 as int, 1, width - 1, h, border_fg),
            decreases width - 1 - i,
        {
            self.set_node(x.saturating_add(i), y2, h, border_fg);
            i = i + 1;
        }
        self.set_node(right, y2, br, border_fg);
    }

    /// Connects the cells of column `x` from row `from` up to, not including,
    /// row `to` with vertical lines.
    fn vertical_run(&mut self, x: usize, from: usize, to: usize, fg: Option<Color>, route: bool)
        requires
            old(self).wf(),
        ensures
            final(self).wf(),
            final(self).width == old(self).width,
            final(self).height == old(self).height,
            final(self).grid() == vertical_run_at(old(self).grid(), x as int, from as int, to as int, fg),
    {
        let mut y = from;
        while y < to
            invariant
                self.wf(),
                self.width == old(self).width,
                self.height == old(self).height,
                vertical_run_at(self.grid(), x as int, y as int, to as int, fg) == vertical_run_at(old(self).grid(), x as int, from as int, to as int, fg),
            decreases to - y,
        {
            if route {
                self.connect_route(x, y, CONN_UP | CONN_DOWN, fg);
            } else {
                self.add_connection(x, y, CONN_UP | CONN_DOWN, fg);
            }
            y = y + 1;
        }
    }

    /// Connects the cells of row `y` from column `from` up to, not including,
    /// column `to` with horizontal lines.
    fn horizontal_run(&mut self, y: usize, from: usize, to: usize, fg: Option<Color>, route: bool)
        requires
            old(self).wf(),
        ensures
            final(self).wf(),
            final(self).width == old(self).width,
            final(self).height == old(self).height,
            final(self).grid() == horizontal_run_at(old(self).grid(), y as int, from as int, to as int, fg),
    {
        let mut x = from;
        while x < to
            invariant
                self.wf(),
                self.width == old(self).width,
                self.height == old(self).height,
                horizontal_run_at(self.grid(), y as int, x as int, to as int, fg) == horizontal_run_at(old(self).grid(), y as int, from as int, to as int, fg),
            decreases to - x,
        {
            if route {
                self.connect_route(x, y, CONN_LEFT | CONN_RIGHT, fg);
            } else {
                self.add_connection(x, y, CONN_LEFT | CONN_RIGHT, fg);
            }
            x = x + 1;
        }
    }

    /// Writes `text` from column `x` of row `y` rightwards, dropping what
    /// falls off the canvas.
    pub fn write_text(&mut self, x: usize, y: usize, text: &str, fg: Option<Color>)
        requires
            old(self).wf(),
        ensures
            final(self).wf(),
            final(self).width == old(self).width,
            final(self).height == old(self).height,
            final(self).grid() == text_at(old(self).grid(), x as int, y as int, text@, 0, fg),
    {
        let chars = chars_of(text);
        let mut i: usize = 0;
        while i < chars.len()
            invariant
                self.wf(),
                self.width == old(self).width,
                self.height == old(self).height,
                i <= chars.len(),
                chars@ == text@,
                text_at(self.grid(), x as int, y as int, text@, i as int, fg) == text_at(old(self).grid(), x as int, y as int, text@, 0, fg),
            decreases chars.len() - i,
        {
            if x.checked_add(i).is_some() {
                self.set(x + i, y, chars[i], fg);
            } else {
                proof {
                    self.lemma_on_grid(x + i, y as int);
                }
            }
            i = i + 1;
        }
    }

    /// Draws a forward edge of a top-down diagram from the bottom border of
    /// the source (centre column `src_cx`) to the top border of the target:
    /// straight down when the columns agree, else down, across on the bus
    /// row and down again, ending in an arrowhead. The label goes beside a
    /// straight edge or above the bus.
    pub fn draw_edge_td(
        &mut self,
        src_cx: usize,
        src_bottom_y: usize,
        dst_cx: usize,
        dst_top_y: usize,
        label: Option<&str>,
        edge_fg: Option<Color>,
        label_fg: Option<Color>,
        bus_y_override: Option<usize>,
    )
        requires
            old(self).wf(),
        ensures
            final(self).wf(),
            final(self).width == old(self).width,
            final(self).height == old(self).height,
            final(self).grid() == edge_td_drawn(
                old(self).grid(), src_cx as int, src_bottom_y as int, dst_cx as int, dst_top_y as int,
                label_view(label), edge_fg, label_fg, bus_y_override,
            ),
    {
        if src_bottom_y >= dst_top_y || src_bottom_y + 1 >= dst_top_y {
            return;
        }
        let mid_y = match bus_y_override {
            Some(y) => if y > src_bottom_y && y < dst_top_y {
                y
            } else {
                src_bottom_y + 1 + (dst_top_y - src_bottom_y - 1) / 2
            },
            None => src_bottom_y + 1 + (dst_top_y - src_bottom_y - 1) / 2,
        };
        if src_cx == dst_cx {
            self.vertical_run(src_cx, src_bottom_y + 1, dst_top_y, edge_fg, false);
            self.set(dst_cx, dst_top_y - 1, '▼', edge_fg);
            match label {
                Some(text) => self.write_text(src_cx.saturating_add(2), src_bottom_y + 1, text, label_fg),
                None => {},
            }
        } else {
            self.vertical_run(src_cx, src_bottom_y + 1, mid_y, edge_fg, false);
            let src_turn = if dst_cx > src_cx {
                CONN_UP | CONN_RIGHT
            } else {
                CONN_UP | CONN_LEFT
            };
            self.add_connection(src_cx, mid_y, src_turn, edge_fg);
            let (min_x, max_x) = if src_cx < dst_cx {
                (src_cx, dst_cx)
            } else {
                (dst_cx, src_cx)
            };
            self.horizontal_run(mid_y, min_x + 1, max_x, edge_fg, false);
            let dst_turn = if dst_cx > src_cx {
                CONN_LEFT | CONN_DOWN
            } else {
                CONN_RIGHT | CONN_DOWN
            };
            self.add_connection(dst_cx, mid_y, dst_turn, edge_fg);
            self.vertical_run(dst_cx, mid_y + 1, dst_top_y, edge_fg, false);
            self.set(dst_cx, dst_top_y - 1, '▼', edge_fg);
            match label {
                Some(text) => {
                    let label_len = chars_of(text).len();
                    let label_start = min_x + (max_x - min_x).saturating_sub(label_len) / 2;
                    let label_y = if mid_y > 0 {
                        mid_y - 1
                    } else {
                        mid_y
                    };
                    self.write_text(label_start, label_y, text, label_fg);
                },
                None => {},
            }
        }
    }

    /// Draws a forward edge of a left-right diagram from the right border of
    /// the source (middle row `src_cy`) to the left border of the target:
    /// straight right when the rows agree, else right, along the bend column
    /// and right again, ending in an arrowhead. The label goes above a
    /// straight edge or beside the bend.
    pub fn draw_edge_lr(
        &mut self,
        src_right_x: usize,
        src_cy: usize,
        dst_left_x: usize,
        dst_cy: usize,
        label: Option<&str>,
        edge_fg: Option<Color>,
        label_fg: Option<Color>,
        mid_x_override: Option<usize>,
    )
        requires
            old(self).wf(),
        ensures
            final(self).wf(),
            final(self).width == old(self).width,
            final(self).height == old(self).height,
            final(self).grid() == edge_lr_drawn(
                old(self).grid(), src_right_x as int, src_cy as int, dst_left_x as int, dst_cy as int,
                label_view(label), edge_fg, label_fg, mid_x_override,
            ),
    {
        if src_right_x >= dst_left_x || src_right_x + 1 >= dst_left_x {
            return;
        }
        let mid_x = match mid_x_override {
            Some(x) => x,
            None => src_right_x + 1 + (dst_left_x - src_right_x - 1) / 2,
        };
        if src_cy == dst_cy {
            self.horizontal_run(src_cy, src_right_x + 1, dst_left_x, edge_fg, false);
            self.set(dst_left_x - 1, dst_cy, '▶', edge_fg);
            match label {
                Some(text) => {
                    let label_y = if src_cy > 0 {
                        src_cy - 1
                    } else {
                        0
                    };
                    self.write_text(src_right_x + 2, label_y, text, label_fg);
                },
                None => {},
            }
        } else {
            self.horizontal_run(src_cy, src_right_x + 1, mid_x, edge_fg, false);
            let src_turn = if dst_cy > src_cy {
                CONN_LEFT | CONN_DOWN
            } else {
                CONN_LEFT | CONN_UP
            };
            self.add_connection(mid_x, src_cy, src_turn, edge_fg);
            let (min_y, max_y) = if src_cy < dst_cy {
                (src_cy, dst_cy)
            } else {
                (dst_cy, src_cy)
            };
            self.vertical_run(mid_x, min_y + 1, max_y, edge_fg, false);
            let dst_turn = if dst_cy > src_cy {
                CONN_UP | CONN_RIGHT
            } else {
                CONN_DOWN | CONN_RIGHT
            };
            self.add_connection(mid_x, dst_cy, dst_turn, edge_fg);
            self.horizontal_run(dst_cy, mid_x.saturating_add(1), dst_left_x, edge_fg, false);
            self.set(dst_left_x - 1, dst_cy, '▶', edge_fg);
            match label {
                Some(text) => {
                    let label_y = min_y + (max_y - min_y).saturating_sub(1) / 2;
                    self.write_text(mid_x.saturating_add(2), label_y, text, label_fg);
                },
                None => {},
            }
        }
    }

    /// Draws a feedback edge of a top-down diagram: down from the source's
    /// bottom border to its exit row, right to the gutter lane, up the lane to
    /// the entry row, left to the target's column and down into its top
    /// border. Gap rows hold no nodes, so the route passes no sibling box.
    pub fn draw_feedback_edge_td(&mut self, r: &FeedbackRouteTd, fg: Option<Color>)
        requires
            old(self).wf(),
        ensures
            final(self).wf(),
            final(self).width == old(self).width,
            final(self).height == old(self).height,
            final(self).grid() == feedback_td_drawn(old(self).grid(), *r, fg),
    {
        self.vertical_run(r.exit_x, r.src_bottom_y.saturating_add(1), r.exit_y, fg, true);
        self.connect_route(r.exit_x, r.exit_y, CONN_UP | CONN_RIGHT, fg);
        self.horizontal_run(r.exit_y, r.exit_x.saturating_add(1), r.lane_x, fg, true);
        self.connect_route(r.lane_x, r.exit_y, CONN_LEFT | CONN_UP, fg);
        self.vertical_run(r.lane_x, r.entry_y.saturating_add(1), r.exit_y, fg, true);
        self.connect_route(r.lane_x, r.entry_y, CONN_DOWN | CONN_LEFT, fg);
        self.horizontal_run(r.entry_y, r.entry_x.saturating_add(1), r.lane_x, fg, true);
        self.connect_route(r.entry_x, r.entry_y, CONN_RIGHT | CONN_DOWN, fg);
        let arrow_y = r.dst_top_y.saturating_sub(1);
        self.vertical_run(r.entry_x, r.entry_y.saturating_add(1), arrow_y, fg, true);
        self.set(r.entry_x, arrow_y, '▼', fg);
    }

    /// Draws a feedback edge of a left-right diagram: under the source's
    /// bottom border right to its exit column, down to the gutter lane, left
    /// along it to the target's entry column, up beside the target, right
    /// under it and up into its bottom border.
    pub fn draw_feedback_edge_lr(&mut self, r: &FeedbackRouteLr, fg: Option<Color>)
        requires
            old(self).wf(),
        ensures
            final(self).wf(),
            final(self).width == old(self).width,
            final(self).height == old(self).height,
            final(self).grid() == feedback_lr_drawn(old(self).grid(), *r, fg),
    {
        let exit_y = r.src_bottom_y.saturating_add(1);
        let entry_y = r.dst_bottom_y.saturating_add(2);
        self.connect_route(r.exit_x, exit_y, CONN_UP | CONN_RIGHT, fg);
        self.horizontal_run(exit_y, r.exit_x.saturating_add(1), r.exit_lane_x, fg, true);
        self.connect_route(r.exit_lane_x, exit_y, CONN_LEFT | CONN_DOWN, fg);
        self.vertical_run(r.exit_lane_x, exit_y.saturating_add(1), r.lane_y, fg, true);
        self.connect_route(r.exit_lane_x, r.lane_y, CONN_UP | CONN_LEFT, fg);
        self.horizontal_run(r.lane_y, r.entry_lane_x.saturating_add(1), r.exit_lane_x, fg, true);
        self.connect_route(r.entry_lane_x, r.lane_y, CONN_UP | CONN_RIGHT, fg);
        self.vertical_run(r.entry_lane_x, entry_y.saturating_add(1), r.lane_y, fg, true);
        self.connect_route(r.entry_lane_x, entry_y, CONN_DOWN | CONN_RIGHT, fg);
        self.horizontal_run(entry_y, r.entry_lane_x.saturating_add(1), r.entry_x, fg, true);
        self.connect_route(r.entry_x, entry_y, CONN_LEFT | CONN_UP, fg);
        self.set(r.entry_x, r.dst_bottom_y.saturating_add(1), '▲', fg);
    }

    /// The canvas as rows of styled spans: each row split into maximal runs
    /// of cells drawn in the same colours, with the theme's text colour and
    /// code background where a cell names none.
    pub fn to_span_rows(&self, theme: &Theme) -> (rows: Vec<Vec<StyledSpan>>)
        requires
            self.wf(),
        ensures
            rows@.len() == self.height,
            forall|y: int| 0 <= y < self.height ==> spans_render_row(#[trigger] rows@[y]@, self.grid()[y], *theme),
    {
        let mut rows: Vec<Vec<StyledSpan>> = Vec::new();
        let mut y: usize = 0;
        while y < self.height
            invariant
                self.wf(),
                y <= self.height,
                rows@.len() == y,
                forall|k: int| 0 <= k < y ==> spans_render_row(#[trigger] rows@[k]@, self.grid()[k], *theme),
            decreases self.height - y,
        {
            proof {
                assert(self.grid()[y as int] == self.cells@[y as int]@);
            }
            let spans = row_spans(&self.cells[y], theme);
            rows.push(spans);
            proof {
                assert forall|k: int| 0 <= k < y + 1 implies spans_render_row(#[trigger] rows@[k]@, self.grid()[k], *theme) by {
                    if k < y {
                        assert(rows@[k] == rows@.drop_last()[k]);
                    }
                }
            }
            y = y + 1;
        }
        rows
    }
}

/// Geometry of one feedback route in a top-down diagram.
pub struct FeedbackRouteTd {
    /// Column where the route leaves the source's bottom border.
    pub exit_x: usize,
    /// Row of the source's bottom border.
    pub src_bottom_y: usize,
    /// Gap row of the horizontal run below the source.
    pub exit_y: usize,
    /// Column where the arrowhead enters the destination's top border.
    pub entry_x: usize,
    /// Row of the destination's top border.
    pub dst_top_y: usize,
    /// Gap row of the horizontal run above the destination.
    pub entry_y: usize,
    /// Column of the vertical lane in the gutter right of the diagram.
    pub lane_x: usize,
}

/// Geometry of one feedback route in a left-right diagram.
pub struct FeedbackRouteLr {
    /// Column where the route leaves the source's bottom border.
    pub exit_x: usize,
    /// Row of the source's bottom border.
    pub src_bottom_y: usize,
    /// Gap column right of the source's column that carries the drop to the
    /// lane.
    pub exit_lane_x: usize,
    /// Column where the arrowhead enters the destination's bottom border.
    pub entry_x: usize,
    /// Row of the destination's bottom border.
    pub dst_bottom_y: usize,
    /// Gap column left of the destination's column that carries the rise
    /// from the lane.
    pub entry_lane_x: usize,
    /// Row of the horizontal lane in the gutter below the diagram.
    pub lane_y: usize,
}

fn copy_row(v: &Vec<CanvasCell>) -> (r: Vec<CanvasCell>)
    ensures
        r@ == v@,
{
    let mut r: Vec<CanvasCell> = Vec::new();
    let mut i: usize = 0;
    while i < v.len()
        invariant
            i <= v.len(),
            r@ == v@.subrange(0, i as int),
        decreases v.len() - i,
    {
        r.push(v[i]);
        i = i + 1;
        proof {
            assert(r@ =~= v@.subrange(0, i as int));
        }
    }
    proof {
        assert(v@.subrange(0, v@.len() as int) =~= v@);
    }
    r
}

/// The colour a cell is drawn in.
pub open spec fn cell_fg(c: CanvasCell, theme: Theme) -> Color {
    match c.fg {
        Some(f) => f,
        None => theme.fg,
    }
}

/// The background a cell is drawn on.
pub open spec fn cell_bg(c: CanvasCell, theme: Theme) -> Color {
    match c.bg {
        Some(b) => b,
        None => theme.code_bg,
    }
}

/// The characters of a list of spans, each with the colours it is drawn in.
pub open spec fn styled_chars(spans: Seq<StyledSpan>) -> Seq<(char, Option<Color>, Option<Color>)>
    decreases spans.len(),
{
    if spans.len() == 0 {
        Seq::empty()
    } else {
        styled_chars(spans.drop_last()) + spans.last().text@.map_values(
            |ch: char| (ch, spans.last().style.fg, spans.last().style.bg),
        )
    }
}

/// The characters of some cells with the colours they are drawn in.
pub open spec fn cells_styled(row: Seq<CanvasCell>, theme: Theme) -> Seq<(char, Option<Color>, Option<Color>)> {
    row.map_values(|c: CanvasCell| (c.ch, Some(cell_fg(c, theme)), Some(cell_bg(c, theme))))
}

/// `spans` draws `row`: the same characters in the same colours, as
/// maximal runs (no span is empty, and neighbours differ in colour), each
/// span carrying only its two colours.
pub open spec fn spans_render_row(spans: Seq<StyledSpan>, row: Seq<CanvasCell>, theme: Theme) -> bool {
    &&& styled_chars(spans) == cells_styled(row, theme)
    &&& forall|k: int| 0 <= k < spans.len() ==> (#[trigger] spans[k]).text@.len() > 0
    &&& forall|k: int| 0 <= k < spans.len() ==> {
        let st = (#[trigger] spans[k]).style;
        &&& st.fg is Some && st.bg is Some
        &&& !st.bold && !st.italic && !st.underline && !st.strikethrough && !st.dim
        &&& st.link_url is None
    }
    &&& forall|k: int| 0 < k < spans.len() ==> (#[trigger] spans[k]).style.fg != spans[k - 1].style.fg
        || spans[k].style.bg != spans[k - 1].style.bg
}

fn fg_of(c: &CanvasCell, theme: &Theme) -> (f: Color)
    ensures
        f == cell_fg(*c, *theme),
{
    match c.fg {
        Some(f) => f,
        None => theme.fg,
    }
}

fn bg_of(c: &CanvasCell, theme: &Theme) -> (b: Color)
    ensures
        b == cell_bg(*c, *theme),
{
    match c.bg {
        Some(b) => b,
        None => theme.code_bg,
    }
}

/// One row of cells as maximal runs of equally coloured cells.
fn row_spans(row: &Vec<CanvasCell>, theme: &Theme) -> (spans: Vec<StyledSpan>)
    ensures
        spans_render_row(spans@, row@, *theme),
{
    let ghost target = cells_styled(row@, *theme);
    let mut spans: Vec<StyledSpan> = Vec::new();
    let mut i: usize = 0;
    while i < row.len()
        invariant
            target == cells_styled(row@, *theme),
            i <= row.len(),
            styled_chars(spans@) == target.subrange(0, i as int),
            forall|k: int| 0 <= k < spans@.len() ==> (#[trigger] spans@[k]).text@.len() > 0,
            forall|k: int| 0 <= k < spans@.len() ==> {
                let st = (#[trigger] spans@[k]).style;
                &&& st.fg is Some && st.bg is Some
                &&& !st.bold && !st.italic && !st.underline && !st.strikethrough && !st.dim
                &&& st.link_url is None
            },
            forall|k: int| 0 < k < spans@.len() ==> (#[trigger] spans@[k]).style.fg != spans@[k - 1].style.fg
                || spans@[k].style.bg != spans@[k - 1].style.bg,
            spans@.len() == 0 <==> i == 0,
            spans@.len() > 0 && i < row.len() ==> !(spans@.last().style.fg == Some(cell_fg(row@[i as int], *theme))
                && spans@.last().style.bg == Some(cell_bg(row@[i as int], *theme))),
        decreases row.len() - i,
    {
        let fg = fg_of(&row[i], theme);
        let bg = bg_of(&row[i], theme);
        let mut text = String::new();
        let mut j: usize = i;
        while j < row.len() && fg_of(&row[j], theme) == fg && bg_of(&row[j], theme) == bg
            invariant
                target == cells_styled(row@, *theme),
                i <= j <= row.len(),
                fg == cell_fg(row@[i as int], *theme),
                bg == cell_bg(row@[i as int], *theme),
                text@.map_values(|ch: char| (ch, Some(fg), Some(bg))) == target.subrange(i as int, j as int),
                text@.len() == j - i,
                forall|k: int| i <= k < j ==> cell_fg(#[trigger] row@[k], *theme) == fg && cell_bg(row@[k], *theme) == bg,
            decreases row.len() - j,
        {
            push_char(&mut text, row[j].ch);
            proof {
                assert(text@.map_values(|ch: char| (ch, Some(fg), Some(bg))) =~= target.subrange(i as int, j + 1));
            }
            j = j + 1;
        }
        proof {
            assert(j > i) by {
                assert(cell_fg(row@[i as int], *theme) == fg);
            }
        }
        let ghost before = spans@;
        spans.push(StyledSpan { text, style: Style::colors(Some(fg), Some(bg)) });
        proof {
            assert(spans@.drop_last() == before);
            assert(styled_chars(spans@) =~= target.subrange(0, j as int));
            assert forall|k: int| 0 < k < spans@.len() implies (#[trigger] spans@[k]).style.fg != spans@[k - 1].style.fg
                || spans@[k].style.bg != spans@[k - 1].style.bg by {
                if k < spans@.len() - 1 {
                    assert(spans@[k] == before[k] && spans@[k - 1] == before[k - 1]);
                } else {
                    assert(spans@[k - 1] == before.last());
                }
            }
        }
        i = j;
    }
    proof {
        assert(target.subrange(0, row@.len() as int) =~= target);
    }
    spans
}


// ───── cards ─────

proof fn lemma_put_at(grid: Seq<Seq<CanvasCell>>, x: int, y: int, c: CanvasCell, yy: int, xx: int)
    requires
        0 <= y < grid.len(),
        0 <= x < grid[y].len(),
        0 <= yy < grid.len(),
        0 <= xx < grid[yy].len(),
    ensures
        put(grid, x, y, c)[yy][xx] == if yy == y && xx == x { c } else { grid[yy][xx] },
{
}

/// A row of a card: a key and a value, or, for a connector row, an arrow to
/// the right border instead of the value.
pub struct CardDrawRow {
    pub key: String,
    pub value_text: String,
    pub value_color: Option<Color>,
    /// If true, the value area shows `──▶` instead of text.
    pub is_connector: bool,
}

pub open spec fn lesser(a: int, b: int) -> int {
    if a < b { a } else { b }
}

/// Widest key, in characters, among `rows[..n]`.
pub open spec fn widest_key(rows: Seq<CardDrawRow>, n: int) -> int
    decreases n,
{
    if n <= 0 {
        0
    } else {
        let w = widest_key(rows, n - 1);
        if rows[n - 1].key@.len() > w { rows[n - 1].key@.len() as int } else { w }
    }
}

/// The width of the key column: the widest key, at most the card's inner
/// width less four.
pub open spec fn key_column(rows: Seq<CardDrawRow>, width: int) -> int {
    lesser(widest_key(rows, rows.len() as int), if width - 2 >= 4 { width - 6 } else { 0 })
}

/// The top border: `╭─ title ───╮`, the title cut to fit.
pub open spec fn top_glyph(dx: int, width: int, title: Seq<char>, border_fg: Option<Color>, title_fg: Option<Color>) -> (char, Option<Color>) {
    let shown = lesser(title.len() as int, if width - 2 >= 3 { width - 5 } else { 0 });
    if dx == width - 1 {
        ('╮', border_fg)
    } else if dx == 0 {
        ('╭', border_fg)
    } else if dx == 1 {
        ('─', border_fg)
    } else if dx == 2 {
        (' ', title_fg)
    } else if dx < 3 + shown {
        (title[dx - 3], title_fg)
    } else if dx == 3 + shown {
        (' ', border_fg)
    } else {
        ('─', border_fg)
    }
}

/// A content row: `│ key   value │`, the key padded to the key column, the
/// value cut to fit; a connector row ends in `──▶` when there is room.
pub open spec fn row_glyph(
    dx: int,
    width: int,
    kcw: int,
    row: CardDrawRow,
    key_fg: Option<Color>,
    val_fg: Option<Color>,
    border_fg: Option<Color>,
) -> (char, Option<Color>) {
    let key = row.key@;
    let shown_key = lesser(key.len() as int, kcw);
    let vs = kcw + 3;
    let val_space = if width - 2 - vs > 0 { width - 2 - vs } else { 0 };
    let val = row.value_text@;
    let shown_val = lesser(val.len() as int, val_space);
    if dx == width - 1 {
        ('│', border_fg)
    } else if dx == width - 2 {
        (' ', border_fg)
    } else if dx == 0 {
        ('│', border_fg)
    } else if dx == 1 {
        (' ', key_fg)
    } else if dx < 2 + shown_key {
        (key[dx - 2], key_fg)
    } else if dx < 2 + kcw {
        (' ', key_fg)
    } else if dx == 2 + kcw {
        (' ', val_fg)
    } else if row.is_connector {
        if width - kcw >= 8 && (dx == width - 5 || dx == width - 4) {
            ('─', val_fg)
        } else if width - kcw >= 8 && dx == width - 3 {
            ('▶', val_fg)
        } else {
            (' ', val_fg)
        }
    } else if dx < vs + shown_val {
        (val[dx - vs], val_fg)
    } else {
        (' ', val_fg)
    }
}

/// The bottom border: `╰──────╯`.
pub open spec fn bottom_glyph(dx: int, width: int, border_fg: Option<Color>) -> (char, Option<Color>) {
    if dx == 0 {
        ('╰', border_fg)
    } else if dx == width - 1 {
        ('╯', border_fg)
    } else {
        ('─', border_fg)
    }
}

/// The colours a card is drawn with.
pub struct CardColors {
    pub border_fg: Option<Color>,
    pub title_fg: Option<Color>,
    pub key_fg: Option<Color>,
    pub highlight_fg: Option<Color>,
    pub card_highlight_bg: Option<Color>,
}

/// The glyph of a card at `dx` columns and `dy` rows from its top left
/// corner; highlighted rows take the highlight colour for key and value.
pub open spec fn card_glyph(
    dx: int,
    dy: int,
    width: int,
    title: Seq<char>,
    rows: Seq<CardDrawRow>,
    colors: CardColors,
    highlight: Set<usize>,
) -> (char, Option<Color>) {
    if dy == 0 {
        top_glyph(dx, width, title, colors.border_fg, colors.title_fg)
    } else if dy <= rows.len() {
        let ri = dy - 1;
        let lit = highlight.contains(ri as usize);
        row_glyph(
            dx,
            width,
            key_column(rows, width),
            rows[ri],
            if lit { colors.highlight_fg } else { colors.key_fg },
            if lit { colors.highlight_fg } else { rows[ri].value_color },
            colors.border_fg,
        )
    } else {
        bottom_glyph(dx, width, colors.border_fg)
    }
}

/// Whether `(x, y)` lies on a card of `width` columns and `n` content rows
/// with its top left corner at `(left_x, top_y)`.
pub open spec fn on_card(x: int, y: int, left_x: int, top_y: int, width: int, n: int) -> bool {
    &&& width >= 4
    &&& left_x <= x < left_x + width
    &&& top_y <= y <= top_y + n + 1
}

/// The cell at `(x, y)` once the card is drawn over `grid`.
pub open spec fn card_cell(
    grid: Seq<Seq<CanvasCell>>,
    x: int,
    y: int,
    left_x: int,
    top_y: int,
    width: int,
    title: Seq<char>,
    rows: Seq<CardDrawRow>,
    colors: CardColors,
    highlight: Set<usize>,
) -> CanvasCell {
    if on_card(x, y, left_x, top_y, width, rows.len() as int) {
        let g = card_glyph(x - left_x, y - top_y, width, title, rows, colors, highlight);
        CanvasCell { ch: g.0, fg: g.1, bg: colors.card_highlight_bg, is_node: true, ..grid[y][x] }
    } else {
        grid[y][x]
    }
}

/// The canvas with the card drawn over it: every card cell is a node cell
/// in the card's background colour; the rest is as it was.
pub open spec fn card_grid(
    grid: Seq<Seq<CanvasCell>>,
    left_x: int,
    top_y: int,
    width: int,
    title: Seq<char>,
    rows: Seq<CardDrawRow>,
    colors: CardColors,
    highlight: Set<usize>,
) -> Seq<Seq<CanvasCell>> {
    Seq::new(
        grid.len(),
        |y: int| Seq::new(grid[y].len(), |x: int| card_cell(grid, x, y, left_x, top_y, width, title, rows, colors, highlight)),
    )
}

proof fn lemma_card_grid_at(
    grid: Seq<Seq<CanvasCell>>,
    left_x: int,
    top_y: int,
    width: int,
    title: Seq<char>,
    rows: Seq<CardDrawRow>,
    colors: CardColors,
    highlight: Set<usize>,
    y: int,
    x: int,
)
    requires
        0 <= y < grid.len(),
    ensures
        card_grid(grid, left_x, top_y, width, title, rows, colors, highlight).len() == grid.len(),
        card_grid(grid, left_x, top_y, width, title, rows, colors, highlight)[y].len() == grid[y].len(),
        0 <= x < grid[y].len() ==> card_grid(grid, left_x, top_y, width, title, rows, colors, highlight)[y][x] == card_cell(
            grid, x, y, left_x, top_y, width, title, rows, colors, highlight),
{
}

fn lesser_exec(a: usize, b: usize) -> (r: usize)
    ensures
        r == lesser(a as int, b as int),
{
    if a < b { a } else { b }
}

fn is_lit(highlight: &HashSet<usize>, ri: usize) -> (b: bool)
    ensures
        b == highlight@.contains(ri),
{
    broadcast use vstd::std_specs::hash::group_hash_axioms;
    highlight.contains(&ri)
}

fn row_glyph_exec(
    dx: usize,
    width: usize,
    kcw: usize,
    row: &CardDrawRow,
    key: &Vec<char>,
    val: &Vec<char>,
    key_fg: Option<Color>,
    val_fg: Option<Color>,
    border_fg: Option<Color>,
) -> (g: (char, Option<Color>))
    requires
        key@ == row.key@,
        val@ == row.value_text@,
        dx < width,
        width >= 4,
        kcw + 3 <= width,
    ensures
        g == row_glyph(dx as int, width as int, kcw as int, *row, key_fg, val_fg, border_fg),
{
    let shown_key = lesser_exec(key.len(), kcw);
    let vs = kcw + 3;
    let val_space: usize = if width - 2 > vs { width - 2 - vs } else { 0 };
    let shown_val = lesser_exec(val.len(), val_space);
    if dx == width - 1 {
        ('│', border_fg)
    } else if dx == width - 2 {
        (' ', border_fg)
    } else if dx == 0 {
        ('│', border_fg)
    } else if dx == 1 {
        (' ', key_fg)
    } else if dx < 2 + shown_key {
        (key[dx - 2], key_fg)
    } else if dx < 2 + kcw {
        (' ', key_fg)
    } else if dx == 2 + kcw {
        (' ', val_fg)
    } else if row.is_connector {
        if width - kcw >= 8 && (dx == width - 5 || dx == width - 4) {
            ('─', val_fg)
        } else if width - kcw >= 8 && dx == width - 3 {
            ('▶', val_fg)
        } else {
            (' ', val_fg)
        }
    } else if dx < vs + shown_val {
        (val[dx - vs], val_fg)
    } else {
        (' ', val_fg)
    }
}

impl Canvas {
    /// Writes a character of a node in colours `fg` on `bg`.
    pub fn set_node_bg(&mut self, x: usize, y: usize, ch: char, fg: Option<Color>, bg: Option<Color>)
        requires
            old(self).wf(),
        ensures
            final(self).wf(),
            final(self).width == old(self).width,
            final(self).height == old(self).height,
            0 <= y < old(self).height && 0 <= x < old(self).width ==> final(self).grid() == put(
                old(self).grid(),
                x as int,
                y as int,
                CanvasCell { ch, fg, bg, is_node: true, ..old(self).grid()[y as int][x as int] },
            ),
            !(0 <= y < old(self).height && 0 <= x < old(self).width) ==> final(self).grid() == old(self).grid(),
    {
        if y < self.height && x < self.width {
            let c = self.cell(x, y);
            self.put_cell(x, y, CanvasCell { ch, fg, bg, is_node: true, ..c });
        }
    }

    /// Draws a card with a title and rows of keys and values (a table-like
    /// node); returns the row of each content line, for routing edges to
    /// them. A card narrower than four columns is not drawn.
    pub fn draw_card(
        &mut self,
        left_x: usize,
        top_y: usize,
        width: usize,
        title: &str,
        rows: &Vec<CardDrawRow>,
        colors: &CardColors,
        highlight_rows: &HashSet<usize>,
    ) -> (row_ys: Vec<usize>)
        requires
            old(self).wf(),
            width >= 4 ==> left_x + width <= usize::MAX && top_y + rows@.len() + 1 <= usize::MAX,
        ensures
            final(self).wf(),
            final(self).width == old(self).width,
            final(self).height == old(self).height,
            final(self).grid() == card_grid(
                old(self).grid(),
                left_x as int,
                top_y as int,
                width as int,
                title@,
                rows@,
                *colors,
                highlight_rows@,
            ),
            width >= 4 ==> row_ys@ == Seq::new(rows@.len(), |i: int| (top_y + 1 + i) as usize),
            width < 4 ==> row_ys@.len() == 0,
    {
        let ghost g0 = self.grid();
        proof {
            assert forall|yy: int| 0 <= yy < g0.len() implies (#[trigger] g0[yy]).len() == self.width by {
                assert(g0[yy] == self.cells@[yy]@);
            }
        }
        if width < 4 {
            proof {
                assert(self.grid() =~= card_grid(g0, left_x as int, top_y as int, width as int, title@, rows@, *colors, highlight_rows@)) by {
                    assert forall|y: int| 0 <= y < g0.len() implies self.grid()[y] =~= card_grid(
                        g0, left_x as int, top_y as int, width as int, title@, rows@, *colors, highlight_rows@)[y] by {}
                }
            }
            return Vec::new();
        }
        let tv = chars_of(title);
        let mut widest: usize = 0;
        let mut k: usize = 0;
        while k < rows.len()
            invariant
                k <= rows@.len(),
                widest == widest_key(rows@, k as int),
            decreases rows@.len() - k,
        {
            let n = chars_of(rows[k].key.as_str()).len();
            if n > widest {
                widest = n;
            }
            k = k + 1;
        }
        let kcw = lesser_exec(widest, if width - 2 >= 4 { width - 6 } else { 0 });
        let shown_title = lesser_exec(tv.len(), if width - 2 >= 3 { width - 5 } else { 0 });
        let n = rows.len();
        let mut dy: usize = 0;
        let mut finished = false;
        while dy <= n + 1 && !finished
            invariant
                self.wf(),
                self.width == old(self).width,
                self.height == old(self).height,
                g0 == old(self).grid(),
                g0.len() == self.height,
                forall|yy: int| 0 <= yy < g0.len() ==> (#[trigger] g0[yy]).len() == self.width,
                width >= 4,
                left_x + width <= usize::MAX,
                top_y + n + 1 <= usize::MAX,
                n == rows@.len(),
                tv@ == title@,
                kcw as int == key_column(rows@, width as int),
                shown_title as int == lesser(title@.len() as int, if width - 2 >= 3 { width - 5 } else { 0 }),
                dy <= n + 1,
                finished ==> dy == n + 1,
                forall|y: int, x: int|
                    0 <= y < g0.len() && 0 <= x < g0[y].len() ==> #[trigger] self.grid()[y][x] == if on_card(
                        x,
                        y,
                        left_x as int,
                        top_y as int,
                        width as int,
                        n as int,
                    ) && y < top_y + dy + (if finished { 1int } else { 0int }) {
                        card_grid(g0, left_x as int, top_y as int, width as int, title@, rows@, *colors, highlight_rows@)[y][x]
                    } else {
                        g0[y][x]
                    },
            decreases n + 1 - dy + (if finished { 0int } else { 1int }),
        {
            let y = top_y + dy;
            let mut key: Vec<char> = Vec::new();
            let mut val: Vec<char> = Vec::new();
            let mut key_fg = colors.key_fg;
            let mut val_fg = colors.key_fg;
            if dy >= 1 && dy <= n {
                let ri = dy - 1;
                key = chars_of(rows[ri].key.as_str());
                val = chars_of(rows[ri].value_text.as_str());
                let lit = is_lit(highlight_rows, ri);
                key_fg = if lit { colors.highlight_fg } else { colors.key_fg };
                val_fg = if lit { colors.highlight_fg } else { rows[ri].value_color };
            }
            let mut dx: usize = 0;
            while dx < width
                invariant
                    self.wf(),
                    self.width == old(self).width,
                    self.height == old(self).height,
                    g0 == old(self).grid(),
                    g0.len() == self.height,
                    forall|yy: int| 0 <= yy < g0.len() ==> (#[trigger] g0[yy]).len() == self.width,
                    width >= 4,
                    left_x + width <= usize::MAX,
                    top_y + n + 1 <= usize::MAX,
                    n == rows@.len(),
                    tv@ == title@,
                    kcw as int == key_column(rows@, width as int),
                    shown_title as int == lesser(title@.len() as int, if width - 2 >= 3 { width - 5 } else { 0 }),
                    dy <= n + 1,
                    !finished,
                    y == top_y + dy,
                    dx <= width,
                    1 <= dy <= n ==> key@ == rows@[dy - 1].key@ && val@ == rows@[dy - 1].value_text@
                        && key_fg == (if highlight_rows@.contains((dy - 1) as usize) { colors.highlight_fg } else { colors.key_fg })
                        && val_fg == (if highlight_rows@.contains((dy - 1) as usize) { colors.highlight_fg } else { rows@[dy - 1].value_color }),
                    forall|yy: int, x: int|
                        0 <= yy < g0.len() && 0 <= x < g0[yy].len() ==> #[trigger] self.grid()[yy][x] == if on_card(
                            x,
                            yy,
                            left_x as int,
                            top_y as int,
                            width as int,
                            n as int,
                        ) && (yy < y || (yy == y && x < left_x + dx)) {
                            card_grid(g0, left_x as int, top_y as int, width as int, title@, rows@, *colors, highlight_rows@)[yy][x]
                        } else {
                            g0[yy][x]
                        },
                decreases width - dx,
            {
                let g: (char, Option<Color>) = if dy == 0 {
                    if dx == width - 1 {
                        ('╮', colors.border_fg)
                    } else if dx == 0 {
                        ('╭', colors.border_fg)
                    } else if dx == 1 {
                        ('─', colors.border_fg)
                    } else if dx == 2 {
                        (' ', colors.title_fg)
                    } else if dx < 3 + shown_title {
                        (tv[dx - 3], colors.title_fg)
                    } else if dx == 3 + shown_title {
                        (' ', colors.border_fg)
                    } else {
                        ('─', colors.border_fg)
                    }
                } else if dy <= n {
                    proof {
                        assert(kcw <= width);
                    }
                    row_glyph_exec(dx, width, kcw, &rows[dy - 1], &key, &val, key_fg, val_fg, colors.border_fg)
                } else if dx == 0 {
                    ('╰', colors.border_fg)
                } else if dx == width - 1 {
                    ('╯', colors.border_fg)
                } else {
                    ('─', colors.border_fg)
                };
                let ghost before = self.grid();
                proof {
                    assert(before.len() == g0.len());
                    assert forall|yy: int| 0 <= yy < g0.len() implies (#[trigger] before[yy]).len() == g0[yy].len() by {
                        assert(before[yy] == self.cells@[yy]@);
                    }
                    assert(g == card_glyph(dx as int, dy as int, width as int, title@, rows@, *colors, highlight_rows@));
                }
                self.set_node_bg(left_x + dx, y, g.0, g.1, colors.card_highlight_bg);
                proof {
                    assert forall|yy: int, x: int|
                        0 <= yy < g0.len() && 0 <= x < g0[yy].len() implies #[trigger] self.grid()[yy][x] == if on_card(
                            x,
                            yy,
                            left_x as int,
                            top_y as int,
                            width as int,
                            n as int,
                        ) && (yy < y || (yy == y && x < left_x + dx + 1)) {
                            card_grid(g0, left_x as int, top_y as int, width as int, title@, rows@, *colors, highlight_rows@)[yy][x]
                        } else {
                            g0[yy][x]
                        } by {
                        let xx = (left_x + dx) as int;
                        let cellv = CanvasCell { ch: g.0, fg: g.1, bg: colors.card_highlight_bg, is_node: true, ..before[y as int][xx] };
                        if 0 <= y < self.height && 0 <= xx < self.width {
                            assert(self.grid() == put(before, xx, y as int, cellv));
                            assert(0 <= y < before.len());
                            assert(before[y as int].len() == g0[y as int].len());
                            lemma_put_at(before, xx, y as int, cellv, yy, x);
                        }
                        if yy == y && x == xx {
                            assert(before[yy][x] == g0[yy][x]);
                            assert(on_card(x, yy, left_x as int, top_y as int, width as int, n as int));
                            assert(self.grid()[yy][x] == cellv);
                            assert(card_glyph(x - left_x, yy - top_y, width as int, title@, rows@, *colors, highlight_rows@) == g);
                            lemma_card_grid_at(g0, left_x as int, top_y as int, width as int, title@, rows@, *colors, highlight_rows@, yy, x);
                        } else {
                            assert(before[yy][x] == self.grid()[yy][x]);
                            lemma_card_grid_at(g0, left_x as int, top_y as int, width as int, title@, rows@, *colors, highlight_rows@, yy, x);
                        }
                    }
                }
                dx = dx + 1;
            }
            if dy == n + 1 {
                finished = true;
            } else {
                dy = dy + 1;
            }
        }
        proof {
            assert(self.grid().len() == g0.len());
            assert forall|yy: int| 0 <= yy < g0.len() implies self.grid()[yy] =~= card_grid(
                g0, left_x as int, top_y as int, width as int, title@, rows@, *colors, highlight_rows@)[yy] by {
                assert(self.grid()[yy] == self.cells@[yy]@);
                assert(self.grid()[yy].len() == g0[yy].len());
                assert forall|x: int| 0 <= x < g0[yy].len() implies self.grid()[yy][x] == card_grid(
                    g0, left_x as int, top_y as int, width as int, title@, rows@, *colors, highlight_rows@)[yy][x] by {
                    lemma_card_grid_at(g0, left_x as int, top_y as int, width as int, title@, rows@, *colors, highlight_rows@, yy, x);
                }
                lemma_card_grid_at(g0, left_x as int, top_y as int, width as int, title@, rows@, *colors, highlight_rows@, yy, 0);
            }
            assert(self.grid() =~= card_grid(g0, left_x as int, top_y as int, width as int, title@, rows@, *colors, highlight_rows@));
        }
        let mut row_ys: Vec<usize> = Vec::new();
        let mut ri: usize = 0;
        while ri < n
            invariant
                ri <= n,
                n == rows@.len(),
                top_y + n + 1 <= usize::MAX,
                row_ys@ == Seq::new(ri as nat, |i: int| (top_y + 1 + i) as usize),
            decreases n - ri,
        {
            row_ys.push(top_y + 1 + ri);
            ri = ri + 1;
            proof {
                assert(row_ys@ =~= Seq::new(ri as nat, |i: int| (top_y + 1 + i) as usize));
            }
        }
        row_ys
    }
}
} // verus!
