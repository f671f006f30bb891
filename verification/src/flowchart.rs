//! Drawing a laid-out flowchart on a canvas, top-down or left-right.
//!
//! Nodes are three-row boxes. Forward edges run between neighbouring layers
//! through the gaps; feedback edges leave the diagram into a gutter (right
//! of a top-down diagram, below a left-right one), one lane each, and come
//! back to their target. Every feedback endpoint gets a row or column of its
//! own in the gap it passes, so routes never merge.
use vstd::prelude::*;
use crate::canvas::{
    blank_grid, cells_styled, edge_lr_drawn, edge_td_drawn, feedback_lr_drawn, feedback_td_drawn, label_view, node_drawn, sat_add,
    sat_sub, spans_render_row, styled_chars, text_at, Canvas, CanvasCell, FeedbackRouteLr, FeedbackRouteTd,
};
use crate::diagram::{edge_view, node_view, Direction, Graph, GraphV, NodeShape};
use crate::layout::{in_some_layer, layers_view, layout, partitions, plan_feedback, FeedbackPlans, Layout};
use crate::style::{Color, StyledSpan};
use crate::text::{chars_of, string_of, push_char};
use crate::theme::Theme;

verus! {

/// `a * b`, or `usize::MAX` when that does not fit.
fn sat_mul(a: usize, b: usize) -> (r: usize)
    ensures
        r == if a * b <= usize::MAX { a * b } else { usize::MAX as int },
{
    if b != 0 && a > usize::MAX / b {
        proof {
            assert(a * b > usize::MAX) by (nonlinear_arith)
                requires b != 0, a > usize::MAX / b;
        }
        usize::MAX
    } else {
        proof {
            assert(a * b <= usize::MAX) by (nonlinear_arith)
                requires b == 0 || a <= usize::MAX / b;
        }
        a * b
    }
}

/// Where a node box was drawn.
#[derive(Clone, Copy)]
pub struct NodeLayout {
    pub center_x: usize,
    pub top_y: usize,
    pub width: usize,
}

impl NodeLayout {
    /// Column of the left border character.
    pub fn left_x(&self) -> (x: usize)
        ensures
            x == self.center_x.saturating_sub(self.width / 2),
    {
        self.center_x.saturating_sub(self.width / 2)
    }

    /// Column of the right border character.
    pub fn right_x(&self) -> (x: usize)
        ensures
            x == self.center_x.saturating_sub(self.width / 2).saturating_add(self.width.saturating_sub(1)),
    {
        self.left_x().saturating_add(self.width.saturating_sub(1))
    }

    /// Row of the bottom border character.
    pub fn bottom_y(&self) -> (y: usize)
        ensures
            y == self.top_y.saturating_add(2),
    {
        self.top_y.saturating_add(2)
    }
}

/// Columns a node box takes: its label plus the border and padding (two
/// more on each side of a diamond), and never fewer than seven.
pub open spec fn box_width(label_len: int, shape: NodeShape) -> int {
    let w = if shape == NodeShape::Diamond { label_len + 6 } else { label_len + 4 };
    if w < 7 { 7 } else { w }
}

pub fn label_box_width(label: &str, shape: NodeShape) -> (w: usize)
    requires
        label@.len() + 6 <= usize::MAX,
    ensures
        w == box_width(label@.len() as int, shape),
{
    let label_width = chars_of(label).len();
    let width = match shape {
        NodeShape::Diamond => label_width + 6,
        _ => label_width + 4,
    };
    if width < 7 {
        7
    } else {
        width
    }
}

/// `label` cut to `width` columns, a cut marked with an ellipsis.
pub open spec fn fitted(label: Seq<char>, width: int) -> Seq<char> {
    if label.len() <= width {
        label
    } else if width == 0 {
        Seq::empty()
    } else if width == 1 {
        seq!['\u{2026}']
    } else {
        label.subrange(0, width - 1).push('\u{2026}')
    }
}

/// Fits `label` into `width` columns, marking a cut with an ellipsis.
pub fn fit_label(label: &str, width: usize) -> (r: String)
    ensures
        r@ == fitted(label@, width as int),
{
    let chars = chars_of(label);
    if chars.len() <= width {
        return string_of(&chars);
    }
    let mut out = String::new();
    if width == 0 {
        return out;
    }
    let mut i: usize = 0;
    while i + 1 < width
        invariant
            0 < width < chars@.len(),
            i <= width - 1,
            out@ == chars@.subrange(0, i as int),
        decreases width - i,
    {
        push_char(&mut out, chars[i]);
        i = i + 1;
        proof {
            assert(out@ =~= chars@.subrange(0, i as int));
        }
    }
    push_char(&mut out, '\u{2026}');
    proof {
        if width == 1 {
            assert(out@ =~= seq!['\u{2026}']);
        }
    }
    out
}

/// Total characters of the spans of a row.
pub open spec fn row_width(spans: Seq<StyledSpan>) -> int {
    styled_chars(spans).len() as int
}

/// What drawing a graph gives: rows of styled spans, each as wide as the
/// reported width.
pub open spec fn well_drawn(r: (Vec<Vec<StyledSpan>>, usize)) -> bool {
    forall|y: int| 0 <= y < r.0@.len() ==> row_width(#[trigger] r.0@[y]@) == r.1
}

/// Columns of the box of node `v`; a label too long to measure gets the
/// whole width of `usize`.
pub open spec fn node_w(g: GraphV, v: int) -> int {
    if g.nodes[v].label.len() <= usize::MAX - 6 {
        box_width(g.nodes[v].label.len() as int, g.nodes[v].shape)
    } else {
        usize::MAX as int
    }
}

/// Width of a row of node boxes with `gap` columns between neighbours
/// (saturating).
pub open spec fn span_of(g: GraphV, layer: Seq<usize>, gap: int) -> int
    decreases layer.len(),
{
    if layer.len() == 0 {
        0
    } else {
        let t = sat_add(span_of(g, layer.drop_last(), gap), node_w(g, layer.last() as int));
        if layer.len() > 1 {
            sat_add(t, gap)
        } else {
            t
        }
    }
}

/// The widest of the first `k` layers' rows.
pub open spec fn widest_span(g: GraphV, layers: Seq<Seq<usize>>, k: int) -> int
    decreases k,
{
    if k <= 0 {
        0
    } else {
        let a = widest_span(g, layers, k - 1);
        let b = span_of(g, layers[k - 1], 4);
        if b > a {
            b
        } else {
            a
        }
    }
}

/// Columns of the top-down diagram left of the gutter.
pub open spec fn td_core(g: GraphV, lo: Layout) -> int {
    let lv = layers_view(lo.layers@);
    sat_add(widest_span(g, lv, lv.len() as int), 6)
}

/// Rows of the gap under layer `k`: a label row, the exit rows of layer
/// `k`, a bus and its label, the entry rows of layer `k + 1`, the arrowhead.
pub open spec fn td_gap(fp: FeedbackPlans, k: int) -> int {
    sat_add(sat_add(4, fp.exits@[k] as int), fp.entries@[k + 1] as int)
}

/// Row of the top border of layer `k`.
pub open spec fn td_top(fp: FeedbackPlans, k: int) -> int
    decreases k,
{
    if k <= 0 {
        if fp.entries@[0] == 0 {
            0
        } else {
            sat_add(fp.entries@[0] as int, 1)
        }
    } else {
        sat_add(sat_add(td_top(fp, k - 1), 3), td_gap(fp, k - 1))
    }
}

/// Rows of the top-down diagram with `count` layers.
pub open spec fn td_height(fp: FeedbackPlans, count: int) -> int {
    let last = count - 1;
    let bottom = if fp.exits@[last] == 0 {
        0
    } else {
        sat_add(fp.exits@[last] as int, 1)
    };
    sat_add(sat_add(td_top(fp, last), 3), bottom)
}

/// Characters of the label of edge `e`.
pub open spec fn edge_label_len(g: GraphV, e: int) -> int {
    match g.edges[e].label {
        Some(t) => t.len() as int,
        None => 0,
    }
}

/// Column of gutter lane `k`: lanes four columns apart, each labelled one
/// also reserving its label's columns.
pub open spec fn td_lane(g: GraphV, fp: FeedbackPlans, core: int, k: int) -> int
    decreases k,
{
    if k <= 0 {
        sat_add(core, 1)
    } else {
        sat_add(sat_add(td_lane(g, fp, core, k - 1), 4), edge_label_len(g, fp.plans@[k - 1].edge as int))
    }
}

/// Columns of the top-down diagram, the gutter included.
pub open spec fn td_width(g: GraphV, lo: Layout, fp: FeedbackPlans) -> int {
    if fp.plans@.len() == 0 {
        td_core(g, lo)
    } else {
        td_lane(g, fp, td_core(g, lo), fp.plans@.len() as int)
    }
}

/// Columns before box `i` of a layer: the boxes before it and a gap of four
/// after each.
pub open spec fn td_cum(g: GraphV, layer: Seq<usize>, i: int) -> int
    decreases i,
{
    if i <= 0 {
        0
    } else {
        sat_add(sat_add(td_cum(g, layer, i - 1), node_w(g, layer[i - 1] as int)), 4)
    }
}

/// Centre column of box `i` of layer `l`: the layer's row centred on the
/// diagram's core, kept clear of the left edge.
pub open spec fn td_cx(g: GraphV, lo: Layout, l: int, i: int) -> int {
    let layer = layers_view(lo.layers@)[l];
    let w = node_w(g, layer[i] as int);
    let shifted = sat_add(td_core(g, lo) / 2, sat_add(td_cum(g, layer, i), w / 2));
    let lc = span_of(g, layer, 4) / 2;
    if shifted >= lc && shifted - lc >= w / 2 {
        shifted - lc
    } else {
        w / 2
    }
}

/// Where node `v` is drawn: centre column, top row, width.
pub open spec fn td_place(g: GraphV, lo: Layout, fp: FeedbackPlans, v: int) -> (int, int, int) {
    let lp = lo.node_pos@[v];
    (td_cx(g, lo, lp.0 as int, lp.1 as int), td_top(fp, lp.0 as int), node_w(g, v))
}

/// Left border column of a box placed at `p`.
pub open spec fn place_left(p: (int, int, int)) -> int {
    sat_sub(p.0, p.2 / 2)
}

/// Right border column of a box placed at `p`.
pub open spec fn place_right(p: (int, int, int)) -> int {
    sat_add(place_left(p), sat_sub(p.2, 1))
}

/// The boxes of the layers before `l` and of the first `i` nodes of layer
/// `l`, drawn on `g0`.
pub open spec fn td_nodes(g: GraphV, lo: Layout, fp: FeedbackPlans, th: Theme, g0: Seq<Seq<CanvasCell>>, l: int, i: int) -> Seq<Seq<CanvasCell>>
    decreases l, i,
{
    let lv = layers_view(lo.layers@);
    if i <= 0 {
        if l <= 0 {
            g0
        } else {
            td_nodes(g, lo, fp, th, g0, l - 1, lv[l - 1].len() as int)
        }
    } else {
        let v = lv[l][i - 1] as int;
        node_drawn(
            td_nodes(g, lo, fp, th, g0, l, i - 1),
            td_cx(g, lo, l, i - 1),
            td_top(fp, l),
            node_w(g, v),
            g.nodes[v].label,
            g.nodes[v].shape,
            Some(th.code_border),
            Some(th.fg),
        )
    }
}

/// The route of feedback edge `k` of a top-down diagram.
pub open spec fn td_route(g: GraphV, lo: Layout, fp: FeedbackPlans, k: int) -> FeedbackRouteTd {
    let plan = fp.plans@[k];
    let e = g.edges[plan.edge as int];
    let src = td_place(g, lo, fp, e.from);
    let dst = td_place(g, lo, fp, e.to);
    FeedbackRouteTd {
        exit_x: sat_add(place_left(src), 1) as usize,
        src_bottom_y: sat_add(src.1, 2) as usize,
        exit_y: sat_add(sat_add(sat_add(src.1, 2), 2), plan.src_rank as int) as usize,
        entry_x: sat_sub(place_right(dst), 1) as usize,
        dst_top_y: dst.1 as usize,
        entry_y: sat_sub(dst.1, sat_add(plan.dst_rank as int, 2)) as usize,
        lane_x: td_lane(g, fp, td_core(g, lo), k) as usize,
    }
}

/// The first `k` feedback routes drawn on `g0`.
pub open spec fn td_feedback(g: GraphV, lo: Layout, fp: FeedbackPlans, th: Theme, g0: Seq<Seq<CanvasCell>>, k: int) -> Seq<Seq<CanvasCell>>
    decreases k,
{
    if k <= 0 {
        g0
    } else {
        feedback_td_drawn(td_feedback(g, lo, fp, th, g0, k - 1), td_route(g, lo, fp, k - 1), Some(th.code_border))
    }
}

/// The labels of the first `k` feedback edges: beside the lane, halfway
/// between the route's two gap rows.
pub open spec fn td_labels(g: GraphV, lo: Layout, fp: FeedbackPlans, k: int) -> Seq<(usize, usize, Seq<char>)>
    decreases k,
{
    if k <= 0 {
        Seq::empty()
    } else {
        let r = td_route(g, lo, fp, k - 1);
        let y = r.entry_y / 2 + r.exit_y / 2 + (r.entry_y % 2 + r.exit_y % 2) / 2;
        td_labels(g, lo, fp, k - 1) + match g.edges[fp.plans@[k - 1].edge as int].label {
            Some(t) => seq![(sat_add(r.lane_x as int, 2) as usize, y as usize, t)],
            None => Seq::empty(),
        }
    }
}

/// Labels `(column, row, text)` from index `k` on, written on `g0`.
pub open spec fn labels_written(g0: Seq<Seq<CanvasCell>>, ls: Seq<(usize, usize, Seq<char>)>, k: int, fg: Option<Color>) -> Seq<Seq<CanvasCell>>
    decreases ls.len() - k,
{
    if 0 <= k < ls.len() {
        labels_written(text_at(g0, ls[k].0 as int, ls[k].1 as int, ls[k].2, 0, fg), ls, k + 1, fg)
    } else {
        g0
    }
}

/// The forward edges among the first `e` edges drawn on `g0`; between
/// neighbouring layers the bus sits below the gap's exit rows.
pub open spec fn td_forward(g: GraphV, lo: Layout, fp: FeedbackPlans, th: Theme, g0: Seq<Seq<CanvasCell>>, e: int) -> Seq<Seq<CanvasCell>>
    decreases e,
{
    if e <= 0 {
        g0
    } else {
        let prev = td_forward(g, lo, fp, th, g0, e - 1);
        if lo.feedback_set@[e - 1] {
            prev
        } else {
            td_edge_drawn(g, lo, fp, th, prev, e - 1)
        }
    }
}

/// `g0` with forward edge `e` of a top-down diagram drawn.
pub open spec fn td_edge_drawn(g: GraphV, lo: Layout, fp: FeedbackPlans, th: Theme, g0: Seq<Seq<CanvasCell>>, e: int) -> Seq<Seq<CanvasCell>> {
    let ed = g.edges[e];
    let src = td_place(g, lo, fp, ed.from);
    let dst = td_place(g, lo, fp, ed.to);
    let fl = lo.node_pos@[ed.from].0 as int;
    let tl = lo.node_pos@[ed.to].0 as int;
    let bus = if fl < tl && tl - fl == 1 {
        Some(sat_add(sat_add(sat_add(src.1, 2), 3), fp.exits@[fl] as int) as usize)
    } else {
        None
    };
    edge_td_drawn(g0, src.0, sat_add(src.1, 2), dst.0, dst.1, ed.label, Some(th.code_border), Some(th.h3), bus)
}

/// The picture of a top-down diagram: boxes, feedback routes, their labels,
/// then the forward edges, on a blank canvas.
pub open spec fn td_grid(g: GraphV, lo: Layout, fp: FeedbackPlans, th: Theme) -> Seq<Seq<CanvasCell>> {
    let count = lo.layers@.len() as int;
    let g0 = blank_grid(td_width(g, lo, fp), td_height(fp, count));
    let g1 = td_nodes(g, lo, fp, th, g0, count, 0);
    let g2 = td_feedback(g, lo, fp, th, g1, fp.plans@.len() as int);
    let g3 = labels_written(g2, td_labels(g, lo, fp, fp.plans@.len() as int), 0, Some(th.h3));
    td_forward(g, lo, fp, th, g3, g.edges.len() as int)
}

/// `rows` show `grid`, row for row, in `th`'s colours.
pub open spec fn shows_grid(rows: Seq<Vec<StyledSpan>>, grid: Seq<Seq<CanvasCell>>, th: Theme) -> bool {
    &&& rows.len() == grid.len()
    &&& forall|y: int| 0 <= y < rows.len() ==> spans_render_row(#[trigger] rows[y]@, grid[y], th)
}

/// `d` is the top-down drawing of `g` for a layout of it settled as
/// [`layout`](crate::layout::layout) settles one.
pub open spec fn td_drawn(g: GraphV, th: Theme, d: (Vec<Vec<StyledSpan>>, usize)) -> bool {
    exists|lo: Layout, fp: FeedbackPlans| lo.settled_for(g) && #[trigger] td_drawing(g, lo, fp, th, d)
}

/// `d` is the top-down drawing of `g` for the layout `lo`.
#[verifier::opaque]
pub open spec fn td_drawing(g: GraphV, lo: Layout, fp: FeedbackPlans, th: Theme, d: (Vec<Vec<StyledSpan>>, usize)) -> bool {
    &&& lo.wf_for(g)
    &&& fp.plans_for(g, lo)
    &&& d.1 == td_width(g, lo, fp)
    &&& shows_grid(d.0@, td_grid(g, lo, fp, th), th)
}

/// `a * b`, or `usize::MAX` where the product is larger.
pub open spec fn sat_times(a: int, b: int) -> int {
    if a * b <= usize::MAX {
        a * b
    } else {
        usize::MAX as int
    }
}

/// The widest of the first `k` boxes of a layer.
pub open spec fn widest_box(g: GraphV, layer: Seq<usize>, k: int) -> int
    decreases k,
{
    if k <= 0 {
        0
    } else {
        let a = widest_box(g, layer, k - 1);
        let b = node_w(g, layer[k - 1] as int);
        if b > a {
            b
        } else {
            a
        }
    }
}

/// Columns of layer `l`'s column in a left-right diagram: its widest box.
pub open spec fn lr_col(g: GraphV, lo: Layout, l: int) -> int {
    let layer = layers_view(lo.layers@)[l];
    if layer.len() == 0 {
        7
    } else {
        widest_box(g, layer, layer.len() as int)
    }
}

/// The most boxes in any of the first `k` layers.
pub open spec fn most_boxes(lv: Seq<Seq<usize>>, k: int) -> int
    decreases k,
{
    if k <= 0 {
        0
    } else {
        let a = most_boxes(lv, k - 1);
        if lv[k - 1].len() > a {
            lv[k - 1].len() as int
        } else {
            a
        }
    }
}

/// Columns of the gap right of column `k`: room for the drop columns of
/// its feedback sources, the rise columns of the next column's feedback
/// targets and a bend column, and never fewer than six.
pub open spec fn lr_gap(fp: FeedbackPlans, k: int) -> int {
    let ex = fp.exits@[k] as int;
    let en = fp.entries@[k + 1] as int;
    let a = sat_add(sat_add(ex, en), 4);
    let b = sat_times(ex, 2);
    let c = sat_add(sat_times(en, 2), 2);
    let w1 = if a > 6 { a } else { 6 };
    let w2 = if b > w1 { b } else { w1 };
    if c > w2 {
        c
    } else {
        w2
    }
}

pub open spec fn lr_left_margin(fp: FeedbackPlans) -> int {
    if fp.entries@[0] > 2 {
        fp.entries@[0] as int
    } else {
        2
    }
}

/// Left border column of layer `l`'s column.
pub open spec fn lr_col_x(g: GraphV, lo: Layout, fp: FeedbackPlans, l: int) -> int
    decreases l,
{
    if l <= 0 {
        lr_left_margin(fp)
    } else {
        let gap = if l - 1 < lo.layers@.len() - 1 {
            lr_gap(fp, l - 1)
        } else {
            0
        };
        sat_add(sat_add(lr_col_x(g, lo, fp, l - 1), lr_col(g, lo, l - 1)), gap)
    }
}

/// The left margin and the first `k` columns.
pub open spec fn lr_cols_total(g: GraphV, lo: Layout, fp: FeedbackPlans, k: int) -> int
    decreases k,
{
    if k <= 0 {
        lr_left_margin(fp)
    } else {
        sat_add(lr_cols_total(g, lo, fp, k - 1), lr_col(g, lo, k - 1))
    }
}

/// All columns, then the first `k` gaps.
pub open spec fn lr_gaps_total(g: GraphV, lo: Layout, fp: FeedbackPlans, k: int) -> int
    decreases k,
{
    if k <= 0 {
        lr_cols_total(g, lo, fp, lo.layers@.len() as int)
    } else {
        sat_add(lr_gaps_total(g, lo, fp, k - 1), lr_gap(fp, k - 1))
    }
}

/// Columns of the left-right diagram.
pub open spec fn lr_width(g: GraphV, lo: Layout, fp: FeedbackPlans) -> int {
    let last = lo.layers@.len() - 1;
    let right = if fp.exits@[last] > 2 {
        fp.exits@[last] as int
    } else {
        2
    };
    sat_add(lr_gaps_total(g, lo, fp, last), right)
}

/// Rows of the diagram above the gutter: the tallest column.
pub open spec fn lr_core(lo: Layout) -> int {
    let lv = layers_view(lo.layers@);
    sat_add(sat_sub(sat_times(most_boxes(lv, lv.len() as int), 5), 2), 2)
}

/// Rows of the left-right diagram, the gutter included.
pub open spec fn lr_height(lo: Layout, fp: FeedbackPlans) -> int {
    let gutter = if fp.plans@.len() == 0 {
        0
    } else {
        sat_add(sat_times(2, fp.plans@.len() as int), 1)
    };
    sat_add(lr_core(lo), gutter)
}

/// Top row of box `i` of layer `l`: the layer's boxes five rows apart,
/// centred in the core.
pub open spec fn lr_top(lo: Layout, l: int, i: int) -> int {
    let n = layers_view(lo.layers@)[l].len() as int;
    let total = sat_add(sat_times(n, 3), if n > 0 { sat_times(n - 1, 2) } else { 0 });
    sat_add(sat_sub(lr_core(lo), total) / 2, sat_times(i, 5))
}

/// Where node `v` is drawn: centre column, top row, width.
pub open spec fn lr_place(g: GraphV, lo: Layout, fp: FeedbackPlans, v: int) -> (int, int, int) {
    let lp = lo.node_pos@[v];
    let l = lp.0 as int;
    (sat_add(lr_col_x(g, lo, fp, l), lr_col(g, lo, l) / 2), lr_top(lo, l, lp.1 as int), node_w(g, v))
}

/// Right border column of layer `l`'s column.
pub open spec fn lr_col_right(g: GraphV, lo: Layout, fp: FeedbackPlans, l: int) -> int {
    sat_add(lr_col_x(g, lo, fp, l), lr_col(g, lo, l) - 1)
}

/// The boxes of the layers before `l` and of the first `i` nodes of layer
/// `l`, drawn on `g0`.
pub open spec fn lr_nodes(g: GraphV, lo: Layout, fp: FeedbackPlans, th: Theme, g0: Seq<Seq<CanvasCell>>, l: int, i: int) -> Seq<Seq<CanvasCell>>
    decreases l, i,
{
    let lv = layers_view(lo.layers@);
    if i <= 0 {
        if l <= 0 {
            g0
        } else {
            lr_nodes(g, lo, fp, th, g0, l - 1, lv[l - 1].len() as int)
        }
    } else {
        let v = lv[l][i - 1] as int;
        node_drawn(
            lr_nodes(g, lo, fp, th, g0, l, i - 1),
            sat_add(lr_col_x(g, lo, fp, l), lr_col(g, lo, l) / 2),
            lr_top(lo, l, i - 1),
            node_w(g, v),
            g.nodes[v].label,
            g.nodes[v].shape,
            Some(th.code_border),
            Some(th.fg),
        )
    }
}

/// The route of feedback edge `k` of a left-right diagram.
pub open spec fn lr_route(g: GraphV, lo: Layout, fp: FeedbackPlans, k: int) -> FeedbackRouteLr {
    let plan = fp.plans@[k];
    let e = g.edges[plan.edge as int];
    let src = lr_place(g, lo, fp, e.from);
    let dst = lr_place(g, lo, fp, e.to);
    let sl = lo.node_pos@[e.from].0 as int;
    let dl = lo.node_pos@[e.to].0 as int;
    FeedbackRouteLr {
        exit_x: sat_sub(place_right(src), 1) as usize,
        src_bottom_y: sat_add(src.1, 2) as usize,
        exit_lane_x: sat_add(sat_add(lr_col_right(g, lo, fp, sl), 1), plan.src_rank as int) as usize,
        entry_x: sat_add(place_left(dst), 1) as usize,
        dst_bottom_y: sat_add(dst.1, 2) as usize,
        entry_lane_x: sat_sub(lr_col_x(g, lo, fp, dl), sat_add(plan.dst_rank as int, 1)) as usize,
        lane_y: sat_add(sat_add(lr_core(lo), 1), sat_times(plan.lane as int, 2)) as usize,
    }
}

/// The first `k` feedback routes drawn on `g0`.
pub open spec fn lr_feedback(g: GraphV, lo: Layout, fp: FeedbackPlans, th: Theme, g0: Seq<Seq<CanvasCell>>, k: int) -> Seq<Seq<CanvasCell>>
    decreases k,
{
    if k <= 0 {
        g0
    } else {
        feedback_lr_drawn(lr_feedback(g, lo, fp, th, g0, k - 1), lr_route(g, lo, fp, k - 1), Some(th.code_border))
    }
}

/// The labels of the first `k` feedback edges: on the lane, centred on its
/// run and cut to fit it.
pub open spec fn lr_labels(g: GraphV, lo: Layout, fp: FeedbackPlans, k: int) -> Seq<(usize, usize, Seq<char>)>
    decreases k,
{
    if k <= 0 {
        Seq::empty()
    } else {
        lr_labels(g, lo, fp, k - 1) + lr_label(lr_route(g, lo, fp, k - 1), g.edges[fp.plans@[k - 1].edge as int].label)
    }
}

/// The label of a feedback route of a left-right diagram, if the edge has
/// one: on the lane, centred on its run, cut to fit it.
pub open spec fn lr_label(r: FeedbackRouteLr, label: Option<Seq<char>>) -> Seq<(usize, usize, Seq<char>)> {
    let inner = sat_sub(r.exit_lane_x as int, sat_add(r.entry_lane_x as int, 1));
    match label {
        Some(t) => {
            let f = fitted(t, inner);
            seq![(sat_add(sat_add(r.entry_lane_x as int, 1), sat_sub(inner, f.len() as int) / 2) as usize, r.lane_y, f)]
        },
        None => Seq::empty(),
    }
}

/// The forward edges among the first `e` edges drawn on `g0`, bending in the
/// middle of the gap between the two columns.
pub open spec fn lr_forward(g: GraphV, lo: Layout, fp: FeedbackPlans, th: Theme, g0: Seq<Seq<CanvasCell>>, e: int) -> Seq<Seq<CanvasCell>>
    decreases e,
{
    if e <= 0 {
        g0
    } else {
        let prev = lr_forward(g, lo, fp, th, g0, e - 1);
        if lo.feedback_set@[e - 1] {
            prev
        } else {
            lr_edge_drawn(g, lo, fp, th, prev, e - 1)
        }
    }
}

/// `g0` with forward edge `e` of a left-right diagram drawn.
pub open spec fn lr_edge_drawn(g: GraphV, lo: Layout, fp: FeedbackPlans, th: Theme, g0: Seq<Seq<CanvasCell>>, e: int) -> Seq<Seq<CanvasCell>> {
    let ed = g.edges[e];
    let src = lr_place(g, lo, fp, ed.from);
    let dst = lr_place(g, lo, fp, ed.to);
    let sr = lr_col_right(g, lo, fp, lo.node_pos@[ed.from].0 as int);
    let dl = lr_col_x(g, lo, fp, lo.node_pos@[ed.to].0 as int);
    let bend = if sr < dl && dl - sr > 1 {
        Some((sr + 1 + (dl - sr - 1) / 2) as usize)
    } else {
        None
    };
    edge_lr_drawn(g0, place_right(src), sat_add(src.1, 1), place_left(dst), sat_add(dst.1, 1), ed.label, Some(th.code_border), Some(th.h3), bend)
}

/// The picture of a left-right diagram: boxes, feedback routes, their
/// labels, then the forward edges, on a blank canvas.
pub open spec fn lr_grid(g: GraphV, lo: Layout, fp: FeedbackPlans, th: Theme) -> Seq<Seq<CanvasCell>> {
    let count = lo.layers@.len() as int;
    let g0 = blank_grid(lr_width(g, lo, fp), lr_height(lo, fp));
    let g1 = lr_nodes(g, lo, fp, th, g0, count, 0);
    let g2 = lr_feedback(g, lo, fp, th, g1, fp.plans@.len() as int);
    let g3 = labels_written(g2, lr_labels(g, lo, fp, fp.plans@.len() as int), 0, Some(th.h3));
    lr_forward(g, lo, fp, th, g3, g.edges.len() as int)
}

/// `d` is the left-right drawing of `g` for the layout `lo`.
#[verifier::opaque]
pub open spec fn lr_drawing(g: GraphV, lo: Layout, fp: FeedbackPlans, th: Theme, d: (Vec<Vec<StyledSpan>>, usize)) -> bool {
    &&& lo.wf_for(g)
    &&& fp.plans_for(g, lo)
    &&& d.1 == lr_width(g, lo, fp)
    &&& shows_grid(d.0@, lr_grid(g, lo, fp, th), th)
}

/// `d` is the drawing of `g` in its direction, for some layout of it.
pub open spec fn drawn_as(g: GraphV, th: Theme, d: (Vec<Vec<StyledSpan>>, usize)) -> bool {
    match g.direction {
        Direction::TopDown => td_drawn(g, th, d),
        Direction::LeftRight => lr_drawn(g, th, d),
    }
}

/// `d` is the left-right drawing of `g` for a layout of it settled as
/// [`layout`](crate::layout::layout) settles one.
pub open spec fn lr_drawn(g: GraphV, th: Theme, d: (Vec<Vec<StyledSpan>>, usize)) -> bool {
    exists|lo: Layout, fp: FeedbackPlans| lo.settled_for(g) && #[trigger] lr_drawing(g, lo, fp, th, d)
}

proof fn lemma_rows_width(c: Canvas, rows: Seq<Vec<StyledSpan>>, theme: Theme)
    requires
        c.wf(),
        rows.len() == c.height,
        forall|y: int| 0 <= y < c.height ==> spans_render_row(#[trigger] rows[y]@, c.grid()[y], theme),
    ensures
        forall|y: int| 0 <= y < rows.len() ==> row_width(#[trigger] rows[y]@) == c.width,
{
    assert forall|y: int| 0 <= y < rows.len() implies row_width(#[trigger] rows[y]@) == c.width by {
        assert(spans_render_row(rows[y]@, c.grid()[y], theme));
        assert(c.grid()[y] == c.cells@[y]@);
        assert(cells_styled(c.grid()[y], theme).len() == c.grid()[y].len());
    }
}

fn edge_label(graph: &Graph, e: usize) -> (l: Option<&str>)
    requires
        e < graph.edges@.len(),
    ensures
        label_view(l) == graph.view().edges[e as int].label,
{
    proof {
        assert(graph.view().edges[e as int] == edge_view(graph.edges@[e as int]));
    }
    match &graph.edges[e].label {
        Some(s) => Some(s.as_str()),
        None => None,
    }
}

fn node_widths(graph: &Graph) -> (widths: Vec<usize>)
    ensures
        widths@.len() == graph.nodes@.len(),
        forall|v: int| 0 <= v < widths@.len() ==> #[trigger] widths@[v] >= 7,
        forall|v: int| 0 <= v < widths@.len() ==> #[trigger] widths@[v] == node_w(graph.view(), v),
{
    let ghost gv = graph.view();
    let mut widths: Vec<usize> = Vec::new();
    let mut v: usize = 0;
    while v < graph.nodes.len()
        invariant
            gv == graph.view(),
            v <= graph.nodes@.len(),
            widths@.len() == v,
            forall|x: int| 0 <= x < widths@.len() ==> #[trigger] widths@[x] >= 7,
            forall|x: int| 0 <= x < widths@.len() ==> #[trigger] widths@[x] == node_w(gv, x),
        decreases graph.nodes@.len() - v,
    {
        proof {
            assert(gv.nodes[v as int] == node_view(graph.nodes@[v as int]));
        }
        let label = graph.nodes[v].label.as_str();
        let cl = chars_of(label).len();
        let w = if cl <= usize::MAX - 6 {
            label_box_width(label, graph.nodes[v].shape)
        } else {
            usize::MAX
        };
        widths.push(w);
        v = v + 1;
    }
    widths
}

fn blank_layouts(n: usize) -> (p: Vec<NodeLayout>)
    ensures
        p@.len() == n,
{
    let mut p: Vec<NodeLayout> = Vec::new();
    while p.len() < n
        invariant
            p.len() <= n,
        decreases n - p.len(),
    {
        p.push(NodeLayout { center_x: 0, top_y: 0, width: 7 });
    }
    p
}

pub open spec fn label_list_view(ls: Seq<(usize, usize, String)>) -> Seq<(usize, usize, Seq<char>)> {
    ls.map_values(|t: (usize, usize, String)| (t.0, t.1, t.2@))
}

/// Writes queued labels: `(column, row, text)` each.
fn write_labels(canvas: &mut Canvas, labels: &Vec<(usize, usize, String)>, fg: Option<Color>)
    requires
        old(canvas).wf(),
    ensures
        final(canvas).wf(),
        final(canvas).width == old(canvas).width,
        final(canvas).height == old(canvas).height,
        final(canvas).grid() == labels_written(old(canvas).grid(), label_list_view(labels@), 0, fg),
{
    let ghost ls = label_list_view(labels@);
    let mut k: usize = 0;
    while k < labels.len()
        invariant
            canvas.wf(),
            canvas.width == old(canvas).width,
            canvas.height == old(canvas).height,
            k <= labels@.len(),
            ls == label_list_view(labels@),
            labels_written(canvas.grid(), ls, k as int, fg) == labels_written(old(canvas).grid(), ls, 0, fg),
        decreases labels.len() - k,
    {
        let (x, y, text) = &labels[k];
        proof {
            assert(ls[k as int] == (*x, *y, text@));
        }
        canvas.write_text(*x, *y, text.as_str(), fg);
        k = k + 1;
    }
}

/// Whether `positions` holds, for every node, where the top-down drawing
/// places it.
pub open spec fn td_placed(g: GraphV, lo: Layout, fp: FeedbackPlans, positions: Seq<NodeLayout>) -> bool {
    &&& positions.len() == g.nodes.len()
    &&& forall|v: int| 0 <= v < g.nodes.len() ==> {
        let p = td_place(g, lo, fp, v);
        &&& (#[trigger] positions[v]).center_x == p.0
        &&& positions[v].top_y == p.1
        &&& positions[v].width == p.2
    }
}

/// Two positions of the layers that name the same node are one.
proof fn lemma_same_node(lv: Seq<Seq<usize>>, n: int, l1: int, p1: int, l2: int, p2: int)
    requires
        partitions(lv, n),
        0 <= l1 < lv.len(),
        0 <= l2 < lv.len(),
        0 <= p1 < lv[l1].len(),
        0 <= p2 < lv[l2].len(),
        lv[l1][p1] == lv[l2][p2],
    ensures
        l1 == l2 && p1 == p2,
{
    let v = lv[l1][p1];
    assert(lv[l1].contains(v));
    assert(lv[l2].contains(v));
    assert(l1 == l2);
    assert(lv[l1].no_duplicates());
}

/// Draws the boxes of a top-down diagram, layer by layer, and gives where
/// each node went.
fn place_nodes_td(
    graph: &Graph,
    lo: &Layout,
    fp: &FeedbackPlans,
    theme: &Theme,
    widths: &Vec<usize>,
    layer_top: &Vec<usize>,
    core_width: usize,
    canvas: &mut Canvas,
) -> (positions: Vec<NodeLayout>)
    requires
        graph.wf(),
        lo.wf_for(graph.view()),
        lo.layers@.len() > 0,
        fp.plans_for(graph.view(), *lo),
        old(canvas).wf(),
        widths@.len() == graph.nodes@.len(),
        forall|v: int| 0 <= v < widths@.len() ==> #[trigger] widths@[v] >= 7,
        forall|v: int| 0 <= v < widths@.len() ==> #[trigger] widths@[v] == node_w(graph.view(), v),
        layer_top@.len() == lo.layers@.len(),
        forall|l: int| 0 <= l < layer_top@.len() ==> #[trigger] layer_top@[l] == td_top(*fp, l),
        core_width == td_core(graph.view(), *lo),
    ensures
        final(canvas).wf(),
        final(canvas).width == old(canvas).width,
        final(canvas).height == old(canvas).height,
        final(canvas).grid() == td_nodes(graph.view(), *lo, *fp, *theme, old(canvas).grid(), lo.layers@.len() as int, 0),
        td_placed(graph.view(), *lo, *fp, positions@),
{
    let ghost gv = graph.view();
    let ghost lv = layers_view(lo.layers@);
    let ghost g0 = canvas.grid();
    let count = lo.layers.len();
    let h_gap: usize = 4;
    let canvas_center = core_width / 2;
    let border_fg = Some(theme.code_border);
    let text_fg = Some(theme.fg);
    let mut positions = blank_layouts(graph.nodes.len());

    let mut l: usize = 0;
    while l < count
        invariant
            graph.wf(),
            gv == graph.view(),
            lv == layers_view(lo.layers@),
            lo.wf_for(gv),
            count == lo.layers@.len(),
            layer_top@.len() == count,
            forall|k: int| 0 <= k < layer_top@.len() ==> #[trigger] layer_top@[k] == td_top(*fp, k),
            widths@.len() == graph.nodes@.len(),
            forall|v: int| 0 <= v < widths@.len() ==> #[trigger] widths@[v] >= 7,
            forall|v: int| 0 <= v < widths@.len() ==> #[trigger] widths@[v] == node_w(gv, v),
            positions@.len() == graph.nodes@.len(),
            canvas_center == td_core(gv, *lo) / 2,
            h_gap == 4,
            border_fg == Some(theme.code_border),
            text_fg == Some(theme.fg),
            canvas.wf(),
            canvas.width == old(canvas).width,
            canvas.height == old(canvas).height,
            l <= count,
            canvas.grid() == td_nodes(gv, *lo, *fp, *theme, g0, l as int, 0),
            forall|l2: int, p2: int| 0 <= l2 < l && 0 <= p2 < lv[l2].len() ==> {
                let v = #[trigger] lv[l2][p2] as int;
                &&& positions@[v].center_x == td_cx(gv, *lo, l2, p2)
                &&& positions@[v].top_y == td_top(*fp, l2)
                &&& positions@[v].width == node_w(gv, v)
            },
        decreases count - l,
    {
        let y = layer_top[l];
        let layer = &lo.layers[l];
        proof {
            assert(lv[l as int] == layer@);
            assert forall|p: int| 0 <= p < layer@.len() implies #[trigger] layer@[p] < graph.nodes@.len() by {
                assert(lv[l as int][p] == layer@[p]);
            }
        }
        let layer_width = layer_span(layer, widths, h_gap, graph.nodes.len(), Ghost(gv));
        let layer_center = layer_width / 2;
        let mut cumulative: usize = 0;
        let mut i: usize = 0;
        while i < layer.len()
            invariant
                graph.wf(),
                gv == graph.view(),
                lv == layers_view(lo.layers@),
                lo.wf_for(gv),
                l < count,
                count == lo.layers@.len(),
                layer@ == lv[l as int],
                y == td_top(*fp, l as int),
                widths@.len() == graph.nodes@.len(),
                forall|v: int| 0 <= v < widths@.len() ==> #[trigger] widths@[v] >= 7,
                forall|v: int| 0 <= v < widths@.len() ==> #[trigger] widths@[v] == node_w(gv, v),
                positions@.len() == graph.nodes@.len(),
                canvas_center == td_core(gv, *lo) / 2,
                h_gap == 4,
                layer_center == span_of(gv, lv[l as int], 4) / 2,
                cumulative == td_cum(gv, lv[l as int], i as int),
                border_fg == Some(theme.code_border),
                text_fg == Some(theme.fg),
                canvas.wf(),
                canvas.width == old(canvas).width,
                canvas.height == old(canvas).height,
                i <= layer@.len(),
                canvas.grid() == td_nodes(gv, *lo, *fp, *theme, g0, l as int, i as int),
                forall|l2: int, p2: int| (0 <= l2 < l && 0 <= p2 < lv[l2].len()) || (l2 == l && 0 <= p2 < i) ==> {
                    let v = #[trigger] lv[l2][p2] as int;
                    &&& positions@[v].center_x == td_cx(gv, *lo, l2, p2)
                    &&& positions@[v].top_y == td_top(*fp, l2)
                    &&& positions@[v].width == node_w(gv, v)
                },
            decreases layer@.len() - i,
        {
            let id = layer[i];
            let ghost before = positions@;
            proof {
                assert(lv[l as int][i as int] == id);
                assert(gv.nodes[id as int] == node_view(graph.nodes@[id as int]));
                assert(td_cum(gv, lv[l as int], i + 1) == sat_add(sat_add(td_cum(gv, lv[l as int], i as int), node_w(gv, id as int)), 4));
            }
            let w = widths[id];
            let center_in_layer = cumulative.saturating_add(w / 2);
            cumulative = cumulative.saturating_add(w).saturating_add(h_gap);
            let shifted = canvas_center.saturating_add(center_in_layer);
            let cx = if shifted >= layer_center && shifted - layer_center >= w / 2 {
                shifted - layer_center
            } else {
                w / 2
            };
            proof {
                assert(cx == td_cx(gv, *lo, l as int, i as int));
            }
            canvas.draw_node(cx, y, w, graph.nodes[id].label.as_str(), graph.nodes[id].shape, border_fg, text_fg);
            positions.set(id, NodeLayout { center_x: cx, top_y: y, width: w });
            proof {
                assert forall|l2: int, p2: int| (0 <= l2 < l && 0 <= p2 < lv[l2].len()) || (l2 == l && 0 <= p2 < i + 1) implies {
                    let v = #[trigger] lv[l2][p2] as int;
                    &&& positions@[v].center_x == td_cx(gv, *lo, l2, p2)
                    &&& positions@[v].top_y == td_top(*fp, l2)
                    &&& positions@[v].width == node_w(gv, v)
                } by {
                    if lv[l2][p2] == id {
                        lemma_same_node(lv, gv.nodes.len() as int, l2, p2, l as int, i as int);
                    } else {
                        assert(positions@[lv[l2][p2] as int] == before[lv[l2][p2] as int]);
                    }
                }
            }
            i = i + 1;
        }
        l = l + 1;
    }
    proof {
        assert forall|v: int| 0 <= v < gv.nodes.len() implies {
            let p = td_place(gv, *lo, *fp, v);
            &&& (#[trigger] positions@[v]).center_x == p.0
            &&& positions@[v].top_y == p.1
            &&& positions@[v].width == p.2
        } by {
            let lp = lo.node_pos@[v];
            assert(lv[lp.0 as int][lp.1 as int] == v);
        }
    }
    positions
}

/// The widest layer's row of boxes.
fn widest_layer(graph: &Graph, lo: &Layout, widths: &Vec<usize>) -> (w: usize)
    requires
        graph.wf(),
        lo.wf_for(graph.view()),
        lo.layers@.len() > 0,
        widths@.len() == graph.nodes@.len(),
        forall|v: int| 0 <= v < widths@.len() ==> #[trigger] widths@[v] == node_w(graph.view(), v),
    ensures
        w == widest_span(graph.view(), layers_view(lo.layers@), lo.layers@.len() as int),
{
    let ghost gv = graph.view();
    let ghost lv = layers_view(lo.layers@);
    proof {
        lemma_layers_nonempty(lv, graph.nodes@.len() as int);
    }
    let count = lo.layers.len();
    let mut max_layer_width: usize = 0;
    let mut l: usize = 0;
    while l < count
        invariant
            gv == graph.view(),
            lv == layers_view(lo.layers@),
            forall|l2: int, p: int| 0 <= l2 < lv.len() && 0 <= p < lv[l2].len() ==> #[trigger] lv[l2][p] < graph.nodes@.len(),
            widths@.len() == graph.nodes@.len(),
            forall|v: int| 0 <= v < widths@.len() ==> #[trigger] widths@[v] == node_w(gv, v),
            count == lo.layers@.len(),
            l <= count,
            max_layer_width == widest_span(gv, lv, l as int),
        decreases count - l,
    {
        let layer = &lo.layers[l];
        proof {
            assert(lv[l as int] == layer@);
            assert forall|p: int| 0 <= p < layer@.len() implies #[trigger] layer@[p] < graph.nodes@.len() by {
                assert(lv[l as int][p] == layer@[p]);
            }
        }
        let w = layer_span(layer, widths, 4, graph.nodes.len(), Ghost(gv));
        if w > max_layer_width {
            max_layer_width = w;
        }
        l = l + 1;
    }
    max_layer_width
}

/// The top row of every layer of a top-down diagram, and the diagram's
/// height.
fn td_layer_tops(fp: &FeedbackPlans, count: usize) -> (r: (Vec<usize>, usize))
    requires
        count > 0,
        fp.exits@.len() == count,
        fp.entries@.len() == count,
    ensures
        r.0@.len() == count,
        forall|k: int| 0 <= k < count ==> #[trigger] r.0@[k] == td_top(*fp, k),
        r.1 == td_height(*fp, count as int),
{
    let last_layer = count - 1;
    let mut gap_rows: Vec<usize> = Vec::new();
    let mut k: usize = 0;
    while k < last_layer
        invariant
            last_layer + 1 == count,
            fp.exits@.len() == count,
            fp.entries@.len() == count,
            k <= last_layer,
            gap_rows@.len() == k,
            forall|j: int| 0 <= j < k ==> #[trigger] gap_rows@[j] == td_gap(*fp, j),
        decreases last_layer - k,
    {
        gap_rows.push(4usize.saturating_add(fp.exits[k]).saturating_add(fp.entries[k + 1]));
        k = k + 1;
    }
    let top_margin = if fp.entries[0] == 0 {
        0
    } else {
        fp.entries[0].saturating_add(1)
    };
    let bottom_margin = if fp.exits[last_layer] == 0 {
        0
    } else {
        fp.exits[last_layer].saturating_add(1)
    };
    let mut layer_top: Vec<usize> = Vec::new();
    let mut next_y = top_margin;
    let mut k: usize = 0;
    while k < gap_rows.len()
        invariant
            gap_rows@.len() == last_layer,
            last_layer + 1 == count,
            fp.exits@.len() == count,
            fp.entries@.len() == count,
            forall|j: int| 0 <= j < last_layer ==> #[trigger] gap_rows@[j] == td_gap(*fp, j),
            k <= gap_rows@.len(),
            layer_top@.len() == k,
            forall|j: int| 0 <= j < k ==> #[trigger] layer_top@[j] == td_top(*fp, j),
            next_y == td_top(*fp, k as int),
        decreases gap_rows@.len() - k,
    {
        layer_top.push(next_y);
        proof {
            assert(td_top(*fp, k + 1) == sat_add(sat_add(td_top(*fp, k as int), 3), td_gap(*fp, k as int)));
        }
        next_y = next_y.saturating_add(3).saturating_add(gap_rows[k]);
        k = k + 1;
    }
    layer_top.push(next_y);
    let canvas_height = next_y.saturating_add(3).saturating_add(bottom_margin);
    (layer_top, canvas_height)
}

/// The gutter lanes of a top-down diagram, and its width.
fn td_lanes(graph: &Graph, lo: &Layout, fp: &FeedbackPlans, core_width: usize) -> (r: (Vec<usize>, usize))
    requires
        graph.wf(),
        lo.wf_for(graph.view()),
        fp.plans_for(graph.view(), *lo),
        core_width == td_core(graph.view(), *lo),
    ensures
        r.0@.len() == fp.plans@.len(),
        forall|j: int| 0 <= j < fp.plans@.len() ==> #[trigger] r.0@[j] == td_lane(graph.view(), *fp, core_width as int, j),
        r.1 == td_width(graph.view(), *lo, *fp),
{
    let ghost gv = graph.view();
    let mut lane_xs: Vec<usize> = Vec::new();
    let mut gutter_x = core_width.saturating_add(1);
    let mut k: usize = 0;
    while k < fp.plans.len()
        invariant
            graph.wf(),
            gv == graph.view(),
            fp.plans_for(gv, *lo),
            lo.wf_for(gv),
            k <= fp.plans@.len(),
            lane_xs@.len() == k,
            forall|j: int| 0 <= j < k ==> #[trigger] lane_xs@[j] == td_lane(gv, *fp, core_width as int, j),
            gutter_x == td_lane(gv, *fp, core_width as int, k as int),
        decreases fp.plans@.len() - k,
    {
        lane_xs.push(gutter_x);
        let e = fp.plans[k].edge;
        proof {
            assert(fp.plans@[k as int].edge == lo.feedback@[k as int]);
        }
        let lw = match edge_label(graph, e) {
            Some(t) => chars_of(t).len(),
            None => 0,
        };
        gutter_x = gutter_x.saturating_add(4).saturating_add(lw);
        k = k + 1;
    }
    let canvas_width = if fp.plans.len() == 0 {
        core_width
    } else {
        gutter_x
    };
    (lane_xs, canvas_width)
}

/// Draws the feedback routes of a top-down diagram, lane by lane, and
/// gives their labels to be written over them.
fn draw_feedback_td(
    graph: &Graph,
    lo: &Layout,
    fp: &FeedbackPlans,
    theme: &Theme,
    positions: &Vec<NodeLayout>,
    lane_xs: &Vec<usize>,
    canvas: &mut Canvas,
) -> (labels: Vec<(usize, usize, String)>)
    requires
        graph.wf(),
        lo.wf_for(graph.view()),
        fp.plans_for(graph.view(), *lo),
        td_placed(graph.view(), *lo, *fp, positions@),
        lane_xs@.len() == fp.plans@.len(),
        forall|j: int| 0 <= j < lane_xs@.len() ==> #[trigger] lane_xs@[j] == td_lane(graph.view(), *fp, td_core(graph.view(), *lo), j),
        old(canvas).wf(),
    ensures
        final(canvas).wf(),
        final(canvas).width == old(canvas).width,
        final(canvas).height == old(canvas).height,
        final(canvas).grid() == td_feedback(graph.view(), *lo, *fp, *theme, old(canvas).grid(), fp.plans@.len() as int),
        label_list_view(labels@) == td_labels(graph.view(), *lo, *fp, fp.plans@.len() as int),
{
    let ghost gv = graph.view();
    let edge_fg = Some(theme.code_border);
    // Feedback edges first, so that forward arrowheads end up on top.
    let mut labels: Vec<(usize, usize, String)> = Vec::new();
    let mut k: usize = 0;
    while k < fp.plans.len()
        invariant
            graph.wf(),
            gv == graph.view(),
            fp.plans_for(gv, *lo),
            lo.wf_for(gv),
            lane_xs@.len() == fp.plans@.len(),
            forall|j: int| 0 <= j < lane_xs@.len() ==> #[trigger] lane_xs@[j] == td_lane(gv, *fp, td_core(gv, *lo), j),
            td_placed(gv, *lo, *fp, positions@),
            edge_fg == Some(theme.code_border),
            canvas.wf(),
            canvas.width == old(canvas).width,
            canvas.height == old(canvas).height,
            k <= fp.plans@.len(),
            canvas.grid() == td_feedback(gv, *lo, *fp, *theme, old(canvas).grid(), k as int),
            label_list_view(labels@) == td_labels(gv, *lo, *fp, k as int),
        decreases fp.plans@.len() - k,
    {
        let plan = fp.plans[k];
        proof {
            assert(plan.edge == lo.feedback@[k as int] && plan.lane == k);
        }
        let from = graph.edges[plan.edge].from;
        let to = graph.edges[plan.edge].to;
        proof {
            assert(gv.edges[plan.edge as int] == edge_view(graph.edges@[plan.edge as int]));
        }
        let src = positions[from];
        let dst = positions[to];
        let route = FeedbackRouteTd {
            exit_x: src.left_x().saturating_add(1),
            src_bottom_y: src.bottom_y(),
            exit_y: src.bottom_y().saturating_add(2).saturating_add(plan.src_rank),
            entry_x: dst.right_x().saturating_sub(1),
            dst_top_y: dst.top_y,
            entry_y: dst.top_y.saturating_sub(plan.dst_rank.saturating_add(2)),
            lane_x: lane_xs[plan.lane],
        };
        proof {
            assert(route == td_route(gv, *lo, *fp, k as int));
        }
        canvas.draw_feedback_edge_td(&route, edge_fg);
        let ghost before = labels@;
        match edge_label(graph, plan.edge) {
            Some(text) => {
                let y = route.entry_y / 2 + route.exit_y / 2 + (route.entry_y % 2 + route.exit_y % 2) / 2;
                labels.push((route.lane_x.saturating_add(2), y, string_of(&chars_of(text))));
            },
            None => {},
        }
        proof {
            assert(label_list_view(labels@) =~= td_labels(gv, *lo, *fp, k + 1));
        }
        k = k + 1;
    }
    labels
}

/// Draws forward edge `e` of a top-down diagram.
fn draw_forward_edge_td(
    graph: &Graph,
    lo: &Layout,
    fp: &FeedbackPlans,
    theme: &Theme,
    positions: &Vec<NodeLayout>,
    canvas: &mut Canvas,
    e: usize,
)
    requires
        graph.wf(),
        lo.wf_for(graph.view()),
        fp.plans_for(graph.view(), *lo),
        td_placed(graph.view(), *lo, *fp, positions@),
        old(canvas).wf(),
        e < graph.edges@.len(),
    ensures
        final(canvas).wf(),
        final(canvas).width == old(canvas).width,
        final(canvas).height == old(canvas).height,
        final(canvas).grid() == td_edge_drawn(graph.view(), *lo, *fp, *theme, old(canvas).grid(), e as int),
{
    let ghost gv = graph.view();
    let edge_fg = Some(theme.code_border);
    let label_fg = Some(theme.h3);
    let from = graph.edges[e].from;
    let to = graph.edges[e].to;
    proof {
        assert(gv.edges[e as int] == edge_view(graph.edges@[e as int]));
    }
    let src = positions[from];
    let dst = positions[to];
    let from_layer = lo.node_pos[from].0;
    let to_layer = lo.node_pos[to].0;
    // Between adjacent layers the bus sits below the gap's exit rows
    // and above its entry rows.
    let bus_y = if from_layer < to_layer && to_layer - from_layer == 1 {
        Some(src.bottom_y().saturating_add(3).saturating_add(fp.exits[from_layer]))
    } else {
        None
    };
    canvas.draw_edge_td(
        src.center_x,
        src.bottom_y(),
        dst.center_x,
        dst.top_y,
        edge_label(graph, e),
        edge_fg,
        label_fg,
        bus_y,
    );
}

/// Draws the forward edges of a top-down diagram, in edge order.
fn draw_forward_td(graph: &Graph, lo: &Layout, fp: &FeedbackPlans, theme: &Theme, positions: &Vec<NodeLayout>, canvas: &mut Canvas)
    requires
        graph.wf(),
        lo.wf_for(graph.view()),
        fp.plans_for(graph.view(), *lo),
        td_placed(graph.view(), *lo, *fp, positions@),
        old(canvas).wf(),
    ensures
        final(canvas).wf(),
        final(canvas).width == old(canvas).width,
        final(canvas).height == old(canvas).height,
        final(canvas).grid() == td_forward(graph.view(), *lo, *fp, *theme, old(canvas).grid(), graph.edges@.len() as int),
{
    let ghost gv = graph.view();
    let edge_fg = Some(theme.code_border);
    let label_fg = Some(theme.h3);
    // Forward edges.
    let mut e: usize = 0;
    while e < graph.edges.len()
        invariant
            graph.wf(),
            gv == graph.view(),
            fp.plans_for(gv, *lo),
            lo.wf_for(gv),
            td_placed(gv, *lo, *fp, positions@),
            edge_fg == Some(theme.code_border),
            label_fg == Some(theme.h3),
            canvas.wf(),
            canvas.width == old(canvas).width,
            canvas.height == old(canvas).height,
            e <= graph.edges@.len(),
            canvas.grid() == td_forward(gv, *lo, *fp, *theme, old(canvas).grid(), e as int),
        decreases graph.edges@.len() - e,
    {
        if !lo.feedback_set[e] {
            draw_forward_edge_td(graph, lo, fp, theme, positions, canvas, e);
        }
        e = e + 1;
    }

}

/// Draws a top-down diagram: layers stacked from the top, each centred on
/// the canvas; feedback lanes in a gutter on the right. The picture is
/// [`td_grid`] for the layout the graph gets.
pub fn render_td(graph: &Graph, theme: &Theme) -> (r: Option<(Vec<Vec<StyledSpan>>, usize)>)
    requires
        graph.wf(),
        graph.nodes@.len() * graph.edges@.len() <= u64::MAX,
    ensures
        r is Some <==> graph.nodes@.len() > 0,
        r matches Some(d) ==> well_drawn(d),
        r matches Some(d) ==> td_drawn(graph.view(), *theme, d),
{
    let ghost gv = graph.view();

    let lo = layout(graph);
    let layers = &lo.layers;
    if layers.len() == 0 {
        proof {
            lemma_no_layers(layers_view(lo.layers@), graph.nodes@.len() as int);
        }
        return None;
    }
    proof {
        lemma_layers_nonempty(layers_view(lo.layers@), graph.nodes@.len() as int);
    }
    let fp = plan_feedback(graph, &lo);
    let count = layers.len();
    let widths = node_widths(graph);

    let core_width = widest_layer(graph, &lo, &widths).saturating_add(6);
    let (layer_top, canvas_height) = td_layer_tops(&fp, count);
    let (lane_xs, canvas_width) = td_lanes(graph, &lo, &fp, core_width);

    let mut canvas = Canvas::new(canvas_width, canvas_height);
    let positions = place_nodes_td(graph, &lo, &fp, theme, &widths, &layer_top, core_width, &mut canvas);
    let labels = draw_feedback_td(graph, &lo, &fp, theme, &positions, &lane_xs, &mut canvas);
    write_labels(&mut canvas, &labels, Some(theme.h3));
    draw_forward_td(graph, &lo, &fp, theme, &positions, &mut canvas);

    let rows = canvas.to_span_rows(theme);
    proof {
        lemma_rows_width(canvas, rows@, *theme);
        canvas.lemma_on_grid(0, 0);
        assert(canvas.grid() == td_grid(gv, lo, fp, *theme));
    }
    let d = (rows, canvas_width);
    proof {
        assert(td_drawing(graph.view(), lo, fp, *theme, d)) by {
            reveal(td_drawing);
        }
        assert(td_drawn(graph.view(), *theme, d));
    }
    Some(d)
}

/// Width of a row of node boxes: their widths plus `gap` between
/// neighbours.
fn layer_span(layer: &Vec<usize>, widths: &Vec<usize>, gap: usize, n: usize, Ghost(g): Ghost<GraphV>) -> (w: usize)
    requires
        widths@.len() == n,
        forall|p: int| 0 <= p < layer@.len() ==> #[trigger] layer@[p] < n,
        forall|v: int| 0 <= v < n ==> #[trigger] widths@[v] == node_w(g, v),
    ensures
        w == span_of(g, layer@, gap as int),
{
    let mut total: usize = 0;
    let mut i: usize = 0;
    while i < layer.len()
        invariant
            widths@.len() == n,
            forall|p: int| 0 <= p < layer@.len() ==> #[trigger] layer@[p] < n,
            forall|v: int| 0 <= v < n ==> #[trigger] widths@[v] == node_w(g, v),
            i <= layer@.len(),
            total == span_of(g, layer@.take(i as int), gap as int),
        decreases layer@.len() - i,
    {
        proof {
            assert(layer@.take(i + 1).drop_last() =~= layer@.take(i as int));
        }
        total = total.saturating_add(widths[layer[i]]);
        if i > 0 {
            total = total.saturating_add(gap);
        }
        i = i + 1;
    }
    proof {
        assert(layer@.take(layer@.len() as int) =~= layer@);
    }
    total
}

proof fn lemma_no_layers(layers: Seq<Seq<usize>>, n: int)
    requires
        partitions(layers, n),
        layers.len() == 0,
    ensures
        n <= 0,
{
    if n > 0 {
        assert(in_some_layer(layers, 0));
    }
}

proof fn lemma_layers_nonempty(layers: Seq<Seq<usize>>, n: int)
    requires
        partitions(layers, n),
        layers.len() > 0,
    ensures
        n > 0,
        forall|l: int, p: int| 0 <= l < layers.len() && 0 <= p < layers[l].len() ==> #[trigger] layers[l][p] < n,
{
    assert(layers[0].len() > 0);
    assert(layers[0][0] < n);
}


/// The width of each layer's column (its widest box) and the most boxes in
/// a layer.
fn lr_columns(graph: &Graph, lo: &Layout, widths: &Vec<usize>) -> (r: (Vec<usize>, usize))
    requires
        graph.wf(),
        lo.wf_for(graph.view()),
        lo.layers@.len() > 0,
        widths@.len() == graph.nodes@.len(),
        forall|v: int| 0 <= v < widths@.len() ==> #[trigger] widths@[v] >= 7,
        forall|v: int| 0 <= v < widths@.len() ==> #[trigger] widths@[v] == node_w(graph.view(), v),
    ensures
        r.0@.len() == lo.layers@.len(),
        forall|l: int| 0 <= l < lo.layers@.len() ==> #[trigger] r.0@[l] == lr_col(graph.view(), *lo, l),
        forall|l: int| 0 <= l < lo.layers@.len() ==> #[trigger] r.0@[l] >= 1,
        r.1 == most_boxes(layers_view(lo.layers@), lo.layers@.len() as int),
{
    let ghost gv = graph.view();
    let ghost lv = layers_view(lo.layers@);
    proof {
        lemma_layers_nonempty(lv, graph.nodes@.len() as int);
    }
    let count = lo.layers.len();
    let mut col_widths: Vec<usize> = Vec::new();
    let mut max_nodes_in_layer: usize = 0;
    let mut l: usize = 0;
    while l < count
        invariant
            gv == graph.view(),
            lv == layers_view(lo.layers@),
            forall|l2: int, p: int| 0 <= l2 < lv.len() && 0 <= p < lv[l2].len() ==> #[trigger] lv[l2][p] < graph.nodes@.len(),
            widths@.len() == graph.nodes@.len(),
            forall|v: int| 0 <= v < widths@.len() ==> #[trigger] widths@[v] >= 7,
            forall|v: int| 0 <= v < widths@.len() ==> #[trigger] widths@[v] == node_w(gv, v),
            count == lo.layers@.len(),
            l <= count,
            col_widths@.len() == l,
            forall|a: int| 0 <= a < l ==> #[trigger] col_widths@[a] == lr_col(gv, *lo, a),
            forall|a: int| 0 <= a < l ==> #[trigger] col_widths@[a] >= 1,
            max_nodes_in_layer == most_boxes(lv, l as int),
        decreases count - l,
    {
        let layer = &lo.layers[l];
        proof {
            assert(lv[l as int] == layer@);
        }
        let mut widest: usize = 0;
        let mut i: usize = 0;
        while i < layer.len()
            invariant
                gv == graph.view(),
                lv == layers_view(lo.layers@),
                forall|l2: int, p: int| 0 <= l2 < lv.len() && 0 <= p < lv[l2].len() ==> #[trigger] lv[l2][p] < graph.nodes@.len(),
                l < count,
                count == lo.layers@.len(),
                layer@ == lv[l as int],
                widths@.len() == graph.nodes@.len(),
                forall|v: int| 0 <= v < widths@.len() ==> #[trigger] widths@[v] >= 7,
                forall|v: int| 0 <= v < widths@.len() ==> #[trigger] widths@[v] == node_w(gv, v),
                i <= layer@.len(),
                i > 0 ==> widest >= 7,
                widest == widest_box(gv, layer@, i as int),
            decreases layer@.len() - i,
        {
            let id = layer[i];
            proof {
                assert(lv[l as int][i as int] == id);
            }
            if widths[id] > widest {
                widest = widths[id];
            }
            i = i + 1;
        }
        if layer.len() == 0 {
            widest = 7;
        }
        col_widths.push(widest);
        if layer.len() > max_nodes_in_layer {
            max_nodes_in_layer = layer.len();
        }
        l = l + 1;
    }
    (col_widths, max_nodes_in_layer)
}

/// The width of each gap between neighbouring columns.
fn lr_gap_widths(fp: &FeedbackPlans, count: usize) -> (gw: Vec<usize>)
    requires
        count > 0,
        fp.exits@.len() == count,
        fp.entries@.len() == count,
    ensures
        gw@.len() == count - 1,
        forall|k: int| 0 <= k < count - 1 ==> #[trigger] gw@[k] == lr_gap(*fp, k),
{
    let last_layer = count - 1;
    let mut gap_widths: Vec<usize> = Vec::new();
    let mut k: usize = 0;
    while k < last_layer
        invariant
            last_layer + 1 == count,
            fp.exits@.len() == count,
            fp.entries@.len() == count,
            k <= last_layer,
            gap_widths@.len() == k,
            forall|j: int| 0 <= j < k ==> #[trigger] gap_widths@[j] == lr_gap(*fp, j),
        decreases last_layer - k,
    {
        let exits = fp.exits[k];
        let entries = fp.entries[k + 1];
        let mut gw: usize = 6;
        let a = exits.saturating_add(entries).saturating_add(4);
        if a > gw {
            gw = a;
        }
        let b = sat_mul(exits, 2);
        if b > gw {
            gw = b;
        }
        let c = sat_mul(entries, 2).saturating_add(2);
        if c > gw {
            gw = c;
        }
        gap_widths.push(gw);
        k = k + 1;
    }
    gap_widths
}

/// Columns of a left-right diagram: margins, columns and gaps.
fn lr_canvas_width(graph: &Graph, lo: &Layout, fp: &FeedbackPlans, col_widths: &Vec<usize>, gap_widths: &Vec<usize>) -> (w: usize)
    requires
        lo.layers@.len() > 0,
        fp.exits@.len() == lo.layers@.len(),
        fp.entries@.len() == lo.layers@.len(),
        col_widths@.len() == lo.layers@.len(),
        forall|l: int| 0 <= l < lo.layers@.len() ==> #[trigger] col_widths@[l] == lr_col(graph.view(), *lo, l),
        gap_widths@.len() == lo.layers@.len() - 1,
        forall|k: int| 0 <= k < gap_widths@.len() ==> #[trigger] gap_widths@[k] == lr_gap(*fp, k),
    ensures
        w == lr_width(graph.view(), *lo, *fp),
{
    let ghost gv = graph.view();
    let count = col_widths.len();
    let last_layer = count - 1;
    let left_margin = if fp.entries[0] > 2 {
        fp.entries[0]
    } else {
        2
    };
    let right_margin = if fp.exits[last_layer] > 2 {
        fp.exits[last_layer]
    } else {
        2
    };
    let mut canvas_width = left_margin;
    let mut l: usize = 0;
    while l < count
        invariant
            gv == graph.view(),
            count == lo.layers@.len(),
            col_widths@.len() == count,
            forall|a: int| 0 <= a < count ==> #[trigger] col_widths@[a] == lr_col(gv, *lo, a),
            fp.entries@.len() == count,
            l <= count,
            canvas_width == lr_cols_total(gv, *lo, *fp, l as int),
        decreases count - l,
    {
        canvas_width = canvas_width.saturating_add(col_widths[l]);
        l = l + 1;
    }
    let mut k: usize = 0;
    while k < gap_widths.len()
        invariant
            gv == graph.view(),
            count == lo.layers@.len(),
            gap_widths@.len() == count - 1,
            forall|j: int| 0 <= j < gap_widths@.len() ==> #[trigger] gap_widths@[j] == lr_gap(*fp, j),
            k <= gap_widths@.len(),
            canvas_width == lr_gaps_total(gv, *lo, *fp, k as int),
        decreases gap_widths@.len() - k,
    {
        canvas_width = canvas_width.saturating_add(gap_widths[k]);
        k = k + 1;
    }
    canvas_width.saturating_add(right_margin)
}

/// Whether `positions` holds, for every node, where the left-right drawing
/// places it.
pub open spec fn lr_placed(g: GraphV, lo: Layout, fp: FeedbackPlans, positions: Seq<NodeLayout>) -> bool {
    &&& positions.len() == g.nodes.len()
    &&& forall|v: int| 0 <= v < g.nodes.len() ==> {
        let p = lr_place(g, lo, fp, v);
        &&& (#[trigger] positions[v]).center_x == p.0
        &&& positions[v].top_y == p.1
        &&& positions[v].width == p.2
    }
}

/// Whether `bounds` holds the border columns of every layer's column.
pub open spec fn lr_bounds(g: GraphV, lo: Layout, fp: FeedbackPlans, bounds: Seq<(usize, usize)>) -> bool {
    &&& bounds.len() == lo.layers@.len()
    &&& forall|l: int| 0 <= l < bounds.len() ==> (#[trigger] bounds[l]).0 == lr_col_x(g, lo, fp, l) && bounds[l].1 == lr_col_right(g, lo, fp, l)
}

/// Draws the boxes of a left-right diagram, column by column, and gives
/// where each node went and the border columns of each column.
fn place_nodes_lr(
    graph: &Graph,
    lo: &Layout,
    fp: &FeedbackPlans,
    theme: &Theme,
    widths: &Vec<usize>,
    col_widths: &Vec<usize>,
    gap_widths: &Vec<usize>,
    core_height: usize,
    canvas: &mut Canvas,
) -> (r: (Vec<NodeLayout>, Vec<(usize, usize)>))
    requires
        graph.wf(),
        lo.wf_for(graph.view()),
        lo.layers@.len() > 0,
        fp.plans_for(graph.view(), *lo),
        old(canvas).wf(),
        widths@.len() == graph.nodes@.len(),
        forall|v: int| 0 <= v < widths@.len() ==> #[trigger] widths@[v] >= 7,
        forall|v: int| 0 <= v < widths@.len() ==> #[trigger] widths@[v] == node_w(graph.view(), v),
        col_widths@.len() == lo.layers@.len(),
        forall|l: int| 0 <= l < lo.layers@.len() ==> #[trigger] col_widths@[l] == lr_col(graph.view(), *lo, l),
        forall|l: int| 0 <= l < lo.layers@.len() ==> #[trigger] col_widths@[l] >= 1,
        gap_widths@.len() == lo.layers@.len() - 1,
        forall|k: int| 0 <= k < gap_widths@.len() ==> #[trigger] gap_widths@[k] == lr_gap(*fp, k),
        core_height == lr_core(*lo),
    ensures
        final(canvas).wf(),
        final(canvas).width == old(canvas).width,
        final(canvas).height == old(canvas).height,
        final(canvas).grid() == lr_nodes(graph.view(), *lo, *fp, *theme, old(canvas).grid(), lo.layers@.len() as int, 0),
        lr_placed(graph.view(), *lo, *fp, r.0@),
        lr_bounds(graph.view(), *lo, *fp, r.1@),
{
    let ghost gv = graph.view();
    let ghost lv = layers_view(lo.layers@);
    let ghost g0 = canvas.grid();
    let count = lo.layers.len();
    let border_fg = Some(theme.code_border);
    let text_fg = Some(theme.fg);
    let mut positions = blank_layouts(graph.nodes.len());
    let mut col_bounds: Vec<(usize, usize)> = Vec::new();
    let mut col_x = if fp.entries[0] > 2 {
        fp.entries[0]
    } else {
        2
    };
    let mut l: usize = 0;
    while l < count
        invariant
            graph.wf(),
            gv == graph.view(),
            lv == layers_view(lo.layers@),
            lo.wf_for(gv),
            count == lo.layers@.len(),
            col_widths@.len() == count,
            forall|a: int| 0 <= a < count ==> #[trigger] col_widths@[a] == lr_col(gv, *lo, a),
            forall|a: int| 0 <= a < count ==> #[trigger] col_widths@[a] >= 1,
            gap_widths@.len() == count - 1,
            forall|k: int| 0 <= k < gap_widths@.len() ==> #[trigger] gap_widths@[k] == lr_gap(*fp, k),
            widths@.len() == graph.nodes@.len(),
            forall|v: int| 0 <= v < widths@.len() ==> #[trigger] widths@[v] >= 7,
            forall|v: int| 0 <= v < widths@.len() ==> #[trigger] widths@[v] == node_w(gv, v),
            positions@.len() == graph.nodes@.len(),
            core_height == lr_core(*lo),
            border_fg == Some(theme.code_border),
            text_fg == Some(theme.fg),
            canvas.wf(),
            canvas.width == old(canvas).width,
            canvas.height == old(canvas).height,
            l <= count,
            col_x == lr_col_x(gv, *lo, *fp, l as int),
            col_bounds@.len() == l,
            forall|a: int| 0 <= a < l ==> (#[trigger] col_bounds@[a]).0 == lr_col_x(gv, *lo, *fp, a) && col_bounds@[a].1 == lr_col_right(gv, *lo, *fp, a),
            canvas.grid() == lr_nodes(gv, *lo, *fp, *theme, g0, l as int, 0),
            forall|l2: int, p2: int| 0 <= l2 < l && 0 <= p2 < lv[l2].len() ==> {
                let v = #[trigger] lv[l2][p2] as int;
                &&& positions@[v].center_x == sat_add(lr_col_x(gv, *lo, *fp, l2), lr_col(gv, *lo, l2) / 2)
                &&& positions@[v].top_y == lr_top(*lo, l2, p2)
                &&& positions@[v].width == node_w(gv, v)
            },
        decreases count - l,
    {
        let layer = &lo.layers[l];
        proof {
            assert(lv[l as int] == layer@);
        }
        let col_w = col_widths[l];
        col_bounds.push((col_x, col_x.saturating_add(col_w - 1)));
        let total_layer_height = sat_mul(layer.len(), 3).saturating_add(
            if layer.len() > 0 { sat_mul(layer.len() - 1, 2) } else { 0 },
        );
        let start_y = core_height.saturating_sub(total_layer_height) / 2;
        let cx = col_x.saturating_add(col_w / 2);
        let mut i: usize = 0;
        while i < layer.len()
            invariant
                graph.wf(),
                gv == graph.view(),
                lv == layers_view(lo.layers@),
                lo.wf_for(gv),
                l < count,
                count == lo.layers@.len(),
                layer@ == lv[l as int],
                widths@.len() == graph.nodes@.len(),
                forall|v: int| 0 <= v < widths@.len() ==> #[trigger] widths@[v] >= 7,
                forall|v: int| 0 <= v < widths@.len() ==> #[trigger] widths@[v] == node_w(gv, v),
                positions@.len() == graph.nodes@.len(),
                cx == sat_add(lr_col_x(gv, *lo, *fp, l as int), lr_col(gv, *lo, l as int) / 2),
                start_y == sat_sub(lr_core(*lo), sat_add(sat_times(layer@.len() as int, 3), if layer@.len() > 0 { sat_times(layer@.len() - 1, 2) } else { 0 })) / 2,
                border_fg == Some(theme.code_border),
                text_fg == Some(theme.fg),
                canvas.wf(),
                canvas.width == old(canvas).width,
                canvas.height == old(canvas).height,
                i <= layer@.len(),
                canvas.grid() == lr_nodes(gv, *lo, *fp, *theme, g0, l as int, i as int),
                forall|l2: int, p2: int| (0 <= l2 < l && 0 <= p2 < lv[l2].len()) || (l2 == l && 0 <= p2 < i) ==> {
                    let v = #[trigger] lv[l2][p2] as int;
                    &&& positions@[v].center_x == sat_add(lr_col_x(gv, *lo, *fp, l2), lr_col(gv, *lo, l2) / 2)
                    &&& positions@[v].top_y == lr_top(*lo, l2, p2)
                    &&& positions@[v].width == node_w(gv, v)
                },
            decreases layer@.len() - i,
        {
            let id = layer[i];
            let ghost before = positions@;
            proof {
                assert(lv[l as int][i as int] == id);
                assert(gv.nodes[id as int] == node_view(graph.nodes@[id as int]));
            }
            let w = widths[id];
            let y = start_y.saturating_add(sat_mul(i, 5));
            proof {
                assert(y == lr_top(*lo, l as int, i as int));
            }
            canvas.draw_node(cx, y, w, graph.nodes[id].label.as_str(), graph.nodes[id].shape, border_fg, text_fg);
            positions.set(id, NodeLayout { center_x: cx, top_y: y, width: w });
            proof {
                assert forall|l2: int, p2: int| (0 <= l2 < l && 0 <= p2 < lv[l2].len()) || (l2 == l && 0 <= p2 < i + 1) implies {
                    let v = #[trigger] lv[l2][p2] as int;
                    &&& positions@[v].center_x == sat_add(lr_col_x(gv, *lo, *fp, l2), lr_col(gv, *lo, l2) / 2)
                    &&& positions@[v].top_y == lr_top(*lo, l2, p2)
                    &&& positions@[v].width == node_w(gv, v)
                } by {
                    if lv[l2][p2] == id {
                        lemma_same_node(lv, gv.nodes.len() as int, l2, p2, l as int, i as int);
                    } else {
                        assert(positions@[lv[l2][p2] as int] == before[lv[l2][p2] as int]);
                    }
                }
            }
            i = i + 1;
        }
        let gap = if l < gap_widths.len() {
            gap_widths[l]
        } else {
            0
        };
        col_x = col_x.saturating_add(col_w).saturating_add(gap);
        l = l + 1;
    }
    proof {
        assert forall|v: int| 0 <= v < gv.nodes.len() implies {
            let p = lr_place(gv, *lo, *fp, v);
            &&& (#[trigger] positions@[v]).center_x == p.0
            &&& positions@[v].top_y == p.1
            &&& positions@[v].width == p.2
        } by {
            let lp = lo.node_pos@[v];
            assert(lv[lp.0 as int][lp.1 as int] == v);
        }
    }
    (positions, col_bounds)
}

/// The route of feedback edge `k` of a left-right diagram.
fn lr_route_of(
    graph: &Graph,
    lo: &Layout,
    fp: &FeedbackPlans,
    positions: &Vec<NodeLayout>,
    col_bounds: &Vec<(usize, usize)>,
    core_height: usize,
    k: usize,
) -> (route: FeedbackRouteLr)
    requires
        graph.wf(),
        lo.wf_for(graph.view()),
        fp.plans_for(graph.view(), *lo),
        lr_placed(graph.view(), *lo, *fp, positions@),
        lr_bounds(graph.view(), *lo, *fp, col_bounds@),
        core_height == lr_core(*lo),
        k < fp.plans@.len(),
    ensures
        route == lr_route(graph.view(), *lo, *fp, k as int),
{
    let ghost gv = graph.view();
    let plan = fp.plans[k];
    proof {
        assert(plan.edge == lo.feedback@[k as int] && plan.lane == k);
    }
    let from = graph.edges[plan.edge].from;
    let to = graph.edges[plan.edge].to;
    proof {
        assert(gv.edges[plan.edge as int] == edge_view(graph.edges@[plan.edge as int]));
    }
    let src = positions[from];
    let dst = positions[to];
    let src_layer = lo.node_pos[from].0;
    let dst_layer = lo.node_pos[to].0;
    let lane_y = core_height.saturating_add(1).saturating_add(sat_mul(plan.lane, 2));
    FeedbackRouteLr {
        exit_x: src.right_x().saturating_sub(1),
        src_bottom_y: src.bottom_y(),
        exit_lane_x: col_bounds[src_layer].1.saturating_add(1).saturating_add(plan.src_rank),
        entry_x: dst.left_x().saturating_add(1),
        dst_bottom_y: dst.bottom_y(),
        entry_lane_x: col_bounds[dst_layer].0.saturating_sub(plan.dst_rank.saturating_add(1)),
        lane_y,
    }
}

/// Queues the label of a feedback route of a left-right diagram: inline on
/// the lane, centred on its horizontal run, cut to the room there is.
fn push_lr_label(labels: &mut Vec<(usize, usize, String)>, route: &FeedbackRouteLr, label: Option<&str>)
    ensures
        label_list_view(final(labels)@) == label_list_view(old(labels)@) + lr_label(*route, label_view(label)),
{
    let ghost before = label_list_view(labels@);
    match label {
        Some(text) => {
            let inner = route.exit_lane_x.saturating_sub(route.entry_lane_x.saturating_add(1));
            let fitted = fit_label(text, inner);
            let fitted_len = chars_of(fitted.as_str()).len();
            let x = route.entry_lane_x.saturating_add(1).saturating_add(inner.saturating_sub(fitted_len) / 2);
            labels.push((x, route.lane_y, fitted));
        },
        None => {},
    }
    proof {
        assert(label_list_view(labels@) =~= before + lr_label(*route, label_view(label)));
    }
}

/// Draws the feedback routes of a left-right diagram, lane by lane, and
/// gives their labels to be written over them.
fn draw_feedback_lr(
    graph: &Graph,
    lo: &Layout,
    fp: &FeedbackPlans,
    theme: &Theme,
    positions: &Vec<NodeLayout>,
    col_bounds: &Vec<(usize, usize)>,
    core_height: usize,
    canvas: &mut Canvas,
) -> (labels: Vec<(usize, usize, String)>)
    requires
        graph.wf(),
        lo.wf_for(graph.view()),
        fp.plans_for(graph.view(), *lo),
        lr_placed(graph.view(), *lo, *fp, positions@),
        lr_bounds(graph.view(), *lo, *fp, col_bounds@),
        core_height == lr_core(*lo),
        old(canvas).wf(),
    ensures
        final(canvas).wf(),
        final(canvas).width == old(canvas).width,
        final(canvas).height == old(canvas).height,
        final(canvas).grid() == lr_feedback(graph.view(), *lo, *fp, *theme, old(canvas).grid(), fp.plans@.len() as int),
        label_list_view(labels@) == lr_labels(graph.view(), *lo, *fp, fp.plans@.len() as int),
{
    let ghost gv = graph.view();
    let edge_fg = Some(theme.code_border);
    let mut labels: Vec<(usize, usize, String)> = Vec::new();
    let mut k: usize = 0;
    while k < fp.plans.len()
        invariant
            graph.wf(),
            gv == graph.view(),
            fp.plans_for(gv, *lo),
            lo.wf_for(gv),
            lr_bounds(gv, *lo, *fp, col_bounds@),
            lr_placed(gv, *lo, *fp, positions@),
            core_height == lr_core(*lo),
            edge_fg == Some(theme.code_border),
            canvas.wf(),
            canvas.width == old(canvas).width,
            canvas.height == old(canvas).height,
            k <= fp.plans@.len(),
            canvas.grid() == lr_feedback(gv, *lo, *fp, *theme, old(canvas).grid(), k as int),
            label_list_view(labels@) == lr_labels(gv, *lo, *fp, k as int),
        decreases fp.plans@.len() - k,
    {
        let plan = fp.plans[k];
        proof {
            assert(plan.edge == lo.feedback@[k as int] && plan.lane == k);
        }
        let from = graph.edges[plan.edge].from;
        let to = graph.edges[plan.edge].to;
        proof {
            assert(gv.edges[plan.edge as int] == edge_view(graph.edges@[plan.edge as int]));
        }
        let route = lr_route_of(graph, lo, fp, positions, col_bounds, core_height, k);
        canvas.draw_feedback_edge_lr(&route, edge_fg);
        push_lr_label(&mut labels, &route, edge_label(graph, plan.edge));
        k = k + 1;
    }
    labels
}

/// Draws forward edge `e` of a left-right diagram.
fn draw_forward_edge_lr(
    graph: &Graph,
    lo: &Layout,
    fp: &FeedbackPlans,
    theme: &Theme,
    positions: &Vec<NodeLayout>,
    col_bounds: &Vec<(usize, usize)>,
    canvas: &mut Canvas,
    e: usize,
)
    requires
        graph.wf(),
        lo.wf_for(graph.view()),
        lr_placed(graph.view(), *lo, *fp, positions@),
        lr_bounds(graph.view(), *lo, *fp, col_bounds@),
        old(canvas).wf(),
        e < graph.edges@.len(),
    ensures
        final(canvas).wf(),
        final(canvas).width == old(canvas).width,
        final(canvas).height == old(canvas).height,
        final(canvas).grid() == lr_edge_drawn(graph.view(), *lo, *fp, *theme, old(canvas).grid(), e as int),
{
    let ghost gv = graph.view();
    let edge_fg = Some(theme.code_border);
    let label_fg = Some(theme.h3);
    let from = graph.edges[e].from;
    let to = graph.edges[e].to;
    proof {
        assert(gv.edges[e as int] == edge_view(graph.edges@[e as int]));
    }
    let src = positions[from];
    let dst = positions[to];
    let src_right = col_bounds[lo.node_pos[from].0].1;
    let dst_left = col_bounds[lo.node_pos[to].0].0;
    let mid_x = if src_right < dst_left && dst_left - src_right > 1 {
        Some(src_right + 1 + (dst_left - src_right - 1) / 2)
    } else {
        None
    };
    canvas.draw_edge_lr(
        src.right_x(),
        src.top_y.saturating_add(1),
        dst.left_x(),
        dst.top_y.saturating_add(1),
        edge_label(graph, e),
        edge_fg,
        label_fg,
        mid_x,
    );
}

/// Draws the forward edges of a left-right diagram, in edge order.
fn draw_forward_lr(
    graph: &Graph,
    lo: &Layout,
    fp: &FeedbackPlans,
    theme: &Theme,
    positions: &Vec<NodeLayout>,
    col_bounds: &Vec<(usize, usize)>,
    canvas: &mut Canvas,
)
    requires
        graph.wf(),
        lo.wf_for(graph.view()),
        lr_placed(graph.view(), *lo, *fp, positions@),
        lr_bounds(graph.view(), *lo, *fp, col_bounds@),
        old(canvas).wf(),
    ensures
        final(canvas).wf(),
        final(canvas).width == old(canvas).width,
        final(canvas).height == old(canvas).height,
        final(canvas).grid() == lr_forward(graph.view(), *lo, *fp, *theme, old(canvas).grid(), graph.edges@.len() as int),
{
    let ghost gv = graph.view();
    let edge_fg = Some(theme.code_border);
    let label_fg = Some(theme.h3);
    let mut e: usize = 0;
    while e < graph.edges.len()
        invariant
            graph.wf(),
            gv == graph.view(),
            lo.wf_for(gv),
            lr_bounds(gv, *lo, *fp, col_bounds@),
            lr_placed(gv, *lo, *fp, positions@),
            edge_fg == Some(theme.code_border),
            label_fg == Some(theme.h3),
            canvas.wf(),
            canvas.width == old(canvas).width,
            canvas.height == old(canvas).height,
            e <= graph.edges@.len(),
            canvas.grid() == lr_forward(gv, *lo, *fp, *theme, old(canvas).grid(), e as int),
        decreases graph.edges@.len() - e,
    {
        if !lo.feedback_set[e] {
            draw_forward_edge_lr(graph, lo, fp, theme, positions, col_bounds, canvas, e);
        }
        e = e + 1;
    }
}

/// Draws a left-right diagram: layers as columns from the left, each
/// centred vertically; feedback lanes in a gutter underneath. The picture
/// is [`lr_grid`] for the layout the graph gets.
pub fn render_lr(graph: &Graph, theme: &Theme) -> (r: Option<(Vec<Vec<StyledSpan>>, usize)>)
    requires
        graph.wf(),
        graph.nodes@.len() * graph.edges@.len() <= u64::MAX,
    ensures
        r is Some <==> graph.nodes@.len() > 0,
        r matches Some(d) ==> well_drawn(d),
        r matches Some(d) ==> lr_drawn(graph.view(), *theme, d),
{
    let ghost gv = graph.view();
    let lo = layout(graph);
    if lo.layers.len() == 0 {
        proof {
            lemma_no_layers(layers_view(lo.layers@), graph.nodes@.len() as int);
        }
        return None;
    }
    proof {
        lemma_layers_nonempty(layers_view(lo.layers@), graph.nodes@.len() as int);
    }
    let fp = plan_feedback(graph, &lo);
    let count = lo.layers.len();
    let widths = node_widths(graph);
    let (col_widths, max_nodes_in_layer) = lr_columns(graph, &lo, &widths);
    let gap_widths = lr_gap_widths(&fp, count);
    let canvas_width = lr_canvas_width(graph, &lo, &fp, &col_widths, &gap_widths);
    let core_height = sat_mul(max_nodes_in_layer, 5).saturating_sub(2).saturating_add(2);
    let gutter_height = if fp.plans.len() == 0 {
        0
    } else {
        sat_mul(2, fp.plans.len()).saturating_add(1)
    };
    let canvas_height = core_height.saturating_add(gutter_height);

    let mut canvas = Canvas::new(canvas_width, canvas_height);
    let (positions, col_bounds) = place_nodes_lr(graph, &lo, &fp, theme, &widths, &col_widths, &gap_widths, core_height, &mut canvas);
    let labels = draw_feedback_lr(graph, &lo, &fp, theme, &positions, &col_bounds, core_height, &mut canvas);
    write_labels(&mut canvas, &labels, Some(theme.h3));
    draw_forward_lr(graph, &lo, &fp, theme, &positions, &col_bounds, &mut canvas);

    let rows = canvas.to_span_rows(theme);
    proof {
        lemma_rows_width(canvas, rows@, *theme);
        canvas.lemma_on_grid(0, 0);
        assert(canvas.grid() == lr_grid(gv, lo, fp, *theme));
    }
    let d = (rows, canvas_width);
    proof {
        assert(lr_drawing(graph.view(), lo, fp, *theme, d)) by {
            reveal(lr_drawing);
        }
        assert(lr_drawn(graph.view(), *theme, d));
    }
    Some(d)
}

} // verus!
