//! Mermaid flowcharts: the graph model and the parser.
//!
//! The parser reads the subset of the flowchart syntax that the renderer
//! draws: a `graph`/`flowchart` header with a direction, node declarations
//! `id`, `id[rect]`, `id(rounded)`, `id((circle))` and `id{diamond}`, and
//! chains of edges `a --> b -->|label| c`. Comments (`%%`) and styling or
//! grouping directives are skipped; any other text that does not parse ends
//! its line.
use vstd::prelude::*;
use crate::flowchart::{drawn_as, render_lr, render_td, well_drawn};
use crate::style::StyledSpan;
use crate::theme::Theme;
use crate::text::{
    chars_of, find_first, first_token, in_class, is_first_occ, is_ws, lemma_run_end_unique,
    matches_at, occurs_at, first_occ, run_end, scan_run, slice_chars, string_of, trim, trim_bounds,
    CharClass, is_run_end, first_token_of,
};

verus! {

#[derive(Debug, Clone, Copy, PartialEq, Eq, Structural)]
pub enum Direction {
    TopDown,
    LeftRight,
}

#[derive(Debug, Clone, Copy, PartialEq, Eq, Structural)]
pub enum NodeShape {
    Rectangle,
    Rounded,
    Diamond,
    Circle,
}

/// A node, in declaration order within [`Graph::nodes`].
#[derive(Debug)]
pub struct Node {
    pub id: String,
    pub label: String,
    pub shape: NodeShape,
}

/// An edge between two nodes, given by their indices in [`Graph::nodes`].
#[derive(Debug)]
pub struct Edge {
    pub from: usize,
    pub to: usize,
    pub label: Option<String>,
}

#[derive(Debug)]
pub struct Graph {
    pub direction: Direction,
    pub nodes: Vec<Node>,
    pub edges: Vec<Edge>,
}

/// A node as values.
pub struct NodeV {
    pub id: Seq<char>,
    pub label: Seq<char>,
    pub shape: NodeShape,
}

/// An edge as values.
pub struct EdgeV {
    pub from: int,
    pub to: int,
    pub label: Option<Seq<char>>,
}

/// A graph as values.
pub struct GraphV {
    pub direction: Direction,
    pub nodes: Seq<NodeV>,
    pub edges: Seq<EdgeV>,
}

pub open spec fn node_view(n: Node) -> NodeV {
    NodeV { id: n.id@, label: n.label@, shape: n.shape }
}

pub open spec fn opt_text(o: Option<String>) -> Option<Seq<char>> {
    match o {
        Some(s) => Some(s@),
        None => None,
    }
}

pub open spec fn edge_view(e: Edge) -> EdgeV {
    EdgeV { from: e.from as int, to: e.to as int, label: opt_text(e.label) }
}

pub open spec fn nodes_view(v: Seq<Node>) -> Seq<NodeV> {
    v.map_values(|n: Node| node_view(n))
}

pub open spec fn edges_view(v: Seq<Edge>) -> Seq<EdgeV> {
    v.map_values(|e: Edge| edge_view(e))
}

impl Graph {
    pub open spec fn view(&self) -> GraphV {
        GraphV {
            direction: self.direction,
            nodes: nodes_view(self.nodes@),
            edges: edges_view(self.edges@),
        }
    }

    /// Every edge joins two nodes of the graph.
    pub open spec fn wf(&self) -> bool {
        forall|i: int|
            0 <= i < self.edges@.len() ==> (#[trigger] self.edges@[i]).from < self.nodes@.len()
                && self.edges@[i].to < self.nodes@.len()
    }
}

// ───── spec of the parser ─────

/// Index of the first node with the given id.
pub open spec fn is_node_index(nodes: Seq<NodeV>, id: Seq<char>, i: int) -> bool {
    &&& 0 <= i < nodes.len()
    &&& nodes[i].id == id
    &&& forall|j: int| 0 <= j < i ==> (#[trigger] nodes[j]).id != id
}

pub open spec fn node_index(nodes: Seq<NodeV>, id: Seq<char>) -> Option<int> {
    if exists|i: int| is_node_index(nodes, id, i) {
        Some(choose|i: int| is_node_index(nodes, id, i))
    } else {
        None
    }
}

/// Mentioning a node: the first mention declares it (labelled with its id
/// and drawn as a rectangle unless a label is given); a later mention with
/// a label replaces label and shape. Gives the new node list and the node's
/// index.
pub open spec fn register(nodes: Seq<NodeV>, id: Seq<char>, ls: Option<(Seq<char>, NodeShape)>) -> (
    Seq<NodeV>,
    int,
) {
    match node_index(nodes, id) {
        Some(i) => (
            match ls {
                Some((l, sh)) => nodes.update(i, NodeV { id, label: l, shape: sh }),
                None => nodes,
            },
            i,
        ),
        None => (
            nodes.push(
                match ls {
                    Some((l, sh)) => NodeV { id, label: l, shape: sh },
                    None => NodeV { id, label: id, shape: NodeShape::Rectangle },
                },
            ),
            nodes.len() as int,
        ),
    }
}

/// Index of the bracket closing the one opened before `i`, `depth` being the
/// number of brackets open at `i`. A closing bracket with nothing open is
/// ignored.
pub open spec fn matching_from(s: Seq<char>, i: int, depth: int, open: char, close: char) -> Option<
    int,
>
    decreases s.len() - i,
{
    if i < 0 || i >= s.len() {
        None
    } else if s[i] == open {
        matching_from(s, i + 1, depth + 1, open, close)
    } else if s[i] == close {
        if depth == 0 {
            matching_from(s, i + 1, 0, open, close)
        } else if depth == 1 {
            Some(i)
        } else {
            matching_from(s, i + 1, depth - 1, open, close)
        }
    } else {
        matching_from(s, i + 1, depth, open, close)
    }
}

pub open spec fn circle_close() -> Seq<char> {
    seq![')', ')']
}

/// The optional shape and label after a node id that ends at `r`: the
/// label's bounds (before trimming), the shape, and where the text goes on.
pub open spec fn node_shape_at(s: Seq<char>, r: int) -> (Option<(int, int, NodeShape)>, int) {
    if r + 1 < s.len() && s[r] == '(' && s[r + 1] == '(' && first_occ(s, circle_close(), r) is Some {
        let e = first_occ(s, circle_close(), r)->0;
        (Some((r + 2, e, NodeShape::Circle)), e + 2)
    } else if r < s.len() && s[r] == '[' && matching_from(s, r + 1, 1, '[', ']') is Some {
        let e = matching_from(s, r + 1, 1, '[', ']')->0;
        (Some((r + 1, e, NodeShape::Rectangle)), e + 1)
    } else if r < s.len() && s[r] == '{' && matching_from(s, r + 1, 1, '{', '}') is Some {
        let e = matching_from(s, r + 1, 1, '{', '}')->0;
        (Some((r + 1, e, NodeShape::Diamond)), e + 1)
    } else if r < s.len() && s[r] == '(' && matching_from(s, r + 1, 1, '(', ')') is Some {
        let e = matching_from(s, r + 1, 1, '(', ')')->0;
        (Some((r + 1, e, NodeShape::Rounded)), e + 1)
    } else {
        (None, r)
    }
}

/// A node reference at `p` (after optional whitespace): the id's bounds,
/// the optional shaped label, and where the text goes on.
pub open spec fn node_ref(s: Seq<char>, p: int) -> Option<(int, int, Option<(int, int, NodeShape)>, int)> {
    let a = run_end(s, p, CharClass::Ws);
    let b = run_end(s, a, CharClass::IdChar);
    if a < b {
        let (ls, next) = node_shape_at(s, b);
        Some((a, b, ls, next))
    } else {
        None
    }
}

/// The label and shape a node reference gives, if any.
pub open spec fn shaped_label(s: Seq<char>, ls: Option<(int, int, NodeShape)>) -> Option<
    (Seq<char>, NodeShape),
> {
    match ls {
        Some((a, b, sh)) => Some((trim(s.subrange(a, b)), sh)),
        None => None,
    }
}

pub open spec fn arrow_kinds() -> Seq<Seq<char>> {
    seq![
        seq!['-', '-', '-', '>'],
        seq!['-', '-', '>'],
        seq!['-', '-', '-'],
        seq!['-', '.', '-', '>'],
        seq!['=', '=', '>'],
    ]
}

/// The first of the arrow kinds, in the order [`arrow_kinds`] lists them,
/// that occurs at `a`.
pub open spec fn arrow_kind_at(s: Seq<char>, a: int, k: int) -> bool {
    &&& 0 <= k < arrow_kinds().len()
    &&& occurs_at(s, arrow_kinds()[k], a)
    &&& forall|j: int| 0 <= j < k ==> !occurs_at(s, #[trigger] arrow_kinds()[j], a)
}

/// After an arrow that ends at `r`: an optional `|label|`.
pub open spec fn arrow_label(s: Seq<char>, r: int) -> (Option<(int, int)>, int) {
    let t = run_end(s, r, CharClass::Ws);
    if t < s.len() && s[t] == '|' && first_occ(s, seq!['|'], t + 1) is Some {
        let e = first_occ(s, seq!['|'], t + 1)->0;
        (Some((t + 1, e)), e + 1)
    } else {
        (None, r)
    }
}

/// An arrow at `p` (after optional whitespace): the bounds of its label, if
/// any, before trimming, and where the text goes on. `-- text -->` carries
/// its label inline; the other kinds may be followed by `|label|`.
pub open spec fn arrow_at(s: Seq<char>, p: int) -> Option<(Option<(int, int)>, int)> {
    let a = run_end(s, p, CharClass::Ws);
    if occurs_at(s, seq!['-', '-', ' '], a) && first_occ(s, seq!['-', '-', '>'], a + 3) is Some {
        let q = first_occ(s, seq!['-', '-', '>'], a + 3)->0;
        Some((Some((a + 3, q)), q + 3))
    } else if exists|k: int| arrow_kind_at(s, a, k) {
        let k = choose|k: int| arrow_kind_at(s, a, k);
        Some(arrow_label(s, a + arrow_kinds()[k].len()))
    } else {
        None
    }
}

pub open spec fn label_text(s: Seq<char>, l: Option<(int, int)>) -> Option<Seq<char>> {
    match l {
        Some((a, b)) => Some(trim(s.subrange(a, b))),
        None => None,
    }
}

/// The rest of an edge chain from `p` on, `prev` being the node the next
/// edge leaves from.
pub open spec fn chain(s: Seq<char>, p: int, prev: int, nodes: Seq<NodeV>, edges: Seq<EdgeV>) -> (
    Seq<NodeV>,
    Seq<EdgeV>,
)
    decreases s.len() - p,
{
    if p < 0 || p > s.len() {
        (nodes, edges)
    } else {
        match arrow_at(s, p) {
            None => (nodes, edges),
            Some((l, q)) => match node_ref(s, q) {
                None => (nodes, edges),
                Some((a, b, ls, next)) => {
                    let (n2, j) = register(nodes, s.subrange(a, b), shaped_label(s, ls));
                    let e2 = edges.push(EdgeV { from: prev, to: j, label: label_text(s, l) });
                    if p < next <= s.len() {
                        chain(s, next, j, n2, e2)
                    } else {
                        (n2, e2)
                    }
                },
            },
        }
    }
}

/// One statement line: a node reference followed by a chain of edges.
pub open spec fn statement(s: Seq<char>, nodes: Seq<NodeV>, edges: Seq<EdgeV>) -> (
    Seq<NodeV>,
    Seq<EdgeV>,
) {
    match node_ref(s, 0) {
        None => (nodes, edges),
        Some((a, b, ls, next)) => {
            let (n2, j) = register(nodes, s.subrange(a, b), shaped_label(s, ls));
            chain(s, next, j, n2, edges)
        },
    }
}

pub open spec fn starts_with(s: Seq<char>, pat: Seq<char>) -> bool {
    occurs_at(s, pat, 0)
}

/// A line that sets styling or grouping, which the renderer ignores.
pub open spec fn is_directive(t: Seq<char>) -> bool {
    ||| starts_with(t, seq!['s', 'u', 'b', 'g', 'r', 'a', 'p', 'h'])
    ||| t == seq!['e', 'n', 'd']
    ||| starts_with(t, seq!['s', 't', 'y', 'l', 'e', ' '])
    ||| starts_with(t, seq!['c', 'l', 'a', 's', 's', 'D', 'e', 'f', ' '])
    ||| starts_with(t, seq!['c', 'l', 'a', 's', 's', ' '])
    ||| starts_with(t, seq!['l', 'i', 'n', 'k', 'S', 't', 'y', 'l', 'e', ' '])
    ||| starts_with(t, seq!['c', 'l', 'i', 'c', 'k', ' '])
}

pub open spec fn is_header(t: Seq<char>) -> bool {
    starts_with(t, seq!['g', 'r', 'a', 'p', 'h', ' ']) || starts_with(
        t,
        seq!['f', 'l', 'o', 'w', 'c', 'h', 'a', 'r', 't', ' '],
    )
}

/// The direction a header line declares: its second word, `LR` or `RL`
/// meaning left to right and anything else top down. A header with one
/// word keeps the direction.
pub open spec fn header_direction(t: Seq<char>, d: Direction) -> Direction {
    let rest = t.skip(run_end(t, 0, CharClass::Except(' ')));
    match first_token(rest) {
        Some(w) => if w == seq!['L', 'R'] || w == seq!['R', 'L'] {
            Direction::LeftRight
        } else {
            Direction::TopDown
        },
        None => d,
    }
}

/// The effect of one (trimmed) line of the source.
pub open spec fn parse_line(t: Seq<char>, g: GraphV) -> GraphV {
    if t.len() == 0 || starts_with(t, seq!['%', '%']) {
        g
    } else if is_header(t) {
        GraphV { direction: header_direction(t, g.direction), ..g }
    } else if is_directive(t) {
        g
    } else {
        let (n, e) = statement(t, g.nodes, g.edges);
        GraphV { direction: g.direction, nodes: n, edges: e }
    }
}

/// The graph built from the lines of `code` from position `p` on.
pub open spec fn parse_lines(code: Seq<char>, p: int, g: GraphV) -> GraphV
    decreases code.len() - p,
{
    if p < 0 || p >= code.len() {
        g
    } else {
        let le = run_end(code, p, CharClass::Except('\n'));
        if p <= le < code.len() {
            parse_lines(code, le + 1, parse_line(trim(code.subrange(p, le)), g))
        } else if le == code.len() {
            parse_line(trim(code.subrange(p, le)), g)
        } else {
            g
        }
    }
}

pub open spec fn empty_graph() -> GraphV {
    GraphV { direction: Direction::TopDown, nodes: Seq::empty(), edges: Seq::empty() }
}

/// The flowchart a source text describes, when it declares at least one node.
pub open spec fn parse_spec(code: Seq<char>) -> Option<GraphV> {
    let g = parse_lines(code, 0, empty_graph());
    if g.nodes.len() == 0 {
        None
    } else {
        Some(g)
    }
}

// ───── the parser ─────

fn text_of(v: Vec<char>) -> (r: Vec<char>)
    ensures
        r@ == v@,
{
    v
}

fn matching_exec(s: &Vec<char>, from: usize, open: char, close: char) -> (r: Option<usize>)
    requires
        from <= s.len(),
        open != close,
    ensures
        match r {
            Some(e) => matching_from(s@, from as int, 1, open, close) == Some(e as int) && from <= e
                < s.len(),
            None => matching_from(s@, from as int, 1, open, close) is None,
        },
{
    let mut i = from;
    let mut depth: u128 = 1;
    while i < s.len()
        invariant
            from <= i <= s.len(),
            depth <= (i - from) + 1,
            matching_from(s@, i as int, depth as int, open, close) == matching_from(
                s@,
                from as int,
                1,
                open,
                close,
            ),
        decreases s.len() - i,
    {
        let c = s[i];
        if c == open {
            depth = depth + 1;
        } else if c == close {
            if depth == 0 {
            } else if depth == 1 {
                return Some(i);
            } else {
                depth = depth - 1;
            }
        }
        i = i + 1;
    }
    None
}

pub open spec fn shape_view(o: Option<(usize, usize, NodeShape)>) -> Option<(int, int, NodeShape)> {
    match o {
        Some((a, b, sh)) => Some((a as int, b as int, sh)),
        None => None,
    }
}

fn node_shape_exec(s: &Vec<char>, r: usize) -> (res: (Option<(usize, usize, NodeShape)>, usize))
    requires
        r <= s.len(),
    ensures
        (shape_view(res.0), res.1 as int) == node_shape_at(s@, r as int),
        r <= res.1 <= s.len(),
        match res.0 {
            Some((a, b, _)) => r <= a <= b <= s.len(),
            None => res.1 == r,
        },
{
    if s.len() - r >= 2 && s[r] == '(' && s[r + 1] == '(' {
        let close = text_of(vec![')', ')']);
        assert(close@ =~= circle_close());
        match find_first(s, &close, r) {
            Some(e) => {
                proof {
                    let k = first_occ(s@, circle_close(), r as int)->0;
                    assert(is_first_occ(s@, circle_close(), r as int, k));
                    assert(occurs_at(s@, circle_close(), e as int));
                    if e < r + 2 {
                        if e == r {
                            assert(s@.subrange(e as int, e + 2)[0] == ')');
                        } else {
                            assert(s@.subrange(e as int, e + 2)[0] == ')');
                        }
                    }
                }
                return (Some((r + 2, e, NodeShape::Circle)), e + 2);
            },
            None => {},
        }
    }
    if r < s.len() && s[r] == '[' {
        if let Some(e) = matching_exec(s, r + 1, '[', ']') {
            return (Some((r + 1, e, NodeShape::Rectangle)), e + 1);
        }
    }
    if r < s.len() && s[r] == '{' {
        if let Some(e) = matching_exec(s, r + 1, '{', '}') {
            return (Some((r + 1, e, NodeShape::Diamond)), e + 1);
        }
    }
    if r < s.len() && s[r] == '(' {
        if let Some(e) = matching_exec(s, r + 1, '(', ')') {
            return (Some((r + 1, e, NodeShape::Rounded)), e + 1);
        }
    }
    (None, r)
}

pub open spec fn node_ref_view(o: Option<(usize, usize, Option<(usize, usize, NodeShape)>, usize)>) -> Option<
    (int, int, Option<(int, int, NodeShape)>, int),
> {
    match o {
        Some((a, b, ls, n)) => Some((a as int, b as int, shape_view(ls), n as int)),
        None => None,
    }
}

fn node_ref_exec(s: &Vec<char>, p: usize) -> (r: Option<(usize, usize, Option<(usize, usize, NodeShape)>, usize)>)
    requires
        p <= s.len(),
    ensures
        node_ref_view(r) == node_ref(s@, p as int),
        match r {
            Some((a, b, ls, n)) => p <= a < b <= n <= s.len() && match ls {
                Some((x, y, _)) => x <= y <= s.len(),
                None => true,
            },
            None => true,
        },
{
    let a = scan_run(s, p, CharClass::Ws);
    let b = scan_run(s, a, CharClass::IdChar);
    if a < b {
        let (ls, next) = node_shape_exec(s, b);
        Some((a, b, ls, next))
    } else {
        None
    }
}

pub open spec fn range_view(o: Option<(usize, usize)>) -> Option<(int, int)> {
    match o {
        Some((a, b)) => Some((a as int, b as int)),
        None => None,
    }
}

fn arrow_label_exec(s: &Vec<char>, r: usize) -> (res: (Option<(usize, usize)>, usize))
    requires
        r <= s.len(),
    ensures
        (range_view(res.0), res.1 as int) == arrow_label(s@, r as int),
        r <= res.1 <= s.len(),
        match res.0 {
            Some((a, b)) => a <= b <= s.len(),
            None => true,
        },
{
    let t = scan_run(s, r, CharClass::Ws);
    if t < s.len() && s[t] == '|' {
        let bar = text_of(vec!['|']);
        assert(bar@ =~= seq!['|']);
        if let Some(e) = find_first(s, &bar, t + 1) {
            return (Some((t + 1, e)), e + 1);
        }
    }
    (None, r)
}

fn arrow_kind_vec(k: usize) -> (v: Vec<char>)
    requires
        k < 5,
    ensures
        v@ == arrow_kinds()[k as int],
        3 <= v.len() <= 4,
{
    let v = if k == 0 {
        vec!['-', '-', '-', '>']
    } else if k == 1 {
        vec!['-', '-', '>']
    } else if k == 2 {
        vec!['-', '-', '-']
    } else if k == 3 {
        vec!['-', '.', '-', '>']
    } else {
        vec!['=', '=', '>']
    };
    assert(v@ =~= arrow_kinds()[k as int]);
    v
}

pub open spec fn arrow_view(o: Option<(Option<(usize, usize)>, usize)>) -> Option<(Option<(int, int)>, int)> {
    match o {
        Some((l, n)) => Some((range_view(l), n as int)),
        None => None,
    }
}

fn arrow_exec(s: &Vec<char>, p: usize) -> (r: Option<(Option<(usize, usize)>, usize)>)
    requires
        p <= s.len(),
    ensures
        arrow_view(r) == arrow_at(s@, p as int),
        match r {
            Some((l, n)) => p < n <= s.len() && match l {
                Some((a, b)) => a <= b <= s.len(),
                None => true,
            },
            None => true,
        },
{
    let a = scan_run(s, p, CharClass::Ws);
    let dash = text_of(vec!['-', '-', ' ']);
    assert(dash@ =~= seq!['-', '-', ' ']);
    if matches_at(s, &dash, a) {
        let head = text_of(vec!['-', '-', '>']);
        assert(head@ =~= seq!['-', '-', '>']);
        if let Some(q) = find_first(s, &head, a + 3) {
            proof {
                let k = first_occ(s@, seq!['-', '-', '>'], a + 3)->0;
                assert(is_first_occ(s@, seq!['-', '-', '>'], a + 3, k));
            }
            return Some((Some((a + 3, q)), q + 3));
        }
    }
    let mut k: usize = 0;
    while k < 5
        invariant
            k <= 5,
            p <= a <= s.len(),
            a == run_end(s@, p as int, CharClass::Ws),
            !(occurs_at(s@, seq!['-', '-', ' '], a as int) && first_occ(s@, seq!['-', '-', '>'], a + 3) is Some),
            forall|j: int| 0 <= j < k ==> !occurs_at(s@, #[trigger] arrow_kinds()[j], a as int),
        decreases 5 - k,
    {
        let kind = arrow_kind_vec(k);
        if matches_at(s, &kind, a) {
            proof {
                assert(arrow_kind_at(s@, a as int, k as int));
                let c = choose|c: int| arrow_kind_at(s@, a as int, c);
                if c < k {
                } else if k < c {
                    assert(!occurs_at(s@, arrow_kinds()[k as int], a as int));
                }
            }
            let (l, n) = arrow_label_exec(s, a + kind.len());
            return Some((l, n));
        }
        k = k + 1;
    }
    proof {
        assert forall|c: int| !arrow_kind_at(s@, a as int, c) by {
            if 0 <= c < 5 {
                assert(!occurs_at(s@, arrow_kinds()[c], a as int));
            }
        }
    }
    None
}

pub open spec fn shaped_view(o: Option<(String, NodeShape)>) -> Option<(Seq<char>, NodeShape)> {
    match o {
        Some((l, sh)) => Some((l@, sh)),
        None => None,
    }
}

fn trimmed_string(s: &Vec<char>, a: usize, b: usize) -> (r: String)
    requires
        a <= b <= s.len(),
    ensures
        r@ == trim(s@.subrange(a as int, b as int)),
{
    let part = slice_chars(s, a, b);
    let (x, y) = trim_bounds(&part);
    let t = slice_chars(&part, x, y);
    string_of(&t)
}

fn shaped_label_exec(s: &Vec<char>, ls: Option<(usize, usize, NodeShape)>) -> (r: Option<(String, NodeShape)>)
    requires
        match ls {
            Some((a, b, _)) => a <= b <= s.len(),
            None => true,
        },
    ensures
        shaped_view(r) == shaped_label(s@, shape_view(ls)),
{
    match ls {
        Some((a, b, sh)) => Some((trimmed_string(s, a, b), sh)),
        None => None,
    }
}

fn label_text_exec(s: &Vec<char>, l: Option<(usize, usize)>) -> (r: Option<String>)
    requires
        match l {
            Some((a, b)) => a <= b <= s.len(),
            None => true,
        },
    ensures
        opt_text(r) == label_text(s@, range_view(l)),
{
    match l {
        Some((a, b)) => Some(trimmed_string(s, a, b)),
        None => None,
    }
}

fn register_node(nodes: &mut Vec<Node>, id: String, ls: Option<(String, NodeShape)>) -> (j: usize)
    ensures
        (nodes_view(final(nodes)@), j as int) == register(nodes_view(old(nodes)@), id@, shaped_view(ls)),
        j < final(nodes)@.len(),
        final(nodes)@.len() >= old(nodes)@.len(),
{
    let ghost nv = nodes_view(nodes@);
    let mut i: usize = 0;
    while i < nodes.len()
        invariant
            i <= nodes.len(),
            nodes@ == old(nodes)@,
            nv == nodes_view(nodes@),
            forall|j: int| 0 <= j < i ==> (#[trigger] nv[j]).id != id@,
        decreases nodes.len() - i,
    {
        if nodes[i].id == id {
            proof {
                assert(nv[i as int].id == id@);
                assert(is_node_index(nv, id@, i as int));
                let k = choose|k: int| is_node_index(nv, id@, k);
                if i < k {
                    assert(nv[i as int].id == id@);
                }
            }
            match ls {
                Some((l, sh)) => {
                    nodes.set(i, Node { id, label: l, shape: sh });
                    proof {
                        assert(nodes_view(nodes@) =~= nv.update(
                            i as int,
                            NodeV { id: nv[i as int].id, label: l@, shape: sh },
                        ));
                    }
                },
                None => {},
            }
            return i;
        }
        i = i + 1;
    }
    proof {
        assert forall|k: int| !is_node_index(nv, id@, k) by {
            if 0 <= k < nv.len() {
                assert(nv[k].id != id@);
            }
        }
    }
    let node = match ls {
        Some((l, sh)) => Node { id, label: l, shape: sh },
        None => {
            let label = id.clone();
            Node { id, label, shape: NodeShape::Rectangle }
        },
    };
    let j = nodes.len();
    nodes.push(node);
    proof {
        assert(nodes_view(nodes@) =~= nv.push(node_view(node)));
    }
    j
}

/// Every edge of `edges` joins two of the first `n` nodes.
pub open spec fn edges_within(edges: Seq<Edge>, n: int) -> bool {
    forall|i: int| 0 <= i < edges.len() ==> (#[trigger] edges[i]).from < n && edges[i].to < n
}

fn parse_statement(t: &Vec<char>, nodes: &mut Vec<Node>, edges: &mut Vec<Edge>)
    requires
        edges_within(old(edges)@, old(nodes)@.len() as int),
    ensures
        (nodes_view(final(nodes)@), edges_view(final(edges)@)) == statement(
            t@,
            nodes_view(old(nodes)@),
            edges_view(old(edges)@),
        ),
        edges_within(final(edges)@, final(nodes)@.len() as int),
        final(nodes)@.len() >= old(nodes)@.len(),
{
    let (a, b, ls, next) = match node_ref_exec(t, 0) {
        None => return,
        Some(r) => r,
    };
    let id = string_of_range(t, a, b);
    let lsv = shaped_label_exec(t, ls);
    let mut prev = register_node(nodes, id, lsv);
    let mut p = next;
    let ghost goal = statement(t@, nodes_view(old(nodes)@), edges_view(old(edges)@));
    while p <= t.len()
        invariant
            p <= t.len(),
            prev < nodes@.len(),
            nodes@.len() >= old(nodes)@.len(),
            edges_within(edges@, nodes@.len() as int),
            chain(t@, p as int, prev as int, nodes_view(nodes@), edges_view(edges@)) == goal,
            goal == statement(t@, nodes_view(old(nodes)@), edges_view(old(edges)@)),
        decreases t.len() - p,
    {
        let (l, q) = match arrow_exec(t, p) {
            None => {
                assert(chain(t@, p as int, prev as int, nodes_view(nodes@), edges_view(edges@)) == (
                nodes_view(nodes@), edges_view(edges@)));
                return;
            },
            Some(r) => r,
        };
        let (a, b, ls, nx) = match node_ref_exec(t, q) {
            None => {
                assert(chain(t@, p as int, prev as int, nodes_view(nodes@), edges_view(edges@)) == (
                nodes_view(nodes@), edges_view(edges@)));
                return;
            },
            Some(r) => r,
        };
        let id = string_of_range(t, a, b);
        let lsv = shaped_label_exec(t, ls);
        let lbl = label_text_exec(t, l);
        let ghost ev = edges_view(edges@);
        let j = register_node(nodes, id, lsv);
        let edge = Edge { from: prev, to: j, label: lbl };
        edges.push(edge);
        proof {
            assert(edges_view(edges@) =~= ev.push(edge_view(edge)));
        }
        prev = j;
        p = nx;
    }
}

fn string_of_range(v: &Vec<char>, lo: usize, hi: usize) -> (s: String)
    requires
        lo <= hi <= v.len(),
    ensures
        s@ == v@.subrange(lo as int, hi as int),
{
    let part = slice_chars(v, lo, hi);
    string_of(&part)
}


fn starts_with_exec(t: &Vec<char>, pat: Vec<char>) -> (b: bool)
    ensures
        b == starts_with(t@, pat@),
{
    matches_at(t, &pat, 0)
}

fn text_is(t: &Vec<char>, pat: Vec<char>) -> (b: bool)
    ensures
        b == (t@ == pat@),
{
    if t.len() != pat.len() {
        return false;
    }
    let r = matches_at(t, &pat, 0);
    proof {
        if r {
            assert(t@ =~= t@.subrange(0, pat@.len() as int));
        } else {
            assert(t@.subrange(0, pat@.len() as int) =~= t@);
        }
    }
    r
}

fn is_directive_exec(t: &Vec<char>) -> (b: bool)
    ensures
        b == is_directive(t@),
{
    let r1 = starts_with_exec(t, vec!['s', 'u', 'b', 'g', 'r', 'a', 'p', 'h']);
    let r2 = text_is(t, vec!['e', 'n', 'd']);
    let r3 = starts_with_exec(t, vec!['s', 't', 'y', 'l', 'e', ' ']);
    let r4 = starts_with_exec(t, vec!['c', 'l', 'a', 's', 's', 'D', 'e', 'f', ' ']);
    let r5 = starts_with_exec(t, vec!['c', 'l', 'a', 's', 's', ' ']);
    let r6 = starts_with_exec(t, vec!['l', 'i', 'n', 'k', 'S', 't', 'y', 'l', 'e', ' ']);
    let r7 = starts_with_exec(t, vec!['c', 'l', 'i', 'c', 'k', ' ']);
    r1 || r2 || r3 || r4 || r5 || r6 || r7
}

fn header_direction_exec(t: &Vec<char>, d: Direction) -> (r: Direction)
    ensures
        r == header_direction(t@, d),
{
    let e = scan_run(t, 0, CharClass::Except(' '));
    let rest = slice_chars(t, e, t.len());
    assert(rest@ =~= t@.skip(e as int));
    match first_token_of(&rest) {
        Some(w) => {
            let lr = text_is(&w, vec!['L', 'R']);
            let rl = text_is(&w, vec!['R', 'L']);
            if lr || rl {
                Direction::LeftRight
            } else {
                Direction::TopDown
            }
        },
        None => d,
    }
}

/// Applies one trimmed source line to the graph under construction.
fn parse_line_exec(t: &Vec<char>, direction: &mut Direction, nodes: &mut Vec<Node>, edges: &mut Vec<Edge>)
    requires
        edges_within(old(edges)@, old(nodes)@.len() as int),
    ensures
        parse_line(
            t@,
            GraphV {
                direction: *old(direction),
                nodes: nodes_view(old(nodes)@),
                edges: edges_view(old(edges)@),
            },
        ) == (GraphV {
            direction: *final(direction),
            nodes: nodes_view(final(nodes)@),
            edges: edges_view(final(edges)@),
        }),
        edges_within(final(edges)@, final(nodes)@.len() as int),
{
    if t.len() == 0 || starts_with_exec(t, vec!['%', '%']) {
        return;
    }
    let graph_kw = starts_with_exec(t, vec!['g', 'r', 'a', 'p', 'h', ' ']);
    let flow_kw = starts_with_exec(t, vec!['f', 'l', 'o', 'w', 'c', 'h', 'a', 'r', 't', ' ']);
    if graph_kw || flow_kw {
        *direction = header_direction_exec(t, *direction);
        return;
    }
    if is_directive_exec(t) {
        return;
    }
    parse_statement(t, nodes, edges);
}

/// Parses the flowchart in `code`; see [`parse_spec`]. Gives `None` when
/// the text declares no node.
pub fn parse_mermaid(code: &str) -> (r: Option<Graph>)
    ensures
        match r {
            Some(g) => parse_spec(code@) == Some(g.view()) && g.wf(),
            None => parse_spec(code@) is None,
        },
{
    let s = chars_of(code);
    let mut direction = Direction::TopDown;
    let mut nodes: Vec<Node> = Vec::new();
    let mut edges: Vec<Edge> = Vec::new();
    let mut p: usize = 0;
    proof {
        assert(nodes_view(nodes@) =~= Seq::<NodeV>::empty());
        assert(edges_view(edges@) =~= Seq::<EdgeV>::empty());
    }
    while p < s.len()
        invariant
            p <= s.len(),
            edges_within(edges@, nodes@.len() as int),
            parse_lines(
                s@,
                p as int,
                GraphV { direction, nodes: nodes_view(nodes@), edges: edges_view(edges@) },
            ) == parse_lines(s@, 0, empty_graph()),
        decreases s.len() - p,
    {
        let le = scan_run(&s, p, CharClass::Except('\n'));
        let line = slice_chars(&s, p, le);
        let (lo, hi) = trim_bounds(&line);
        let t = slice_chars(&line, lo, hi);
        parse_line_exec(&t, &mut direction, &mut nodes, &mut edges);
        if le < s.len() {
            p = le + 1;
        } else {
            p = s.len();
        }
    }
    if nodes.len() == 0 {
        return None;
    }
    let g = Graph { direction, nodes, edges };
    Some(g)
}


// ───── drawing ─────

/// Renders Mermaid flowchart code as a diagram: rows of styled spans and
/// their common width. Gives `None` when the code declares no node (or the
/// graph has more nodes times edges than a 64-bit count holds).
pub fn render_mermaid(code: &str, theme: &Theme) -> (r: Option<(Vec<Vec<StyledSpan>>, usize)>)
    ensures
        r is Some <==> (parse_spec(code@) matches Some(g) && g.nodes.len() * g.edges.len() <= u64::MAX),
        r matches Some(d) ==> well_drawn(d),
        r matches Some(d) ==> (parse_spec(code@) matches Some(g) && drawn_as(g, *theme, d)),
{
    let graph = match parse_mermaid(code) {
        Some(g) => g,
        None => return None,
    };
    let n = graph.nodes.len() as u128;
    let m = graph.edges.len() as u128;
    proof {
        assert(n * m <= 0xffff_ffff_ffff_ffff_ffff_ffff_ffff_ffff) by (nonlinear_arith)
            requires n <= 0xffff_ffff_ffff_ffffu128, m <= 0xffff_ffff_ffff_ffffu128;
    }
    if n * m > 0xffff_ffff_ffff_ffff {
        return None;
    }
    proof {
        assert(graph.view().nodes.len() == graph.nodes@.len());
        assert(graph.view().edges.len() == graph.edges@.len());
    }
    match graph.direction {
        Direction::TopDown => render_td(&graph, theme),
        Direction::LeftRight => render_lr(&graph, theme),
    }
}

/// A header line (`graph ...` or `flowchart ...`) adds no node and no edge:
/// it only sets the direction, and `flowchart` sets it exactly as `graph`
/// does for the same rest of the line.
pub proof fn lemma_header_adds_nothing(r: Seq<char>, g: GraphV)
    ensures
        ({
            let fc = seq!['f', 'l', 'o', 'w', 'c', 'h', 'a', 'r', 't', ' '] + r;
            let gr = seq!['g', 'r', 'a', 'p', 'h', ' '] + r;
            &&& parse_line(fc, g).nodes == g.nodes
            &&& parse_line(fc, g).edges == g.edges
            &&& parse_line(gr, g).nodes == g.nodes
            &&& parse_line(gr, g).edges == g.edges
            &&& parse_line(fc, g) == parse_line(gr, g)
        }),
{
    let fkw = seq!['f', 'l', 'o', 'w', 'c', 'h', 'a', 'r', 't', ' '];
    let gkw = seq!['g', 'r', 'a', 'p', 'h', ' '];
    let fc = fkw + r;
    let gr = gkw + r;
    assert(fc.subrange(0, 10) =~= fkw);
    assert(gr.subrange(0, 6) =~= gkw);
    assert(starts_with(fc, fkw));
    assert(starts_with(gr, gkw));
    assert(is_header(fc));
    assert(is_header(gr));
    assert(is_run_end(fc, 0, CharClass::Except(' '), 9));
    assert(is_run_end(gr, 0, CharClass::Except(' '), 5));
    lemma_run_end_unique(fc, 0, CharClass::Except(' '), 9);
    lemma_run_end_unique(gr, 0, CharClass::Except(' '), 5);
    assert(fc.skip(9) =~= gr.skip(5));
}

} // verus!
