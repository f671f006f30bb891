use mdviewer::diagram::{parse_mermaid, render_mermaid, Direction, Edge, Graph, Node, NodeShape};
use mdviewer::layout::{classify_feedback_edges, layout, plan_feedback};
use mdviewer::theme::Theme;

fn render_text(code: &str) -> String {
    let theme = Theme::dark();
    let (rows, _) = render_mermaid(code, &theme).expect("diagram should render");
    rows.into_iter()
        .map(|row| {
            row.into_iter()
                .map(|span| span.text)
                .collect::<String>()
                .trim_end()
                .to_string()
        })
        .collect::<Vec<_>>()
        .join("\n")
}

/// Compare a render against a snapshot written at column 0 inside a raw
/// string literal (one leading newline, trailing blank rows ignored).
fn assert_render(code: &str, expected: &str) {
    let text = render_text(code);
    let expected = expected.strip_prefix('\n').unwrap_or(expected);
    assert_eq!(
        text.trim_end(),
        expected.trim_end(),
        "\n--- rendered ---\n{text}\n--- expected ---\n{expected}"
    );
}

/// A linear chain N0 -> N1 -> ... -> N{n-1}, optionally closed into a cycle.
fn chain_graph(n: usize, close_cycle: bool) -> Graph {
    let nodes: Vec<Node> = (0..n)
        .map(|i| Node {
            id: format!("N{i}"),
            label: format!("N{i}"),
            shape: NodeShape::Rectangle,
        })
        .collect();
    let mut edges: Vec<Edge> = (1..n)
        .map(|i| Edge {
            from: i - 1,
            to: i,
            label: None,
        })
        .collect();
    if close_cycle {
        edges.push(Edge {
            from: n - 1,
            to: 0,
            label: None,
        });
    }
    Graph {
        direction: Direction::TopDown,
        nodes,
        edges,
    }
}

// ── Cycle classification ──

#[test]
fn closing_edge_of_a_declared_cycle_is_the_feedback_edge() {
    let graph = parse_mermaid("graph TD\n    A --> B\n    B --> C\n    C --> A\n").unwrap();
    let feedback = classify_feedback_edges(&graph);
    assert_eq!(feedback.into_iter().collect::<Vec<_>>(), vec![2]);
}

#[test]
fn deep_chain_does_not_overflow_the_stack() {
    let acyclic = chain_graph(200_000, false);
    assert!(classify_feedback_edges(&acyclic).is_empty());

    let cyclic = chain_graph(200_000, true);
    let feedback = classify_feedback_edges(&cyclic);
    assert_eq!(feedback.len(), 1);
    assert!(feedback.contains(&(cyclic.edges.len() - 1)));
}

#[test]
fn longer_feedback_edges_take_outer_lanes() {
    let graph = parse_mermaid(
        "graph TD\n    Start --> Check\n    Check --> Work\n    Work --> Done\n    Done --> Start\n    Work --> Check\n",
    )
    .unwrap();
    let layout = layout(&graph);
    // Work -> Check spans one layer, Done -> Start spans three.
    assert_eq!(layout.feedback, vec![4, 3]);
}

#[test]
fn feedback_endpoints_are_counted_per_layer() {
    let graph = parse_mermaid("graph TD\n    S --> A\n    S --> B\n    A --> S\n    B --> S\n")
        .unwrap();
    let layout = layout(&graph);
    let feedback = plan_feedback(&graph, &layout);
    // Both back edges leave the second layer and enter the first.
    assert_eq!(feedback.exits, vec![0, 2]);
    assert_eq!(feedback.entries, vec![1, 0]);
    // Two sources in one layer get distinct ranks.
    let mut ranks: Vec<usize> = feedback.plans.iter().map(|p| p.src_rank).collect();
    ranks.sort_unstable();
    assert_eq!(ranks, vec![0, 1]);
}

// ── Acyclic rendering must not change ──

#[test]
fn acyclic_top_down_diagram() {
    assert_render(
        "graph TD\n    A[Start] --> B{Decision}\n    B -->|Yes| C[Action 1]\n    B -->|No| D[Action 2]\n    C --> E[End]\n    D --> E\n",
        r#"
             ┌───────┐
             │ Start │
             └───────┘
                 │
                 │
                 │
                 ▼
          ◆────────────◆
          │  Decision  │
          ◆────────────◆
                 │
           Yes   │  No
         ┌───────┴───────┐
         ▼               ▼
   ┌──────────┐    ┌──────────┐
   │ Action 1 │    │ Action 2 │
   └──────────┘    └──────────┘
         │               │
         │               │
         └───────┬───────┘
                 ▼
              ┌─────┐
              │ End │
              └─────┘
"#,
    );
}

#[test]
fn acyclic_left_right_diagram() {
    assert_render(
        "graph LR\n    A[Start] --> B{Decision}\n    B -->|Yes| C[Action 1]\n    B -->|No| D[Do]\n    C --> E[End]\n    D --> E\n",
        r#"

                                     ┌──────────┐
                                  ┌─YesAction 1 │───┐
  ┌───────┐      ◆────────────◆   │  └──────────┘   │  ┌─────┐
  │ Start │─────▶│  Decision  │───┤                 ├─▶│ End │
  └───────┘      ◆────────────◆   │ No              │  └─────┘
                                  │     ┌─────┐     │
                                  └────▶│ Do  │─────┘
                                        └─────┘

"#,
    );
}

// ── Cycles ──

#[test]
fn top_down_cycle_wraps_around_the_right() {
    assert_render(
        "graph TB\n    Loop --> Execute\n    Execute --> Repeat\n    Repeat --> Loop\n",
        r#"
          ┌───────┐
          ▼       │
    ┌──────┐      │
    │ Loop │      │
    └──────┘      │
        │         │
        │         │
        │         │
        ▼         │
   ┌─────────┐    │
   │ Execute │    │
   └─────────┘    │
        │         │
        │         │
        │         │
        ▼         │
   ┌────────┐     │
   │ Repeat │     │
   └────────┘     │
    │             │
    └─────────────┘
"#,
    );
}

#[test]
fn left_right_cycle_wraps_underneath() {
    assert_render(
        "graph LR\n    A[Start] --> B[End]\n    B --> A\n",
        r#"

  ┌───────┐      ┌─────┐
  │ Start │─────▶│ End │
  └───────┘      └─────┘
   ▲                  └─┐
 ┌─┘                    │
 └──────────────────────┘

"#,
    );
}

#[test]
fn self_loop_top_down_is_a_closed_loop() {
    assert_render(
        "graph TD\n    A[Self] --> A\n",
        r#"
         ┌─────┐
         ▼     │
   ┌──────┐    │
   │ Self │    │
   └──────┘    │
    │          │
    └──────────┘
"#,
    );
}

#[test]
fn self_loop_left_right_is_a_closed_loop() {
    assert_render(
        "graph LR\n    A[Self] --> A\n",
        r#"

  ┌──────┐
  │ Self │
  └──────┘
   ▲    └─┐
 ┌─┘      │
 └────────┘

"#,
    );
}

// ── Routes must not pass through other nodes ──

#[test]
fn feedback_edge_avoids_sibling_nodes_top_down() {
    // The back edge into B leaves D, wraps around the gutter and comes back
    // through a gap row. It never touches the row C is drawn on.
    assert_render(
        "graph TD\n    A --> B\n    A --> C\n    B --> D\n    C --> D\n    D --> B\n",
        r#"
         ┌─────┐
         │  A  │
         └─────┘
            │
            │
      ┌─────┴────┐
      │ ┌────────┼───────┐
      ▼ ▼        ▼       │
   ┌─────┐    ┌─────┐    │
   │  B  │    │  C  │    │
   └─────┘    └─────┘    │
      │          │       │
      │          │       │
      └─────┬────┘       │
            ▼            │
         ┌─────┐         │
         │  D  │         │
         └─────┘         │
          │              │
          └──────────────┘
"#,
    );
}

#[test]
fn feedback_edge_avoids_stacked_nodes_left_right() {
    // C sits directly below B; the route into B rises beside their column.
    assert_render(
        "graph LR\n    A --> B\n    A --> C\n    B --> D\n    C --> D\n    D --> B\n",
        r#"

               ┌─────┐
            ┌─▶│  B  │───┐
  ┌─────┐   │  └─────┘   │  ┌─────┐
  │  A  │───┤   ▲        ├─▶│  D  │
  └─────┘   │ ┌─┘        │  └─────┘
            │ │┌─────┐   │       └─┐
            └─▶│  C  │───┘         │
              │└─────┘             │
              │                    │
              │                    │
              └────────────────────┘

"#,
    );
}

#[test]
fn feedback_route_clears_a_wider_stacked_node_left_right() {
    // B is narrower than the node stacked under it. Its own right margin is
    // inside that wider box, so the route has to use the column edge; drawing
    // it over the box would leave a line that stops dead at the border.
    assert_render(
        "graph LR\n    A --> B\n    A --> C[VeryLongName]\n    B --> D\n    C --> D\n    D --> B\n",
        r#"

                    ┌─────┐
            ┌──────▶│  B  │───────┐
  ┌─────┐   │       └─────┘       │  ┌─────┐
  │  A  │───┤        ▲            ├─▶│  D  │
  └─────┘   │ ┌──────┘            │  └─────┘
            │ │┌──────────────┐   │       └─┐
            └─▶│ VeryLongName │───┘         │
              │└──────────────┘             │
              │                             │
              │                             │
              └─────────────────────────────┘

"#,
    );
}

// ── Endpoints that share a layer, and gaps that carry both ──

#[test]
fn feedback_route_clears_a_wider_stacked_source_left_right() {
    // The mirror of the case above: B leaves through a column edge because
    // its own right margin is inside the wider box stacked under it. The
    // crossing with C -> D is a junction, not a break.
    assert_render(
        "graph LR\n    A --> B\n    A --> C[VeryLongName]\n    B --> D\n    C --> D\n    B --> A\n",
        r#"

                    ┌─────┐
            ┌──────▶│  B  │───────┐
  ┌─────┐   │       └─────┘       │  ┌─────┐
  │  A  │───┤            └─────┐  ├─▶│  D  │
  └─────┘   │                  │  │  └─────┘
   ▲        │  ┌──────────────┐│  │
 ┌─┘        └─▶│ VeryLongName │┼──┘
 │             └──────────────┘│
 │                             │
 │                             │
 └─────────────────────────────┘

"#,
    );
}

#[test]
fn two_feedback_sources_in_one_layer_leave_on_different_rows() {
    assert_render(
        "graph TD\n    S --> A\n    S --> B\n    A --> S\n    B --> S\n",
        r#"
              ┌──────────┬───┐
              ▼          │   │
         ┌─────┐         │   │
         │  S  │         │   │
         └─────┘         │   │
            │            │   │
            │            │   │
      ┌─────┴────┐       │   │
      ▼          ▼       │   │
   ┌─────┐    ┌─────┐    │   │
   │  A  │    │  B  │    │   │
   └─────┘    └─────┘    │   │
    │          │         │   │
    │          └─────────┼───┘
    └────────────────────┘
"#,
    );
}

#[test]
fn three_feedback_sources_in_one_layer_leave_on_different_rows() {
    // A third source needs a third row: one row per rank, not one row for the
    // nearest source and one shared by all the rest.
    assert_render(
        "graph TD\n    S --> A\n    S --> B\n    S --> C\n    A --> S\n    B --> S\n    C --> S\n",
        r#"
                   ┌────────────────┬───┬───┐
                   ▼                │   │   │
              ┌─────┐               │   │   │
              │  S  │               │   │   │
              └─────┘               │   │   │
                 │                  │   │   │
                 │                  │   │   │
      ┌──────────┼──────────┐       │   │   │
      ▼          ▼          ▼       │   │   │
   ┌─────┐    ┌─────┐    ┌─────┐    │   │   │
   │  A  │    │  B  │    │  C  │    │   │   │
   └─────┘    └─────┘    └─────┘    │   │   │
    │          │          │         │   │   │
    │          │          └─────────┼───┼───┘
    │          └────────────────────┼───┘
    └───────────────────────────────┘
"#,
    );
}

#[test]
fn two_feedback_sources_in_one_column_drop_in_different_columns() {
    assert_render(
        "graph LR\n    S --> A\n    S --> B\n    A --> S\n    B --> S\n",
        r#"

               ┌─────┐
            ┌─▶│  A  │
  ┌─────┐   │  └─────┘
  │  S  │───┤       └──┐
  └─────┘   │          │
   ▲        │  ┌─────┐ │
 ┌─┘        └─▶│  B  │ │
 │             └─────┘ │
 │                  └─┐│
 │                    ││
 ├────────────────────┼┘
 │                    │
 └────────────────────┘

"#,
    );
}

#[test]
fn feedback_exit_and_entry_in_one_gap_use_different_rows() {
    // B is a feedback source and C, one layer below it, is a feedback target,
    // so one gap carries both. Sharing a row would fuse the two routes into a
    // single line that reads as neither.
    assert_render(
        "graph TD\n    A --> B\n    B --> C\n    C --> D\n    D --> C\n    B --> A\n",
        r#"
        ┌─────────┐
        ▼         │
   ┌─────┐        │
   │  A  │        │
   └─────┘        │
      │           │
      │           │
      │           │
      ▼           │
   ┌─────┐        │
   │  B  │        │
   └─────┘        │
    │ │           │
    └─┼───────────┘
      │
      │
      │ ┌─────┐
      ▼ ▼     │
   ┌─────┐    │
   │  C  │    │
   └─────┘    │
      │       │
      │       │
      │       │
      ▼       │
   ┌─────┐    │
   │  D  │    │
   └─────┘    │
    │         │
    └─────────┘
"#,
    );
}

// ── Labels ──

#[test]
fn feedback_labels_sit_beside_their_own_lane_top_down() {
    assert_render(
        "graph TD\n    Start --> Check\n    Check --> Work\n    Work --> Done\n    Done -->|retry| Start\n    Work -->|again| Check\n",
        r#"
          ┌──────────────┐
          ▼              │
   ┌───────┐             │
   │ Start │             │
   └───────┘             │
       │                 │
       │                 │
       │                 │
       │  ┌─────┐        │
       ▼  ▼     │        │
   ┌───────┐    │        │
   │ Check │    │        │
   └───────┘    │        │
       │        │        │
       │        │ again  │ retry
       │        │        │
       ▼        │        │
   ┌──────┐     │        │
   │ Work │     │        │
   └──────┘     │        │
    │  │        │        │
    └──┼────────┘        │
       │                 │
       │                 │
       ▼                 │
   ┌──────┐              │
   │ Done │              │
   └──────┘              │
    │                    │
    └────────────────────┘
"#,
    );
}

#[test]
fn feedback_labels_sit_inline_on_their_lane_left_right() {
    assert_render(
        "graph LR\n    Start --> Check\n    Check --> Work\n    Work --> Done\n    Done -->|retry| Start\n    Work -->|again| Check\n",
        r#"

  ┌───────┐      ┌───────┐      ┌──────┐      ┌──────┐
  │ Start │─────▶│ Check │─────▶│ Work │─────▶│ Done │
  └───────┘      └───────┘      └──────┘      └──────┘
   ▲              ▲                   └─┐           └─┐
 ┌─┘            ┌─┘                     │             │
 │              └─────────again─────────┘             │
 │                                                    │
 └───────────────────────retry────────────────────────┘

"#,
    );
}

#[test]
fn a_label_longer_than_its_lane_is_truncated() {
    // The lane runs between two node columns and that is all the room there
    // is, so the label is cut rather than written over the corner and off
    // the edge of the canvas.
    assert_render(
        "graph LR\n    A -->|this is a long label| A\n",
        r#"

  ┌─────┐
  │  A  │
  └─────┘
   ▲   └─┐
 ┌─┘     │
 └this i…┘

"#,
    );
}

#[test]
fn straight_forward_edge_label_clears_the_feedback_stem() {
    // The label on B -> C sits on the first gap row, which is the row the
    // feedback stem drops through. The stem leaves under the left border.
    assert_render(
        "graph TD\n    A --> B\n    B -->|ok| C\n    B --> A\n",
        r#"
        ┌─────┐
        ▼     │
   ┌─────┐    │
   │  A  │    │
   └─────┘    │
      │       │
      │       │
      │       │
      ▼       │
   ┌─────┐    │
   │  B  │    │
   └─────┘    │
    │ │ ok    │
    └─┼───────┘
      │
      │
      ▼
   ┌─────┐
   │  C  │
   └─────┘
"#,
    );
}

#[test]
fn bent_forward_edge_label_clears_the_feedback_route() {
    // The yes/no labels sit on the row above the bus, which the row budget
    // keeps below every exit row in the gap.
    assert_render(
        "graph TD\n    A --> B\n    B -->|yes| C\n    B -->|no| D\n    C --> E\n    D --> E\n    B --> A\n",
        r#"
              ┌──────────┐
              ▼          │
         ┌─────┐         │
         │  A  │         │
         └─────┘         │
            │            │
            │            │
            │            │
            ▼            │
         ┌─────┐         │
         │  B  │         │
         └─────┘         │
          │ │            │
          └─┼────────────┘
       yes  │no
      ┌─────┴────┐
      ▼          ▼
   ┌─────┐    ┌─────┐
   │  C  │    │  D  │
   └─────┘    └─────┘
      │          │
      │          │
      └─────┬────┘
            ▼
         ┌─────┐
         │  E  │
         └─────┘
"#,
    );
}

#[test]
fn one_long_label_does_not_widen_every_lane() {
    let code = "graph TD\n    Start --> Check\n    Check --> Work\n    Work --> Done\n    Done -->|x| Start\n    Work -->|a very long label| Check\n";
    let text = render_text(code);
    let width = text.lines().map(|l| l.chars().count()).max().unwrap_or(0);
    // Each lane reserves its own label's width. Charging every lane for the
    // longest label would add another 16 columns here.
    assert!(width < 45, "gutter is {width} columns wide:\n{text}");
    assert_render(
        code,
        r#"
          ┌──────────────────────────┐
          ▼                          │
   ┌───────┐                         │
   │ Start │                         │
   └───────┘                         │
       │                             │
       │                             │
       │                             │
       │  ┌─────┐                    │
       ▼  ▼     │                    │
   ┌───────┐    │                    │
   │ Check │    │                    │
   └───────┘    │                    │
       │        │                    │
       │        │ a very long label  │ x
       │        │                    │
       ▼        │                    │
   ┌──────┐     │                    │
   │ Work │     │                    │
   └──────┘     │                    │
    │  │        │                    │
    └──┼────────┘                    │
       │                             │
       │                             │
       ▼                             │
   ┌──────┐                          │
   │ Done │                          │
   └──────┘                          │
    │                                │
    └────────────────────────────────┘
"#,
    );
}
