use ferrite::flowchart::{
    clean_label, parse_flowchart, try_parse_flowchart, ArrowHead, EdgeStyle, FlowDirection,
    Flowchart, NodeShape, PositionHint, Rgba,
};

fn hint<'a>(f: &'a Flowchart, id: &str) -> Option<&'a PositionHint> {
    f.position_hints.iter().find(|h| h.node_id == id)
}

fn coords(h: &PositionHint) -> (f32, f32) {
    (h.x.parse::<f32>().unwrap(), h.y.parse::<f32>().unwrap())
}

#[test]
fn pos_hint_valid_stored_in_map() {
    let source = r#"flowchart TD
%% @pos A 100 50
A --> B
%% @pos B 200 150
"#;
    let flowchart = parse_flowchart(source).unwrap();
    assert!(flowchart.warnings.is_empty());
    assert_eq!(flowchart.position_hints.len(), 2);
    assert_eq!(hint(&flowchart, "A").map(coords), Some((100.0, 50.0)));
    assert_eq!(hint(&flowchart, "B").map(coords), Some((200.0, 150.0)));
}

#[test]
fn pos_hint_unknown_node_id_warns() {
    let source = r#"flowchart TD
%% @pos Missing 10 20
A --> B
"#;
    let flowchart = parse_flowchart(source).unwrap();
    assert_eq!(flowchart.position_hints.len(), 0);
    assert_eq!(flowchart.warnings.len(), 1);
    assert_eq!(flowchart.warnings[0].line, 2);
    assert!(flowchart.warnings[0].message.contains("Unknown node id 'Missing'"));
}

#[test]
fn pos_hint_malformed_coords_warns() {
    let source = r#"flowchart TD
A --> B
%% @pos A foo 20
"#;
    let flowchart = parse_flowchart(source).unwrap();
    assert_eq!(flowchart.position_hints.len(), 0);
    assert_eq!(flowchart.warnings.len(), 1);
    assert!(flowchart.warnings[0].message.contains("Invalid x coordinate"));
}

#[test]
fn pos_hint_malformed_token_count_warns() {
    let source = r#"flowchart TD
A --> B
%% @pos A 10
"#;
    let flowchart = parse_flowchart(source).unwrap();
    assert_eq!(flowchart.position_hints.len(), 0);
    assert_eq!(flowchart.warnings.len(), 1);
    assert!(flowchart.warnings[0].message.contains("Malformed @pos hint"));
}

#[test]
fn pos_hint_duplicate_warns_and_keeps_first() {
    let source = r#"flowchart TD
%% @pos A 10 20
A --> B
%% @pos A 99 99
"#;
    let flowchart = parse_flowchart(source).unwrap();
    assert_eq!(flowchart.position_hints.len(), 1);
    assert_eq!(hint(&flowchart, "A").map(coords), Some((10.0, 20.0)));
    assert_eq!(flowchart.warnings.len(), 1);
    assert_eq!(flowchart.warnings[0].line, 4);
    assert!(flowchart.warnings[0].message.contains("Duplicate @pos hint"));
}

#[test]
fn pos_hint_ignores_regular_comments() {
    let source = r#"flowchart TD
%% just a note
A --> B
"#;
    let flowchart = parse_flowchart(source).unwrap();
    assert!(flowchart.position_hints.is_empty());
    assert!(flowchart.warnings.is_empty());
}

#[test]
fn clean_label_strips_fa_prefix() {
    assert_eq!(clean_label("fa:fa-car Car"), "Car");
}

#[test]
fn clean_label_strips_fab_prefix() {
    assert_eq!(clean_label("fab:fa-github GitHub"), "GitHub");
}

#[test]
fn clean_label_does_not_strip_mid_label_fa_prefix() {
    assert_eq!(clean_label("Hello fa:fa-car world"), "Hello fa:fa-car world");
}

#[test]
fn clean_label_without_fa_prefix_unchanged() {
    assert_eq!(clean_label("Plain label"), "Plain label");
}

#[test]
fn clean_label_strips_multiple_leading_fa_prefixes() {
    assert_eq!(
        clean_label("fa:fa-box fa:fa-arrow-right Create an order"),
        "Create an order"
    );
}

#[test]
fn clean_label_strips_fa_prefix_from_edge_label() {
    let source = r#"flowchart TD
    A -->|fa:fa-car Car| B
"#;
    let flowchart = parse_flowchart(source).unwrap();
    assert_eq!(flowchart.edges[0].label.as_deref(), Some("Car"));
}

#[test]
fn clean_label_strips_fa_prefix_from_fc_83b_node() {
    let source = r#"flowchart TD
    C -->|Three| F[fa:fa-car Car]
"#;
    let flowchart = parse_flowchart(source).unwrap();
    let node_f = flowchart.nodes.iter().find(|n| n.id == "F").expect("node F");
    assert_eq!(node_f.label, "Car");
    let edge = flowchart.edges.iter().find(|e| e.to == "F").expect("edge to F");
    assert_eq!(edge.label.as_deref(), Some("Three"));
}

#[test]
fn link_style_default_interpolate_basis_parsed() {
    let source = r#"graph TD
    linkStyle default interpolate basis
    A --> B
"#;
    let flowchart = parse_flowchart(source).unwrap();
    assert!(flowchart.warnings.is_empty());
    let style = flowchart.default_link_style.as_ref().expect("default link style");
    assert!(style.interpolate_basis);
}

#[test]
fn link_style_index_interpolate_basis_parsed() {
    let source = r#"flowchart TD
    A --> B --> C
    linkStyle 1 interpolate basis, stroke:#f00
"#;
    let flowchart = parse_flowchart(source).unwrap();
    let style = &flowchart
        .link_styles
        .iter()
        .find(|(i, _)| *i == 1)
        .expect("edge 1 style")
        .1;
    assert!(style.interpolate_basis);
    assert!(style.stroke.is_some());
}

#[test]
fn header_errors() {
    assert_eq!(
        parse_flowchart("").unwrap_err(),
        "Empty flowchart source".to_string()
    );
    assert_eq!(
        parse_flowchart("%% only a comment\n\n").unwrap_err(),
        "Empty flowchart source".to_string()
    );
    assert_eq!(
        parse_flowchart("sequenceDiagram\nA->>B: hi").unwrap_err(),
        "Expected 'flowchart' or 'graph' declaration".to_string()
    );
}

#[test]
fn directions_from_header() {
    assert_eq!(parse_flowchart("graph LR").unwrap().direction, FlowDirection::LeftRight);
    assert_eq!(parse_flowchart("flowchart rl;").unwrap().direction, FlowDirection::RightLeft);
    assert_eq!(parse_flowchart("flowchart BT").unwrap().direction, FlowDirection::BottomUp);
    assert_eq!(parse_flowchart("flowchart").unwrap().direction, FlowDirection::TopDown);
    assert_eq!(parse_flowchart("Graph XX").unwrap().direction, FlowDirection::TopDown);
}

#[test]
fn node_shapes() {
    let source = "flowchart TD
    a[Rect]
    b(Round)
    c([Stadium])
    d[[Sub]]
    e[(Db)]
    f((Circle))
    g(((Double)))
    h{Decide}
    i{{Hex}}
    j[/Para/]
    k[/Trap\\]
    l[\\Inv/]
    m>Asym]
    n";
    let f = parse_flowchart(source).unwrap();
    let shape = |id: &str| f.nodes.iter().find(|n| n.id == id).map(|n| (n.label.clone(), n.shape));
    assert_eq!(shape("a"), Some(("Rect".to_string(), NodeShape::Rectangle)));
    assert_eq!(shape("b"), Some(("Round".to_string(), NodeShape::RoundRect)));
    assert_eq!(shape("c"), Some(("Stadium".to_string(), NodeShape::Stadium)));
    assert_eq!(shape("d"), Some(("Sub".to_string(), NodeShape::Subroutine)));
    assert_eq!(shape("e"), Some(("Db".to_string(), NodeShape::Cylinder)));
    assert_eq!(shape("f"), Some(("Circle".to_string(), NodeShape::Circle)));
    assert_eq!(shape("g"), Some(("Double".to_string(), NodeShape::DoubleCircle)));
    assert_eq!(shape("h"), Some(("Decide".to_string(), NodeShape::Diamond)));
    assert_eq!(shape("i"), Some(("Hex".to_string(), NodeShape::Hexagon)));
    assert_eq!(shape("j"), Some(("Para".to_string(), NodeShape::Parallelogram)));
    assert_eq!(shape("k"), Some(("Trap".to_string(), NodeShape::Trapezoid)));
    assert_eq!(shape("l"), Some(("Inv".to_string(), NodeShape::TrapezoidInv)));
    assert_eq!(shape("m"), Some(("Asym".to_string(), NodeShape::Asymmetric)));
    assert_eq!(shape("n"), Some(("n".to_string(), NodeShape::Rectangle)));
}

#[test]
fn chained_and_ampersand_edges() {
    let f = parse_flowchart("flowchart LR\nA & B --> C -.-> D\nD ==>|go| E --- F").unwrap();
    let ids: Vec<&str> = f.nodes.iter().map(|n| n.id.as_str()).collect();
    assert_eq!(ids, vec!["A", "B", "C", "D", "E", "F"]);
    let edges: Vec<(String, String, EdgeStyle, ArrowHead, Option<String>)> = f
        .edges
        .iter()
        .map(|e| (e.from.clone(), e.to.clone(), e.style, e.arrow_end, e.label.clone()))
        .collect();
    assert_eq!(
        edges,
        vec![
            ("A".into(), "C".into(), EdgeStyle::Solid, ArrowHead::Arrow, None),
            ("B".into(), "C".into(), EdgeStyle::Solid, ArrowHead::Arrow, None),
            ("C".into(), "D".into(), EdgeStyle::Dotted, ArrowHead::Arrow, None),
            ("D".into(), "E".into(), EdgeStyle::Thick, ArrowHead::Arrow, Some("go".into())),
            ("E".into(), "F".into(), EdgeStyle::Solid, ArrowHead::NoArrow, None),
        ]
    );
}

#[test]
fn dash_labels_and_double_headed_arrows() {
    let f = parse_flowchart("flowchart TD\nA[Start]-- yes -->B[End]\nB <--> C\nC o--o D\nD x--x E").unwrap();
    assert_eq!(f.edges[0].label.as_deref(), Some("yes"));
    assert_eq!((f.edges[1].arrow_start, f.edges[1].arrow_end), (ArrowHead::Arrow, ArrowHead::Arrow));
    assert_eq!((f.edges[2].arrow_start, f.edges[2].arrow_end), (ArrowHead::Circle, ArrowHead::Circle));
    assert_eq!((f.edges[3].arrow_start, f.edges[3].arrow_end), (ArrowHead::Cross, ArrowHead::Cross));
}

#[test]
fn later_definition_labels_a_plain_node() {
    let f = parse_flowchart("flowchart TD\nA --> B\nB[Named]\nB[Renamed]").unwrap();
    let b = f.nodes.iter().find(|n| n.id == "B").unwrap();
    assert_eq!(b.label, "Named");
}

#[test]
fn subgraphs_nest_and_close() {
    let source = "flowchart TB
subgraph outer [Outer Box]
  direction LR
  A --> B
  subgraph inner
    C
  end
end
subgraph \"Quoted title\"
  D
";
    let f = parse_flowchart(source).unwrap();
    assert_eq!(f.subgraphs.len(), 3);
    let inner = &f.subgraphs[0];
    assert_eq!(inner.id, "inner");
    assert_eq!(inner.title.as_deref(), Some("inner"));
    assert_eq!(inner.node_ids, vec!["C".to_string()]);
    let outer = &f.subgraphs[1];
    assert_eq!(outer.id, "outer");
    assert_eq!(outer.title.as_deref(), Some("Outer Box"));
    assert_eq!(outer.direction, Some(FlowDirection::LeftRight));
    assert_eq!(outer.node_ids, vec!["A".to_string(), "B".to_string()]);
    assert_eq!(outer.child_subgraph_ids, vec!["inner".to_string()]);
    let quoted = &f.subgraphs[2];
    assert_eq!(quoted.id, "subgraph_1");
    assert_eq!(quoted.title.as_deref(), Some("Quoted title"));
    assert_eq!(quoted.node_ids, vec!["D".to_string()]);
}

#[test]
fn class_and_style_directives() {
    let source = "flowchart TD
A --> B
classDef hot fill:#f00,stroke:#00ff00,stroke-width:2px,color:#11223344
class A,B hot
style A fill:#abc
style A stroke-width:3
click A callback
";
    let f = parse_flowchart(source).unwrap();
    assert_eq!(f.class_defs.len(), 1);
    let (name, hot) = &f.class_defs[0];
    assert_eq!(name, "hot");
    assert_eq!(hot.fill, Some(Rgba { r: 255, g: 0, b: 0, a: 255 }));
    assert_eq!(hot.stroke, Some(Rgba { r: 0, g: 255, b: 0, a: 255 }));
    assert_eq!(hot.stroke_width.as_deref(), Some("2"));
    assert_eq!(hot.color, Some(Rgba { r: 0x11, g: 0x22, b: 0x33, a: 0x44 }));
    assert_eq!(
        f.node_classes,
        vec![("A".to_string(), "hot".to_string()), ("B".to_string(), "hot".to_string())]
    );
    assert_eq!(f.node_styles.len(), 1);
    let (id, st) = &f.node_styles[0];
    assert_eq!(id, "A");
    assert_eq!(st.fill, Some(Rgba { r: 0xaa, g: 0xbb, b: 0xcc, a: 255 }));
    assert_eq!(st.stroke_width.as_deref(), Some("3"));
    assert_eq!(f.nodes.len(), 2);
}

#[test]
fn invalid_colors_and_widths_are_dropped() {
    let f = parse_flowchart("flowchart TD\nstyle A fill:red,stroke:#12,stroke-width:wide").unwrap();
    let (_, st) = &f.node_styles[0];
    assert_eq!(st.fill, None);
    assert_eq!(st.stroke, None);
    assert_eq!(st.stroke_width, None);
}

#[test]
fn panicking_inputs_are_reported() {
    assert!(try_parse_flowchart("flowchart TD\nA])([x").is_none());
    assert!(try_parse_flowchart("flowchart TD\nsubgraph a]b[c").is_none());
    assert!(try_parse_flowchart("flowchart TD\nstyle A fill:#é1").is_none());
    assert!(try_parse_flowchart("flowchart TD\nA --> B").is_some());
}

#[test]
fn every_edge_joins_known_nodes_once_each() {
    let src = "flowchart TD\n  A[Start] --> B & C\n  B -->|again| A\n  C --- D --> A\n  A[Renamed]\n";
    let chart = parse_flowchart(src).unwrap();
    let ids: Vec<&str> = chart.nodes.iter().map(|n| n.id.as_str()).collect();
    assert_eq!(ids, vec!["A", "B", "C", "D"]);
    assert_eq!(chart.edges.len(), 5);
    for edge in &chart.edges {
        assert!(ids.contains(&edge.from.as_str()));
        assert!(ids.contains(&edge.to.as_str()));
    }
    assert_eq!(chart.nodes[0].label, "Start");
}

#[test]
fn kelvin_sign_reads_as_k_in_keywords_and_style_keys() {
    let src = "flowchart TD\nA --> B\nclic\u{212A} A callback\nlin\u{212A}style 0 stroke:#f00\nstyle A stro\u{212A}e:#0f0";
    let f = parse_flowchart(src).unwrap();
    assert_eq!(f.nodes.len(), 2);
    assert!(f.link_styles.is_empty());
    assert!(f.default_link_style.is_none());
    let (id, st) = &f.node_styles[0];
    assert_eq!(id, "A");
    assert_eq!(st.stroke, Some(Rgba { r: 0, g: 255, b: 0, a: 255 }));
}

#[test]
fn header_errors_are_the_only_errors() {
    assert_eq!(parse_flowchart("").unwrap_err(), "Empty flowchart source");
    assert_eq!(parse_flowchart("\n  %% note\n   \n").unwrap_err(), "Empty flowchart source");
    assert_eq!(parse_flowchart("%% c\nsequenceDiagram\nA-->B").unwrap_err(), "Expected 'flowchart' or 'graph' declaration");
    assert!(parse_flowchart("%% c\n  GRAPH LR\nA --> B").is_ok());
}

#[test]
fn subgraphs_hints_and_warnings_refer_to_the_chart() {
    let src = "flowchart TD\nsubgraph s1 [Group]\n  A[Alpha] --> B\nend\n%% @pos A 10 20\n%% @pos Z 1 2\nC\n";
    let f = parse_flowchart(src).unwrap();
    let ids: Vec<&str> = f.nodes.iter().map(|n| n.id.as_str()).collect();
    for sub in &f.subgraphs {
        for id in &sub.node_ids {
            assert!(ids.contains(&id.as_str()));
        }
    }
    assert_eq!(f.subgraphs[0].node_ids, vec!["A".to_string(), "B".to_string()]);
    for hint in &f.position_hints {
        assert!(ids.contains(&hint.node_id.as_str()));
    }
    assert_eq!(f.position_hints.len(), 1);
    let n_lines = src.lines().count();
    assert!(!f.warnings.is_empty());
    for w in &f.warnings {
        assert!(1 <= w.line && w.line <= n_lines);
    }
}
