use layra::ir::graph::{Direction, Edge, EdgeKind, Graph, Node};
use layra::ir::style::{ComponentRole, EdgeStyle, NodeShape};
use layra::parser::{parse, parse_checked};

#[test]
fn parses_basic_flowchart() {
    let g = parse(
        r#"flowchart LR
          api["API Gateway"]:::gateway --> svc["Order Service"]:::service
          svc -->|persist| db[("Postgres")]:::database
          svc -.->|events| q{{Kafka}}
        "#,
    )
    .unwrap();

    assert_eq!(g.direction, Direction::LeftRight);
    assert_eq!(g.nodes.len(), 4);
    assert_eq!(g.edges.len(), 3);

    let db = g.node(g.node_by_name("db").unwrap());
    assert_eq!(db.shape, NodeShape::Cylinder);
    assert_eq!(db.role, ComponentRole::Database);
    assert_eq!(db.label, "Postgres");

    let q = g.node(g.node_by_name("q").unwrap());
    assert_eq!(q.shape, NodeShape::Hexagon);
    assert_eq!(q.role, ComponentRole::Queue);

    assert_eq!(g.edges[1].label.as_deref(), Some("persist"));
    assert_eq!(g.edges[2].style, EdgeStyle::Dashed);
}

#[test]
fn parses_subgraphs() {
    let g = parse(
        r#"flowchart TB
          subgraph data["Data Plane"]
            db[("PG")]
            cache(("Redis"))
          end
          api --> db
        "#,
    )
    .unwrap();
    assert_eq!(g.subgraphs.len(), 1);
    assert_eq!(g.subgraphs[0].label, "Data Plane");
    assert_eq!(g.subgraphs[0].nodes.len(), 2);
}

#[test]
fn chain_of_three() {
    let g = parse("flowchart LR\na --> b --> c").unwrap();
    assert_eq!(g.nodes.len(), 3);
    assert_eq!(g.edges.len(), 2);
}

#[test]
fn icon_extraction() {
    let g = parse(
        r#"flowchart LR
      db[("{icon:logos:postgresql} Postgres")]"#,
    )
    .unwrap();
    let db = g.node(g.node_by_name("db").unwrap());
    assert_eq!(db.icon.as_deref(), Some("logos:postgresql"));
    assert_eq!(db.label, "Postgres");
}

#[test]
fn inline_label_form() {
    let g = parse("flowchart LR\na -- calls --> b").unwrap();
    assert_eq!(g.edges[0].label.as_deref(), Some("calls"));
}

#[test]
fn error_has_line_number() {
    let err = parse("flowchart LR\nsubgraph x\nend\nend").unwrap_err();
    let msg = err.to_text();
    assert!(msg.contains("line 4"), "got: {msg}");
}

#[test]
fn graph_basics() {
    let mut g = Graph::new(Direction::LeftRight);
    let a = g.add_node(Node::new("a".to_string(), "Service A".to_string()));
    let b = g.add_node(Node::new("b".to_string(), "Service B".to_string()));
    g.add_edge(Edge {
        source: a,
        target: b,
        label: Some("calls".into()),
        style: EdgeStyle::Solid,
        kind: EdgeKind::Arrow,
        end_labels: None,
        animated: false,
    });
    assert_eq!(g.node_by_name("b"), Some(b));
    assert_eq!(g.edges.len(), 1);
}

#[test]
fn header_sets_direction_and_body_starts_after_it() {
    let g = parse("graph RL\nx --> y").unwrap();
    assert_eq!(g.direction, Direction::RightLeft);
    assert_eq!(g.nodes.len(), 2);
    let g = parse("x --> y").unwrap();
    assert_eq!(g.direction, Direction::TopBottom);
}

#[test]
fn comments_and_blank_lines_are_skipped() {
    let g = parse("flowchart TD\n%% a comment\n\n   a --> b   \n").unwrap();
    assert_eq!(g.nodes.len(), 2);
    assert_eq!(g.edges.len(), 1);
}

#[test]
fn repeated_node_is_interned_once() {
    let g = parse("flowchart LR\na --> b\nb --> a\na --> a").unwrap();
    assert_eq!(g.nodes.len(), 2);
    assert_eq!(g.edges.len(), 3);
}

#[test]
fn ampersand_fans_out_edges() {
    let g = parse("flowchart LR\na & b --> c & d").unwrap();
    assert_eq!(g.nodes.len(), 4);
    assert_eq!(g.edges.len(), 4);
}

#[test]
fn unparseable_node_is_reported() {
    let err = parse("flowchart LR\na b").unwrap_err();
    assert_eq!(err.line(), 2);
    assert_eq!(err.to_text(), "line 2: cannot parse node 'a b'");
}

#[test]
fn html_label_becomes_lines_and_icon() {
    let g = parse(
        "flowchart LR\nn[\"<img src='https://x/icons/aws-lambda.svg'/> Fn<br/>handler\"]",
    )
    .unwrap();
    let n = g.node(g.node_by_name("n").unwrap());
    assert_eq!(n.icon.as_deref(), Some("aws:lambda"));
    assert_eq!(n.label, "Fn\nhandler");
}

#[test]
fn checked_parse_reports_the_fatal_input() {
    assert!(parse_checked("flowchart LR\nn[\"<img src=é.svg>\"]").is_none());
    assert!(parse_checked("flowchart LR\na --> b").is_some());
}

#[test]
fn dotted_operator_parses_as_dotted_arrow() {
    let g = parse("flowchart LR\n  a[\"A\"] -..-> b[\"B\"]\n").unwrap();
    assert_eq!(g.edges.len(), 1);
    assert!(matches!(g.edges[0].style, EdgeStyle::Dotted));
    assert!(matches!(g.edges[0].kind, EdgeKind::Arrow));
    assert!(g.edges[0].label.is_none());
}

#[test]
fn animate_directive_marks_the_edge_and_leaves_the_label() {
    let g = parse("flowchart LR\n  a[\"A\"] -->|{animate} sync| b[\"B\"]\n").unwrap();
    assert!(g.edges[0].animated);
    assert_eq!(g.edges[0].label.as_deref(), Some("sync"));
    let g = parse("flowchart LR\n  a[\"A\"] -.->|{animate}| b[\"B\"]\n").unwrap();
    assert!(g.edges[0].animated);
    assert!(matches!(g.edges[0].style, EdgeStyle::Dashed));
    assert!(g.edges[0].label.is_none());
    let g = parse("flowchart LR\n  a --> b\n").unwrap();
    assert!(!g.edges[0].animated);
}

#[test]
fn parsed_graph_is_well_formed() {
    let g = parse(
        "flowchart TB\n  subgraph outer\n    a --> b\n    subgraph inner\n      c & b --> d\n    end\n  end\n  a --> d\n  d -.-> a\n",
    )
    .unwrap();
    for i in 0..g.nodes.len() {
        for j in (i + 1)..g.nodes.len() {
            assert_ne!(g.nodes[i].name, g.nodes[j].name);
        }
    }
    for e in &g.edges {
        assert!(e.source.index() < g.nodes.len() && e.target.index() < g.nodes.len());
    }
    for (s, sg) in g.subgraphs.iter().enumerate() {
        for (a, x) in sg.nodes.iter().enumerate() {
            assert!(x.index() < g.nodes.len());
            assert!(!sg.nodes[a + 1..].iter().any(|y| y.index() == x.index()));
        }
        if let Some(p) = sg.parent {
            assert!((p.0 as usize) < s);
        }
    }
    for (i, n) in g.nodes.iter().enumerate() {
        if let Some(s) = n.parent {
            assert!(g.subgraphs[s.0 as usize].nodes.iter().any(|x| x.index() == i));
        }
    }
    assert_eq!(g.subgraphs.len(), 2);
    assert_eq!(g.subgraphs[1].parent.map(|p| p.0), Some(0));
}
