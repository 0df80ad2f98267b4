use layra::ir::document::Document;
use layra::ir::graph::EdgeKind;
use layra::ir::sequence::{SeqArrow, SeqItem, SequenceDiagram};
use layra::ir::style::{EdgeStyle, NodeShape};
use layra::parser::class::parse_class;
use layra::parser::document::{parse_document, parse_document_lenient, parse_document_lenient_checked};
use layra::parser::er::parse_er;
use layra::parser::mindmap::parse_mindmap;
use layra::parser::sequence::parse_sequence;
use layra::parser::state::parse_state;

fn lines(src: &str) -> Vec<(usize, Vec<char>)> {
    src.lines()
        .enumerate()
        .map(|(i, l)| (i + 1, l.trim().chars().collect::<Vec<char>>()))
        .filter(|(_, l)| !l.is_empty())
        .collect()
}

fn seq_strict(src: &str) -> SequenceDiagram {
    let (d, warnings, fatal) = parse_sequence(&lines(src));
    assert!(!fatal);
    assert!(warnings.is_empty(), "warnings: {warnings:?}");
    d
}

#[test]
fn parses_blog_style_handshake() {
    let d = seq_strict(
        "autonumber\n\
         participant C as Client\n\
         participant S as Server :443\n\
         rect rgb(219, 234, 254)\n\
         Note over C,S: TLS 1.3 — fresh handshake (1 RTT)\n\
         C->>+S: ClientHello<br/>(supported ciphers)\n\
         S-->>-C: ServerHello\n\
         end",
    );
    assert!(d.autonumber);
    assert_eq!(d.participants.len(), 2);
    assert_eq!(d.participants[1].label, "Server :443");
    assert_eq!(d.items.len(), 5);
    let SeqItem::Message(m) = &d.items[2] else { panic!("expected message") };
    assert!(m.activate);
    assert_eq!(m.number, Some(1));
    assert_eq!(m.text, "ClientHello\n(supported ciphers)");
    let SeqItem::Message(m2) = &d.items[3] else { panic!("expected message") };
    assert_eq!(m2.arrow, SeqArrow::Dashed);
    assert!(m2.deactivate);
}

#[test]
fn lost_message_cross() {
    let d = seq_strict("C->>S: GET /resource\nS--xC: 503 Service Unavailable");
    let SeqItem::Message(m) = &d.items[1] else { panic!() };
    assert_eq!(m.arrow, SeqArrow::DashedCross);
}

#[test]
fn auto_declares_participants() {
    let d = seq_strict("A->>B: hi\nB-->>A: yo");
    assert_eq!(d.participants.len(), 2);
    assert_eq!(d.participants[0].name, "A");
}

#[test]
fn unclosed_frame_is_closed_with_a_warning() {
    let (d, warnings, _) = parse_sequence(&lines("loop every minute\nA->>B: ping"));
    assert_eq!(d.items.len(), 3);
    assert!(matches!(d.items[2], SeqItem::FrameEnd));
    assert_eq!(warnings.len(), 1);
    assert_eq!(warnings[0].line(), 2);
}

#[test]
fn bad_note_position_is_reported() {
    let (_, warnings, _) = parse_sequence(&lines("Note above A: x"));
    assert_eq!(
        warnings[0].to_text(),
        "line 1: expected 'left of'/'right of'/'over' after Note, got 'above A: x'"
    );
}

#[test]
fn participant_lookup_and_interning() {
    let mut d = seq_strict("participant Alice");
    assert_eq!(d.participant_by_name("Alice").map(|p| p.index()), Some(0));
    assert_eq!(d.participant_by_name("Bob"), None);
    let b = d.intern_participant("Bob");
    assert_eq!(b.index(), 1);
    assert_eq!(d.intern_participant("Alice").index(), 0);
    assert_eq!(d.participants.len(), 2);
}

#[test]
fn parses_tcp_state_machine_shape() {
    let (g, w, _) = parse_state(&lines(
        "direction TB\n\
         [*] --> CLOSED\n\
         CLOSED --> SYN_SENT: active open / send SYN\n\
         SYN_SENT --> ESTABLISHED: recv SYN-ACK / send ACK\n\
         ESTABLISHED --> [*]",
    ));
    assert!(w.is_empty());
    assert_eq!(g.nodes.len(), 5);
    assert_eq!(g.edges.len(), 4);
    assert_eq!(g.edges[1].label.as_deref(), Some("active open / send SYN"));
    assert_eq!(g.nodes[0].shape, NodeShape::Circle);
}

#[test]
fn block_notes_are_skipped() {
    let (g, w, _) = parse_state(&lines(
        "direction LR\n\
         Closed --> Open : failures > threshold\n\
         note right of Closed\n\
         normal — calls go through\n\
         end note\n\
         Open --> Closed : probe succeeds",
    ));
    assert!(w.is_empty());
    assert_eq!(g.nodes.len(), 2);
    assert_eq!(g.edges.len(), 2);
}

#[test]
fn composite_states_become_subgraphs() {
    let (g, _, _) = parse_state(&lines("state Active {\nRunning --> Paused\n}\nIdle"));
    assert_eq!(g.subgraphs.len(), 1);
    assert_eq!(g.subgraphs[0].nodes.len(), 2);
    assert_eq!(g.nodes[2].parent, None);
}

#[test]
fn parses_inheritance_and_members() {
    let (g, w, _) = parse_class(&lines(
        "class Animal {\n\
           +String name\n\
           +eat()\n\
         }\n\
         class Dog\n\
         Animal <|-- Dog\n\
         Dog : +bark()",
    ));
    assert!(w.is_empty());
    assert_eq!(g.nodes.len(), 2);
    let animal = g.node(g.node_by_name("Animal").unwrap());
    assert_eq!(animal.sections.len(), 2);
    assert_eq!(animal.sections[0], "+String name");
    assert_eq!(animal.sections[1], "+eat()");
    let e = &g.edges[0];
    assert_eq!(e.kind, EdgeKind::Triangle);
    assert_eq!(g.node(e.target).name, "Animal");
}

#[test]
fn parses_cardinality_and_label() {
    let (g, _, _) = parse_class(&lines("Customer \"1\" --> \"*\" Order : places"));
    let e = &g.edges[0];
    assert_eq!(e.label.as_deref(), Some("places"));
    assert_eq!(e.end_labels, Some(("1".to_string(), "*".to_string())));
}

#[test]
fn composition_and_aggregation_markers() {
    let (g, _, _) = parse_class(&lines("Engine *-- Car\nWheel o-- Car"));
    assert_eq!(g.edges[0].kind, EdgeKind::DiamondFilled);
    assert_eq!(g.edges[1].kind, EdgeKind::DiamondOpen);
}

#[test]
fn parses_relationship_with_cardinality() {
    let (g, w, _) = parse_er(&lines("CUSTOMER ||--o{ ORDER : places"));
    assert!(w.is_empty());
    assert_eq!(g.nodes.len(), 2);
    let e = &g.edges[0];
    assert_eq!(e.label.as_deref(), Some("places"));
    assert_eq!(e.end_labels, Some(("1".into(), "0..*".into())));
}

#[test]
fn parses_attribute_block() {
    let (g, _, _) = parse_er(&lines(
        "ORDER {\n\
           int id PK\n\
           string status\n\
         }\n\
         CUSTOMER ||--o{ ORDER : places",
    ));
    let order = g.node(g.node_by_name("ORDER").unwrap());
    assert_eq!(order.sections.len(), 1);
    assert!(order.sections[0].contains("id: int  [PK]"));
    assert!(order.sections[0].contains("status: string"));
}

#[test]
fn non_identifying_is_dashed() {
    let (g, _, _) = parse_er(&lines("A ||..o{ B : has"));
    assert_eq!(g.edges[0].style, EdgeStyle::Dashed);
}

#[test]
fn er_split_inside_a_character_is_flagged() {
    let (_, _, fatal) = parse_er(&lines("Aé|--||B"));
    assert!(fatal);
}

#[test]
fn indentation_builds_tree() {
    let raw = "mindmap\n  root((Layra))\n    Engine\n      Layout\n      Routing\n    Playground\n";
    let g = parse_mindmap(raw);
    assert_eq!(g.nodes.len(), 5);
    assert_eq!(g.edges.len(), 4);
    assert_eq!(g.nodes[0].shape, NodeShape::Circle);
    assert_eq!(g.nodes[0].label, "Layra");
    assert_eq!(g.edges[1].source.index(), 1);
    assert_eq!(g.edges[2].source.index(), 1);
    assert_eq!(g.edges[3].source.index(), 0);
}

#[test]
fn document_dispatches_on_header() {
    let (doc, w) = parse_document_lenient("sequenceDiagram\nA->>B: hi");
    assert!(w.is_empty());
    assert!(matches!(doc, Document::Sequence(_)));
    let (doc, _) = parse_document_lenient("pie showData\n\"a\" : 1");
    let Document::Pie(p) = doc else { panic!() };
    assert!(p.show_data);
    assert!(matches!(parse_document_lenient("gantt\nA : 1d").0, Document::Gantt(_)));
    assert!(matches!(parse_document_lenient("gitGraph\ncommit").0, Document::Git(_)));
    assert!(matches!(parse_document_lenient("journey\nA: 3").0, Document::Journey(_)));
    assert!(matches!(parse_document_lenient("timeline\n2024 : x").0, Document::Timeline(_)));
    let Document::Graph(g) = parse_document_lenient("erDiagram\nA ||--o{ B : has").0 else { panic!() };
    assert_eq!(g.nodes.len(), 2);
    let Document::Graph(g) = parse_document_lenient("").0 else { panic!() };
    assert!(g.nodes.is_empty());
}

#[test]
fn strict_document_surfaces_first_warning() {
    let err = parse_document("flowchart LR\na b\nc d").unwrap_err();
    assert_eq!(err.line(), 2);
    let (_, w) = parse_document_lenient("flowchart LR\na b\nc d");
    assert_eq!(w.len(), 2);
    assert!(parse_document("flowchart LR\na --> b").is_ok());
    assert!(parse_document_lenient_checked("flowchart LR\nn[\"<img src=é.svg>\"]").is_none());
}
