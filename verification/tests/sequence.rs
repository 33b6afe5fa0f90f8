//! Tests of the sequence-diagram model and layout.

use uml_generator::helper::Markers;
use uml_generator::primitives::Prim;
use uml_generator::theme::ThemeName;
use uml_generator::uml::Edge;
use uml_generator::uml::Sequence;

#[test]
fn make_edge() {
    let edge = Edge::new(0, 1, "".into(), Markers::NoArrow);
    assert_eq!(edge.node1(), 0);
    assert_eq!(edge.node2(), 1);
    assert_eq!(edge.marker_type(), Markers::NoArrow);
}

#[test]
fn test_sequence() {
    let theme = ThemeName::Default;
    let mut s = Sequence::new(theme);
    s.add_node("test1");
    s.add_node("test2");
    s.add_node("test3");
    s.add_node("test4");
    s.add_edge(("test1", "test3", "result", Markers::Array));
    s.add_edge(("test3", "test2", "result", Markers::Array));
    s.add_edge(("test4", "test3", "result", Markers::Array));
    s.add_edge(("test2", "test3", "result", Markers::Array));

    let svg = uml_generator::render::change_background_color(s.make_svg(), "#fff");
    let text = svg.to_string();
    assert!(text.contains("background-color:#fff"));
    assert!(text.contains("result"));
    assert!(text.contains("test4"));
    assert!(text.contains("marker-1"));
}

fn four_participants() -> Sequence {
    let mut s = Sequence::new(ThemeName::Default);
    s.add_nodes(vec!["test1", "test2", "test3", "test4"]);
    s.add_edges(vec![
        ("test1", "test3", "m1", Markers::Array),
        ("test3", "test2", "m2", Markers::Array),
        ("test4", "test3", "m3", Markers::Array),
        ("test2", "test3", "m4", Markers::Array),
    ]);
    s
}

#[test]
fn lanes_share_one_width_from_the_longest_label() {
    let s = four_participants();
    // the longest name has five characters, so boxes are 5*8 + 6 wide
    let prims = s.make_nodes();
    assert_eq!(prims.len(), 16);
    let mut widths = vec![];
    let mut xs = vec![];
    for p in &prims {
        if let Prim::Rect(rp) = p {
            widths.push(rp.width);
            if rp.y == 20 {
                xs.push(rp.x);
            }
        }
    }
    assert_eq!(widths, vec![46; 8]);
    // lanes advance by one uniform lane width
    assert_eq!(xs, vec![20, 76, 132, 188]);
}

#[test]
fn message_slots_stack_in_insertion_order() {
    let s = four_participants();
    let prims = s.make_horizontal_lines();
    assert_eq!(prims.len(), 8);
    let mut ys = vec![];
    for p in &prims {
        if let Prim::Line(lp) = p {
            assert_eq!(lp.y1, lp.y2);
            ys.push(lp.y1);
        }
    }
    assert_eq!(ys, vec![60, 90, 120, 150]);
    for w in ys.windows(2) {
        assert!(w[0] < w[1]);
    }
}

#[test]
fn message_labels_sit_centered_above_their_lines() {
    let s = four_participants();
    let prims = s.make_horizontal_lines();
    // first message joins lanes 0 and 2: centers 43 and 155
    match (&prims[0], &prims[1]) {
        (Prim::Line(lp), Prim::Text(tp)) => {
            assert_eq!((lp.x1, lp.x2), (43, 155));
            assert_eq!(tp.x, (43 + 155) / 2);
            assert_eq!(tp.y, 60 - 8);
            assert!(tp.anchor_middle);
        },
        _ => panic!("line and label expected"),
    }
}

#[test]
fn participant_labels_sit_centered_in_their_boxes() {
    let s = four_participants();
    let prims = s.make_nodes();
    match &prims[1] {
        Prim::Text(tp) => {
            assert_eq!((tp.x, tp.y), (43, 30));
            assert!(tp.anchor_middle && tp.baseline_central);
        },
        _ => panic!("header label expected"),
    }
    match &prims[3] {
        Prim::Text(tp) => {
            // footer label: the header's y plus the lifeline extent
            assert_eq!((tp.x, tp.y), (43, 30 + 150));
        },
        _ => panic!("footer label expected"),
    }
}

#[test]
fn bounding_box_counts_lanes_and_slots() {
    let s = four_participants();
    // width: two margins plus four lanes; height: margins, both boxes,
    // and the slot extent max(100, 5 * 30)
    assert_eq!(s.bounding_box(), (0, 0, 2 * 20 + 56 * 4, 2 * 20 + 2 * 20 + 150));
}

#[test]
fn messages_resolve_names_to_first_indices() {
    let s = four_participants();
    let ends: Vec<(usize, usize)> = (0..4).map(|i| {
        let e = &s.edges[i];
        (e.node1(), e.node2())
    }).collect();
    assert_eq!(ends, vec![(0, 2), (2, 1), (3, 2), (1, 2)]);
}

#[test]
fn unknown_endpoint_drops_only_its_message() {
    let mut s = Sequence::new(ThemeName::Default);
    s.add_nodes(vec!["a", "b"]);
    assert!(s.add_edge(("a", "b", "ok", Markers::Array)));
    assert!(!s.add_edge(("a", "ghost", "lost", Markers::NoArrow)));
    assert_eq!(s.dropped_count(), 1);
    assert_eq!(s.edges.len(), 1);
    // the diagram still renders the remaining message
    let text = s.make_svg().to_string();
    assert!(text.contains("ok"));
    assert!(!text.contains("lost"));
}

#[test]
fn duplicate_participant_names_are_rejected() {
    let mut s = Sequence::new(ThemeName::Default);
    assert!(s.add_node("actor"));
    assert!(!s.add_node("actor"));
    assert_eq!(s.nodes.len(), 1);
}

#[test]
fn vertical_extent_keeps_headroom() {
    let mut s = Sequence::new(ThemeName::Default);
    s.add_nodes(vec!["a", "b"]);
    // no messages: the default height wins
    assert_eq!(s.get_vertical_height(), 100);
    for i in 0..4 {
        s.add_edge(("a", "b", "m", if i % 2 == 0 { Markers::Array } else { Markers::NoArrow }));
    }
    // five slots of thirty beat the default
    assert_eq!(s.get_vertical_height(), 150);
}

#[test]
fn each_marker_kind_is_registered_once() {
    let mut s = Sequence::new(ThemeName::Default);
    s.add_nodes(vec!["a", "b"]);
    s.add_edge(("a", "b", "m1", Markers::Array));
    s.add_edge(("b", "a", "m2", Markers::Array));
    s.add_edge(("a", "b", "m3", Markers::NoArrow));
    assert_eq!(s.markers.len(), 2);
}

#[test]
fn marker_identifiers_are_stable() {
    assert_eq!(Markers::NoArrow.get_id(), None);
    assert_eq!(Markers::Array.get_id(), Some("url(#marker-1)".to_string()));
    assert_eq!(Markers::Array.get_as_id(), "marker-1");
}

#[test]
fn empty_sequence_diagram_keeps_its_margins() {
    let s = Sequence::new(ThemeName::Colorful);
    assert_eq!(s.bounding_box(), (0, 0, 40, 180));
    let text = s.make_svg().to_string();
    assert!(text.contains("viewBox"));
}

#[test]
fn participant_positions_follow_the_lane_metric() {
    assert_eq!(uml_generator::uml::sequence::rect_width(5), 46);
    assert_eq!(uml_generator::uml::sequence::position_x(0, 5), 20);
    assert_eq!(uml_generator::uml::sequence::position_x(3, 5), 20 + 3 * 56);
    assert_eq!(uml_generator::uml::sequence::position(2, 5), (20 + 2 * 56, 20));
    assert_eq!(uml_generator::uml::sequence::position_y(2, 5), 20);
}
