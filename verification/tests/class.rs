//! Tests of the class-diagram model and layout.

use uml_generator::primitives::Prim;
use uml_generator::uml::Class;
use uml_generator::uml::ClassNode;
use uml_generator::uml::ClassUML;

#[test]
fn class_class_test() {
    let mut class = Class::new();
    class.add_class("hello world", &[], &[]);
    assert!(class.nodes == vec![ClassNode::new("hello world", vec![], vec![])]);
}

#[test]
fn mod_class_test() {
    let mut class = ClassUML::new("class component");
    class.add_class("hello world", &[], &[]);
    assert!(class.nodes == vec![ClassNode::new("hello world", vec![], vec![])]);
}

#[test]
fn test_class() {
    let mut c = Class::new();
    c.add_class(
        "class element",
        &[(false, "element"), (true, "element2")],
        &[(true, "method1"), (true, "method2"), (false, "method3")],
    );
    c.add_class(
        "class element2",
        &[(false, "element"), (true, "element2")],
        &[(true, "method1"), (true, "method2"), (false, "method3")],
    );
    assert_eq!(c.nodes.len(), 2);
    let document = svg::Document::new()
        .set("viewBox", (0, 0, 100, 100))
        .add(c.make_svg());
    let text = document.to_string();
    assert!(text.contains("viewBox"));
    assert!(text.contains("class element"));
}

#[test]
fn single_entity_fills_one_cell() {
    // one entity named "X" with two attributes and three operations
    let mut c = ClassUML::new("single");
    c.add_class(
        "X",
        &[(true, "a1"), (false, "a2")],
        &[(true, "m1"), (true, "m2"), (false, "m3")],
    );
    let bb = c.bounding_box().expect("no relations, no cycle");
    assert_eq!(bb, (0, 0, 120, 120));
    let layout = c.compute_layout().expect("no relations, no cycle");
    assert_eq!(layout.ranks[1], 1);
    assert_eq!(layout.columns[1], 0);
    assert_eq!(layout.width_cells, 1);
    assert_eq!(layout.height_cells, 1);
}

#[test]
fn card_regions_follow_the_line_counts() {
    let mut c = ClassUML::new("single");
    c.add_class(
        "X",
        &[(true, "a1"), (false, "a2")],
        &[(true, "m1"), (true, "m2"), (false, "m3")],
    );
    let theme = uml_generator::theme::Theme::new(uml_generator::theme::ThemeName::Default);
    let prims = c.nodes[0].card_prims(0, 0, &theme);
    // card, two dividers, title, then a glyph and a name per line
    assert_eq!(prims.len(), 4 + 2 * 5);
    match &prims[0] {
        Prim::Rect(rp) => {
            assert_eq!((rp.x, rp.y, rp.width, rp.height), (0, 0, 100, 100));
        },
        _ => panic!("card rectangle expected first"),
    }
    match &prims[1] {
        Prim::Line(lp) => assert_eq!((lp.y1, lp.y2), (16, 16)),
        _ => panic!("title divider expected"),
    }
    // the second divider sits below the two attribute lines
    match &prims[2] {
        Prim::Line(lp) => assert_eq!((lp.y1, lp.y2), (48, 48)),
        _ => panic!("attribute divider expected"),
    }
    match &prims[3] {
        Prim::Text(tp) => {
            assert_eq!((tp.x, tp.y), (50, 12));
            assert_eq!(tp.content, "X");
        },
        _ => panic!("title text expected"),
    }
    // attribute lines at 29 and 40, operation lines at 61, 72, 83
    let expect = [
        (4usize, 29usize, "+"),
        (6, 40, "-"),
        (8, 61, "+"),
        (10, 72, "+"),
        (12, 83, "-"),
    ];
    for &(idx, y, mark) in &expect {
        match &prims[idx] {
            Prim::Text(tp) => {
                assert_eq!(tp.y, y);
                assert_eq!(tp.content, mark);
            },
            _ => panic!("visibility glyph expected at {}", idx),
        }
    }
}

#[test]
fn edge_connects_cell_centers() {
    let mut c = ClassUML::new("pair");
    c.add_class("a", &[], &[]);
    c.add_class("b", &[], &[]);
    c.add_edges(&[(1, 2)]);
    let layout = c.compute_layout().expect("one edge, no cycle");
    let line = c.make_edge(&layout.ranks, &layout.columns, 1, 2);
    // bottom center of a's cell to top center of b's cell
    assert_eq!((line.x1, line.y1), (50, 100));
    assert_eq!((line.x2, line.y2), (50, 120));
}

#[test]
fn cards_and_connectors_sit_at_their_grid_cells() {
    let mut c = ClassUML::new("pair");
    c.add_class("a", &[], &[]);
    c.add_class("b", &[], &[]);
    c.add_edges(&[(1, 2)]);
    let (prims, _) = c.make_prims().expect("one edge, no cycle");
    // one connector, then two cards of four primitives each
    assert_eq!(prims.len(), 1 + 4 + 4);
    match &prims[0] {
        Prim::Line(lp) => {
            // bottom center of a's cell to top center of b's cell, both
            // shifted by the drawing inset
            assert_eq!((lp.x1, lp.y1), (60, 110));
            assert_eq!((lp.x2, lp.y2), (60, 130));
        },
        _ => panic!("connector expected first"),
    }
    match &prims[1] {
        Prim::Rect(rp) => assert_eq!((rp.x, rp.y), (10, 10)),
        _ => panic!("first card expected after the connector"),
    }
    match &prims[5] {
        Prim::Rect(rp) => assert_eq!((rp.x, rp.y), (10, 130)),
        _ => panic!("second card expected"),
    }
}

#[test]
fn single_entity_card_sits_at_the_inset() {
    let mut c = ClassUML::new("single");
    c.add_class(
        "X",
        &[(true, "a1"), (false, "a2")],
        &[(true, "m1"), (true, "m2"), (false, "m3")],
    );
    let (prims, bbox) = c.make_prims().expect("no relations, no cycle");
    assert_eq!(bbox, (0, 0, 120, 120));
    match &prims[0] {
        Prim::Rect(rp) => assert_eq!((rp.x, rp.y), (10, 10)),
        _ => panic!("the single card expected first"),
    }
}

#[test]
fn every_primitive_stays_inside_the_reported_box() {
    let mut c = ClassUML::new("seven");
    for name in ["e1", "e2", "e3", "e4", "e5", "e6", "e7"] {
        c.add_class(name, &[(true, "a")], &[(false, "m")]);
    }
    c.add_edges(&[(1, 2), (2, 4), (3, 6), (1, 5), (2, 3), (3, 4), (5, 6)]);
    let (prims, bbox) = c.make_prims().expect("graph is acyclic");
    assert_eq!((bbox.0, bbox.1), (0, 0));
    assert!(bbox.2 > 0 && bbox.3 > 0);
    for p in &prims {
        match p {
            Prim::Rect(rp) => {
                assert!(rp.x + rp.width <= bbox.2);
                assert!(rp.y + rp.height <= bbox.3);
            },
            Prim::Line(lp) => {
                assert!(lp.x1 <= bbox.2 && lp.x2 <= bbox.2);
                assert!(lp.y1 <= bbox.3 && lp.y2 <= bbox.3);
            },
            Prim::Text(tp) => {
                assert!(tp.x <= bbox.2 && tp.y <= bbox.3);
            },
        }
    }
}

#[test]
fn same_rank_never_shares_a_column() {
    let mut c = ClassUML::new("grid");
    for name in ["e1", "e2", "e3", "e4", "e5"] {
        c.add_class(name, &[], &[]);
    }
    // entities 2..5 all depend on 1, so they share rank 2
    c.add_edges(&[(1, 2), (1, 3), (1, 4), (1, 5)]);
    let layout = c.compute_layout().expect("graph is acyclic");
    for i in 1..=5usize {
        for j in 1..=5usize {
            if i != j && layout.ranks[i] == layout.ranks[j] {
                assert_ne!(layout.columns[i], layout.columns[j]);
            }
        }
    }
    assert_eq!(layout.width_cells, 4);
    assert_eq!(layout.height_cells, 2);
}

#[test]
fn cyclic_diagram_refuses_to_lay_out() {
    let mut c = ClassUML::new("loop");
    c.add_class("a", &[], &[]);
    c.add_class("b", &[], &[]);
    c.add_class("c", &[], &[]);
    c.add_edges(&[(1, 2), (2, 3), (3, 1)]);
    assert!(c.compute_layout().is_err());
    assert!(c.make_svg().is_err());
}

#[test]
fn diagram_document_mentions_its_viewport() {
    let mut c = ClassUML::new("doc");
    c.add_class("alpha", &[], &[]);
    c.add_class("beta", &[], &[]);
    c.add_edges(&[(1, 2)]);
    let doc = c.make_svg().expect("graph is acyclic");
    let text = doc.to_string();
    assert!(text.contains("viewBox"));
    assert!(text.contains("alpha"));
    assert!(text.contains("<rect"));
    assert!(text.contains("<line"));
}

#[test]
fn empty_diagram_degenerates_to_nothing() {
    let c = ClassUML::new("empty");
    let bb = c.bounding_box().expect("empty diagram never fails");
    assert_eq!(bb, (0, 0, 0, 0));
}
