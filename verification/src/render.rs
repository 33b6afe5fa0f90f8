//! The vector-graphics emission layer.
//!
//! The layout engine produces positioned [`Prim`] values; this module turns
//! them into an svg document. Every call into the `svg` crate goes through
//! a small trusted wrapper; the composition around the wrappers is
//! verified, but the element values themselves are opaque.

use vstd::prelude::*;

use crate::helper::marker::Markers;
use crate::primitives::Prim;
use crate::uml::class::Class;
use crate::uml::class::ClassUML;
use crate::uml::sequence::Sequence;
use crate::LayoutError;

verus! {

// ---------------------------------------------------------------------
// the svg crate's types, declared for Verus
// ---------------------------------------------------------------------

#[verifier::external_type_specification]
#[verifier::external_body]
pub struct ExSVG(svg::node::element::SVG);

#[verifier::external_type_specification]
#[verifier::external_body]
pub struct ExRectangle(svg::node::element::Rectangle);

#[verifier::external_type_specification]
#[verifier::external_body]
pub struct ExLine(svg::node::element::Line);

#[verifier::external_type_specification]
#[verifier::external_body]
pub struct ExText(svg::node::element::Text);

#[verifier::external_type_specification]
#[verifier::external_body]
pub struct ExMarker(svg::node::element::Marker);

#[verifier::external_type_specification]
#[verifier::external_body]
pub struct ExPath(svg::node::element::Path);

#[verifier::external_type_specification]
#[verifier::external_body]
pub struct ExGroup(svg::node::element::Group);

#[verifier::external_type_specification]
#[verifier::external_body]
pub struct ExDefinitions(svg::node::element::Definitions);

#[verifier::external_type_specification]
#[verifier::external_body]
pub struct ExElement(svg::node::element::Element);

#[verifier::external_type_specification]
#[verifier::external_body]
pub struct ExValue(svg::node::Value);

// ---------------------------------------------------------------------
// trusted wrappers, one svg-crate function each
// ---------------------------------------------------------------------

/// Relies on `<usize as Into<svg::node::Value>>::into`: the decimal text of the number.
#[verifier::external_body]
fn val_usize(v: usize) -> svg::node::Value {
    v.into()
}

/// Relies on `<&str as Into<svg::node::Value>>::into`: the text itself.
#[verifier::external_body]
fn val_str(s: &str) -> svg::node::Value {
    s.into()
}

/// Relies on Value's From impl for 4-tuples: the four numbers separated by spaces.
#[verifier::external_body]
fn val_quad(a: usize, b: usize, c: usize, d: usize) -> svg::node::Value {
    (a, b, c, d).into()
}

/// Relies on `svg::node::element::SVG::new`: an empty svg root element.
#[verifier::external_body]
fn doc_new() -> svg::Document {
    svg::Document::new()
}

/// Relies on `svg::node::element::SVG::set`: assigns one attribute.
#[verifier::external_body]
fn doc_set(d: svg::Document, name: &str, v: svg::node::Value) -> svg::Document {
    d.set(name, v)
}

/// Relies on `svg::node::element::SVG::add`: appends one child node.
#[verifier::external_body]
fn doc_add(d: svg::Document, el: svg::node::element::Element) -> svg::Document {
    d.add(el)
}

/// Relies on `svg::node::element::Rectangle::new`.
#[verifier::external_body]
fn rect_new() -> svg::node::element::Rectangle {
    svg::node::element::Rectangle::new()
}

/// Relies on `svg::node::element::Rectangle::set`.
#[verifier::external_body]
fn rect_set(
    r: svg::node::element::Rectangle,
    name: &str,
    v: svg::node::Value,
) -> svg::node::element::Rectangle {
    r.set(name, v)
}

/// Relies on `Element::from(Rectangle)`: unwraps to the generic element.
#[verifier::external_body]
fn rect_into_element(r: svg::node::element::Rectangle) -> svg::node::element::Element {
    r.into()
}

/// Relies on `svg::node::element::Line::new`.
#[verifier::external_body]
fn line_new() -> svg::node::element::Line {
    svg::node::element::Line::new()
}

/// Relies on `svg::node::element::Line::set`.
#[verifier::external_body]
fn line_set(
    l: svg::node::element::Line,
    name: &str,
    v: svg::node::Value,
) -> svg::node::element::Line {
    l.set(name, v)
}

/// Relies on `Element::from(Line)`.
#[verifier::external_body]
fn line_into_element(l: svg::node::element::Line) -> svg::node::element::Element {
    l.into()
}

/// Relies on `svg::node::element::Text::new`: a text element holding the
/// given content.
#[verifier::external_body]
pub fn make_text(text: &str) -> svg::node::element::Text {
    svg::node::element::Text::new(text)
}

/// Relies on `svg::node::element::Text::set`.
#[verifier::external_body]
fn text_set(
    t: svg::node::element::Text,
    name: &str,
    v: svg::node::Value,
) -> svg::node::element::Text {
    t.set(name, v)
}

/// Relies on `Element::from(Text)`.
#[verifier::external_body]
fn text_into_element(t: svg::node::element::Text) -> svg::node::element::Element {
    t.into()
}

/// Relies on `svg::node::element::Marker::new`.
#[verifier::external_body]
fn marker_new() -> svg::node::element::Marker {
    svg::node::element::Marker::new()
}

/// Relies on `svg::node::element::Marker::set`.
#[verifier::external_body]
fn marker_set(
    m: svg::node::element::Marker,
    name: &str,
    v: svg::node::Value,
) -> svg::node::element::Marker {
    m.set(name, v)
}

/// Relies on `svg::node::element::Marker::add`.
#[verifier::external_body]
fn marker_add(
    m: svg::node::element::Marker,
    el: svg::node::element::Element,
) -> svg::node::element::Marker {
    m.add(el)
}

/// Relies on `Element::from(Marker)`.
#[verifier::external_body]
fn marker_into_element(m: svg::node::element::Marker) -> svg::node::element::Element {
    m.into()
}

/// Relies on `svg::node::element::Path::new`.
#[verifier::external_body]
fn path_new() -> svg::node::element::Path {
    svg::node::element::Path::new()
}

/// Relies on `svg::node::element::Path::set`.
#[verifier::external_body]
fn path_set(
    p: svg::node::element::Path,
    name: &str,
    v: svg::node::Value,
) -> svg::node::element::Path {
    p.set(name, v)
}

/// Relies on `Element::from(Path)`.
#[verifier::external_body]
fn path_into_element(p: svg::node::element::Path) -> svg::node::element::Element {
    p.into()
}

/// Relies on `svg::node::element::Group::new`.
#[verifier::external_body]
fn group_new() -> svg::node::element::Group {
    svg::node::element::Group::new()
}

/// Relies on `svg::node::element::Group::add`.
#[verifier::external_body]
fn group_add(
    g: svg::node::element::Group,
    el: svg::node::element::Element,
) -> svg::node::element::Group {
    g.add(el)
}

/// Relies on `svg::node::element::Definitions::new`.
#[verifier::external_body]
fn defs_new() -> svg::node::element::Definitions {
    svg::node::element::Definitions::new()
}

/// Relies on `svg::node::element::Definitions::add`.
#[verifier::external_body]
fn defs_add(
    d: svg::node::element::Definitions,
    el: svg::node::element::Element,
) -> svg::node::element::Definitions {
    d.add(el)
}

/// Relies on `Element::from(Definitions)`.
#[verifier::external_body]
fn defs_into_element(d: svg::node::element::Definitions) -> svg::node::element::Element {
    d.into()
}

/// Relies on `svg::node::element::SVG::set` for the `style` attribute; the
/// style text is formatted from the given color.
#[verifier::external_body]
pub fn change_background_color(doc: svg::Document, color: &str) -> svg::Document {
    doc.set("style", format!("background-color:{}", color))
}

// ---------------------------------------------------------------------
// verified composition
// ---------------------------------------------------------------------

/// A bare rectangle of the given size.
pub fn make_rect(width: usize, height: usize) -> svg::node::element::Rectangle {
    let r = rect_new();
    let r = rect_set(r, "width", val_usize(width));
    rect_set(r, "height", val_usize(height))
}

/// A line between the two given points.
pub fn make_line(x1: usize, y1: usize, x2: usize, y2: usize) -> svg::node::element::Line {
    let l = line_new();
    let l = line_set(l, "x1", val_usize(x1));
    let l = line_set(l, "y1", val_usize(y1));
    let l = line_set(l, "x2", val_usize(x2));
    line_set(l, "y2", val_usize(y2))
}

impl Markers {
    /// The reusable definition of this marker kind, under its stable
    /// identifier: the arrow kind carries the arrowhead path.
    pub fn make_svg(&self) -> svg::node::element::Marker {
        let id = self.get_as_id();
        let mut marker = marker_new();
        marker = marker_set(marker, "id", val_str(id.as_str()));
        match self {
            Markers::Array => {
                marker = marker_set(marker, "viewBox", val_quad(0, 0, 10, 10));
                marker = marker_set(marker, "markerWidth", val_usize(5));
                marker = marker_set(marker, "markerHeight", val_usize(5));
                marker = marker_set(marker, "orient", val_str("auto-start-reverse"));
                marker = marker_set(marker, "refX", val_usize(10));
                marker = marker_set(marker, "refY", val_usize(5));
                let head = path_set(path_new(), "d", val_str("M 0 0 L 10 5 L 0 10 z"));
                marker = marker_add(marker, path_into_element(head));
            },
            _ => {},
        }
        marker
    }
}

/// One svg element per primitive, at the primitive's own coordinates.
fn element_of_prim(p: &Prim) -> svg::node::element::Element {
    match p {
        Prim::Rect(rp) => {
            let mut r = make_rect(rp.width, rp.height);
            r = rect_set(r, "x", val_usize(rp.x));
            r = rect_set(r, "y", val_usize(rp.y));
            r = rect_set(r, "rx", val_usize(rp.rx));
            r = rect_set(r, "ry", val_usize(rp.ry));
            r = rect_set(r, "fill", val_str(rp.fill));
            r = rect_set(r, "stroke", val_str(rp.stroke));
            r = rect_set(r, "stroke-width", val_usize(rp.stroke_width));
            rect_into_element(r)
        },
        Prim::Line(lp) => {
            let mut l = make_line(lp.x1, lp.y1, lp.x2, lp.y2);
            l = line_set(l, "stroke", val_str(lp.stroke));
            l = line_set(l, "stroke-width", val_usize(lp.stroke_width));
            match lp.marker_end.get_id() {
                Option::Some(id) => {
                    l = line_set(l, "marker-end", val_str(id.as_str()));
                },
                Option::None => {},
            }
            line_into_element(l)
        },
        Prim::Text(tp) => {
            let mut t = make_text(tp.content.as_str());
            t = text_set(t, "x", val_usize(tp.x));
            t = text_set(t, "y", val_usize(tp.y));
            t = text_set(t, "font-size", val_usize(tp.font_size));
            t = text_set(t, "fill", val_str(tp.fill));
            if tp.anchor_middle {
                t = text_set(t, "text-anchor", val_str("middle"));
            }
            if tp.baseline_central {
                t = text_set(t, "dominant-baseline", val_str("central"));
            }
            text_into_element(t)
        },
    }
}

/// A document holding every primitive, with the given viewport.
fn document_of_prims(
    prims: &Vec<Prim>,
    bbox: (usize, usize, usize, usize),
    markers: &Vec<Markers>,
) -> svg::Document {
    let mut doc = doc_new();
    doc = doc_set(doc, "viewBox", val_quad(bbox.0, bbox.1, bbox.2, bbox.3));
    let mut defs = defs_new();
    let mut m: usize = 0;
    while m < markers.len()
        decreases markers@.len() - m,
    {
        defs = defs_add(defs, marker_into_element(markers[m].make_svg()));
        m = m + 1;
    }
    doc = doc_add(doc, defs_into_element(defs));
    let mut i: usize = 0;
    while i < prims.len()
        decreases prims@.len() - i,
    {
        doc = doc_add(doc, element_of_prim(&prims[i]));
        i = i + 1;
    }
    doc
}

impl crate::uml::sequence::Node {
    /// The participant's label as a bare text element.
    pub fn make_svg(&self) -> svg::node::element::Text {
        make_text(self.name.as_str())
    }
}

impl crate::uml::sequence::Edge {
    /// The message's label as a bare text element.
    pub fn make_text(&self) -> svg::node::element::Text {
        make_text(self.2.as_str())
    }
}

impl Sequence {
    /// The whole diagram as an svg document: lifelines under the
    /// participant boxes, message connectors above them, and one reusable
    /// marker definition per registered kind.
    pub fn make_svg(&self) -> svg::Document
        requires
            self.wf(),
            self.fits(),
    {
        let bbox = self.bounding_box();
        let mut prims = self.make_vertical_lines();
        let mut boxes = self.make_nodes();
        let mut lines = self.make_horizontal_lines();
        prims.append(&mut boxes);
        prims.append(&mut lines);
        document_of_prims(&prims, bbox, &self.markers)
    }
}

impl ClassUML {
    /// The whole diagram as an svg document, or the cycle error.
    pub fn make_svg(&self) -> (r: Result<svg::Document, LayoutError>)
        requires
            self.wf(),
            self.fits(),
        ensures
            r is Err ==> r->Err_0 == LayoutError::CycleDetected && !crate::helper::has_topo_order(
                self.nodes@.len(),
                self.edges@,
            ),
            r is Ok ==> crate::helper::has_topo_order(self.nodes@.len(), self.edges@),
    {
        let (prims, bbox) = match self.make_prims() {
            Ok(pb) => pb,
            Err(e) => {
                return Err(e);
            },
        };
        let empty: Vec<Markers> = Vec::new();
        Ok(document_of_prims(&prims, bbox, &empty))
    }
}

impl Class {
    /// The first class's card as a free-standing svg group.
    pub fn make_svg(&self) -> svg::node::element::Group
        requires
            self.nodes@.len() >= 1,
            crate::uml::class::CARD_SIZE + (crate::uml::class::FONT_SIZE
                + crate::uml::class::PADDING) * (self.nodes@[0].elements@.len()
                + self.nodes@[0].methods@.len()) <= usize::MAX,
    {
        let prims = self.nodes[0].card_prims(0, 0, &self.theme);
        let mut group = group_new();
        let mut i: usize = 0;
        while i < prims.len()
            decreases prims@.len() - i,
        {
            group = group_add(group, element_of_prim(&prims[i]));
            i = i + 1;
        }
        group
    }
}

} // verus!
