//! The sequence-diagram model and its lane/slot layout.
//!
//! Participants (lifelines) are added in order; each one owns a lane whose
//! width is driven by the single longest participant name. Messages are
//! resolved from names to participant indices when they are added, and
//! their insertion order fixes their vertical time slot. A message naming
//! an unknown participant is dropped and counted, never fatal.

use vstd::prelude::*;

use crate::helper::marker::Markers;
use crate::primitives::LinePrim;
use crate::primitives::Prim;
use crate::primitives::RectPrim;
use crate::primitives::TextPrim;
use crate::primitives::prims_in_box;
use crate::theme::Theme;
use crate::theme::ThemeName;

verus! {

broadcast use vstd::seq_lib::lemma_seq_contains_after_push;

/// Height of a participant's header and footer box.
pub const RECT_HEIGHT: usize = 20;

/// Font size of labels, which doubles as the per-glyph width of the
/// fixed monospace metric.
pub const FONT_SIZE: usize = 8;

/// Inner padding of a participant box.
pub const PADDING: usize = 3;

/// Outer margin of a participant box.
pub const MARGIN: usize = 5;

/// Left margin of the whole diagram.
pub const X_INDEX: usize = 20;

/// Top margin of the whole diagram.
pub const Y_INDEX: usize = 20;

/// Minimum vertical extent of the lifelines.
pub const DEFAULT_HEIGHT: usize = 100;

/// Vertical distance between consecutive message slots.
pub const VERTICAL_HEIGHT: usize = 30;

/// Width of one participant box, from the longest label length.
pub open spec fn spec_rect_width(max_length: int) -> int {
    FONT_SIZE * max_length + PADDING * 2
}

/// Horizontal distance between consecutive lanes.
pub open spec fn spec_lane_width(max_length: int) -> int {
    FONT_SIZE * max_length + PADDING * 2 + MARGIN * 2
}

/// Vertical extent of the lifelines for a given message count.
pub open spec fn spec_vertical_height(msgs: int) -> int {
    if (msgs + 1) * VERTICAL_HEIGHT > DEFAULT_HEIGHT {
        (msgs + 1) * VERTICAL_HEIGHT
    } else {
        DEFAULT_HEIGHT as int
    }
}

/// Width of one participant box.
pub fn rect_width(max_length: usize) -> (r: usize)
    requires
        spec_rect_width(max_length as int) <= usize::MAX,
    ensures
        r == spec_rect_width(max_length as int),
{
    FONT_SIZE * max_length + PADDING * 2
}

/// The x coordinate of participant `index`'s lane.
pub fn position_x(index: usize, max_length: usize) -> (r: usize)
    requires
        spec_lane_width(max_length as int) <= usize::MAX,
        X_INDEX + spec_lane_width(max_length as int) * index <= usize::MAX,
    ensures
        r == X_INDEX + spec_lane_width(max_length as int) * index,
{
    X_INDEX + (max_length * FONT_SIZE + PADDING * 2 + MARGIN * 2) * index
}

/// The y coordinate of a participant's header box.
pub fn position_y(_index: usize, _max_length: usize) -> (r: usize)
    ensures
        r == Y_INDEX,
{
    Y_INDEX
}

/// The `(x, y)` position of participant `index`'s header box.
pub fn position(index: usize, max_length: usize) -> (r: (usize, usize))
    requires
        spec_lane_width(max_length as int) <= usize::MAX,
        X_INDEX + spec_lane_width(max_length as int) * index <= usize::MAX,
    ensures
        r.0 == X_INDEX + spec_lane_width(max_length as int) * index,
        r.1 == Y_INDEX,
{
    (position_x(index, max_length), position_y(index, max_length))
}

/// A participant (lifeline).
#[derive(PartialEq, Eq, Debug)]
pub struct Node {
    pub name: String,
}

/// A message between two participants: source index, target index, label,
/// and the arrowhead it ends in.
pub struct Edge(pub usize, pub usize, pub String, pub Markers);

impl Edge {
    /// A message from its resolved endpoint indices, label and marker.
    pub fn new(x: usize, y: usize, s: String, m: Markers) -> (r: Edge)
        ensures
            r.0 == x,
            r.1 == y,
            r.2 == s,
            r.3 == m,
    {
        Edge(x, y, s, m)
    }

    /// Index of the source participant.
    pub fn node1(&self) -> (r: usize)
        ensures
            r == self.0,
    {
        self.0
    }

    /// Index of the target participant.
    pub fn node2(&self) -> (r: usize)
        ensures
            r == self.1,
    {
        self.1
    }

    /// Header-box position of the source participant's lane.
    pub fn position_node1(&self, max_length: usize) -> (r: (usize, usize))
        requires
            spec_lane_width(max_length as int) <= usize::MAX,
            X_INDEX + spec_lane_width(max_length as int) * self.0 <= usize::MAX,
        ensures
            r.0 == X_INDEX + spec_lane_width(max_length as int) * self.0,
            r.1 == Y_INDEX,
    {
        position(self.0, max_length)
    }

    /// Header-box position of the target participant's lane.
    pub fn position_node2(&self, max_length: usize) -> (r: (usize, usize))
        requires
            spec_lane_width(max_length as int) <= usize::MAX,
            X_INDEX + spec_lane_width(max_length as int) * self.1 <= usize::MAX,
        ensures
            r.0 == X_INDEX + spec_lane_width(max_length as int) * self.1,
            r.1 == Y_INDEX,
    {
        position(self.1, max_length)
    }

    /// The arrowhead this message ends in.
    pub fn marker_type(&self) -> (r: Markers)
        ensures
            r == self.3,
    {
        self.3
    }
}

/// The length of the longest participant name.
pub open spec fn max_name_len(nodes: Seq<Node>) -> int
    decreases nodes.len(),
{
    if nodes.len() == 0 {
        0
    } else {
        let rest = max_name_len(nodes.drop_last());
        let last = nodes.last().name@.len() as int;
        if last > rest {
            last
        } else {
            rest
        }
    }
}

/// Some participant carries this name.
pub open spec fn has_name(nodes: Seq<Node>, t: Seq<char>) -> bool {
    exists|i: int| 0 <= i < nodes.len() && (#[trigger] nodes[i]).name@ == t
}

/// `i` is the first participant carrying this name.
pub open spec fn is_first_name(nodes: Seq<Node>, t: Seq<char>, i: int) -> bool {
    &&& 0 <= i < nodes.len()
    &&& nodes[i].name@ == t
    &&& forall|m: int| 0 <= m < i ==> (#[trigger] nodes[m]).name@ != t
}

/// The participants' names, in order.
pub open spec fn names_view(nodes: Seq<Node>) -> Seq<Seq<char>> {
    nodes.map_values(|n: Node| n.name@)
}

/// The name list after adding each text in turn, skipping the names
/// already present.
pub open spec fn add_names(names: Seq<Seq<char>>, texts: Seq<Seq<char>>) -> Seq<Seq<char>>
    decreases texts.len(),
{
    if texts.len() == 0 {
        names
    } else {
        let with_first = if names.contains(texts[0]) {
            names
        } else {
            names.push(texts[0])
        };
        add_names(with_first, texts.drop_first())
    }
}

/// A name occurs among the participants exactly when it occurs in their
/// name list.
proof fn lemma_names_view_contains(nodes: Seq<Node>, t: Seq<char>)
    ensures
        names_view(nodes).contains(t) <==> has_name(nodes, t),
{
    if has_name(nodes, t) {
        let i = choose|i: int| 0 <= i < nodes.len() && (#[trigger] nodes[i]).name@ == t;
        assert(names_view(nodes)[i] == t);
    }
    if names_view(nodes).contains(t) {
        let i = choose|i: int|
            0 <= i < names_view(nodes).len() && names_view(nodes)[i] == t;
        assert(nodes[i].name@ == t);
        assert(has_name(nodes, t));
    }
}

/// The view of each message: endpoint indices, label text, arrowhead.
pub open spec fn msg_views(edges: Seq<Edge>) -> Seq<(usize, usize, Seq<char>, Markers)> {
    edges.map_values(|e: Edge| (e.0, e.1, e.2@, e.3))
}

/// The index of the first participant carrying the name (meaningful only
/// when some participant does).
pub open spec fn first_name_index(nodes: Seq<Node>, t: Seq<char>) -> int {
    choose|i: int| is_first_name(nodes, t, i)
}

/// Ahead of any occurrence of a name stands a first occurrence.
proof fn lemma_first_name_exists(nodes: Seq<Node>, t: Seq<char>, j: int)
    requires
        0 <= j < nodes.len(),
        nodes[j].name@ == t,
    ensures
        is_first_name(nodes, t, first_name_index(nodes, t)),
    decreases j,
{
    if forall|m: int| 0 <= m < j ==> (#[trigger] nodes[m]).name@ != t {
        assert(is_first_name(nodes, t, j));
    } else {
        let m = choose|m: int| 0 <= m < j && (#[trigger] nodes[m]).name@ == t;
        lemma_first_name_exists(nodes, t, m);
    }
}

/// The first occurrence of a name is unique.
proof fn lemma_first_name_unique(nodes: Seq<Node>, t: Seq<char>, i: int)
    requires
        is_first_name(nodes, t, i),
    ensures
        first_name_index(nodes, t) == i,
{
    lemma_first_name_exists(nodes, t, i);
    let i0 = first_name_index(nodes, t);
    if i0 < i {
        assert(nodes[i0].name@ != t);
    } else if i < i0 {
        assert(nodes[i].name@ != t);
    }
}

/// The views of the messages that resolve against the participants, in
/// supplied order, with first-match endpoint indices.
pub open spec fn kept_msgs(
    nodes: Seq<Node>,
    msgs: Seq<(&str, &str, &str, Markers)>,
) -> Seq<(usize, usize, Seq<char>, Markers)>
    decreases msgs.len(),
{
    if msgs.len() == 0 {
        Seq::empty()
    } else {
        let rest = kept_msgs(nodes, msgs.drop_last());
        let m = msgs.last();
        if has_name(nodes, m.0@) && has_name(nodes, m.1@) {
            rest.push(
                (
                    first_name_index(nodes, m.0@) as usize,
                    first_name_index(nodes, m.1@) as usize,
                    m.2@,
                    m.3,
                ),
            )
        } else {
            rest
        }
    }
}

proof fn lemma_kept_msgs_bound(nodes: Seq<Node>, msgs: Seq<(&str, &str, &str, Markers)>)
    ensures
        kept_msgs(nodes, msgs).len() <= msgs.len(),
    decreases msgs.len(),
{
    if msgs.len() > 0 {
        lemma_kept_msgs_bound(nodes, msgs.drop_last());
    }
}

/// A sequence diagram: participants, resolved messages, and the set of
/// marker kinds the messages use.
pub struct Sequence {
    pub nodes: Vec<Node>,
    pub edges: Vec<Edge>,
    pub max_length: usize,
    pub markers: Vec<Markers>,
    pub theme: Theme,
    pub dropped: usize,
}

impl Sequence {
    /// Message endpoints reference existing participants, the cached label
    /// length is the longest name, and each marker kind is registered once.
    pub open spec fn wf(&self) -> bool {
        &&& forall|k: int|
            0 <= k < self.edges@.len() ==> (#[trigger] self.edges@[k]).0 < self.nodes@.len()
                && self.edges@[k].1 < self.nodes@.len()
        &&& self.max_length as int == max_name_len(self.nodes@)
        &&& self.markers@.no_duplicates()
    }

    /// An empty diagram under the chosen theme.
    pub fn new(theme: ThemeName) -> (r: Sequence)
        ensures
            r.wf(),
            r.nodes@.len() == 0,
            r.edges@.len() == 0,
            r.markers@.len() == 0,
            r.max_length == 0,
            r.dropped == 0,
            crate::theme::is_scheme(r.theme, theme),
    {
        Sequence {
            nodes: Vec::new(),
            edges: Vec::new(),
            max_length: 0,
            markers: Vec::new(),
            theme: Theme::new(theme),
            dropped: 0,
        }
    }

    /// How many messages were dropped because an endpoint name was unknown.
    pub fn dropped_count(&self) -> (r: usize)
        ensures
            r == self.dropped,
    {
        self.dropped
    }

    /// The first participant carrying the name, if any.
    fn find_node(&self, text: &String) -> (r: Option<usize>)
        ensures
            match r {
                Option::Some(i) => is_first_name(self.nodes@, text@, i as int),
                Option::None => !has_name(self.nodes@, text@),
            },
    {
        let mut i: usize = 0;
        while i < self.nodes.len()
            invariant
                i <= self.nodes@.len(),
                forall|m: int| 0 <= m < i ==> (#[trigger] self.nodes@[m]).name@ != text@,
            decreases self.nodes@.len() - i,
        {
            if self.nodes[i].name == *text {
                return Option::Some(i);
            }
            i = i + 1;
        }
        Option::None
    }

    /// Adds a lifeline, unless a participant of that name already exists;
    /// returns whether it was added. The longest-name metric follows.
    pub fn add_node(&mut self, text: &str) -> (added: bool)
        requires
            old(self).wf(),
        ensures
            final(self).wf(),
            added == !has_name(old(self).nodes@, text@),
            added ==> final(self).nodes@.len() == old(self).nodes@.len() + 1 && final(self).nodes@.last().name@ == text@,
            !added ==> final(self).nodes@ == old(self).nodes@,
            forall|i: int|
                0 <= i < old(self).nodes@.len() ==> final(self).nodes@[i] == old(self).nodes@[i],
            final(self).edges == old(self).edges,
            final(self).markers == old(self).markers,
            final(self).theme == old(self).theme,
            final(self).dropped == old(self).dropped,
    {
        let owned = text.to_owned();
        match self.find_node(&owned) {
            Option::Some(_) => false,
            Option::None => {
                let len = text.unicode_len();
                let node = Node { name: owned };
                let ghost prev = self.nodes@;
                self.nodes.push(node);
                if self.max_length < len {
                    self.max_length = len;
                }
                proof {
                    assert(self.nodes@.drop_last() =~= prev);
                }
                true
            },
        }
    }

    /// Adds each name in turn, skipping the ones already present: the
    /// participant list ends as the old one followed by exactly the first
    /// occurrences of the new names, in list order.
    pub fn add_nodes(&mut self, texts: Vec<&str>)
        requires
            old(self).wf(),
        ensures
            final(self).wf(),
            final(self).edges == old(self).edges,
            final(self).markers == old(self).markers,
            final(self).theme == old(self).theme,
            final(self).dropped == old(self).dropped,
            forall|i: int|
                0 <= i < old(self).nodes@.len() ==> final(self).nodes@[i] == old(self).nodes@[i],
            forall|j: int|
                0 <= j < texts@.len() ==> has_name(final(self).nodes@, (#[trigger] texts@[j])@),
            names_view(final(self).nodes@) == add_names(
                names_view(old(self).nodes@),
                texts@.map_values(|t: &str| t@),
            ),
    {
        let ghost orig = self.nodes@;
        let ghost tv = texts@.map_values(|t: &str| t@);
        proof {
            assert(tv.skip(0) =~= tv);
        }
        let mut i: usize = 0;
        while i < texts.len()
            invariant
                self.wf(),
                i <= texts@.len(),
                self.edges == old(self).edges,
                self.markers == old(self).markers,
                self.theme == old(self).theme,
                self.dropped == old(self).dropped,
                orig == old(self).nodes@,
                tv == texts@.map_values(|t: &str| t@),
                orig.len() <= self.nodes@.len(),
                forall|m: int| 0 <= m < orig.len() ==> self.nodes@[m] == orig[m],
                forall|j: int|
                    0 <= j < i ==> has_name(self.nodes@, (#[trigger] texts@[j])@),
                add_names(names_view(orig), tv) == add_names(
                    names_view(self.nodes@),
                    tv.skip(i as int),
                ),
            decreases texts@.len() - i,
        {
            let ghost before = self.nodes@;
            let added = self.add_node(texts[i]);
            proof {
                assert forall|j: int|
                    0 <= j < i + 1 implies has_name(self.nodes@, (#[trigger] texts@[j])@) by {
                    if j < i {
                        let w = choose|w: int|
                            0 <= w < before.len() && (#[trigger] before[w]).name@
                                == texts@[j]@;
                        assert(self.nodes@[w].name@ == texts@[j]@);
                    } else {
                        if has_name(before, texts@[j]@) {
                            let w = choose|w: int|
                                0 <= w < before.len() && (#[trigger] before[w]).name@
                                    == texts@[j]@;
                            assert(self.nodes@[w].name@ == texts@[j]@);
                        } else {
                            assert(self.nodes@.last().name@ == texts@[j]@);
                        }
                    }
                }
                // one text is consumed: the name list takes one recursion step
                let rest = tv.skip(i as int);
                assert(rest[0] == tv[i as int] && tv[i as int] == texts@[i as int]@);
                assert(rest.drop_first() =~= tv.skip(i as int + 1));
                lemma_names_view_contains(before, texts@[i as int]@);
                if added {
                    assert(names_view(self.nodes@) =~= names_view(before).push(
                        texts@[i as int]@,
                    )) by {
                        assert(self.nodes@.last().name@ == texts@[i as int]@);
                    }
                } else {
                    assert(names_view(self.nodes@) == names_view(before));
                }
                assert(add_names(names_view(before), rest) == add_names(
                    names_view(self.nodes@),
                    tv.skip(i as int + 1),
                ));
            }
            i = i + 1;
        }
        proof {
            assert(tv.skip(texts@.len() as int) =~= Seq::<Seq<char>>::empty());
            assert(tv.skip(i as int).len() == 0);
        }
    }

    /// Registers a marker kind, once.
    fn register_marker(&mut self, marker: Markers)
        requires
            old(self).markers@.no_duplicates(),
        ensures
            final(self).markers@.no_duplicates(),
            final(self).markers@.contains(marker),
            old(self).markers@.contains(marker) ==> final(self).markers@ == old(self).markers@,
            !old(self).markers@.contains(marker) ==> final(self).markers@ == old(self).markers@.push(marker),
            final(self).nodes == old(self).nodes,
            final(self).edges == old(self).edges,
            final(self).max_length == old(self).max_length,
            final(self).theme == old(self).theme,
            final(self).dropped == old(self).dropped,
    {
        let mut i: usize = 0;
        while i < self.markers.len()
            invariant
                i <= self.markers@.len(),
                forall|m: int| 0 <= m < i ==> self.markers@[m] != marker,
                self == old(self),
                self.markers@.no_duplicates(),
            decreases self.markers@.len() - i,
        {
            if self.markers[i] == marker {
                proof {
                    assert(self.markers@[i as int] == marker);
                    assert(self.markers@.contains(marker));
                }
                return ;
            }
            i = i + 1;
        }
        proof {
            if old(self).markers@.contains(marker) {
                let w = choose|w: int|
                    0 <= w < self.markers@.len() && self.markers@[w] == marker;
                assert(false);
            }
            crate::helper::lemma_push_unique(self.markers@, marker);
        }
        self.markers.push(marker);
    }

    /// Adds a message `(from, to, label, marker)`, resolving both endpoint
    /// names. An unknown endpoint drops the message and counts it; the
    /// marker kind is registered either way.
    pub fn add_edge(&mut self, edge: (&str, &str, &str, Markers)) -> (added: bool)
        requires
            old(self).wf(),
            old(self).dropped < usize::MAX,
        ensures
            final(self).wf(),
            added == (has_name(old(self).nodes@, edge.0@) && has_name(
                old(self).nodes@,
                edge.1@,
            )),
            added ==> {
                &&& final(self).edges@.len() == old(self).edges@.len() + 1
                &&& is_first_name(
                    old(self).nodes@,
                    edge.0@,
                    final(self).edges@.last().0 as int,
                )
                &&& is_first_name(
                    old(self).nodes@,
                    edge.1@,
                    final(self).edges@.last().1 as int,
                )
                &&& final(self).edges@.last().2@ == edge.2@
                &&& final(self).edges@.last().3 == edge.3
                &&& final(self).dropped == old(self).dropped
            },
            !added ==> final(self).edges@ == old(self).edges@ && final(self).dropped == old(self).dropped + 1,
            forall|k: int|
                0 <= k < old(self).edges@.len() ==> final(self).edges@[k] == old(self).edges@[k],
            final(self).markers@.contains(edge.3),
            forall|x: Markers|
                old(self).markers@.contains(x) ==> final(self).markers@.contains(x),
            final(self).nodes == old(self).nodes,
            final(self).max_length == old(self).max_length,
            final(self).theme == old(self).theme,
    {
        let (start, end, text, marker) = edge;
        self.register_marker(marker);
        let source_index = self.find_node(&start.to_owned());
        let target_index = self.find_node(&end.to_owned());
        match (source_index, target_index) {
            (Option::Some(s), Option::Some(t)) => {
                self.edges.push(Edge::new(s, t, text.to_owned(), marker));
                true
            },
            _ => {
                self.dropped = self.dropped + 1;
                false
            },
        }
    }

    /// Adds each message in turn, as [`Sequence::add_edge`] would: the
    /// messages whose endpoint names both resolve are appended in supplied
    /// order, with first-match indices, label and marker; each of the
    /// others only counts one more dropped message.
    pub fn add_edges(&mut self, edges: Vec<(&str, &str, &str, Markers)>)
        requires
            old(self).wf(),
            old(self).dropped + edges@.len() <= usize::MAX,
        ensures
            final(self).wf(),
            final(self).nodes == old(self).nodes,
            final(self).max_length == old(self).max_length,
            final(self).theme == old(self).theme,
            forall|k: int|
                0 <= k < old(self).edges@.len() ==> final(self).edges@[k] == old(self).edges@[k],
            msg_views(final(self).edges@) == msg_views(old(self).edges@) + kept_msgs(
                old(self).nodes@,
                edges@,
            ),
            final(self).dropped == old(self).dropped + edges@.len() - kept_msgs(
                old(self).nodes@,
                edges@,
            ).len(),
            forall|j: int|
                0 <= j < edges@.len() ==> final(self).markers@.contains(
                    (#[trigger] edges@[j]).3,
                ),
    {
        let ghost msgs = edges@;
        proof {
            assert(msgs.take(0) =~= Seq::<(&str, &str, &str, Markers)>::empty());
            assert(msg_views(self.edges@) =~= msg_views(old(self).edges@) + kept_msgs(
                old(self).nodes@,
                msgs.take(0),
            ));
        }
        let mut i: usize = 0;
        while i < edges.len()
            invariant
                self.wf(),
                i <= edges@.len(),
                msgs == edges@,
                self.nodes == old(self).nodes,
                self.max_length == old(self).max_length,
                self.theme == old(self).theme,
                old(self).edges@.len() <= self.edges@.len(),
                forall|k: int|
                    0 <= k < old(self).edges@.len() ==> self.edges@[k] == old(self).edges@[k],
                msg_views(self.edges@) == msg_views(old(self).edges@) + kept_msgs(
                    old(self).nodes@,
                    msgs.take(i as int),
                ),
                kept_msgs(old(self).nodes@, msgs.take(i as int)).len() <= i,
                self.dropped == old(self).dropped + i - kept_msgs(
                    old(self).nodes@,
                    msgs.take(i as int),
                ).len(),
                forall|j: int|
                    0 <= j < i ==> self.markers@.contains((#[trigger] msgs[j]).3),
                old(self).dropped + edges@.len() <= usize::MAX,
            decreases edges@.len() - i,
        {
            proof {
                lemma_kept_msgs_bound(old(self).nodes@, msgs.take(i as int));
                assert(self.dropped <= old(self).dropped + i);
            }
            let ghost beforee = self.edges@;
            let ghost beforem = self.markers@;
            let added = self.add_edge(edges[i]);
            proof {
                let nodes0 = old(self).nodes@;
                let e = msgs[i as int];
                assert(msgs.take(i as int + 1).drop_last() =~= msgs.take(i as int));
                assert(msgs.take(i as int + 1).last() == e);
                if added {
                    let last = self.edges@.last();
                    lemma_first_name_unique(nodes0, e.0@, last.0 as int);
                    lemma_first_name_unique(nodes0, e.1@, last.1 as int);
                    assert(msg_views(self.edges@) =~= msg_views(beforee).push(
                        (last.0, last.1, last.2@, last.3),
                    )) by {
                        assert forall|m: int|
                            0 <= m < beforee.len() implies self.edges@[m] == beforee[m] by {}
                    }
                    assert(msg_views(self.edges@) == msg_views(old(self).edges@) + kept_msgs(
                        nodes0,
                        msgs.take(i as int + 1),
                    )) by {
                        assert(kept_msgs(nodes0, msgs.take(i as int + 1)) == kept_msgs(
                            nodes0,
                            msgs.take(i as int),
                        ).push((last.0, last.1, last.2@, last.3)));
                        assert(msg_views(old(self).edges@) + kept_msgs(
                            nodes0,
                            msgs.take(i as int),
                        ).push((last.0, last.1, last.2@, last.3)) =~= (msg_views(
                            old(self).edges@,
                        ) + kept_msgs(nodes0, msgs.take(i as int))).push(
                            (last.0, last.1, last.2@, last.3),
                        ));
                    }
                } else {
                    assert(self.edges@ == beforee);
                    assert(kept_msgs(nodes0, msgs.take(i as int + 1)) == kept_msgs(
                        nodes0,
                        msgs.take(i as int),
                    ));
                }
                assert forall|j: int| 0 <= j < i + 1 implies self.markers@.contains(
                    (#[trigger] msgs[j]).3,
                ) by {
                    if j < i {
                        assert(beforem.contains(msgs[j].3));
                    }
                }
            }
            i = i + 1;
        }
        proof {
            assert(msgs.take(msgs.len() as int) =~= msgs);
        }
    }

    /// Vertical extent of the lifelines: headroom for every message slot,
    /// and never less than the default height.
    pub fn get_vertical_height(&self) -> (r: usize)
        requires
            (self.edges@.len() + 1) * VERTICAL_HEIGHT <= usize::MAX,
        ensures
            r == spec_vertical_height(self.edges@.len() as int),
            r >= DEFAULT_HEIGHT,
            r >= (self.edges@.len() + 1) * VERTICAL_HEIGHT,
    {
        let slots = (self.edges.len() + 1) * VERTICAL_HEIGHT;
        if slots > DEFAULT_HEIGHT {
            slots
        } else {
            DEFAULT_HEIGHT
        }
    }

    /// The box `(0, 0, width, height)` that encloses the whole diagram:
    /// margins around all lanes horizontally, and margins, both participant
    /// boxes and the lifeline extent vertically.
    pub fn bounding_box(&self) -> (r: (usize, usize, usize, usize))
        requires
            spec_lane_width(self.max_length as int) <= usize::MAX,
            2 * X_INDEX + spec_lane_width(self.max_length as int) * self.nodes@.len()
                <= usize::MAX,
            2 * Y_INDEX + 2 * RECT_HEIGHT + spec_vertical_height(self.edges@.len() as int)
                <= usize::MAX,
        ensures
            r.0 == 0 && r.1 == 0,
            r.2 == 2 * X_INDEX + spec_lane_width(self.max_length as int) * self.nodes@.len(),
            r.3 == 2 * Y_INDEX + 2 * RECT_HEIGHT + spec_vertical_height(
                self.edges@.len() as int,
            ),
    {
        let x = 2 * X_INDEX + (self.max_length * FONT_SIZE + PADDING * 2 + MARGIN * 2)
            * self.nodes.len();
        let y = 2 * Y_INDEX + RECT_HEIGHT * 2 + self.get_vertical_height();
        (0, 0, x, y)
    }
}

// ---------------------------------------------------------------------
// drawing primitives
// ---------------------------------------------------------------------

/// The x coordinate of the middle of lane `idx`.
pub open spec fn spec_lane_center_x(max_length: int, idx: int) -> int {
    X_INDEX + spec_lane_width(max_length) * idx + spec_rect_width(max_length) / 2
}

/// The y coordinate of message slot `i`: slots stack strictly downwards in
/// insertion order.
pub open spec fn spec_msg_slot_y(i: int) -> int {
    Y_INDEX + RECT_HEIGHT / 2 + VERTICAL_HEIGHT * (i + 1)
}

/// Stepping one lane to the right stays within the row of `count` lanes.
proof fn lemma_lane_step(ml: int, i: int, count: int)
    requires
        0 <= ml,
        0 <= i < count,
    ensures
        spec_lane_width(ml) * i + spec_lane_width(ml) == spec_lane_width(ml) * (i + 1),
        spec_lane_width(ml) * (i + 1) <= spec_lane_width(ml) * count,
        spec_lane_width(ml) * i >= 0,
{
    let w = spec_lane_width(ml);
    vstd::arithmetic::mul::lemma_mul_is_distributive_add(w, i, 1);
    vstd::arithmetic::mul::lemma_mul_inequality(i + 1, count, w);
    vstd::arithmetic::mul::lemma_mul_is_commutative(w, i + 1);
    vstd::arithmetic::mul::lemma_mul_is_commutative(w, count);
    vstd::arithmetic::mul::lemma_mul_inequality(0, i, w);
    vstd::arithmetic::mul::lemma_mul_is_commutative(w, i);
}

/// A participant box at lane `idx`, top edge at `y`.
pub open spec fn is_participant_rect(p: Prim, max_length: int, idx: int, y: int) -> bool {
    &&& p matches Prim::Rect(rp)
    &&& p->Rect_0.x == X_INDEX + spec_lane_width(max_length) * idx
    &&& p->Rect_0.y == y
    &&& p->Rect_0.width == spec_rect_width(max_length)
    &&& p->Rect_0.height == RECT_HEIGHT
}

/// The horizontal connector of message `i`, between the two lane centers.
pub open spec fn is_message_line(p: Prim, max_length: int, e: Edge, i: int) -> bool {
    &&& p matches Prim::Line(lp)
    &&& p->Line_0.x1 == spec_lane_center_x(max_length, e.0 as int)
    &&& p->Line_0.x2 == spec_lane_center_x(max_length, e.1 as int)
    &&& p->Line_0.y1 == spec_msg_slot_y(i)
    &&& p->Line_0.y2 == spec_msg_slot_y(i)
    &&& p->Line_0.marker_end == e.3
}

impl Sequence {
    /// The diagram fits the machine's coordinate range.
    pub open spec fn fits(&self) -> bool {
        &&& spec_lane_width(self.max_length as int) <= usize::MAX
        &&& 2 * X_INDEX + spec_lane_width(self.max_length as int) * self.nodes@.len()
            <= usize::MAX
        &&& 2 * Y_INDEX + 2 * RECT_HEIGHT + spec_vertical_height(self.edges@.len() as int)
            <= usize::MAX
    }

    /// Width of the reported bounding box.
    pub open spec fn spec_bbox_width(&self) -> int {
        2 * X_INDEX + spec_lane_width(self.max_length as int) * self.nodes@.len()
    }

    /// Height of the reported bounding box.
    pub open spec fn spec_bbox_height(&self) -> int {
        2 * Y_INDEX + 2 * RECT_HEIGHT + spec_vertical_height(self.edges@.len() as int)
    }

    /// Header and footer boxes of every participant with its label in both,
    /// lane by lane. All lanes share one box width, driven by the single
    /// longest label.
    pub fn make_nodes(&self) -> (r: Vec<Prim>)
        requires
            self.wf(),
            self.fits(),
        ensures
            r@.len() == 4 * self.nodes@.len(),
            forall|i: int|
                0 <= i < self.nodes@.len() ==> is_participant_rect(
                    #[trigger] r@[4 * i],
                    self.max_length as int,
                    i,
                    Y_INDEX as int,
                ) && r@[4 * i]->Rect_0.fill == self.theme.color.rect.fill && r@[4
                    * i]->Rect_0.stroke == self.theme.color.rect.frame,
            forall|i: int|
                0 <= i < self.nodes@.len() ==> is_participant_rect(
                    #[trigger] r@[4 * i + 2],
                    self.max_length as int,
                    i,
                    Y_INDEX + spec_vertical_height(self.edges@.len() as int),
                ) && r@[4 * i + 2]->Rect_0.fill == self.theme.color.rect.fill && r@[4 * i
                    + 2]->Rect_0.stroke == self.theme.color.rect.frame,
            forall|i: int|
                0 <= i < self.nodes@.len() ==> ((#[trigger] r@[4 * i + 1]) matches Prim::Text(tp)
                    && tp.x == spec_lane_center_x(self.max_length as int, i) && tp.y == Y_INDEX
                    + RECT_HEIGHT / 2 && tp.content@ == self.nodes@[i].name@ && tp.anchor_middle
                    && tp.baseline_central && tp.fill == self.theme.color.rect.text),
            forall|i: int|
                0 <= i < self.nodes@.len() ==> ((#[trigger] r@[4 * i + 3]) matches Prim::Text(tp)
                    && tp.x == spec_lane_center_x(self.max_length as int, i) && tp.y == Y_INDEX
                    + spec_vertical_height(self.edges@.len() as int) + RECT_HEIGHT / 2
                    && tp.content@ == self.nodes@[i].name@ && tp.anchor_middle
                    && tp.baseline_central && tp.fill == self.theme.color.rect.text),
            prims_in_box(r@, self.spec_bbox_width(), self.spec_bbox_height()),
    {
        let ghost ml = self.max_length as int;
        let count = self.nodes.len();
        let rw = rect_width(self.max_length);
        let vh = self.get_vertical_height();
        let mut out: Vec<Prim> = Vec::new();
        let mut i: usize = 0;
        while i < count
            invariant
                self.wf(),
                self.fits(),
                ml == self.max_length as int,
                count == self.nodes@.len(),
                rw == spec_rect_width(ml),
                vh == spec_vertical_height(self.edges@.len() as int),
                i <= count,
                out@.len() == 4 * i,
                forall|m: int|
                    0 <= m < i ==> is_participant_rect(
                        #[trigger] out@[4 * m],
                        ml,
                        m,
                        Y_INDEX as int,
                    ) && out@[4 * m]->Rect_0.fill == self.theme.color.rect.fill && out@[4
                        * m]->Rect_0.stroke == self.theme.color.rect.frame,
                forall|m: int|
                    0 <= m < i ==> is_participant_rect(
                        #[trigger] out@[4 * m + 2],
                        ml,
                        m,
                        Y_INDEX + vh,
                    ) && out@[4 * m + 2]->Rect_0.fill == self.theme.color.rect.fill && out@[4
                        * m + 2]->Rect_0.stroke == self.theme.color.rect.frame,
                forall|m: int|
                    0 <= m < i ==> ((#[trigger] out@[4 * m + 1]) matches Prim::Text(tp) && tp.x
                        == spec_lane_center_x(ml, m) && tp.y == Y_INDEX + RECT_HEIGHT / 2
                        && tp.content@ == self.nodes@[m].name@ && tp.anchor_middle
                        && tp.baseline_central && tp.fill == self.theme.color.rect.text),
                forall|m: int|
                    0 <= m < i ==> ((#[trigger] out@[4 * m + 3]) matches Prim::Text(tp) && tp.x
                        == spec_lane_center_x(ml, m) && tp.y == Y_INDEX + vh + RECT_HEIGHT / 2
                        && tp.content@ == self.nodes@[m].name@ && tp.anchor_middle
                        && tp.baseline_central && tp.fill == self.theme.color.rect.text),
                prims_in_box(out@, self.spec_bbox_width(), self.spec_bbox_height()),
            decreases count - i,
        {
            proof {
                lemma_lane_step(ml, i as int, count as int);
            }
            let (x, y) = position(i, self.max_length);
            let rect1 = RectPrim {
                x,
                y,
                width: rw,
                height: RECT_HEIGHT,
                rx: 2,
                ry: 2,
                fill: self.theme.color.rect.fill,
                stroke: self.theme.color.rect.frame,
                stroke_width: 1,
            };
            let text1 = TextPrim {
                x: x + rw / 2,
                y: y + RECT_HEIGHT / 2,
                content: self.nodes[i].name.clone(),
                font_size: FONT_SIZE,
                anchor_middle: true,
                baseline_central: true,
                fill: self.theme.color.rect.text,
            };
            let rect2 = RectPrim { y: y + vh, ..rect1 };
            let text2 = TextPrim {
                x: x + rw / 2,
                y: y + vh + RECT_HEIGHT / 2,
                content: self.nodes[i].name.clone(),
                font_size: FONT_SIZE,
                anchor_middle: true,
                baseline_central: true,
                fill: self.theme.color.rect.text,
            };
            out.push(Prim::Rect(rect1));
            out.push(Prim::Text(text1));
            out.push(Prim::Rect(rect2));
            out.push(Prim::Text(text2));
            i = i + 1;
        }
        out
    }

    /// One full-height lifeline per participant, down the middle of its
    /// lane.
    pub fn make_vertical_lines(&self) -> (r: Vec<Prim>)
        requires
            self.wf(),
            self.fits(),
        ensures
            r@.len() == self.nodes@.len(),
            forall|i: int|
                0 <= i < self.nodes@.len() ==> ((#[trigger] r@[i]) matches Prim::Line(lp) && lp.x1
                    == spec_lane_center_x(self.max_length as int, i) && lp.x2 == lp.x1 && lp.y1
                    == Y_INDEX + RECT_HEIGHT && lp.y2 == Y_INDEX + spec_vertical_height(
                    self.edges@.len() as int,
                )),
            prims_in_box(r@, self.spec_bbox_width(), self.spec_bbox_height()),
    {
        let ghost ml = self.max_length as int;
        let count = self.nodes.len();
        let rw = rect_width(self.max_length);
        let vh = self.get_vertical_height();
        let height = vh - RECT_HEIGHT;
        let mut out: Vec<Prim> = Vec::new();
        let mut i: usize = 0;
        while i < count
            invariant
                self.wf(),
                self.fits(),
                ml == self.max_length as int,
                count == self.nodes@.len(),
                rw == spec_rect_width(ml),
                vh == spec_vertical_height(self.edges@.len() as int),
                height == vh - RECT_HEIGHT,
                i <= count,
                out@.len() == i,
                forall|m: int|
                    0 <= m < i ==> ((#[trigger] out@[m]) matches Prim::Line(lp) && lp.x1
                        == spec_lane_center_x(ml, m) && lp.x2 == lp.x1 && lp.y1 == Y_INDEX
                        + RECT_HEIGHT && lp.y2 == Y_INDEX + vh),
                prims_in_box(out@, self.spec_bbox_width(), self.spec_bbox_height()),
            decreases count - i,
        {
            proof {
                lemma_lane_step(ml, i as int, count as int);
            }
            let (mut x, mut y) = position(i, self.max_length);
            x = x + rw / 2;
            y = y + RECT_HEIGHT;
            let line = LinePrim {
                x1: x,
                y1: y,
                x2: x,
                y2: y + height,
                stroke: self.theme.color.line.second,
                stroke_width: 1,
                marker_end: Markers::NoArrow,
            };
            out.push(Prim::Line(line));
            i = i + 1;
        }
        out
    }

    /// One horizontal connector per message, at strictly increasing time
    /// slots in insertion order, each labelled above its line.
    pub fn make_horizontal_lines(&self) -> (r: Vec<Prim>)
        requires
            self.wf(),
            self.fits(),
        ensures
            r@.len() == 2 * self.edges@.len(),
            forall|i: int|
                0 <= i < self.edges@.len() ==> is_message_line(
                    #[trigger] r@[2 * i],
                    self.max_length as int,
                    self.edges@[i],
                    i,
                ),
            forall|i: int|
                0 <= i < self.edges@.len() ==> ((#[trigger] r@[2 * i + 1]) matches Prim::Text(tp)
                    && tp.content@ == self.edges@[i].2@ && tp.x == (spec_lane_center_x(
                    self.max_length as int,
                    self.edges@[i].0 as int,
                ) + spec_lane_center_x(self.max_length as int, self.edges@[i].1 as int)) / 2
                    && tp.y == spec_msg_slot_y(i) - FONT_SIZE && tp.anchor_middle && tp.fill
                    == self.theme.color.text_primary),
            forall|i: int, j: int|
                0 <= i < j < self.edges@.len() ==> spec_msg_slot_y(i) < spec_msg_slot_y(j),
            prims_in_box(r@, self.spec_bbox_width(), self.spec_bbox_height()),
    {
        let ghost ml = self.max_length as int;
        let count = self.nodes.len();
        let ecount = self.edges.len();
        let rw = rect_width(self.max_length);
        let ghost vh = spec_vertical_height(self.edges@.len() as int);
        let mut out: Vec<Prim> = Vec::new();
        let mut i: usize = 0;
        while i < ecount
            invariant
                self.wf(),
                self.fits(),
                ml == self.max_length as int,
                count == self.nodes@.len(),
                ecount == self.edges@.len(),
                rw == spec_rect_width(ml),
                vh == spec_vertical_height(self.edges@.len() as int),
                i <= ecount,
                out@.len() == 2 * i,
                forall|m: int|
                    0 <= m < i ==> is_message_line(
                        #[trigger] out@[2 * m],
                        ml,
                        self.edges@[m],
                        m,
                    ),
                forall|m: int|
                    0 <= m < i ==> ((#[trigger] out@[2 * m + 1]) matches Prim::Text(tp)
                        && tp.content@ == self.edges@[m].2@ && tp.x == (spec_lane_center_x(
                        ml,
                        self.edges@[m].0 as int,
                    ) + spec_lane_center_x(ml, self.edges@[m].1 as int)) / 2 && tp.y
                        == spec_msg_slot_y(m) - FONT_SIZE && tp.anchor_middle && tp.fill
                        == self.theme.color.text_primary),
                prims_in_box(out@, self.spec_bbox_width(), self.spec_bbox_height()),
            decreases ecount - i,
        {
            let from = self.edges[i].node1();
            let to = self.edges[i].node2();
            proof {
                assert(from < count && to < count);
                lemma_lane_step(ml, from as int, count as int);
                lemma_lane_step(ml, to as int, count as int);
            }
            let mut x1 = position_x(from, self.max_length);
            let mut x2 = position_x(to, self.max_length);
            let y_path = Y_INDEX + RECT_HEIGHT / 2 + VERTICAL_HEIGHT * (i + 1);
            x1 = x1 + rw / 2;
            x2 = x2 + rw / 2;
            let line = LinePrim {
                x1,
                y1: y_path,
                x2,
                y2: y_path,
                stroke: self.theme.color.line.primary,
                stroke_width: 1,
                marker_end: self.edges[i].marker_type(),
            };
            let x_mid = if x1 <= x2 {
                x1 + (x2 - x1) / 2
            } else {
                x2 + (x1 - x2) / 2
            };
            proof {
                assert(x_mid == (x1 + x2) / 2) by (nonlinear_arith)
                    requires
                        x_mid == if x1 <= x2 {
                            x1 + (x2 - x1) / 2
                        } else {
                            x2 + (x1 - x2) / 2
                        },
                ;
            }
            let label = TextPrim {
                x: x_mid,
                y: y_path - FONT_SIZE,
                content: self.edges[i].2.clone(),
                font_size: FONT_SIZE,
                anchor_middle: true,
                baseline_central: false,
                fill: self.theme.color.text_primary,
            };
            out.push(Prim::Line(line));
            out.push(Prim::Text(label));
            i = i + 1;
        }
        out
    }
}

} // verus!
