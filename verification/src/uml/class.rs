//! The class-diagram model and its grid layout.
//!
//! Entities ("classes") are added in order and referenced 1-indexed by
//! relations. The layout drives the topological layering engine: every
//! entity gets a row (its rank) and a column within that row, and the
//! bounding box is derived from the widest row and the deepest rank.

use vstd::prelude::*;

use crate::helper::calc_rank;
use crate::helper::marker::Markers;
use crate::primitives::LinePrim;
use crate::primitives::Prim;
use crate::primitives::RectPrim;
use crate::primitives::TextPrim;
use crate::primitives::prim_in_box;
use crate::primitives::prims_in_box;
use crate::helper::edges_in_range;
use crate::helper::has_topo_order;
use crate::helper::topological_sort_edges;
use crate::theme::Theme;
use crate::theme::ThemeName;
use crate::LayoutError;

verus! {

/// Width and height of one grid cell, in user units.
pub const CELL_SIZE: usize = 120;

/// Width and height of the fixed card every class is drawn as.
pub const CARD_SIZE: usize = 100;

/// Font size of the attribute and operation lines; the title is half again
/// as large.
pub const FONT_SIZE: usize = 8;

/// Vertical padding between consecutive attribute or operation lines.
pub const PADDING: usize = 3;

/// Margin between the regions of a card.
pub const MARGIN: usize = 5;

/// Offset of the whole drawing from the origin.
pub const INSET: usize = 10;

/// How many attribute and operation lines together fit the fixed card;
/// beyond this, their text runs past the card's bottom edge (a documented
/// limitation of the fixed card size, not silently corrected).
pub const CARD_CAPACITY: usize = 6;

/// An attribute line of a class: visibility and name.
#[derive(PartialEq, Debug)]
pub struct ClassElement {
    pub public: bool,
    pub name: String,
}

/// An operation line of a class: visibility and name.
#[derive(PartialEq, Debug)]
pub struct ClassMethod {
    pub public: bool,
    pub name: String,
}

/// One class: a title plus its attribute and operation lines.
#[derive(PartialEq, Debug)]
pub struct ClassNode {
    pub name: String,
    pub elements: Vec<ClassElement>,
    pub methods: Vec<ClassMethod>,
}

impl ClassElement {
    /// An attribute from a `(visibility, name)` pair.
    pub fn new(e: (bool, &str)) -> (r: ClassElement)
        ensures
            r.public == e.0,
            r.name@ == e.1@,
    {
        ClassElement { public: e.0, name: e.1.to_owned() }
    }
}

impl ClassMethod {
    /// An operation from a `(visibility, name)` pair.
    pub fn new(m: (bool, &str)) -> (r: ClassMethod)
        ensures
            r.public == m.0,
            r.name@ == m.1@,
    {
        ClassMethod { public: m.0, name: m.1.to_owned() }
    }
}

impl ClassNode {
    /// A class from its title and its attribute and operation lines.
    pub fn new(name: &str, elements: Vec<ClassElement>, methods: Vec<ClassMethod>) -> (r:
        ClassNode)
        ensures
            r.name@ == name@,
            r.elements == elements,
            r.methods == methods,
    {
        ClassNode { name: name.to_owned(), elements, methods }
    }
}

/// The attribute lines mirror the `(visibility, name)` pairs they came from.
pub open spec fn elements_match(els: Seq<ClassElement>, src: Seq<(bool, &str)>) -> bool {
    &&& els.len() == src.len()
    &&& forall|i: int|
        0 <= i < els.len() ==> (#[trigger] els[i]).public == src[i].0 && els[i].name@
            == src[i].1@
}

/// The operation lines mirror the `(visibility, name)` pairs they came from.
pub open spec fn methods_match(ms: Seq<ClassMethod>, src: Seq<(bool, &str)>) -> bool {
    &&& ms.len() == src.len()
    &&& forall|i: int|
        0 <= i < ms.len() ==> (#[trigger] ms[i]).public == src[i].0 && ms[i].name@ == src[i].1@
}

fn elements_from(src: &[(bool, &str)]) -> (r: Vec<ClassElement>)
    ensures
        elements_match(r@, src@),
{
    let mut out: Vec<ClassElement> = Vec::new();
    let mut i: usize = 0;
    while i < src.len()
        invariant
            i <= src@.len(),
            out@.len() == i,
            forall|m: int|
                0 <= m < i ==> (#[trigger] out@[m]).public == src@[m].0 && out@[m].name@
                    == src@[m].1@,
        decreases src@.len() - i,
    {
        out.push(ClassElement::new(src[i]));
        i = i + 1;
    }
    out
}

fn methods_from(src: &[(bool, &str)]) -> (r: Vec<ClassMethod>)
    ensures
        methods_match(r@, src@),
{
    let mut out: Vec<ClassMethod> = Vec::new();
    let mut i: usize = 0;
    while i < src.len()
        invariant
            i <= src@.len(),
            out@.len() == i,
            forall|m: int|
                0 <= m < i ==> (#[trigger] out@[m]).public == src@[m].0 && out@[m].name@
                    == src@[m].1@,
        decreases src@.len() - i,
    {
        out.push(ClassMethod::new(src[i]));
        i = i + 1;
    }
    out
}

/// A class diagram: named entities and the relations between them.
pub struct ClassUML {
    pub name: String,
    pub nodes: Vec<ClassNode>,
    pub edges: Vec<(usize, usize)>,
    pub theme: Theme,
}

impl ClassUML {
    /// Every relation references entities that exist.
    pub open spec fn wf(&self) -> bool {
        edges_in_range(self.nodes@.len(), self.edges@)
    }

    /// An empty diagram under the default theme.
    pub fn new(name: &str) -> (r: ClassUML)
        ensures
            r.name@ == name@,
            r.nodes@.len() == 0,
            r.edges@.len() == 0,
            r.wf(),
            crate::theme::is_scheme(r.theme, ThemeName::Default),
    {
        ClassUML {
            name: name.to_owned(),
            nodes: Vec::new(),
            edges: Vec::new(),
            theme: Theme::new(ThemeName::Default),
        }
    }

    /// Appends one entity; it becomes entity number `nodes.len()` (1-indexed).
    pub fn add_class(&mut self, name: &str, elements: &[(bool, &str)], methods: &[(bool, &str)])
        requires
            old(self).wf(),
        ensures
            final(self).wf(),
            final(self).nodes@.len() == old(self).nodes@.len() + 1,
            forall|i: int|
                0 <= i < old(self).nodes@.len() ==> final(self).nodes@[i] == old(self).nodes@[i],
            final(self).nodes@.last().name@ == name@,
            elements_match(final(self).nodes@.last().elements@, elements@),
            methods_match(final(self).nodes@.last().methods@, methods@),
            final(self).edges == old(self).edges,
            final(self).name == old(self).name,
            final(self).theme == old(self).theme,
    {
        let node = ClassNode::new(name, elements_from(elements), methods_from(methods));
        self.nodes.push(node);
    }

    /// Appends relations; each pair must reference entities already added.
    pub fn add_edges(&mut self, edges: &[(usize, usize)])
        requires
            old(self).wf(),
            edges_in_range(old(self).nodes@.len(), edges@),
        ensures
            final(self).wf(),
            final(self).edges@ == old(self).edges@ + edges@,
            final(self).nodes == old(self).nodes,
            final(self).name == old(self).name,
            final(self).theme == old(self).theme,
    {
        let mut i: usize = 0;
        while i < edges.len()
            invariant
                i <= edges@.len(),
                self.nodes == old(self).nodes,
                self.name == old(self).name,
                self.theme == old(self).theme,
                self.edges@ == old(self).edges@ + edges@.subrange(0, i as int),
            decreases edges@.len() - i,
        {
            self.edges.push(edges[i]);
            proof {
                assert(old(self).edges@ + edges@.subrange(0, i as int + 1) =~= (old(
                    self,
                ).edges@ + edges@.subrange(0, i as int)).push(edges@[i as int]));
            }
            i = i + 1;
        }
        proof {
            assert(edges@.subrange(0, edges@.len() as int) =~= edges@);
            assert forall|k: int|
                0 <= k < self.edges@.len() implies crate::helper::edge_in_range(
                self.nodes@.len(),
                #[trigger] self.edges@[k],
            ) by {
                if k < old(self).edges@.len() {
                    assert(self.edges@[k] == old(self).edges@[k]);
                } else {
                    assert(self.edges@[k] == edges@[k - old(self).edges@.len()]);
                }
            }
        }
    }

    /// Rank of every entity (layer assignment), or the cycle error.
    ///
    /// On success the returned vector has one slot per entity plus the
    /// virtual root at index 0, and every relation points to a strictly
    /// later rank.
    pub fn get_ranks(&self) -> (r: Result<Vec<usize>, LayoutError>)
        requires
            self.wf(),
            2 * self.edges@.len() + 1 <= usize::MAX,
        ensures
            match r {
                Ok(ranks) => {
                    &&& ranks@.len() == self.nodes@.len() + 1
                    &&& forall|k: int|
                        0 <= k < self.edges@.len() ==> ranks@[#[trigger] self.edges@[
                            k
                        ].1 as int] >= ranks@[self.edges@[k].0 as int] + 1
                    &&& forall|v: int|
                        0 <= v < ranks@.len() ==> 1 <= #[trigger] ranks@[v] <= 1 + 2
                            * self.edges@.len()
                    &&& has_topo_order(self.nodes@.len(), self.edges@)
                },
                Err(e) => e == LayoutError::CycleDetected && !has_topo_order(
                    self.nodes@.len(),
                    self.edges@,
                ),
            },
            (exists|p: Seq<usize>| crate::helper::is_cycle(self.edges@, p)) <==> r is Err,
    {
        broadcast use vstd::seq_lib::group_to_multiset_ensures;

        let sorted = match topological_sort_edges(self.nodes.len(), &self.edges) {
            Ok(sorted) => sorted,
            Err(e) => {
                return Err(e);
            },
        };
        proof {
            assert(sorted@.to_multiset().len() == self.edges@.to_multiset().len());
        }
        let ranks = calc_rank(&self.nodes, &sorted);
        proof {
            // the sorted list is a permutation, so every caller-supplied
            // relation is in it and inherits the rank inequality
            assert forall|k: int|
                0 <= k < self.edges@.len() implies ranks@[#[trigger] self.edges@[
                k
            ].1 as int] >= ranks@[self.edges@[k].0 as int] + 1 by {
                let e = self.edges@[k];
                assert(self.edges@.contains(e));
                assert(sorted@.to_multiset().count(e) > 0);
                assert(sorted@.contains(e));
                let k2 = choose|k2: int| 0 <= k2 < sorted@.len() && sorted@[k2] == e;
                assert(ranks@[sorted@[k2].1 as int] >= ranks@[sorted@[k2].0 as int] + 1);
            }
            assert(sorted@.to_multiset().len() == self.edges@.to_multiset().len());
        }
        Ok(ranks)
    }
}

// ---------------------------------------------------------------------
// grid placement
// ---------------------------------------------------------------------

/// How many of the entities `1..upto` (exclusive) hold rank `r`.
pub open spec fn count_rank(ranks: Seq<usize>, upto: int, r: usize) -> nat
    decreases upto,
{
    if upto <= 1 {
        0
    } else {
        count_rank(ranks, upto - 1, r) + if ranks[upto - 1] == r {
            1nat
        } else {
            0nat
        }
    }
}

proof fn lemma_count_rank_mono(ranks: Seq<usize>, u1: int, u2: int, r: usize)
    requires
        u1 <= u2,
    ensures
        count_rank(ranks, u1, r) <= count_rank(ranks, u2, r),
    decreases u2 - u1,
{
    if u1 < u2 {
        lemma_count_rank_mono(ranks, u1, u2 - 1, r);
    }
}

proof fn lemma_count_rank_bound(ranks: Seq<usize>, upto: int, r: usize)
    ensures
        count_rank(ranks, upto, r) <= (if upto >= 1 {
            upto - 1
        } else {
            0
        }),
    decreases upto,
{
    if upto > 1 {
        lemma_count_rank_bound(ranks, upto - 1, r);
    }
}

/// Two entities of one rank get distinct columns: the later one counts the
/// earlier one.
proof fn lemma_count_rank_strict(ranks: Seq<usize>, i: int, j: int, r: usize)
    requires
        1 <= i < j,
        ranks[i] == r,
    ensures
        count_rank(ranks, j, r) > count_rank(ranks, i, r),
    decreases j - i,
{
    if j == i + 1 {
    } else {
        lemma_count_rank_strict(ranks, i, j - 1, r);
    }
}

/// The computed grid placement of a class diagram.
pub struct ClassLayout {
    /// Rank (row, 1-indexed) per entity; index 0 is the virtual root.
    pub ranks: Vec<usize>,
    /// Column within the row per entity; index 0 is unused.
    pub columns: Vec<usize>,
    /// Widest row, in cells.
    pub width_cells: usize,
    /// Deepest rank, in cells.
    pub height_cells: usize,
}

impl ClassLayout {
    /// The box `(0, 0, width, height)` that encloses the whole grid.
    pub fn bounding_box(&self) -> (r: (usize, usize, usize, usize))
        requires
            self.width_cells * CELL_SIZE <= usize::MAX,
            self.height_cells * CELL_SIZE <= usize::MAX,
        ensures
            r.0 == 0 && r.1 == 0,
            r.2 == self.width_cells * CELL_SIZE,
            r.3 == self.height_cells * CELL_SIZE,
    {
        (0, 0, self.width_cells * CELL_SIZE, self.height_cells * CELL_SIZE)
    }
}

impl ClassUML {
    /// Everything the grid placement promises: one row per rank with
    /// per-row columns handed out in insertion order, no cell shared, and
    /// the grid exactly as wide as its fullest row and as high as its
    /// deepest rank.
    pub open spec fn layout_ok(&self, cl: ClassLayout) -> bool {
        let n = self.nodes@.len() as int;
        &&& cl.ranks@.len() == n + 1
        &&& cl.columns@.len() == n + 1
        &&& forall|k: int|
            0 <= k < self.edges@.len() ==> cl.ranks@[#[trigger] self.edges@[k].1 as int]
                >= cl.ranks@[self.edges@[k].0 as int] + 1
        &&& forall|v: int|
            0 <= v < n + 1 ==> 1 <= #[trigger] cl.ranks@[v] <= 1 + 2 * self.edges@.len()
        &&& forall|i: int|
            1 <= i < n + 1 ==> #[trigger] cl.columns@[i] == count_rank(
                cl.ranks@,
                i,
                cl.ranks@[i],
            )
        &&& forall|i: int, j: int|
            1 <= i < n + 1 && 1 <= j < n + 1 && i != j && cl.ranks@[i] == cl.ranks@[j]
                ==> #[trigger] cl.columns@[i] != #[trigger] cl.columns@[j]
        &&& forall|i: int| 1 <= i < n + 1 ==> #[trigger] cl.columns@[i] < cl.width_cells
        &&& forall|i: int| 1 <= i < n + 1 ==> #[trigger] cl.ranks@[i] <= cl.height_cells
        &&& cl.width_cells <= n
        &&& (n == 0 ==> cl.width_cells == 0 && cl.height_cells == 0)
        &&& (n > 0 ==> exists|i: int|
            1 <= i < n + 1 && #[trigger] cl.ranks@[i] == cl.height_cells)
        &&& (n > 0 ==> exists|rr: usize|
            #[trigger] count_rank(cl.ranks@, n + 1, rr) == cl.width_cells)
    }

    /// Places every entity on the grid.
    ///
    /// Entity `i` goes to row `ranks[i]`; within one row, columns are
    /// handed out in insertion order, so no two entities of one rank share
    /// a column. The grid is as wide as its fullest row and as high as its
    /// deepest rank; an empty diagram degenerates to a zero-sized grid.
    #[verifier::rlimit(60)]
    pub fn compute_layout(&self) -> (r: Result<ClassLayout, LayoutError>)
        requires
            self.wf(),
            2 * self.edges@.len() + 1 <= usize::MAX,
        ensures
            match r {
                Ok(cl) => self.layout_ok(cl) && has_topo_order(
                    self.nodes@.len(),
                    self.edges@,
                ),
                Err(e) => e == LayoutError::CycleDetected && !has_topo_order(
                    self.nodes@.len(),
                    self.edges@,
                ),
            },
            (exists|p: Seq<usize>| crate::helper::is_cycle(self.edges@, p)) <==> r is Err,
    {
        let n = self.nodes.len();
        let ranks = match self.get_ranks() {
            Ok(ranks) => ranks,
            Err(e) => {
                return Err(e);
            },
        };
        let cap = 2 * self.edges.len() + 1;
        let (columns, maxcnt, maxrank) = assign_columns(&ranks, n, cap);
        proof {
            assert forall|i: int, j: int|
                1 <= i < n + 1 && 1 <= j < n + 1 && i != j && ranks@[i]
                    == ranks@[j] implies #[trigger] columns@[i] != #[trigger] columns@[j] by {
                if i < j {
                    lemma_count_rank_strict(ranks@, i, j, ranks@[i]);
                } else {
                    lemma_count_rank_strict(ranks@, j, i, ranks@[j]);
                }
            }
        }
        let cl = ClassLayout { ranks, columns, width_cells: maxcnt, height_cells: maxrank };
        proof {
            let n0 = self.nodes@.len() as int;
            assert(cl.ranks@.len() == n0 + 1);
            assert(cl.columns@.len() == n0 + 1);
            assert(forall|k: int|
                0 <= k < self.edges@.len() ==> cl.ranks@[#[trigger] self.edges@[k].1 as int]
                    >= cl.ranks@[self.edges@[k].0 as int] + 1);
            assert(forall|v: int|
                0 <= v < n0 + 1 ==> 1 <= #[trigger] cl.ranks@[v] <= 1 + 2
                    * self.edges@.len());
            assert(forall|i: int|
                1 <= i < n0 + 1 ==> #[trigger] cl.columns@[i] == count_rank(
                    cl.ranks@,
                    i,
                    cl.ranks@[i],
                ));
            assert(forall|i: int, j: int|
                1 <= i < n0 + 1 && 1 <= j < n0 + 1 && i != j && cl.ranks@[i] == cl.ranks@[j]
                    ==> #[trigger] cl.columns@[i] != #[trigger] cl.columns@[j]);
            assert(forall|i: int| 1 <= i < n0 + 1 ==> #[trigger] cl.columns@[i] < cl.width_cells);
            assert(forall|i: int| 1 <= i < n0 + 1 ==> #[trigger] cl.ranks@[i] <= cl.height_cells);
            assert(cl.width_cells <= n0);
            assert(n0 == 0 ==> cl.width_cells == 0 && cl.height_cells == 0);
            assert(n0 > 0 ==> exists|i: int|
                1 <= i < n0 + 1 && #[trigger] cl.ranks@[i] == cl.height_cells);
            assert(n0 > 0 ==> exists|rr: usize|
                #[trigger] count_rank(cl.ranks@, n0 + 1, rr) == cl.width_cells);
            assert(self.layout_ok(cl));
        }
        Ok(cl)
    }
}

/// Hands each entity the next free column of its row, and reports the
/// fullest row and the deepest rank.
fn assign_columns(ranks: &Vec<usize>, n: usize, cap: usize) -> (r: (Vec<usize>, usize, usize))
    requires
        ranks@.len() == n + 1,
        forall|v: int| 0 <= v < n + 1 ==> 1 <= #[trigger] ranks@[v] <= cap,
    ensures
        r.0@.len() == n + 1,
        forall|m: int|
            1 <= m < n + 1 ==> #[trigger] r.0@[m] == count_rank(ranks@, m, ranks@[m]),
        forall|m: int| 1 <= m < n + 1 ==> #[trigger] r.0@[m] < r.1,
        forall|m: int| 1 <= m < n + 1 ==> #[trigger] ranks@[m] <= r.2,
        r.1 <= n,
        n == 0 ==> r.1 == 0 && r.2 == 0,
        n > 0 ==> exists|rr: usize| #[trigger] count_rank(ranks@, n + 1, rr) == r.1,
        n > 0 ==> exists|m: int| 1 <= m < n + 1 && #[trigger] ranks@[m] == r.2,
{
    let mut columns: Vec<usize> = crate::helper::filled(n, 0);
    columns.push(0);
    let mut cnt: Vec<usize> = crate::helper::filled(cap, 0);
    let mut maxcnt: usize = 0;
    let mut maxrank: usize = 0;
    let mut idx: usize = 0;
    while idx < n
        invariant
            ranks@.len() == n + 1,
            forall|v: int| 0 <= v < n + 1 ==> 1 <= #[trigger] ranks@[v] <= cap,
            columns@.len() == n + 1,
            cnt@.len() == cap,
            idx <= n,
            forall|rr: usize|
                1 <= rr <= cap ==> #[trigger] cnt@[rr - 1] == count_rank(
                    ranks@,
                    idx + 1,
                    rr,
                ),
            forall|m: int|
                1 <= m < idx + 1 ==> #[trigger] columns@[m] == count_rank(
                    ranks@,
                    m,
                    ranks@[m],
                ),
            forall|m: int| 1 <= m < idx + 1 ==> #[trigger] columns@[m] < maxcnt,
            forall|rr: int| 0 <= rr < cap ==> #[trigger] cnt@[rr] <= maxcnt,
            maxcnt <= idx,
            idx == 0 ==> maxcnt == 0,
            idx > 0 ==> exists|rr: int| 0 <= rr < cap && #[trigger] cnt@[rr] == maxcnt,
            forall|m: int| 1 <= m < idx + 1 ==> #[trigger] ranks@[m] <= maxrank,
            idx == 0 ==> maxrank == 0,
            idx > 0 ==> exists|m: int|
                1 <= m < idx + 1 && #[trigger] ranks@[m] == maxrank,
        decreases n - idx,
    {
        let i = idx + 1;
        let rk = ranks[i];
        let c = cnt[rk - 1];
        proof {
            lemma_count_rank_bound(ranks@, idx as int + 1, rk);
        }
        columns[i] = c;
        let ghost cntprev = cnt@;
        cnt[rk - 1] = c + 1;
        if c + 1 > maxcnt {
            maxcnt = c + 1;
            proof {
                assert(cnt@[rk - 1] == maxcnt);
            }
        } else {
            proof {
                assert(idx > 0);
                let rr0 = choose|rr: int| 0 <= rr < cap && #[trigger] cntprev[rr] == maxcnt;
                assert(cntprev[rk - 1] == c);
                assert(rr0 != rk - 1);
                assert(cnt@[rr0] == maxcnt);
            }
        }
        if rk > maxrank {
            maxrank = rk;
            proof {
                assert(ranks@[idx + 1] == maxrank);
            }
        }
        proof {
            assert forall|rr: usize|
                1 <= rr <= cap implies #[trigger] cnt@[rr - 1] == count_rank(
                ranks@,
                idx + 2,
                rr,
            ) by {
                assert(count_rank(ranks@, idx + 2, rr) == count_rank(ranks@, idx + 1, rr)
                    + if ranks@[idx + 1] == rr {
                    1nat
                } else {
                    0nat
                });
            }
        }
        idx = idx + 1;
    }
    proof {
        if n > 0 {
            let rr0 = choose|rr: int| 0 <= rr < cap && #[trigger] cnt@[rr] == maxcnt;
            let rr1: usize = (rr0 + 1) as usize;
            assert(cnt@[rr1 - 1] == count_rank(ranks@, n as int + 1, rr1));
            assert(count_rank(ranks@, n as int + 1, rr1) == maxcnt);
        }
    }
    (columns, maxcnt, maxrank)
}


// ---------------------------------------------------------------------
// the single-card model kept alongside the full diagram
// ---------------------------------------------------------------------

/// A plain collection of classes without relations, drawn as one card.
pub struct Class {
    pub name: String,
    pub nodes: Vec<ClassNode>,
    pub theme: Theme,
}

impl Class {
    /// An empty collection under the default theme.
    pub fn new() -> (r: Class)
        ensures
            r.name@ == "hello world"@,
            r.nodes@.len() == 0,
            crate::theme::is_scheme(r.theme, ThemeName::Default),
    {
        Class {
            name: "hello world".to_owned(),
            nodes: Vec::new(),
            theme: Theme::new(ThemeName::Default),
        }
    }

    /// Appends one class.
    pub fn add_class(&mut self, name: &str, elements: &[(bool, &str)], methods: &[(bool, &str)])
        ensures
            final(self).nodes@.len() == old(self).nodes@.len() + 1,
            forall|i: int|
                0 <= i < old(self).nodes@.len() ==> final(self).nodes@[i] == old(self).nodes@[i],
            final(self).nodes@.last().name@ == name@,
            elements_match(final(self).nodes@.last().elements@, elements@),
            methods_match(final(self).nodes@.last().methods@, methods@),
            final(self).name == old(self).name,
            final(self).theme == old(self).theme,
    {
        let node = ClassNode::new(name, elements_from(elements), methods_from(methods));
        self.nodes.push(node);
    }
}

// ---------------------------------------------------------------------
// drawing primitives
// ---------------------------------------------------------------------

/// The y coordinate of attribute line `i` in a card whose top edge is `oy`.
pub open spec fn spec_element_y(oy: int, i: int) -> int {
    oy + 2 * FONT_SIZE + MARGIN + FONT_SIZE + (FONT_SIZE + PADDING) * i
}

/// The y coordinate of the divider below the attribute region.
pub open spec fn spec_methods_base(oy: int, elements: int) -> int {
    oy + 2 * FONT_SIZE + (FONT_SIZE + PADDING) * elements + 2 * MARGIN
}

/// The y coordinate of operation line `j`.
pub open spec fn spec_method_y(oy: int, elements: int, j: int) -> int {
    spec_methods_base(oy, elements) + MARGIN + FONT_SIZE + (FONT_SIZE + PADDING) * j
}

/// The card's attribute and operation lines all fit its fixed height.
pub open spec fn card_within(node: ClassNode) -> bool {
    node.elements@.len() + node.methods@.len() <= CARD_CAPACITY
}

/// The visibility glyph of an attribute or operation line.
pub open spec fn spec_mark(public: bool) -> Seq<char> {
    if public {
        "+"@
    } else {
        "-"@
    }
}

/// The primitives of one class's card drawn at origin `(ox, oy)`: the
/// card rectangle, the title divider, the divider below the attribute
/// region, the centered title, then a visibility glyph and a name text per
/// attribute and operation line.
pub open spec fn card_prims_match(node: ClassNode, ox: int, oy: int, ps: Seq<Prim>) -> bool {
    let e = node.elements@.len() as int;
    &&& ps.len() == 4 + 2 * (e + node.methods@.len())
    &&& (ps[0] matches Prim::Rect(rp) && rp.x == ox && rp.y == oy && rp.width == CARD_SIZE
        && rp.height == CARD_SIZE)
    &&& (ps[1] matches Prim::Line(lp) && lp.x1 == ox && lp.x2 == ox + CARD_SIZE && lp.y1 == oy
        + 2 * FONT_SIZE && lp.y2 == lp.y1)
    &&& (ps[2] matches Prim::Line(lp) && lp.x1 == ox && lp.x2 == ox + CARD_SIZE && lp.y1
        == spec_methods_base(oy, e) && lp.y2 == lp.y1)
    &&& (ps[3] matches Prim::Text(tp) && tp.x == ox + CARD_SIZE / 2 && tp.y == oy + 3 * FONT_SIZE
        / 2 && tp.content@ == node.name@)
    &&& (forall|i: int|
        0 <= i < e ==> ((#[trigger] ps[4 + 2 * i]) matches Prim::Text(tp) && tp.x == ox + INSET
            && tp.y == spec_element_y(oy, i) && tp.content@ == spec_mark(
            node.elements@[i].public,
        )))
    &&& (forall|i: int|
        0 <= i < e ==> ((#[trigger] ps[5 + 2 * i]) matches Prim::Text(tp) && tp.x == ox + INSET
            + FONT_SIZE && tp.y == spec_element_y(oy, i) && tp.content@
            == node.elements@[i].name@))
    &&& (forall|j: int|
        0 <= j < node.methods@.len() ==> ((#[trigger] ps[4 + 2 * e + 2 * j]) matches Prim::Text(
            tp,
        ) && tp.x == ox + INSET && tp.y == spec_method_y(oy, e, j) && tp.content@ == spec_mark(
            node.methods@[j].public,
        )))
    &&& (forall|j: int|
        0 <= j < node.methods@.len() ==> ((#[trigger] ps[5 + 2 * e + 2 * j]) matches Prim::Text(
            tp,
        ) && tp.x == ox + INSET + FONT_SIZE && tp.y == spec_method_y(oy, e, j) && tp.content@
            == node.methods@[j].name@))
}

/// How many primitives one class's card consists of.
pub open spec fn card_prims_len(node: ClassNode) -> int {
    4 + 2 * (node.elements@.len() + node.methods@.len()) as int
}

/// Where entity `i`'s card primitives start, counting from the first card.
pub open spec fn cards_offset(nodes: Seq<ClassNode>, i: int) -> int
    decreases i,
{
    if i <= 0 {
        0
    } else {
        cards_offset(nodes, i - 1) + card_prims_len(nodes[i - 1])
    }
}

proof fn lemma_cards_offset_nonneg(nodes: Seq<ClassNode>, i: int)
    requires
        0 <= i,
    ensures
        0 <= cards_offset(nodes, i),
    decreases i,
{
    if i > 0 {
        lemma_cards_offset_nonneg(nodes, i - 1);
    }
}

proof fn lemma_cards_offset_mono(nodes: Seq<ClassNode>, i: int, j: int)
    requires
        0 <= i <= j,
    ensures
        cards_offset(nodes, i) <= cards_offset(nodes, j),
    decreases j - i,
{
    if i < j {
        lemma_cards_offset_mono(nodes, i, j - 1);
    }
}

/// The per-line height scales monotonically.
proof fn lemma_line_mul_le(a: int, b: int)
    requires
        0 <= a <= b,
    ensures
        (FONT_SIZE + PADDING) * a <= (FONT_SIZE + PADDING) * b,
        0 <= (FONT_SIZE + PADDING) * a,
{
    vstd::arithmetic::mul::lemma_mul_inequality(a, b, (FONT_SIZE + PADDING) as int);
    vstd::arithmetic::mul::lemma_mul_is_commutative((FONT_SIZE + PADDING) as int, a);
    vstd::arithmetic::mul::lemma_mul_is_commutative((FONT_SIZE + PADDING) as int, b);
    vstd::arithmetic::mul::lemma_mul_inequality(0, a, (FONT_SIZE + PADDING) as int);
    vstd::arithmetic::mul::lemma_mul_is_commutative((FONT_SIZE + PADDING) as int, 0);
}

/// The per-line height distributes over a sum of line counts.
proof fn lemma_line_mul_split(a: int, b: int)
    ensures
        (FONT_SIZE + PADDING) * (a + b) == (FONT_SIZE + PADDING) * a + (FONT_SIZE + PADDING) * b,
{
    vstd::arithmetic::mul::lemma_mul_is_distributive_add((FONT_SIZE + PADDING) as int, a, b);
}

impl ClassNode {
    /// The primitives of this class's card, drawn at origin `(ox, oy)`:
    /// the rounded card, a title centered over a divider, the attribute
    /// lines, a second divider, and the operation lines, each line marked
    /// with its visibility glyph.
    pub fn card_prims(&self, ox: usize, oy: usize, theme: &Theme) -> (r: Vec<Prim>)
        requires
            ox + CARD_SIZE <= usize::MAX,
            oy + CARD_SIZE + (FONT_SIZE + PADDING) * (self.elements@.len()
                + self.methods@.len()) <= usize::MAX,
        ensures
            card_prims_match(*self, ox as int, oy as int, r@),
            card_within(*self) ==> prims_in_box(r@, ox + CARD_SIZE, oy + CARD_SIZE),
    {
        let ecount = self.elements.len();
        let mcount = self.methods.len();
        let mut out: Vec<Prim> = Vec::new();
        out.push(
            Prim::Rect(
                RectPrim {
                    x: ox,
                    y: oy,
                    width: CARD_SIZE,
                    height: CARD_SIZE,
                    rx: 5,
                    ry: 5,
                    fill: theme.color.rect.fill,
                    stroke: theme.color.rect.frame,
                    stroke_width: 1,
                },
            ),
        );
        out.push(
            Prim::Line(
                LinePrim {
                    x1: ox,
                    y1: oy + 2 * FONT_SIZE,
                    x2: ox + CARD_SIZE,
                    y2: oy + 2 * FONT_SIZE,
                    stroke: theme.color.rect.frame,
                    stroke_width: 1,
                    marker_end: Markers::NoArrow,
                },
            ),
        );
        proof {
            lemma_line_mul_split(ecount as int, mcount as int);
            lemma_line_mul_le(ecount as int, ecount as int + mcount as int);
        }
        let methods_base = oy + 2 * FONT_SIZE + (FONT_SIZE + PADDING) * ecount + 2 * MARGIN;
        out.push(
            Prim::Line(
                LinePrim {
                    x1: ox,
                    y1: methods_base,
                    x2: ox + CARD_SIZE,
                    y2: methods_base,
                    stroke: theme.color.rect.frame,
                    stroke_width: 1,
                    marker_end: Markers::NoArrow,
                },
            ),
        );
        out.push(
            Prim::Text(
                TextPrim {
                    x: ox + CARD_SIZE / 2,
                    y: oy + 3 * FONT_SIZE / 2,
                    content: self.name.clone(),
                    font_size: FONT_SIZE * 3 / 2,
                    anchor_middle: true,
                    baseline_central: false,
                    fill: theme.color.rect.text,
                },
            ),
        );
        let mut i: usize = 0;
        while i < ecount
            invariant
                ecount == self.elements@.len(),
                mcount == self.methods@.len(),
                ox + CARD_SIZE <= usize::MAX,
                oy + CARD_SIZE + (FONT_SIZE + PADDING) * (ecount + mcount) <= usize::MAX,
                i <= ecount,
                out@.len() == 4 + 2 * i,
                (out@[0] matches Prim::Rect(rp) && rp.x == ox && rp.y == oy && rp.width
                    == CARD_SIZE && rp.height == CARD_SIZE),
                (out@[1] matches Prim::Line(lp) && lp.x1 == ox && lp.x2 == ox + CARD_SIZE
                    && lp.y1 == oy + 2 * FONT_SIZE && lp.y2 == lp.y1),
                (out@[2] matches Prim::Line(lp) && lp.x1 == ox && lp.x2 == ox + CARD_SIZE
                    && lp.y1 == spec_methods_base(oy as int, ecount as int) && lp.y2 == lp.y1),
                (out@[3] matches Prim::Text(tp) && tp.x == ox + CARD_SIZE / 2 && tp.y == oy + 3
                    * FONT_SIZE / 2 && tp.content@ == self.name@),
                forall|m: int|
                    0 <= m < i ==> ((#[trigger] out@[4 + 2 * m]) matches Prim::Text(tp) && tp.x
                        == ox + INSET && tp.y == spec_element_y(oy as int, m) && tp.content@
                        == spec_mark(self.elements@[m].public)),
                forall|m: int|
                    0 <= m < i ==> ((#[trigger] out@[5 + 2 * m]) matches Prim::Text(tp) && tp.x
                        == ox + INSET + FONT_SIZE && tp.y == spec_element_y(oy as int, m)
                        && tp.content@ == self.elements@[m].name@),
            decreases ecount - i,
        {
            proof {
                lemma_line_mul_le(i as int, ecount as int + mcount as int);
            }
            let y = oy + 2 * FONT_SIZE + MARGIN + FONT_SIZE + (FONT_SIZE + PADDING) * i;
            let mark = if self.elements[i].public {
                "+".to_owned()
            } else {
                "-".to_owned()
            };
            out.push(
                Prim::Text(
                    TextPrim {
                        x: ox + INSET,
                        y,
                        content: mark,
                        font_size: FONT_SIZE,
                        anchor_middle: true,
                        baseline_central: false,
                        fill: theme.color.rect.text,
                    },
                ),
            );
            out.push(
                Prim::Text(
                    TextPrim {
                        x: ox + INSET + FONT_SIZE,
                        y,
                        content: self.elements[i].name.clone(),
                        font_size: FONT_SIZE,
                        anchor_middle: false,
                        baseline_central: false,
                        fill: theme.color.rect.text,
                    },
                ),
            );
            i = i + 1;
        }
        let mut j: usize = 0;
        while j < mcount
            invariant
                ecount == self.elements@.len(),
                mcount == self.methods@.len(),
                ox + CARD_SIZE <= usize::MAX,
                oy + CARD_SIZE + (FONT_SIZE + PADDING) * (ecount + mcount) <= usize::MAX,
                j <= mcount,
                out@.len() == 4 + 2 * ecount + 2 * j,
                (out@[0] matches Prim::Rect(rp) && rp.x == ox && rp.y == oy && rp.width
                    == CARD_SIZE && rp.height == CARD_SIZE),
                (out@[1] matches Prim::Line(lp) && lp.x1 == ox && lp.x2 == ox + CARD_SIZE
                    && lp.y1 == oy + 2 * FONT_SIZE && lp.y2 == lp.y1),
                (out@[2] matches Prim::Line(lp) && lp.x1 == ox && lp.x2 == ox + CARD_SIZE
                    && lp.y1 == spec_methods_base(oy as int, ecount as int) && lp.y2 == lp.y1),
                (out@[3] matches Prim::Text(tp) && tp.x == ox + CARD_SIZE / 2 && tp.y == oy + 3
                    * FONT_SIZE / 2 && tp.content@ == self.name@),
                forall|m: int|
                    0 <= m < ecount ==> ((#[trigger] out@[4 + 2 * m]) matches Prim::Text(tp)
                        && tp.x == ox + INSET && tp.y == spec_element_y(oy as int, m)
                        && tp.content@ == spec_mark(self.elements@[m].public)),
                forall|m: int|
                    0 <= m < ecount ==> ((#[trigger] out@[5 + 2 * m]) matches Prim::Text(tp)
                        && tp.x == ox + INSET + FONT_SIZE && tp.y == spec_element_y(oy as int, m)
                        && tp.content@ == self.elements@[m].name@),
                forall|m: int|
                    0 <= m < j ==> ((#[trigger] out@[4 + 2 * ecount + 2 * m]) matches Prim::Text(
                        tp,
                    ) && tp.x == ox + INSET && tp.y == spec_method_y(oy as int, ecount as int, m)
                        && tp.content@ == spec_mark(self.methods@[m].public)),
                forall|m: int|
                    0 <= m < j ==> ((#[trigger] out@[5 + 2 * ecount + 2 * m]) matches Prim::Text(
                        tp,
                    ) && tp.x == ox + INSET + FONT_SIZE && tp.y == spec_method_y(
                        oy as int,
                        ecount as int,
                        m,
                    ) && tp.content@ == self.methods@[m].name@),
            decreases mcount - j,
        {
            proof {
                lemma_line_mul_split(ecount as int, j as int);
                lemma_line_mul_le(ecount as int + j as int, ecount as int + mcount as int);
                lemma_line_mul_le(j as int, mcount as int);
                lemma_line_mul_le(ecount as int, ecount as int + mcount as int);
            }
            let y = oy + 2 * FONT_SIZE + (FONT_SIZE + PADDING) * ecount + 2 * MARGIN + MARGIN
                + FONT_SIZE + (FONT_SIZE + PADDING) * j;
            let mark = if self.methods[j].public {
                "+".to_owned()
            } else {
                "-".to_owned()
            };
            out.push(
                Prim::Text(
                    TextPrim {
                        x: ox + INSET,
                        y,
                        content: mark,
                        font_size: FONT_SIZE,
                        anchor_middle: true,
                        baseline_central: false,
                        fill: theme.color.rect.text,
                    },
                ),
            );
            out.push(
                Prim::Text(
                    TextPrim {
                        x: ox + INSET + FONT_SIZE,
                        y,
                        content: self.methods[j].name.clone(),
                        font_size: FONT_SIZE,
                        anchor_middle: false,
                        baseline_central: false,
                        fill: theme.color.rect.text,
                    },
                ),
            );
            j = j + 1;
        }
        proof {
            if card_within(*self) {
                assert forall|m: int| 0 <= m < out@.len() implies prim_in_box(
                    #[trigger] out@[m],
                    ox + CARD_SIZE,
                    oy + CARD_SIZE,
                ) by {
                    lemma_line_mul_le(ecount as int, CARD_CAPACITY as int);
                    if m >= 4 {
                        let k = (m - 4) / 2;
                        if m < 4 + 2 * ecount {
                            assert(m == 4 + 2 * k || m == 5 + 2 * k);
                            lemma_line_mul_le(k, CARD_CAPACITY as int - 1);
                        } else {
                            let k2 = (m - 4 - 2 * ecount) / 2;
                            assert(m == 4 + 2 * ecount + 2 * k2 || m == 5 + 2 * ecount + 2
                                * k2);
                            lemma_line_mul_split(ecount as int, k2);
                            lemma_line_mul_le(ecount as int + k2, CARD_CAPACITY as int - 1);
                        }
                    }
                }
            }
        }
        out
    }
}

/// The drawn connector of one relation: out of the bottom center of the
/// source's grid cell, into the top center of the target's.
pub open spec fn is_connector(p: Prim, cl: ClassLayout, e: (usize, usize)) -> bool {
    &&& p matches Prim::Line(lp)
    &&& p->Line_0.x1 == INSET + CELL_SIZE * cl.columns@[e.0 as int] + CARD_SIZE / 2
    &&& p->Line_0.y1 == INSET + CELL_SIZE * (cl.ranks@[e.0 as int] - 1) + CARD_SIZE
    &&& p->Line_0.x2 == INSET + CELL_SIZE * cl.columns@[e.1 as int] + CARD_SIZE / 2
    &&& p->Line_0.y2 == INSET + CELL_SIZE * (cl.ranks@[e.1 as int] - 1)
}

/// Cell offsets scale monotonically with the cell index.
proof fn lemma_cell_mul_le(a: int, b: int)
    requires
        0 <= a <= b,
    ensures
        CELL_SIZE * a <= CELL_SIZE * b,
        0 <= CELL_SIZE * a,
{
    vstd::arithmetic::mul::lemma_mul_inequality(a, b, CELL_SIZE as int);
    vstd::arithmetic::mul::lemma_mul_is_commutative(CELL_SIZE as int, a);
    vstd::arithmetic::mul::lemma_mul_is_commutative(CELL_SIZE as int, b);
    vstd::arithmetic::mul::lemma_mul_inequality(0, a, CELL_SIZE as int);
    vstd::arithmetic::mul::lemma_mul_is_commutative(CELL_SIZE as int, 0);
}

impl ClassUML {
    /// Every card's attribute and operation lines fit the fixed card.
    pub open spec fn all_cards_within(&self) -> bool {
        forall|i: int| 0 <= i < self.nodes@.len() ==> card_within(#[trigger] self.nodes@[i])
    }

    /// The diagram fits the machine's coordinate range.
    pub open spec fn fits(&self) -> bool {
        &&& 2 * self.edges@.len() + 1 <= usize::MAX
        &&& CELL_SIZE * (self.nodes@.len() as int + 1) <= usize::MAX
        &&& CELL_SIZE * (2 * self.edges@.len() as int + 2) <= usize::MAX
        &&& forall|i: int|
            0 <= i < self.nodes@.len() ==> CELL_SIZE * (2 * self.edges@.len() as int + 2)
                + CARD_SIZE + (FONT_SIZE + PADDING) * ((#[trigger] self.nodes@[
                i
            ]).elements@.len() + self.nodes@[i].methods@.len()) <= usize::MAX
    }

    /// The drawing's structure: one connector per relation in list order,
    /// then each entity's card primitives at its grid cell, offset from
    /// the origin.
    pub open spec fn prims_match(&self, cl: ClassLayout, ps: Seq<Prim>) -> bool {
        let ec = self.edges@.len() as int;
        let n = self.nodes@.len() as int;
        &&& ps.len() == ec + cards_offset(self.nodes@, n)
        &&& (forall|k: int| 0 <= k < ec ==> is_connector(#[trigger] ps[k], cl, self.edges@[k]))
        &&& (forall|i: int|
            0 <= i < n ==> card_prims_match(
                #[trigger] self.nodes@[i],
                INSET + CELL_SIZE * cl.columns@[i + 1],
                INSET + CELL_SIZE * (cl.ranks@[i + 1] - 1),
                ps.subrange(
                    ec + cards_offset(self.nodes@, i),
                    ec + cards_offset(self.nodes@, i + 1),
                ),
            ))
    }

    /// The relation's connector: out of the bottom center of the source's
    /// cell, into the top center of the target's cell.
    pub fn make_edge(&self, ranks: &Vec<usize>, rranks: &Vec<usize>, from: usize, to: usize) -> (r:
        LinePrim)
        requires
            from < ranks@.len() && from < rranks@.len(),
            to < ranks@.len() && to < rranks@.len(),
            ranks@[from as int] >= 1,
            ranks@[to as int] >= 1,
            CELL_SIZE * rranks@[from as int] + CARD_SIZE <= usize::MAX,
            CELL_SIZE * rranks@[to as int] + CARD_SIZE <= usize::MAX,
            CELL_SIZE * (ranks@[from as int] - 1) + CARD_SIZE <= usize::MAX,
            CELL_SIZE * (ranks@[to as int] - 1) + CARD_SIZE <= usize::MAX,
        ensures
            r.x1 == CELL_SIZE * rranks@[from as int] + CARD_SIZE / 2,
            r.y1 == CELL_SIZE * (ranks@[from as int] - 1) + CARD_SIZE,
            r.x2 == CELL_SIZE * rranks@[to as int] + CARD_SIZE / 2,
            r.y2 == CELL_SIZE * (ranks@[to as int] - 1),
            r.marker_end == Markers::NoArrow,
    {
        let from_rank = ranks[from] - 1;
        let to_rank = ranks[to] - 1;
        let from_rrank = rranks[from];
        let to_rrank = rranks[to];
        proof {
            vstd::arithmetic::mul::lemma_mul_is_commutative(
                CELL_SIZE as int,
                rranks@[from as int] as int,
            );
            vstd::arithmetic::mul::lemma_mul_is_commutative(
                CELL_SIZE as int,
                rranks@[to as int] as int,
            );
            vstd::arithmetic::mul::lemma_mul_is_commutative(
                CELL_SIZE as int,
                ranks@[from as int] - 1,
            );
            vstd::arithmetic::mul::lemma_mul_is_commutative(
                CELL_SIZE as int,
                ranks@[to as int] - 1,
            );
        }
        let from_x = from_rrank * CELL_SIZE + CARD_SIZE / 2;
        let from_y = from_rank * CELL_SIZE + CARD_SIZE;
        let to_x = to_rrank * CELL_SIZE + CARD_SIZE / 2;
        let to_y = to_rank * CELL_SIZE;
        LinePrim {
            x1: from_x,
            y1: from_y,
            x2: to_x,
            y2: to_y,
            stroke: "#000000",
            stroke_width: 2,
            marker_end: Markers::NoArrow,
        }
    }

    /// The whole drawing: every relation's connector, then every entity's
    /// card at its grid cell, offset from the origin, together with the
    /// bounding box that encloses them. Cards whose line counts stay within
    /// the fixed card height are enclosed entirely.
    #[verifier::rlimit(100)]
    pub fn make_prims(&self) -> (r: Result<(Vec<Prim>, (usize, usize, usize, usize)), LayoutError>)
        requires
            self.wf(),
            self.fits(),
        ensures
            match r {
                Ok(pb) => {
                    &&& pb.1.0 == 0 && pb.1.1 == 0
                    &&& exists|cl: ClassLayout|
                        #[trigger] self.layout_ok(cl) && pb.1.2 == CELL_SIZE * cl.width_cells
                            && pb.1.3 == CELL_SIZE * cl.height_cells && self.prims_match(
                            cl,
                            pb.0@,
                        )
                    &&& (self.all_cards_within() ==> prims_in_box(
                        pb.0@,
                        pb.1.2 as int,
                        pb.1.3 as int,
                    ))
                    &&& has_topo_order(self.nodes@.len(), self.edges@)
                },
                Err(e) => e == LayoutError::CycleDetected && !has_topo_order(
                    self.nodes@.len(),
                    self.edges@,
                ),
            },
    {
        let n = self.nodes.len();
        let cl = match self.compute_layout() {
            Ok(cl) => cl,
            Err(e) => {
                return Err(e);
            },
        };
        proof {
            lemma_cell_mul_le(cl.width_cells as int, n as int + 1);
            lemma_cell_mul_le(cl.height_cells as int, 2 * self.edges@.len() as int + 2);
            vstd::arithmetic::mul::lemma_mul_is_commutative(
                CELL_SIZE as int,
                cl.width_cells as int,
            );
            vstd::arithmetic::mul::lemma_mul_is_commutative(
                CELL_SIZE as int,
                cl.height_cells as int,
            );
        }
        let bbox_w = cl.width_cells * CELL_SIZE;
        let bbox_h = cl.height_cells * CELL_SIZE;
        let mut out: Vec<Prim> = Vec::new();
        let mut k: usize = 0;
        while k < self.edges.len()
            invariant
                self.wf(),
                self.fits(),
                n == self.nodes@.len(),
                self.layout_ok(cl),
                bbox_w == CELL_SIZE * cl.width_cells,
                bbox_h == CELL_SIZE * cl.height_cells,
                k <= self.edges@.len(),
                out@.len() == k,
                forall|k0: int|
                    0 <= k0 < k ==> is_connector(#[trigger] out@[k0], cl, self.edges@[k0]),
                prims_in_box(out@, bbox_w as int, bbox_h as int),
            decreases self.edges@.len() - k,
        {
            let (a, b) = self.edges[k];
            proof {
                assert(crate::helper::edge_in_range(self.nodes@.len(), self.edges@[k as int]));
                lemma_cell_mul_le(cl.columns@[a as int] as int, cl.width_cells as int - 1);
                lemma_cell_mul_le(cl.columns@[b as int] as int, cl.width_cells as int - 1);
                lemma_cell_mul_le(cl.ranks@[a as int] - 1, cl.height_cells as int - 1);
                lemma_cell_mul_le(cl.ranks@[b as int] - 1, cl.height_cells as int - 1);
                lemma_cell_mul_le(cl.width_cells as int - 1, n as int + 1);
                lemma_cell_mul_le(cl.height_cells as int - 1, 2 * self.edges@.len() as int + 2);
                vstd::arithmetic::mul::lemma_mul_is_distributive_sub(
                    CELL_SIZE as int,
                    cl.width_cells as int,
                    1,
                );
                vstd::arithmetic::mul::lemma_mul_is_distributive_sub(
                    CELL_SIZE as int,
                    cl.height_cells as int,
                    1,
                );
            }
            let line = self.make_edge(&cl.ranks, &cl.columns, a, b);
            let shifted = LinePrim {
                x1: line.x1 + INSET,
                y1: line.y1 + INSET,
                x2: line.x2 + INSET,
                y2: line.y2 + INSET,
                ..line
            };
            let ghost prevout = out@;
            out.push(Prim::Line(shifted));
            proof {
                assert forall|m: int| 0 <= m < out@.len() implies prim_in_box(
                    #[trigger] out@[m],
                    bbox_w as int,
                    bbox_h as int,
                ) by {
                    if m < prevout.len() {
                        assert(out@[m] == prevout[m]);
                        assert(prim_in_box(prevout[m], bbox_w as int, bbox_h as int));
                    }
                }
                assert(is_connector(Prim::Line(shifted), cl, self.edges@[k as int]));
                assert forall|k0: int| 0 <= k0 < k + 1 implies is_connector(
                    #[trigger] out@[k0],
                    cl,
                    self.edges@[k0],
                ) by {
                    if k0 < k {
                        assert(out@[k0] == prevout[k0]);
                    }
                }
            }
            k = k + 1;
        }
        let mut idx: usize = 0;
        while idx < n
            invariant
                self.wf(),
                self.fits(),
                n == self.nodes@.len(),
                self.layout_ok(cl),
                bbox_w == CELL_SIZE * cl.width_cells,
                bbox_h == CELL_SIZE * cl.height_cells,
                idx <= n,
                out@.len() == self.edges@.len() + cards_offset(self.nodes@, idx as int),
                forall|k0: int|
                    0 <= k0 < self.edges@.len() ==> is_connector(
                        #[trigger] out@[k0],
                        cl,
                        self.edges@[k0],
                    ),
                forall|i0: int|
                    0 <= i0 < idx ==> card_prims_match(
                        #[trigger] self.nodes@[i0],
                        INSET + CELL_SIZE * cl.columns@[i0 + 1],
                        INSET + CELL_SIZE * (cl.ranks@[i0 + 1] - 1),
                        out@.subrange(
                            self.edges@.len() + cards_offset(self.nodes@, i0),
                            self.edges@.len() + cards_offset(self.nodes@, i0 + 1),
                        ),
                    ),
                self.all_cards_within() ==> prims_in_box(out@, bbox_w as int, bbox_h as int),
            decreases n - idx,
        {
            let i = idx + 1;
            proof {
                lemma_cell_mul_le(cl.columns@[i as int] as int, cl.width_cells as int - 1);
                lemma_cell_mul_le(cl.ranks@[i as int] - 1, cl.height_cells as int - 1);
                lemma_cell_mul_le(cl.width_cells as int - 1, n as int + 1);
                lemma_cell_mul_le(cl.height_cells as int - 1, 2 * self.edges@.len() as int + 2);
                vstd::arithmetic::mul::lemma_mul_is_distributive_sub(
                    CELL_SIZE as int,
                    cl.width_cells as int,
                    1,
                );
                vstd::arithmetic::mul::lemma_mul_is_distributive_sub(
                    CELL_SIZE as int,
                    cl.height_cells as int,
                    1,
                );
            }
            proof {
                vstd::arithmetic::mul::lemma_mul_is_commutative(
                    CELL_SIZE as int,
                    cl.columns@[i as int] as int,
                );
                vstd::arithmetic::mul::lemma_mul_is_commutative(
                    CELL_SIZE as int,
                    cl.ranks@[i as int] - 1,
                );
            }
            let ox = INSET + cl.columns[i] * CELL_SIZE;
            let oy = INSET + (cl.ranks[i] - 1) * CELL_SIZE;
            let mut card = self.nodes[idx].card_prims(ox, oy, &self.theme);
            let ghost prevout = out@;
            let ghost cardseq = card@;
            out.append(&mut card);
            proof {
                if self.all_cards_within() {
                    assert(card_within(self.nodes@[idx as int]));
                    crate::primitives::lemma_prims_in_larger_box(
                        cardseq,
                        ox + CARD_SIZE,
                        oy + CARD_SIZE,
                        bbox_w as int,
                        bbox_h as int,
                    );
                    crate::primitives::lemma_prims_in_box_concat(
                        prevout,
                        cardseq,
                        bbox_w as int,
                        bbox_h as int,
                    );
                }
                let ghost ec = self.edges@.len() as int;
                let ghost ns = self.nodes@;
                lemma_cards_offset_nonneg(ns, idx as int);
                assert(cards_offset(ns, idx as int + 1) == cards_offset(ns, idx as int)
                    + card_prims_len(ns[idx as int]));
                assert(out@.len() == ec + cards_offset(ns, idx as int + 1));
                assert forall|k0: int| 0 <= k0 < ec implies is_connector(
                    #[trigger] out@[k0],
                    cl,
                    self.edges@[k0],
                ) by {
                    assert(out@[k0] == prevout[k0]);
                }
                assert(out@.subrange(
                    ec + cards_offset(ns, idx as int),
                    ec + cards_offset(ns, idx as int + 1),
                ) =~= cardseq);
                assert forall|i0: int| 0 <= i0 < idx + 1 implies card_prims_match(
                    #[trigger] ns[i0],
                    INSET + CELL_SIZE * cl.columns@[i0 + 1],
                    INSET + CELL_SIZE * (cl.ranks@[i0 + 1] - 1),
                    out@.subrange(ec + cards_offset(ns, i0), ec + cards_offset(ns, i0 + 1)),
                ) by {
                    if i0 < idx {
                        lemma_cards_offset_nonneg(ns, i0);
                        lemma_cards_offset_mono(ns, i0, i0 + 1);
                        lemma_cards_offset_mono(ns, i0 + 1, idx as int);
                        assert(out@.subrange(
                            ec + cards_offset(ns, i0),
                            ec + cards_offset(ns, i0 + 1),
                        ) =~= prevout.subrange(
                            ec + cards_offset(ns, i0),
                            ec + cards_offset(ns, i0 + 1),
                        ));
                    }
                }
            }
            idx = idx + 1;
        }
        proof {
            assert(self.prims_match(cl, out@));
        }
        Ok((out, (0, 0, bbox_w, bbox_h)))
    }

    /// The box `(0, 0, width, height)` that encloses the whole drawing, or
    /// the cycle error.
    pub fn bounding_box(&self) -> (r: Result<(usize, usize, usize, usize), LayoutError>)
        requires
            self.wf(),
            self.fits(),
        ensures
            match r {
                Ok(bb) => bb.0 == 0 && bb.1 == 0 && exists|cl: ClassLayout|
                    #[trigger] self.layout_ok(cl) && bb.2 == CELL_SIZE * cl.width_cells && bb.3
                        == CELL_SIZE * cl.height_cells,
                Err(e) => e == LayoutError::CycleDetected && !has_topo_order(
                    self.nodes@.len(),
                    self.edges@,
                ),
            },
    {
        let cl = match self.compute_layout() {
            Ok(cl) => cl,
            Err(e) => {
                return Err(e);
            },
        };
        proof {
            lemma_cell_mul_le(cl.width_cells as int, self.nodes@.len() as int + 1);
            lemma_cell_mul_le(cl.height_cells as int, 2 * self.edges@.len() as int + 2);
            vstd::arithmetic::mul::lemma_mul_is_commutative(
                CELL_SIZE as int,
                cl.width_cells as int,
            );
            vstd::arithmetic::mul::lemma_mul_is_commutative(
                CELL_SIZE as int,
                cl.height_cells as int,
            );
        }
        let bb = cl.bounding_box();
        Ok(bb)
    }
}

} // verus!
