//! The layout tree as a mathematical value, and what the structural
//! operations on it mean. The pane manager keeps its nodes in an arena; its
//! contracts are stated over the tree defined here.

use vstd::prelude::*;
use crate::geometry::{first_part, lemma_split_partitions, second_part, Direction, Rect};
use crate::error::LayoutError;
use crate::window::navigation::{target, Heading};
use crate::window::pane::{Pane, PaneFlattened, PaneId, PaneView};

verus! {

/// A layout tree: a pane, or a split that divides its area between two
/// subtrees.
pub enum Layout {
    Leaf(Pane),
    Split { direction: Direction, ratio: (u32, u32), first: Box<Layout>, second: Box<Layout> },
}

/// `first` and `second` are the two leaves `a` and `b`, in either order.
pub open spec fn leaf_pair(first: Layout, second: Layout, a: PaneId, b: PaneId) -> bool {
    &&& first matches Layout::Leaf(p)
    &&& second matches Layout::Leaf(q)
    &&& ((p.id == a && q.id == b) || (p.id == b && q.id == a))
}

impl Layout {
    /// Some leaf of the tree has the identifier `id`.
    pub open spec fn has_leaf(self, id: PaneId) -> bool
        decreases self,
    {
        match self {
            Layout::Leaf(pane) => pane.id == id,
            Layout::Split { first, second, .. } => (*first).has_leaf(id) || (*second).has_leaf(id),
        }
    }

    /// The leaf with the identifier `id`; the first one in traversal order
    /// should there be several.
    pub open spec fn leaf(self, id: PaneId) -> Pane
        decreases self,
    {
        match self {
            Layout::Leaf(pane) => pane,
            Layout::Split { first, second, .. } => if (*first).has_leaf(id) {
                (*first).leaf(id)
            } else {
                (*second).leaf(id)
            },
        }
    }

    /// The leaves in traversal order: depth first, first child before second.
    pub open spec fn leaves(self) -> Seq<Pane>
        decreases self,
    {
        match self {
            Layout::Leaf(pane) => seq![pane],
            Layout::Split { first, second, .. } => (*first).leaves() + (*second).leaves(),
        }
    }

    /// No identifier names two leaves.
    pub open spec fn ids_distinct(self) -> bool
        decreases self,
    {
        match self {
            Layout::Leaf(_) => true,
            Layout::Split { first, second, .. } => {
                &&& (*first).ids_distinct()
                &&& (*second).ids_distinct()
                &&& forall|id: PaneId|
                    #![trigger (*first).has_leaf(id)]
                    #![trigger (*second).has_leaf(id)]
                    !((*first).has_leaf(id) && (*second).has_leaf(id))
            },
        }
    }

    /// Both parts of every split ratio are positive.
    pub open spec fn ratios_positive(self) -> bool
        decreases self,
    {
        match self {
            Layout::Leaf(_) => true,
            Layout::Split { ratio, first, second, .. } => {
                &&& ratio.0 > 0
                &&& ratio.1 > 0
                &&& (*first).ratios_positive()
                &&& (*second).ratios_positive()
            },
        }
    }

    /// Every identifier in the tree is less than `bound`.
    pub open spec fn ids_below(self, bound: int) -> bool
        decreases self,
    {
        match self {
            Layout::Leaf(pane) => pane.id < bound,
            Layout::Split { first, second, .. } => (*first).ids_below(bound) && (*second).ids_below(
                bound,
            ),
        }
    }

    /// The tree with `sub` in place of the leaf `id`.
    pub open spec fn replace(self, id: PaneId, sub: Layout) -> Layout
        decreases self,
    {
        match self {
            Layout::Leaf(pane) => if pane.id == id {
                sub
            } else {
                self
            },
            Layout::Split { direction, ratio, first, second } => Layout::Split {
                direction,
                ratio,
                first: Box::new((*first).replace(id, sub)),
                second: Box::new((*second).replace(id, sub)),
            },
        }
    }

    /// The tree in which the leaf `id` displays `view`.
    pub open spec fn with_view(self, id: PaneId, view: PaneView) -> Layout {
        self.replace(id, Layout::Leaf(Pane { id, view }))
    }

    /// The tree after the leaf `id` has been split: in its place stands a
    /// split whose first child is that leaf and whose second child is a new
    /// leaf `new_id` with the same view.
    pub open spec fn split_leaf(
        self,
        id: PaneId,
        direction: Direction,
        ratio: (u32, u32),
        new_id: PaneId,
    ) -> Layout {
        self.replace(
            id,
            Layout::Split {
                direction,
                ratio,
                first: Box::new(Layout::Leaf(self.leaf(id))),
                second: Box::new(Layout::Leaf(Pane { id: new_id, view: self.leaf(id).view })),
            },
        )
    }

    /// `a` and `b` are leaves and the two children of one split.
    pub open spec fn siblings(self, a: PaneId, b: PaneId) -> bool
        decreases self,
    {
        match self {
            Layout::Leaf(_) => false,
            Layout::Split { first, second, .. } => {
                ||| leaf_pair(*first, *second, a, b)
                ||| (*first).siblings(a, b)
                ||| (*second).siblings(a, b)
            },
        }
    }

    /// The tree after the siblings `a` and `b` have been merged: the split
    /// above them gives way to the leaf `a`.
    pub open spec fn merged(self, a: PaneId, b: PaneId) -> Layout
        decreases self,
    {
        match self {
            Layout::Leaf(_) => self,
            Layout::Split { direction, ratio, first, second } => if leaf_pair(
                *first,
                *second,
                a,
                b,
            ) {
                if (*first).has_leaf(a) {
                    *first
                } else {
                    *second
                }
            } else {
                Layout::Split {
                    direction,
                    ratio,
                    first: Box::new((*first).merged(a, b)),
                    second: Box::new((*second).merged(a, b)),
                }
            },
        }
    }

    /// The first leaf in traversal order that displays `view`.
    pub open spec fn first_showing(self, view: PaneView) -> Option<PaneId>
        decreases self,
    {
        match self {
            Layout::Leaf(pane) => if pane.view == view {
                Some(pane.id)
            } else {
                None
            },
            Layout::Split { first, second, .. } => match (*first).first_showing(view) {
                Some(id) => Some(id),
                None => (*second).first_showing(view),
            },
        }
    }

    /// The rectangles of the leaves when the tree is drawn into `area`, in
    /// traversal order. A split hands each child its part of the area; the
    /// leaf `focused` is the one marked as focused.
    pub open spec fn flatten(self, area: Rect, focused: PaneId) -> Seq<PaneFlattened>
        decreases self,
    {
        match self {
            Layout::Leaf(pane) => seq![
                PaneFlattened { view: pane.view, id: pane.id, focused: pane.id == focused, rect: area },
            ],
            Layout::Split { direction, ratio, first, second } => (*first).flatten(
                first_part(area, direction, ratio),
                focused,
            ) + (*second).flatten(second_part(area, direction, ratio), focused),
        }
    }
}

/// What a pane manager is, seen from outside: the layout tree, the focused
/// leaf, the identifier that the next new leaf will get, and the viewport that
/// focus navigation measures the panes in.
pub struct PaneModel {
    pub layout: Layout,
    pub focused: PaneId,
    pub next_id: PaneId,
    pub viewport: Rect,
}

impl PaneModel {
    /// The invariants of a pane manager: identifiers are distinct and below
    /// the next one to be handed out, split ratios are positive, the focus is
    /// on a leaf of the tree, and the viewport has valid edges.
    pub open spec fn well_formed(self) -> bool {
        &&& self.layout.ids_distinct()
        &&& self.layout.ratios_positive()
        &&& self.layout.ids_below(self.next_id as int)
        &&& self.layout.has_leaf(self.focused)
        &&& self.viewport.fits()
    }

    /// The focused leaf.
    pub open spec fn focused_pane(self) -> Pane {
        self.layout.leaf(self.focused)
    }

    /// The layout flattened into `area`.
    pub open spec fn flattened(self, area: Rect) -> Seq<PaneFlattened> {
        self.layout.flatten(area, self.focused)
    }

    /// The layout flattened into the viewport.
    pub open spec fn entries(self) -> Seq<PaneFlattened> {
        self.flattened(self.viewport)
    }

    /// The entry of the focused leaf in the viewport.
    pub open spec fn focused_entry(self) -> PaneFlattened {
        let e = self.entries();
        e[choose|i: int| 0 <= i < e.len() && (#[trigger] e[i]).focused]
    }

    /// The leaf that the focus moves to when it is steered in the direction
    /// `heading`: the nearest candidate in the viewport, or the focused leaf
    /// itself when nothing lies in that direction.
    pub open spec fn neighbour(self, heading: Heading) -> PaneId {
        match target(self.entries(), self.focused_entry().rect, heading) {
            Some(k) => self.entries()[k].id,
            None => self.focused,
        }
    }

    /// The manager with the focus on `id`.
    pub open spec fn focus_on(self, id: PaneId) -> PaneModel {
        PaneModel { focused: id, ..self }
    }

    /// The manager after the focus was steered in the direction `heading`.
    pub open spec fn steer(self, heading: Heading) -> PaneModel {
        self.focus_on(self.neighbour(heading))
    }

    /// The manager after the leaf `id` was split. The new leaf gets the next
    /// identifier; the focus stays where it was.
    pub open spec fn split(self, id: PaneId, direction: Direction, ratio: (u32, u32)) -> PaneModel {
        PaneModel {
            layout: self.layout.split_leaf(id, direction, ratio, self.next_id),
            next_id: (self.next_id + 1) as usize,
            ..self
        }
    }

    /// The manager after the siblings `a` and `b` were merged. A focus on the
    /// discarded leaf `b` moves to `a`.
    pub open spec fn merge(self, a: PaneId, b: PaneId) -> PaneModel {
        PaneModel {
            layout: self.layout.merged(a, b),
            focused: if self.focused == b {
                a
            } else {
                self.focused
            },
            ..self
        }
    }

    /// The manager after the focused leaf was made to display `view`.
    pub open spec fn goto(self, view: PaneView) -> PaneModel {
        PaneModel { layout: self.layout.with_view(self.focused, view), ..self }
    }

    /// The manager after `view` was brought into focus: the focus moves to
    /// the first leaf that displays `view`, and where there is none the
    /// focused leaf is made to display it.
    pub open spec fn goto_by_view(self, view: PaneView) -> PaneModel {
        match self.layout.first_showing(view) {
            Some(id) => self.focus_on(id),
            None => self.goto(view),
        }
    }

    /// How a merge of `a` and `b` ends: refused as not found when either is
    /// not a leaf of the tree, refused as an invalid merge when the two are
    /// not siblings, refused as an invalid operation when it would discard a
    /// pane that displays the terminal in favour of one that does not, and
    /// carried out otherwise.
    pub open spec fn merge_outcome(self, a: PaneId, b: PaneId) -> Result<(), LayoutError> {
        if !self.layout.has_leaf(a) || !self.layout.has_leaf(b) {
            Err(LayoutError::NotFound)
        } else if !self.layout.siblings(a, b) {
            Err(LayoutError::InvalidMerge)
        } else if self.layout.leaf(b).view == PaneView::Terminal && self.layout.leaf(a).view
            != PaneView::Terminal {
            Err(LayoutError::InvalidOperation)
        } else {
            Ok(())
        }
    }

    /// The manager in which `pane` stands in place of the focused leaf.
    pub open spec fn with_focused_pane(self, pane: Pane) -> PaneModel {
        PaneModel { layout: self.layout.replace(self.focused, Layout::Leaf(pane)), ..self }
    }

    /// The leaf that a close of the focused leaf merges it with: the
    /// neighbour on the left, on the right, above or below, tried in that
    /// order, the first of them that the focused leaf can be merged with.
    pub open spec fn merge_partner(self) -> Option<PaneId> {
        if self.merge_outcome(self.focused, self.neighbour(Heading::Left)) is Ok {
            Some(self.neighbour(Heading::Left))
        } else if self.merge_outcome(self.focused, self.neighbour(Heading::Right)) is Ok {
            Some(self.neighbour(Heading::Right))
        } else if self.merge_outcome(self.focused, self.neighbour(Heading::Up)) is Ok {
            Some(self.neighbour(Heading::Up))
        } else if self.merge_outcome(self.focused, self.neighbour(Heading::Down)) is Ok {
            Some(self.neighbour(Heading::Down))
        } else {
            None
        }
    }

    /// How a close of the focused leaf ends: refused as an invalid operation
    /// when the leaf displays the terminal, refused as unmergeable when it
    /// can be merged with none of its four neighbours, and carried out
    /// otherwise.
    pub open spec fn close_outcome(self) -> Result<(), LayoutError> {
        if self.focused_pane().view == PaneView::Terminal {
            Err(LayoutError::InvalidOperation)
        } else if self.merge_partner() is None {
            Err(LayoutError::Unmergeable)
        } else {
            Ok(())
        }
    }

    /// The manager after a close of the focused leaf: the focused leaf has
    /// taken the place of the split above it and its sibling, and keeps the
    /// focus. A close that is refused changes nothing.
    pub open spec fn close(self) -> PaneModel {
        if self.close_outcome() is Ok {
            self.merge(self.focused, self.merge_partner()->Some_0)
        } else {
            self
        }
    }

    /// The manager with the viewport `area`.
    pub open spec fn with_viewport(self, area: Rect) -> PaneModel {
        PaneModel { viewport: area, ..self }
    }
}

/// The rectangles of `entries` tile `area`: each lies inside it, every cell of
/// the area is in one of them, and no cell is in two.
pub open spec fn tiles(entries: Seq<PaneFlattened>, area: Rect) -> bool {
    &&& forall|i: int| 0 <= i < entries.len() ==> (#[trigger] entries[i]).rect.within(area)
    &&& forall|px: int, py: int| #[trigger]
        area.covers(px, py) ==> exists|i: int|
            0 <= i < entries.len() && #[trigger] entries[i].rect.covers(px, py)
    &&& forall|i: int, j: int, px: int, py: int|
        0 <= i < j < entries.len() ==> !(#[trigger] entries[i].rect.covers(px, py)
            && #[trigger] entries[j].rect.covers(px, py))
}

/// Exactly one of `entries` is marked as focused.
pub open spec fn one_focused(entries: Seq<PaneFlattened>) -> bool {
    exists|i: int|
        {
            &&& 0 <= i < entries.len()
            &&& (#[trigger] entries[i]).focused
            &&& forall|j: int| 0 <= j < entries.len() && (#[trigger] entries[j]).focused ==> j == i
        }
}

/// A flattened layout lists the leaves: entry `i` shows the identifier and
/// view of leaf `i`, and is focused exactly if that leaf is `focused`.
pub proof fn lemma_flatten_lists_leaves(layout: Layout, area: Rect, focused: PaneId)
    ensures
        layout.flatten(area, focused).len() == layout.leaves().len(),
        layout.leaves().len() > 0,
        forall|i: int|
            0 <= i < layout.leaves().len() ==> {
                let entry = #[trigger] layout.flatten(area, focused)[i];
                &&& entry.id == layout.leaves()[i].id
                &&& entry.view == layout.leaves()[i].view
                &&& entry.focused == (entry.id == focused)
            },
    decreases layout,
{
    match layout {
        Layout::Leaf(_) => {},
        Layout::Split { direction, ratio, first, second } => {
            lemma_flatten_lists_leaves(*first, first_part(area, direction, ratio), focused);
            lemma_flatten_lists_leaves(*second, second_part(area, direction, ratio), focused);
        },
    }
}

/// The leaves of a tree are exactly the panes that `has_leaf` and `leaf`
/// speak of, and with distinct identifiers no two of them share one.
pub proof fn lemma_leaves_cover(layout: Layout)
    ensures
        forall|i: int|
            0 <= i < layout.leaves().len() ==> layout.has_leaf((#[trigger] layout.leaves()[i]).id),
        forall|id: PaneId|
            #[trigger] layout.has_leaf(id) ==> exists|i: int|
                0 <= i < layout.leaves().len() && (#[trigger] layout.leaves()[i]) == layout.leaf(id)
                    && layout.leaf(id).id == id,
        layout.ids_distinct() ==> forall|i: int, j: int|
            0 <= i < j < layout.leaves().len() ==> (#[trigger] layout.leaves()[i]).id != (
            #[trigger] layout.leaves()[j]).id,
    decreases layout,
{
    match layout {
        Layout::Leaf(pane) => {
            assert(layout.leaves()[0] == pane);
        },
        Layout::Split { first, second, .. } => {
            lemma_leaves_cover(*first);
            lemma_leaves_cover(*second);
            let a = (*first).leaves();
            let b = (*second).leaves();
            let all = layout.leaves();
            assert forall|i: int| 0 <= i < all.len() implies layout.has_leaf(
                (#[trigger] all[i]).id,
            ) by {
                if i < a.len() {
                    assert(all[i] == a[i]);
                } else {
                    assert(all[i] == b[i - a.len()]);
                }
            }
            assert forall|id: PaneId| #[trigger] layout.has_leaf(id) implies exists|i: int|
                0 <= i < all.len() && (#[trigger] all[i]) == layout.leaf(id) && layout.leaf(id).id
                    == id by {
                if (*first).has_leaf(id) {
                    let i = choose|i: int|
                        0 <= i < a.len() && (#[trigger] a[i]) == (*first).leaf(id) && (
                        *first).leaf(id).id == id;
                    assert(all[i] == a[i]);
                } else {
                    assert((*second).has_leaf(id));
                    let i = choose|i: int|
                        0 <= i < b.len() && (#[trigger] b[i]) == (*second).leaf(id) && (
                        *second).leaf(id).id == id;
                    assert(all[a.len() + i] == b[i]);
                }
            }
            if layout.ids_distinct() {
                assert forall|i: int, j: int| 0 <= i < j < all.len() implies (#[trigger] all[i]).id
                    != (#[trigger] all[j]).id by {
                    if j < a.len() {
                        assert(all[i] == a[i] && all[j] == a[j]);
                    } else if i >= a.len() {
                        assert(all[i] == b[i - a.len()] && all[j] == b[j - a.len()]);
                    } else {
                        assert(all[i] == a[i] && all[j] == b[j - a.len()]);
                        assert((*first).has_leaf(a[i].id));
                        assert((*second).has_leaf(b[j - a.len()].id));
                    }
                }
            }
        },
    }
}

/// Whatever the tree and whatever the area, as long as the right and bottom
/// edges of the area are valid coordinates, the rectangles of a flattened
/// layout tile the area: no gaps and no overlaps.
pub proof fn lemma_flatten_tiles(layout: Layout, area: Rect, focused: PaneId)
    requires
        layout.ratios_positive(),
        area.fits(),
    ensures
        tiles(layout.flatten(area, focused), area),
        forall|i: int|
            0 <= i < layout.flatten(area, focused).len() ==> (#[trigger] layout.flatten(
                area,
                focused,
            )[i]).rect.fits(),
    decreases layout,
{
    let entries = layout.flatten(area, focused);
    match layout {
        Layout::Leaf(_) => {
            assert forall|px: int, py: int| #[trigger] area.covers(px, py) implies exists|i: int|
                0 <= i < entries.len() && #[trigger] entries[i].rect.covers(px, py) by {
                assert(entries[0].rect.covers(px, py));
            }
        },
        Layout::Split { direction, ratio, first, second } => {
            let fa = first_part(area, direction, ratio);
            let sa = second_part(area, direction, ratio);
            lemma_split_partitions(area, direction, ratio);
            lemma_flatten_tiles(*first, fa, focused);
            lemma_flatten_tiles(*second, sa, focused);
            let a = (*first).flatten(fa, focused);
            let b = (*second).flatten(sa, focused);
            assert forall|i: int| 0 <= i < entries.len() implies (#[trigger] entries[i]).rect.within(
                area,
            ) && entries[i].rect.fits() by {
                if i < a.len() {
                    assert(entries[i] == a[i]);
                } else {
                    assert(entries[i] == b[i - a.len()]);
                }
            }
            assert forall|px: int, py: int| #[trigger] area.covers(px, py) implies exists|i: int|
                0 <= i < entries.len() && #[trigger] entries[i].rect.covers(px, py) by {
                if fa.covers(px, py) {
                    let i = choose|i: int| 0 <= i < a.len() && #[trigger] a[i].rect.covers(px, py);
                    assert(entries[i] == a[i]);
                    assert(entries[i].rect.covers(px, py));
                } else {
                    assert(sa.covers(px, py));
                    let i = choose|i: int| 0 <= i < b.len() && #[trigger] b[i].rect.covers(px, py);
                    assert(entries[a.len() + i] == b[i]);
                    assert(entries[a.len() + i].rect.covers(px, py));
                }
            }
            assert forall|i: int, j: int, px: int, py: int| 0 <= i < j < entries.len() implies !(
            #[trigger] entries[i].rect.covers(px, py) && #[trigger] entries[j].rect.covers(
                px,
                py,
            )) by {
                if j < a.len() {
                    assert(entries[i] == a[i] && entries[j] == a[j]);
                    assert(!(a[i].rect.covers(px, py) && a[j].rect.covers(px, py)));
                } else if i >= a.len() {
                    assert(entries[i] == b[i - a.len()] && entries[j] == b[j - a.len()]);
                    assert(!(b[i - a.len()].rect.covers(px, py) && b[j - a.len()].rect.covers(
                        px,
                        py,
                    )));
                } else {
                    assert(entries[i] == a[i] && entries[j] == b[j - a.len()]);
                    if a[i].rect.covers(px, py) && b[j - a.len()].rect.covers(px, py) {
                        assert(a[i].rect.within(fa));
                        assert(b[j - a.len()].rect.within(sa));
                        assert(fa.covers(px, py));
                        assert(sa.covers(px, py));
                    }
                }
            }
        },
    }
}

/// In a tree with distinct identifiers that holds the leaf `focused`, exactly
/// one entry of every flattened layout is marked as focused.
pub proof fn lemma_flatten_one_focused(layout: Layout, area: Rect, focused: PaneId)
    requires
        layout.ids_distinct(),
        layout.has_leaf(focused),
    ensures
        one_focused(layout.flatten(area, focused)),
{
    lemma_flatten_lists_leaves(layout, area, focused);
    lemma_leaves_cover(layout);
    let entries = layout.flatten(area, focused);
    let leaves = layout.leaves();
    let i = choose|i: int|
        0 <= i < leaves.len() && (#[trigger] leaves[i]) == layout.leaf(focused);
    assert(entries[i].focused);
    assert forall|j: int| 0 <= j < entries.len() && (#[trigger] entries[j]).focused implies j
        == i by {
        if j < i {
            assert(leaves[j].id != leaves[i].id);
        } else if i < j {
            assert(leaves[i].id != leaves[j].id);
        }
    }
}

/// A tree without the leaf `id` is the same after `id` has been replaced.
pub proof fn lemma_replace_absent(layout: Layout, id: PaneId, sub: Layout)
    requires
        !layout.has_leaf(id),
    ensures
        layout.replace(id, sub) == layout,
    decreases layout,
{
    match layout {
        Layout::Leaf(_) => {},
        Layout::Split { first, second, .. } => {
            lemma_replace_absent(*first, id, sub);
            lemma_replace_absent(*second, id, sub);
        },
    }
}

/// Putting a leaf in its own place changes nothing.
pub proof fn lemma_replace_by_itself(layout: Layout, id: PaneId)
    requires
        layout.ids_distinct(),
        layout.has_leaf(id),
    ensures
        layout.replace(id, Layout::Leaf(layout.leaf(id))) == layout,
    decreases layout,
{
    match layout {
        Layout::Leaf(_) => {},
        Layout::Split { first, second, .. } => {
            let pane = layout.leaf(id);
            if (*first).has_leaf(id) {
                assert(!(*second).has_leaf(id));
                lemma_replace_by_itself(*first, id);
                lemma_replace_absent(*second, id, Layout::Leaf(pane));
            } else {
                lemma_replace_by_itself(*second, id);
                lemma_replace_absent(*first, id, Layout::Leaf(pane));
            }
        },
    }
}

/// Which leaves a tree has after a replacement: those of `sub`, and those it
/// had before apart from `id`.
pub proof fn lemma_replace_has_leaf(layout: Layout, id: PaneId, sub: Layout, other: PaneId)
    requires
        layout.has_leaf(id),
    ensures
        layout.replace(id, sub).has_leaf(other) <==> (sub.has_leaf(other) || (other != id
            && layout.has_leaf(other))),
    decreases layout,
{
    match layout {
        Layout::Leaf(_) => {},
        Layout::Split { first, second, .. } => {
            let f = (*first).replace(id, sub);
            let s = (*second).replace(id, sub);
            assert(layout.replace(id, sub).has_leaf(other) == (f.has_leaf(other) || s.has_leaf(
                other,
            )));
            if (*first).has_leaf(id) {
                lemma_replace_has_leaf(*first, id, sub, other);
            } else {
                lemma_replace_absent(*first, id, sub);
            }
            if (*second).has_leaf(id) {
                lemma_replace_has_leaf(*second, id, sub, other);
            } else {
                lemma_replace_absent(*second, id, sub);
            }
        },
    }
}

/// A replacement leaves every other leaf as it was, provided `sub` brings no
/// leaf of the same name.
pub proof fn lemma_replace_keeps_leaf(layout: Layout, id: PaneId, sub: Layout, other: PaneId)
    requires
        other != id,
        layout.has_leaf(other),
        !sub.has_leaf(other),
    ensures
        layout.replace(id, sub).leaf(other) == layout.leaf(other),
    decreases layout,
{
    match layout {
        Layout::Leaf(_) => {},
        Layout::Split { first, second, .. } => {
            let f = (*first).replace(id, sub);
            let s = (*second).replace(id, sub);
            assert(layout.replace(id, sub).leaf(other) == if f.has_leaf(other) {
                f.leaf(other)
            } else {
                s.leaf(other)
            });
            if (*first).has_leaf(id) {
                lemma_replace_has_leaf(*first, id, sub, other);
            } else {
                lemma_replace_absent(*first, id, sub);
            }
            if (*first).has_leaf(other) {
                lemma_replace_keeps_leaf(*first, id, sub, other);
            } else {
                lemma_replace_keeps_leaf(*second, id, sub, other);
            }
        },
    }
}

/// After a replacement in a tree with distinct identifiers, a leaf of `sub`
/// that the tree did not already hold under another name is found in `sub`.
pub proof fn lemma_replace_finds_new_leaf(layout: Layout, id: PaneId, sub: Layout, other: PaneId)
    requires
        layout.ids_distinct(),
        layout.has_leaf(id),
        sub.has_leaf(other),
        other == id || !layout.has_leaf(other),
    ensures
        layout.replace(id, sub).leaf(other) == sub.leaf(other),
    decreases layout,
{
    match layout {
        Layout::Leaf(_) => {},
        Layout::Split { first, second, .. } => {
            let f = (*first).replace(id, sub);
            let s = (*second).replace(id, sub);
            assert(layout.replace(id, sub).leaf(other) == if f.has_leaf(other) {
                f.leaf(other)
            } else {
                s.leaf(other)
            });
            if (*first).has_leaf(id) {
                lemma_replace_has_leaf(*first, id, sub, other);
                lemma_replace_finds_new_leaf(*first, id, sub, other);
            } else {
                assert((*second).has_leaf(id));
                lemma_replace_absent(*first, id, sub);
                assert(!(*first).has_leaf(other));
                lemma_replace_finds_new_leaf(*second, id, sub, other);
            }
        },
    }
}

/// Replacing a leaf by a subtree with distinct identifiers, all of them new
/// to the tree apart from `id` itself, keeps the identifiers distinct.
pub proof fn lemma_replace_keeps_distinct(layout: Layout, id: PaneId, sub: Layout)
    requires
        layout.ids_distinct(),
        layout.has_leaf(id),
        sub.ids_distinct(),
        forall|other: PaneId| #[trigger] sub.has_leaf(other) && other != id ==> !layout.has_leaf(other),
    ensures
        layout.replace(id, sub).ids_distinct(),
    decreases layout,
{
    match layout {
        Layout::Leaf(_) => {},
        Layout::Split { first, second, .. } => {
            let f = (*first).replace(id, sub);
            let s = (*second).replace(id, sub);
            if (*first).has_leaf(id) {
                assert(!(*second).has_leaf(id));
                lemma_replace_keeps_distinct(*first, id, sub);
                lemma_replace_absent(*second, id, sub);
                assert forall|other: PaneId| !(f.has_leaf(other) && s.has_leaf(other)) by {
                    lemma_replace_has_leaf(*first, id, sub, other);
                    if s.has_leaf(other) {
                        assert(!(*first).has_leaf(other));
                        assert(layout.has_leaf(other));
                    }
                }
            } else {
                assert((*second).has_leaf(id));
                lemma_replace_keeps_distinct(*second, id, sub);
                lemma_replace_absent(*first, id, sub);
                assert forall|other: PaneId| !(f.has_leaf(other) && s.has_leaf(other)) by {
                    lemma_replace_has_leaf(*second, id, sub, other);
                    if f.has_leaf(other) {
                        assert(!(*second).has_leaf(other));
                        assert(layout.has_leaf(other));
                    }
                }
            }
            assert(f.ids_distinct() && s.ids_distinct());
        },
    }
}

/// A replacement keeps the ratios positive if those of `sub` are.
pub proof fn lemma_replace_keeps_ratios(layout: Layout, id: PaneId, sub: Layout)
    requires
        layout.ratios_positive(),
        sub.ratios_positive(),
    ensures
        layout.replace(id, sub).ratios_positive(),
    decreases layout,
{
    match layout {
        Layout::Leaf(_) => {},
        Layout::Split { first, second, .. } => {
            lemma_replace_keeps_ratios(*first, id, sub);
            lemma_replace_keeps_ratios(*second, id, sub);
            assert((*first).replace(id, sub).ratios_positive());
            assert((*second).replace(id, sub).ratios_positive());
        },
    }
}

/// A replacement keeps the identifiers below `bound` if those of `sub` are.
pub proof fn lemma_replace_keeps_bound(layout: Layout, id: PaneId, sub: Layout, bound: int)
    requires
        layout.ids_below(bound),
        sub.ids_below(bound),
    ensures
        layout.replace(id, sub).ids_below(bound),
    decreases layout,
{
    match layout {
        Layout::Leaf(_) => {},
        Layout::Split { first, second, .. } => {
            lemma_replace_keeps_bound(*first, id, sub, bound);
            lemma_replace_keeps_bound(*second, id, sub, bound);
            assert((*first).replace(id, sub).ids_below(bound));
            assert((*second).replace(id, sub).ids_below(bound));
        },
    }
}

/// A leaf of a tree whose identifiers are below `bound` has such an
/// identifier.
pub proof fn lemma_leaf_below_bound(layout: Layout, id: PaneId, bound: int)
    requires
        layout.ids_below(bound),
        layout.has_leaf(id),
    ensures
        id < bound,
        layout.leaf(id).id == id,
    decreases layout,
{
    match layout {
        Layout::Leaf(_) => {},
        Layout::Split { first, second, .. } => {
            if (*first).has_leaf(id) {
                lemma_leaf_below_bound(*first, id, bound);
            } else {
                lemma_leaf_below_bound(*second, id, bound);
            }
        },
    }
}

/// Siblings are leaves of the tree, in either order, and with distinct
/// identifiers they differ.
pub proof fn lemma_siblings_are_leaves(layout: Layout, a: PaneId, b: PaneId)
    requires
        layout.siblings(a, b),
    ensures
        layout.has_leaf(a),
        layout.has_leaf(b),
        layout.siblings(b, a),
        layout.ids_distinct() ==> a != b,
    decreases layout,
{
    match layout {
        Layout::Leaf(_) => {},
        Layout::Split { first, second, .. } => {
            if leaf_pair(*first, *second, a, b) {
                assert((*first).has_leaf(a) || (*second).has_leaf(a));
                assert((*first).has_leaf(b) || (*second).has_leaf(b));
                assert(leaf_pair(*first, *second, b, a));
                if a == b {
                    assert((*first).has_leaf(a) && (*second).has_leaf(a));
                }
            } else if (*first).siblings(a, b) {
                lemma_siblings_are_leaves(*first, a, b);
            } else {
                lemma_siblings_are_leaves(*second, a, b);
            }
        },
    }
}

/// Merging changes nothing in a tree in which `a` and `b` are not siblings.
pub proof fn lemma_merged_without_siblings(layout: Layout, a: PaneId, b: PaneId)
    requires
        !layout.siblings(a, b),
    ensures
        layout.merged(a, b) == layout,
    decreases layout,
{
    match layout {
        Layout::Leaf(_) => {},
        Layout::Split { first, second, .. } => {
            lemma_merged_without_siblings(*first, a, b);
            lemma_merged_without_siblings(*second, a, b);
        },
    }
}

/// In a tree with distinct identifiers at most one subtree of a split holds
/// the siblings `a` and `b`, and then the two children are not that pair.
proof fn lemma_siblings_on_one_side(first: Layout, second: Layout, a: PaneId, b: PaneId)
    requires
        first.ids_distinct(),
        second.ids_distinct(),
        forall|id: PaneId|
            #![trigger first.has_leaf(id)]
            #![trigger second.has_leaf(id)]
            !(first.has_leaf(id) && second.has_leaf(id)),
    ensures
        !(first.siblings(a, b) && second.siblings(a, b)),
        first.siblings(a, b) || second.siblings(a, b) ==> !leaf_pair(first, second, a, b),
{
    if first.siblings(a, b) {
        lemma_siblings_are_leaves(first, a, b);
        assert(first.has_leaf(a));
        if second.siblings(a, b) {
            lemma_siblings_are_leaves(second, a, b);
            assert(second.has_leaf(a));
        }
    } else if second.siblings(a, b) {
        lemma_siblings_are_leaves(second, a, b);
    }
}

/// Which leaves a tree has after the siblings `a` and `b` were merged: those
/// it had before, apart from `b`.
pub proof fn lemma_merged_has_leaf(layout: Layout, a: PaneId, b: PaneId, other: PaneId)
    requires
        layout.ids_distinct(),
        layout.siblings(a, b),
    ensures
        layout.merged(a, b).has_leaf(other) <==> (other != b && layout.has_leaf(other)),
        other != b && layout.has_leaf(other) ==> layout.merged(a, b).leaf(other) == layout.leaf(
            other,
        ),
    decreases layout,
{
    match layout {
        Layout::Leaf(_) => {},
        Layout::Split { first, second, .. } => {
            if leaf_pair(*first, *second, a, b) {
                assert((*first).has_leaf(a) || (*second).has_leaf(a));
                assert((*first).has_leaf(b) || (*second).has_leaf(b));
                assert((*first).has_leaf(other) <==> (*first)->Leaf_0.id == other);
                assert((*second).has_leaf(other) <==> (*second)->Leaf_0.id == other);
                assert((*first).has_leaf(a) ==> !(*second).has_leaf(a));
                let kept = layout.merged(a, b);
                assert(kept.has_leaf(other) <==> other == a);
                assert(layout.has_leaf(other) <==> (other == a || other == b));
                if other == a {
                    lemma_siblings_are_leaves(layout, a, b);
                    assert(kept.leaf(other) == layout.leaf(other));
                }
            } else {
                lemma_siblings_on_one_side(*first, *second, a, b);
                let f = (*first).merged(a, b);
                let s = (*second).merged(a, b);
                assert(layout.merged(a, b).has_leaf(other) == (f.has_leaf(other) || s.has_leaf(
                    other,
                )));
                assert(layout.merged(a, b).leaf(other) == if f.has_leaf(other) {
                    f.leaf(other)
                } else {
                    s.leaf(other)
                });
                if (*first).siblings(a, b) {
                    lemma_siblings_are_leaves(*first, a, b);
                    lemma_merged_has_leaf(*first, a, b, other);
                    lemma_merged_without_siblings(*second, a, b);
                    assert(!(*second).has_leaf(b));
                } else {
                    lemma_siblings_are_leaves(*second, a, b);
                    lemma_merged_has_leaf(*second, a, b, other);
                    lemma_merged_without_siblings(*first, a, b);
                    assert(!(*first).has_leaf(b));
                }
            }
        },
    }
}

/// Merging two siblings leaves a tree with distinct identifiers, positive
/// ratios and the same bound on its identifiers.
pub proof fn lemma_merged_keeps_shape(layout: Layout, a: PaneId, b: PaneId, bound: int)
    requires
        layout.ids_distinct(),
        layout.siblings(a, b),
    ensures
        layout.merged(a, b).ids_distinct(),
        layout.ratios_positive() ==> layout.merged(a, b).ratios_positive(),
        layout.ids_below(bound) ==> layout.merged(a, b).ids_below(bound),
    decreases layout,
{
    match layout {
        Layout::Leaf(_) => {},
        Layout::Split { first, second, .. } => {
            if leaf_pair(*first, *second, a, b) {
                assert((*first).has_leaf(a) || (*second).has_leaf(a));
                assert((*first).ids_below(bound) && (*second).ids_below(bound) ==> layout.merged(
                    a,
                    b,
                ).ids_below(bound));
            } else {
                lemma_siblings_on_one_side(*first, *second, a, b);
                let f = (*first).merged(a, b);
                let s = (*second).merged(a, b);
                if (*first).siblings(a, b) {
                    lemma_merged_keeps_shape(*first, a, b, bound);
                    lemma_merged_without_siblings(*second, a, b);
                    assert forall|other: PaneId| !(f.has_leaf(other) && s.has_leaf(other)) by {
                        lemma_merged_has_leaf(*first, a, b, other);
                        if f.has_leaf(other) {
                            assert((*first).has_leaf(other));
                        }
                    }
                } else {
                    lemma_merged_keeps_shape(*second, a, b, bound);
                    lemma_merged_without_siblings(*first, a, b);
                    assert forall|other: PaneId| !(f.has_leaf(other) && s.has_leaf(other)) by {
                        lemma_merged_has_leaf(*second, a, b, other);
                        if s.has_leaf(other) {
                            assert((*second).has_leaf(other));
                        }
                    }
                }
                assert(f.ids_distinct() && s.ids_distinct());
                assert(layout.ratios_positive() ==> f.ratios_positive() && s.ratios_positive());
                assert(layout.ids_below(bound) ==> f.ids_below(bound) && s.ids_below(bound));
            }
        },
    }
}

/// Splitting a leaf and at once merging it with the leaf that the split made
/// gives back the tree from before the split, whatever the direction and the
/// ratio.
pub proof fn lemma_split_then_merge(
    layout: Layout,
    id: PaneId,
    direction: Direction,
    ratio: (u32, u32),
    new_id: PaneId,
)
    requires
        layout.ids_distinct(),
        layout.has_leaf(id),
        !layout.has_leaf(new_id),
    ensures
        layout.split_leaf(id, direction, ratio, new_id).siblings(id, new_id),
        layout.split_leaf(id, direction, ratio, new_id).merged(id, new_id) == layout,
{
    let kept = Layout::Leaf(layout.leaf(id));
    let sub = Layout::Split {
        direction,
        ratio,
        first: Box::new(kept),
        second: Box::new(Layout::Leaf(Pane { id: new_id, view: layout.leaf(id).view })),
    };
    lemma_leaves_cover(layout);
    lemma_replace_then_merge(layout, id, new_id, sub, kept);
    lemma_replace_by_itself(layout, id);
}

/// The induction behind `lemma_split_then_merge`: `sub` is a split of the
/// leaf `kept`, named `id`, and a leaf named `new_id`.
proof fn lemma_replace_then_merge(
    layout: Layout,
    id: PaneId,
    new_id: PaneId,
    sub: Layout,
    kept: Layout,
)
    requires
        layout.has_leaf(id),
        !layout.has_leaf(new_id),
        id != new_id,
        ({
            &&& sub matches Layout::Split { first, second, .. }
            &&& *first == kept
            &&& kept matches Layout::Leaf(p)
            &&& p.id == id
            &&& *second matches Layout::Leaf(q)
            &&& q.id == new_id
        }),
    ensures
        layout.replace(id, sub).siblings(id, new_id),
        layout.replace(id, sub).merged(id, new_id) == layout.replace(id, kept),
    decreases layout,
{
    match layout {
        Layout::Leaf(_) => {
            assert(leaf_pair(*sub->first, *sub->second, id, new_id));
            assert((*sub->first).has_leaf(id));
        },
        Layout::Split { direction, ratio, first, second } => {
            let f = (*first).replace(id, sub);
            let s = (*second).replace(id, sub);
            assert(!(*first).has_leaf(new_id) && !(*second).has_leaf(new_id));
            if (*first).has_leaf(id) {
                lemma_replace_then_merge(*first, id, new_id, sub, kept);
            } else {
                lemma_replace_absent(*first, id, sub);
                lemma_replace_absent(*first, id, kept);
                if (*first).siblings(id, new_id) {
                    lemma_siblings_are_leaves(*first, id, new_id);
                }
                lemma_merged_without_siblings(*first, id, new_id);
            }
            if (*second).has_leaf(id) {
                lemma_replace_then_merge(*second, id, new_id, sub, kept);
            } else {
                lemma_replace_absent(*second, id, sub);
                lemma_replace_absent(*second, id, kept);
                if (*second).siblings(id, new_id) {
                    lemma_siblings_are_leaves(*second, id, new_id);
                }
                lemma_merged_without_siblings(*second, id, new_id);
            }
            assert(f.merged(id, new_id) == (*first).replace(id, kept));
            assert(s.merged(id, new_id) == (*second).replace(id, kept));
            assert(!leaf_pair(f, s, id, new_id)) by {
                if leaf_pair(f, s, id, new_id) {
                    assert(f.has_leaf(new_id) || s.has_leaf(new_id));
                    lemma_replace_by_split(*first, id, sub);
                    lemma_replace_by_split(*second, id, sub);
                    if (*first).has_leaf(id) {
                        assert(!(f is Leaf));
                    }
                    if (*second).has_leaf(id) {
                        assert(!(s is Leaf));
                    }
                }
            }
            assert(layout.replace(id, sub) == Layout::Split {
                direction,
                ratio,
                first: Box::new(f),
                second: Box::new(s),
            });
        },
    }
}

/// A replacement of the leaf `id` turns a tree that holds it into a split
/// unless `sub` is a leaf; a tree that does not hold it stays as it is.
proof fn lemma_replace_by_split(layout: Layout, id: PaneId, sub: Layout)
    requires
        sub is Split,
    ensures
        layout.has_leaf(id) ==> layout.replace(id, sub) is Split,
        !layout.has_leaf(id) ==> layout.replace(id, sub) == layout,
{
    if !layout.has_leaf(id) {
        lemma_replace_absent(layout, id, sub);
    }
}

/// A bound on the identifiers of a tree can be raised.
pub proof fn lemma_bound_can_rise(layout: Layout, bound: int, higher: int)
    requires
        layout.ids_below(bound),
        bound <= higher,
    ensures
        layout.ids_below(higher),
    decreases layout,
{
    match layout {
        Layout::Leaf(_) => {},
        Layout::Split { first, second, .. } => {
            lemma_bound_can_rise(*first, bound, higher);
            lemma_bound_can_rise(*second, bound, higher);
        },
    }
}

/// The first leaf that displays a view is a leaf of the tree, and with
/// distinct identifiers it is the leaf of that name and displays the view;
/// where there is none, no leaf displays the view.
pub proof fn lemma_first_showing(layout: Layout, view: PaneView)
    ensures
        match layout.first_showing(view) {
            Some(id) => layout.has_leaf(id) && (layout.ids_distinct() ==> layout.leaf(id) == Pane {
                id,
                view,
            }),
            None => forall|i: int|
                0 <= i < layout.leaves().len() ==> (#[trigger] layout.leaves()[i]).view != view,
        },
    decreases layout,
{
    match layout {
        Layout::Leaf(pane) => {
            assert(layout.leaves()[0] == pane);
        },
        Layout::Split { first, second, .. } => {
            lemma_first_showing(*first, view);
            lemma_first_showing(*second, view);
            let a = (*first).leaves();
            let b = (*second).leaves();
            let all = layout.leaves();
            match (*first).first_showing(view) {
                Some(id) => {},
                None => {
                    match (*second).first_showing(view) {
                        Some(id) => {
                            assert((*second).has_leaf(id));
                            if layout.ids_distinct() {
                                assert(!(*first).has_leaf(id));
                            }
                        },
                        None => {
                            assert forall|i: int| 0 <= i < all.len() implies (#[trigger] all[i]).view
                                != view by {
                                if i < a.len() {
                                    assert(all[i] == a[i]);
                                } else {
                                    assert(all[i] == b[i - a.len()]);
                                }
                            }
                        },
                    }
                },
            }
        },
    }
}

/// A split of two leaves with different identifiers and a positive ratio is
/// a well-formed tree whose leaves are those two.
pub proof fn lemma_pair_of_leaves(
    direction: Direction,
    ratio: (u32, u32),
    one: Pane,
    two: Pane,
    other: PaneId,
    bound: int,
)
    requires
        one.id != two.id,
    ensures
        ({
            let sub = Layout::Split {
                direction,
                ratio,
                first: Box::new(Layout::Leaf(one)),
                second: Box::new(Layout::Leaf(two)),
            };
            &&& sub.ids_distinct()
            &&& sub.has_leaf(other) <==> (other == one.id || other == two.id)
            &&& (ratio.0 > 0 && ratio.1 > 0 ==> sub.ratios_positive())
            &&& (one.id < bound && two.id < bound ==> sub.ids_below(bound))
        }),
{
    reveal_with_fuel(Layout::has_leaf, 2);
    reveal_with_fuel(Layout::ids_distinct, 2);
    reveal_with_fuel(Layout::ratios_positive, 2);
    reveal_with_fuel(Layout::ids_below, 2);
}

/// A split followed at once by a merge of the split leaf with the new one
/// restores the manager from before the split, apart from the identifier that
/// was used up: the same tree, the same focus, the same viewport.
pub proof fn lemma_split_then_merge_restores(
    manager: PaneModel,
    id: PaneId,
    direction: Direction,
    ratio: (u32, u32),
)
    requires
        manager.well_formed(),
        manager.layout.has_leaf(id),
        ratio.0 > 0,
        ratio.1 > 0,
        manager.next_id < usize::MAX,
    ensures
        manager.split(id, direction, ratio).well_formed(),
        manager.split(id, direction, ratio).merge_outcome(id, manager.next_id) is Ok,
        manager.split(id, direction, ratio).merge(id, manager.next_id) == (PaneModel {
            next_id: (manager.next_id + 1) as usize,
            ..manager
        }),
{
    let new_id = manager.next_id;
    lemma_split_leaves(manager, id, direction, ratio, id);
    lemma_split_leaves(manager, id, direction, ratio, new_id);
    lemma_split_then_merge(manager.layout, id, direction, ratio, new_id);
    lemma_siblings_are_leaves(
        manager.layout.split_leaf(id, direction, ratio, new_id),
        id,
        new_id,
    );
}

/// What a split does to the leaves: the split leaf stays as it was, the new
/// leaf has the next identifier and displays what the split leaf displays,
/// every other leaf stays as it was, and the manager stays well formed.
pub proof fn lemma_split_leaves(
    manager: PaneModel,
    id: PaneId,
    direction: Direction,
    ratio: (u32, u32),
    other: PaneId,
)
    requires
        manager.well_formed(),
        manager.layout.has_leaf(id),
        ratio.0 > 0,
        ratio.1 > 0,
        manager.next_id < usize::MAX,
    ensures
        manager.split(id, direction, ratio).well_formed(),
        !manager.layout.has_leaf(manager.next_id),
        manager.split(id, direction, ratio).layout.has_leaf(other) <==> (other == manager.next_id
            || manager.layout.has_leaf(other)),
        manager.layout.has_leaf(other) ==> manager.split(id, direction, ratio).layout.leaf(other)
            == manager.layout.leaf(other),
        manager.split(id, direction, ratio).layout.leaf(manager.next_id) == (Pane {
            id: manager.next_id,
            view: manager.layout.leaf(id).view,
        }),
{
    let t = manager.layout;
    let new_id = manager.next_id;
    let pane = t.leaf(id);
    let fresh = Pane { id: new_id, view: pane.view };
    let sub = Layout::Split {
        direction,
        ratio,
        first: Box::new(Layout::Leaf(pane)),
        second: Box::new(Layout::Leaf(fresh)),
    };
    lemma_leaf_below_bound(t, id, new_id as int);
    assert(!t.has_leaf(new_id)) by {
        if t.has_leaf(new_id) {
            lemma_leaf_below_bound(t, new_id, new_id as int);
        }
    }
    lemma_pair_of_leaves(direction, ratio, pane, fresh, other, new_id + 1);
    lemma_pair_of_leaves(direction, ratio, pane, fresh, id, new_id + 1);
    lemma_pair_of_leaves(direction, ratio, pane, fresh, new_id, new_id + 1);
    lemma_pair_of_leaves(direction, ratio, pane, fresh, manager.focused, new_id + 1);
    assert forall|x: PaneId| #[trigger] sub.has_leaf(x) && x != id implies !t.has_leaf(x) by {
        lemma_pair_of_leaves(direction, ratio, pane, fresh, x, new_id + 1);
    }
    lemma_replace_keeps_distinct(t, id, sub);
    lemma_replace_keeps_ratios(t, id, sub);
    lemma_bound_can_rise(t, new_id as int, new_id + 1);
    lemma_replace_keeps_bound(t, id, sub, new_id + 1);
    lemma_replace_has_leaf(t, id, sub, manager.focused);
    lemma_replace_has_leaf(t, id, sub, other);
    reveal_with_fuel(Layout::leaf, 2);
    reveal_with_fuel(Layout::has_leaf, 2);
    lemma_replace_finds_new_leaf(t, id, sub, new_id);
    if t.has_leaf(other) {
        if other == id {
            lemma_replace_finds_new_leaf(t, id, sub, id);
        } else {
            lemma_replace_keeps_leaf(t, id, sub, other);
        }
    }
}

/// Making the focused leaf display a view changes that leaf and no other,
/// and leaves a well-formed manager.
pub proof fn lemma_goto_leaves(manager: PaneModel, view: PaneView, other: PaneId)
    requires
        manager.well_formed(),
    ensures
        manager.goto(view).well_formed(),
        manager.goto(view).focused_pane() == (Pane { id: manager.focused, view }),
        manager.goto(view).layout.has_leaf(other) <==> manager.layout.has_leaf(other),
        other != manager.focused && manager.layout.has_leaf(other) ==> manager.goto(
            view,
        ).layout.leaf(other) == manager.layout.leaf(other),
{
    let t = manager.layout;
    let id = manager.focused;
    let sub = Layout::Leaf(Pane { id, view });
    lemma_replace_keeps_distinct(t, id, sub);
    lemma_replace_keeps_ratios(t, id, sub);
    lemma_leaf_below_bound(t, id, manager.next_id as int);
    lemma_replace_keeps_bound(t, id, sub, manager.next_id as int);
    lemma_replace_has_leaf(t, id, sub, id);
    lemma_replace_has_leaf(t, id, sub, other);
    lemma_replace_finds_new_leaf(t, id, sub, id);
    if other != id && t.has_leaf(other) {
        lemma_replace_keeps_leaf(t, id, sub, other);
    }
}

/// Bringing a view into focus leaves a well-formed manager whose focused
/// leaf displays that view.
pub proof fn lemma_goto_by_view_shows(manager: PaneModel, view: PaneView)
    requires
        manager.well_formed(),
    ensures
        manager.goto_by_view(view).well_formed(),
        manager.goto_by_view(view).focused_pane().view == view,
{
    lemma_first_showing(manager.layout, view);
    lemma_goto_leaves(manager, view, manager.focused);
}

/// A merge of two leaves that are not siblings is refused as an invalid
/// merge.
pub proof fn lemma_merge_of_strangers(manager: PaneModel, a: PaneId, b: PaneId)
    requires
        manager.layout.has_leaf(a),
        manager.layout.has_leaf(b),
        !manager.layout.siblings(a, b),
    ensures
        manager.merge_outcome(a, b) == Err::<(), LayoutError>(LayoutError::InvalidMerge),
{
}

/// What a merge that is carried out does to the leaves: the leaf `b` is
/// gone, every other leaf stays as it was, the focus is on a leaf, and the
/// manager stays well formed. No pane that displays the terminal is lost:
/// where `b` displayed it, so does `a`, which has taken its place.
pub proof fn lemma_merge_leaves(manager: PaneModel, a: PaneId, b: PaneId, other: PaneId)
    requires
        manager.well_formed(),
        manager.merge_outcome(a, b) is Ok,
    ensures
        manager.merge(a, b).well_formed(),
        a != b,
        manager.merge(a, b).layout.has_leaf(other) <==> (other != b && manager.layout.has_leaf(
            other,
        )),
        other != b && manager.layout.has_leaf(other) ==> manager.merge(a, b).layout.leaf(other)
            == manager.layout.leaf(other),
        manager.layout.leaf(b).view == PaneView::Terminal ==> manager.merge(a, b).layout.leaf(
            a,
        ).view == PaneView::Terminal,
{
    let t = manager.layout;
    lemma_siblings_are_leaves(t, a, b);
    lemma_merged_keeps_shape(t, a, b, manager.next_id as int);
    lemma_merged_has_leaf(t, a, b, other);
    lemma_merged_has_leaf(t, a, b, a);
    lemma_merged_has_leaf(t, a, b, manager.focused);
}

/// The last pane cannot be closed: with a single leaf that does not display
/// the terminal, a close is refused as unmergeable and changes nothing.
pub proof fn lemma_close_of_last_pane(manager: PaneModel)
    requires
        manager.well_formed(),
        manager.layout is Leaf,
        manager.focused_pane().view != PaneView::Terminal,
    ensures
        manager.close_outcome() == Err::<(), LayoutError>(LayoutError::Unmergeable),
        manager.close() == manager,
{
}

/// A pane that displays the terminal cannot be closed, however many panes
/// there are: the close is refused as an invalid operation and changes
/// nothing.
pub proof fn lemma_close_of_terminal(manager: PaneModel)
    requires
        manager.well_formed(),
        manager.focused_pane().view == PaneView::Terminal,
    ensures
        manager.close_outcome() == Err::<(), LayoutError>(LayoutError::InvalidOperation),
        manager.close() == manager,
{
}

/// A close leaves a well-formed manager with the focus where it was. One
/// that is carried out has merged the focused leaf with its sibling, which
/// did not display the terminal; every other leaf is as it was.
pub proof fn lemma_close_leaves(manager: PaneModel, other: PaneId)
    requires
        manager.well_formed(),
    ensures
        manager.close().well_formed(),
        manager.close().focused == manager.focused,
        manager.close_outcome() is Ok ==> {
            let partner = manager.merge_partner()->Some_0;
            &&& manager.layout.siblings(manager.focused, partner)
            &&& manager.layout.leaf(partner).view != PaneView::Terminal
            &&& manager.close().layout.has_leaf(other) <==> (other != partner
                && manager.layout.has_leaf(other))
            &&& (other != partner && manager.layout.has_leaf(other) ==> manager.close().layout.leaf(
                other,
            ) == manager.layout.leaf(other))
        },
        manager.close_outcome() is Err ==> manager.close() == manager,
{
    if manager.close_outcome() is Ok {
        let partner = manager.merge_partner()->Some_0;
        lemma_merge_leaves(manager, manager.focused, partner, other);
    }
}

} // verus!
