//! Panes: the leaves of the layout tree, and what a renderer sees of them.

use vstd::prelude::*;
use crate::error::LayoutError;
use crate::geometry::{Direction, Rect};
use crate::window::arena::{
    flatten_into,
    held,
    holds,
    lemma_holds_unique,
    lemma_merge_held,
    lemma_occupied_in_range,
    lemma_pair_slot,
    lemma_parent_link,
    lemma_replace_held,
    lemma_sibling_slots,
    locate,
    locate_view,
    occupies,
    spare,
    take_slot,
    with_pane,
    Node,
    NodeRef,
    Slot,
};
use crate::window::layout::{
    lemma_bound_can_rise,
    lemma_first_showing,
    lemma_flatten_lists_leaves,
    lemma_flatten_one_focused,
    lemma_flatten_tiles,
    lemma_goto_by_view_shows,
    lemma_goto_leaves,
    lemma_leaf_below_bound,
    lemma_leaves_cover,
    lemma_merged_has_leaf,
    lemma_merged_keeps_shape,
    lemma_pair_of_leaves,
    lemma_replace_has_leaf,
    lemma_replace_keeps_bound,
    lemma_replace_keeps_distinct,
    lemma_replace_keeps_ratios,
    lemma_siblings_are_leaves,
    one_focused,
    tiles,
    Layout,
    PaneModel,
};
use crate::window::navigation::{nearest, Heading};

verus! {

/// Identifier of a pane, unique within one pane manager.
pub type PaneId = usize;

/// The kind of content that a pane displays. The layout engine stores and
/// compares these tags and never looks at the content itself.
#[derive(Clone, Copy, Debug, PartialEq, Eq, Structural)]
pub enum PaneView {
    Terminal,
    Source,
    Trace,
    Opcode,
    Variable,
    Expression,
    Memory,
    Stack,
    CallData,
    Storage,
}

/// A leaf of the layout tree.
#[derive(Clone, Copy, Debug, PartialEq, Eq, Structural)]
pub struct Pane {
    pub id: PaneId,
    pub view: PaneView,
}

impl Pane {
    pub fn new(id: PaneId, view: PaneView) -> (pane: Pane)
        ensures
            pane == (Pane { id, view }),
    {
        Pane { id, view }
    }

    /// The content kind that the pane displays.
    pub fn get_current_view(&self) -> (view: PaneView)
        ensures
            view == self.view,
    {
        self.view
    }

    /// Makes the pane display `view`. Nothing else changes.
    pub fn set_view(&mut self, view: PaneView)
        ensures
            *final(self) == (Pane { id: old(self).id, view }),
    {
        self.view = view;
    }
}

/// One pane as a renderer sees it: where it is drawn, what it shows, and
/// whether it has the focus.
#[derive(Clone, Copy, Debug, PartialEq, Eq, Structural)]
pub struct PaneFlattened {
    pub view: PaneView,
    pub id: PaneId,
    pub focused: bool,
    pub rect: Rect,
}

/// The small-screen preset: one pane, which displays the terminal.
pub open spec fn small_screen() -> PaneModel {
    PaneModel {
        layout: Layout::Leaf(Pane { id: 0, view: PaneView::Terminal }),
        focused: 0,
        next_id: 1,
        viewport: Rect { x: 0, y: 0, width: 80, height: 24 },
    }
}

/// The large-screen preset: the source beside the trace in the upper three
/// quarters, and the terminal, which has the focus, below them.
pub open spec fn large_screen() -> PaneModel {
    PaneModel {
        layout: Layout::Split {
            direction: Direction::Vertical,
            ratio: (3, 1),
            first: Box::new(
                Layout::Split {
                    direction: Direction::Horizontal,
                    ratio: (1, 1),
                    first: Box::new(Layout::Leaf(Pane { id: 1, view: PaneView::Source })),
                    second: Box::new(Layout::Leaf(Pane { id: 2, view: PaneView::Trace })),
                },
            ),
            second: Box::new(Layout::Leaf(Pane { id: 0, view: PaneView::Terminal })),
        },
        focused: 0,
        next_id: 3,
        viewport: Rect { x: 0, y: 0, width: 160, height: 48 },
    }
}

/// A tree of panes with a focus. The nodes live in an arena; what the manager
/// means is its view, a `PaneModel`.
pub struct PaneManager {
    slots: Vec<Slot>,
    free: Vec<NodeRef>,
    root: NodeRef,
    focused: PaneId,
    next_id: PaneId,
    viewport: Rect,
}

impl View for PaneManager {
    type V = PaneModel;

    closed spec fn view(&self) -> PaneModel {
        PaneModel {
            layout: self.shape(),
            focused: self.focused,
            next_id: self.next_id,
            viewport: self.viewport,
        }
    }
}

impl PaneManager {
    /// The tree that the arena holds from the root down.
    pub closed spec fn shape(&self) -> Layout {
        held(self.slots@, self.root as int)
    }

    /// The arena holds a tree from the root down, and the slots on the free
    /// list are spare.
    pub closed spec fn represented(&self) -> bool {
        &&& holds(self.slots@, self.root as int, None, self.shape())
        &&& spare(self.slots@, self.root as int, self.shape(), self.free@)
    }

    /// The manager is in order: its arena holds a tree, and its view meets
    /// the invariants of a pane manager.
    pub open spec fn wf(&self) -> bool {
        self.represented() && self@.well_formed()
    }

    /// An arena that holds `t` from the root down has `t` as its shape.
    proof fn lemma_shape_is(&self, t: Layout)
        requires
            holds(self.slots@, self.root as int, None, t),
        ensures
            self.shape() == t,
            holds(self.slots@, self.root as int, None, self.shape()),
    {
        lemma_holds_unique(self.slots@, self.root as int, None, t, None, self.shape());
    }

    /// The small-screen preset.
    pub fn default_small_screen() -> (made: Result<PaneManager, LayoutError>)
        ensures
            made matches Ok(m) && m.wf() && m@ == small_screen(),
    {
        let mut slots: Vec<Slot> = Vec::new();
        slots.push(Slot { node: Node::Leaf(Pane { id: 0, view: PaneView::Terminal }), parent: None });
        let m = PaneManager {
            slots,
            free: Vec::new(),
            root: 0,
            focused: 0,
            next_id: 1,
            viewport: Rect { x: 0, y: 0, width: 80, height: 24 },
        };
        proof {
            m.lemma_shape_is(small_screen().layout);
        }
        Ok(m)
    }

    /// The large-screen preset.
    pub fn default_large_screen() -> (made: Result<PaneManager, LayoutError>)
        ensures
            made matches Ok(m) && m.wf() && m@ == large_screen(),
    {
        let mut slots: Vec<Slot> = Vec::new();
        slots.push(
            Slot {
                node: Node::Split {
                    direction: Direction::Vertical,
                    ratio: (3, 1),
                    first: 1,
                    second: 2,
                },
                parent: None,
            },
        );
        slots.push(
            Slot {
                node: Node::Split {
                    direction: Direction::Horizontal,
                    ratio: (1, 1),
                    first: 3,
                    second: 4,
                },
                parent: Some(0),
            },
        );
        slots.push(
            Slot { node: Node::Leaf(Pane { id: 0, view: PaneView::Terminal }), parent: Some(0) },
        );
        slots.push(Slot { node: Node::Leaf(Pane { id: 1, view: PaneView::Source }), parent: Some(1) });
        slots.push(Slot { node: Node::Leaf(Pane { id: 2, view: PaneView::Trace }), parent: Some(1) });
        let m = PaneManager {
            slots,
            free: Vec::new(),
            root: 0,
            focused: 0,
            next_id: 3,
            viewport: Rect { x: 0, y: 0, width: 160, height: 48 },
        };
        proof {
            let source = Pane { id: 1, view: PaneView::Source };
            let trace = Pane { id: 2, view: PaneView::Trace };
            let terminal = Layout::Leaf(Pane { id: 0, view: PaneView::Terminal });
            let upper = Layout::Split {
                direction: Direction::Horizontal,
                ratio: (1, 1),
                first: Box::new(Layout::Leaf(source)),
                second: Box::new(Layout::Leaf(trace)),
            };
            let t = Layout::Split {
                direction: Direction::Vertical,
                ratio: (3, 1),
                first: Box::new(upper),
                second: Box::new(terminal),
            };
            assert(t == large_screen().layout);
            assert(holds(m.slots@, 3, Some(1usize), Layout::Leaf(source)));
            assert(holds(m.slots@, 4, Some(1usize), Layout::Leaf(trace)));
            assert(holds(m.slots@, 1, Some(0usize), upper));
            assert(holds(m.slots@, 2, Some(0usize), terminal));
            assert(holds(m.slots@, 0, None, t));
            m.lemma_shape_is(t);
            lemma_pair_of_leaves(Direction::Horizontal, (1, 1), source, trace, 0, 3);
            assert forall|id: PaneId| !(#[trigger] upper.has_leaf(id) && terminal.has_leaf(id)) by {
                lemma_pair_of_leaves(Direction::Horizontal, (1, 1), source, trace, id, 3);
            }
            assert(terminal.ids_distinct());
            assert(t.ids_distinct());
            assert(terminal.ratios_positive());
            assert(t.ratios_positive());
            assert(terminal.ids_below(3));
            assert(t.ids_below(3));
            assert(terminal.has_leaf(0));
            assert(t.has_leaf(0));
        }
        Ok(m)
    }

    /// The identifier that the next new pane will get.
    pub fn next_pane_id(&self) -> (id: PaneId)
        ensures
            id == self@.next_id,
    {
        self.next_id
    }

    /// The viewport in which focus navigation measures the panes.
    pub fn viewport(&self) -> (area: Rect)
        ensures
            area == self@.viewport,
    {
        self.viewport
    }

    /// Records `area` as the viewport for focus navigation.
    pub fn set_viewport(&mut self, area: Rect)
        requires
            old(self).wf(),
            area.fits(),
        ensures
            final(self).wf(),
            final(self)@ == old(self)@.with_viewport(area),
    {
        self.viewport = area;
    }

    /// The focused pane.
    pub fn get_focused_pane(&self) -> (found: Result<&Pane, LayoutError>)
        requires
            self.wf(),
        ensures
            found matches Ok(pane) && *pane == self@.focused_pane() && pane.id == self@.focused,
    {
        let found = locate(&self.slots, self.root, self.focused, Ghost(None), Ghost(self.shape()));
        match found {
            Some(k) => {
                match &self.slots[k].node {
                    Node::Leaf(pane) => Ok(pane),
                    Node::Split { .. } => Err(LayoutError::NotFound),
                }
            },
            None => Err(LayoutError::NotFound),
        }
    }

    /// The focused pane, for changing what it displays. The manager stays in
    /// order as long as the pane keeps its identifier.
    pub fn get_focused_pane_mut(&mut self) -> (found: Result<&mut Pane, LayoutError>)
        requires
            old(self).wf(),
        ensures
            match found {
                Ok(pane) => {
                    &&& *pane == old(self)@.focused_pane()
                    &&& pane.id == old(self)@.focused
                    &&& final(self)@ == old(self)@.with_focused_pane(*final(pane))
                    &&& (final(pane).id == pane.id ==> final(self).wf())
                },
                Err(_) => false,
            },
    {
        let ghost t = self.shape();
        let ghost id = self.focused;
        let ghost before = self.slots@;
        let ghost bound = self.next_id as int;
        let ghost root = self.root as int;
        let ghost free = self.free@;
        let found = locate(&self.slots, self.root, self.focused, Ghost(None), Ghost(t));
        match found {
            Some(k) => {
                let slot = &mut self.slots[k];
                match &mut slot.node {
                    Node::Leaf(pane) => {
                        proof {
                            assert forall|now: Pane|
                                {
                                    let after = #[trigger] with_pane(before, k as int, now);
                                    let replaced = t.replace(id, Layout::Leaf(now));
                                    &&& held(after, root) == replaced
                                    &&& holds(after, root, None, replaced)
                                    &&& spare(after, root, replaced, free)
                                    &&& (now.id == id ==> {
                                        &&& replaced.ids_distinct()
                                        &&& replaced.ratios_positive()
                                        &&& replaced.ids_below(bound)
                                        &&& replaced.has_leaf(id)
                                    })
                                } by {
                                let after = with_pane(before, k as int, now);
                                let sub = Layout::Leaf(now);
                                assert(holds(after, k as int, before[k as int].parent, sub));
                                assert forall|j: int| #[trigger]
                                    occupies(before, root, t, j) && j != k implies after[j]
                                    == before[j] by {
                                    lemma_occupied_in_range(before, root, None, t, j);
                                }
                                lemma_replace_held(before, after, root, None, t, id, k as int, sub, 0);
                                assert forall|j: int| 0 <= j < free.len() implies (
                                #[trigger] free[j]) < after.len() && !occupies(
                                    after,
                                    root,
                                    t.replace(id, sub),
                                    free[j] as int,
                                ) by {
                                    lemma_replace_held(
                                        before,
                                        after,
                                        root,
                                        None,
                                        t,
                                        id,
                                        k as int,
                                        sub,
                                        free[j] as int,
                                    );
                                }
                                lemma_holds_unique(
                                    after,
                                    root,
                                    None,
                                    t.replace(id, sub),
                                    None,
                                    held(after, root),
                                );
                                if now.id == id {
                                    lemma_replace_keeps_distinct(t, id, sub);
                                    lemma_replace_keeps_ratios(t, id, sub);
                                    lemma_leaf_below_bound(t, id, bound);
                                    lemma_replace_keeps_bound(t, id, sub, bound);
                                    lemma_replace_has_leaf(t, id, sub, id);
                                }
                            }
                            assert(with_pane(before, k as int, *final(pane)).len() == before.len());
                        }
                        Ok(pane)
                    },
                    Node::Split { .. } => Err(LayoutError::NotFound),
                }
            },
            None => Err(LayoutError::NotFound),
        }
    }

    /// The view that the focused pane displays.
    pub fn get_focused_view(&self) -> (found: Result<PaneView, LayoutError>)
        requires
            self.wf(),
        ensures
            found == Ok::<PaneView, LayoutError>(self@.focused_pane().view),
    {
        match self.get_focused_pane() {
            Ok(pane) => Ok(pane.view),
            Err(e) => Err(e),
        }
    }

    /// Splits the leaf `id` along `direction`. The first child is the leaf
    /// itself; the second is a new leaf with the same view, whose identifier
    /// is returned. Fails when `id` names no leaf, and then changes nothing.
    pub fn split(&mut self, id: PaneId, direction: Direction, ratio: [u32; 2]) -> (made: Result<
        PaneId,
        LayoutError,
    >)
        requires
            old(self).wf(),
            ratio[0] > 0,
            ratio[1] > 0,
            old(self)@.next_id < usize::MAX,
        ensures
            final(self).wf(),
            match made {
                Ok(new_id) => {
                    &&& old(self)@.layout.has_leaf(id)
                    &&& new_id == old(self)@.next_id
                    &&& final(self)@ == old(self)@.split(id, direction, (ratio[0], ratio[1]))
                },
                Err(e) => {
                    &&& !old(self)@.layout.has_leaf(id)
                    &&& e == LayoutError::NotFound
                    &&& final(self)@ == old(self)@
                },
            },
    {
        let ghost t = self.shape();
        let found = locate(&self.slots, self.root, id, Ghost(None), Ghost(t));
        let k = match found {
            Some(k) => k,
            None => {
                return Err(LayoutError::NotFound);
            },
        };
        let slot = self.slots[k];
        let pane = match slot.node {
            Node::Leaf(pane) => pane,
            Node::Split { .. } => {
                return Err(LayoutError::NotFound);
            },
        };
        let new_id = self.next_id;
        let pair: (u32, u32) = (ratio[0], ratio[1]);
        let ghost before = self.slots@;
        let ghost free_before = self.free@;
        let first = take_slot(
            &mut self.slots,
            &mut self.free,
            Slot { node: Node::Leaf(pane), parent: Some(k) },
        );
        let ghost between = self.slots@;
        let second = take_slot(
            &mut self.slots,
            &mut self.free,
            Slot { node: Node::Leaf(Pane { id: new_id, view: pane.view }), parent: Some(k) },
        );
        proof {
            assert(!occupies(before, self.root as int, t, first as int)) by {
                if occupies(before, self.root as int, t, first as int) {
                    lemma_occupied_in_range(before, self.root as int, None, t, first as int);
                }
            }
            assert(!occupies(before, self.root as int, t, second as int)) by {
                if occupies(before, self.root as int, t, second as int) {
                    lemma_occupied_in_range(before, self.root as int, None, t, second as int);
                }
            }
            assert(first != second);
            assert(first != k && second != k);
        }
        self.slots.set(
            k,
            Slot { node: Node::Split { direction, ratio: pair, first, second }, parent: slot.parent },
        );
        self.next_id = new_id + 1;
        proof {
            let after = self.slots@;
            let kept = Layout::Leaf(pane);
            let fresh_pane = Pane { id: new_id, view: pane.view };
            let fresh = Layout::Leaf(fresh_pane);
            let sub = Layout::Split {
                direction,
                ratio: pair,
                first: Box::new(kept),
                second: Box::new(fresh),
            };
            let root = self.root as int;
            assert(after[first as int] == between[first as int]);
            assert(holds(after, first as int, Some(k), kept));
            assert(holds(after, second as int, Some(k), fresh));
            assert(holds(after, k as int, before[k as int].parent, sub));
            assert forall|j: int| #[trigger] occupies(before, root, t, j) && j != k implies after[j]
                == before[j] by {
                lemma_occupied_in_range(before, root, None, t, j);
            }
            lemma_replace_held(before, after, root, None, t, id, k as int, sub, 0);
            self.lemma_shape_is(t.replace(id, sub));
            assert forall|j: int| 0 <= j < self.free@.len() implies (#[trigger] self.free@[j])
                < after.len() && !occupies(after, root, t.replace(id, sub), self.free@[j] as int) by {
                let e = self.free@[j] as int;
                assert(self.free@[j] == free_before[j]);
                lemma_replace_held(before, after, root, None, t, id, k as int, sub, e);
                assert(occupies(after, first as int, kept, e) == (e == first));
                assert(occupies(after, second as int, fresh, e) == (e == second));
                assert(occupies(after, k as int, sub, e) ==> e == k || e == first || e == second);
                assert(occupies(before, root, t, k as int));
            }
            assert(spare(after, root, t.replace(id, sub), self.free@));
            lemma_leaf_below_bound(t, id, new_id as int);
            assert(!t.has_leaf(new_id)) by {
                if t.has_leaf(new_id) {
                    lemma_leaf_below_bound(t, new_id, new_id as int);
                }
            }
            lemma_pair_of_leaves(direction, pair, pane, fresh_pane, id, new_id + 1);
            assert forall|other: PaneId| #[trigger] sub.has_leaf(other) && other != id implies !t.has_leaf(
                other,
            ) by {
                lemma_pair_of_leaves(direction, pair, pane, fresh_pane, other, new_id + 1);
            }
            lemma_replace_keeps_distinct(t, id, sub);
            lemma_replace_keeps_ratios(t, id, sub);
            lemma_bound_can_rise(t, new_id as int, new_id + 1);
            lemma_replace_keeps_bound(t, id, sub, new_id + 1);
            lemma_replace_has_leaf(t, id, sub, old(self).focused);
            assert(sub.has_leaf(id));
        }
        Ok(new_id)
    }

    /// Merges the leaves `a` and `b`, which must be the two children of one
    /// split: the split gives way to the leaf `a`, and `b` is discarded. A
    /// focus on `b` moves to `a`. Fails, and then changes nothing, when either
    /// identifier names no leaf, when the two are not siblings, or when `b`
    /// displays the terminal and `a` does not: a pane that displays the
    /// terminal is never discarded in favour of one that does not.
    pub fn merge(&mut self, a: PaneId, b: PaneId) -> (done: Result<(), LayoutError>)
        requires
            old(self).wf(),
        ensures
            final(self).wf(),
            done == old(self)@.merge_outcome(a, b),
            final(self)@ == if done is Ok {
                old(self)@.merge(a, b)
            } else {
                old(self)@
            },
    {
        let ghost t = self.shape();
        let found_a = locate(&self.slots, self.root, a, Ghost(None), Ghost(t));
        let found_b = locate(&self.slots, self.root, b, Ghost(None), Ghost(t));
        let (ia, ib) = match (found_a, found_b) {
            (Some(ia), Some(ib)) => (ia, ib),
            _ => {
                return Err(LayoutError::NotFound);
            },
        };
        let kept = match self.slots[ia].node {
            Node::Leaf(pane) => pane,
            Node::Split { .. } => {
                return Err(LayoutError::NotFound);
            },
        };
        let discarded = match self.slots[ib].node {
            Node::Leaf(pane) => pane,
            Node::Split { .. } => {
                return Err(LayoutError::NotFound);
            },
        };
        proof {
            lemma_parent_link(self.slots@, self.root as int, None, t, ia as int);
            if t.siblings(a, b) {
                lemma_sibling_slots(self.slots@, self.root as int, None, t, a, b, ia as int);
            }
        }
        let p = match self.slots[ia].parent {
            Some(p) => p,
            None => {
                return Err(LayoutError::InvalidMerge);
            },
        };
        let above = self.slots[p];
        let (first, second) = match above.node {
            Node::Split { first, second, .. } => (first, second),
            Node::Leaf(_) => {
                return Err(LayoutError::InvalidMerge);
            },
        };
        let other = if first == ia {
            second
        } else {
            first
        };
        if other >= self.slots.len() {
            proof {
                if t.siblings(a, b) {
                    lemma_sibling_slots(self.slots@, self.root as int, None, t, a, b, ia as int);
                }
            }
            return Err(LayoutError::InvalidMerge);
        }
        let paired: bool = match self.slots[other].node {
            Node::Leaf(pane) => pane.id == b && other != ia,
            Node::Split { .. } => false,
        };
        if !paired {
            return Err(LayoutError::InvalidMerge);
        }
        let ghost before = self.slots@;
        proof {
            lemma_occupied_in_range(before, self.root as int, None, t, p as int);
            lemma_pair_slot(before, self.root as int, None, t, p as int);
            let x = before[before[p as int].node->first as int].node->Leaf_0.id;
            let y = before[before[p as int].node->second as int].node->Leaf_0.id;
            lemma_siblings_are_leaves(t, x, y);
            assert(t.siblings(a, b));
        }
        if discarded.view == PaneView::Terminal && kept.view != PaneView::Terminal {
            return Err(LayoutError::InvalidOperation);
        }
        let ghost free_before = self.free@;
        proof {
            lemma_sibling_slots(before, self.root as int, None, t, a, b, ia as int);
        }
        self.slots.set(p, Slot { node: Node::Leaf(kept), parent: above.parent });
        self.free.push(first);
        self.free.push(second);
        if self.focused == b {
            self.focused = a;
        }
        proof {
            let root = self.root as int;
            let after = self.slots@;
            lemma_merge_held(before, after, root, None, t, a, b, p as int, kept, 0);
            self.lemma_shape_is(t.merged(a, b));
            assert forall|j: int| 0 <= j < self.free@.len() implies (#[trigger] self.free@[j])
                < after.len() && !occupies(after, root, t.merged(a, b), self.free@[j] as int) by {
                let e = self.free@[j] as int;
                lemma_merge_held(before, after, root, None, t, a, b, p as int, kept, e);
                if j < free_before.len() {
                    assert(self.free@[j] == free_before[j]);
                }
            }
            assert forall|j1: int, j2: int| 0 <= j1 < j2 < self.free@.len() implies (
            #[trigger] self.free@[j1]) != (#[trigger] self.free@[j2]) by {
                if j1 < free_before.len() {
                    assert(self.free@[j1] == free_before[j1]);
                }
                if j2 < free_before.len() {
                    assert(self.free@[j2] == free_before[j2]);
                }
            }
            assert(spare(after, root, t.merged(a, b), self.free@));
            lemma_siblings_are_leaves(t, a, b);
            lemma_merged_keeps_shape(t, a, b, self.next_id as int);
            lemma_merged_has_leaf(t, a, b, self.focused);
        }
        Ok(())
    }

    /// Moves the focus to the leaf `id`. Fails, and then changes nothing,
    /// when `id` names no leaf.
    pub fn focus_on(&mut self, id: PaneId) -> (done: Result<(), LayoutError>)
        requires
            old(self).wf(),
        ensures
            final(self).wf(),
            match done {
                Ok(_) => old(self)@.layout.has_leaf(id) && final(self)@ == old(self)@.focus_on(id),
                Err(e) => {
                    &&& !old(self)@.layout.has_leaf(id)
                    &&& e == LayoutError::NotFound
                    &&& final(self)@ == old(self)@
                },
            },
    {
        match locate(&self.slots, self.root, id, Ghost(None), Ghost(self.shape())) {
            Some(_) => {
                self.focused = id;
                Ok(())
            },
            None => Err(LayoutError::NotFound),
        }
    }

    /// Makes the focused pane display `view`.
    pub fn force_goto(&mut self, view: PaneView) -> (done: Result<(), LayoutError>)
        requires
            old(self).wf(),
        ensures
            done is Ok,
            final(self).wf(),
            final(self)@ == old(self)@.goto(view),
            final(self)@.focused_pane() == (Pane { id: old(self)@.focused, view }),
    {
        proof {
            lemma_goto_leaves(self@, view, self.focused);
        }
        let ghost t = self.shape();
        let id = self.focused;
        let found = locate(&self.slots, self.root, id, Ghost(None), Ghost(t));
        let k = match found {
            Some(k) => k,
            None => {
                return Err(LayoutError::NotFound);
            },
        };
        let ghost before = self.slots@;
        let parent = self.slots[k].parent;
        self.slots.set(k, Slot { node: Node::Leaf(Pane { id, view }), parent });
        proof {
            let sub = Layout::Leaf(Pane { id, view });
            let root = self.root as int;
            let after = self.slots@;
            assert(holds(after, k as int, before[k as int].parent, sub));
            assert forall|j: int| #[trigger] occupies(before, root, t, j) && j != k implies after[j]
                == before[j] by {
                lemma_occupied_in_range(before, root, None, t, j);
            }
            lemma_replace_held(before, after, root, None, t, id, k as int, sub, 0);
            self.lemma_shape_is(t.replace(id, sub));
            assert forall|j: int| 0 <= j < self.free@.len() implies (#[trigger] self.free@[j])
                < after.len() && !occupies(after, root, t.replace(id, sub), self.free@[j] as int) by {
                lemma_replace_held(before, after, root, None, t, id, k as int, sub, self.free@[j] as int);
            }
            assert(spare(after, root, t.replace(id, sub), self.free@));
            lemma_replace_keeps_distinct(t, id, sub);
            lemma_replace_keeps_ratios(t, id, sub);
            lemma_leaf_below_bound(t, id, self.next_id as int);
            lemma_replace_keeps_bound(t, id, sub, self.next_id as int);
            lemma_replace_has_leaf(t, id, sub, id);
        }
        Ok(())
    }

    /// Brings `view` into focus: moves the focus to the first pane, in
    /// traversal order, that displays `view`; where none does, makes the
    /// focused pane display it.
    pub fn force_goto_by_view(&mut self, view: PaneView) -> (done: Result<(), LayoutError>)
        requires
            old(self).wf(),
        ensures
            done is Ok,
            final(self).wf(),
            final(self)@ == old(self)@.goto_by_view(view),
            final(self)@.focused_pane().view == view,
    {
        let ghost t = self.shape();
        proof {
            lemma_first_showing(t, view);
            lemma_goto_by_view_shows(self@, view);
        }
        match locate_view(&self.slots, self.root, view, Ghost(None), Ghost(t)) {
            Some(id) => {
                self.focused = id;
                Ok(())
            },
            None => self.force_goto(view),
        }
    }

    /// The rectangles to draw the panes in when the layout fills `area`, in
    /// traversal order. They tile `area`, and exactly one of them is marked as
    /// focused.
    pub fn get_flattened_layout(&self, area: Rect) -> (flat: Result<Vec<PaneFlattened>, LayoutError>)
        requires
            self.wf(),
            area.fits(),
        ensures
            flat matches Ok(entries) && entries@ == self@.flattened(area) && tiles(entries@, area)
                && one_focused(entries@),
    {
        let mut out: Vec<PaneFlattened> = Vec::new();
        flatten_into(
            &self.slots,
            self.root,
            area,
            self.focused,
            &mut out,
            Ghost(None),
            Ghost(self.shape()),
        );
        proof {
            assert(out@ =~= self.shape().flatten(area, self.focused));
            lemma_flatten_tiles(self.shape(), area, self.focused);
            lemma_flatten_one_focused(self.shape(), area, self.focused);
        }
        Ok(out)
    }

    /// Moves the focus to the nearest pane in the direction `heading`, and
    /// leaves it where it is when no pane lies in that direction.
    pub fn steer(&mut self, heading: Heading) -> (done: Result<(), LayoutError>)
        requires
            old(self).wf(),
        ensures
            done is Ok,
            final(self).wf(),
            final(self)@ == old(self)@.steer(heading),
    {
        let entries = match self.get_flattened_layout(self.viewport) {
            Ok(entries) => entries,
            Err(e) => {
                return Err(e);
            },
        };
        let mut at: usize = 0;
        let mut i: usize = 0;
        while i < entries.len()
            invariant
                0 <= i <= entries.len(),
                one_focused(entries@),
                forall|j: int| 0 <= j < i && (#[trigger] entries@[j]).focused ==> j == at,
            decreases entries.len() - i,
        {
            if entries[i].focused {
                proof {
                    let e = entries@;
                    let f = choose|f: int|
                        {
                            &&& 0 <= f < e.len()
                            &&& (#[trigger] e[f]).focused
                            &&& forall|j: int| 0 <= j < e.len() && (#[trigger] e[j]).focused ==> j == f
                        };
                    assert(e[i as int].focused);
                }
                at = i;
            }
            i = i + 1;
        }
        proof {
            let e = entries@;
            let u = choose|u: int|
                {
                    &&& 0 <= u < e.len()
                    &&& (#[trigger] e[u]).focused
                    &&& forall|j: int| 0 <= j < e.len() && (#[trigger] e[j]).focused ==> j == u
                };
            assert(e[u].focused);
            assert(u == at);
            let f = choose|f: int| 0 <= f < e.len() && (#[trigger] e[f]).focused;
            assert(e[f].focused);
            assert(f == at);
            assert(self@.entries() == e);
            assert(self@.focused_entry() == e[at as int]);
        }
        let from = entries[at].rect;
        match nearest(&entries, &from, heading) {
            Some(k) => {
                proof {
                    lemma_flatten_lists_leaves(self.shape(), self.viewport, self.focused);
                    lemma_leaves_cover(self.shape());
                    assert(self.shape().has_leaf(self.shape().leaves()[k as int].id));
                }
                self.focused = entries[k].id;
            },
            None => {},
        }
        Ok(())
    }

    /// Moves the focus to the nearest pane above.
    pub fn focus_up(&mut self) -> (done: Result<(), LayoutError>)
        requires
            old(self).wf(),
        ensures
            done is Ok,
            final(self).wf(),
            final(self)@ == old(self)@.steer(Heading::Up),
    {
        self.steer(Heading::Up)
    }

    /// Moves the focus to the nearest pane below.
    pub fn focus_down(&mut self) -> (done: Result<(), LayoutError>)
        requires
            old(self).wf(),
        ensures
            done is Ok,
            final(self).wf(),
            final(self)@ == old(self)@.steer(Heading::Down),
    {
        self.steer(Heading::Down)
    }

    /// Moves the focus to the nearest pane on the left.
    pub fn focus_left(&mut self) -> (done: Result<(), LayoutError>)
        requires
            old(self).wf(),
        ensures
            done is Ok,
            final(self).wf(),
            final(self)@ == old(self)@.steer(Heading::Left),
    {
        self.steer(Heading::Left)
    }

    /// Moves the focus to the nearest pane on the right.
    pub fn focus_right(&mut self) -> (done: Result<(), LayoutError>)
        requires
            old(self).wf(),
        ensures
            done is Ok,
            final(self).wf(),
            final(self)@ == old(self)@.steer(Heading::Right),
    {
        self.steer(Heading::Right)
    }
}

} // verus!
