//! The arena that holds the nodes of a layout tree. Nodes are addressed by
//! their index; each stores the index of its parent, and a split those of its
//! two children. Slots that a merge has emptied are kept on a list and used
//! again by the next split. This module says when an arena holds a given
//! tree, proves how an update of single slots changes the tree that is held,
//! and walks the arena.

use vstd::prelude::*;
use crate::geometry::{first_part, second_part, split_area, Direction, Rect};
use crate::window::layout::{
    leaf_pair,
    lemma_merged_without_siblings,
    lemma_replace_absent,
    lemma_siblings_are_leaves,
    Layout,
};
use crate::window::pane::{Pane, PaneFlattened, PaneId, PaneView};

verus! {

/// Index of a slot in the arena.
pub type NodeRef = usize;

/// A node of the tree as the arena stores it.
#[derive(Clone, Copy, Debug)]
pub enum Node {
    Leaf(Pane),
    Split { direction: Direction, ratio: (u32, u32), first: NodeRef, second: NodeRef },
}

/// One slot of the arena: a node and the index of its parent. The root has no
/// parent.
#[derive(Clone, Copy, Debug)]
pub struct Slot {
    pub node: Node,
    pub parent: Option<NodeRef>,
}

/// The slot `at` and the slots reachable from it hold the tree `t`, and the
/// slot `at` names `parent` as its parent.
pub open spec fn holds(slots: Seq<Slot>, at: int, parent: Option<NodeRef>, t: Layout) -> bool
    decreases t,
{
    &&& 0 <= at < slots.len()
    &&& slots[at].parent == parent
    &&& match t {
        Layout::Leaf(pane) => slots[at].node == Node::Leaf(pane),
        Layout::Split { direction, ratio, first, second } => {
            &&& slots[at].node matches Node::Split { direction: d, ratio: r, first: f, second: s }
            &&& d == direction
            &&& r == ratio
            &&& holds(slots, f as int, Some(at as usize), *first)
            &&& holds(slots, s as int, Some(at as usize), *second)
        },
    }
}

/// The slot `i` is one of those that hold the tree `t` from the slot `at`
/// down.
pub open spec fn occupies(slots: Seq<Slot>, at: int, t: Layout, i: int) -> bool
    decreases t,
{
    at == i || match t {
        Layout::Leaf(_) => false,
        Layout::Split { first, second, .. } => match slots[at].node {
            Node::Split { first: f, second: s, .. } => occupies(slots, f as int, *first, i)
                || occupies(slots, s as int, *second, i),
            Node::Leaf(_) => false,
        },
    }
}

/// The tree that the arena holds from the slot `root` down.
pub open spec fn held(slots: Seq<Slot>, root: int) -> Layout {
    choose|t: Layout| holds(slots, root, None, t)
}

/// The arena in which the slot `k` is a leaf slot for `pane`, with the parent
/// it had.
pub open spec fn with_pane(slots: Seq<Slot>, k: int, pane: Pane) -> Seq<Slot> {
    slots.update(k, Slot { node: Node::Leaf(pane), parent: slots[k].parent })
}

/// A slot that holds part of a tree lies within the arena.
pub proof fn lemma_occupied_in_range(
    slots: Seq<Slot>,
    at: int,
    parent: Option<NodeRef>,
    t: Layout,
    i: int,
)
    requires
        holds(slots, at, parent, t),
        occupies(slots, at, t, i),
    ensures
        0 <= i < slots.len(),
    decreases t,
{
    if at != i {
        match t {
            Layout::Leaf(_) => {},
            Layout::Split { first, second, .. } => {
                let f = slots[at].node->first as int;
                let s = slots[at].node->second as int;
                if occupies(slots, f, *first, i) {
                    lemma_occupied_in_range(slots, f, Some(at as usize), *first, i);
                } else {
                    lemma_occupied_in_range(slots, s, Some(at as usize), *second, i);
                }
            },
        }
    }
}

/// The slots listed in `free` are spare: each lies within the arena, none
/// holds part of the tree `t`, and none is listed twice.
pub open spec fn spare(slots: Seq<Slot>, root: int, t: Layout, free: Seq<NodeRef>) -> bool {
    &&& forall|j: int|
        0 <= j < free.len() ==> (#[trigger] free[j]) < slots.len() && !occupies(
            slots,
            root,
            t,
            free[j] as int,
        )
    &&& forall|j1: int, j2: int|
        0 <= j1 < j2 < free.len() ==> (#[trigger] free[j1]) != (#[trigger] free[j2])
}

/// An arena that agrees with `slots` on every slot that holds part of the
/// tree holds the same tree, in the same slots.
pub proof fn lemma_frame(
    slots: Seq<Slot>,
    after: Seq<Slot>,
    at: int,
    parent: Option<NodeRef>,
    t: Layout,
    i: int,
)
    requires
        holds(slots, at, parent, t),
        after.len() >= slots.len(),
        forall|j: int| #[trigger] occupies(slots, at, t, j) ==> after[j] == slots[j],
    ensures
        holds(after, at, parent, t),
        occupies(after, at, t, i) == occupies(slots, at, t, i),
    decreases t,
{
    assert(occupies(slots, at, t, at));
    match t {
        Layout::Leaf(_) => {},
        Layout::Split { first, second, .. } => {
            let f = slots[at].node->first as int;
            let s = slots[at].node->second as int;
            assert forall|j: int| #[trigger] occupies(slots, f, *first, j) implies after[j]
                == slots[j] by {
                assert(occupies(slots, at, t, j));
            }
            assert forall|j: int| #[trigger] occupies(slots, s, *second, j) implies after[j]
                == slots[j] by {
                assert(occupies(slots, at, t, j));
            }
            lemma_frame(slots, after, f, Some(at as usize), *first, i);
            lemma_frame(slots, after, s, Some(at as usize), *second, i);
        },
    }
}

/// A slot holds at most one tree.
pub proof fn lemma_holds_unique(
    slots: Seq<Slot>,
    at: int,
    p1: Option<NodeRef>,
    t1: Layout,
    p2: Option<NodeRef>,
    t2: Layout,
)
    requires
        holds(slots, at, p1, t1),
        holds(slots, at, p2, t2),
    ensures
        t1 == t2,
    decreases t1,
{
    match t1 {
        Layout::Leaf(_) => {},
        Layout::Split { first, second, .. } => {
            let f = slots[at].node->first as int;
            let s = slots[at].node->second as int;
            match t2 {
                Layout::Leaf(_) => {},
                Layout::Split { first: first2, second: second2, .. } => {
                    lemma_holds_unique(
                        slots,
                        f,
                        Some(at as usize),
                        *first,
                        Some(at as usize),
                        *first2,
                    );
                    lemma_holds_unique(
                        slots,
                        s,
                        Some(at as usize),
                        *second,
                        Some(at as usize),
                        *second2,
                    );
                },
            }
        },
    }
}

/// A leaf slot that holds part of a tree is a leaf of that tree.
pub proof fn lemma_leaf_slot(
    slots: Seq<Slot>,
    at: int,
    parent: Option<NodeRef>,
    t: Layout,
    i: int,
)
    requires
        holds(slots, at, parent, t),
        occupies(slots, at, t, i),
        slots[i].node is Leaf,
    ensures
        t.has_leaf(slots[i].node->Leaf_0.id),
    decreases t,
{
    match t {
        Layout::Leaf(_) => {},
        Layout::Split { first, second, .. } => {
            let f = slots[at].node->first as int;
            let s = slots[at].node->second as int;
            if occupies(slots, f, *first, i) {
                lemma_leaf_slot(slots, f, Some(at as usize), *first, i);
            } else {
                lemma_leaf_slot(slots, s, Some(at as usize), *second, i);
            }
        },
    }
}

/// A split slot that holds part of a tree and has two leaf slots as children
/// marks a pair of siblings of that tree.
pub proof fn lemma_pair_slot(
    slots: Seq<Slot>,
    at: int,
    parent: Option<NodeRef>,
    t: Layout,
    p: int,
)
    requires
        holds(slots, at, parent, t),
        occupies(slots, at, t, p),
        slots[p].node is Split,
        0 <= slots[p].node->first < slots.len(),
        0 <= slots[p].node->second < slots.len(),
        slots[slots[p].node->first as int].node is Leaf,
        slots[slots[p].node->second as int].node is Leaf,
    ensures
        t.siblings(
            slots[slots[p].node->first as int].node->Leaf_0.id,
            slots[slots[p].node->second as int].node->Leaf_0.id,
        ),
    decreases t,
{
    match t {
        Layout::Leaf(_) => {},
        Layout::Split { first, second, .. } => {
            let f = slots[at].node->first as int;
            let s = slots[at].node->second as int;
            if at == p {
                assert(holds(slots, f, Some(at as usize), *first));
                assert(holds(slots, s, Some(at as usize), *second));
                assert(*first is Leaf);
                assert(*second is Leaf);
            } else if occupies(slots, f, *first, p) {
                lemma_pair_slot(slots, f, Some(at as usize), *first, p);
            } else {
                lemma_pair_slot(slots, s, Some(at as usize), *second, p);
            }
        },
    }
}

/// Below the root of a held tree every slot names as its parent a split slot
/// of the tree that has it as a child.
pub proof fn lemma_parent_link(
    slots: Seq<Slot>,
    at: int,
    parent: Option<NodeRef>,
    t: Layout,
    k: int,
)
    requires
        holds(slots, at, parent, t),
        occupies(slots, at, t, k),
        at <= usize::MAX,
    ensures
        k == at || ({
            &&& slots[k].parent matches Some(p)
            &&& occupies(slots, at, t, p as int)
            &&& p != k
            &&& 0 <= p < slots.len()
            &&& slots[p as int].node matches Node::Split { first: f, second: s, .. }
            &&& (f == k || s == k)
        }),
    decreases t,
{
    if k != at {
        match t {
            Layout::Leaf(_) => {},
            Layout::Split { first, second, .. } => {
                let f = slots[at].node->first as int;
                let s = slots[at].node->second as int;
                assert(holds(slots, f, Some(at as usize), *first));
                assert(holds(slots, s, Some(at as usize), *second));
                assert(occupies(slots, at, t, at));
                if occupies(slots, f, *first, k) {
                    lemma_parent_link(slots, f, Some(at as usize), *first, k);
                    if k != f {
                        let p = slots[k].parent->Some_0;
                        assert(occupies(slots, f, *first, p as int));
                    }
                } else {
                    lemma_parent_link(slots, s, Some(at as usize), *second, k);
                    if k != s {
                        let p = slots[k].parent->Some_0;
                        assert(occupies(slots, s, *second, p as int));
                    }
                }
            },
        }
    }
}

/// In a held tree with distinct identifiers, the slot of a leaf that has a
/// sibling names the split above the two as its parent, and the other child
/// of that split is the slot of the sibling.
pub proof fn lemma_sibling_slots(
    slots: Seq<Slot>,
    at: int,
    parent: Option<NodeRef>,
    t: Layout,
    a: PaneId,
    b: PaneId,
    k: int,
)
    requires
        holds(slots, at, parent, t),
        t.ids_distinct(),
        t.siblings(a, b),
        occupies(slots, at, t, k),
        slots[k].node matches Node::Leaf(pane) && pane.id == a,
        at <= usize::MAX,
    ensures
        ({
            &&& slots[k].parent matches Some(p)
            &&& 0 <= p < slots.len()
            &&& occupies(slots, at, t, p as int)
            &&& slots[p as int].node matches Node::Split { first: f, second: s, .. }
            &&& 0 <= f < slots.len()
            &&& 0 <= s < slots.len()
            &&& f != s
            &&& (f == k || s == k)
            &&& occupies(slots, at, t, f as int)
            &&& occupies(slots, at, t, s as int)
            &&& slots[if f == k { s as int } else { f as int }].node matches Node::Leaf(other)
            &&& other.id == b
        }),
    decreases t,
{
    lemma_siblings_are_leaves(t, a, b);
    match t {
        Layout::Leaf(_) => {},
        Layout::Split { first, second, .. } => {
            let f = slots[at].node->first as int;
            let s = slots[at].node->second as int;
            assert(holds(slots, f, Some(at as usize), *first));
            assert(holds(slots, s, Some(at as usize), *second));
            assert(occupies(slots, at, t, at));
            if leaf_pair(*first, *second, a, b) {
                assert((*first).has_leaf(first->Leaf_0.id));
                assert((*second).has_leaf(second->Leaf_0.id));
                assert(occupies(slots, f, *first, k) ==> k == f);
                assert(occupies(slots, s, *second, k) ==> k == s);
                assert(occupies(slots, f, *first, f));
                assert(occupies(slots, s, *second, s));
                assert(f != s);
            } else if (*first).siblings(a, b) {
                lemma_siblings_are_leaves(*first, a, b);
                if occupies(slots, s, *second, k) {
                    lemma_leaf_slot(slots, s, Some(at as usize), *second, k);
                }
                assert(occupies(slots, f, *first, k));
                lemma_sibling_slots(slots, f, Some(at as usize), *first, a, b, k);
                let p = slots[k].parent->Some_0;
                assert(occupies(slots, f, *first, p as int));
                assert(occupies(slots, f, *first, slots[p as int].node->first as int));
                assert(occupies(slots, f, *first, slots[p as int].node->second as int));
            } else {
                lemma_siblings_are_leaves(*second, a, b);
                if occupies(slots, f, *first, k) {
                    lemma_leaf_slot(slots, f, Some(at as usize), *first, k);
                }
                assert(occupies(slots, s, *second, k));
                lemma_sibling_slots(slots, s, Some(at as usize), *second, a, b, k);
                let p = slots[k].parent->Some_0;
                assert(occupies(slots, s, *second, p as int));
                assert(occupies(slots, s, *second, slots[p as int].node->first as int));
                assert(occupies(slots, s, *second, slots[p as int].node->second as int));
            }
        },
    }
}

/// Putting a subtree in place of a leaf: when the slot `k` of the leaf `id`
/// is made the root of slots that hold `sub`, and no other slot of the tree
/// changes, the arena holds the tree with `sub` in place of that leaf. A slot
/// `i` that holds part of the new tree held part of the old one or holds
/// part of `sub`.
pub proof fn lemma_replace_held(
    slots: Seq<Slot>,
    after: Seq<Slot>,
    at: int,
    parent: Option<NodeRef>,
    t: Layout,
    id: PaneId,
    k: int,
    sub: Layout,
    i: int,
)
    requires
        holds(slots, at, parent, t),
        t.ids_distinct(),
        occupies(slots, at, t, k),
        slots[k].node matches Node::Leaf(pane) && pane.id == id,
        after.len() >= slots.len(),
        forall|j: int| #[trigger] occupies(slots, at, t, j) && j != k ==> after[j] == slots[j],
        holds(after, k, slots[k].parent, sub),
    ensures
        holds(after, at, parent, t.replace(id, sub)),
        occupies(after, at, t.replace(id, sub), i) ==> occupies(slots, at, t, i) || occupies(
            after,
            k,
            sub,
            i,
        ),
    decreases t,
{
    lemma_leaf_slot(slots, at, parent, t, k);
    assert(occupies(slots, at, t, at));
    match t {
        Layout::Leaf(_) => {},
        Layout::Split { direction, ratio, first, second } => {
            let f = slots[at].node->first as int;
            let s = slots[at].node->second as int;
            assert(holds(slots, f, Some(at as usize), *first));
            assert(holds(slots, s, Some(at as usize), *second));
            assert(at != k);
            assert(after[at] == slots[at]);
            if occupies(slots, f, *first, k) {
                lemma_leaf_slot(slots, f, Some(at as usize), *first, k);
                assert(!(*second).has_leaf(id));
                assert forall|j: int| #[trigger] occupies(slots, f, *first, j) && j != k implies after[j]
                    == slots[j] by {
                    assert(occupies(slots, at, t, j));
                }
                lemma_replace_held(slots, after, f, Some(at as usize), *first, id, k, sub, i);
                assert forall|j: int| #[trigger] occupies(slots, s, *second, j) implies after[j]
                    == slots[j] by {
                    assert(occupies(slots, at, t, j));
                    if j == k {
                        lemma_leaf_slot(slots, s, Some(at as usize), *second, k);
                    }
                }
                lemma_frame(slots, after, s, Some(at as usize), *second, i);
                lemma_replace_absent(*second, id, sub);
            } else {
                assert(occupies(slots, s, *second, k));
                lemma_leaf_slot(slots, s, Some(at as usize), *second, k);
                assert(!(*first).has_leaf(id));
                assert forall|j: int| #[trigger] occupies(slots, s, *second, j) && j != k implies after[j]
                    == slots[j] by {
                    assert(occupies(slots, at, t, j));
                }
                lemma_replace_held(slots, after, s, Some(at as usize), *second, id, k, sub, i);
                assert forall|j: int| #[trigger] occupies(slots, f, *first, j) implies after[j]
                    == slots[j] by {
                    assert(occupies(slots, at, t, j));
                    if j == k {
                        lemma_leaf_slot(slots, f, Some(at as usize), *first, k);
                    }
                }
                lemma_frame(slots, after, f, Some(at as usize), *first, i);
                lemma_replace_absent(*first, id, sub);
            }
            assert(holds(after, f, Some(at as usize), (*first).replace(id, sub)));
            assert(holds(after, s, Some(at as usize), (*second).replace(id, sub)));
            assert(t.replace(id, sub) == Layout::Split {
                direction,
                ratio,
                first: Box::new((*first).replace(id, sub)),
                second: Box::new((*second).replace(id, sub)),
            });
            assert(occupies(after, at, t.replace(id, sub), i) == (at == i || occupies(
                after,
                f,
                (*first).replace(id, sub),
                i,
            ) || occupies(after, s, (*second).replace(id, sub), i)));
            assert(occupies(slots, at, t, i) == (at == i || occupies(slots, f, *first, i)
                || occupies(slots, s, *second, i)));
        },
    }
}

/// Merging two siblings: when the slot `p` of the split above the leaves `a`
/// and `b` is made a leaf slot for the pane `a`, and no other slot changes,
/// the arena holds the merged tree. A slot `i` that holds part of the merged
/// tree held part of the tree before, and is neither of the two slots that
/// held `a` and `b`.
pub proof fn lemma_merge_held(
    slots: Seq<Slot>,
    after: Seq<Slot>,
    at: int,
    parent: Option<NodeRef>,
    t: Layout,
    a: PaneId,
    b: PaneId,
    p: int,
    kept: Pane,
    i: int,
)
    requires
        holds(slots, at, parent, t),
        t.ids_distinct(),
        t.siblings(a, b),
        occupies(slots, at, t, p),
        slots[p].node is Split,
        0 <= slots[p].node->first < slots.len(),
        0 <= slots[p].node->second < slots.len(),
        ({
            let x = slots[slots[p].node->first as int].node;
            let y = slots[slots[p].node->second as int].node;
            &&& x matches Node::Leaf(px)
            &&& y matches Node::Leaf(py)
            &&& ((px == kept && px.id == a && py.id == b) || (py == kept && py.id == a && px.id
                == b))
        }),
        after == slots.update(p, Slot { node: Node::Leaf(kept), parent: slots[p].parent }),
    ensures
        holds(after, at, parent, t.merged(a, b)),
        occupies(after, at, t.merged(a, b), i) ==> {
            &&& occupies(slots, at, t, i)
            &&& i != slots[p].node->first
            &&& i != slots[p].node->second
        },
    decreases t,
{
    lemma_siblings_are_leaves(t, a, b);
    lemma_occupied_in_range(slots, at, parent, t, p);
    let cf = slots[p].node->first as int;
    let cs = slots[p].node->second as int;
    assert(occupies(slots, at, t, at));
    match t {
        Layout::Leaf(_) => {},
        Layout::Split { direction, ratio, first, second } => {
            let f = slots[at].node->first as int;
            let s = slots[at].node->second as int;
            assert(holds(slots, f, Some(at as usize), *first));
            assert(holds(slots, s, Some(at as usize), *second));
            if at == p {
                assert(*first is Leaf);
                assert(*second is Leaf);
                assert(leaf_pair(*first, *second, a, b));
                assert((*first).has_leaf(a) <==> first->Leaf_0.id == a);
                assert(t.merged(a, b) == Layout::Leaf(kept));
            } else {
                assert(!leaf_pair(*first, *second, a, b)) by {
                    if leaf_pair(*first, *second, a, b) {
                        assert(occupies(slots, f, *first, p) ==> p == f);
                        assert(occupies(slots, s, *second, p) ==> p == s);
                    }
                }
                assert(after[at] == slots[at]);
                let x = slots[cf].node->Leaf_0.id;
                let y = slots[cs].node->Leaf_0.id;
                if occupies(slots, f, *first, p) {
                    lemma_pair_slot(slots, f, Some(at as usize), *first, p);
                    lemma_siblings_are_leaves(*first, x, y);
                    assert((*first).siblings(a, b));
                    lemma_siblings_are_leaves(*first, a, b);
                    lemma_merge_held(
                        slots,
                        after,
                        f,
                        Some(at as usize),
                        *first,
                        a,
                        b,
                        p,
                        kept,
                        i,
                    );
                    assert(!(*second).siblings(a, b)) by {
                        if (*second).siblings(a, b) {
                            lemma_siblings_are_leaves(*second, a, b);
                        }
                    }
                    lemma_merged_without_siblings(*second, a, b);
                    assert forall|j: int| #[trigger]
                        occupies(slots, s, *second, j) implies after[j] == slots[j] by {
                        lemma_occupied_in_range(slots, s, Some(at as usize), *second, j);
                        if j == p {
                            lemma_pair_slot(slots, s, Some(at as usize), *second, p);
                            lemma_siblings_are_leaves(*second, x, y);
                        }
                    }
                    lemma_frame(slots, after, s, Some(at as usize), *second, i);
                    if occupies(slots, s, *second, i) && (i == cf || i == cs) {
                        lemma_leaf_slot(slots, s, Some(at as usize), *second, i);
                    }
                } else {
                    assert(occupies(slots, s, *second, p));
                    lemma_pair_slot(slots, s, Some(at as usize), *second, p);
                    lemma_siblings_are_leaves(*second, x, y);
                    assert((*second).siblings(a, b));
                    lemma_siblings_are_leaves(*second, a, b);
                    lemma_merge_held(
                        slots,
                        after,
                        s,
                        Some(at as usize),
                        *second,
                        a,
                        b,
                        p,
                        kept,
                        i,
                    );
                    assert(!(*first).siblings(a, b)) by {
                        if (*first).siblings(a, b) {
                            lemma_siblings_are_leaves(*first, a, b);
                        }
                    }
                    lemma_merged_without_siblings(*first, a, b);
                    assert forall|j: int| #[trigger]
                        occupies(slots, f, *first, j) implies after[j] == slots[j] by {
                        lemma_occupied_in_range(slots, f, Some(at as usize), *first, j);
                        if j == p {
                            lemma_pair_slot(slots, f, Some(at as usize), *first, p);
                            lemma_siblings_are_leaves(*first, x, y);
                        }
                    }
                    lemma_frame(slots, after, f, Some(at as usize), *first, i);
                    if occupies(slots, f, *first, i) && (i == cf || i == cs) {
                        lemma_leaf_slot(slots, f, Some(at as usize), *first, i);
                    }
                }
                assert(holds(after, f, Some(at as usize), (*first).merged(a, b)));
                assert(holds(after, s, Some(at as usize), (*second).merged(a, b)));
                assert(t.merged(a, b) == Layout::Split {
                    direction,
                    ratio,
                    first: Box::new((*first).merged(a, b)),
                    second: Box::new((*second).merged(a, b)),
                });
                assert(occupies(after, at, t.merged(a, b), i) == (at == i || occupies(
                    after,
                    f,
                    (*first).merged(a, b),
                    i,
                ) || occupies(after, s, (*second).merged(a, b), i)));
                assert(occupies(slots, at, t, i) == (at == i || occupies(slots, f, *first, i)
                    || occupies(slots, s, *second, i)));
            }
        },
    }
}

/// Puts `slot` into a spare slot of the arena, or at its end where no slot
/// is spare, and says where it went.
pub fn take_slot(slots: &mut Vec<Slot>, free: &mut Vec<NodeRef>, slot: Slot) -> (at: NodeRef)
    requires
        forall|j: int| 0 <= j < old(free).len() ==> (#[trigger] old(free)[j]) < old(slots).len(),
    ensures
        at < final(slots).len(),
        final(slots)@[at as int] == slot,
        old(slots).len() <= final(slots).len() <= old(slots).len() + 1,
        forall|j: int|
            0 <= j < old(slots).len() && j != at ==> (#[trigger] final(slots)@[j]) == old(
                slots,
            )@[j],
        old(free).len() > 0 ==> at == old(free)@.last() && final(free)@ == old(free)@.drop_last(),
        old(free).len() == 0 ==> at == old(slots).len() && final(free)@ == old(free)@,
{
    match free.pop() {
        Some(at) => {
            slots.set(at, slot);
            at
        },
        None => {
            let at: NodeRef = slots.len();
            slots.push(slot);
            at
        },
    }
}

/// Finds the slot of the leaf `id` in the tree held from the slot `at` down.
pub fn locate(
    slots: &Vec<Slot>,
    at: NodeRef,
    id: PaneId,
    Ghost(parent): Ghost<Option<NodeRef>>,
    Ghost(t): Ghost<Layout>,
) -> (found: Option<NodeRef>)
    requires
        holds(slots@, at as int, parent, t),
    ensures
        match found {
            Some(k) => {
                &&& t.has_leaf(id)
                &&& occupies(slots@, at as int, t, k as int)
                &&& k < slots.len()
                &&& slots@[k as int].node == Node::Leaf(t.leaf(id))
                &&& t.leaf(id).id == id
            },
            None => !t.has_leaf(id),
        },
    decreases t,
{
    match slots[at].node {
        Node::Leaf(pane) => {
            if pane.id == id {
                Some(at)
            } else {
                None
            }
        },
        Node::Split { first, second, .. } => {
            let ghost ft: Layout = *t->first;
            let ghost st: Layout = *t->second;
            match locate(slots, first, id, Ghost(Some(at)), Ghost(ft)) {
                Some(k) => Some(k),
                None => locate(slots, second, id, Ghost(Some(at)), Ghost(st)),
            }
        },
    }
}

/// Finds the first leaf, in traversal order, that displays `view`.
pub fn locate_view(
    slots: &Vec<Slot>,
    at: NodeRef,
    view: PaneView,
    Ghost(parent): Ghost<Option<NodeRef>>,
    Ghost(t): Ghost<Layout>,
) -> (found: Option<PaneId>)
    requires
        holds(slots@, at as int, parent, t),
    ensures
        found == t.first_showing(view),
    decreases t,
{
    match slots[at].node {
        Node::Leaf(pane) => {
            if pane.view == view {
                Some(pane.id)
            } else {
                None
            }
        },
        Node::Split { first, second, .. } => {
            let ghost ft: Layout = *t->first;
            let ghost st: Layout = *t->second;
            match locate_view(slots, first, view, Ghost(Some(at)), Ghost(ft)) {
                Some(id) => Some(id),
                None => locate_view(slots, second, view, Ghost(Some(at)), Ghost(st)),
            }
        },
    }
}

/// Appends to `out` the flattened layout of the tree held from the slot `at`
/// down, drawn into `area`.
pub fn flatten_into(
    slots: &Vec<Slot>,
    at: NodeRef,
    area: Rect,
    focused: PaneId,
    out: &mut Vec<PaneFlattened>,
    Ghost(parent): Ghost<Option<NodeRef>>,
    Ghost(t): Ghost<Layout>,
)
    requires
        holds(slots@, at as int, parent, t),
        t.ratios_positive(),
        area.fits(),
    ensures
        final(out)@ == old(out)@ + t.flatten(area, focused),
    decreases t,
{
    match slots[at].node {
        Node::Leaf(pane) => {
            out.push(
                PaneFlattened { view: pane.view, id: pane.id, focused: pane.id == focused, rect: area },
            );
            proof {
                assert(final(out)@ =~= old(out)@ + t.flatten(area, focused));
            }
        },
        Node::Split { direction, ratio, first, second } => {
            let ghost ft: Layout = *t->first;
            let ghost st: Layout = *t->second;
            let parts = split_area(area, direction, ratio);
            proof {
                crate::geometry::lemma_split_partitions(area, direction, ratio);
            }
            flatten_into(slots, first, parts.0, focused, out, Ghost(Some(at)), Ghost(ft));
            flatten_into(slots, second, parts.1, focused, out, Ghost(Some(at)), Ghost(st));
            proof {
                assert(final(out)@ =~= old(out)@ + (ft.flatten(
                    first_part(area, direction, ratio),
                    focused,
                ) + st.flatten(second_part(area, direction, ratio), focused)));
            }
        },
    }
}

} // verus!
