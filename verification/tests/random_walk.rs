//! Drives a pane manager through long pseudo-random sequences of operations
//! and holds every result against a plain tree that does the same.

use debug_frontend::error::LayoutError;
use debug_frontend::geometry::{Direction, Rect};
use debug_frontend::window::navigation::Heading;
use debug_frontend::window::pane::{Pane, PaneFlattened, PaneManager, PaneView};

enum Tree {
    Leaf(Pane),
    Split(Direction, [u32; 2], Box<Tree>, Box<Tree>),
}

struct Plain {
    tree: Tree,
    focused: usize,
    next_id: usize,
    viewport: Rect,
}

fn parts(area: Rect, direction: Direction, ratio: [u32; 2]) -> (Rect, Rect) {
    let share = |extent: u16| -> u16 {
        (u64::from(extent) * u64::from(ratio[0]) / (u64::from(ratio[0]) + u64::from(ratio[1])))
            as u16
    };
    match direction {
        Direction::Horizontal => {
            let w = share(area.width);
            (
                Rect { width: w, ..area },
                Rect { x: area.x + w, width: area.width - w, ..area },
            )
        }
        Direction::Vertical => {
            let h = share(area.height);
            (
                Rect { height: h, ..area },
                Rect { y: area.y + h, height: area.height - h, ..area },
            )
        }
    }
}

impl Tree {
    fn find(&self, id: usize) -> Option<Pane> {
        match self {
            Tree::Leaf(pane) => (pane.id == id).then_some(*pane),
            Tree::Split(_, _, first, second) => first.find(id).or_else(|| second.find(id)),
        }
    }

    fn first_showing(&self, view: PaneView) -> Option<usize> {
        match self {
            Tree::Leaf(pane) => (pane.view == view).then_some(pane.id),
            Tree::Split(_, _, first, second) => {
                first.first_showing(view).or_else(|| second.first_showing(view))
            }
        }
    }

    fn set_view(&mut self, id: usize, view: PaneView) {
        match self {
            Tree::Leaf(pane) => {
                if pane.id == id {
                    pane.view = view;
                }
            }
            Tree::Split(_, _, first, second) => {
                first.set_view(id, view);
                second.set_view(id, view);
            }
        }
    }

    fn split(&mut self, id: usize, direction: Direction, ratio: [u32; 2], new_id: usize) {
        match self {
            Tree::Leaf(pane) => {
                if pane.id == id {
                    let kept = *pane;
                    let made = Pane { id: new_id, view: kept.view };
                    *self = Tree::Split(
                        direction,
                        ratio,
                        Box::new(Tree::Leaf(kept)),
                        Box::new(Tree::Leaf(made)),
                    );
                }
            }
            Tree::Split(_, _, first, second) => {
                first.split(id, direction, ratio, new_id);
                second.split(id, direction, ratio, new_id);
            }
        }
    }

    fn siblings(&self, a: usize, b: usize) -> bool {
        match self {
            Tree::Leaf(_) => false,
            Tree::Split(_, _, first, second) => {
                if let (Tree::Leaf(p), Tree::Leaf(q)) = (&**first, &**second) {
                    if (p.id == a && q.id == b) || (p.id == b && q.id == a) {
                        return true;
                    }
                }
                first.siblings(a, b) || second.siblings(a, b)
            }
        }
    }

    fn merge(&mut self, a: usize, b: usize) {
        let mut kept = None;
        if let Tree::Split(_, _, first, second) = self {
            if let (Tree::Leaf(p), Tree::Leaf(q)) = (&**first, &**second) {
                if p.id == a && q.id == b {
                    kept = Some(*p);
                } else if p.id == b && q.id == a {
                    kept = Some(*q);
                }
            }
        }
        match kept {
            Some(pane) => *self = Tree::Leaf(pane),
            None => {
                if let Tree::Split(_, _, first, second) = self {
                    first.merge(a, b);
                    second.merge(a, b);
                }
            }
        }
    }

    fn flatten(&self, area: Rect, focused: usize, out: &mut Vec<PaneFlattened>) {
        match self {
            Tree::Leaf(pane) => out.push(PaneFlattened {
                view: pane.view,
                id: pane.id,
                focused: pane.id == focused,
                rect: area,
            }),
            Tree::Split(direction, ratio, first, second) => {
                let (a, b) = parts(area, *direction, *ratio);
                first.flatten(a, focused, out);
                second.flatten(b, focused, out);
            }
        }
    }
}

impl Plain {
    fn flattened(&self, area: Rect) -> Vec<PaneFlattened> {
        let mut out = Vec::new();
        self.tree.flatten(area, self.focused, &mut out);
        out
    }

    fn split(
        &mut self,
        id: usize,
        direction: Direction,
        ratio: [u32; 2],
    ) -> Result<usize, LayoutError> {
        if self.tree.find(id).is_none() {
            return Err(LayoutError::NotFound);
        }
        let new_id = self.next_id;
        self.tree.split(id, direction, ratio, new_id);
        self.next_id += 1;
        Ok(new_id)
    }

    fn merge(&mut self, a: usize, b: usize) -> Result<(), LayoutError> {
        let (pa, pb) = match (self.tree.find(a), self.tree.find(b)) {
            (Some(pa), Some(pb)) => (pa, pb),
            _ => return Err(LayoutError::NotFound),
        };
        if !self.tree.siblings(a, b) {
            return Err(LayoutError::InvalidMerge);
        }
        if pb.view == PaneView::Terminal && pa.view != PaneView::Terminal {
            return Err(LayoutError::InvalidOperation);
        }
        self.tree.merge(a, b);
        if self.focused == b {
            self.focused = a;
        }
        Ok(())
    }

    fn steer(&mut self, heading: Heading) {
        let entries = self.flattened(self.viewport);
        let from = entries.iter().find(|e| e.focused).unwrap().rect;
        let centre = |r: &Rect| (2 * i64::from(r.x) + i64::from(r.width), 2 * i64::from(r.y) + i64::from(r.height));
        let (fx, fy) = centre(&from);
        let mut best: Option<(i64, i64, usize)> = None;
        for entry in &entries {
            let (cx, cy) = centre(&entry.rect);
            let gap = match heading {
                Heading::Up => fy - cy,
                Heading::Down => cy - fy,
                Heading::Left => fx - cx,
                Heading::Right => cx - fx,
            };
            if gap <= 0 {
                continue;
            }
            let distance = (cx - fx) * (cx - fx) + (cy - fy) * (cy - fy);
            let nearer = match best {
                None => true,
                Some((g, d, _)) => gap < g || (gap == g && distance < d),
            };
            if nearer {
                best = Some((gap, distance, entry.id));
            }
        }
        if let Some((_, _, id)) = best {
            self.focused = id;
        }
    }
}

/// A small generator of pseudo-random numbers.
struct Dice(u64);

impl Dice {
    fn roll(&mut self, sides: u64) -> u64 {
        self.0 = self.0.wrapping_mul(6_364_136_223_846_793_005).wrapping_add(1_442_695_040_888_963_407);
        (self.0 >> 33) % sides
    }
}

fn walk(seed: u64, steps: usize, start_large: bool) {
    let mut dice = Dice(seed);
    let (mut manager, mut plain) = if start_large {
        (
            PaneManager::default_large_screen().unwrap(),
            Plain {
                tree: Tree::Split(
                    Direction::Vertical,
                    [3, 1],
                    Box::new(Tree::Split(
                        Direction::Horizontal,
                        [1, 1],
                        Box::new(Tree::Leaf(Pane { id: 1, view: PaneView::Source })),
                        Box::new(Tree::Leaf(Pane { id: 2, view: PaneView::Trace })),
                    )),
                    Box::new(Tree::Leaf(Pane { id: 0, view: PaneView::Terminal })),
                ),
                focused: 0,
                next_id: 3,
                viewport: Rect { x: 0, y: 0, width: 160, height: 48 },
            },
        )
    } else {
        (
            PaneManager::default_small_screen().unwrap(),
            Plain {
                tree: Tree::Leaf(Pane { id: 0, view: PaneView::Terminal }),
                focused: 0,
                next_id: 1,
                viewport: Rect { x: 0, y: 0, width: 80, height: 24 },
            },
        )
    };
    let views = [PaneView::Terminal, PaneView::Source, PaneView::Trace, PaneView::Memory];
    let headings = [Heading::Up, Heading::Down, Heading::Left, Heading::Right];
    let area = Rect { x: 3, y: 1, width: 211, height: 67 };
    for step in 0..steps {
        let leaves = plain.flattened(area).len() as u64;
        let any_id = |dice: &mut Dice, plain: &Plain| -> usize {
            if dice.roll(8) == 0 {
                dice.roll(plain.next_id as u64 + 3) as usize
            } else {
                let entries = plain.flattened(area);
                entries[dice.roll(entries.len() as u64) as usize].id
            }
        };
        match dice.roll(if leaves > 12 { 5 } else { 8 }) {
            0 | 1 => {
                let a = any_id(&mut dice, &plain);
                let b = any_id(&mut dice, &plain);
                assert_eq!(manager.merge(a, b), plain.merge(a, b), "merge at step {step}");
            }
            2 => {
                let heading = headings[dice.roll(4) as usize];
                assert_eq!(manager.steer(heading), Ok(()));
                plain.steer(heading);
            }
            3 => {
                let id = any_id(&mut dice, &plain);
                let expected = if plain.tree.find(id).is_some() {
                    plain.focused = id;
                    Ok(())
                } else {
                    Err(LayoutError::NotFound)
                };
                assert_eq!(manager.focus_on(id), expected);
            }
            4 => {
                let view = views[dice.roll(4) as usize];
                if dice.roll(2) == 0 {
                    assert_eq!(manager.force_goto(view), Ok(()));
                    plain.tree.set_view(plain.focused, view);
                } else {
                    assert_eq!(manager.force_goto_by_view(view), Ok(()));
                    match plain.tree.first_showing(view) {
                        Some(id) => plain.focused = id,
                        None => plain.tree.set_view(plain.focused, view),
                    }
                }
            }
            5 => {
                let viewport = Rect {
                    x: dice.roll(10) as u16,
                    y: dice.roll(10) as u16,
                    width: dice.roll(200) as u16,
                    height: dice.roll(60) as u16,
                };
                manager.set_viewport(viewport);
                plain.viewport = viewport;
            }
            _ => {
                let id = any_id(&mut dice, &plain);
                let direction =
                    if dice.roll(2) == 0 { Direction::Horizontal } else { Direction::Vertical };
                let ratio = [dice.roll(5) as u32 + 1, dice.roll(5) as u32 + 1];
                assert_eq!(
                    manager.split(id, direction, ratio),
                    plain.split(id, direction, ratio),
                    "split at step {step}"
                );
            }
        }
        assert_eq!(manager.get_flattened_layout(area).unwrap(), plain.flattened(area));
        assert_eq!(manager.viewport(), plain.viewport);
        assert_eq!(manager.next_pane_id(), plain.next_id);
        assert_eq!(Some(*manager.get_focused_pane().unwrap()), plain.tree.find(plain.focused));
    }
}

#[test]
fn random_walks_from_the_small_preset_agree_with_a_plain_tree() {
    for seed in 0..40 {
        walk(seed, 400, false);
    }
}

#[test]
fn random_walks_from_the_large_preset_agree_with_a_plain_tree() {
    for seed in 100..140 {
        walk(seed, 400, true);
    }
}

#[test]
fn a_long_run_of_splits_and_merges_keeps_the_layout() {
    let mut manager = PaneManager::default_small_screen().unwrap();
    let area = Rect { x: 0, y: 0, width: 80, height: 24 };
    for round in 0..2000 {
        let made = manager.split(0, Direction::Horizontal, [1, 1]).unwrap();
        assert_eq!(made, 2 * round + 1);
        let inner = manager.split(made, Direction::Vertical, [1, 2]).unwrap();
        assert_eq!(inner, 2 * round + 2);
        assert_eq!(
            manager.get_flattened_layout(area).unwrap(),
            vec![
                PaneFlattened {
                    view: PaneView::Terminal,
                    id: 0,
                    focused: true,
                    rect: Rect { x: 0, y: 0, width: 40, height: 24 },
                },
                PaneFlattened {
                    view: PaneView::Terminal,
                    id: made,
                    focused: false,
                    rect: Rect { x: 40, y: 0, width: 40, height: 8 },
                },
                PaneFlattened {
                    view: PaneView::Terminal,
                    id: inner,
                    focused: false,
                    rect: Rect { x: 40, y: 8, width: 40, height: 16 },
                },
            ]
        );
        assert_eq!(manager.merge(made, inner), Ok(()));
        assert_eq!(manager.merge(0, made), Ok(()));
        assert_eq!(manager.get_flattened_layout(area).unwrap().len(), 1);
    }
}
