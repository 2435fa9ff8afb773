use debug_frontend::error::LayoutError;
use debug_frontend::geometry::{Direction, Rect};
use debug_frontend::window::pane::{Pane, PaneFlattened, PaneManager, PaneView};

fn rect(x: u16, y: u16, width: u16, height: u16) -> Rect {
    Rect { x, y, width, height }
}

fn entry(id: usize, view: PaneView, focused: bool, rect: Rect) -> PaneFlattened {
    PaneFlattened { view, id, focused, rect }
}

fn screen() -> Rect {
    rect(0, 0, 80, 24)
}

/// Whether every cell of `area` lies in exactly one of the rectangles.
fn tiles_exactly(entries: &[PaneFlattened], area: Rect) -> bool {
    for px in area.x..area.x + area.width {
        for py in area.y..area.y + area.height {
            let hits = entries
                .iter()
                .filter(|e| {
                    e.rect.x <= px
                        && px < e.rect.x + e.rect.width
                        && e.rect.y <= py
                        && py < e.rect.y + e.rect.height
                })
                .count();
            if hits != 1 {
                return false;
            }
        }
    }
    entries.iter().all(|e| {
        area.x <= e.rect.x
            && e.rect.x + e.rect.width <= area.x + area.width
            && area.y <= e.rect.y
            && e.rect.y + e.rect.height <= area.y + area.height
    })
}

#[test]
fn pane_set_view_overwrites_the_view_only() {
    let mut pane = Pane::new(4, PaneView::Source);
    assert_eq!(pane.get_current_view(), PaneView::Source);
    pane.set_view(PaneView::Trace);
    assert_eq!(pane, Pane { id: 4, view: PaneView::Trace });
}

#[test]
fn small_preset_is_one_terminal_pane() {
    let manager = PaneManager::default_small_screen().unwrap();
    assert_eq!(
        manager.get_flattened_layout(screen()).unwrap(),
        vec![entry(0, PaneView::Terminal, true, screen())]
    );
    assert_eq!(*manager.get_focused_pane().unwrap(), Pane { id: 0, view: PaneView::Terminal });
    assert_eq!(manager.get_focused_view().unwrap(), PaneView::Terminal);
    assert_eq!(manager.viewport(), screen());
}

#[test]
fn large_preset_has_source_and_trace_above_the_terminal() {
    let manager = PaneManager::default_large_screen().unwrap();
    assert_eq!(manager.viewport(), rect(0, 0, 160, 48));
    assert_eq!(
        manager.get_flattened_layout(rect(0, 0, 160, 48)).unwrap(),
        vec![
            entry(1, PaneView::Source, false, rect(0, 0, 80, 36)),
            entry(2, PaneView::Trace, false, rect(80, 0, 80, 36)),
            entry(0, PaneView::Terminal, true, rect(0, 36, 160, 12)),
        ]
    );
}

#[test]
fn split_then_merge_on_the_small_preset() {
    let mut manager = PaneManager::default_small_screen().unwrap();
    assert_eq!(manager.split(0, Direction::Horizontal, [1, 1]), Ok(1));
    assert_eq!(
        manager.get_flattened_layout(screen()).unwrap(),
        vec![
            entry(0, PaneView::Terminal, true, rect(0, 0, 40, 24)),
            entry(1, PaneView::Terminal, false, rect(40, 0, 40, 24)),
        ]
    );
    assert_eq!(manager.merge(0, 1), Ok(()));
    assert_eq!(
        manager.get_flattened_layout(screen()).unwrap(),
        vec![entry(0, PaneView::Terminal, true, screen())]
    );
}

#[test]
fn split_of_an_unknown_pane_is_not_found_and_changes_nothing() {
    let mut manager = PaneManager::default_large_screen().unwrap();
    let before = manager.get_flattened_layout(screen()).unwrap();
    assert_eq!(manager.split(9, Direction::Vertical, [1, 1]), Err(LayoutError::NotFound));
    assert_eq!(manager.get_flattened_layout(screen()).unwrap(), before);
    assert_eq!(manager.split(0, Direction::Vertical, [1, 1]), Ok(3));
}

#[test]
fn split_hands_out_identifiers_in_rising_order_without_reuse() {
    let mut manager = PaneManager::default_small_screen().unwrap();
    assert_eq!(manager.split(0, Direction::Horizontal, [1, 1]), Ok(1));
    assert_eq!(manager.merge(0, 1), Ok(()));
    assert_eq!(manager.split(0, Direction::Vertical, [1, 1]), Ok(2));
    assert_eq!(manager.split(2, Direction::Horizontal, [1, 3]), Ok(3));
    assert_eq!(
        manager.get_flattened_layout(screen()).unwrap(),
        vec![
            entry(0, PaneView::Terminal, true, rect(0, 0, 80, 12)),
            entry(2, PaneView::Terminal, false, rect(0, 12, 20, 12)),
            entry(3, PaneView::Terminal, false, rect(20, 12, 60, 12)),
        ]
    );
}

#[test]
fn the_new_pane_of_a_split_shows_the_view_of_the_split_pane() {
    let mut manager = PaneManager::default_large_screen().unwrap();
    assert_eq!(manager.split(2, Direction::Vertical, [1, 1]), Ok(3));
    assert_eq!(
        manager.get_flattened_layout(rect(0, 0, 160, 48)).unwrap(),
        vec![
            entry(1, PaneView::Source, false, rect(0, 0, 80, 36)),
            entry(2, PaneView::Trace, false, rect(80, 0, 80, 18)),
            entry(3, PaneView::Trace, false, rect(80, 18, 80, 18)),
            entry(0, PaneView::Terminal, true, rect(0, 36, 160, 12)),
        ]
    );
}

#[test]
fn split_then_merge_restores_the_layout_for_both_directions_and_uneven_ratios() {
    for direction in [Direction::Horizontal, Direction::Vertical] {
        for ratio in [[1, 1], [1, 2], [7, 3], [u32::MAX, 1]] {
            for id in [0, 1, 2] {
                let mut manager = PaneManager::default_large_screen().unwrap();
                let before = manager.get_flattened_layout(rect(0, 0, 160, 48)).unwrap();
                let new_id = manager.split(id, direction, ratio).unwrap();
                assert_eq!(new_id, 3);
                assert_eq!(manager.merge(id, new_id), Ok(()));
                assert_eq!(manager.get_flattened_layout(rect(0, 0, 160, 48)).unwrap(), before);
            }
        }
    }
}

#[test]
fn merge_of_panes_that_are_not_siblings_is_invalid_and_changes_nothing() {
    let mut manager = PaneManager::default_large_screen().unwrap();
    let before = manager.get_flattened_layout(rect(0, 0, 160, 48)).unwrap();
    assert_eq!(manager.merge(1, 0), Err(LayoutError::InvalidMerge));
    assert_eq!(manager.merge(0, 2), Err(LayoutError::InvalidMerge));
    assert_eq!(manager.merge(1, 1), Err(LayoutError::InvalidMerge));
    assert_eq!(manager.get_flattened_layout(rect(0, 0, 160, 48)).unwrap(), before);
    assert_eq!(*manager.get_focused_pane().unwrap(), Pane { id: 0, view: PaneView::Terminal });
}

#[test]
fn merge_with_an_unknown_pane_is_not_found() {
    let mut manager = PaneManager::default_large_screen().unwrap();
    assert_eq!(manager.merge(1, 9), Err(LayoutError::NotFound));
    assert_eq!(manager.merge(9, 1), Err(LayoutError::NotFound));
    assert_eq!(manager.merge(8, 9), Err(LayoutError::NotFound));
}

#[test]
fn merge_of_the_only_pane_with_itself_is_invalid() {
    let mut manager = PaneManager::default_small_screen().unwrap();
    assert_eq!(manager.merge(0, 0), Err(LayoutError::InvalidMerge));
}

#[test]
fn merge_keeps_the_first_pane_whichever_child_it_is() {
    let mut manager = PaneManager::default_large_screen().unwrap();
    assert_eq!(manager.merge(2, 1), Ok(()));
    assert_eq!(
        manager.get_flattened_layout(rect(0, 0, 160, 48)).unwrap(),
        vec![
            entry(2, PaneView::Trace, false, rect(0, 0, 160, 36)),
            entry(0, PaneView::Terminal, true, rect(0, 36, 160, 12)),
        ]
    );
    assert_eq!(manager.merge(0, 2), Ok(()));
    assert_eq!(
        manager.get_flattened_layout(rect(0, 0, 160, 48)).unwrap(),
        vec![entry(0, PaneView::Terminal, true, rect(0, 0, 160, 48))]
    );
}

#[test]
fn merge_moves_the_focus_off_the_discarded_pane() {
    let mut manager = PaneManager::default_large_screen().unwrap();
    assert_eq!(manager.focus_on(2), Ok(()));
    assert_eq!(manager.merge(1, 2), Ok(()));
    assert_eq!(*manager.get_focused_pane().unwrap(), Pane { id: 1, view: PaneView::Source });
}

#[test]
fn merge_after_many_splits_finds_siblings_deep_in_the_tree() {
    let mut manager = PaneManager::default_small_screen().unwrap();
    assert_eq!(manager.split(0, Direction::Horizontal, [1, 1]), Ok(1));
    assert_eq!(manager.split(1, Direction::Vertical, [1, 1]), Ok(2));
    assert_eq!(manager.split(2, Direction::Horizontal, [1, 1]), Ok(3));
    assert_eq!(manager.merge(1, 3), Err(LayoutError::InvalidMerge));
    assert_eq!(manager.merge(0, 1), Err(LayoutError::InvalidMerge));
    assert_eq!(manager.merge(3, 2), Ok(()));
    assert_eq!(manager.merge(3, 1), Ok(()));
    assert_eq!(manager.merge(0, 3), Ok(()));
    assert_eq!(
        manager.get_flattened_layout(screen()).unwrap(),
        vec![entry(0, PaneView::Terminal, true, screen())]
    );
}

#[test]
fn focus_on_moves_the_focus_or_reports_an_unknown_pane() {
    let mut manager = PaneManager::default_large_screen().unwrap();
    assert_eq!(manager.focus_on(1), Ok(()));
    assert_eq!(manager.get_focused_view().unwrap(), PaneView::Source);
    assert_eq!(manager.focus_on(7), Err(LayoutError::NotFound));
    assert_eq!(manager.get_focused_pane().unwrap().id, 1);
}

#[test]
fn force_goto_sets_the_view_of_the_focused_pane() {
    let mut manager = PaneManager::default_large_screen().unwrap();
    assert_eq!(manager.force_goto(PaneView::Memory), Ok(()));
    assert_eq!(*manager.get_focused_pane().unwrap(), Pane { id: 0, view: PaneView::Memory });
    assert_eq!(
        manager.get_flattened_layout(rect(0, 0, 160, 48)).unwrap()[2],
        entry(0, PaneView::Memory, true, rect(0, 36, 160, 12))
    );
}

#[test]
fn force_goto_by_view_moves_to_the_pane_that_shows_the_view() {
    let mut manager = PaneManager::default_large_screen().unwrap();
    assert_eq!(manager.force_goto_by_view(PaneView::Trace), Ok(()));
    assert_eq!(*manager.get_focused_pane().unwrap(), Pane { id: 2, view: PaneView::Trace });
    assert_eq!(manager.force_goto_by_view(PaneView::Terminal), Ok(()));
    assert_eq!(*manager.get_focused_pane().unwrap(), Pane { id: 0, view: PaneView::Terminal });
}

#[test]
fn force_goto_by_view_picks_the_first_of_several_panes() {
    let mut manager = PaneManager::default_small_screen().unwrap();
    assert_eq!(manager.split(0, Direction::Horizontal, [1, 1]), Ok(1));
    assert_eq!(manager.focus_on(1), Ok(()));
    assert_eq!(manager.force_goto_by_view(PaneView::Terminal), Ok(()));
    assert_eq!(manager.get_focused_pane().unwrap().id, 0);
}

#[test]
fn force_goto_by_view_sets_the_view_where_no_pane_shows_it() {
    let mut manager = PaneManager::default_large_screen().unwrap();
    assert_eq!(manager.focus_on(1), Ok(()));
    assert_eq!(manager.force_goto_by_view(PaneView::Stack), Ok(()));
    assert_eq!(*manager.get_focused_pane().unwrap(), Pane { id: 1, view: PaneView::Stack });
}

#[test]
fn get_focused_pane_mut_lets_the_view_be_changed() {
    let mut manager = PaneManager::default_large_screen().unwrap();
    manager.get_focused_pane_mut().unwrap().set_view(PaneView::Opcode);
    assert_eq!(manager.get_focused_view().unwrap(), PaneView::Opcode);
    assert_eq!(manager.merge(1, 2), Ok(()));
    assert_eq!(manager.get_focused_view().unwrap(), PaneView::Opcode);
}

#[test]
fn set_viewport_records_the_area() {
    let mut manager = PaneManager::default_small_screen().unwrap();
    manager.set_viewport(rect(2, 3, 100, 50));
    assert_eq!(manager.viewport(), rect(2, 3, 100, 50));
}

#[test]
fn flattened_layout_tiles_the_viewport() {
    let mut manager = PaneManager::default_large_screen().unwrap();
    assert_eq!(manager.split(1, Direction::Vertical, [2, 5]), Ok(3));
    assert_eq!(manager.split(0, Direction::Horizontal, [3, 2]), Ok(4));
    assert_eq!(manager.split(4, Direction::Horizontal, [1, 1]), Ok(5));
    for area in [rect(0, 0, 80, 24), rect(5, 7, 81, 25), rect(0, 0, 1, 1), rect(0, 0, 3, 0)] {
        let entries = manager.get_flattened_layout(area).unwrap();
        assert_eq!(entries.len(), 6);
        assert!(tiles_exactly(&entries, area));
    }
}

#[test]
fn flattened_layout_near_the_largest_coordinates() {
    let mut manager = PaneManager::default_small_screen().unwrap();
    assert_eq!(manager.split(0, Direction::Horizontal, [1, 1]), Ok(1));
    assert_eq!(
        manager.get_flattened_layout(rect(65_525, 65_535, 10, 0)).unwrap(),
        vec![
            entry(0, PaneView::Terminal, true, rect(65_525, 65_535, 5, 0)),
            entry(1, PaneView::Terminal, false, rect(65_530, 65_535, 5, 0)),
        ]
    );
}

#[test]
fn flattened_layout_marks_exactly_one_pane_as_focused() {
    let mut manager = PaneManager::default_large_screen().unwrap();
    assert_eq!(manager.split(2, Direction::Vertical, [1, 1]), Ok(3));
    for id in [0, 1, 2, 3] {
        assert_eq!(manager.focus_on(id), Ok(()));
        let entries = manager.get_flattened_layout(screen()).unwrap();
        let focused: Vec<usize> = entries.iter().filter(|e| e.focused).map(|e| e.id).collect();
        assert_eq!(focused, vec![id]);
    }
}

#[test]
fn merge_does_not_discard_the_terminal_in_favour_of_another_view() {
    let mut manager = PaneManager::default_small_screen().unwrap();
    assert_eq!(manager.split(0, Direction::Horizontal, [1, 1]), Ok(1));
    assert_eq!(manager.focus_on(1), Ok(()));
    assert_eq!(manager.force_goto(PaneView::Source), Ok(()));
    let before = manager.get_flattened_layout(screen()).unwrap();
    assert_eq!(manager.merge(1, 0), Err(LayoutError::InvalidOperation));
    assert_eq!(manager.get_flattened_layout(screen()).unwrap(), before);
    assert_eq!(manager.merge(0, 1), Ok(()));
    assert_eq!(
        manager.get_flattened_layout(screen()).unwrap(),
        vec![entry(0, PaneView::Terminal, true, screen())]
    );
}

#[test]
fn merge_checks_the_siblings_before_the_views() {
    let mut manager = PaneManager::default_large_screen().unwrap();
    assert_eq!(manager.merge(1, 0), Err(LayoutError::InvalidMerge));
    assert_eq!(manager.merge(2, 0), Err(LayoutError::InvalidMerge));
}

#[test]
fn next_pane_id_counts_the_panes_ever_made() {
    let mut manager = PaneManager::default_large_screen().unwrap();
    assert_eq!(manager.next_pane_id(), 3);
    assert_eq!(manager.split(1, Direction::Vertical, [1, 1]), Ok(3));
    assert_eq!(manager.merge(1, 3), Ok(()));
    assert_eq!(manager.next_pane_id(), 4);
    assert_eq!(manager.split(9, Direction::Vertical, [1, 1]), Err(LayoutError::NotFound));
    assert_eq!(manager.next_pane_id(), 4);
}
