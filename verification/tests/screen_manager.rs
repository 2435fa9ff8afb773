use debug_frontend::error::LayoutError;
use debug_frontend::geometry::{Direction, Point, Rect};
use debug_frontend::window::pane::{Pane, PaneFlattened, PaneManager, PaneView};
use debug_frontend::window::screen::{ScreenManager, LARGE_SCREEN_STR, SMALL_SCREEN_STR};

fn rect(x: u16, y: u16, width: u16, height: u16) -> Rect {
    Rect { x, y, width, height }
}

fn entry(id: usize, view: PaneView, focused: bool, rect: Rect) -> PaneFlattened {
    PaneFlattened { view, id, focused, rect }
}

fn screen() -> Rect {
    rect(0, 0, 80, 24)
}

fn focused(manager: &mut ScreenManager) -> Pane {
    *manager.get_focused_pane().unwrap()
}

/// A screen with the panes 0 (terminal) and 1 (source) side by side, and the
/// focus on pane 1.
fn two_panes() -> ScreenManager {
    let mut manager = ScreenManager::new().unwrap();
    assert_eq!(manager.split_focused_pane(Direction::Horizontal, [1, 1]), Ok(1));
    assert_eq!(manager.focus_right(), Ok(()));
    manager.get_focused_pane().unwrap().set_view(PaneView::Source);
    manager
}

#[test]
fn new_screen_shows_the_small_profile() {
    let mut manager = ScreenManager::new().unwrap();
    assert_eq!(manager.current_pane_name(), SMALL_SCREEN_STR);
    assert_eq!(SMALL_SCREEN_STR, "Defualt (Small)");
    assert_eq!(LARGE_SCREEN_STR, "Defualt (Large)");
    assert!(!manager.is_full_screen());
    assert!(manager.uses_default_pane_profile());
    assert_eq!(manager.pending_mouse_move(), None);
    assert_eq!(focused(&mut manager), Pane { id: 0, view: PaneView::Terminal });
    assert_eq!(manager.get_focused_view(), Ok(PaneView::Terminal));
    assert_eq!(
        manager.get_flattened_layout(screen()).unwrap(),
        vec![entry(0, PaneView::Terminal, true, screen())]
    );
}

#[test]
fn new_screen_registers_both_built_in_profiles() {
    let manager = ScreenManager::new().unwrap();
    let mut names = manager.get_available_pane_profiles();
    names.sort();
    assert_eq!(names, vec![LARGE_SCREEN_STR.to_string(), SMALL_SCREEN_STR.to_string()]);
}

#[test]
fn split_and_merge_on_the_small_profile() {
    let mut manager = ScreenManager::new().unwrap();
    assert_eq!(manager.split_focused_pane(Direction::Horizontal, [1, 1]), Ok(1));
    let entries = manager.get_flattened_layout(screen()).unwrap();
    assert_eq!(
        entries,
        vec![
            entry(0, PaneView::Terminal, true, rect(0, 0, 40, 24)),
            entry(1, PaneView::Terminal, false, rect(40, 0, 40, 24)),
        ]
    );
    assert_eq!(manager.get_current_pane_mut().unwrap().merge(0, 1), Ok(()));
    assert_eq!(
        manager.get_flattened_layout(screen()).unwrap(),
        vec![entry(0, PaneView::Terminal, true, screen())]
    );
}

#[test]
fn set_pane_switches_the_profile_or_reports_an_unknown_name() {
    let mut manager = ScreenManager::new().unwrap();
    assert_eq!(manager.set_pane(LARGE_SCREEN_STR), Ok(()));
    assert_eq!(manager.current_pane_name(), LARGE_SCREEN_STR);
    assert_eq!(manager.get_flattened_layout(screen()).unwrap().len(), 3);
    assert_eq!(manager.set_pane("no such profile"), Err(LayoutError::NotFound));
    assert_eq!(manager.current_pane_name(), LARGE_SCREEN_STR);
    assert_eq!(manager.set_pane(""), Err(LayoutError::NotFound));
}

#[test]
fn set_small_and_large_screen_switch_between_the_built_in_profiles() {
    let mut manager = ScreenManager::new().unwrap();
    manager.set_large_screen();
    assert_eq!(manager.current_pane_name(), LARGE_SCREEN_STR);
    assert_eq!(
        manager.get_flattened_layout(rect(0, 0, 160, 48)).unwrap(),
        vec![
            entry(1, PaneView::Source, false, rect(0, 0, 80, 36)),
            entry(2, PaneView::Trace, false, rect(80, 0, 80, 36)),
            entry(0, PaneView::Terminal, true, rect(0, 36, 160, 12)),
        ]
    );
    manager.set_small_screen();
    assert_eq!(manager.current_pane_name(), SMALL_SCREEN_STR);
    assert_eq!(manager.get_flattened_layout(screen()).unwrap().len(), 1);
}

#[test]
fn profiles_keep_their_own_layout() {
    let mut manager = ScreenManager::new().unwrap();
    assert_eq!(manager.split_focused_pane(Direction::Vertical, [1, 1]), Ok(1));
    manager.set_large_screen();
    assert_eq!(manager.split_focused_pane(Direction::Vertical, [1, 1]), Ok(3));
    assert_eq!(manager.get_flattened_layout(screen()).unwrap().len(), 4);
    manager.set_small_screen();
    assert_eq!(manager.get_flattened_layout(screen()).unwrap().len(), 2);
}

#[test]
fn add_pane_manager_registers_and_overwrites() {
    let mut manager = ScreenManager::new().unwrap();
    let mut custom = PaneManager::default_small_screen().unwrap();
    assert_eq!(custom.split(0, Direction::Horizontal, [1, 1]), Ok(1));
    manager.add_pane_manager("custom", custom);
    assert_eq!(manager.get_available_pane_profiles().len(), 3);
    assert_eq!(manager.set_pane("custom"), Ok(()));
    assert_eq!(manager.get_flattened_layout(screen()).unwrap().len(), 2);
    manager.add_pane_manager("custom", PaneManager::default_large_screen().unwrap());
    assert_eq!(manager.get_available_pane_profiles().len(), 3);
    assert_eq!(manager.get_flattened_layout(screen()).unwrap().len(), 3);
    manager.add_pane_manager(SMALL_SCREEN_STR, PaneManager::default_large_screen().unwrap());
    manager.set_small_screen();
    assert_eq!(manager.get_flattened_layout(screen()).unwrap().len(), 3);
}

#[test]
fn use_default_pane_profile_stores_the_flag() {
    let mut manager = ScreenManager::new().unwrap();
    manager.use_default_pane_profile(false);
    assert!(!manager.uses_default_pane_profile());
    manager.use_default_pane_profile(true);
    assert!(manager.uses_default_pane_profile());
}

#[test]
fn toggle_full_screen_is_its_own_inverse() {
    let mut manager = two_panes();
    let before = manager.get_flattened_layout(screen()).unwrap();
    manager.toggle_full_screen();
    assert!(manager.is_full_screen());
    manager.toggle_full_screen();
    assert!(!manager.is_full_screen());
    assert_eq!(manager.get_flattened_layout(screen()).unwrap(), before);
    manager.toggle_full_screen();
    let full = manager.get_flattened_layout(screen()).unwrap();
    manager.toggle_full_screen();
    manager.toggle_full_screen();
    assert_eq!(manager.get_flattened_layout(screen()).unwrap(), full);
}

#[test]
fn full_screen_draws_the_focused_pane_alone() {
    let mut manager = two_panes();
    manager.toggle_full_screen();
    assert_eq!(
        manager.get_flattened_layout(rect(3, 4, 70, 20)).unwrap(),
        vec![entry(1, PaneView::Source, true, rect(3, 4, 70, 20))]
    );
    assert_eq!(manager.focus_left(), Ok(()));
    assert_eq!(
        manager.get_flattened_layout(screen()).unwrap(),
        vec![entry(0, PaneView::Terminal, true, screen())]
    );
}

#[test]
fn set_mouse_move_records_the_last_position() {
    let mut manager = ScreenManager::new().unwrap();
    manager.set_mouse_move(3, 4);
    assert_eq!(manager.pending_mouse_move(), Some(Point { x: 3, y: 4 }));
    manager.set_mouse_move(9, 1);
    assert_eq!(manager.pending_mouse_move(), Some(Point { x: 9, y: 1 }));
}

#[test]
fn set_mouse_move_in_full_screen_changes_nothing() {
    let mut manager = ScreenManager::new().unwrap();
    manager.toggle_full_screen();
    manager.set_mouse_move(3, 4);
    assert_eq!(manager.pending_mouse_move(), None);
    manager.toggle_full_screen();
    manager.set_mouse_move(5, 6);
    manager.toggle_full_screen();
    manager.set_mouse_move(7, 8);
    assert_eq!(manager.pending_mouse_move(), Some(Point { x: 5, y: 6 }));
}

#[test]
fn take_mouse_move_hands_the_position_out_once() {
    let mut manager = ScreenManager::new().unwrap();
    assert_eq!(manager.take_mouse_move(), None);
    manager.set_mouse_move(5, 6);
    assert_eq!(manager.take_mouse_move(), Some(Point { x: 5, y: 6 }));
    assert_eq!(manager.take_mouse_move(), None);
    assert_eq!(manager.pending_mouse_move(), None);
}

#[test]
fn take_mouse_move_in_full_screen_drops_the_position() {
    let mut manager = ScreenManager::new().unwrap();
    manager.set_mouse_move(5, 6);
    manager.toggle_full_screen();
    assert_eq!(manager.take_mouse_move(), None);
    manager.toggle_full_screen();
    assert_eq!(manager.take_mouse_move(), None);
}

#[test]
fn enter_terminal_is_refused_in_full_screen() {
    let mut manager = two_panes();
    manager.toggle_full_screen();
    assert_eq!(manager.enter_terminal(), Err(LayoutError::InvalidState));
    assert_eq!(focused(&mut manager), Pane { id: 1, view: PaneView::Source });
}

#[test]
fn enter_terminal_moves_the_focus_to_the_terminal() {
    let mut manager = two_panes();
    assert_eq!(manager.enter_terminal(), Ok(()));
    assert_eq!(focused(&mut manager), Pane { id: 0, view: PaneView::Terminal });
    assert_eq!(manager.get_flattened_layout(screen()).unwrap().len(), 2);
}

#[test]
fn enter_terminal_makes_the_focused_pane_the_terminal_where_there_is_none() {
    let mut manager = ScreenManager::new().unwrap();
    manager.get_focused_pane().unwrap().set_view(PaneView::Trace);
    assert_eq!(manager.enter_terminal(), Ok(()));
    assert_eq!(focused(&mut manager), Pane { id: 0, view: PaneView::Terminal });
}

#[test]
fn focus_moves_in_the_active_profile() {
    let mut manager = ScreenManager::new().unwrap();
    manager.set_large_screen();
    assert_eq!(manager.focus_up(), Ok(()));
    assert_eq!(focused(&mut manager).id, 1);
    assert_eq!(manager.focus_down(), Ok(()));
    assert_eq!(focused(&mut manager).id, 0);
    assert_eq!(manager.focus_right(), Ok(()));
    assert_eq!(focused(&mut manager).id, 2);
    assert_eq!(manager.focus_left(), Ok(()));
    assert_eq!(focused(&mut manager).id, 0);
    manager.set_small_screen();
    assert_eq!(focused(&mut manager).id, 0);
}

#[test]
fn split_focused_pane_splits_the_pane_that_has_the_focus() {
    let mut manager = ScreenManager::new().unwrap();
    manager.set_large_screen();
    assert_eq!(manager.focus_up(), Ok(()));
    assert_eq!(manager.split_focused_pane(Direction::Vertical, [1, 2]), Ok(3));
    assert_eq!(
        manager.get_flattened_layout(rect(0, 0, 160, 48)).unwrap(),
        vec![
            entry(1, PaneView::Source, true, rect(0, 0, 80, 12)),
            entry(3, PaneView::Source, false, rect(0, 12, 80, 24)),
            entry(2, PaneView::Trace, false, rect(80, 0, 80, 36)),
            entry(0, PaneView::Terminal, false, rect(0, 36, 160, 12)),
        ]
    );
}

#[test]
fn close_of_the_last_pane_is_unmergeable() {
    let mut manager = ScreenManager::new().unwrap();
    manager.get_focused_pane().unwrap().set_view(PaneView::Source);
    assert_eq!(manager.close_focused_pane(), Err(LayoutError::Unmergeable));
    assert_eq!(
        manager.get_flattened_layout(screen()).unwrap(),
        vec![entry(0, PaneView::Source, true, screen())]
    );
}

#[test]
fn close_of_a_terminal_pane_is_an_invalid_operation() {
    let mut manager = ScreenManager::new().unwrap();
    assert_eq!(manager.close_focused_pane(), Err(LayoutError::InvalidOperation));
    assert_eq!(manager.split_focused_pane(Direction::Horizontal, [1, 1]), Ok(1));
    assert_eq!(manager.close_focused_pane(), Err(LayoutError::InvalidOperation));
    manager.set_large_screen();
    let before = manager.get_flattened_layout(screen()).unwrap();
    assert_eq!(manager.close_focused_pane(), Err(LayoutError::InvalidOperation));
    assert_eq!(manager.get_flattened_layout(screen()).unwrap(), before);
}

/// A screen with the panes 0 (terminal), 1 (source) and 2 (trace) side by
/// side, and the focus on pane 1.
fn three_panes() -> ScreenManager {
    let mut manager = two_panes();
    assert_eq!(manager.split_focused_pane(Direction::Horizontal, [1, 1]), Ok(2));
    assert_eq!(manager.focus_right(), Ok(()));
    manager.get_focused_pane().unwrap().set_view(PaneView::Trace);
    assert_eq!(manager.focus_left(), Ok(()));
    assert_eq!(focused(&mut manager), Pane { id: 1, view: PaneView::Source });
    manager
}

#[test]
fn close_merges_the_focused_pane_with_its_sibling_on_the_left() {
    let mut manager = three_panes();
    assert_eq!(manager.focus_right(), Ok(()));
    assert_eq!(manager.close_focused_pane(), Ok(()));
    assert_eq!(
        manager.get_flattened_layout(screen()).unwrap(),
        vec![
            entry(0, PaneView::Terminal, false, rect(0, 0, 40, 24)),
            entry(2, PaneView::Trace, true, rect(40, 0, 40, 24)),
        ]
    );
}

#[test]
fn close_merges_the_focused_pane_with_its_sibling_on_the_right() {
    let mut manager = three_panes();
    assert_eq!(manager.close_focused_pane(), Ok(()));
    assert_eq!(
        manager.get_flattened_layout(screen()).unwrap(),
        vec![
            entry(0, PaneView::Terminal, false, rect(0, 0, 40, 24)),
            entry(1, PaneView::Source, true, rect(40, 0, 40, 24)),
        ]
    );
}

#[test]
fn close_merges_the_focused_pane_with_its_sibling_above_or_below() {
    let mut manager = ScreenManager::new().unwrap();
    manager.get_focused_pane().unwrap().set_view(PaneView::Memory);
    assert_eq!(manager.split_focused_pane(Direction::Vertical, [1, 1]), Ok(1));
    assert_eq!(manager.close_focused_pane(), Ok(()));
    assert_eq!(
        manager.get_flattened_layout(screen()).unwrap(),
        vec![entry(0, PaneView::Memory, true, screen())]
    );
    assert_eq!(manager.split_focused_pane(Direction::Vertical, [1, 1]), Ok(2));
    assert_eq!(manager.focus_down(), Ok(()));
    assert_eq!(manager.close_focused_pane(), Ok(()));
    assert_eq!(
        manager.get_flattened_layout(screen()).unwrap(),
        vec![entry(2, PaneView::Memory, true, screen())]
    );
}

#[test]
fn close_never_discards_a_pane_that_displays_the_terminal() {
    let mut manager = two_panes();
    let before = manager.get_flattened_layout(screen()).unwrap();
    assert_eq!(manager.close_focused_pane(), Err(LayoutError::Unmergeable));
    assert_eq!(manager.get_flattened_layout(screen()).unwrap(), before);
    assert_eq!(focused(&mut manager), Pane { id: 1, view: PaneView::Source });
    assert_eq!(manager.focus_left(), Ok(()));
    assert_eq!(manager.close_focused_pane(), Err(LayoutError::InvalidOperation));
    assert_eq!(manager.get_flattened_layout(screen()).unwrap()[0].view, PaneView::Terminal);
}

#[test]
fn close_restores_the_focus_after_every_failed_attempt() {
    let mut manager = three_panes();
    assert_eq!(manager.split_focused_pane(Direction::Vertical, [1, 1]), Ok(3));
    assert_eq!(manager.focus_right(), Ok(()));
    assert_eq!(focused(&mut manager).id, 2);
    let before = manager.get_flattened_layout(screen()).unwrap();
    assert_eq!(manager.close_focused_pane(), Err(LayoutError::Unmergeable));
    assert_eq!(manager.get_flattened_layout(screen()).unwrap(), before);
    assert_eq!(focused(&mut manager).id, 2);
}

#[test]
fn close_is_unmergeable_where_no_neighbour_is_the_sibling() {
    let mut manager = ScreenManager::new().unwrap();
    manager.set_large_screen();
    assert_eq!(manager.focus_up(), Ok(()));
    let before = manager.get_flattened_layout(rect(0, 0, 160, 48)).unwrap();
    assert_eq!(manager.close_focused_pane(), Err(LayoutError::Unmergeable));
    assert_eq!(manager.get_flattened_layout(rect(0, 0, 160, 48)).unwrap(), before);
    assert_eq!(focused(&mut manager), Pane { id: 1, view: PaneView::Source });
}

#[test]
fn close_in_the_large_profile_from_the_trace_pane() {
    let mut manager = ScreenManager::new().unwrap();
    manager.set_large_screen();
    manager.get_current_pane_mut().unwrap().set_viewport(rect(0, 0, 160, 48));
    assert_eq!(manager.focus_right(), Ok(()));
    assert_eq!(focused(&mut manager).id, 2);
    assert_eq!(manager.close_focused_pane(), Err(LayoutError::Unmergeable));
    assert_eq!(focused(&mut manager).id, 2);
    manager.get_current_pane_mut().unwrap().set_viewport(rect(0, 0, 1, 48));
    assert_eq!(manager.close_focused_pane(), Ok(()));
    assert_eq!(
        manager.get_flattened_layout(rect(0, 0, 160, 48)).unwrap(),
        vec![
            entry(2, PaneView::Trace, true, rect(0, 0, 160, 36)),
            entry(0, PaneView::Terminal, false, rect(0, 36, 160, 12)),
        ]
    );
}

#[test]
fn get_current_pane_hands_out_the_active_profile() {
    let mut manager = ScreenManager::new().unwrap();
    assert_eq!(manager.get_current_pane().unwrap().viewport(), screen());
    manager.set_large_screen();
    assert_eq!(manager.get_current_pane().unwrap().viewport(), rect(0, 0, 160, 48));
    manager.get_current_pane_mut().unwrap().set_viewport(rect(0, 0, 10, 10));
    assert_eq!(manager.get_current_pane().unwrap().viewport(), rect(0, 0, 10, 10));
}
