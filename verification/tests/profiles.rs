use debug_frontend::geometry::Direction;
use debug_frontend::window::pane::PaneManager;
use debug_frontend::window::profiles::ProfileTable;

fn panes(manager: &PaneManager) -> usize {
    manager.get_flattened_layout(manager.viewport()).unwrap().len()
}

#[test]
fn a_new_table_is_empty() {
    let table = ProfileTable::new();
    assert!(table.names().is_empty());
    assert!(!table.contains("small"));
    assert!(!table.contains(""));
    assert!(table.get("small").is_none());
}

#[test]
fn insert_registers_a_manager_under_its_name() {
    let mut table = ProfileTable::new();
    table.insert("small", PaneManager::default_small_screen().unwrap());
    table.insert("large", PaneManager::default_large_screen().unwrap());
    assert!(table.contains("small"));
    assert!(table.contains("large"));
    assert!(!table.contains("Small"));
    assert_eq!(table.names(), vec!["small".to_string(), "large".to_string()]);
    assert_eq!(panes(table.get("small").unwrap()), 1);
    assert_eq!(panes(table.get("large").unwrap()), 3);
    assert!(table.get("medium").is_none());
}

#[test]
fn insert_under_a_known_name_takes_the_place_of_the_old_manager() {
    let mut table = ProfileTable::new();
    table.insert("a", PaneManager::default_small_screen().unwrap());
    table.insert("b", PaneManager::default_small_screen().unwrap());
    table.insert("a", PaneManager::default_large_screen().unwrap());
    assert_eq!(table.names(), vec!["a".to_string(), "b".to_string()]);
    assert_eq!(panes(table.get("a").unwrap()), 3);
    assert_eq!(panes(table.get("b").unwrap()), 1);
}

#[test]
fn get_mut_changes_the_manager_in_the_table() {
    let mut table = ProfileTable::new();
    table.insert("a", PaneManager::default_small_screen().unwrap());
    table.insert("b", PaneManager::default_small_screen().unwrap());
    assert_eq!(table.get_mut("b").unwrap().split(0, Direction::Vertical, [1, 1]), Ok(1));
    assert_eq!(panes(table.get("a").unwrap()), 1);
    assert_eq!(panes(table.get("b").unwrap()), 2);
    assert!(table.get_mut("c").is_none());
}

#[test]
fn names_are_told_apart_letter_by_letter() {
    let mut table = ProfileTable::new();
    table.insert("", PaneManager::default_small_screen().unwrap());
    table.insert("a", PaneManager::default_large_screen().unwrap());
    table.insert("a ", PaneManager::default_small_screen().unwrap());
    assert_eq!(table.names().len(), 3);
    assert_eq!(panes(table.get("").unwrap()), 1);
    assert_eq!(panes(table.get("a").unwrap()), 3);
    assert_eq!(panes(table.get("a ").unwrap()), 1);
}
