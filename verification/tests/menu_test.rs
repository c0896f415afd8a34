use graph_algorithm_tui::menu::{MenuItem, MenuSignal, MenuState};

fn menu() -> MenuState {
    MenuState::new(vec![
        MenuItem::new("Traversal", vec![MenuItem::leaf("Dfs"), MenuItem::leaf("Bfs")]),
        MenuItem::new("MST", vec![MenuItem::leaf("Prim")]),
        MenuItem::new("Shortest path", vec![MenuItem::leaf("Dijkstra")]),
        MenuItem::leaf("Quit"),
    ])
}

fn names(state: &MenuState) -> Vec<String> {
    state.get_current_items().iter().map(|i| i.name.clone()).collect()
}

#[test]
fn new_menu_selects_the_first_item_of_the_top_level() {
    let state = menu();
    assert_eq!(state.selected, Some(0));
    assert!(state.nav_stack.is_empty());
    assert_eq!(state.last_selected_item, None);
    assert_eq!(names(&state), vec!["Traversal", "MST", "Shortest path", "Quit"]);
}

#[test]
fn item_constructors_keep_name_and_children() {
    let leaf = MenuItem::leaf("Dfs");
    assert_eq!(leaf.name, "Dfs");
    assert!(leaf.children.is_empty());
    let item = MenuItem::new("Traversal", vec![leaf.clone(), MenuItem::leaf("Bfs")]);
    assert_eq!(item.name, "Traversal");
    assert_eq!(item.children.len(), 2);
    assert_eq!(item.children[1].name, "Bfs");
    let copy = item.clone();
    assert_eq!(copy.name, "Traversal");
    assert_eq!(copy.children.len(), 2);
    assert_eq!(copy.children[0].name, "Dfs");
}

#[test]
fn down_wraps_from_the_last_to_the_first() {
    let mut state = menu();
    state.down();
    assert_eq!(state.selected, Some(1));
    state.down();
    state.down();
    assert_eq!(state.selected, Some(3));
    state.down();
    assert_eq!(state.selected, Some(0));
}

#[test]
fn up_wraps_from_the_first_to_the_last() {
    let mut state = menu();
    state.up();
    assert_eq!(state.selected, Some(3));
    state.up();
    assert_eq!(state.selected, Some(2));
}

#[test]
fn moves_select_the_first_item_where_none_was_selected() {
    let mut state = menu();
    state.selected = None;
    state.up();
    assert_eq!(state.selected, Some(0));
    state.selected = None;
    state.down();
    assert_eq!(state.selected, Some(0));
}

#[test]
fn moves_on_an_empty_level_change_nothing() {
    let mut state = MenuState::new(vec![]);
    state.up();
    assert_eq!(state.selected, Some(0));
    state.down();
    assert_eq!(state.selected, Some(0));
    state.selected = None;
    state.down();
    assert_eq!(state.selected, None);
}

#[test]
fn enter_opens_a_submenu_and_back_leaves_it() {
    let mut state = menu();
    state.down();
    assert!(matches!(state.enter(), MenuSignal::Nothing));
    assert_eq!(state.nav_stack, vec![1]);
    assert_eq!(state.selected, Some(0));
    assert_eq!(names(&state), vec!["Prim"]);
    state.back();
    assert!(state.nav_stack.is_empty());
    assert_eq!(state.selected, Some(1));
    assert_eq!(names(&state).len(), 4);
}

#[test]
fn enter_chooses_a_leaf() {
    let mut state = menu();
    assert!(matches!(state.enter(), MenuSignal::Nothing));
    state.down();
    match state.enter() {
        MenuSignal::Selected(name) => assert_eq!(name, "Bfs"),
        MenuSignal::Nothing => panic!("a leaf was entered"),
    }
    assert_eq!(state.last_selected_item, Some("Bfs".to_string()));
    assert_eq!(state.nav_stack, vec![0]);
    assert_eq!(state.selected, Some(1));
    state.back();
    assert_eq!(state.last_selected_item, None);
    assert_eq!(state.selected, Some(0));
}

#[test]
fn enter_without_a_selection_does_nothing() {
    let mut state = menu();
    state.selected = None;
    assert!(matches!(state.enter(), MenuSignal::Nothing));
    assert!(state.nav_stack.is_empty());
    assert_eq!(state.last_selected_item, None);
}

#[test]
fn enter_beyond_the_level_chooses_the_empty_name() {
    let mut state = menu();
    state.selected = Some(9);
    match state.enter() {
        MenuSignal::Selected(name) => assert_eq!(name, ""),
        MenuSignal::Nothing => panic!("nothing was opened"),
    }
    assert_eq!(state.last_selected_item, Some(String::new()));
}

#[test]
fn back_at_the_top_level_changes_nothing() {
    let mut state = menu();
    state.down();
    state.back();
    assert_eq!(state.selected, Some(1));
    assert!(state.nav_stack.is_empty());
}

#[test]
fn a_move_the_level_does_not_have_stays_on_the_level() {
    let mut state = menu();
    state.nav_stack.push(7);
    assert_eq!(names(&state).len(), 4);
    state.nav_stack.clear();
    state.nav_stack.push(0);
    state.nav_stack.push(1);
    assert!(state.get_current_items().is_empty());
}
