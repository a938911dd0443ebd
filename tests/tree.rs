use lazywm::command::{Action, Command};
use lazywm::container::{Container, Geometry, LayoutType};
use lazywm::wm_state::WmState;
use lazywm::workspace::Workspace;

fn leaf(id: u32) -> Container {
    Container::new(id + 100, id, LayoutType::Horizontal, Geometry::new(0, 0, 0, 0))
}

fn focused_window(state: &WmState) -> Option<u32> {
    state.get_focusing_container().and_then(|c| c.main_win_id)
}

#[test]
fn removal_is_two_phase() {
    let mut root = Container::new_without_window(LayoutType::Horizontal, Geometry::new(0, 0, 800, 600));
    root.add_child(leaf(1));
    root.add_child(leaf(2));
    root.remove_window(1);
    let removed: Vec<Option<u32>> = root.get_removed_children().iter().map(|c| c.main_win_id).collect();
    assert_eq!(removed, vec![Some(1)]);
    assert_eq!(root.find_child_by_window_id(1).map(|c| c.remove_flag), Some(true));
    root.clean_removed_children();
    assert!(root.find_child_by_window_id(1).is_none());
    assert!(root.get_removed_children().is_empty());
    assert_eq!(root.iter().len(), 1);
    assert_eq!(root.find_child_by_window_id(2).map(|c| c.main_win_id), Some(Some(2)));
}

#[test]
fn remove_unknown_window_is_noop() {
    let mut state = WmState::new(1, 800, 600);
    state.new_container(1, 101);
    state.remove_container(42);
    assert!(state.get_removed_containers().is_empty());
    assert_eq!(focused_window(&state), Some(1));
    state.set_focusing_container(42);
    assert_eq!(focused_window(&state), Some(1));
}

#[test]
fn removing_last_window_focuses_root() {
    let mut state = WmState::new(1, 800, 600);
    state.new_container(1, 101);
    state.remove_container(1);
    assert!(state.get_focusing_container().is_none());
    let removed: Vec<Option<u32>> = state.get_removed_containers().iter().map(|c| c.frame_win_id).collect();
    assert_eq!(removed, vec![Some(101)]);
    state.clean_removed_containers();
    assert_eq!(state.get_current_workspace().container.iter().len(), 0);
    state.new_container(2, 102);
    assert_eq!(focused_window(&state), Some(2));
    let leaves = state.get_repositioned_containers();
    assert_eq!(leaves.len(), 1);
    assert_eq!(leaves[0].get_dimensions(), (800, 600));
}

#[test]
fn focus_stays_live_through_inserts_and_removals() {
    let mut state = WmState::new(1, 1200, 800);
    for id in 1..=4 {
        state.new_container(id, id + 100);
    }
    state.remove_container(4);
    assert_eq!(focused_window(&state), Some(1));
    state.remove_container(3);
    assert_eq!(focused_window(&state), Some(1));
    state.remove_container(1);
    assert_eq!(focused_window(&state), Some(2));
    let focused = state.get_focusing_container().unwrap();
    assert!(!focused.remove_flag);
    state.new_container(5, 105);
    assert_eq!(focused_window(&state), Some(5));
    state.clean_removed_containers();
    assert_eq!(focused_window(&state), Some(5));
    let ids: Vec<Option<u32>> =
        state.get_current_workspace().container.iter().iter().map(|c| c.main_win_id).collect();
    assert_eq!(ids, vec![Some(2), Some(5)]);
}

#[test]
fn find_by_frame_and_window_handles() {
    let mut root = Container::new_without_window(LayoutType::Horizontal, Geometry::new(0, 0, 800, 600));
    root.add_child(leaf(1));
    let mut group = Container::new_without_window(LayoutType::Vertical, Geometry::new(0, 0, 0, 0));
    group.add_child(leaf(7));
    root.add_child(group);
    assert_eq!(root.find_child_by_frame_id(107).and_then(|c| c.main_win_id), Some(7));
    assert_eq!(root.find_child_by_window_id(7).and_then(|c| c.frame_win_id), Some(107));
    assert!(root.find_child_by_frame_id(7).is_none());
    assert!(root.find_child_by_window_id(107).is_none());
}

#[test]
fn next_focusing_container_is_cyclic() {
    let mut root = Container::new_without_window(LayoutType::Horizontal, Geometry::new(0, 0, 900, 600));
    root.add_child(leaf(1));
    assert!(root.get_next_focusing_container(1).is_none());
    root.add_child(leaf(2));
    root.add_child(leaf(3));
    assert_eq!(root.get_next_focusing_container(1).and_then(|c| c.main_win_id), Some(2));
    assert_eq!(root.get_next_focusing_container(3).and_then(|c| c.main_win_id), Some(1));
    root.remove_window(1);
    assert_eq!(root.get_next_focusing_container(3).and_then(|c| c.main_win_id), Some(2));
    assert!(root.get_next_focusing_container(9).is_none());
}

#[test]
fn moving_windows_swaps_neighbours() {
    let mut state = WmState::new(1, 900, 300);
    state.new_container(1, 101);
    state.new_container(2, 102);
    state.new_container(3, 103);
    state.move_window_to_left(3);
    let ids: Vec<Option<u32>> =
        state.get_current_workspace().container.iter().iter().map(|c| c.main_win_id).collect();
    assert_eq!(ids, vec![Some(1), Some(3), Some(2)]);
    let xs: Vec<u32> = state.get_current_workspace().container.iter().iter().map(|c| c.geometry.x).collect();
    assert_eq!(xs, vec![0, 300, 600]);
    assert_eq!(focused_window(&state), Some(3));
    state.move_window_to_right(1);
    let ids: Vec<Option<u32>> =
        state.get_current_workspace().container.iter().iter().map(|c| c.main_win_id).collect();
    assert_eq!(ids, vec![Some(3), Some(1), Some(2)]);
    state.move_window_to_right(2);
    state.move_window_to_left(3);
    let ids: Vec<Option<u32>> =
        state.get_current_workspace().container.iter().iter().map(|c| c.main_win_id).collect();
    assert_eq!(ids, vec![Some(3), Some(1), Some(2)]);
}

#[test]
fn new_container_returns_the_placed_container() {
    let mut state = WmState::new(1, 1000, 500);
    state.new_container(1, 101);
    let c = state.new_container(2, 102);
    assert_eq!(c.main_win_id, Some(2));
    assert_eq!(c.frame_win_id, Some(102));
    assert_eq!((c.get_position(), c.get_dimensions()), ((500, 0), (500, 500)));
}

#[test]
fn workspaces_are_independent() {
    let mut state = WmState::new(2, 640, 480);
    state.new_container(1, 101);
    state.change_workspace(1);
    assert!(state.get_focusing_container().is_none());
    state.new_container(2, 102);
    assert_eq!(state.get_current_workspace().container.iter().len(), 1);
    state.change_workspace(5);
    assert_eq!(state.current_workspace, 1);
    state.change_workspace(0);
    assert_eq!(focused_window(&state), Some(1));
    state.get_current_workspace_mut().reposition();
    assert_eq!(state.get_current_workspace().container.iter().len(), 1);
}

#[test]
fn new_workspace_is_empty() {
    let ws = Workspace::new(1024, 768);
    assert!(ws.focus.is_empty());
    assert_eq!(ws.container.geometry, Geometry::new(0, 0, 1024, 768));
    assert!(ws.get_repositioned_children().is_empty());
    assert!(ws.get_removed_children().is_empty());
    assert!(ws.get_focused_container().main_win_id.is_none());
}

#[test]
fn commands_resolve_by_name() {
    let custom = vec![
        ("browser".to_string(), "firefox --new-window".to_string()),
        ("quit".to_string(), "true".to_string()),
    ];
    assert_eq!(Command::from_name(&"quit".to_string(), &custom), Some(Command::Quit));
    assert_eq!(Command::from_name(&"focus_left".to_string(), &custom), Some(Command::FocusLeft));
    assert_eq!(Command::from_name(&"focus_right".to_string(), &custom), Some(Command::FocusRight));
    assert_eq!(Command::from_name(&"close_window".to_string(), &custom), Some(Command::CloseWindow));
    assert_eq!(Command::from_name(&"terminal".to_string(), &custom), Some(Command::Terminal));
    assert_eq!(
        Command::from_name(&"browser".to_string(), &custom),
        Some(Command::Spawn("firefox --new-window".to_string()))
    );
    assert_eq!(Command::from_name(&"unknown".to_string(), &custom), None);
}

#[test]
fn commands_give_actions() {
    let mut state = WmState::new(1, 800, 600);
    assert_eq!(state.execute(Command::CloseWindow), Action::Nothing);
    assert_eq!(state.execute(Command::FocusRight), Action::Nothing);
    state.new_container(1, 101);
    state.new_container(2, 102);
    assert_eq!(state.execute(Command::CloseWindow), Action::Kill(2));
    assert_eq!(state.execute(Command::FocusRight), Action::Raise(101));
    assert_eq!(state.execute(Command::FocusLeft), Action::Raise(102));
    assert_eq!(state.execute(Command::Quit), Action::Exit);
    assert_eq!(state.execute(Command::Terminal), Action::Spawn("alacritty".to_string()));
    assert_eq!(state.execute(Command::Spawn("xterm -e top".to_string())), Action::Spawn("xterm -e top".to_string()));
}

#[test]
fn moving_a_window_keeps_focus_on_its_container() {
    let mut state = WmState::new(1, 900, 300);
    state.new_container(1, 101);
    state.new_container(2, 102);
    state.new_container(3, 103);
    state.set_focusing_container(1);
    state.move_window_to_left(3);
    assert_eq!(focused_window(&state), Some(1));
    state.move_window_to_right(1);
    assert_eq!(focused_window(&state), Some(1));
    let ids: Vec<Option<u32>> =
        state.get_current_workspace().container.iter().iter().map(|c| c.main_win_id).collect();
    assert_eq!(ids, vec![Some(3), Some(1), Some(2)]);
    state.set_focusing_container(2);
    state.move_window_to_left(3);
    assert_eq!(focused_window(&state), Some(2));
}

#[test]
fn cleared_flags_are_not_reported_again() {
    let mut state = WmState::new(1, 800, 600);
    state.new_container(1, 101);
    state.new_container(2, 102);
    assert_eq!(state.get_repositioned_containers().len(), 2);
    state.clear_repositioned();
    assert!(state.get_repositioned_containers().is_empty());
    let root = &state.get_current_workspace().container;
    assert!(root.iter().iter().all(|c| !c.is_repositioned));
    assert_eq!(root.iter()[1].geometry, Geometry::new(400, 0, 400, 600));
    state.new_container(3, 103);
    assert_eq!(state.get_repositioned_containers().len(), 3);
}

#[test]
fn fresh_state_has_nothing_focused_or_reported() {
    let state = WmState::new(2, 1920, 1080);
    assert_eq!(state.num_workspaces, 2);
    assert_eq!(state.current_workspace, 0);
    assert!(state.get_focusing_container().is_none());
    assert!(state.get_repositioned_containers().is_empty());
    assert!(state.get_removed_containers().is_empty());
    for w in &state.workspaces {
        assert_eq!(w.container.geometry, Geometry::new(0, 0, 1920, 1080));
        assert!(w.container.frame_win_id.is_none() && w.container.main_win_id.is_none());
        assert!(!w.container.is_repositioned && !w.container.remove_flag);
    }
}
