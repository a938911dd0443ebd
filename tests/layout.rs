use lazywm::container::{Container, Dimensionable, Geometry, LayoutType, Positionable};
use lazywm::wm_state::WmState;
use lazywm::workspace::Workspace;

fn geometry_of(c: &Container) -> (u32, u32, u32, u32) {
    let (x, y) = c.get_position();
    let (w, h) = c.get_dimensions();
    (x, y, w, h)
}

fn leaf(id: u32) -> Container {
    Container::new(id + 100, id, LayoutType::Horizontal, Geometry::new(0, 0, 0, 0))
}

#[test]
fn scenario_three_windows_tile_the_screen() {
    let mut state = WmState::new(1, 1920, 1080);
    state.new_container(1, 101);
    state.new_container(2, 102);
    state.new_container(3, 103);
    let leaves = state.get_repositioned_containers();
    let got: Vec<(Option<u32>, (u32, u32, u32, u32))> =
        leaves.iter().map(|c| (c.main_win_id, geometry_of(c))).collect();
    assert_eq!(
        got,
        vec![
            (Some(1), (0, 0, 640, 1080)),
            (Some(2), (640, 0, 640, 1080)),
            (Some(3), (1280, 0, 640, 1080)),
        ]
    );
}

#[test]
fn scenario_removing_first_of_two_moves_focus() {
    let mut state = WmState::new(1, 1920, 1080);
    state.new_container(1, 101);
    assert_eq!(state.get_focusing_container().unwrap().main_win_id, Some(1));
    state.new_container(2, 102);
    assert_eq!(state.get_focusing_container().unwrap().main_win_id, Some(2));
    let root = &state.get_current_workspace().container;
    let ids: Vec<Option<u32>> = root.iter().iter().map(|c| c.main_win_id).collect();
    assert_eq!(ids, vec![Some(1), Some(2)]);

    state.remove_container(1);
    assert_eq!(state.get_focusing_container().unwrap().main_win_id, Some(2));
    let root = &state.get_current_workspace().container;
    let live: Vec<&Container> = root.iter().iter().filter(|c| !c.remove_flag).collect();
    assert_eq!(live.len(), 1);
    assert_eq!(geometry_of(live[0]), (0, 0, 1920, 1080));

    state.clean_removed_containers();
    let root = &state.get_current_workspace().container;
    assert_eq!(root.iter().len(), 1);
    assert_eq!(state.get_focusing_container().unwrap().main_win_id, Some(2));
}

#[test]
fn scenario_focus_right_cycles_through_siblings() {
    let mut state = WmState::new(1, 1920, 1080);
    state.new_container(1, 101);
    state.new_container(2, 102);
    state.new_container(3, 103);
    state.set_focusing_container(1);
    assert_eq!(state.get_focusing_container().unwrap().main_win_id, Some(1));
    state.focus_right();
    assert_eq!(state.get_focusing_container().unwrap().main_win_id, Some(2));
    state.focus_right();
    assert_eq!(state.get_focusing_container().unwrap().main_win_id, Some(3));
    state.focus_right();
    assert_eq!(state.get_focusing_container().unwrap().main_win_id, Some(1));
}

#[test]
fn focus_left_cycles_backwards() {
    let mut state = WmState::new(1, 900, 600);
    state.new_container(1, 101);
    state.new_container(2, 102);
    state.new_container(3, 103);
    state.set_focusing_container(1);
    state.focus_left();
    assert_eq!(state.get_focusing_container().unwrap().main_win_id, Some(3));
    state.focus_left();
    assert_eq!(state.get_focusing_container().unwrap().main_win_id, Some(2));
}

#[test]
fn horizontal_partition_gives_remainder_to_last_child() {
    let mut root = Container::new_without_window(LayoutType::Horizontal, Geometry::new(10, 20, 1000, 500));
    root.add_child(leaf(1));
    root.add_child(leaf(2));
    root.add_child(leaf(3));
    let got: Vec<(u32, u32, u32, u32)> = root.iter().iter().map(geometry_of).collect();
    assert_eq!(got, vec![(10, 20, 333, 500), (343, 20, 333, 500), (676, 20, 334, 500)]);
    let total: u32 = got.iter().map(|g| g.2).sum();
    assert_eq!(total, 1000);
    for w in got.windows(2) {
        assert!(w[0].0 + w[0].2 <= w[1].0);
    }
}

#[test]
fn vertical_partition_splits_height() {
    let mut root = Container::new_without_window(LayoutType::Vertical, Geometry::new(0, 0, 800, 601));
    root.add_child(leaf(1));
    root.add_child(leaf(2));
    let got: Vec<(u32, u32, u32, u32)> = root.iter().iter().map(geometry_of).collect();
    assert_eq!(got, vec![(0, 0, 800, 300), (0, 300, 800, 301)]);
}

#[test]
fn floating_and_tabbed_children_get_parent_geometry() {
    for layout in [LayoutType::Floating, LayoutType::Tabbed] {
        let mut root = Container::new_without_window(layout, Geometry::new(5, 6, 700, 400));
        root.add_child(leaf(1));
        root.add_child(leaf(2));
        root.add_child(leaf(3));
        for c in root.iter() {
            assert_eq!(geometry_of(c), (5, 6, 700, 400));
        }
    }
}

#[test]
fn nested_groups_are_laid_out_recursively() {
    let mut root = Container::new_without_window(LayoutType::Horizontal, Geometry::new(0, 0, 1200, 800));
    root.add_child(leaf(1));
    let mut group = Container::new_without_window(LayoutType::Vertical, Geometry::new(0, 0, 0, 0));
    group.add_child(leaf(2));
    group.add_child(leaf(3));
    root.add_child(group);
    let inner: Vec<(u32, u32, u32, u32)> = root.iter()[1].iter().iter().map(geometry_of).collect();
    assert_eq!(inner, vec![(600, 0, 600, 400), (600, 400, 600, 400)]);
    let leaves: Vec<Option<u32>> = root.get_repositioned_children().iter().map(|c| c.main_win_id).collect();
    assert_eq!(leaves, vec![Some(1), Some(2), Some(3)]);
}

#[test]
fn reposition_twice_gives_same_geometries() {
    let mut ws = Workspace::new(1366, 768);
    ws.insert_window(1, 101);
    ws.insert_window(2, 102);
    ws.insert_window(3, 103);
    ws.reposition();
    let first: Vec<(u32, u32, u32, u32)> = ws.container.iter().iter().map(geometry_of).collect();
    ws.reposition();
    let second: Vec<(u32, u32, u32, u32)> = ws.container.iter().iter().map(geometry_of).collect();
    assert_eq!(first, second);
    assert_eq!(first, vec![(0, 0, 455, 768), (455, 0, 455, 768), (910, 0, 456, 768)]);
}

#[test]
fn empty_container_reposition_is_noop() {
    let mut root = Container::new_without_window(LayoutType::Horizontal, Geometry::new(0, 0, 100, 100));
    root.reposition();
    assert_eq!(root.iter().len(), 0);
    assert!(root.get_repositioned_children().is_empty());
}

#[test]
fn removed_child_is_skipped_by_layout() {
    let mut root = Container::new_without_window(LayoutType::Horizontal, Geometry::new(0, 0, 900, 300));
    root.add_child(leaf(1));
    root.add_child(leaf(2));
    root.add_child(leaf(3));
    root.remove_window(2);
    let kids = root.iter();
    assert!(kids[1].remove_flag);
    assert_eq!(geometry_of(&kids[0]), (0, 0, 450, 300));
    assert_eq!(geometry_of(&kids[1]), (300, 0, 300, 300));
    assert_eq!(geometry_of(&kids[2]), (450, 0, 450, 300));
}

#[test]
fn get_next_geometry_steps_along_the_axis() {
    let cur = Geometry::new(100, 50, 300, 200);
    let unit = Geometry::new(300, 100, 300, 100);
    assert_eq!(LayoutType::Horizontal.get_next_geometry(cur, unit), Geometry::new(400, 50, 300, 200));
    assert_eq!(LayoutType::Vertical.get_next_geometry(cur, unit), Geometry::new(100, 150, 300, 100));
    assert_eq!(LayoutType::Floating.get_next_geometry(cur, unit), cur);
    assert_eq!(LayoutType::Tabbed.get_next_geometry(cur, unit), cur);
}

#[test]
fn change_layout_relayouts_focused_group() {
    let mut state = WmState::new(1, 1000, 600);
    state.new_container(1, 101);
    state.new_container(2, 102);
    state.change_layout(LayoutType::Vertical);
    let root = &state.get_current_workspace().container;
    assert_eq!(root.layout_type, LayoutType::Vertical);
    let got: Vec<(u32, u32, u32, u32)> = root.iter().iter().map(geometry_of).collect();
    assert_eq!(got, vec![(0, 0, 1000, 300), (0, 300, 1000, 300)]);
    state.change_layout(LayoutType::Tabbed);
    let root = &state.get_current_workspace().container;
    for c in root.iter() {
        assert_eq!(geometry_of(c), (0, 0, 1000, 600));
    }
}
