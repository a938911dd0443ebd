use vstd::prelude::*;

use crate::command::{Action, Command};
use crate::container::{
    Container, LayoutType, WindowId, FrameId, deref_all, deref_opt, repositioned_leaves,
    removed_below, node_unflagged,
};
use crate::workspace::{
    Workspace, node_at, changed_at, group_path, adding, removing, relayouting, is_new_leaf,
    parent_path_of, focus_after_removal, focus_on_window, moved_as, path_after_clean,
    focus_cycled,
};

verus! {

/// The container that has the focus in `w`.
pub open spec fn focused(w: Workspace) -> Container {
    node_at(w.container, w.focus@)->0
}

/// What the event loop does once the focus moved in `w`: raise the frame
/// of the focused container, if it has one.
pub open spec fn raise_action(w: Workspace) -> Action {
    match focused(w).frame_win_id {
        Some(f) => Action::Raise(f),
        None => Action::Nothing,
    }
}

/// What closing the focused window of `w` asks for: to kill its client
/// window, or its frame when it has no client window; nothing when the
/// focused container has no frame.
pub open spec fn close_action(w: Workspace) -> Action {
    let n = focused(w);
    match n.frame_win_id {
        Some(f) => match n.main_win_id {
            Some(win) => Action::Kill(win),
            None => Action::Kill(f),
        },
        None => Action::Nothing,
    }
}

/// The window manager's model: a fixed set of workspaces and the index of
/// the active one, to which every tree operation goes.
pub struct WmState {
    pub current_workspace: usize,
    pub num_workspaces: usize,
    pub workspaces: Vec<Workspace>,
}

impl WmState {
    /// One workspace per index below `num_workspaces`, the active one in
    /// range, each well formed.
    pub open spec fn wf(&self) -> bool {
        &&& self.workspaces@.len() == self.num_workspaces
        &&& self.current_workspace < self.num_workspaces
        &&& forall|i: int| 0 <= i < self.workspaces@.len() ==> (#[trigger] self.workspaces@[i]).wf()
    }

    /// The active workspace.
    pub open spec fn current(&self) -> Workspace {
        self.workspaces@[self.current_workspace as int]
    }

    /// `self` is `o` with at most the active workspace changed.
    pub open spec fn only_current_changed(&self, o: WmState) -> bool {
        &&& self.current_workspace == o.current_workspace
        &&& self.num_workspaces == o.num_workspaces
        &&& self.workspaces@ == o.workspaces@.update(o.current_workspace as int, self.current())
    }

    /// `num_workspaces` empty workspaces over a screen of `width` by
    /// `height`; the first one is active.
    pub fn new(num_workspaces: usize, width: u32, height: u32) -> (s: WmState)
        requires
            num_workspaces >= 1,
        ensures
            s.wf(),
            s.current_workspace == 0,
            s.num_workspaces == num_workspaces,
            forall|i: int|
                0 <= i < num_workspaces ==> {
                    let w = #[trigger] s.workspaces@[i];
                    &&& w.focus@.len() == 0
                    &&& w.container.children@.len() == 0
                    &&& w.container.geometry.width == width
                    &&& w.container.geometry.height == height
                    &&& w.container.geometry.x == 0
                    &&& w.container.geometry.y == 0
                    &&& w.container.layout_type == LayoutType::Horizontal
                    &&& w.container.frame_win_id is None
                    &&& w.container.main_win_id is None
                    &&& !w.container.is_repositioned
                    &&& !w.container.remove_flag
                },
    {
        let mut workspaces: Vec<Workspace> = Vec::new();
        let mut i: usize = 0;
        while i < num_workspaces
            invariant
                i <= num_workspaces,
                workspaces@.len() == i,
                forall|j: int|
                    0 <= j < i ==> {
                        let w = #[trigger] workspaces@[j];
                        &&& w.wf()
                        &&& w.focus@.len() == 0
                        &&& w.container.children@.len() == 0
                        &&& w.container.geometry.width == width
                        &&& w.container.geometry.height == height
                        &&& w.container.geometry.x == 0
                        &&& w.container.geometry.y == 0
                        &&& w.container.layout_type == LayoutType::Horizontal
                        &&& w.container.frame_win_id is None
                        &&& w.container.main_win_id is None
                        &&& !w.container.is_repositioned
                        &&& !w.container.remove_flag
                    },
            decreases num_workspaces - i,
        {
            workspaces.push(Workspace::new(width, height));
            i = i + 1;
        }
        WmState { current_workspace: 0, num_workspaces, workspaces }
    }

    /// Adds a leaf for the window `client_win_id` in the frame
    /// `frame_win_id` to the active workspace (see
    /// `Workspace::insert_window`); the new leaf gets the focus.
    pub fn new_container(&mut self, client_win_id: WindowId, frame_win_id: FrameId) -> (r: &Container)
        requires
            old(self).wf(),
        ensures
            final(self).wf(),
            final(self).only_current_changed(*old(self)),
            exists|child: Container|
                #[trigger] is_new_leaf(child, client_win_id, frame_win_id) && changed_at(
                    old(self).current().container,
                    final(self).current().container,
                    group_path(old(self).current().focus@),
                    adding(child),
                ),
            node_at(old(self).current().container, group_path(old(self).current().focus@)) matches Some(x)
                && final(self).current().focus@ == group_path(old(self).current().focus@).push(
                x.children@.len() as usize,
            ),
            Some(*r) == node_at(final(self).current().container, final(self).current().focus@),
    {
        let cur = self.current_workspace;
        let mut ws = self.workspaces.remove(cur);
        assert(ws.wf());
        ws.insert_window(client_win_id, frame_win_id);
        self.workspaces.insert(cur, ws);
        assert(self.workspaces@ =~= old(self).workspaces@.update(cur as int, ws));
        self.workspaces[cur].get_focused_container()
    }

    /// Marks the window `window_id` of the active workspace for removal (see
    /// `Workspace::remove_container`).
    pub fn remove_container(&mut self, window_id: WindowId)
        requires
            old(self).wf(),
        ensures
            final(self).wf(),
            final(self).only_current_changed(*old(self)),
            match parent_path_of(old(self).current().container, window_id) {
                Some(pp) => {
                    &&& changed_at(old(self).current().container, final(self).current().container, pp, removing(window_id))
                    &&& final(self).current().focus@ == focus_after_removal(old(self).current().container, pp, window_id)
                },
                None => final(self).current() == old(self).current(),
            },
    {
        let cur = self.current_workspace;
        let mut ws = self.workspaces.remove(cur);
        assert(ws.wf());
        ws.remove_container(window_id);
        self.workspaces.insert(cur, ws);
        assert(self.workspaces@ =~= old(self).workspaces@.update(cur as int, ws));
    }

    /// Switches the group of the focused container of the active workspace
    /// to `layout_type` (see `Workspace::change_layout`).
    pub fn change_layout(&mut self, layout_type: LayoutType)
        requires
            old(self).wf(),
        ensures
            final(self).wf(),
            final(self).only_current_changed(*old(self)),
            changed_at(
                old(self).current().container,
                final(self).current().container,
                group_path(old(self).current().focus@),
                relayouting(layout_type),
            ),
            final(self).current().focus == old(self).current().focus,
    {
        let cur = self.current_workspace;
        let mut ws = self.workspaces.remove(cur);
        assert(ws.wf());
        ws.change_layout(layout_type);
        self.workspaces.insert(cur, ws);
        assert(self.workspaces@ =~= old(self).workspaces@.update(cur as int, ws));
    }

    /// The active workspace.
    pub fn get_current_workspace(&self) -> (r: &Workspace)
        requires
            self.wf(),
        ensures
            *r == self.current(),
    {
        &self.workspaces[self.current_workspace]
    }

    /// The active workspace, for editing in place; the caller keeps it well
    /// formed.
    pub fn get_current_workspace_mut(&mut self) -> (r: &mut Workspace)
        requires
            old(self).wf(),
        ensures
            *r == old(self).current(),
            final(self).current_workspace == old(self).current_workspace,
            final(self).num_workspaces == old(self).num_workspaces,
            final(self).workspaces@ == old(self).workspaces@.update(old(self).current_workspace as int, *final(r)),
    {
        let cur = self.current_workspace;
        &mut self.workspaces[cur]
    }

    /// Lays out the whole tree of the active workspace.
    pub fn reposition(&mut self)
        requires
            old(self).wf(),
        ensures
            final(self).wf(),
            final(self).only_current_changed(*old(self)),
            crate::container::repositioned_from(old(self).current().container, final(self).current().container),
            final(self).current().focus == old(self).current().focus,
    {
        let cur = self.current_workspace;
        let mut ws = self.workspaces.remove(cur);
        assert(ws.wf());
        ws.reposition();
        self.workspaces.insert(cur, ws);
        assert(self.workspaces@ =~= old(self).workspaces@.update(cur as int, ws));
    }

    /// Every repositioned leaf of the active workspace, depth first.
    pub fn get_repositioned_containers(&self) -> (r: Vec<&Container>)
        requires
            self.wf(),
        ensures
            deref_all(r@) == repositioned_leaves(self.current().container),
    {
        self.workspaces[self.current_workspace].get_repositioned_children()
    }

    /// Every container of the active workspace that is marked for removal,
    /// depth first.
    pub fn get_removed_containers(&self) -> (r: Vec<&Container>)
        requires
            self.wf(),
        ensures
            deref_all(r@) == removed_below(self.current().container),
    {
        self.workspaces[self.current_workspace].get_removed_children()
    }

    /// Detaches the subtrees of the active workspace that are marked for
    /// removal (see `Workspace::clean_removed_containers`).
    pub fn clean_removed_containers(&mut self)
        requires
            old(self).wf(),
        ensures
            final(self).wf(),
            final(self).only_current_changed(*old(self)),
            crate::container::node_cleaned(old(self).current().container, final(self).current().container),
            final(self).current().focus@ == (match path_after_clean(
                old(self).current().container,
                old(self).current().focus@,
            ) {
                Some(q) => q,
                None => Seq::empty(),
            }),
    {
        let cur = self.current_workspace;
        let mut ws = self.workspaces.remove(cur);
        assert(ws.wf());
        ws.clean_removed_containers();
        self.workspaces.insert(cur, ws);
        assert(self.workspaces@ =~= old(self).workspaces@.update(cur as int, ws));
    }

    /// Makes workspace `workspace` the active one; an index out of range is
    /// ignored. No window is moved or resized.
    pub fn change_workspace(&mut self, workspace: usize)
        requires
            old(self).wf(),
        ensures
            final(self).wf(),
            final(self).workspaces == old(self).workspaces,
            final(self).num_workspaces == old(self).num_workspaces,
            final(self).current_workspace == if workspace < old(self).num_workspaces {
                workspace
            } else {
                old(self).current_workspace
            },
    {
        if workspace < self.num_workspaces {
            self.current_workspace = workspace;
        }
    }

    /// Gives the focus to the window `window_id` of the active workspace
    /// (see `Workspace::set_current_focused_container`).
    pub fn set_focusing_container(&mut self, window_id: WindowId)
        requires
            old(self).wf(),
        ensures
            final(self).wf(),
            final(self).only_current_changed(*old(self)),
            final(self).current().container == old(self).current().container,
            final(self).current().focus@ == focus_on_window(
                old(self).current().container,
                window_id,
                old(self).current().focus@,
            ),
    {
        let cur = self.current_workspace;
        let mut ws = self.workspaces.remove(cur);
        assert(ws.wf());
        ws.set_current_focused_container(window_id);
        self.workspaces.insert(cur, ws);
        assert(self.workspaces@ =~= old(self).workspaces@.update(cur as int, ws));
    }

    /// The focused container of the active workspace, when it has a frame;
    /// none when the root has the focus.
    pub fn get_focusing_container(&self) -> (r: Option<&Container>)
        requires
            self.wf(),
        ensures
            ({
                let n = node_at(self.current().container, self.current().focus@)->0;
                deref_opt(r) == if n.frame_win_id is Some {
                    Some(n)
                } else {
                    None
                }
            }),
    {
        let c = self.workspaces[self.current_workspace].get_focused_container();
        if c.frame_win_id.is_some() {
            Some(c)
        } else {
            None
        }
    }

    /// Exchanges the window `client_win_id` with its left neighbour (see
    /// `Workspace::move_window`).
    pub fn move_window_to_left(&mut self, client_win_id: WindowId)
        requires
            old(self).wf(),
        ensures
            final(self).wf(),
            final(self).only_current_changed(*old(self)),
            moved_as(old(self).current(), final(self).current(), client_win_id, true),
    {
        let cur = self.current_workspace;
        let mut ws = self.workspaces.remove(cur);
        assert(ws.wf());
        ws.move_window(client_win_id, true);
        self.workspaces.insert(cur, ws);
        assert(self.workspaces@ =~= old(self).workspaces@.update(cur as int, ws));
    }

    /// Exchanges the window `client_win_id` with its right neighbour (see
    /// `Workspace::move_window`).
    pub fn move_window_to_right(&mut self, client_win_id: WindowId)
        requires
            old(self).wf(),
        ensures
            final(self).wf(),
            final(self).only_current_changed(*old(self)),
            moved_as(old(self).current(), final(self).current(), client_win_id, false),
    {
        let cur = self.current_workspace;
        let mut ws = self.workspaces.remove(cur);
        assert(ws.wf());
        ws.move_window(client_win_id, false);
        self.workspaces.insert(cur, ws);
        assert(self.workspaces@ =~= old(self).workspaces@.update(cur as int, ws));
    }

    /// Moves the focus of the active workspace to the previous live sibling
    /// of the focused container, in cyclic order.
    pub fn focus_left(&mut self)
        requires
            old(self).wf(),
        ensures
            final(self).wf(),
            final(self).only_current_changed(*old(self)),
            final(self).current().container == old(self).current().container,
            final(self).current().focus@ == focus_cycled(old(self).current().container, old(self).current().focus@, false),
    {
        let cur = self.current_workspace;
        let mut ws = self.workspaces.remove(cur);
        assert(ws.wf());
        ws.focus_sibling(false);
        self.workspaces.insert(cur, ws);
        assert(self.workspaces@ =~= old(self).workspaces@.update(cur as int, ws));
    }

    /// Moves the focus of the active workspace to the next live sibling of
    /// the focused container, in cyclic order.
    pub fn focus_right(&mut self)
        requires
            old(self).wf(),
        ensures
            final(self).wf(),
            final(self).only_current_changed(*old(self)),
            final(self).current().container == old(self).current().container,
            final(self).current().focus@ == focus_cycled(old(self).current().container, old(self).current().focus@, true),
    {
        let cur = self.current_workspace;
        let mut ws = self.workspaces.remove(cur);
        assert(ws.wf());
        ws.focus_sibling(true);
        self.workspaces.insert(cur, ws);
        assert(self.workspaces@ =~= old(self).workspaces@.update(cur as int, ws));
    }

    /// Runs `cmd` against the model and says what the event loop has to do:
    /// quitting exits; moving the focus raises the newly focused frame;
    /// closing kills the focused window; the terminal and user-defined
    /// commands are started.
    pub fn execute(&mut self, cmd: Command) -> (a: Action)
        requires
            old(self).wf(),
        ensures
            final(self).wf(),
            match cmd {
                Command::FocusLeft => {
                    &&& final(self).only_current_changed(*old(self))
                    &&& final(self).current().container == old(self).current().container
                    &&& final(self).current().focus@ == focus_cycled(old(self).current().container, old(self).current().focus@, false)
                    &&& a == raise_action(final(self).current())
                },
                Command::FocusRight => {
                    &&& final(self).only_current_changed(*old(self))
                    &&& final(self).current().container == old(self).current().container
                    &&& final(self).current().focus@ == focus_cycled(old(self).current().container, old(self).current().focus@, true)
                    &&& a == raise_action(final(self).current())
                },
                Command::Quit => *final(self) == *old(self) && a == Action::Exit,
                Command::CloseWindow => *final(self) == *old(self) && a == close_action(old(self).current()),
                Command::Terminal => *final(self) == *old(self) && (a matches Action::Spawn(p) && p@ == "alacritty"@),
                Command::Spawn(line) => *final(self) == *old(self) && a == Action::Spawn(line),
            },
    {
        match cmd {
            Command::Quit => Action::Exit,
            Command::FocusLeft => {
                self.focus_left();
                self.raise_focused()
            },
            Command::FocusRight => {
                self.focus_right();
                self.raise_focused()
            },
            Command::CloseWindow => {
                let c = self.workspaces[self.current_workspace].get_focused_container();
                match c.frame_win_id {
                    Some(f) => match c.main_win_id {
                        Some(win) => Action::Kill(win),
                        None => Action::Kill(f),
                    },
                    None => Action::Nothing,
                }
            },
            Command::Terminal => Action::Spawn("alacritty".to_owned()),
            Command::Spawn(line) => Action::Spawn(line),
        }
    }

    fn raise_focused(&self) -> (a: Action)
        requires
            self.wf(),
        ensures
            a == raise_action(self.current()),
    {
        let c = self.workspaces[self.current_workspace].get_focused_container();
        match c.frame_win_id {
            Some(f) => Action::Raise(f),
            None => Action::Nothing,
        }
    }

    /// Clears every repositioned flag of the active workspace, once a
    /// backend has applied the geometries that `get_repositioned_containers`
    /// reported.
    pub fn clear_repositioned(&mut self)
        requires
            old(self).wf(),
        ensures
            final(self).wf(),
            final(self).only_current_changed(*old(self)),
            node_unflagged(old(self).current().container, final(self).current().container),
            repositioned_leaves(final(self).current().container) == Seq::<Container>::empty(),
            final(self).current().focus == old(self).current().focus,
    {
        let cur = self.current_workspace;
        let mut ws = self.workspaces.remove(cur);
        assert(ws.wf());
        ws.clear_repositioned();
        self.workspaces.insert(cur, ws);
        assert(self.workspaces@ =~= old(self).workspaces@.update(cur as int, ws));
    }
}

} // verus!
