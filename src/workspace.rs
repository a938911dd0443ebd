use vstd::prelude::*;

use crate::container::{
    Container, Geometry, LayoutType, WindowId, FrameId, same_own, is_live, live_count,
    live_rank, slot, child_positioned, children_positioned, repositioned_from,
    window_removed_from, node_cleaned, find_by_window, has_handle, lemma_removed_in_has,
    lemma_removed_in_sub, lemma_find_in_seq_sub, lemma_marked_window_reported, node_unflagged,
    lemma_children_unflagged_at, first_with_window, next_focus_index, cyclic_live,
    cyclic_live_index, repositioned_leaves, removed_below, deref_all, height,
    lemma_height_of_child, lemma_children_positioned_at, lemma_children_cleaned_at,
    lemma_next_live_from, lemma_first_with_window_found, marked, lemma_prev_live_from,
};

verus! {

/// One virtual desktop: a tree of containers and the container that has the
/// focus, given as the path of child indices that leads to it from the root.
pub struct Workspace {
    pub container: Container,
    pub focus: Vec<usize>,
}

/// The container that path `p` leads to from `c`.
pub open spec fn node_at(c: Container, p: Seq<usize>) -> Option<Container>
    decreases p.len(),
{
    if p.len() == 0 {
        Some(c)
    } else if p[0] < c.children@.len() {
        node_at(c.children@[p[0] as int], p.drop_first())
    } else {
        None
    }
}

/// Path `p` leads from `c` to a container that is not marked for removal.
pub open spec fn live_at(c: Container, p: Seq<usize>) -> bool {
    node_at(c, p) matches Some(x) && is_live(x)
}

/// `c` is `o` with the container at path `p` changed as `f` relates them,
/// and everything else as it was.
pub open spec fn changed_at(
    o: Container,
    c: Container,
    p: Seq<usize>,
    f: spec_fn(Container, Container) -> bool,
) -> bool
    decreases p.len(),
{
    if p.len() == 0 {
        f(o, c)
    } else {
        &&& same_own(o, c)
        &&& p[0] < o.children@.len()
        &&& c.children@.len() == o.children@.len()
        &&& forall|j: int|
            0 <= j < o.children@.len() && j != p[0] ==> c.children@[j] == o.children@[j]
        &&& changed_at(o.children@[p[0] as int], c.children@[p[0] as int], p.drop_first(), f)
    }
}

/// Path of the group that holds the container at `focus`: its parent, or the
/// root when the root itself has the focus.
pub open spec fn group_path(focus: Seq<usize>) -> Seq<usize> {
    if focus.len() > 0 {
        focus.drop_last()
    } else {
        focus
    }
}

/// `c` is `o` after `child` was appended to its children and the children
/// were laid out again.
pub open spec fn child_added(o: Container, c: Container, child: Container) -> bool {
    &&& same_own(o, c)
    &&& children_positioned(
        o.layout_type,
        o.geometry,
        live_count(o.children@.push(child)),
        o.children@.push(child),
        c.children@,
    )
}

/// `s` with its `i`-th and `i + 1`-th containers exchanged.
pub open spec fn swapped_next(s: Seq<Container>, i: int) -> Seq<Container> {
    s.update(i, s[i + 1]).update(i + 1, s[i])
}

/// `c` is `o` after its `i`-th and `i + 1`-th children were exchanged and
/// the children were laid out again.
pub open spec fn children_swapped(o: Container, c: Container, i: int) -> bool {
    let ss = swapped_next(o.children@, i);
    &&& same_own(o, c)
    &&& children_positioned(o.layout_type, o.geometry, live_count(ss), ss, c.children@)
}

/// `c` is a leaf that `insert_window` makes for the window `window_id` in
/// the frame `frame_id`: no children, a horizontal layout, an empty
/// geometry, no flag set.
pub open spec fn is_new_leaf(c: Container, window_id: WindowId, frame_id: FrameId) -> bool {
    &&& c.frame_win_id == Some(frame_id)
    &&& c.main_win_id == Some(window_id)
    &&& c.children@.len() == 0
    &&& c.layout_type == LayoutType::Horizontal
    &&& c.geometry == (Geometry { x: 0, y: 0, width: 0, height: 0 })
    &&& !c.is_repositioned
    &&& !c.remove_flag
}

/// `o` with its layout set to `layout`.
pub open spec fn with_layout(o: Container, layout: LayoutType) -> Container {
    Container { layout_type: layout, ..o }
}

/// Path from `c` to the parent of the first container, in depth-first
/// pre-order, whose window handle is `h`.
pub open spec fn parent_path_of(c: Container, h: WindowId) -> Option<Seq<usize>>
    decreases c,
{
    parent_path_in(c.children@, h)
}

/// Path from a parent with children `s` to the parent of the first container
/// under them, in depth-first pre-order, whose window handle is `h`.
pub open spec fn parent_path_in(s: Seq<Container>, h: WindowId) -> Option<Seq<usize>>
    decreases s,
{
    if s.len() == 0 {
        None
    } else {
        let p = parent_path_in(s.drop_last(), h);
        if p is Some {
            p
        } else if s.last().main_win_id == Some(h) {
            Some(Seq::empty())
        } else {
            match parent_path_of(s.last(), h) {
                Some(q) => Some(seq![(s.len() - 1) as usize] + q),
                None => None,
            }
        }
    }
}

/// Where path `p` leads after every subtree marked for removal is detached
/// from `c`; none when it passes through such a subtree.
pub open spec fn path_after_clean(c: Container, p: Seq<usize>) -> Option<Seq<usize>>
    decreases p.len(),
{
    if p.len() == 0 {
        Some(p)
    } else if p[0] < c.children@.len() && is_live(c.children@[p[0] as int]) {
        match path_after_clean(c.children@[p[0] as int], p.drop_first()) {
            Some(q) => Some(seq![live_rank(c.children@, p[0] as int) as usize] + q),
            None => None,
        }
    } else {
        None
    }
}


/// The relation of `changed_at` for appending `child` to a group.
pub open spec fn adding(child: Container) -> spec_fn(Container, Container) -> bool {
    |a: Container, b: Container| child_added(a, b, child)
}

/// The relation of `changed_at` for marking the window `h` for removal.
pub open spec fn removing(h: WindowId) -> spec_fn(Container, Container) -> bool {
    |a: Container, b: Container| window_removed_from(a, b, h)
}

/// The relation of `changed_at` for switching a group to `layout`.
pub open spec fn relayouting(layout: LayoutType) -> spec_fn(Container, Container) -> bool {
    |a: Container, b: Container| repositioned_from(with_layout(a, layout), b)
}

/// The relation of `changed_at` for exchanging the `i`-th and `i + 1`-th
/// children of a group.
pub open spec fn swapping(i: int) -> spec_fn(Container, Container) -> bool {
    |a: Container, b: Container| children_swapped(a, b, i)
}

/// Index of the child that the first child with window handle `h` of
/// `parent` exchanges places with, when it moves left (`to_left`) or right:
/// none at the end of the row, or when that child is marked for removal.
pub open spec fn move_target(parent: Container, h: WindowId, to_left: bool) -> Option<int> {
    match first_with_window(parent.children@, h) {
        Some(i) => if !is_live(parent.children@[i]) {
            None
        } else if to_left {
            if i > 0 {
                Some(i - 1)
            } else {
                None
            }
        } else if i + 1 < parent.children@.len() {
            Some(i + 1)
        } else {
            None
        },
        None => None,
    }
}

/// Path `q` after the `lo`-th and `lo + 1`-th children of the group at
/// path `pp` exchanged places: a path through one of them now goes through
/// the other index; any other path is unchanged.
pub open spec fn path_after_swap(q: Seq<usize>, pp: Seq<usize>, lo: int) -> Seq<usize>
    decreases pp.len(),
{
    if q.len() == 0 {
        q
    } else if pp.len() == 0 {
        if q[0] as int == lo {
            q.update(0, (lo + 1) as usize)
        } else if q[0] as int == lo + 1 {
            q.update(0, lo as usize)
        } else {
            q
        }
    } else if q[0] == pp[0] {
        seq![q[0]] + path_after_swap(q.drop_first(), pp.drop_first(), lo)
    } else {
        q
    }
}

/// `n` is `o` after the window `h` exchanged places with its left
/// (`to_left`) or right neighbour in its group and the group was laid out
/// again; the focus stays on the container that had it. `o` is unchanged
/// when the window cannot move (see `move_target`).
pub open spec fn moved_as(o: Workspace, n: Workspace, h: WindowId, to_left: bool) -> bool {
    match parent_path_of(o.container, h) {
        Some(pp) => match move_target(node_at(o.container, pp)->0, h, to_left) {
            Some(t) => {
                let i = first_with_window(node_at(o.container, pp)->0.children@, h)->0;
                let lo = if to_left {
                    t
                } else {
                    i
                };
                &&& changed_at(o.container, n.container, pp, swapping(lo))
                &&& n.focus@ == path_after_swap(o.focus@, pp, lo)
            },
            None => n == o,
        },
        None => n == o,
    }
}

/// Where the focus goes when it steps to the next (`forward`) or previous
/// live sibling, in cyclic order; it stays where it is when the root has it
/// or when it has no live sibling.
pub open spec fn focus_cycled(root: Container, focus: Seq<usize>, forward: bool) -> Seq<usize> {
    if focus.len() == 0 {
        focus
    } else {
        match node_at(root, focus.drop_last()) {
            Some(parent) => match cyclic_live(parent.children@, focus.last() as int, forward) {
                Some(j) => focus.drop_last().push(j as usize),
                None => focus,
            },
            None => focus,
        }
    }
}

/// Where the focus goes when the first child with window handle `h` of the
/// group at path `pp` goes: to its next live sibling in cyclic order; else
/// to the group itself, unless that is the root or is marked for removal;
/// else to the root.
pub open spec fn focus_after_removal(root: Container, pp: Seq<usize>, h: WindowId) -> Seq<usize> {
    match node_at(root, pp) {
        Some(parent) => match next_focus_index(parent.children@, h) {
            Some(j) => pp.push(j as usize),
            None => if pp.len() > 0 && is_live(parent) {
                pp
            } else {
                Seq::empty()
            },
        },
        None => Seq::empty(),
    }
}

/// Where the focus goes when the window `h` is chosen: to the first
/// container with that handle, unless it is marked for removal; the focus
/// `focus` stays otherwise.
pub open spec fn focus_on_window(root: Container, h: WindowId, focus: Seq<usize>) -> Seq<usize> {
    match parent_path_of(root, h) {
        Some(pp) => match node_at(root, pp) {
            Some(parent) => match first_with_window(parent.children@, h) {
                Some(i) => if is_live(parent.children@[i]) {
                    pp.push(i as usize)
                } else {
                    focus
                },
                None => focus,
            },
            None => focus,
        },
        None => focus,
    }
}

// ---------------------------------------------------------------------------
// Lemmas
// ---------------------------------------------------------------------------

pub proof fn lemma_node_at_append(c: Container, p: Seq<usize>, q: Seq<usize>)
    ensures
        node_at(c, p + q) == (match node_at(c, p) {
            Some(x) => node_at(x, q),
            None => None,
        }),
    decreases p.len(),
{
    if p.len() == 0 {
        assert(p + q =~= q);
    } else {
        assert((p + q).drop_first() =~= p.drop_first() + q);
        assert((p + q)[0] == p[0]);
        if p[0] < c.children@.len() {
            lemma_node_at_append(c.children@[p[0] as int], p.drop_first(), q);
        }
    }
}

pub proof fn lemma_node_at_push(c: Container, p: Seq<usize>, k: usize)
    ensures
        node_at(c, p.push(k)) == (match node_at(c, p) {
            Some(x) => if k < x.children@.len() {
                Some(x.children@[k as int])
            } else {
                None
            },
            None => None,
        }),
{
    lemma_node_at_append(c, p, seq![k]);
    assert(p + seq![k] =~= p.push(k));
    assert(seq![k].drop_first() =~= Seq::<usize>::empty());
    if let Some(x) = node_at(c, p) {
        if k < x.children@.len() {
            assert(node_at(x.children@[k as int], Seq::<usize>::empty()) == Some(x.children@[k as int]));
            assert(node_at(x, seq![k]) == Some(x.children@[k as int]));
        } else {
            assert(node_at(x, seq![k]) is None);
        }
    }
}

pub proof fn lemma_changed_at(o: Container, c: Container, p: Seq<usize>, f: spec_fn(Container, Container) -> bool)
    requires
        changed_at(o, c, p, f),
    ensures
        node_at(o, p) is Some,
        node_at(c, p) is Some,
        f(node_at(o, p)->0, node_at(c, p)->0),
        p.len() > 0 ==> same_own(o, c),
    decreases p.len(),
{
    if p.len() > 0 {
        lemma_changed_at(o.children@[p[0] as int], c.children@[p[0] as int], p.drop_first(), f);
    }
}

/// A layout pass changes no flag and no shape: a path that leads to a
/// container still leads to one, as live as before.
pub proof fn lemma_positioned_node_at(cg: Geometry, o: Container, c: Container, p: Seq<usize>)
    requires
        child_positioned(cg, o, c),
        node_at(o, p) is Some,
    ensures
        node_at(c, p) is Some,
        node_at(c, p)->0.remove_flag == node_at(o, p)->0.remove_flag,
    decreases p.len(),
{
    if p.len() > 0 && !o.remove_flag {
        let i = p[0] as int;
        lemma_children_positioned_at(o.layout_type, cg, live_count(o.children@), o.children@, c.children@, i);
        lemma_positioned_node_at(
            slot(o.layout_type, cg, live_count(o.children@), live_rank(o.children@, i)),
            o.children@[i],
            c.children@[i],
            p.drop_first(),
        );
    }
}

pub proof fn lemma_repositioned_node_at(o: Container, c: Container, p: Seq<usize>)
    requires
        repositioned_from(o, c),
        node_at(o, p) is Some,
    ensures
        node_at(c, p) is Some,
        node_at(c, p)->0.remove_flag == node_at(o, p)->0.remove_flag,
{
    if p.len() > 0 {
        let i = p[0] as int;
        lemma_children_positioned_at(o.layout_type, o.geometry, live_count(o.children@), o.children@, c.children@, i);
        lemma_positioned_node_at(
            slot(o.layout_type, o.geometry, live_count(o.children@), live_rank(o.children@, i)),
            o.children@[i],
            c.children@[i],
            p.drop_first(),
        );
    }
}

proof fn lemma_parent_path_prefix(s: Seq<Container>, h: WindowId, j: int)
    requires
        0 <= j <= s.len(),
        parent_path_in(s.subrange(0, j), h) is Some,
    ensures
        parent_path_in(s, h) == parent_path_in(s.subrange(0, j), h),
    decreases s.len() - j,
{
    if j < s.len() {
        assert(s.subrange(0, j + 1).drop_last() =~= s.subrange(0, j));
        lemma_parent_path_prefix(s, h, j + 1);
    } else {
        assert(s.subrange(0, j) =~= s);
    }
}

/// The path found for the window `h` leads to a group with a child that
/// has that handle.
pub proof fn lemma_parent_path_found(c: Container, h: WindowId)
    ensures
        parent_path_of(c, h) matches Some(pp) ==> node_at(c, pp) matches Some(x) && first_with_window(
            x.children@,
            h,
        ) is Some,
    decreases height(c),
{
    lemma_parent_path_in_found(c, c.children@, h);
}

proof fn lemma_parent_path_in_found(c: Container, s: Seq<Container>, h: WindowId)
    requires
        s.len() <= c.children@.len(),
        s =~= c.children@.subrange(0, s.len() as int),
    ensures
        parent_path_in(s, h) matches Some(pp) ==> node_at(c, pp) matches Some(x) && first_with_window(
            x.children@,
            h,
        ) is Some,
    decreases height(c), s.len(),
{
    if s.len() > 0 {
        let i = s.len() - 1;
        assert(c.children@.len() == c.children.len());
        assert(s.drop_last() =~= c.children@.subrange(0, i));
        lemma_parent_path_in_found(c, s.drop_last(), h);
        if parent_path_in(s.drop_last(), h) is None {
            if s.last().main_win_id == Some(h) {
                assert(c.children@[i].main_win_id == Some(h));
                lemma_first_with_window_has(c.children@, i, h);
            } else {
                lemma_height_of_child(c.children@, i);
                lemma_parent_path_found(c.children@[i], h);
                if let Some(q) = parent_path_of(s.last(), h) {
                    let pp = seq![i as usize] + q;
                    assert(pp.drop_first() =~= q);
                    assert(pp[0] as int == i);
                    assert(node_at(c, pp) == node_at(c.children@[i], q));
                }
            }
        }
    }
}

proof fn lemma_first_with_window_has(s: Seq<Container>, i: int, h: WindowId)
    requires
        0 <= i < s.len(),
        s[i].main_win_id == Some(h),
    ensures
        first_with_window(s, h) is Some,
    decreases s.len(),
{
    if i < s.len() - 1 {
        lemma_first_with_window_has(s.drop_last(), i, h);
    }
}

/// Detaching the subtrees marked for removal keeps every container on a
/// path that avoids them, at the path that `path_after_clean` gives.
pub proof fn lemma_clean_node_at(o: Container, c: Container, p: Seq<usize>)
    requires
        node_cleaned(o, c),
        path_after_clean(o, p) is Some,
    ensures
        node_at(o, p) is Some,
        node_at(c, path_after_clean(o, p)->0) is Some,
        node_at(c, path_after_clean(o, p)->0)->0.remove_flag == node_at(o, p)->0.remove_flag,
    decreases p.len(),
{
    if p.len() > 0 {
        let i = p[0] as int;
        let r = live_rank(o.children@, i);
        lemma_children_cleaned_at(o.children@, c.children@, i);
        lemma_clean_node_at(o.children@[i], c.children@[r as int], p.drop_first());
        let q = path_after_clean(o.children@[i], p.drop_first())->0;
        assert(c.children@.len() == c.children.len());
        let full = seq![r as usize] + q;
        assert(full.drop_first() =~= q);
        assert(full[0] as int == r);
        assert(path_after_clean(o, p) == Some(full));
        assert(node_at(c, full) == node_at(c.children@[r as int], q));
    }
}

/// Exchanging two neighbours of a group keeps every container, and a path
/// that led to one leads to it at `path_after_swap`.
pub proof fn lemma_swap_node_at(o: Container, c: Container, pp: Seq<usize>, lo: int, q: Seq<usize>)
    requires
        changed_at(o, c, pp, swapping(lo)),
        node_at(o, pp) matches Some(x) && 0 <= lo && lo + 1 < x.children@.len(),
        node_at(o, q) is Some,
    ensures
        node_at(c, path_after_swap(q, pp, lo)) is Some,
        node_at(c, path_after_swap(q, pp, lo))->0.remove_flag == node_at(o, q)->0.remove_flag,
    decreases pp.len(),
{
    lemma_changed_at(o, c, pp, swapping(lo));
    if q.len() == 0 {
        if pp.len() == 0 {
            assert(children_swapped(o, c, lo));
        }
    } else if pp.len() == 0 {
        assert(children_swapped(o, c, lo));
        let k = q[0] as int;
        let k2 = if k == lo {
            lo + 1
        } else if k == lo + 1 {
            lo
        } else {
            k
        };
        let ss = swapped_next(o.children@, lo);
        assert(o.children@.len() == o.children.len());
        assert(ss[k2] == o.children@[k]);
        lemma_children_positioned_at(o.layout_type, o.geometry, live_count(ss), ss, c.children@, k2);
        lemma_positioned_node_at(
            slot(o.layout_type, o.geometry, live_count(ss), live_rank(ss, k2)),
            o.children@[k],
            c.children@[k2],
            q.drop_first(),
        );
        let q2 = path_after_swap(q, pp, lo);
        assert(q2.drop_first() =~= q.drop_first());
        assert(q2[0] as int == k2);
    } else if q[0] == pp[0] {
        let k = q[0] as int;
        lemma_swap_node_at(o.children@[k], c.children@[k], pp.drop_first(), lo, q.drop_first());
        let q2 = path_after_swap(q, pp, lo);
        assert(q2.drop_first() =~= path_after_swap(q.drop_first(), pp.drop_first(), lo));
    } else {
        let k = q[0] as int;
        assert(c.children@[k] == o.children@[k]);
    }
}

/// Clearing the repositioned flags keeps every container where it was, as
/// live as before.
pub proof fn lemma_unflagged_node_at(o: Container, c: Container, p: Seq<usize>)
    requires
        node_unflagged(o, c),
        node_at(o, p) is Some,
    ensures
        node_at(c, p) is Some,
        node_at(c, p)->0.remove_flag == node_at(o, p)->0.remove_flag,
    decreases p.len(),
{
    if p.len() > 0 {
        let i = p[0] as int;
        lemma_children_unflagged_at(o.children@, c.children@, i);
        lemma_unflagged_node_at(o.children@[i], c.children@[i], p.drop_first());
    }
}

/// A container marked for removal anywhere below `c` is reported among
/// the removed containers of `c`.
pub proof fn lemma_removed_reported_at(c: Container, p: Seq<usize>)
    requires
        p.len() > 0,
        node_at(c, p) matches Some(x) && x.remove_flag,
    ensures
        removed_below(c).contains(node_at(c, p)->0),
    decreases p.len(),
{
    let k = p[0] as int;
    let x = node_at(c, p)->0;
    if p.len() == 1 {
        assert(p.drop_first().len() == 0);
        assert(x == c.children@[k]);
        lemma_removed_in_has(c.children@, k);
    } else {
        lemma_removed_reported_at(c.children@[k], p.drop_first());
        lemma_removed_in_sub(c.children@, k, x);
    }
}

/// A container with window handle `h` anywhere in the tree `c` makes a
/// search of `c` for `h` find one.
pub proof fn lemma_findable_at(c: Container, p: Seq<usize>, h: WindowId)
    requires
        node_at(c, p) matches Some(x) && x.main_win_id == Some(h),
    ensures
        find_by_window(c, h) is Some,
    decreases p.len(),
{
    if p.len() > 0 && !has_handle(c, false, h) {
        let k = p[0] as int;
        lemma_findable_at(c.children@[k], p.drop_first(), h);
        lemma_find_in_seq_sub(c.children@, k, false, h);
    }
}

/// Once `remove_container` marked the window `h` of a workspace whose tree
/// was `o`, giving tree `c`, the container that held `h` is still in the
/// tree, marked, reported among the removed containers of the whole tree,
/// and a search of the tree for `h` still finds a container; until
/// `clean_removed_containers` runs (see `lemma_detached_gone`).
pub proof fn lemma_window_removed_reported(o: Container, c: Container, h: WindowId)
    requires
        parent_path_of(o, h) matches Some(pp) && changed_at(o, c, pp, removing(h)),
    ensures
        ({
            let pp = parent_path_of(o, h)->0;
            let i = first_with_window(node_at(o, pp)->0.children@, h)->0;
            &&& node_at(c, pp.push(i as usize)) matches Some(x) && x.main_win_id == Some(h)
                && x.remove_flag && removed_below(c).contains(x)
            &&& find_by_window(c, h) is Some
        }),
{
    let pp = parent_path_of(o, h)->0;
    lemma_parent_path_found(o, h);
    lemma_changed_at(o, c, pp, removing(h));
    let px = node_at(o, pp)->0;
    let py = node_at(c, pp)->0;
    assert(window_removed_from(px, py, h));
    lemma_marked_window_reported(px, py, h);
    let i = first_with_window(px.children@, h)->0;
    assert(py.children@.len() == py.children.len());
    lemma_node_at_push(c, pp, i as usize);
    let q = pp.push(i as usize);
    lemma_removed_reported_at(c, q);
    lemma_findable_at(c, q, h);
}

// ---------------------------------------------------------------------------
// Edits at a path
// ---------------------------------------------------------------------------

/// An edit of the group at the end of a path.
enum Edit {
    Add(Container),
    Remove(WindowId),
    Relayout(LayoutType),
    SwapNext(usize),
}

spec fn edit_rel(e: Edit) -> spec_fn(Container, Container) -> bool {
    match e {
        Edit::Add(child) => adding(child),
        Edit::Remove(h) => removing(h),
        Edit::Relayout(layout) => relayouting(layout),
        Edit::SwapNext(i) => swapping(i as int),
    }
}

/// The container that `path[depth..]` leads to from `c`.
fn node_ref<'a>(c: &'a Container, path: &Vec<usize>, depth: usize) -> (r: &'a Container)
    requires
        depth <= path@.len(),
        node_at(*c, path@.subrange(depth as int, path@.len() as int)) is Some,
    ensures
        node_at(*c, path@.subrange(depth as int, path@.len() as int)) == Some(*r),
    decreases path@.len() - depth,
{
    if depth == path.len() {
        return c;
    }
    let ghost sub = path@.subrange(depth as int, path@.len() as int);
    assert(sub.drop_first() =~= path@.subrange(depth + 1, path@.len() as int));
    assert(sub[0] == path@[depth as int]);
    let i = path[depth];
    node_ref(&c.children[i], path, depth + 1)
}

/// Applies `e` to the group that `path[depth..]` leads to from `c`; returns
/// the index of an added child.
fn edit_at(c: &mut Container, path: &Vec<usize>, depth: usize, e: Edit) -> (r: usize)
    requires
        depth <= path@.len(),
        node_at(*old(c), path@.subrange(depth as int, path@.len() as int)) is Some,
        e matches Edit::SwapNext(i) ==> i + 1 < node_at(
            *old(c),
            path@.subrange(depth as int, path@.len() as int),
        )->0.children@.len(),
    ensures
        changed_at(*old(c), *final(c), path@.subrange(depth as int, path@.len() as int), edit_rel(e)),
        e matches Edit::Add(_) ==> r == node_at(*old(c), path@.subrange(depth as int, path@.len() as int))->0.children@.len(),
    decreases path@.len() - depth,
{
    let ghost sub = path@.subrange(depth as int, path@.len() as int);
    let ghost ge = e;
    if depth == path.len() {
        assert(node_at(*old(c), sub) == Some(*old(c)));
        match e {
            Edit::Add(child) => {
                let k = c.add_child(child);
                assert(edit_rel(ge)(*old(c), *c));
                return k;
            },
            Edit::Remove(h) => {
                c.remove_window(h);
                assert(edit_rel(ge)(*old(c), *c));
                return 0;
            },
            Edit::Relayout(layout) => {
                c.layout_type = layout;
                c.reposition();
                assert(edit_rel(ge)(*old(c), *c));
                return 0;
            },
            Edit::SwapNext(i) => {
                assert(i + 1 < old(c).children@.len());
                assert(c.children@.len() == c.children.len());
                let moved = c.children.remove(i + 1);
                c.children.insert(i, moved);
                assert(c.children@ =~= swapped_next(old(c).children@, i as int));
                c.reposition();
                assert(edit_rel(ge)(*old(c), *c));
                return 0;
            },
        }
    }
    assert(sub.drop_first() =~= path@.subrange(depth + 1, path@.len() as int));
    assert(sub[0] == path@[depth as int]);
    let i = path[depth];
    let mut child = c.children.remove(i);
    assert(child == old(c).children@[i as int]);
    let k = edit_at(&mut child, path, depth + 1, e);
    c.children.insert(i, child);
    assert(c.children@ =~= old(c).children@.update(i as int, child));
    k
}

/// Path to the parent of the first container, in depth-first pre-order,
/// whose window handle is `h`.
fn find_parent_path(c: &Container, h: WindowId) -> (r: Option<Vec<usize>>)
    ensures
        r matches Some(v) ==> parent_path_of(*c, h) == Some(v@),
        r is None ==> parent_path_of(*c, h) is None,
    decreases height(*c),
{
    let ghost s = c.children@;
    let mut i: usize = 0;
    while i < c.children.len()
        invariant
            s == c.children@,
            i <= s.len(),
            parent_path_in(s.subrange(0, i as int), h) is None,
        decreases s.len() - i,
    {
        assert(s.subrange(0, i as int + 1).drop_last() =~= s.subrange(0, i as int));
        assert(s.subrange(0, i as int + 1).last() == s[i as int]);
        proof {
            lemma_height_of_child(s, i as int);
        }
        let child = &c.children[i];
        let hit = match child.main_win_id {
            Some(w) => w == h,
            None => false,
        };
        if hit {
            proof {
                lemma_parent_path_prefix(s, h, i as int + 1);
            }
            let v: Vec<usize> = Vec::new();
            assert(v@ =~= Seq::<usize>::empty());
            return Some(v);
        }
        match find_parent_path(child, h) {
            Some(v) => {
                let mut v = v;
                let ghost q = v@;
                v.insert(0, i);
                assert(v@ =~= seq![i] + q);
                proof {
                    lemma_parent_path_prefix(s, h, i as int + 1);
                }
                return Some(v);
            },
            None => {},
        }
        i = i + 1;
    }
    assert(s.subrange(0, s.len() as int) =~= s);
    None
}

/// `path_after_swap` of `q[depth..]` and `pp[depth..]`.
fn path_after_swap_exec(q: &Vec<usize>, pp: &Vec<usize>, depth: usize, lo: usize) -> (r: Vec<usize>)
    requires
        depth <= q@.len(),
        depth <= pp@.len(),
        lo < usize::MAX,
    ensures
        r@ == path_after_swap(
            q@.subrange(depth as int, q@.len() as int),
            pp@.subrange(depth as int, pp@.len() as int),
            lo as int,
        ),
    decreases pp@.len() - depth,
{
    let ghost qs = q@.subrange(depth as int, q@.len() as int);
    let ghost ps = pp@.subrange(depth as int, pp@.len() as int);
    if depth == q.len() {
        let r: Vec<usize> = Vec::new();
        assert(r@ =~= qs);
        return r;
    }
    assert(qs[0] == q@[depth as int]);
    let k = q[depth];
    if depth == pp.len() {
        let mut r: Vec<usize> = Vec::new();
        let mut j: usize = depth;
        while j < q.len()
            invariant
                depth <= j <= q@.len(),
                r@ == q@.subrange(depth as int, j as int),
            decreases q@.len() - j,
        {
            r.push(q[j]);
            assert(r@ =~= q@.subrange(depth as int, j as int + 1));
            j = j + 1;
        }
        assert(r@ =~= qs);
        if k == lo {
            r.set(0, lo + 1);
        } else if k == lo + 1 {
            r.set(0, lo);
        }
        assert(ps.len() == 0);
        return r;
    }
    assert(ps[0] == pp@[depth as int]);
    if k == pp[depth] {
        assert(qs.drop_first() =~= q@.subrange(depth + 1, q@.len() as int));
        assert(ps.drop_first() =~= pp@.subrange(depth + 1, pp@.len() as int));
        let mut r = path_after_swap_exec(q, pp, depth + 1, lo);
        let ghost rest = r@;
        r.insert(0, k);
        assert(r@ =~= seq![k] + rest);
        r
    } else {
        let mut r: Vec<usize> = Vec::new();
        let mut j: usize = depth;
        while j < q.len()
            invariant
                depth <= j <= q@.len(),
                r@ == q@.subrange(depth as int, j as int),
            decreases q@.len() - j,
        {
            r.push(q[j]);
            assert(r@ =~= q@.subrange(depth as int, j as int + 1));
            j = j + 1;
        }
        assert(r@ =~= qs);
        r
    }
}

/// The path of the group that holds the container at `focus` (see
/// `group_path`).
fn group_path_of(focus: &Vec<usize>) -> (r: Vec<usize>)
    ensures
        r@ == group_path(focus@),
{
    let len = focus.len();
    let plen: usize = if len > 0 {
        len - 1
    } else {
        0
    };
    let ghost pp = group_path(focus@);
    let mut r: Vec<usize> = Vec::new();
    let mut j: usize = 0;
    while j < plen
        invariant
            plen <= len == focus@.len(),
            pp == group_path(focus@),
            plen == pp.len(),
            j <= plen,
            r@ == pp.subrange(0, j as int),
        decreases plen - j,
    {
        r.push(focus[j]);
        assert(r@ =~= pp.subrange(0, j as int + 1));
        j = j + 1;
    }
    assert(r@ =~= pp);
    r
}

/// Number of live containers among the first `i` of `s`.
fn live_before(s: &Vec<Container>, i: usize) -> (n: usize)
    requires
        i <= s@.len(),
    ensures
        n == live_rank(s@, i as int),
{
    let mut n: usize = 0;
    let mut k: usize = 0;
    while k < i
        invariant
            k <= i <= s@.len(),
            n == live_count(s@.subrange(0, k as int)),
            n <= k,
        decreases i - k,
    {
        assert(s@.subrange(0, k as int + 1).drop_last() =~= s@.subrange(0, k as int));
        if !s[k].remove_flag {
            n = n + 1;
        }
        k = k + 1;
    }
    n
}

/// Where `path[depth..]` leads after the subtrees marked for removal are
/// detached from `c` (see `path_after_clean`).
fn path_after_clean_exec(c: &Container, path: &Vec<usize>, depth: usize) -> (r: Option<Vec<usize>>)
    requires
        depth <= path@.len(),
    ensures
        r matches Some(v) ==> path_after_clean(*c, path@.subrange(depth as int, path@.len() as int)) == Some(v@),
        r is None ==> path_after_clean(*c, path@.subrange(depth as int, path@.len() as int)) is None,
    decreases path@.len() - depth,
{
    let ghost sub = path@.subrange(depth as int, path@.len() as int);
    if depth == path.len() {
        let v: Vec<usize> = Vec::new();
        assert(v@ =~= sub);
        return Some(v);
    }
    assert(sub.drop_first() =~= path@.subrange(depth + 1, path@.len() as int));
    assert(sub[0] == path@[depth as int]);
    let i = path[depth];
    if i < c.children.len() && !c.children[i].remove_flag {
        match path_after_clean_exec(&c.children[i], path, depth + 1) {
            Some(v) => {
                let mut v = v;
                let ghost q = v@;
                let r = live_before(&c.children, i);
                v.insert(0, r);
                assert(v@ =~= seq![r] + q);
                Some(v)
            },
            None => None,
        }
    } else {
        None
    }
}

impl Workspace {
    /// The root is never marked for removal and the focus leads to a
    /// container that is not marked for removal.
    pub open spec fn wf(&self) -> bool {
        &&& !self.container.remove_flag
        &&& live_at(self.container, self.focus@)
    }

    /// An empty workspace over a screen of `width` by `height`; the root
    /// lays its children out horizontally and has the focus.
    pub fn new(width: u32, height: u32) -> (w: Workspace)
        ensures
            w.wf(),
            w.focus@.len() == 0,
            w.container.children@.len() == 0,
            w.container.frame_win_id is None,
            w.container.main_win_id is None,
            w.container.layout_type == LayoutType::Horizontal,
            w.container.geometry == (Geometry { x: 0, y: 0, width, height }),
            !w.container.is_repositioned,
            !w.container.remove_flag,
    {
        let container = Container::new_without_window(
            LayoutType::Horizontal,
            Geometry::new(0, 0, width, height),
        );
        Workspace { container, focus: Vec::new() }
    }

    /// Lays out the whole tree.
    pub fn reposition(&mut self)
        requires
            old(self).wf(),
        ensures
            final(self).wf(),
            repositioned_from(old(self).container, final(self).container),
            final(self).focus == old(self).focus,
    {
        self.container.reposition();
        proof {
            lemma_repositioned_node_at(old(self).container, self.container, self.focus@);
        }
    }

    /// The container that has the focus.
    pub fn get_focused_container(&self) -> (r: &Container)
        requires
            self.wf(),
        ensures
            node_at(self.container, self.focus@) == Some(*r),
    {
        assert(self.focus@.subrange(0, self.focus@.len() as int) =~= self.focus@);
        node_ref(&self.container, &self.focus, 0)
    }

    /// Adds `new_container` to the group that holds the focused container (the
    /// root when the root has the focus), lays that group out again, and
    /// moves the focus to the new container, whose index is returned.
    pub fn add_container(&mut self, new_container: Container) -> (k: usize)
        requires
            old(self).wf(),
            is_live(new_container),
        ensures
            final(self).wf(),
            changed_at(old(self).container, final(self).container, group_path(old(self).focus@), adding(new_container)),
            final(self).focus@ == group_path(old(self).focus@).push(k),
            node_at(old(self).container, group_path(old(self).focus@)) matches Some(x)
                && k == x.children@.len(),
            node_at(final(self).container, final(self).focus@) matches Some(n) && is_live(n)
                && n.frame_win_id == new_container.frame_win_id && n.main_win_id
                == new_container.main_win_id,
    {
        let ghost f = self.focus@;
        let ghost pp = group_path(f);
        let parent_path = group_path_of(&self.focus);
        assert(parent_path@.subrange(0, parent_path@.len() as int) =~= parent_path@);
        proof {
            if f.len() > 0 {
                assert(f =~= pp.push(f.last()));
                lemma_node_at_push(self.container, pp, f.last());
            }
        }
        let ghost child = new_container;
        let k = edit_at(&mut self.container, &parent_path, 0, Edit::Add(new_container));
        self.focus = parent_path;
        self.focus.push(k);
        proof {
            let o = old(self).container;
            let c = self.container;
            lemma_changed_at(o, c, pp, adding(child));
            let x = node_at(o, pp)->0;
            let y = node_at(c, pp)->0;
            assert(child_added(x, y, child));
            lemma_node_at_push(c, pp, k);
            lemma_children_positioned_at(
                x.layout_type,
                x.geometry,
                live_count(x.children@.push(child)),
                x.children@.push(child),
                y.children@,
                k as int,
            );
            assert(x.children@.push(child)[k as int] == child);
            if pp.len() == 0 {
                assert(same_own(o, c));
            }
        }
        k
    }

    /// Marks the window `window_id` for removal. The focus moves first to
    /// where `focus_after_removal` says; the window's group is laid out
    /// again. Nothing changes when no container has that handle.
    pub fn remove_container(&mut self, window_id: WindowId)
        requires
            old(self).wf(),
        ensures
            final(self).wf(),
            match parent_path_of(old(self).container, window_id) {
                Some(pp) => {
                    &&& changed_at(old(self).container, final(self).container, pp, removing(window_id))
                    &&& final(self).focus@ == focus_after_removal(old(self).container, pp, window_id)
                },
                None => *final(self) == *old(self),
            },
    {
        proof {
            lemma_parent_path_found(self.container, window_id);
        }
        let found = find_parent_path(&self.container, window_id);
        let parent_path = match found {
            None => {
                return;
            },
            Some(v) => v,
        };
        let ghost pp = parent_path@;
        assert(parent_path@.subrange(0, parent_path@.len() as int) =~= parent_path@);
        let parent = node_ref(&self.container, &parent_path, 0);
        let ghost px = *parent;
        proof {
            lemma_first_with_window_found(px.children@, window_id);
            let i = first_with_window(px.children@, window_id)->0;
            lemma_next_live_from(px.children@, i, 1);
        }
        let next = parent.next_focus_position(window_id);
        let parent_live = !parent.remove_flag;
        let mut target: Vec<usize> = Vec::new();
        match next {
            Some(j) => {
                target = parent_path.clone();
                target.push(j);
            },
            None => {
                if parent_path.len() > 0 && parent_live {
                    target = parent_path.clone();
                }
            },
        }
        assert(target@ =~= focus_after_removal(old(self).container, pp, window_id));
        edit_at(&mut self.container, &parent_path, 0, Edit::Remove(window_id));
        self.focus = target;
        proof {
            let o = old(self).container;
            let c = self.container;
            lemma_changed_at(o, c, pp, removing(window_id));
            let y = node_at(c, pp)->0;
            assert(window_removed_from(px, y, window_id));
            let i = first_with_window(px.children@, window_id)->0;
            let ms = px.children@.update(i, marked(px.children@[i]));
            match next {
                Some(j) => {
                    lemma_node_at_push(c, pp, j);
                    lemma_children_positioned_at(
                        px.layout_type,
                        px.geometry,
                        live_count(ms),
                        ms,
                        y.children@,
                        j as int,
                    );
                },
                None => {},
            }
            if pp.len() == 0 {
                assert(same_own(o, c));
            }
        }
    }

    /// Moves the focus to the first container whose window handle is
    /// `window_id`; nothing changes when there is none or when it is marked
    /// for removal.
    pub fn set_current_focused_container(&mut self, window_id: WindowId)
        requires
            old(self).wf(),
        ensures
            final(self).wf(),
            final(self).container == old(self).container,
            final(self).focus@ == focus_on_window(old(self).container, window_id, old(self).focus@),
    {
        proof {
            lemma_parent_path_found(self.container, window_id);
        }
        let found = find_parent_path(&self.container, window_id);
        let parent_path = match found {
            None => {
                return;
            },
            Some(v) => v,
        };
        let ghost pp = parent_path@;
        assert(parent_path@.subrange(0, parent_path@.len() as int) =~= parent_path@);
        let parent = node_ref(&self.container, &parent_path, 0);
        proof {
            lemma_first_with_window_found(parent.children@, window_id);
        }
        match parent.position_of_window(window_id) {
            Some(i) => {
                if !parent.children[i].remove_flag {
                    let mut target = parent_path.clone();
                    target.push(i);
                    proof {
                        lemma_node_at_push(self.container, pp, i);
                    }
                    self.focus = target;
                }
            },
            None => {},
        }
    }

    /// Every repositioned leaf of the tree, depth first.
    pub fn get_repositioned_children(&self) -> (r: Vec<&Container>)
        ensures
            deref_all(r@) == repositioned_leaves(self.container),
    {
        self.container.get_repositioned_children()
    }

    /// Every container of the tree that is marked for removal, depth first.
    pub fn get_removed_children(&self) -> (r: Vec<&Container>)
        ensures
            deref_all(r@) == removed_below(self.container),
    {
        self.container.get_removed_children()
    }

    /// Detaches every subtree marked for removal. The focus follows its
    /// container to its new place, or goes to the root when it was inside a
    /// detached subtree.
    pub fn clean_removed_containers(&mut self)
        requires
            old(self).wf(),
        ensures
            final(self).wf(),
            node_cleaned(old(self).container, final(self).container),
            final(self).focus@ == (match path_after_clean(old(self).container, old(self).focus@) {
                Some(q) => q,
                None => Seq::empty(),
            }),
    {
        assert(self.focus@.subrange(0, self.focus@.len() as int) =~= self.focus@);
        let remapped = path_after_clean_exec(&self.container, &self.focus, 0);
        self.container.remove_flag = false;
        self.container.clean_removed_children();
        match remapped {
            Some(v) => {
                proof {
                    lemma_clean_node_at(old(self).container, self.container, old(self).focus@);
                }
                self.focus = v;
            },
            None => {
                self.focus = Vec::new();
            },
        }
    }

    /// Switches the group that holds the focused container to `layout_type`
    /// and lays it out again.
    pub fn change_layout(&mut self, layout_type: LayoutType)
        requires
            old(self).wf(),
        ensures
            final(self).wf(),
            changed_at(old(self).container, final(self).container, group_path(old(self).focus@), relayouting(layout_type)),
            final(self).focus == old(self).focus,
    {
        let ghost f = self.focus@;
        let ghost pp = group_path(f);
        let parent_path = group_path_of(&self.focus);
        assert(parent_path@.subrange(0, parent_path@.len() as int) =~= parent_path@);
        proof {
            if f.len() > 0 {
                assert(f =~= pp.push(f.last()));
                lemma_node_at_push(self.container, pp, f.last());
            }
        }
        edit_at(&mut self.container, &parent_path, 0, Edit::Relayout(layout_type));
        proof {
            let o = old(self).container;
            let c = self.container;
            lemma_changed_at(o, c, pp, relayouting(layout_type));
            let x = node_at(o, pp)->0;
            let y = node_at(c, pp)->0;
            assert(repositioned_from(with_layout(x, layout_type), y));
            if f.len() > 0 {
                let k = f.last();
                lemma_node_at_push(o, pp, k);
                lemma_node_at_push(c, pp, k);
                let wx = with_layout(x, layout_type);
                lemma_children_positioned_at(
                    wx.layout_type,
                    wx.geometry,
                    live_count(wx.children@),
                    wx.children@,
                    y.children@,
                    k as int,
                );
            } else {
                assert(same_own(with_layout(x, layout_type), y));
            }
            if pp.len() == 0 {
                assert(same_own(with_layout(o, layout_type), c));
            }
        }
    }

    /// Exchanges the window `window_id` with its left (`to_left`) or right
    /// neighbour in its group, lays the group out again, and gives the
    /// window the focus. Nothing changes when no container has that handle,
    /// when it is marked for removal, or when it is at that end of its row.
    pub fn move_window(&mut self, window_id: WindowId, to_left: bool)
        requires
            old(self).wf(),
        ensures
            final(self).wf(),
            moved_as(*old(self), *final(self), window_id, to_left),
    {
        proof {
            lemma_parent_path_found(self.container, window_id);
        }
        let found = find_parent_path(&self.container, window_id);
        let parent_path = match found {
            None => {
                return;
            },
            Some(v) => v,
        };
        let ghost pp = parent_path@;
        assert(parent_path@.subrange(0, parent_path@.len() as int) =~= parent_path@);
        let parent = node_ref(&self.container, &parent_path, 0);
        let ghost px = *parent;
        proof {
            lemma_first_with_window_found(px.children@, window_id);
        }
        let i = match parent.position_of_window(window_id) {
            None => {
                return;
            },
            Some(i) => i,
        };
        if parent.children[i].remove_flag {
            return;
        }
        let len = parent.children.len();
        let (lo, t) = if to_left {
            if i == 0 {
                return;
            }
            (i - 1, i - 1)
        } else {
            if i + 1 >= len {
                return;
            }
            (i, i + 1)
        };
        edit_at(&mut self.container, &parent_path, 0, Edit::SwapNext(lo));
        assert(self.focus@.subrange(0, self.focus@.len() as int) =~= self.focus@);
        let target = path_after_swap_exec(&self.focus, &parent_path, 0, lo);
        self.focus = target;
        proof {
            lemma_swap_node_at(old(self).container, self.container, pp, lo as int, old(self).focus@);
        }
    }

    /// Makes a leaf for the window `window_id` in the frame `frame_id` and
    /// adds it as `add_container` does: to the group of the focused
    /// container, which it then replaces as the focused one.
    pub fn insert_window(&mut self, window_id: WindowId, frame_id: FrameId) -> (k: usize)
        requires
            old(self).wf(),
        ensures
            final(self).wf(),
            exists|child: Container|
                #[trigger] is_new_leaf(child, window_id, frame_id) && changed_at(
                    old(self).container,
                    final(self).container,
                    group_path(old(self).focus@),
                    adding(child),
                ),
            final(self).focus@ == group_path(old(self).focus@).push(k),
            node_at(old(self).container, group_path(old(self).focus@)) matches Some(x)
                && k == x.children@.len(),
            node_at(final(self).container, final(self).focus@) matches Some(n) && is_live(n)
                && n.frame_win_id == Some(frame_id) && n.main_win_id == Some(window_id),
    {
        let leaf = Container::new(
            frame_id,
            window_id,
            LayoutType::Horizontal,
            Geometry::new(0, 0, 0, 0),
        );
        let ghost child = leaf;
        let k = self.add_container(leaf);
        assert(is_new_leaf(child, window_id, frame_id));
        k
    }

    /// Moves the focus to the next (`forward`) or previous live sibling of
    /// the focused container, in cyclic order (see `focus_cycled`).
    pub fn focus_sibling(&mut self, forward: bool)
        requires
            old(self).wf(),
        ensures
            final(self).wf(),
            final(self).container == old(self).container,
            final(self).focus@ == focus_cycled(old(self).container, old(self).focus@, forward),
    {
        let len = self.focus.len();
        if len == 0 {
            return;
        }
        let ghost f = self.focus@;
        let ghost pp = f.drop_last();
        let parent_path = group_path_of(&self.focus);
        assert(parent_path@.subrange(0, parent_path@.len() as int) =~= parent_path@);
        let k = self.focus[len - 1];
        proof {
            assert(f =~= pp.push(k));
            lemma_node_at_push(self.container, pp, k);
        }
        let parent = node_ref(&self.container, &parent_path, 0);
        proof {
            lemma_next_live_from(parent.children@, k as int, 1);
            lemma_prev_live_from(parent.children@, k as int, 1);
        }
        match cyclic_live_index(&parent.children, k, forward) {
            Some(t) => {
                let mut target = parent_path;
                target.push(t);
                proof {
                    lemma_node_at_push(self.container, pp, t);
                }
                self.focus = target;
            },
            None => {},
        }
    }

    /// Clears every repositioned flag of the tree, once a backend has
    /// applied the geometries; the focus stays.
    pub fn clear_repositioned(&mut self)
        requires
            old(self).wf(),
        ensures
            final(self).wf(),
            node_unflagged(old(self).container, final(self).container),
            repositioned_leaves(final(self).container) == Seq::<Container>::empty(),
            final(self).focus == old(self).focus,
    {
        self.container.clear_repositioned();
        proof {
            lemma_unflagged_node_at(old(self).container, self.container, self.focus@);
        }
    }
}

} // verus!
