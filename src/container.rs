use vstd::prelude::*;

verus! {

/// Backend handle of the decorative frame around a managed window.
pub type FrameId = u32;

/// Backend handle of a managed application window.
pub type WindowId = u32;

/// How an interior container shares its geometry among its live children.
#[derive(Debug, Clone, Copy, PartialEq, Eq, Structural)]
pub enum LayoutType {
    Horizontal,
    Vertical,
    Floating,
    Tabbed,
}

impl LayoutType {
    /// Geometry of the child that follows a child at `current_geometry`,
    /// where `unit` holds the span of one child along each axis: one span
    /// further right (`Horizontal`) or down (`Vertical`), or the same place
    /// (`Floating`, `Tabbed`).
    pub fn get_next_geometry(&self, current_geometry: Geometry, unit: Geometry) -> (g: Geometry)
        requires
            *self == LayoutType::Horizontal ==> current_geometry.x + unit.x <= u32::MAX,
            *self == LayoutType::Vertical ==> current_geometry.y + unit.y <= u32::MAX,
        ensures
            g == (match *self {
                LayoutType::Horizontal => Geometry {
                    x: (current_geometry.x + unit.x) as u32,
                    y: current_geometry.y,
                    width: unit.width,
                    height: current_geometry.height,
                },
                LayoutType::Vertical => Geometry {
                    x: current_geometry.x,
                    y: (current_geometry.y + unit.y) as u32,
                    width: current_geometry.width,
                    height: unit.height,
                },
                _ => current_geometry,
            }),
    {
        match self {
            LayoutType::Horizontal => Geometry {
                x: current_geometry.x + unit.x,
                y: current_geometry.y,
                width: unit.width,
                height: current_geometry.height,
            },
            LayoutType::Vertical => Geometry {
                x: current_geometry.x,
                y: current_geometry.y + unit.y,
                width: current_geometry.width,
                height: unit.height,
            },
            LayoutType::Floating => current_geometry,
            LayoutType::Tabbed => current_geometry,
        }
    }
}

/// Something placed on the screen, with an origin.
pub trait Positionable {
    fn get_position(&self) -> (u32, u32);
}

/// Something placed on the screen, with a size.
pub trait Dimensionable {
    fn get_dimensions(&self) -> (u32, u32);
}

/// A rectangle in absolute screen coordinates.
#[derive(Debug, Clone, Copy, PartialEq, Eq, Structural)]
pub struct Geometry {
    pub x: u32,
    pub y: u32,
    pub width: u32,
    pub height: u32,
}

/// A node of a workspace's window tree: a leaf that wraps one managed
/// window, or an interior node that groups its children under a layout.
#[derive(Debug)]
pub struct Container {
    pub frame_win_id: Option<FrameId>,
    pub main_win_id: Option<WindowId>,
    pub children: Vec<Container>,
    pub layout_type: LayoutType,
    pub geometry: Geometry,
    pub is_repositioned: bool,
    pub remove_flag: bool,
}

// ---------------------------------------------------------------------------
// Shape of the tree
// ---------------------------------------------------------------------------

/// Number of levels of the tree rooted at `c` (a leaf has height 1).
pub open spec fn height(c: Container) -> nat
    decreases c,
{
    1 + heights_max(c.children@)
}

/// Largest height among the trees of `s` (0 for an empty sequence).
pub open spec fn heights_max(s: Seq<Container>) -> nat
    decreases s,
{
    if s.len() == 0 {
        0
    } else {
        let h = height(s.last());
        let m = heights_max(s.drop_last());
        if h > m {
            h
        } else {
            m
        }
    }
}

/// A child is live while it is not marked for removal.
pub open spec fn is_live(c: Container) -> bool {
    !c.remove_flag
}

/// Number of live containers in `s`.
pub open spec fn live_count(s: Seq<Container>) -> nat
    decreases s.len(),
{
    if s.len() == 0 {
        0
    } else {
        live_count(s.drop_last()) + if is_live(s.last()) {
            1nat
        } else {
            0nat
        }
    }
}

/// Position of the `i`-th child among the live children before it.
pub open spec fn live_rank(s: Seq<Container>, i: int) -> nat {
    live_count(s.subrange(0, i))
}

// ---------------------------------------------------------------------------
// Layout
// ---------------------------------------------------------------------------

/// `a` clamped to the range of `u32`.
pub open spec fn clamp_u32(a: int) -> u32 {
    if a > u32::MAX {
        u32::MAX
    } else {
        a as u32
    }
}

/// Geometry of the live child of rank `r` among `n` live children of a node
/// with geometry `g` and layout `layout`.
///
/// `Horizontal` splits the width into `n` equal spans from left to right and
/// `Vertical` splits the height from top to bottom; the last span absorbs the
/// remainder of the integer division, so the spans tile the parent exactly.
/// `Floating` and `Tabbed` give every child the parent's geometry.
pub open spec fn slot(layout: LayoutType, g: Geometry, n: nat, r: nat) -> Geometry {
    match layout {
        LayoutType::Horizontal => {
            let unit = g.width as int / n as int;
            Geometry {
                x: clamp_u32(g.x + r * unit),
                y: g.y,
                width: (if r + 1 == n {
                    g.width - r * unit
                } else {
                    unit
                }) as u32,
                height: g.height,
            }
        },
        LayoutType::Vertical => {
            let unit = g.height as int / n as int;
            Geometry {
                x: g.x,
                y: clamp_u32(g.y + r * unit),
                width: g.width,
                height: (if r + 1 == n {
                    g.height - r * unit
                } else {
                    unit
                }) as u32,
            }
        },
        LayoutType::Floating => g,
        LayoutType::Tabbed => g,
    }
}

/// `c` has the same identity, layout and flags as `o`.
pub open spec fn same_own(o: Container, c: Container) -> bool {
    &&& c.frame_win_id == o.frame_win_id
    &&& c.main_win_id == o.main_win_id
    &&& c.layout_type == o.layout_type
    &&& c.geometry == o.geometry
    &&& c.is_repositioned == o.is_repositioned
    &&& c.remove_flag == o.remove_flag
}

/// `ns` is `os` after the live children of a node with layout `layout`,
/// geometry `g` and `n` live children were laid out, each recursively.
pub open spec fn children_positioned(
    layout: LayoutType,
    g: Geometry,
    n: nat,
    os: Seq<Container>,
    ns: Seq<Container>,
) -> bool
    decreases os,
{
    &&& os.len() == ns.len()
    &&& os.len() > 0 ==> {
        &&& children_positioned(layout, g, n, os.drop_last(), ns.drop_last())
        &&& child_positioned(slot(layout, g, n, live_count(os.drop_last())), os.last(), ns.last())
    }
}

/// `c` is the child `o` after it was given geometry `cg` and its own subtree
/// was laid out; a child marked for removal is left as it is.
pub open spec fn child_positioned(cg: Geometry, o: Container, c: Container) -> bool
    decreases o,
{
    if o.remove_flag {
        c == o
    } else {
        &&& c.frame_win_id == o.frame_win_id
        &&& c.main_win_id == o.main_win_id
        &&& c.layout_type == o.layout_type
        &&& c.geometry == cg
        &&& c.is_repositioned
        &&& !c.remove_flag
        &&& children_positioned(o.layout_type, cg, live_count(o.children@), o.children@, c.children@)
    }
}

/// `c` is `o` after a layout pass over its subtree.
pub open spec fn repositioned_from(o: Container, c: Container) -> bool {
    &&& same_own(o, c)
    &&& children_positioned(o.layout_type, o.geometry, live_count(o.children@), o.children@, c.children@)
}

// ---------------------------------------------------------------------------
// Search, collection and removal
// ---------------------------------------------------------------------------

/// `c` carries handle `h`: its frame handle when `by_frame`, else its
/// window handle.
pub open spec fn has_handle(c: Container, by_frame: bool, h: u32) -> bool {
    if by_frame {
        c.frame_win_id == Some(h)
    } else {
        c.main_win_id == Some(h)
    }
}

/// First container in depth-first pre-order under `c` (itself included)
/// that carries handle `h`.
pub open spec fn find_in(c: Container, by_frame: bool, h: u32) -> Option<Container>
    decreases c,
{
    if has_handle(c, by_frame, h) {
        Some(c)
    } else {
        find_in_seq(c.children@, by_frame, h)
    }
}

/// First container in depth-first pre-order under the trees of `s`
/// that carries handle `h`.
pub open spec fn find_in_seq(s: Seq<Container>, by_frame: bool, h: u32) -> Option<Container>
    decreases s,
{
    if s.len() == 0 {
        None
    } else {
        let p = find_in_seq(s.drop_last(), by_frame, h);
        if p is Some {
            p
        } else {
            find_in(s.last(), by_frame, h)
        }
    }
}

/// The container that `find_child_by_window_id(h)` finds under `c`.
pub open spec fn find_by_window(c: Container, h: WindowId) -> Option<Container> {
    find_in(c, false, h)
}

/// The container that `find_child_by_frame_id(h)` finds under `c`.
pub open spec fn find_by_frame(c: Container, h: FrameId) -> Option<Container> {
    find_in(c, true, h)
}

/// The repositioned leaves below `c`, depth first; a repositioned interior
/// node stands for its repositioned leaves, a node not repositioned for none.
pub open spec fn repositioned_leaves(c: Container) -> Seq<Container>
    decreases c,
{
    repositioned_leaves_in(c.children@)
}

/// The repositioned leaves of the trees of `s`, in order.
pub open spec fn repositioned_leaves_in(s: Seq<Container>) -> Seq<Container>
    decreases s,
{
    if s.len() == 0 {
        Seq::empty()
    } else {
        let c = s.last();
        repositioned_leaves_in(s.drop_last()) + if !c.is_repositioned {
            Seq::empty()
        } else if c.children@.len() == 0 {
            seq![c]
        } else {
            repositioned_leaves(c)
        }
    }
}

/// Every container below `c` that is marked for removal, depth first.
pub open spec fn removed_below(c: Container) -> Seq<Container>
    decreases c,
{
    removed_in(c.children@)
}

/// Every container of the trees of `s` that is marked for removal, in order.
pub open spec fn removed_in(s: Seq<Container>) -> Seq<Container>
    decreases s,
{
    if s.len() == 0 {
        Seq::empty()
    } else {
        let c = s.last();
        removed_in(s.drop_last()) + (if c.remove_flag {
            seq![c]
        } else {
            Seq::empty()
        }) + removed_below(c)
    }
}

/// Index of the first container of `s` whose window handle is `h`.
pub open spec fn first_with_window(s: Seq<Container>, h: WindowId) -> Option<int>
    decreases s.len(),
{
    if s.len() == 0 {
        None
    } else {
        let p = first_with_window(s.drop_last(), h);
        if p is Some {
            p
        } else if s.last().main_win_id == Some(h) {
            Some(s.len() - 1)
        } else {
            None
        }
    }
}

/// `c` marked for removal.
pub open spec fn marked(c: Container) -> Container {
    Container { remove_flag: true, ..c }
}

/// `c` is `o` after the first child with window handle `h` was marked for
/// removal and the remaining live children were laid out again. Without
/// such a child nothing changes.
pub open spec fn window_removed_from(o: Container, c: Container, h: WindowId) -> bool {
    match first_with_window(o.children@, h) {
        Some(i) => {
            let ms = o.children@.update(i, marked(o.children@[i]));
            &&& same_own(o, c)
            &&& children_positioned(o.layout_type, o.geometry, live_count(ms), ms, c.children@)
        },
        None => c == o,
    }
}

/// `ns` is `os` without its children marked for removal, the kept ones
/// cleaned in turn.
pub open spec fn children_cleaned(os: Seq<Container>, ns: Seq<Container>) -> bool
    decreases os,
{
    if os.len() == 0 {
        ns.len() == 0
    } else if os.last().remove_flag {
        children_cleaned(os.drop_last(), ns)
    } else {
        &&& ns.len() > 0
        &&& children_cleaned(os.drop_last(), ns.drop_last())
        &&& node_cleaned(os.last(), ns.last())
    }
}

/// `c` is the live node `o` with every subtree marked for removal detached.
pub open spec fn node_cleaned(o: Container, c: Container) -> bool
    decreases o,
{
    &&& same_own(o, c)
    &&& children_cleaned(o.children@, c.children@)
}

/// Index of the first live child after the `i`-th in cyclic order, looking
/// `d` steps ahead and further, never coming back to `i` itself.
pub open spec fn next_live_from(s: Seq<Container>, i: int, d: int) -> Option<int>
    decreases s.len() - d,
{
    if d >= s.len() || d < 1 {
        None
    } else {
        let j = (i + d) % (s.len() as int);
        if is_live(s[j]) {
            Some(j)
        } else {
            next_live_from(s, i, d + 1)
        }
    }
}

/// Index of the first live child before the `i`-th in cyclic order, looking
/// `d` steps back and further, never coming back to `i` itself.
pub open spec fn prev_live_from(s: Seq<Container>, i: int, d: int) -> Option<int>
    decreases s.len() - d,
{
    if d >= s.len() || d < 1 {
        None
    } else {
        let j = (i - d + s.len()) % (s.len() as int);
        if is_live(s[j]) {
            Some(j)
        } else {
            prev_live_from(s, i, d + 1)
        }
    }
}

/// The live child after (`forward`) or before the `i`-th in cyclic order.
pub open spec fn cyclic_live(s: Seq<Container>, i: int, forward: bool) -> Option<int> {
    if forward {
        next_live_from(s, i, 1)
    } else {
        prev_live_from(s, i, 1)
    }
}

/// Index of the sibling that takes the focus when the first child with
/// window handle `h` goes: its cyclic successor among the live children.
pub open spec fn next_focus_index(s: Seq<Container>, h: WindowId) -> Option<int> {
    match first_with_window(s, h) {
        Some(i) => next_live_from(s, i, 1),
        None => None,
    }
}

/// The containers that the references of `s` point to.
pub open spec fn deref_all(s: Seq<&Container>) -> Seq<Container> {
    s.map_values(|x: &Container| *x)
}

/// The container that `r` points to, if any.
pub open spec fn deref_opt(r: Option<&Container>) -> Option<Container> {
    match r {
        Some(x) => Some(*x),
        None => None,
    }
}

/// `c` is `o` with the repositioned flag cleared at every node, and nothing
/// else changed.
pub open spec fn node_unflagged(o: Container, c: Container) -> bool
    decreases o,
{
    &&& c.frame_win_id == o.frame_win_id
    &&& c.main_win_id == o.main_win_id
    &&& c.layout_type == o.layout_type
    &&& c.geometry == o.geometry
    &&& c.remove_flag == o.remove_flag
    &&& !c.is_repositioned
    &&& children_unflagged(o.children@, c.children@)
}

/// The trees of `cs` are those of `os` with every repositioned flag cleared.
pub open spec fn children_unflagged(os: Seq<Container>, cs: Seq<Container>) -> bool
    decreases os,
{
    &&& os.len() == cs.len()
    &&& os.len() > 0 ==> {
        &&& children_unflagged(os.drop_last(), cs.drop_last())
        &&& node_unflagged(os.last(), cs.last())
    }
}

// ---------------------------------------------------------------------------
// Lemmas on the shape
// ---------------------------------------------------------------------------

pub proof fn lemma_height_of_child(s: Seq<Container>, i: int)
    requires
        0 <= i < s.len(),
    ensures
        height(s[i]) <= heights_max(s),
    decreases s.len(),
{
    if i < s.len() - 1 {
        lemma_height_of_child(s.drop_last(), i);
        assert(s.drop_last()[i] == s[i]);
    }
}

pub proof fn lemma_live_count_prefix(s: Seq<Container>, i: int)
    requires
        0 <= i <= s.len(),
    ensures
        live_count(s.subrange(0, i)) <= live_count(s),
        i < s.len() && is_live(s[i]) ==> live_count(s.subrange(0, i)) < live_count(s),
    decreases s.len() - i,
{
    if i < s.len() {
        lemma_live_count_prefix(s, i + 1);
        assert(s.subrange(0, i + 1).drop_last() =~= s.subrange(0, i));
    } else {
        assert(s.subrange(0, i) =~= s);
    }
}

proof fn lemma_span_fits(w: int, n: int, r: int)
    requires
        0 <= w,
        0 <= r < n,
    ensures
        0 <= r * (w / n) <= w,
{
    assert(0 <= w / n) by (nonlinear_arith)
        requires
            0 <= w,
            0 < n,
    ;
    assert(r * (w / n) <= n * (w / n)) by (nonlinear_arith)
        requires
            0 <= w / n,
            r < n,
    ;
    assert(n * (w / n) <= w) by (nonlinear_arith)
        requires
            0 <= w,
            0 < n,
    ;
    assert(0 <= r * (w / n)) by (nonlinear_arith)
        requires
            0 <= w / n,
            0 <= r,
    ;
}

proof fn lemma_find_prefix(s: Seq<Container>, by_frame: bool, h: u32, j: int)
    requires
        0 <= j <= s.len(),
        find_in_seq(s.subrange(0, j), by_frame, h) is Some,
    ensures
        find_in_seq(s, by_frame, h) == find_in_seq(s.subrange(0, j), by_frame, h),
    decreases s.len() - j,
{
    if j < s.len() {
        assert(s.subrange(0, j + 1).drop_last() =~= s.subrange(0, j));
        lemma_find_prefix(s, by_frame, h, j + 1);
    } else {
        assert(s.subrange(0, j) =~= s);
    }
}

proof fn lemma_first_with_window_prefix(s: Seq<Container>, h: WindowId, j: int)
    requires
        0 <= j <= s.len(),
        first_with_window(s.subrange(0, j), h) is Some,
    ensures
        first_with_window(s, h) == first_with_window(s.subrange(0, j), h),
    decreases s.len() - j,
{
    if j < s.len() {
        assert(s.subrange(0, j + 1).drop_last() =~= s.subrange(0, j));
        lemma_first_with_window_prefix(s, h, j + 1);
    } else {
        assert(s.subrange(0, j) =~= s);
    }
}

pub proof fn lemma_first_with_window_found(s: Seq<Container>, h: WindowId)
    ensures
        first_with_window(s, h) matches Some(i) ==> 0 <= i < s.len() && s[i].main_win_id == Some(h),
    decreases s.len(),
{
    if s.len() > 0 {
        lemma_first_with_window_found(s.drop_last(), h);
    }
}

/// The `i`-th child after a layout pass is the `i`-th child before it, given
/// the geometry of its rank and laid out in turn.
pub proof fn lemma_children_positioned_at(
    layout: LayoutType,
    g: Geometry,
    n: nat,
    os: Seq<Container>,
    ns: Seq<Container>,
    i: int,
)
    requires
        children_positioned(layout, g, n, os, ns),
        0 <= i < os.len(),
    ensures
        os.len() == ns.len(),
        child_positioned(slot(layout, g, n, live_rank(os, i)), os[i], ns[i]),
    decreases os.len(),
{
    if i == os.len() - 1 {
        assert(os.subrange(0, i) =~= os.drop_last());
    } else {
        lemma_children_positioned_at(layout, g, n, os.drop_last(), ns.drop_last(), i);
        assert(os.drop_last().subrange(0, i) =~= os.subrange(0, i));
    }
}

/// Cleaning keeps exactly the live children.
pub proof fn lemma_children_cleaned_len(os: Seq<Container>, ns: Seq<Container>)
    requires
        children_cleaned(os, ns),
    ensures
        ns.len() == live_count(os),
    decreases os.len(),
{
    if os.len() > 0 {
        if os.last().remove_flag {
            lemma_children_cleaned_len(os.drop_last(), ns);
        } else {
            lemma_children_cleaned_len(os.drop_last(), ns.drop_last());
        }
    }
}

/// A live child keeps its place among the live children when the others
/// are detached.
pub proof fn lemma_children_cleaned_at(os: Seq<Container>, ns: Seq<Container>, i: int)
    requires
        children_cleaned(os, ns),
        0 <= i < os.len(),
        is_live(os[i]),
    ensures
        live_rank(os, i) < ns.len(),
        node_cleaned(os[i], ns[live_rank(os, i) as int]),
    decreases os.len(),
{
    if i == os.len() - 1 {
        assert(os.subrange(0, i) =~= os.drop_last());
        lemma_children_cleaned_len(os.drop_last(), ns.drop_last());
    } else {
        assert(os.drop_last().subrange(0, i) =~= os.subrange(0, i));
        if os.last().remove_flag {
            lemma_children_cleaned_at(os.drop_last(), ns, i);
        } else {
            lemma_children_cleaned_at(os.drop_last(), ns.drop_last(), i);
        }
    }
}

/// The child found going back is another child, and a live one.
pub proof fn lemma_prev_live_from(s: Seq<Container>, i: int, d: int)
    requires
        0 <= i < s.len(),
    ensures
        prev_live_from(s, i, d) matches Some(j) ==> 0 <= j < s.len() && j != i && is_live(s[j]),
    decreases s.len() - d,
{
    if d >= s.len() || d < 1 {
    } else {
        if d <= i {
            vstd::arithmetic::div_mod::lemma_small_mod((i - d) as nat, s.len() as nat);
            vstd::arithmetic::div_mod::lemma_mod_add_multiples_vanish(i - d, s.len() as int);
        } else {
            vstd::arithmetic::div_mod::lemma_small_mod((i - d + s.len()) as nat, s.len() as nat);
        }
        lemma_prev_live_from(s, i, d + 1);
    }
}

/// The sibling chosen to take the focus is another child, and a live one.
pub proof fn lemma_next_live_from(s: Seq<Container>, i: int, d: int)
    requires
        0 <= i < s.len(),
    ensures
        next_live_from(s, i, d) matches Some(j) ==> 0 <= j < s.len() && j != i && is_live(s[j]),
    decreases s.len() - d,
{
    if d >= s.len() || d < 1 {
    } else {
        let j = (i + d) % (s.len() as int);
        if d < s.len() - i {
            vstd::arithmetic::div_mod::lemma_small_mod((i + d) as nat, s.len() as nat);
        } else {
            vstd::arithmetic::div_mod::lemma_small_mod((i + d - s.len()) as nat, s.len() as nat);
            vstd::arithmetic::div_mod::lemma_mod_add_multiples_vanish(i + d - s.len(), s.len() as int);
        }
        lemma_next_live_from(s, i, d + 1);
    }
}

// ---------------------------------------------------------------------------
// Laws of the layout pass and of two-phase removal
// ---------------------------------------------------------------------------

/// Start and extent of `g` along the split axis of a horizontal
/// (`horizontal`) or vertical layout.
pub open spec fn along(g: Geometry, horizontal: bool) -> (int, int) {
    if horizontal {
        (g.x as int, g.width as int)
    } else {
        (g.y as int, g.height as int)
    }
}

/// Start and extent of `g` across the split axis.
pub open spec fn across(g: Geometry, horizontal: bool) -> (int, int) {
    if horizontal {
        (g.y as int, g.height as int)
    } else {
        (g.x as int, g.width as int)
    }
}

/// Sum of the extents along the split axis of the live containers of `s`.
pub open spec fn live_extent_sum(s: Seq<Container>, horizontal: bool) -> int
    decreases s.len(),
{
    if s.len() == 0 {
        0
    } else {
        live_extent_sum(s.drop_last(), horizontal) + if is_live(s.last()) {
            along(s.last().geometry, horizontal).1
        } else {
            0
        }
    }
}

/// The trees `b` and `c` agree on every node: handles, layout, geometry,
/// flags and shape.
pub open spec fn tree_eq(b: Container, c: Container) -> bool
    decreases b,
{
    &&& same_own(b, c)
    &&& trees_eq(b.children@, c.children@)
}

/// The trees of `bs` and `cs` agree one by one (see `tree_eq`).
pub open spec fn trees_eq(bs: Seq<Container>, cs: Seq<Container>) -> bool
    decreases bs,
{
    &&& bs.len() == cs.len()
    &&& bs.len() > 0 ==> {
        &&& trees_eq(bs.drop_last(), cs.drop_last())
        &&& tree_eq(bs.last(), cs.last())
    }
}

/// No container of the tree `c` is marked for removal.
pub open spec fn all_live(c: Container) -> bool
    decreases c,
{
    &&& is_live(c)
    &&& all_live_in(c.children@)
}

/// No container of the trees of `s` is marked for removal.
pub open spec fn all_live_in(s: Seq<Container>) -> bool
    decreases s,
{
    s.len() > 0 ==> {
        &&& all_live_in(s.drop_last())
        &&& all_live(s.last())
    }
}

/// `g` fits in the `u32` coordinate space.
pub open spec fn fits(g: Geometry) -> bool {
    &&& g.x + g.width <= u32::MAX
    &&& g.y + g.height <= u32::MAX
}

/// The live children `cs` of a group with layout `layout` and geometry `g`
/// share it as the layout says: a horizontal or vertical group is tiled in
/// order along its axis, each child spanning the group across it; a
/// floating or tabbed group gives each child its whole geometry.
pub open spec fn tiles(layout: LayoutType, g: Geometry, cs: Seq<Container>) -> bool {
    live_count(cs) >= 1 ==> if layout == LayoutType::Horizontal || layout == LayoutType::Vertical {
        let hz = layout == LayoutType::Horizontal;
        let (start, extent) = along(g, hz);
        &&& forall|i: int|
            0 <= i < cs.len() && is_live(#[trigger] cs[i]) ==> {
                &&& across(cs[i].geometry, hz) == across(g, hz)
                &&& start <= along(cs[i].geometry, hz).0
                &&& along(cs[i].geometry, hz).0 + along(cs[i].geometry, hz).1 <= start + extent
            }
        &&& forall|i: int, j: int|
            0 <= i < j < cs.len() && is_live(#[trigger] cs[i]) && is_live(#[trigger] cs[j]) ==>
                along(cs[i].geometry, hz).0 + along(cs[i].geometry, hz).1 <= along(cs[j].geometry, hz).0
        &&& live_extent_sum(cs, hz) == extent
    } else {
        forall|i: int| 0 <= i < cs.len() && is_live(#[trigger] cs[i]) ==> cs[i].geometry == g
    }
}

/// Every group of the tree `c` reached through live containers shares its
/// geometry among its live children as its layout says (see `tiles`).
pub open spec fn tiled(c: Container) -> bool
    decreases c,
{
    &&& tiles(c.layout_type, c.geometry, c.children@)
    &&& tiled_in(c.children@)
}

/// Every live tree of `s` is `tiled`.
pub open spec fn tiled_in(s: Seq<Container>) -> bool
    decreases s,
{
    s.len() > 0 ==> {
        &&& tiled_in(s.drop_last())
        &&& is_live(s.last()) ==> tiled(s.last())
    }
}

proof fn lemma_live_rank_increases(s: Seq<Container>, i: int, j: int)
    requires
        0 <= i < j <= s.len(),
        is_live(s[i]),
    ensures
        live_rank(s, i) < live_rank(s, j),
{
    lemma_live_count_prefix(s.subrange(0, j), i);
    assert(s.subrange(0, j).subrange(0, i) =~= s.subrange(0, i));
}

/// A layout pass keeps every flag, so it keeps the live count of every
/// prefix.
proof fn lemma_positioned_live_count(
    layout: LayoutType,
    g: Geometry,
    n: nat,
    os: Seq<Container>,
    ns: Seq<Container>,
)
    requires
        children_positioned(layout, g, n, os, ns),
    ensures
        live_count(ns) == live_count(os),
        forall|k: int| 0 <= k < os.len() ==> #[trigger] ns[k].remove_flag == os[k].remove_flag,
    decreases os.len(),
{
    if os.len() > 0 {
        lemma_positioned_live_count(layout, g, n, os.drop_last(), ns.drop_last());
        let cg = slot(layout, g, n, live_count(os.drop_last()));
        assert(child_positioned(cg, os.last(), ns.last()));
        assert(ns.last().remove_flag == os.last().remove_flag);
        assert forall|k: int| 0 <= k < os.len() implies #[trigger] ns[k].remove_flag == os[k].remove_flag by {
            if k < os.len() - 1 {
                assert(ns.drop_last()[k] == ns[k]);
                assert(os.drop_last()[k] == os[k]);
                assert(ns.drop_last()[k].remove_flag == os.drop_last()[k].remove_flag);
            } else {
                assert(os.last() == os[k]);
                assert(ns.last() == ns[k]);
            }
        }
    }
}

/// The live children of a horizontal (or vertical) group, after a layout
/// pass, tile its width (or height) in order: each starts where the live
/// ones before it end, none overlaps another, their extents add up to the
/// group's, and each has the group's full height (or width). This holds at
/// every level: `repositioned_from(o, c)` gives it for `o`'s children
/// (`layout`, `g` being `o`'s layout and geometry), and `child_positioned`
/// gives it for the children of every live child, at the child's new
/// geometry. The group has to fit in the `u32` coordinate space.
pub proof fn lemma_split_partition(layout: LayoutType, g: Geometry, os: Seq<Container>, cs: Seq<Container>)
    requires
        children_positioned(layout, g, live_count(os), os, cs),
        layout == LayoutType::Horizontal || layout == LayoutType::Vertical,
        live_count(os) >= 1,
        g.x + g.width <= u32::MAX,
        g.y + g.height <= u32::MAX,
    ensures
        ({
            let hz = layout == LayoutType::Horizontal;
            let (start, extent) = along(g, hz);
            &&& cs.len() == os.len()
            &&& forall|i: int|
                0 <= i < cs.len() && is_live(#[trigger] cs[i]) ==> {
                    &&& across(cs[i].geometry, hz) == across(g, hz)
                    &&& start <= along(cs[i].geometry, hz).0
                    &&& along(cs[i].geometry, hz).0 + along(cs[i].geometry, hz).1 <= start + extent
                }
            &&& forall|i: int, j: int|
                0 <= i < j < cs.len() && is_live(#[trigger] cs[i]) && is_live(#[trigger] cs[j]) ==>
                    along(cs[i].geometry, hz).0 + along(cs[i].geometry, hz).1 <= along(cs[j].geometry, hz).0
            &&& live_extent_sum(cs, hz) == extent
        }),
{
    let hz = layout == LayoutType::Horizontal;
    let n = live_count(os);
    let (start, extent) = along(g, hz);
    let unit = extent / n as int;
    lemma_positioned_live_count(layout, g, n, os, cs);
    assert forall|i: int| 0 <= i < cs.len() && is_live(#[trigger] cs[i]) implies is_live(os[i])
        && cs[i].geometry == slot(layout, g, n, live_rank(os, i)) by {
        lemma_children_positioned_at(layout, g, n, os, cs, i);
    }
    assert forall|i: int| 0 <= i < cs.len() && is_live(#[trigger] cs[i]) implies {
        let r = live_rank(os, i) as int;
        &&& r < n
        &&& along(cs[i].geometry, hz).0 == start + r * unit
        &&& along(cs[i].geometry, hz).1 == if r + 1 == n { extent - r * unit } else { unit }
        &&& across(cs[i].geometry, hz) == across(g, hz)
        &&& start <= along(cs[i].geometry, hz).0
        &&& along(cs[i].geometry, hz).0 + along(cs[i].geometry, hz).1 <= start + extent
    } by {
        let r = live_rank(os, i) as int;
        lemma_live_count_prefix(os, i);
        lemma_span_fits(extent, n as int, r);
        assert(r * unit + unit <= extent) by (nonlinear_arith)
            requires
                r + 1 <= n,
                unit == extent / (n as int),
                0 <= extent,
                0 < n,
        {
            assert((r + 1) * unit <= n * unit) by (nonlinear_arith)
                requires r + 1 <= n, 0 <= unit;
            assert(n * unit <= extent) by (nonlinear_arith)
                requires unit == extent / (n as int), 0 <= extent, 0 < n;
        }
    }
    assert forall|i: int, j: int|
        0 <= i < j < cs.len() && is_live(#[trigger] cs[i]) && is_live(#[trigger] cs[j]) implies
            along(cs[i].geometry, hz).0 + along(cs[i].geometry, hz).1 <= along(cs[j].geometry, hz).0 by {
        lemma_live_rank_increases(os, i, j);
        let ri = live_rank(os, i) as int;
        let rj = live_rank(os, j) as int;
        assert(ri * unit + unit <= rj * unit) by (nonlinear_arith)
            requires ri + 1 <= rj, 0 <= unit;
    }
    lemma_partition_sum(layout, g, os, cs, cs.len() as int);
    assert(cs.subrange(0, cs.len() as int) =~= cs);
    assert(os.subrange(0, os.len() as int) =~= os);
}

/// The live extents of the first `j` children after a layout pass add up to
/// their number times the unit span, or to the whole extent once the last
/// live child is among them.
proof fn lemma_partition_sum(layout: LayoutType, g: Geometry, os: Seq<Container>, cs: Seq<Container>, j: int)
    requires
        layout == LayoutType::Horizontal || layout == LayoutType::Vertical,
        live_count(os) >= 1,
        0 <= j <= cs.len(),
        cs.len() == os.len(),
        forall|i: int| 0 <= i < cs.len() ==> #[trigger] cs[i].remove_flag == os[i].remove_flag,
        forall|i: int| 0 <= i < cs.len() && is_live(#[trigger] cs[i]) ==> {
            let hz = layout == LayoutType::Horizontal;
            let r = live_rank(os, i) as int;
            let n = live_count(os) as int;
            let unit = along(g, hz).1 / n;
            &&& r < n
            &&& along(cs[i].geometry, hz).1 == if r + 1 == n { along(g, hz).1 - r * unit } else { unit }
        },
    ensures
        ({
            let hz = layout == LayoutType::Horizontal;
            let n = live_count(os) as int;
            let k = live_count(os.subrange(0, j)) as int;
            let unit = along(g, hz).1 / n;
            live_extent_sum(cs.subrange(0, j), hz) == if k < n { k * unit } else { along(g, hz).1 }
        }),
    decreases j,
{
    let hz = layout == LayoutType::Horizontal;
    if j > 0 {
        lemma_partition_sum(layout, g, os, cs, j - 1);
        assert(cs.subrange(0, j).drop_last() =~= cs.subrange(0, j - 1));
        assert(os.subrange(0, j).drop_last() =~= os.subrange(0, j - 1));
        assert(cs.subrange(0, j).last() == cs[j - 1]);
        assert(os.subrange(0, j).last() == os[j - 1]);
        let n = live_count(os) as int;
        let unit = along(g, hz).1 / n;
        let r = live_count(os.subrange(0, j - 1)) as int;
        if is_live(cs[j - 1]) {
            assert((r + 1) * unit == r * unit + unit) by (nonlinear_arith);
        }
    }
}

/// In a floating or tabbed group, after a layout pass, every live child has
/// exactly the group's geometry; at every level, as for
/// `lemma_split_partition`.
pub proof fn lemma_stack_same_geometry(layout: LayoutType, g: Geometry, os: Seq<Container>, cs: Seq<Container>)
    requires
        children_positioned(layout, g, live_count(os), os, cs),
        layout == LayoutType::Floating || layout == LayoutType::Tabbed,
    ensures
        cs.len() == os.len(),
        forall|i: int| 0 <= i < cs.len() && is_live(#[trigger] cs[i]) ==> cs[i].geometry == g,
{
    assert forall|i: int| 0 <= i < cs.len() && is_live(#[trigger] cs[i]) implies cs[i].geometry == g by {
        lemma_children_positioned_at(layout, g, live_count(os), os, cs, i);
    }
    if os.len() > 0 {
        lemma_children_positioned_at(layout, g, live_count(os), os, cs, 0);
    }
}

/// A layout pass tiles its group: the live children share the group's
/// geometry as `tiles` says.
proof fn lemma_level_tiles(layout: LayoutType, g: Geometry, os: Seq<Container>, cs: Seq<Container>)
    requires
        children_positioned(layout, g, live_count(os), os, cs),
        fits(g),
    ensures
        tiles(layout, g, cs),
        forall|i: int| 0 <= i < cs.len() && is_live(#[trigger] cs[i]) ==> fits(cs[i].geometry),
{
    lemma_positioned_live_count(layout, g, live_count(os), os, cs);
    if live_count(cs) >= 1 {
        if layout == LayoutType::Horizontal || layout == LayoutType::Vertical {
            lemma_split_partition(layout, g, os, cs);
        } else {
            lemma_stack_same_geometry(layout, g, os, cs);
        }
    } else {
        assert forall|i: int| 0 <= i < cs.len() && is_live(#[trigger] cs[i]) implies fits(cs[i].geometry) by {
            lemma_live_count_prefix(cs, i);
        }
    }
}

proof fn lemma_tiled_child(cg: Geometry, o: Container, c: Container)
    requires
        child_positioned(cg, o, c),
        !o.remove_flag,
        fits(cg),
    ensures
        tiled(c),
    decreases o,
{
    let n = live_count(o.children@);
    lemma_level_tiles(o.layout_type, cg, o.children@, c.children@);
    lemma_tiled_children(o.layout_type, cg, n, o.children@, c.children@);
}

proof fn lemma_tiled_children(layout: LayoutType, g: Geometry, n: nat, os: Seq<Container>, cs: Seq<Container>)
    requires
        children_positioned(layout, g, n, os, cs),
        forall|i: int| 0 <= i < cs.len() && is_live(#[trigger] cs[i]) ==> fits(cs[i].geometry),
    ensures
        tiled_in(cs),
    decreases os,
{
    if os.len() > 0 {
        let k = os.len() - 1;
        assert forall|i: int| 0 <= i < cs.drop_last().len() && is_live(#[trigger] cs.drop_last()[i]) implies fits(
            cs.drop_last()[i].geometry,
        ) by {
            assert(cs.drop_last()[i] == cs[i]);
        }
        lemma_tiled_children(layout, g, n, os.drop_last(), cs.drop_last());
        let cg = slot(layout, g, n, live_count(os.drop_last()));
        assert(child_positioned(cg, os.last(), cs.last()));
        if is_live(cs.last()) {
            assert(cs.last() == cs[k]);
            assert(!os.last().remove_flag);
            lemma_tiled_child(cg, os.last(), cs.last());
        }
    }
}

/// After a layout pass over `o`, the whole tree is tiled: `o`, and every
/// group below it reached through live containers, shares its geometry
/// among its live children as its layout says, each nested group from the
/// geometry it was just given. `o` has to fit in the `u32` coordinate space.
pub proof fn lemma_reposition_tiles_tree(o: Container, c: Container)
    requires
        repositioned_from(o, c),
        fits(o.geometry),
    ensures
        tiled(c),
{
    let n = live_count(o.children@);
    lemma_level_tiles(o.layout_type, o.geometry, o.children@, c.children@);
    lemma_tiled_children(o.layout_type, o.geometry, n, o.children@, c.children@);
}

proof fn lemma_tree_eq_refl(c: Container)
    ensures
        tree_eq(c, c),
    decreases c,
{
    lemma_trees_eq_refl(c.children@);
}

proof fn lemma_trees_eq_refl(s: Seq<Container>)
    ensures
        trees_eq(s, s),
    decreases s,
{
    if s.len() > 0 {
        lemma_trees_eq_refl(s.drop_last());
        lemma_tree_eq_refl(s.last());
    }
}

proof fn lemma_idempotent_child(cg: Geometry, o: Container, x: Container, y: Container)
    requires
        child_positioned(cg, o, x),
        child_positioned(cg, x, y),
    ensures
        tree_eq(x, y),
    decreases o,
{
    if o.remove_flag {
        lemma_tree_eq_refl(x);
    } else {
        lemma_positioned_live_count(o.layout_type, cg, live_count(o.children@), o.children@, x.children@);
        lemma_idempotent_children(o.layout_type, cg, live_count(o.children@), o.children@, x.children@, y.children@);
    }
}

proof fn lemma_idempotent_children(
    layout: LayoutType,
    g: Geometry,
    n: nat,
    os: Seq<Container>,
    xs: Seq<Container>,
    ys: Seq<Container>,
)
    requires
        children_positioned(layout, g, n, os, xs),
        children_positioned(layout, g, n, xs, ys),
    ensures
        trees_eq(xs, ys),
    decreases os,
{
    if os.len() > 0 {
        lemma_positioned_live_count(layout, g, n, os.drop_last(), xs.drop_last());
        lemma_idempotent_children(layout, g, n, os.drop_last(), xs.drop_last(), ys.drop_last());
        lemma_idempotent_child(
            slot(layout, g, n, live_count(os.drop_last())),
            os.last(),
            xs.last(),
            ys.last(),
        );
    }
}

/// A second layout pass with nothing changed in between gives the same tree
/// again: the same geometry and the same flags at every node.
pub proof fn lemma_reposition_idempotent(a: Container, b: Container, c: Container)
    requires
        repositioned_from(a, b),
        repositioned_from(b, c),
    ensures
        tree_eq(b, c),
{
    lemma_positioned_live_count(a.layout_type, a.geometry, live_count(a.children@), a.children@, b.children@);
    lemma_idempotent_children(a.layout_type, a.geometry, live_count(a.children@), a.children@, b.children@, c.children@);
}

pub proof fn lemma_removed_in_has(s: Seq<Container>, k: int)
    requires
        0 <= k < s.len(),
        s[k].remove_flag,
    ensures
        removed_in(s).contains(s[k]),
    decreases s.len(),
{
    if k < s.len() - 1 {
        lemma_removed_in_has(s.drop_last(), k);
        let r = removed_in(s.drop_last());
        assert(r.contains(s[k]));
        let w = choose|w: int| 0 <= w < r.len() && r[w] == s[k];
        assert(removed_in(s)[w] == s[k]);
    } else {
        let r = removed_in(s.drop_last());
        assert(removed_in(s)[r.len() as int] == s[k]);
    }
}

/// What a tree of `s` reports as removed, `s` reports too.
pub proof fn lemma_removed_in_sub(s: Seq<Container>, k: int, x: Container)
    requires
        0 <= k < s.len(),
        removed_below(s[k]).contains(x),
    ensures
        removed_in(s).contains(x),
    decreases s.len(),
{
    let r = removed_in(s);
    if k < s.len() - 1 {
        lemma_removed_in_sub(s.drop_last(), k, x);
        let a = removed_in(s.drop_last());
        let w = choose|w: int| 0 <= w < a.len() && a[w] == x;
        assert(r[w] == x);
    } else {
        let a = removed_in(s.drop_last()) + (if s.last().remove_flag {
            seq![s.last()]
        } else {
            Seq::empty()
        });
        let b = removed_below(s.last());
        assert(r =~= a + b);
        let w = choose|w: int| 0 <= w < b.len() && b[w] == x;
        assert(r[a.len() + w] == x);
    }
}

/// When a tree of `s` holds a container with handle `h`, a search of `s`
/// finds one.
pub proof fn lemma_find_in_seq_sub(s: Seq<Container>, k: int, by_frame: bool, h: u32)
    requires
        0 <= k < s.len(),
        find_in(s[k], by_frame, h) is Some,
    ensures
        find_in_seq(s, by_frame, h) is Some,
    decreases s.len(),
{
    if k < s.len() - 1 {
        lemma_find_in_seq_sub(s.drop_last(), k, by_frame, h);
    } else {
        assert(s.last() == s[k]);
    }
}

proof fn lemma_find_in_seq_has(s: Seq<Container>, k: int, by_frame: bool, h: u32)
    requires
        0 <= k < s.len(),
        has_handle(s[k], by_frame, h),
    ensures
        find_in_seq(s, by_frame, h) is Some,
    decreases s.len(),
{
    if k < s.len() - 1 {
        lemma_find_in_seq_has(s.drop_last(), k, by_frame, h);
    } else {
        assert(s.last() == s[k]);
        assert(find_in(s[k], by_frame, h) == Some(s[k]));
    }
}

/// Right after the window `h` is marked for removal in `o`, its container
/// is still in the tree, is reported among the removed containers, and a
/// search for `h` still finds a container.
pub proof fn lemma_marked_window_reported(o: Container, c: Container, h: WindowId)
    requires
        window_removed_from(o, c, h),
        first_with_window(o.children@, h) is Some,
    ensures
        ({
            let i = first_with_window(o.children@, h)->0;
            &&& 0 <= i < c.children@.len()
            &&& c.children@[i].main_win_id == Some(h)
            &&& c.children@[i].remove_flag
            &&& removed_below(c).contains(c.children@[i])
            &&& find_by_window(c, h) is Some
        }),
{
    let i = first_with_window(o.children@, h)->0;
    lemma_first_with_window_found(o.children@, h);
    let ms = o.children@.update(i, marked(o.children@[i]));
    lemma_children_positioned_at(o.layout_type, o.geometry, live_count(ms), ms, c.children@, i);
    lemma_removed_in_has(c.children@, i);
    lemma_find_in_seq_has(c.children@, i, false, h);
}

proof fn lemma_cleaned_all_live(o: Container, c: Container)
    requires
        node_cleaned(o, c),
        is_live(o),
    ensures
        all_live(c),
    decreases o,
{
    lemma_cleaned_children_all_live(o.children@, c.children@);
}

proof fn lemma_cleaned_children_all_live(os: Seq<Container>, cs: Seq<Container>)
    requires
        children_cleaned(os, cs),
    ensures
        all_live_in(cs),
    decreases os,
{
    if os.len() > 0 {
        if os.last().remove_flag {
            lemma_cleaned_children_all_live(os.drop_last(), cs);
        } else {
            lemma_cleaned_children_all_live(os.drop_last(), cs.drop_last());
            lemma_cleaned_all_live(os.last(), cs.last());
        }
    }
}

proof fn lemma_all_live_nothing_removed(c: Container, by_frame: bool, h: u32)
    requires
        all_live(c),
    ensures
        removed_below(c) =~= Seq::<Container>::empty(),
        find_in(c, by_frame, h) matches Some(x) ==> is_live(x),
    decreases c,
{
    lemma_all_live_in_nothing_removed(c.children@, by_frame, h);
}

proof fn lemma_all_live_in_nothing_removed(s: Seq<Container>, by_frame: bool, h: u32)
    requires
        all_live_in(s),
    ensures
        removed_in(s) =~= Seq::<Container>::empty(),
        find_in_seq(s, by_frame, h) matches Some(x) ==> is_live(x),
    decreases s,
{
    if s.len() > 0 {
        lemma_all_live_in_nothing_removed(s.drop_last(), by_frame, h);
        lemma_all_live_nothing_removed(s.last(), by_frame, h);
    }
}

/// Once the subtrees marked for removal are detached from a live container,
/// no container of the tree is marked any more: the removed ones are gone
/// from it, nothing is reported as removed, and a search only finds
/// containers that are not marked.
pub proof fn lemma_detached_gone(o: Container, c: Container, h: WindowId)
    requires
        node_cleaned(o, c),
        is_live(o),
    ensures
        all_live(c),
        removed_below(c) =~= Seq::<Container>::empty(),
        find_by_window(c, h) matches Some(x) ==> is_live(x),
{
    lemma_cleaned_all_live(o, c);
    lemma_all_live_nothing_removed(c, false, h);
}

/// The `i`-th tree after clearing the flags is the `i`-th tree before it,
/// cleared.
pub proof fn lemma_children_unflagged_at(os: Seq<Container>, cs: Seq<Container>, i: int)
    requires
        children_unflagged(os, cs),
        0 <= i < os.len(),
    ensures
        os.len() == cs.len(),
        node_unflagged(os[i], cs[i]),
    decreases os.len(),
{
    if i < os.len() - 1 {
        lemma_children_unflagged_at(os.drop_last(), cs.drop_last(), i);
    }
}

proof fn lemma_unflagged_no_leaves(os: Seq<Container>, cs: Seq<Container>)
    requires
        children_unflagged(os, cs),
    ensures
        repositioned_leaves_in(cs) =~= Seq::<Container>::empty(),
    decreases os.len(),
{
    if os.len() > 0 {
        lemma_unflagged_no_leaves(os.drop_last(), cs.drop_last());
        assert(node_unflagged(os.last(), cs.last()));
        assert(!cs.last().is_repositioned);
        assert(repositioned_leaves_in(cs) =~= repositioned_leaves_in(cs.drop_last()) + Seq::<Container>::empty());
    }
}

// ---------------------------------------------------------------------------
// Executable layout
// ---------------------------------------------------------------------------

/// Geometry of the live child of rank `r` among `n` live children.
pub fn child_geometry(layout: LayoutType, g: Geometry, n: usize, r: usize) -> (res: Geometry)
    requires
        r < n,
    ensures
        res == slot(layout, g, n as nat, r as nat),
{
    match layout {
        LayoutType::Horizontal => {
            let unit: u64 = (g.width as u64) / (n as u64);
            proof {
                lemma_span_fits(g.width as int, n as int, r as int);
            }
            let offset: u64 = (r as u64) * unit;
            let x: u64 = g.x as u64 + offset;
            let width: u64 = if r + 1 == n {
                g.width as u64 - offset
            } else {
                unit
            };
            Geometry {
                x: if x > u32::MAX as u64 {
                    u32::MAX
                } else {
                    x as u32
                },
                y: g.y,
                width: width as u32,
                height: g.height,
            }
        },
        LayoutType::Vertical => {
            let unit: u64 = (g.height as u64) / (n as u64);
            proof {
                lemma_span_fits(g.height as int, n as int, r as int);
            }
            let offset: u64 = (r as u64) * unit;
            let y: u64 = g.y as u64 + offset;
            let height: u64 = if r + 1 == n {
                g.height as u64 - offset
            } else {
                unit
            };
            Geometry {
                x: g.x,
                y: if y > u32::MAX as u64 {
                    u32::MAX
                } else {
                    y as u32
                },
                width: g.width,
                height: height as u32,
            }
        },
        LayoutType::Floating => g,
        LayoutType::Tabbed => g,
    }
}

/// Number of live containers in `s`.
pub fn count_live(s: &Vec<Container>) -> (n: usize)
    ensures
        n == live_count(s@),
{
    let mut n: usize = 0;
    let mut i: usize = 0;
    while i < s.len()
        invariant
            i <= s@.len(),
            n == live_count(s@.subrange(0, i as int)),
            n <= i,
        decreases s@.len() - i,
    {
        assert(s@.subrange(0, i as int + 1).drop_last() =~= s@.subrange(0, i as int));
        if !s[i].remove_flag {
            n = n + 1;
        }
        i = i + 1;
    }
    assert(s@.subrange(0, s@.len() as int) =~= s@);
    n
}

/// Lays out the children `os` of a node with layout `layout` and geometry
/// `g`, each live one recursively, and marks the live ones as repositioned.
fn position_children(os: Vec<Container>, layout: LayoutType, g: Geometry) -> (ns: Vec<Container>)
    ensures
        children_positioned(layout, g, live_count(os@), os@, ns@),
    decreases heights_max(os@),
{
    let n = count_live(&os);
    let ghost s = os@;
    let mut rest = os;
    let mut done: Vec<Container> = Vec::new();
    let mut rank: usize = 0;
    while rest.len() > 0
        invariant
            s == os@,
            n == live_count(s),
            done@.len() + rest@.len() == s.len(),
            rest@ == s.subrange(done@.len() as int, s.len() as int),
            rank == live_count(s.subrange(0, done@.len() as int)),
            children_positioned(layout, g, n as nat, s.subrange(0, done@.len() as int), done@),
        decreases rest@.len(),
    {
        let ghost k = done@.len() as int;
        let mut c = rest.remove(0);
        assert(c == s[k]);
        assert(s.subrange(0, k + 1).drop_last() =~= s.subrange(0, k));
        assert(s.subrange(0, k + 1).last() == s[k]);
        proof {
            lemma_live_count_prefix(s, k);
            lemma_height_of_child(s, k);
        }
        let ghost cg = slot(layout, g, n as nat, rank as nat);
        if !c.remove_flag {
            let cgeom = child_geometry(layout, g, n, rank);
            let mut grand: Vec<Container> = Vec::new();
            std::mem::swap(&mut c.children, &mut grand);
            assert(heights_max(grand@) < height(s[k]));
            c.children = position_children(grand, c.layout_type, cgeom);
            c.geometry = cgeom;
            c.is_repositioned = true;
            rank = rank + 1;
        }
        assert(child_positioned(cg, s[k], c));
        let ghost prev = done@;
        done.push(c);
        assert(done@.drop_last() =~= prev);
        assert(done@.last() == c);
    }
    assert(s.subrange(0, s.len() as int) =~= s);
    done
}

impl Geometry {
    pub fn new(x: u32, y: u32, width: u32, height: u32) -> (g: Geometry)
        ensures
            g == (Geometry { x, y, width, height }),
    {
        Geometry { x, y, width, height }
    }
}

/// Whether `c` carries handle `h` (see `has_handle`).
fn carries(c: &Container, by_frame: bool, h: u32) -> (b: bool)
    ensures
        b == has_handle(*c, by_frame, h),
{
    let id = if by_frame {
        c.frame_win_id
    } else {
        c.main_win_id
    };
    match id {
        Some(v) => v == h,
        None => false,
    }
}

/// Appends the repositioned leaves below `c` to `out`.
fn collect_leaves<'a>(c: &'a Container, out: &mut Vec<&'a Container>)
    ensures
        deref_all(final(out)@) == deref_all(old(out)@) + repositioned_leaves(*c),
    decreases height(*c),
{
    let ghost s = c.children@;
    let ghost start = deref_all(out@);
    let mut i: usize = 0;
    while i < c.children.len()
        invariant
            s == c.children@,
            i <= s.len(),
            deref_all(out@) == start + repositioned_leaves_in(s.subrange(0, i as int)),
        decreases s.len() - i,
    {
        assert(s.subrange(0, i as int + 1).drop_last() =~= s.subrange(0, i as int));
        let child = &c.children[i];
        proof {
            lemma_height_of_child(s, i as int);
        }
        let ghost before = deref_all(out@);
        if child.is_repositioned {
            if child.children.len() == 0 {
                out.push(child);
                assert(deref_all(out@) =~= before + seq![*child]);
            } else {
                collect_leaves(child, out);
            }
        }
        assert(deref_all(out@) =~= start + repositioned_leaves_in(s.subrange(0, i as int + 1)));
        i = i + 1;
    }
    assert(s.subrange(0, s.len() as int) =~= s);
}

/// Appends the containers below `c` that are marked for removal to `out`.
fn collect_removed<'a>(c: &'a Container, out: &mut Vec<&'a Container>)
    ensures
        deref_all(final(out)@) == deref_all(old(out)@) + removed_below(*c),
    decreases height(*c),
{
    let ghost s = c.children@;
    let ghost start = deref_all(out@);
    let mut i: usize = 0;
    while i < c.children.len()
        invariant
            s == c.children@,
            i <= s.len(),
            deref_all(out@) == start + removed_in(s.subrange(0, i as int)),
        decreases s.len() - i,
    {
        assert(s.subrange(0, i as int + 1).drop_last() =~= s.subrange(0, i as int));
        let child = &c.children[i];
        proof {
            lemma_height_of_child(s, i as int);
        }
        let ghost before = deref_all(out@);
        if child.remove_flag {
            out.push(child);
            assert(deref_all(out@) =~= before + seq![*child]);
        }
        let ghost mid = deref_all(out@);
        collect_removed(child, out);
        assert(deref_all(out@) =~= start + removed_in(s.subrange(0, i as int + 1)));
        i = i + 1;
    }
    assert(s.subrange(0, s.len() as int) =~= s);
}

/// The children `os` without those marked for removal, the kept ones
/// cleaned in turn.
fn clean_children(os: Vec<Container>) -> (ns: Vec<Container>)
    ensures
        children_cleaned(os@, ns@),
    decreases heights_max(os@),
{
    let ghost s = os@;
    let total = os.len();
    let mut rest = os;
    let mut done: Vec<Container> = Vec::new();
    let mut k: usize = 0;
    while rest.len() > 0
        invariant
            s == os@,
            s.len() == total,
            k + rest@.len() == s.len(),
            rest@ == s.subrange(k as int, s.len() as int),
            children_cleaned(s.subrange(0, k as int), done@),
        decreases rest@.len(),
    {
        let mut c = rest.remove(0);
        assert(c == s[k as int]);
        assert(s.subrange(0, k + 1).drop_last() =~= s.subrange(0, k as int));
        assert(s.subrange(0, k + 1).last() == s[k as int]);
        proof {
            lemma_height_of_child(s, k as int);
        }
        if !c.remove_flag {
            let mut grand: Vec<Container> = Vec::new();
            std::mem::swap(&mut c.children, &mut grand);
            c.children = clean_children(grand);
            assert(node_cleaned(s[k as int], c));
            let ghost prev = done@;
            done.push(c);
            assert(done@.drop_last() =~= prev);
            assert(done@.last() == c);
            assert(children_cleaned(s.subrange(0, k + 1), done@));
        } else {
            assert(children_cleaned(s.subrange(0, k + 1), done@));
        }
        k = k + 1;
    }
    assert(s.subrange(0, s.len() as int) =~= s);
    done
}

/// Index of the live child after (`forward`) or before the `i`-th of `s` in
/// cyclic order, other than the `i`-th itself.
pub fn cyclic_live_index(s: &Vec<Container>, i: usize, forward: bool) -> (r: Option<usize>)
    requires
        i < s@.len(),
    ensures
        r matches Some(j) ==> cyclic_live(s@, i as int, forward) == Some(j as int) && j < s@.len(),
        r is None ==> cyclic_live(s@, i as int, forward) is None,
{
    let len = s.len();
    let mut d: usize = 1;
    while d < len
        invariant
            len == s@.len(),
            i < len,
            1 <= d,
            cyclic_live(s@, i as int, forward) == if forward {
                next_live_from(s@, i as int, d as int)
            } else {
                prev_live_from(s@, i as int, d as int)
            },
        decreases len - d,
    {
        let j = if forward {
            if d >= len - i {
                d - (len - i)
            } else {
                i + d
            }
        } else {
            if d <= i {
                i - d
            } else {
                i + (len - d)
            }
        };
        proof {
            if forward {
                if d >= len - i {
                    vstd::arithmetic::div_mod::lemma_small_mod(j as nat, len as nat);
                    vstd::arithmetic::div_mod::lemma_mod_add_multiples_vanish(j as int, len as int);
                } else {
                    vstd::arithmetic::div_mod::lemma_small_mod(j as nat, len as nat);
                }
                assert(j as int == (i + d) as int % (len as int));
            } else {
                if d <= i {
                    vstd::arithmetic::div_mod::lemma_small_mod(j as nat, len as nat);
                    vstd::arithmetic::div_mod::lemma_mod_add_multiples_vanish(j as int, len as int);
                } else {
                    vstd::arithmetic::div_mod::lemma_small_mod(j as nat, len as nat);
                }
                assert(j as int == (i - d + len) as int % (len as int));
            }
        }
        if !s[j].remove_flag {
            return Some(j);
        }
        d = d + 1;
    }
    None
}

/// The children `os` with every repositioned flag in their trees cleared.
fn unflag_children(os: Vec<Container>) -> (ns: Vec<Container>)
    ensures
        children_unflagged(os@, ns@),
    decreases heights_max(os@),
{
    let ghost s = os@;
    let total = os.len();
    let mut rest = os;
    let mut done: Vec<Container> = Vec::new();
    while rest.len() > 0
        invariant
            s == os@,
            s.len() == total,
            done@.len() + rest@.len() == s.len(),
            rest@ == s.subrange(done@.len() as int, s.len() as int),
            children_unflagged(s.subrange(0, done@.len() as int), done@),
        decreases rest@.len(),
    {
        let ghost k = done@.len() as int;
        let mut c = rest.remove(0);
        assert(c == s[k]);
        assert(s.subrange(0, k + 1).drop_last() =~= s.subrange(0, k));
        assert(s.subrange(0, k + 1).last() == s[k]);
        proof {
            lemma_height_of_child(s, k);
        }
        let mut grand: Vec<Container> = Vec::new();
        std::mem::swap(&mut c.children, &mut grand);
        assert(heights_max(grand@) < height(s[k]));
        c.children = unflag_children(grand);
        c.is_repositioned = false;
        assert(node_unflagged(s[k], c));
        let ghost prev = done@;
        done.push(c);
        assert(done@.drop_last() =~= prev);
        assert(done@.last() == c);
        assert(children_unflagged(s.subrange(0, k + 1), done@));
    }
    assert(s.subrange(0, s.len() as int) =~= s);
    done
}

impl Container {
    /// Lays out the live children of this container and, recursively, their
    /// subtrees, and marks each of them as repositioned.
    pub fn reposition(&mut self)
        ensures
            repositioned_from(*old(self), *final(self)),
    {
        let mut kids: Vec<Container> = Vec::new();
        std::mem::swap(&mut self.children, &mut kids);
        self.children = position_children(kids, self.layout_type, self.geometry);
    }

    /// Clears the repositioned flag of this container and of every container
    /// below it, once a backend has applied their geometries; nothing is
    /// reported as repositioned afterwards.
    pub fn clear_repositioned(&mut self)
        ensures
            node_unflagged(*old(self), *final(self)),
            repositioned_leaves(*final(self)) == Seq::<Container>::empty(),
    {
        let mut kids: Vec<Container> = Vec::new();
        std::mem::swap(&mut self.children, &mut kids);
        self.children = unflag_children(kids);
        self.is_repositioned = false;
        proof {
            lemma_unflagged_no_leaves(old(self).children@, self.children@);
        }
    }

    pub fn new_without_window(layout_type: LayoutType, geometry: Geometry) -> (c: Container)
        ensures
            c.frame_win_id is None,
            c.main_win_id is None,
            c.children@.len() == 0,
            c.layout_type == layout_type,
            c.geometry == geometry,
            !c.is_repositioned,
            !c.remove_flag,
    {
        Container {
            frame_win_id: None,
            main_win_id: None,
            children: Vec::new(),
            layout_type,
            geometry,
            is_repositioned: false,
            remove_flag: false,
        }
    }

    pub fn new(
        frame_win_id: FrameId,
        main_win_id: WindowId,
        layout_type: LayoutType,
        geometry: Geometry,
    ) -> (c: Container)
        ensures
            c.frame_win_id == Some(frame_win_id),
            c.main_win_id == Some(main_win_id),
            c.children@.len() == 0,
            c.layout_type == layout_type,
            c.geometry == geometry,
            !c.is_repositioned,
            !c.remove_flag,
    {
        Container {
            frame_win_id: Some(frame_win_id),
            main_win_id: Some(main_win_id),
            ..Container::new_without_window(layout_type, geometry)
        }
    }

    /// Appends `child` to the children, lays the children out again, and
    /// returns the index of the new child.
    pub fn add_child(&mut self, child: Container) -> (idx: usize)
        ensures
            idx == old(self).children@.len(),
            same_own(*old(self), *final(self)),
            children_positioned(
                old(self).layout_type,
                old(self).geometry,
                live_count(old(self).children@.push(child)),
                old(self).children@.push(child),
                final(self).children@,
            ),
    {
        self.children.push(child);
        let idx = self.children.len() - 1;
        self.reposition();
        idx
    }

    /// Width and height of the last computed placement.
    pub fn get_dimensions(&self) -> (r: (u32, u32))
        ensures
            r == (self.geometry.width, self.geometry.height),
    {
        (self.geometry.width, self.geometry.height)
    }

    /// Origin of the last computed placement.
    pub fn get_position(&self) -> (r: (u32, u32))
        ensures
            r == (self.geometry.x, self.geometry.y),
    {
        (self.geometry.x, self.geometry.y)
    }

    /// The children, in order.
    pub fn iter(&self) -> (r: &[Container])
        ensures
            r@ == self.children@,
    {
        self.children.as_slice()
    }

    /// The children, in order, for editing in place.
    pub fn iter_mut(&mut self) -> (r: &mut Vec<Container>)
        ensures
            *r == old(self).children,
            final(self).children == *final(r),
            same_own(*old(self), *final(self)),
    {
        &mut self.children
    }

    fn find_by(&self, by_frame: bool, h: u32) -> (r: Option<&Container>)
        ensures
            deref_opt(r) == find_in(*self, by_frame, h),
        decreases height(*self),
    {
        if carries(self, by_frame, h) {
            return Some(self);
        }
        let ghost s = self.children@;
        let mut i: usize = 0;
        while i < self.children.len()
            invariant
                s == self.children@,
                !has_handle(*self, by_frame, h),
                i <= s.len(),
                find_in_seq(s.subrange(0, i as int), by_frame, h) is None,
            decreases s.len() - i,
        {
            assert(s.subrange(0, i as int + 1).drop_last() =~= s.subrange(0, i as int));
            proof {
                lemma_height_of_child(s, i as int);
            }
            let r = self.children[i].find_by(by_frame, h);
            assert(s.subrange(0, i as int + 1).last() == s[i as int]);
            assert(find_in_seq(s.subrange(0, i as int + 1), by_frame, h) == find_in(s[i as int], by_frame, h));
            if r.is_some() {
                assert(find_in(*self, by_frame, h) == find_in_seq(s, by_frame, h));
                proof {
                    lemma_find_prefix(s, by_frame, h, i as int + 1);
                }
                return r;
            }
            i = i + 1;
        }
        assert(s.subrange(0, s.len() as int) =~= s);
        None
    }

    /// The first container in depth-first pre-order (this one included)
    /// whose window handle is `window_id`.
    pub fn find_child_by_window_id(&self, window_id: WindowId) -> (r: Option<&Container>)
        ensures
            deref_opt(r) == find_by_window(*self, window_id),
    {
        self.find_by(false, window_id)
    }

    /// The first container in depth-first pre-order (this one included)
    /// whose frame handle is `frame_win_id`.
    pub fn find_child_by_frame_id(&self, frame_win_id: FrameId) -> (r: Option<&Container>)
        ensures
            deref_opt(r) == find_by_frame(*self, frame_win_id),
    {
        self.find_by(true, frame_win_id)
    }

    /// Every repositioned leaf below this container, depth first; the
    /// geometries that a backend has to apply.
    pub fn get_repositioned_children(&self) -> (r: Vec<&Container>)
        ensures
            deref_all(r@) == repositioned_leaves(*self),
    {
        let mut out: Vec<&Container> = Vec::new();
        assert(deref_all(out@) =~= Seq::<Container>::empty());
        collect_leaves(self, &mut out);
        assert(deref_all(out@) =~= repositioned_leaves(*self));
        out
    }

    /// Every container below this one that is marked for removal, depth
    /// first; the backend handles that have to be destroyed.
    pub fn get_removed_children(&self) -> (r: Vec<&Container>)
        ensures
            deref_all(r@) == removed_below(*self),
    {
        let mut out: Vec<&Container> = Vec::new();
        assert(deref_all(out@) =~= Seq::<Container>::empty());
        collect_removed(self, &mut out);
        assert(deref_all(out@) =~= removed_below(*self));
        out
    }

    /// Index of the first child whose window handle is `window_id`.
    pub fn position_of_window(&self, window_id: WindowId) -> (r: Option<usize>)
        ensures
            r matches Some(i) ==> first_with_window(self.children@, window_id) == Some(i as int),
            r is None ==> first_with_window(self.children@, window_id) is None,
    {
        let ghost s = self.children@;
        let mut i: usize = 0;
        while i < self.children.len()
            invariant
                s == self.children@,
                i <= s.len(),
                first_with_window(s.subrange(0, i as int), window_id) is None,
            decreases s.len() - i,
        {
            assert(s.subrange(0, i as int + 1).drop_last() =~= s.subrange(0, i as int));
            if carries(&self.children[i], false, window_id) {
                proof {
                    lemma_first_with_window_prefix(s, window_id, i as int + 1);
                }
                return Some(i);
            }
            i = i + 1;
        }
        assert(s.subrange(0, s.len() as int) =~= s);
        None
    }

    /// Marks the first child whose window handle is `window_id` for removal
    /// and lays the remaining live children out again. A container left
    /// without live children stays in the tree as an empty group; nothing is
    /// done when no child has that handle.
    pub fn remove_window(&mut self, window_id: WindowId)
        ensures
            window_removed_from(*old(self), *final(self), window_id),
    {
        let found = self.position_of_window(window_id);
        match found {
            None => {},
            Some(i) => {
                proof {
                    lemma_first_with_window_found(self.children@, window_id);
                }
                let mut c = self.children.remove(i);
                c.remove_flag = true;
                self.children.insert(i, c);
                assert(self.children@ =~= old(self).children@.update(
                    i as int,
                    marked(old(self).children@[i as int]),
                ));
                self.reposition();
            },
        }
    }

    /// Detaches every subtree marked for removal below this container,
    /// unless this container is marked itself.
    pub fn clean_removed_children(&mut self)
        ensures
            old(self).remove_flag ==> *final(self) == *old(self),
            !old(self).remove_flag ==> node_cleaned(*old(self), *final(self)),
    {
        if self.remove_flag {
            return;
        }
        let mut kids: Vec<Container> = Vec::new();
        std::mem::swap(&mut self.children, &mut kids);
        self.children = clean_children(kids);
    }

    /// Index of the sibling that takes the focus when the first child with
    /// window handle `window_id` goes: the next live child after it in
    /// cyclic order, if there is one besides it.
    pub fn next_focus_position(&self, window_id: WindowId) -> (r: Option<usize>)
        ensures
            r matches Some(j) ==> next_focus_index(self.children@, window_id) == Some(j as int)
                && j < self.children@.len(),
            r is None ==> next_focus_index(self.children@, window_id) is None,
    {
        let found = self.position_of_window(window_id);
        let i = match found {
            None => {
                return None;
            },
            Some(i) => i,
        };
        proof {
            lemma_first_with_window_found(self.children@, window_id);
        }
        cyclic_live_index(&self.children, i, true)
    }

    /// The sibling that takes the focus when the first child with window
    /// handle `window_id` goes (see `next_focus_position`).
    pub fn get_next_focusing_container(&self, window_id: WindowId) -> (r: Option<&Container>)
        ensures
            deref_opt(r) == (match next_focus_index(self.children@, window_id) {
                Some(j) => Some(self.children@[j]),
                None => None,
            }),
    {
        match self.next_focus_position(window_id) {
            Some(j) => Some(&self.children[j]),
            None => None,
        }
    }
}

impl Positionable for Container {
    fn get_position(&self) -> (r: (u32, u32))
        ensures
            r == (self.geometry.x, self.geometry.y),
    {
        (self.geometry.x, self.geometry.y)
    }
}

impl Dimensionable for Container {
    fn get_dimensions(&self) -> (r: (u32, u32))
        ensures
            r == (self.geometry.width, self.geometry.height),
    {
        (self.geometry.width, self.geometry.height)
    }
}

} // verus!
