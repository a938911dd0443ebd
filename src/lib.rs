//! The model of a tiling window manager: per workspace, a tree of
//! containers (leaves wrap one window, interior nodes group children under a
//! layout), the container that has the focus, and the layout pass that gives
//! every live container its place on the screen.
//!
//! Policies that the contracts fix:
//! - a horizontal or vertical split gives each live child an equal span and
//!   the last one the remainder, so the spans tile the parent exactly;
//! - removal is two-phase: a window is first marked, reported, and only then
//!   detached; a group left without live children stays as an empty group;
//! - the focus is the path of child indices from the root, and always leads
//!   to a container that is not marked for removal.

pub mod command;
pub mod config;
pub mod container;
pub mod keys;
pub mod workspace;
pub mod wm_state;
