//! The screen capability record, the per-entry bookkeeping, and the actions
//! a commit pass emits.

use vstd::prelude::*;

verus! {

/// The capabilities of one screen, as the stack manager reads them.
///
/// A screen is one navigable UI page.  What a concrete page does is the
/// application's business; the manager only consults these three flags.
#[derive(Clone, Copy, Debug, PartialEq, Eq, Structural)]
pub struct Screen {
    /// The generic Escape handler may pop this screen, and committing it
    /// does not force the pointer back to the viewport centre.
    pub closable: bool,
    /// While this screen is the visible top, the simulated world and its
    /// pointer capture are considered active.
    pub in_game: bool,
    /// This screen keeps receiving `tick` and resize events every frame even
    /// while it is not the topmost one (a persistent background, say).
    pub tick_always: bool,
}

impl Screen {
    /// A screen with none of the three capabilities, the default of each.
    pub fn plain() -> (s: Screen)
        ensures
            !s.closable && !s.in_game && !s.tick_always,
    {
        Screen { closable: false, in_game: false, tick_always: false }
    }
}

/// One stack entry: a screen plus its lifecycle bookkeeping.
///
/// Exactly one entry exists per logical screen instance; the pending and the
/// committed stack refer to it by its slot index in the manager's arena.
#[derive(Clone, Copy, Debug, PartialEq, Eq, Structural)]
pub struct ScreenEntry {
    pub screen: Screen,
    /// `init` has been issued for this entry.
    pub initialized: bool,
    /// `on_active` has been issued and no `on_deactive` since.
    pub active: bool,
    /// Last viewport width this entry observed; -1 means never observed.
    pub last_width: i32,
    /// Last viewport height this entry observed; -1 means never observed.
    pub last_height: i32,
}

/// One call the driver owes to a collaborator, identified by the entry's
/// slot index.  A commit/tick pass returns the exact ordered list of these;
/// the application performs them against its real screen objects.
#[derive(Clone, Copy, Debug, PartialEq, Eq, Structural)]
pub enum Action {
    /// Call `init` on the screen of this entry.
    Init(usize),
    /// Call `deinit` on the screen of this entry.
    Deinit(usize),
    /// Call `on_active` on the screen of this entry.
    OnActive(usize),
    /// Call `on_deactive` on the screen of this entry.
    OnDeactive(usize),
    /// Call `on_resize` on the screen of this entry.
    OnResize(usize),
    /// Call `tick` on the screen of this entry.
    Tick(usize),
    /// Ask the windowing collaborator to set the pointer to the viewport
    /// centre.
    RecenterCursor,
}

} // verus!
