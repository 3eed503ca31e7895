//! The screen-stack manager: the pending stack, the committed stack, the
//! remove queue, the dirty marker, and the commit/tick driver.

use vstd::prelude::*;

use crate::screen::{Action, Screen, ScreenEntry};

verus! {

/// The stack manager.
///
/// All entries ever created live in an arena, and the three containers hold
/// slot indices into it, so that a pending entry, its committed counterpart
/// and its remove-queue record are one and the same entry: a flag set during
/// a commit pass is seen again at teardown time.
///
/// `pending` is the desired stack, mutated at once by `add_screen`,
/// `pop_screen` and `replace_screen`; `committed` is the render-visible
/// stack, mutated only inside `tick`'s commit pass; `remove_queue` holds
/// entries that left the pending stack and still owe teardown calls;
/// `lowest_offset` is the dirty marker: the lowest stack index at which the
/// two stacks may differ, `None` meaning clean.
pub struct ScreenSystem {
    entries: Vec<ScreenEntry>,
    pending: Vec<usize>,
    committed: Vec<usize>,
    remove_queue: Vec<usize>,
    lowest_offset: Option<usize>,
}

impl ScreenSystem {
    /// The arena of entries; a slot index identifies a screen for its whole
    /// life.
    pub closed spec fn arena(self) -> Seq<ScreenEntry> {
        self.entries@
    }

    /// The desired stack, bottom first, as slot indices.
    pub closed spec fn pending(self) -> Seq<usize> {
        self.pending@
    }

    /// The render-visible stack, bottom first, as slot indices.
    pub closed spec fn committed(self) -> Seq<usize> {
        self.committed@
    }

    /// Entries awaiting teardown, in enqueue order.
    pub closed spec fn removals(self) -> Seq<usize> {
        self.remove_queue@
    }

    /// The dirty marker; `None` is the clean sentinel.
    pub closed spec fn marker(self) -> Option<usize> {
        self.lowest_offset
    }

    /// An entry that has not yet seen any lifecycle call.
    pub open spec fn fresh_entry(e: ScreenEntry) -> bool {
        !e.initialized && !e.active
    }

    /// Every index of `s` names a slot of the arena.
    pub open spec fn ids_in_arena(self, s: Seq<usize>) -> bool {
        forall|i: int| 0 <= i < s.len() ==> s[i] < self.arena().len()
    }

    /// No slot index occurs twice in `s`.
    pub open spec fn no_dups(s: Seq<usize>) -> bool {
        forall|i: int, j: int| 0 <= i < j < s.len() ==> s[i] != s[j]
    }

    /// `a` and `b` share no slot index.
    pub open spec fn disjoint(a: Seq<usize>, b: Seq<usize>) -> bool {
        forall|i: int, j: int| 0 <= i < a.len() && 0 <= j < b.len() ==> a[i] != b[j]
    }

    /// Well-formedness: what every public operation preserves.
    ///
    /// With a clean marker the two stacks agree exactly.  With marker `m`,
    /// the stacks agree below `m`, everything pending at or above `m` is a
    /// fresh entry, and the marker is no deeper than either stack.  The
    /// committed stack holds only initialized entries, of which exactly the
    /// top is active, and an entry that left the pending stack never comes
    /// back: the remove queue is disjoint from it.
    pub closed spec fn wf(self) -> bool {
        &&& self.ids_in_arena(self.pending@)
        &&& self.ids_in_arena(self.committed@)
        &&& self.ids_in_arena(self.remove_queue@)
        &&& Self::no_dups(self.pending@)
        &&& Self::no_dups(self.committed@)
        &&& Self::no_dups(self.remove_queue@)
        &&& Self::disjoint(self.pending@, self.remove_queue@)
        &&& match self.lowest_offset {
            None => self.pending@ == self.committed@,
            Some(m) => {
                &&& m <= self.pending@.len()
                &&& m <= self.committed@.len()
                &&& self.pending@.take(m as int) == self.committed@.take(m as int)
                &&& forall|j: int|
                    m <= j < self.pending@.len() ==> Self::fresh_entry(
                        self.arena()[self.pending@[j] as int],
                    )
            },
        }
        &&& forall|i: int|
            0 <= i < self.committed@.len() ==> self.arena()[self.committed@[i] as int].initialized
        &&& forall|i: int|
            0 <= i < self.committed@.len() ==> (self.arena()[self.committed@[i] as int].active
                <==> i == self.committed@.len() - 1)
    }

    /// A manager with nothing on any stack.
    pub fn new() -> (s: ScreenSystem)
        ensures
            s.wf(),
            s.arena() =~= Seq::<ScreenEntry>::empty(),
            s.pending() =~= Seq::<usize>::empty(),
            s.committed() =~= Seq::<usize>::empty(),
            s.removals() =~= Seq::<usize>::empty(),
            s.marker() is None,
    {
        ScreenSystem {
            entries: Vec::new(),
            pending: Vec::new(),
            committed: Vec::new(),
            remove_queue: Vec::new(),
            lowest_offset: None,
        }
    }

    /// Appends a new entry for `screen` to the pending stack and returns its
    /// slot index.  The dirty marker is set to the new entry's index if it
    /// was clean; an already lower marker is kept.
    pub fn add_screen(&mut self, screen: Screen) -> (id: usize)
        requires
            old(self).wf(),
        ensures
            final(self).wf(),
            id == old(self).arena().len(),
            final(self).arena() =~= old(self).arena().push(
                ScreenEntry {
                    screen,
                    initialized: false,
                    active: false,
                    last_width: -1i32,
                    last_height: -1i32,
                },
            ),
            final(self).pending() =~= old(self).pending().push(id),
            final(self).committed() == old(self).committed(),
            final(self).removals() == old(self).removals(),
            final(self).marker() == (if old(self).marker() is None {
                Some(old(self).pending().len() as usize)
            } else {
                old(self).marker()
            }),
    {
        let id = self.entries.len();
        let new_offset = self.pending.len();
        self.entries.push(
            ScreenEntry {
                screen,
                initialized: false,
                active: false,
                last_width: -1i32,
                last_height: -1i32,
            },
        );
        self.pending.push(id);
        if self.lowest_offset.is_none() {
            self.lowest_offset = Some(new_offset);
        }
        proof {
            let a0 = old(self).entries@;
            let p0 = old(self).pending@;
            assert(forall|k: int| 0 <= k < a0.len() ==> self.entries@[k] == a0[k]);
            assert(forall|j: int| 0 <= j < p0.len() ==> self.pending@[j] == p0[j]);
            assert(self.pending@.last() == id);
            assert(Self::fresh_entry(self.entries@[id as int]));
            assert(forall|j: int|
                0 <= j < p0.len() && p0[j] < a0.len() ==> self.entries@[p0[j] as int] == a0[p0[j] as int]);
            assert(self.pending@.take(new_offset as int) =~= p0);
            if old(self).marker() is Some {
                let m = old(self).marker()->Some_0 as int;
                assert(self.pending@.take(m) =~= p0.take(m));
            }
            match self.lowest_offset {
                None => { assert(self.pending@ == self.committed@); },
                Some(m) => {
                    assert(self.pending@.take(m as int) == self.committed@.take(m as int));
                    assert(forall|j: int|
                        m <= j < self.pending@.len() ==> Self::fresh_entry(
                            self.arena()[self.pending@[j] as int],
                        ));
                },
            }
        }
        id
    }

    /// The value the dirty marker takes after a pop that shortened the
    /// pending stack to `new_len`: the first removal in a frame sets it,
    /// later ones only lower it.
    pub open spec fn lowered_marker(marker: Option<usize>, new_len: int) -> int {
        match marker {
            None => new_len,
            Some(m) => if new_len < m {
                new_len
            } else {
                m as int
            },
        }
    }

    /// Removes the top pending entry, if any, and queues it for teardown.
    /// On an empty pending stack this changes nothing at all.
    pub fn pop_screen(&mut self)
        requires
            old(self).wf(),
        ensures
            final(self).wf(),
            old(self).pending().len() == 0 ==> *final(self) == *old(self),
            old(self).pending().len() > 0 ==> {
                &&& final(self).pending() == old(self).pending().drop_last()
                &&& final(self).removals() =~= old(self).removals().push(
                    old(self).pending().last(),
                )
                &&& final(self).committed() == old(self).committed()
                &&& final(self).arena() == old(self).arena()
                &&& final(self).marker() is Some
                &&& final(self).marker()->Some_0 as int == Self::lowered_marker(
                    old(self).marker(),
                    old(self).pending().len() - 1,
                )
            },
    {
        if self.pending.len() > 0 {
            let popped = self.pending.pop().unwrap();
            self.remove_queue.push(popped);
            let new_offset = self.pending.len();
            let lower = match self.lowest_offset {
                None => true,
                Some(m) => new_offset < m,
            };
            if lower {
                self.lowest_offset = Some(new_offset);
            }
            proof {
                let p0 = old(self).pending@;
                assert(self.pending@ =~= p0.drop_last());
                let m1 = self.lowest_offset->Some_0 as int;
                assert(self.pending@.take(m1) =~= p0.take(m1));
                if old(self).marker() is Some {
                    let m0 = old(self).marker()->Some_0 as int;
                    assert(old(self).committed@.take(m1) =~= old(self).committed@.take(m0).take(
                        m1,
                    ));
                    assert(p0.take(m1) =~= p0.take(m0).take(m1));
                } else {
                    assert(self.committed@.take(m1) =~= p0.take(m1));
                }
            }
        }
    }

    /// Pops the top pending entry, then pushes `screen`: a swap in place at
    /// the top, leaving the depth unchanged whenever the stack was not
    /// empty.  Returns the new entry's slot index.
    pub fn replace_screen(&mut self, screen: Screen) -> (id: usize)
        requires
            old(self).wf(),
        ensures
            final(self).wf(),
            id == old(self).arena().len(),
            final(self).arena() =~= old(self).arena().push(
                ScreenEntry {
                    screen,
                    initialized: false,
                    active: false,
                    last_width: -1i32,
                    last_height: -1i32,
                },
            ),
            final(self).committed() == old(self).committed(),
            old(self).pending().len() > 0 ==> {
                &&& final(self).pending() =~= old(self).pending().drop_last().push(id)
                &&& final(self).pending().len() == old(self).pending().len()
                &&& final(self).removals() =~= old(self).removals().push(
                    old(self).pending().last(),
                )
                &&& final(self).marker() is Some
                &&& final(self).marker()->Some_0 as int == Self::lowered_marker(
                    old(self).marker(),
                    old(self).pending().len() - 1,
                )
            },
            old(self).pending().len() == 0 ==> {
                &&& final(self).pending() =~= old(self).pending().push(id)
                &&& final(self).removals() == old(self).removals()
                &&& final(self).marker() == (if old(self).marker() is None {
                    Some(0usize)
                } else {
                    old(self).marker()
                })
            },
    {
        self.pop_screen();
        self.add_screen(screen)
    }

    /// The pending stack left once every closable entry on top is popped:
    /// entries are shed from the top while they report closable.
    pub open spec fn closable_prefix(arena: Seq<ScreenEntry>, p: Seq<usize>) -> Seq<usize>
        decreases p.len(),
    {
        if p.len() > 0 && arena[p.last() as int].screen.closable {
            Self::closable_prefix(arena, p.drop_last())
        } else {
            p
        }
    }

    /// The entries shed, in pop order, when the pending stack `p` shrinks
    /// from the top down to length `l`.
    pub open spec fn popped_seq(p: Seq<usize>, l: int) -> Seq<usize>
        decreases p.len(),
    {
        if l >= p.len() || p.len() == 0 {
            Seq::empty()
        } else {
            seq![p.last()] + Self::popped_seq(p.drop_last(), l)
        }
    }

    proof fn lemma_popped_seq_step(p: Seq<usize>, l: int)
        requires
            1 <= l <= p.len(),
        ensures
            Self::popped_seq(p, l - 1) =~= Self::popped_seq(p, l).push(p[l - 1]),
        decreases p.len(),
    {
        if l == p.len() {
            assert(Self::popped_seq(p, l) =~= Seq::empty());
            assert(Self::popped_seq(p.drop_last(), l - 1) =~= Seq::empty());
        } else {
            Self::lemma_popped_seq_step(p.drop_last(), l);
            assert(p.drop_last()[l - 1] == p[l - 1]);
        }
    }

    /// `k` names a slot that occurs in `s`.
    pub open spec fn in_seq(s: Seq<usize>, k: int) -> bool {
        exists|i: int| 0 <= i < s.len() && s[i] == k
    }

    /// The teardown calls owed to one entry: deactivate if it was active,
    /// deinitialize if it was ever initialized.
    pub open spec fn retire_calls_for(arena: Seq<ScreenEntry>, id: usize) -> Seq<Action> {
        (if arena[id as int].active {
            seq![Action::OnDeactive(id)]
        } else {
            Seq::<Action>::empty()
        }) + (if arena[id as int].initialized {
            seq![Action::Deinit(id)]
        } else {
            Seq::<Action>::empty()
        })
    }

    /// The calls a commit pass makes while draining the first `n` entries of
    /// the remove queue `q`, in enqueue order.
    pub open spec fn drain_calls(arena: Seq<ScreenEntry>, q: Seq<usize>, n: int) -> Seq<Action>
        decreases n,
    {
        if n <= 0 {
            Seq::empty()
        } else {
            Self::drain_calls(arena, q, n - 1) + Self::retire_calls_for(arena, q[n - 1])
        }
    }

    /// The calls made when the catch-up loop commits `p[k]`: the previous
    /// top is deactivated if it was active — always, once the loop has run
    /// at least one step — then the new entry is initialized and activated.
    pub open spec fn catchup_step(p: Seq<usize>, m: int, prev_active: bool, k: int) -> Seq<
        Action,
    > {
        (if k > m || (k > 0 && prev_active) {
            seq![Action::OnDeactive(p[k - 1])]
        } else {
            Seq::<Action>::empty()
        }) + seq![Action::Init(p[k]), Action::OnActive(p[k])]
    }

    /// The calls of the catch-up loop over indices `m` up to `j` of the
    /// pending stack `p`; `prev_active` says whether the committed top at
    /// index `m - 1` was active when the loop started.
    pub open spec fn catchup_calls(p: Seq<usize>, m: int, prev_active: bool, j: int) -> Seq<
        Action,
    >
        decreases j - m,
    {
        if j <= m {
            Seq::empty()
        } else {
            Self::catchup_calls(p, m, prev_active, j - 1) + Self::catchup_step(
                p,
                m,
                prev_active,
                j - 1,
            )
        }
    }

    /// The entries that resize and tick events are broadcast to: every
    /// tick-always entry, and the top.
    pub open spec fn broadcast_target(arena: Seq<ScreenEntry>, p: Seq<usize>, k: int) -> bool {
        arena[p[k] as int].screen.tick_always || k == p.len() - 1
    }

    /// The resize calls issued over the first `j` committed entries, in
    /// ascending stack order.
    pub open spec fn resize_calls(arena: Seq<ScreenEntry>, p: Seq<usize>, j: int) -> Seq<Action>
        decreases j,
    {
        if j <= 0 {
            Seq::empty()
        } else {
            Self::resize_calls(arena, p, j - 1) + (if Self::broadcast_target(arena, p, j - 1) {
                seq![Action::OnResize(p[j - 1])]
            } else {
                Seq::<Action>::empty()
            })
        }
    }

    /// The tick calls issued over the first `j` committed entries, in
    /// ascending stack order.
    pub open spec fn dispatch_calls(arena: Seq<ScreenEntry>, p: Seq<usize>, j: int) -> Seq<Action>
        decreases j,
    {
        if j <= 0 {
            Seq::empty()
        } else {
            Self::dispatch_calls(arena, p, j - 1) + (if Self::broadcast_target(arena, p, j - 1) {
                seq![Action::Tick(p[j - 1])]
            } else {
                Seq::<Action>::empty()
            })
        }
    }

    /// Whether the entry just below the dirty marker is active when a commit
    /// pass starts reconciling.
    pub open spec fn commit_prev_active(self) -> bool {
        match self.marker() {
            None => false,
            Some(m) => m > 0 && self.arena()[self.pending()[m - 1] as int].active,
        }
    }

    /// The pointer is recentred after reconciliation unless the final
    /// committed top is a closable screen.
    pub open spec fn recenter_needed(self) -> bool {
        !(self.pending().len() > 0 && self.arena()[self.pending().last() as int].screen.closable)
    }

    /// Everything the reconciliation part of a commit pass emits; empty when
    /// the dirty marker is clean.
    pub open spec fn commit_calls(self) -> Seq<Action> {
        match self.marker() {
            None => Seq::empty(),
            Some(m) => Self::catchup_calls(
                self.pending(),
                m as int,
                self.commit_prev_active(),
                self.pending().len() as int,
            ) + (if self.recenter_needed() {
                seq![Action::RecenterCursor]
            } else {
                Seq::<Action>::empty()
            }),
        }
    }

    /// Whether the committed top is already active once reconciliation is
    /// done — if not, the activation guard fires.
    pub open spec fn top_active_after_commit(self) -> bool {
        match self.marker() {
            None => self.arena()[self.pending().last() as int].active,
            Some(m) => m < self.pending().len() || self.arena()[self.pending().last()
                as int].active,
        }
    }

    /// The complete ordered list of calls one commit/tick pass emits, as a
    /// function of the state it starts from.
    pub open spec fn tick_actions(self, width: i32, height: i32) -> Seq<Action> {
        let d = Self::drain_calls(self.arena(), self.removals(), self.removals().len() as int);
        let c = self.commit_calls();
        let p = self.pending();
        if p.len() == 0 {
            d + c
        } else {
            let top = p.last();
            let te = self.arena()[top as int];
            let guard = if !self.top_active_after_commit() {
                seq![Action::OnActive(top)]
            } else {
                Seq::<Action>::empty()
            };
            let rs = if te.last_width == width && te.last_height == height {
                Seq::<Action>::empty()
            } else if te.last_width != -1i32 && te.last_height != -1i32 {
                Self::resize_calls(self.arena(), p, p.len() as int)
            } else {
                Seq::<Action>::empty()
            };
            let tk = Self::dispatch_calls(self.arena(), p, p.len() as int);
            d + c + guard + rs + tk
        }
    }

    /// What a commit/tick pass returns: the world and the pointer capture
    /// pause whenever nothing is committed or the visible top is not an
    /// in-game screen.
    pub open spec fn tick_paused(self) -> bool {
        self.pending().len() == 0 || !self.arena()[self.pending().last() as int].screen.in_game
    }

    /// The viewport sizes recorded on the entry at pending index `i` once a
    /// commit/tick pass against viewport `width` by `height` finishes.
    pub open spec fn sizes_after_tick(self, width: i32, height: i32, i: int) -> (i32, i32) {
        let p = self.pending();
        let e = self.arena()[p[i] as int];
        let te = self.arena()[p.last() as int];
        if te.last_width == width && te.last_height == height {
            (e.last_width, e.last_height)
        } else if te.last_width != -1i32 && te.last_height != -1i32 {
            if Self::broadcast_target(self.arena(), p, i) {
                (width, height)
            } else {
                (e.last_width, e.last_height)
            }
        } else {
            if i == p.len() - 1 {
                (width, height)
            } else {
                (e.last_width, e.last_height)
            }
        }
    }

    /// Drains the remove queue: deactivates and deinitializes, in enqueue
    /// order, whatever each queued entry still owes, and retires the entry.
    #[verifier::rlimit(100)]
    fn drain_remove_queue(&mut self, log: &mut Vec<Action>)
        requires
            old(self).ids_in_arena(old(self).remove_queue@),
            Self::no_dups(old(self).remove_queue@),
        ensures
            final(self).pending@ == old(self).pending@,
            final(self).committed@ == old(self).committed@,
            final(self).lowest_offset == old(self).lowest_offset,
            final(self).remove_queue@.len() == 0,
            final(self).entries@.len() == old(self).entries@.len(),
            final(log)@ == old(log)@ + Self::drain_calls(
                old(self).entries@,
                old(self).remove_queue@,
                old(self).remove_queue@.len() as int,
            ),
            forall|k: int|
                0 <= k < old(self).entries@.len() && !Self::in_seq(old(self).remove_queue@, k)
                    ==> final(self).entries@[k] == old(self).entries@[k],
            forall|k: int|
                0 <= k < old(self).entries@.len() && Self::in_seq(old(self).remove_queue@, k) ==> {
                    &&& !final(self).entries@[k].initialized
                    &&& !final(self).entries@[k].active
                    &&& final(self).entries@[k].screen == old(self).entries@[k].screen
                    &&& final(self).entries@[k].last_width == old(self).entries@[k].last_width
                    &&& final(self).entries@[k].last_height == old(self).entries@[k].last_height
                },
    {
        let ghost a0 = self.entries@;
        let ghost q0 = self.remove_queue@;
        let ghost l0 = log@;
        let mut qi: usize = 0;
        while qi < self.remove_queue.len()
            invariant
                qi <= q0.len(),
                self.remove_queue@ == q0,
                self.pending@ == old(self).pending@,
                self.committed@ == old(self).committed@,
                self.lowest_offset == old(self).lowest_offset,
                self.entries@.len() == a0.len(),
                forall|i: int| 0 <= i < q0.len() ==> q0[i] < a0.len(),
                Self::no_dups(q0),
                log@ == l0 + Self::drain_calls(a0, q0, qi as int),
                forall|k: int|
                    0 <= k < a0.len() && !Self::in_seq(q0.take(qi as int), k) ==> self.entries@[k]
                        == a0[k],
                forall|k: int|
                    0 <= k < a0.len() && Self::in_seq(q0.take(qi as int), k) ==> {
                        &&& !self.entries@[k].initialized
                        &&& !self.entries@[k].active
                        &&& self.entries@[k].screen == a0[k].screen
                        &&& self.entries@[k].last_width == a0[k].last_width
                        &&& self.entries@[k].last_height == a0[k].last_height
                    },
            decreases q0.len() - qi,
        {
            let id = self.remove_queue[qi];
            proof {
                assert(q0[qi as int] == id);
                assert(!Self::in_seq(q0.take(qi as int), id as int));
                assert(self.entries@[id as int] == a0[id as int]);
            }
            if self.entries[id].active {
                log.push(Action::OnDeactive(id));
            }
            if self.entries[id].initialized {
                log.push(Action::Deinit(id));
            }
            let mut e = self.entries[id];
            e.initialized = false;
            e.active = false;
            self.entries[id] = e;
            qi += 1;
            proof {
                let t1 = q0.take(qi as int);
                let t0 = q0.take(qi as int - 1);
                assert(t1 =~= t0.push(id));
                assert(t1[qi as int - 1] == id);
                assert(Self::in_seq(t1, id as int));
                assert forall|k: int|
                    0 <= k < a0.len() && !Self::in_seq(t1, k) implies self.entries@[k]
                    == a0[k] by {
                    assert(k != id as int);
                    if Self::in_seq(t0, k) {
                        let i = choose|i: int| 0 <= i < t0.len() && t0[i] == k;
                        assert(t1[i] == k);
                        assert(false);
                    }
                }
                assert forall|k: int|
                    0 <= k < a0.len() && Self::in_seq(t1, k) implies {
                    &&& !self.entries@[k].initialized
                    &&& !self.entries@[k].active
                    &&& self.entries@[k].screen == a0[k].screen
                    &&& self.entries@[k].last_width == a0[k].last_width
                    &&& self.entries@[k].last_height == a0[k].last_height
                } by {
                    if k != id as int {
                        let i = choose|i: int| 0 <= i < t1.len() && t1[i] == k;
                        assert(i != qi as int - 1);
                        assert(t0[i] == k);
                        assert(Self::in_seq(t0, k));
                    }
                }
                assert(log@ =~= l0 + Self::drain_calls(a0, q0, qi as int));
            }
        }
        proof {
            assert(q0.take(q0.len() as int) =~= q0);
        }
        self.remove_queue.clear();
    }

    /// The catch-up loop: appends every pending entry from index `m` up to
    /// the committed stack, deactivating each previous top that was active
    /// and initializing and activating each newcomer in ascending order.
    #[verifier::rlimit(100)]
    fn commit_catch_up(&mut self, m: usize, log: &mut Vec<Action>)
        requires
            m <= old(self).pending@.len(),
            old(self).committed@ == old(self).pending@.take(m as int),
            forall|i: int|
                0 <= i < old(self).pending@.len() ==> old(self).pending@[i] < old(
                    self,
                ).entries@.len(),
            Self::no_dups(old(self).pending@),
            forall|i: int|
                0 <= i < old(self).pending@.len() && i != m - 1 ==> !old(self).entries@[old(
                    self,
                ).pending@[i] as int].active,
        ensures
            final(self).pending@ == old(self).pending@,
            final(self).remove_queue@ == old(self).remove_queue@,
            final(self).lowest_offset == old(self).lowest_offset,
            final(self).committed@ == old(self).pending@,
            final(self).entries@.len() == old(self).entries@.len(),
            final(log)@ == old(log)@ + Self::catchup_calls(
                old(self).pending@,
                m as int,
                m > 0 && old(self).entries@[old(self).pending@[m - 1] as int].active,
                old(self).pending@.len() as int,
            ),
            forall|k: int|
                0 <= k < old(self).entries@.len() && !Self::in_seq(old(self).pending@, k)
                    ==> final(self).entries@[k] == old(self).entries@[k],
            forall|i: int|
                #![trigger old(self).pending@[i]]
                0 <= i < old(self).pending@.len() ==> {
                    let id = old(self).pending@[i] as int;
                    &&& final(self).entries@[id].screen == old(self).entries@[id].screen
                    &&& final(self).entries@[id].last_width == old(self).entries@[id].last_width
                    &&& final(self).entries@[id].last_height == old(self).entries@[id].last_height
                    &&& final(self).entries@[id].initialized == (m <= i || old(
                        self,
                    ).entries@[id].initialized)
                    &&& final(self).entries@[id].active == (if (m as int) < old(
                        self,
                    ).pending@.len() {
                        i == old(self).pending@.len() - 1
                    } else {
                        old(self).entries@[id].active
                    })
                },
    {
        let ghost p0 = self.pending@;
        let ghost a1 = self.entries@;
        let ghost l1 = log@;
        let ghost pa = m > 0 && a1[p0[m - 1] as int].active;
        let mut j: usize = m;
        while j < self.pending.len()
            invariant
                m <= j <= p0.len(),
                self.pending@ == p0,
                self.remove_queue@ == old(self).remove_queue@,
                self.lowest_offset == old(self).lowest_offset,
                self.committed@ =~= p0.take(j as int),
                self.entries@.len() == a1.len(),
                forall|i: int| 0 <= i < p0.len() ==> p0[i] < a1.len(),
                Self::no_dups(p0),
                pa == (m > 0 && a1[p0[m - 1] as int].active),
                forall|i: int|
                    0 <= i < p0.len() && i != m - 1 ==> !a1[p0[i] as int].active,
                log@ == l1 + Self::catchup_calls(p0, m as int, pa, j as int),
                forall|k: int|
                    0 <= k < a1.len() && !Self::in_seq(p0, k) ==> self.entries@[k] == a1[k],
                forall|i: int|
                    #![trigger p0[i]]
                    0 <= i < p0.len() ==> {
                        let id = p0[i] as int;
                        &&& self.entries@[id].screen == a1[id].screen
                        &&& self.entries@[id].last_width == a1[id].last_width
                        &&& self.entries@[id].last_height == a1[id].last_height
                        &&& self.entries@[id].initialized == (m <= i < j || a1[id].initialized)
                        &&& self.entries@[id].active == (if m < j {
                            i == j - 1
                        } else {
                            a1[id].active
                        })
                    },
            decreases p0.len() - j,
        {
            let id = self.pending[j];
            if self.committed.len() > 0 {
                let prev = self.committed[self.committed.len() - 1];
                proof {
                    assert(prev == p0[j as int - 1]);
                }
                if self.entries[prev].active {
                    let mut pe = self.entries[prev];
                    pe.active = false;
                    self.entries[prev] = pe;
                    log.push(Action::OnDeactive(prev));
                }
            }
            self.committed.push(id);
            let mut e = self.entries[id];
            e.initialized = true;
            self.entries[id] = e;
            log.push(Action::Init(id));
            let mut e2 = self.entries[id];
            e2.active = true;
            self.entries[id] = e2;
            log.push(Action::OnActive(id));
            j += 1;
            proof {
                let jj = j as int;
                let k0 = jj - 1;
                assert(self.committed@ =~= p0.take(jj));
                assert(Self::in_seq(p0, p0[k0] as int));
                if k0 > 0 {
                    assert(Self::in_seq(p0, p0[k0 - 1] as int));
                }
                assert(Self::catchup_calls(p0, m as int, pa, jj) =~= Self::catchup_calls(
                    p0,
                    m as int,
                    pa,
                    k0,
                ) + Self::catchup_step(p0, m as int, pa, k0));
                assert(log@ =~= l1 + Self::catchup_calls(p0, m as int, pa, jj));
                assert forall|k: int|
                    0 <= k < a1.len() && !Self::in_seq(p0, k) implies self.entries@[k]
                    == a1[k] by {
                    assert(k != p0[k0] as int);
                    if k0 > 0 {
                        assert(k != p0[k0 - 1] as int);
                    }
                }
                assert forall|i: int|
                    #![trigger p0[i]]
                    0 <= i < p0.len() implies {
                    let id = p0[i] as int;
                    &&& self.entries@[id].screen == a1[id].screen
                    &&& self.entries@[id].last_width == a1[id].last_width
                    &&& self.entries@[id].last_height == a1[id].last_height
                    &&& self.entries@[id].initialized == (m <= i < jj || a1[id].initialized)
                    &&& self.entries@[id].active == (if m < jj {
                        i == jj - 1
                    } else {
                        a1[id].active
                    })
                } by {
                    if i != k0 {
                        assert(p0[i] != p0[k0]);
                        if k0 > 0 && i != k0 - 1 {
                            assert(p0[i] != p0[k0 - 1]);
                        }
                    }
                }
            }
        }
        proof {
            assert(p0.take(p0.len() as int) =~= p0);
        }
    }

    /// One commit/tick pass, run once per frame against the current
    /// viewport.
    ///
    /// In order: drains the remove queue (all teardown strictly before any
    /// new activation); if the dirty marker is set, truncates the committed
    /// stack, catches it up with the pending stack, clears the marker, and
    /// asks for a pointer recentre unless the new top is closable; then
    /// re-activates a top uncovered by pops, propagates a viewport change to
    /// the top and every tick-always entry, and dispatches tick events to
    /// the same entries in ascending stack order.
    ///
    /// Returns whether the world and its pointer capture should pause —
    /// true exactly when nothing is committed or the committed top is not an
    /// in-game screen — together with every call owed to collaborators, in
    /// the exact order they must be made.
    #[verifier::rlimit(100)]
    pub fn tick(&mut self, width: i32, height: i32) -> (r: (bool, Vec<Action>))
        requires
            old(self).wf(),
            width >= 0,
            height >= 0,
        ensures
            final(self).wf(),
            final(self).pending() == old(self).pending(),
            final(self).committed() == old(self).pending(),
            final(self).removals().len() == 0,
            final(self).marker() is None,
            final(self).arena().len() == old(self).arena().len(),
            forall|k: int|
                0 <= k < old(self).arena().len() ==> final(self).arena()[k].screen == old(
                    self,
                ).arena()[k].screen,
            forall|i: int|
                0 <= i < old(self).removals().len() ==> {
                    &&& !final(self).arena()[old(self).removals()[i] as int].initialized
                    &&& !final(self).arena()[old(self).removals()[i] as int].active
                },
            forall|i: int|
                0 <= i < old(self).pending().len() ==> final(self).arena()[old(self).pending()[i]
                    as int].initialized,
            forall|i: int|
                0 <= i < old(self).pending().len() ==> (final(self).arena()[old(self).pending()[i]
                    as int].active <==> i == old(self).pending().len() - 1),
            forall|k: int|
                0 <= k < old(self).arena().len() && !Self::in_seq(old(self).pending(), k)
                    && !Self::in_seq(old(self).removals(), k) ==> final(self).arena()[k] == old(
                    self,
                ).arena()[k],
            forall|i: int|
                #![trigger old(self).pending()[i]]
                0 <= i < old(self).pending().len() ==> {
                    &&& final(self).arena()[old(self).pending()[i] as int].last_width == old(
                        self,
                    ).sizes_after_tick(width, height, i).0
                    &&& final(self).arena()[old(self).pending()[i] as int].last_height == old(
                        self,
                    ).sizes_after_tick(width, height, i).1
                },
            r.0 == old(self).tick_paused(),
            r.1@ == old(self).tick_actions(width, height),
    {
        let ghost p0 = self.pending@;
        let ghost a0 = self.entries@;
        let ghost q0 = self.remove_queue@;
        let ghost c0 = self.committed@;
        let ghost mk = self.lowest_offset;
        let mut log: Vec<Action> = Vec::new();
        let ghost d = Self::drain_calls(a0, q0, q0.len() as int);
        self.drain_remove_queue(&mut log);
        proof {
            assert(log@ =~= d);
            assert forall|i: int| 0 <= i < p0.len() implies self.entries@[p0[i] as int]
                == a0[p0[i] as int] by {
                if Self::in_seq(q0, p0[i] as int) {
                    let x = choose|x: int| 0 <= x < q0.len() && q0[x] == p0[i] as int;
                    assert(p0[i] != q0[x]);
                }
            }
        }
        let ghost a1 = self.entries@;
        let lo = self.lowest_offset;
        if let Some(m) = lo {
            while self.committed.len() > m
                invariant
                    m <= self.committed@.len(),
                    self.committed@.len() <= c0.len(),
                    self.committed@ =~= c0.take(self.committed@.len() as int),
                    self.pending@ == p0,
                    self.entries@ == a1,
                    self.remove_queue@.len() == 0,
                    self.lowest_offset == lo,
                    log@ == d,
                decreases self.committed@.len(),
            {
                let _t = self.committed.pop();
                proof {
                    assert(self.committed@ =~= c0.take(self.committed@.len() as int));
                }
            }
            proof {
                assert(self.committed@ =~= p0.take(m as int));
                assert forall|i: int|
                    0 <= i < p0.len() && i != m - 1 implies !self.entries@[p0[i]
                    as int].active by {
                    if i < m {
                        assert(p0.take(m as int) == c0.take(m as int));
                        assert(p0.take(m as int)[i] == p0[i]);
                        assert(c0.take(m as int)[i] == c0[i]);
                        assert(p0[i] == c0[i]);
                        assert(a0[c0[i] as int].active <==> i == c0.len() - 1);
                    }
                }
            }
            let ghost pa = m > 0 && self.entries@[p0[m - 1] as int].active;
            self.commit_catch_up(m, &mut log);
            self.lowest_offset = None;
            let plen = self.pending.len();
            let recenter = if plen > 0 {
                let top = self.pending[plen - 1];
                !self.entries[top].screen.closable
            } else {
                true
            };
            if recenter {
                log.push(Action::RecenterCursor);
            }
            proof {
                assert(pa == old(self).commit_prev_active());
                assert(recenter == old(self).recenter_needed());
                assert(log@ =~= d + old(self).commit_calls());
            }
        }
        proof {
            assert(self.committed@ =~= p0);
            assert(log@ =~= d + old(self).commit_calls());
        }
        if self.committed.len() == 0 {
            proof {
                assert(p0.len() == 0);
                assert(log@ =~= old(self).tick_actions(width, height));
                assert(final(self).wf());
                assert forall|x: int|
                    0 <= x < a0.len() && !Self::in_seq(p0, x) implies self.entries@[x]
                    == a1[x] by {}
                assert forall|i: int|
                    0 <= i < q0.len() implies (!self.entries@[q0[i] as int].initialized
                    && !self.entries@[q0[i] as int].active) by {
                    assert(Self::in_seq(q0, q0[i] as int));
                }
            }
            return (true, log);
        }
        let clen = self.committed.len();
        let top = self.committed[clen - 1];
        let ghost l2 = log@;
        if !self.entries[top].active {
            let mut e = self.entries[top];
            e.active = true;
            self.entries[top] = e;
            log.push(Action::OnActive(top));
        }
        proof {
            assert(top == p0.last());
            assert(log@ =~= l2 + (if !old(self).top_active_after_commit() {
                seq![Action::OnActive(p0.last())]
            } else {
                Seq::<Action>::empty()
            }));
            assert forall|i: int|
                #![trigger p0[i]]
                0 <= i < p0.len() implies (self.entries@[p0[i] as int].active <==> i == p0.len()
                - 1) by {
                if i != p0.len() - 1 {
                    assert(p0[i] != p0[p0.len() - 1]);
                }
            }
            assert forall|x: int|
                0 <= x < a0.len() && !Self::in_seq(p0, x) implies self.entries@[x] == a1[x] by {
                assert(Self::in_seq(p0, p0[p0.len() - 1] as int));
                assert(x != p0[p0.len() - 1] as int);
            }
            assert forall|i: int|
                #![trigger p0[i]]
                0 <= i < p0.len() implies self.entries@[p0[i] as int].initialized by {
                if mk is Some {
                    let m = mk->Some_0 as int;
                    if i < m {
                        assert(p0.take(m) == c0.take(m));
                        assert(p0.take(m)[i] == p0[i]);
                        assert(c0.take(m)[i] == c0[i]);
                        assert(a0[c0[i] as int].initialized);
                        assert(a1[p0[i] as int] == a0[p0[i] as int]);
                    }
                } else {
                    assert(p0 == c0);
                    assert(a0[c0[i] as int].initialized);
                    assert(a1[p0[i] as int] == a0[p0[i] as int]);
                }
            }
        }
        let ghost a3 = self.entries@;
        let ghost l3 = log@;
        let te = self.entries[top];
        if te.last_width != width || te.last_height != height {
            if te.last_width != -1 && te.last_height != -1 {
                let mut k: usize = 0;
                while k < self.committed.len()
                    invariant
                        0 <= k <= p0.len(),
                        clen == p0.len(),
                        self.committed@ == p0,
                        self.pending@ == p0,
                        self.remove_queue@.len() == 0,
                        self.lowest_offset is None,
                        self.entries@.len() == a3.len(),
                        forall|i: int| 0 <= i < p0.len() ==> p0[i] < a3.len(),
                        Self::no_dups(p0),
                        forall|x: int|
                            0 <= x < a3.len() && !Self::in_seq(p0, x) ==> self.entries@[x]
                                == a3[x],
                        forall|i: int|
                            #![trigger p0[i]]
                            0 <= i < p0.len() ==> {
                                let id = p0[i] as int;
                                &&& self.entries@[id].screen == a0[id].screen
                                &&& self.entries@[id].initialized == a3[id].initialized
                                &&& self.entries@[id].active == a3[id].active
                                &&& self.entries@[id].last_width == (if i < k
                                    && Self::broadcast_target(a0, p0, i) {
                                    width
                                } else {
                                    a3[id].last_width
                                })
                                &&& self.entries@[id].last_height == (if i < k
                                    && Self::broadcast_target(a0, p0, i) {
                                    height
                                } else {
                                    a3[id].last_height
                                })
                            },
                        log@ == l3 + Self::resize_calls(a0, p0, k as int),
                    decreases p0.len() - k,
                {
                    let id = self.committed[k];
                    if self.entries[id].screen.tick_always || k == clen - 1 {
                        log.push(Action::OnResize(id));
                        let mut e = self.entries[id];
                        e.last_width = width;
                        e.last_height = height;
                        self.entries[id] = e;
                    }
                    k += 1;
                    proof {
                        let k0 = k as int - 1;
                        assert(Self::in_seq(p0, p0[k0] as int));
                        assert(log@ =~= l3 + Self::resize_calls(a0, p0, k as int));
                        assert forall|i: int|
                            #![trigger p0[i]]
                            0 <= i < p0.len() && i != k0 implies p0[i] != p0[k0] by {}
                    }
                }
            } else {
                let mut e = self.entries[top];
                e.last_width = width;
                e.last_height = height;
                self.entries[top] = e;
                proof {
                    assert forall|i: int|
                        #![trigger p0[i]]
                        0 <= i < p0.len() && i != p0.len() - 1 implies p0[i] != p0[p0.len()
                        - 1] by {}
                }
            }
        }
        let ghost a4 = self.entries@;
        let ghost l4 = log@;
        let mut k: usize = 0;
        while k < self.committed.len()
            invariant
                0 <= k <= p0.len(),
                clen == p0.len(),
                self.committed@ == p0,
                self.entries@ == a4,
                self.pending@ == p0,
                self.remove_queue@.len() == 0,
                self.lowest_offset is None,
                forall|i: int| 0 <= i < p0.len() ==> p0[i] < a4.len(),
                forall|i: int|
                    #![trigger p0[i]]
                    0 <= i < p0.len() ==> a4[p0[i] as int].screen == a0[p0[i] as int].screen,
                log@ == l4 + Self::dispatch_calls(a0, p0, k as int),
            decreases p0.len() - k,
        {
            let id = self.committed[k];
            if self.entries[id].screen.tick_always || k == clen - 1 {
                log.push(Action::Tick(id));
            }
            k += 1;
            proof {
                assert(log@ =~= l4 + Self::dispatch_calls(a0, p0, k as int));
            }
        }
        let paused = !self.entries[top].screen.in_game;
        proof {
            assert(log@ =~= old(self).tick_actions(width, height));
            assert(final(self).wf());
            assert forall|x: int|
                0 <= x < a0.len() && !Self::in_seq(p0, x) implies self.entries@[x] == a1[x] by {}
            assert forall|i: int|
                0 <= i < q0.len() implies (!self.entries@[q0[i] as int].initialized
                && !self.entries@[q0[i] as int].active) by {
                assert(Self::in_seq(q0, q0[i] as int));
                if Self::in_seq(p0, q0[i] as int) {
                    let x = choose|x: int| 0 <= x < p0.len() && p0[x] == q0[i] as int;
                    assert(p0[x] != q0[i]);
                    assert(false);
                }
            }
        }
        (paused, log)
    }

    /// How one `pop_screen` call relates the state after it to the state
    /// before it: nothing changes on an empty pending stack; otherwise the
    /// top pending entry moves to the remove queue and the dirty marker is
    /// set or lowered.
    pub open spec fn pop_effect(pre: ScreenSystem, post: ScreenSystem) -> bool {
        if pre.pending().len() == 0 {
            post == pre
        } else {
            &&& post.pending() == pre.pending().drop_last()
            &&& post.removals() == pre.removals().push(pre.pending().last())
            &&& post.committed() == pre.committed()
            &&& post.arena() == pre.arena()
            &&& post.marker() is Some
            &&& post.marker()->Some_0 as int == Self::lowered_marker(
                pre.marker(),
                pre.pending().len() - 1,
            )
        }
    }

    /// The committed entry a character event is routed to: the committed
    /// top, if any.  Entries below the top never receive it, tick-always or
    /// not.
    pub fn receive_char(&self) -> (r: Option<usize>)
        requires
            self.wf(),
        ensures
            self.committed().len() > 0 ==> r == Some(self.committed().last()),
            self.committed().len() == 0 ==> r is None,
    {
        if self.committed.len() > 0 {
            Some(self.committed[self.committed.len() - 1])
        } else {
            None
        }
    }

    /// The committed entry a scroll event is routed to: the committed top,
    /// if any.
    pub fn on_scroll(&self) -> (r: Option<usize>)
        requires
            self.wf(),
        ensures
            self.committed().len() > 0 ==> r == Some(self.committed().last()),
            self.committed().len() == 0 ==> r is None,
    {
        if self.committed.len() > 0 {
            Some(self.committed[self.committed.len() - 1])
        } else {
            None
        }
    }

    /// Routes a key event to the committed top and applies the default
    /// binding: an Escape key-up while the committed top is closable pops
    /// the pending stack and counts as handled.
    ///
    /// Returns the entry the event is routed to, if any, and whether the
    /// default binding consumed the event.
    pub fn press_key(&mut self, escape: bool, down: bool) -> (r: (Option<usize>, bool))
        requires
            old(self).wf(),
        ensures
            final(self).wf(),
            old(self).committed().len() == 0 ==> (*final(self) == *old(self) && r.0 is None
                && !r.1),
            old(self).committed().len() > 0 ==> {
                &&& r.0 == Some(old(self).committed().last())
                &&& r.1 == (escape && !down && old(self).arena()[old(self).committed().last()
                    as int].screen.closable)
                &&& !r.1 ==> *final(self) == *old(self)
                &&& r.1 ==> Self::pop_effect(*old(self), *final(self))
            },
    {
        if self.committed.len() == 0 {
            return (None, false);
        }
        let top = self.committed[self.committed.len() - 1];
        if escape && !down && self.entries[top].screen.closable {
            self.pop_screen();
            proof {
                if old(self).pending@.len() > 0 {
                    assert(self.pending@ =~= old(self).pending@.drop_last());
                    assert(self.remove_queue@ =~= old(self).remove_queue@.push(
                        old(self).pending@.last(),
                    ));
                }
            }
            (Some(top), true)
        } else {
            (Some(top), false)
        }
    }

    /// The number of entries on the pending stack.
    pub fn pending_len(&self) -> (n: usize)
        ensures
            n == self.pending().len(),
    {
        self.pending.len()
    }

    /// The number of entries on the committed stack.
    pub fn committed_len(&self) -> (n: usize)
        ensures
            n == self.committed().len(),
    {
        self.committed.len()
    }

    /// The number of entries awaiting teardown.
    pub fn remove_queue_len(&self) -> (n: usize)
        ensures
            n == self.removals().len(),
    {
        self.remove_queue.len()
    }

    /// The number of arena slots ever created.
    pub fn entry_count(&self) -> (n: usize)
        ensures
            n == self.arena().len(),
    {
        self.entries.len()
    }

    /// The dirty marker; `None` means clean.
    pub fn dirty_marker(&self) -> (r: Option<usize>)
        ensures
            r == self.marker(),
    {
        self.lowest_offset
    }

    /// The slot index at position `i` of the pending stack.
    pub fn pending_at(&self, i: usize) -> (id: usize)
        requires
            i < self.pending().len(),
        ensures
            id == self.pending()[i as int],
    {
        self.pending[i]
    }

    /// The slot index at position `i` of the committed stack.
    pub fn committed_at(&self, i: usize) -> (id: usize)
        requires
            i < self.committed().len(),
        ensures
            id == self.committed()[i as int],
    {
        self.committed[i]
    }

    /// The screen held by entry `id`.
    pub fn entry_screen(&self, id: usize) -> (s: Screen)
        requires
            id < self.arena().len(),
        ensures
            s == self.arena()[id as int].screen,
    {
        self.entries[id].screen
    }

    /// Whether `init` has been issued for entry `id` and not retired since.
    pub fn entry_initialized(&self, id: usize) -> (b: bool)
        requires
            id < self.arena().len(),
        ensures
            b == self.arena()[id as int].initialized,
    {
        self.entries[id].initialized
    }

    /// Whether entry `id` is currently active.
    pub fn entry_active(&self, id: usize) -> (b: bool)
        requires
            id < self.arena().len(),
        ensures
            b == self.arena()[id as int].active,
    {
        self.entries[id].active
    }

    /// Reads whether the current pending top is closable; false on an empty
    /// stack.
    pub fn is_current_closable(&self) -> (r: bool)
        requires
            self.wf(),
        ensures
            r == (self.pending().len() > 0 && self.arena()[self.pending().last()
                as int].screen.closable),
    {
        if self.pending.len() > 0 {
            let id = self.pending[self.pending.len() - 1];
            self.entries[id].screen.closable
        } else {
            false
        }
    }

    /// Reads whether the current pending top is an in-game screen; false on
    /// an empty stack.
    pub fn is_current_ingame(&self) -> (r: bool)
        requires
            self.wf(),
        ensures
            r == (self.pending().len() > 0 && self.arena()[self.pending().last()
                as int].screen.in_game),
    {
        if self.pending.len() > 0 {
            let id = self.pending[self.pending.len() - 1];
            self.entries[id].screen.in_game
        } else {
            false
        }
    }

    /// Reads whether any pending entry is an in-game screen.
    pub fn is_any_ingame(&self) -> (r: bool)
        requires
            self.wf(),
        ensures
            r == exists|i: int|
                0 <= i < self.pending().len() && self.arena()[self.pending()[i]
                    as int].screen.in_game,
    {
        let mut i: usize = 0;
        while i < self.pending.len()
            invariant
                self.wf(),
                i <= self.pending().len(),
                forall|k: int| 0 <= k < i ==> !self.arena()[self.pending()[k] as int].screen.in_game,
            decreases self.pending().len() - i,
        {
            let id = self.pending[i];
            if self.entries[id].screen.in_game {
                return true;
            }
            i += 1;
        }
        false
    }

    /// Pops pending entries while the pending top reports closable; stops at
    /// the first non-closable top or the empty stack, so it makes at most
    /// one iteration per entry.
    pub fn close_closable_screens(&mut self)
        requires
            old(self).wf(),
        ensures
            final(self).wf(),
            final(self).arena() == old(self).arena(),
            final(self).committed() == old(self).committed(),
            final(self).pending() == Self::closable_prefix(old(self).arena(), old(self).pending()),
            final(self).pending().len() == 0 || !final(self).arena()[final(self).pending().last()
                as int].screen.closable,
            final(self).removals() =~= old(self).removals() + Self::popped_seq(
                old(self).pending(),
                final(self).pending().len() as int,
            ),
            final(self).pending().len() == old(self).pending().len() ==> final(self).marker()
                == old(self).marker(),
            final(self).pending().len() < old(self).pending().len() ==> (final(self).marker()
                is Some && final(self).marker()->Some_0 as int == Self::lowered_marker(
                old(self).marker(),
                final(self).pending().len() as int,
            )),
    {
        loop
            invariant
                self.wf(),
                self.arena() == old(self).arena(),
                self.committed() == old(self).committed(),
                self.pending@.len() <= old(self).pending@.len(),
                self.pending@ =~= old(self).pending@.take(self.pending@.len() as int),
                Self::closable_prefix(self.arena(), self.pending@) == Self::closable_prefix(
                    old(self).arena(),
                    old(self).pending@,
                ),
                self.removals() =~= old(self).removals() + Self::popped_seq(
                    old(self).pending(),
                    self.pending@.len() as int,
                ),
                self.pending@.len() == old(self).pending@.len() ==> self.marker() == old(
                    self,
                ).marker(),
                self.pending@.len() < old(self).pending@.len() ==> (self.marker() is Some
                    && self.marker()->Some_0 as int == Self::lowered_marker(
                    old(self).marker(),
                    self.pending@.len() as int,
                )),
            ensures
                self.wf(),
                self.arena() == old(self).arena(),
                self.committed() == old(self).committed(),
                self.pending@ == Self::closable_prefix(old(self).arena(), old(self).pending@),
                self.pending@.len() == 0 || !self.arena()[self.pending@.last()
                    as int].screen.closable,
                self.removals() =~= old(self).removals() + Self::popped_seq(
                    old(self).pending(),
                    self.pending@.len() as int,
                ),
                self.pending@.len() == old(self).pending@.len() ==> self.marker() == old(
                    self,
                ).marker(),
                self.pending@.len() < old(self).pending@.len() ==> (self.marker() is Some
                    && self.marker()->Some_0 as int == Self::lowered_marker(
                    old(self).marker(),
                    self.pending@.len() as int,
                )),
            decreases self.pending@.len(),
        {
            let closable = self.is_current_closable();
            if !closable {
                proof {
                    assert(Self::closable_prefix(self.arena(), self.pending@) == self.pending@);
                }
                break;
            }
            assert(self.pending@.len() > 0);
            let ghost len_before = self.pending@.len() as int;
            let ghost pend_before = self.pending@;
            self.pop_screen();
            proof {
                assert(pend_before =~= old(self).pending@.take(len_before));
                assert(pend_before.drop_last() =~= old(self).pending@.take(len_before - 1));
                assert(pend_before.last() == old(self).pending@[len_before - 1]);
                Self::lemma_popped_seq_step(old(self).pending@, len_before);
                assert(Self::closable_prefix(self.arena(), pend_before) == Self::closable_prefix(
                    self.arena(),
                    pend_before.drop_last(),
                ));
            }
        }
    }
}

/// The lifecycle stage of one entry, as read off its observed call history:
/// nothing yet, initialized but not yet activated, active, deactivated, or
/// torn down for good.
pub enum LifePhase {
    Untouched,
    Primed,
    Active,
    Inactive,
    Retired,
}

/// Whether `a` is a lifecycle call addressed to entry `id`.
pub open spec fn action_for(a: Action, id: usize) -> bool {
    ||| a == Action::Init(id)
    ||| a == Action::Deinit(id)
    ||| a == Action::OnActive(id)
    ||| a == Action::OnDeactive(id)
    ||| a == Action::OnResize(id)
    ||| a == Action::Tick(id)
}

/// The legal lifecycle transitions of one entry: `init` once from nothing,
/// then `on_active`, then any number of deactivate/reactivate rounds with
/// `tick` and `on_resize` only while active, and `deinit` once, last, while
/// deactivated.  `None` is an illegal step.
pub open spec fn phase_step(ph: LifePhase, a: Action, id: usize) -> Option<LifePhase> {
    match ph {
        LifePhase::Untouched => if a == Action::Init(id) {
            Some(LifePhase::Primed)
        } else {
            None
        },
        LifePhase::Primed => if a == Action::OnActive(id) {
            Some(LifePhase::Active)
        } else {
            None
        },
        LifePhase::Active => if a == Action::OnDeactive(id) {
            Some(LifePhase::Inactive)
        } else if a == Action::Tick(id) || a == Action::OnResize(id) {
            Some(LifePhase::Active)
        } else {
            None
        },
        LifePhase::Inactive => if a == Action::OnActive(id) {
            Some(LifePhase::Active)
        } else if a == Action::Deinit(id) {
            Some(LifePhase::Retired)
        } else {
            None
        },
        LifePhase::Retired => None,
    }
}

/// Folds a call history over the lifecycle transitions of entry `id`,
/// ignoring calls addressed elsewhere; `None` means the history is illegal
/// for that entry.
pub open spec fn run_from(ph: Option<LifePhase>, h: Seq<Action>, id: usize) -> Option<LifePhase>
    decreases h.len(),
{
    if h.len() == 0 {
        ph
    } else {
        match run_from(ph, h.drop_last(), id) {
            None => None,
            Some(p) => if action_for(h.last(), id) {
                phase_step(p, h.last(), id)
            } else {
                Some(p)
            },
        }
    }
}

/// The lifecycle phase an entry's bookkeeping flags imply.
pub open spec fn phase_matches(e: ScreenEntry, ph: LifePhase) -> bool {
    if e.active {
        ph == LifePhase::Active
    } else if e.initialized {
        ph == LifePhase::Inactive
    } else {
        ph == LifePhase::Untouched || ph == LifePhase::Retired
    }
}

proof fn lemma_distinct(s: Seq<usize>, i: int, j: int)
    requires
        ScreenSystem::no_dups(s),
        0 <= i < j < s.len(),
    ensures
        s[i] != s[j],
{
}

proof fn lemma_run_concat(ph: Option<LifePhase>, h1: Seq<Action>, h2: Seq<Action>, id: usize)
    ensures
        run_from(ph, h1 + h2, id) == run_from(run_from(ph, h1, id), h2, id),
    decreases h2.len(),
{
    if h2.len() == 0 {
        assert(h1 + h2 =~= h1);
    } else {
        lemma_run_concat(ph, h1, h2.drop_last(), id);
        assert((h1 + h2).drop_last() =~= h1 + h2.drop_last());
        assert((h1 + h2).last() == h2.last());
    }
}

proof fn lemma_run_push(ph: Option<LifePhase>, h: Seq<Action>, a: Action, id: usize)
    ensures
        run_from(ph, h.push(a), id) == (match run_from(ph, h, id) {
            None => None,
            Some(p) => if action_for(a, id) {
                phase_step(p, a, id)
            } else {
                Some(p)
            },
        }),
{
    assert(h.push(a).drop_last() =~= h);
    assert(h.push(a).last() == a);
}

proof fn lemma_run_skip(ph: Option<LifePhase>, h: Seq<Action>, id: usize)
    requires
        forall|i: int| 0 <= i < h.len() ==> !action_for(#[trigger] h[i], id),
    ensures
        run_from(ph, h, id) == ph,
    decreases h.len(),
{
    if h.len() > 0 {
        lemma_run_skip(ph, h.drop_last(), id);
        assert(h.drop_last().len() == h.len() - 1);
        assert(!action_for(h.last(), id));
    }
}

/// What draining retires an entry to, as a lifecycle phase.
pub open spec fn drained_phase(e: ScreenEntry, ph: LifePhase) -> LifePhase {
    if e.initialized {
        LifePhase::Retired
    } else if e.active {
        LifePhase::Inactive
    } else {
        ph
    }
}

proof fn lemma_retire_run(a: Seq<ScreenEntry>, x: usize, id: usize, ph: LifePhase)
    requires
        x == id ==> phase_matches(a[id as int], ph),
    ensures
        x != id ==> run_from(Some(ph), ScreenSystem::retire_calls_for(a, x), id) == Some(ph),
        x == id ==> run_from(Some(ph), ScreenSystem::retire_calls_for(a, x), id) == Some(
            drained_phase(a[id as int], ph),
        ),
{
    let s = ScreenSystem::retire_calls_for(a, x);
    let d = (if a[x as int].active {
        seq![Action::OnDeactive(x)]
    } else {
        Seq::<Action>::empty()
    });
    if a[x as int].initialized {
        assert(s =~= d.push(Action::Deinit(x)));
        lemma_run_push(Some(ph), d, Action::Deinit(x), id);
    } else {
        assert(s =~= d);
    }
    if a[x as int].active {
        assert(d =~= Seq::<Action>::empty().push(Action::OnDeactive(x)));
        lemma_run_push(Some(ph), Seq::<Action>::empty(), Action::OnDeactive(x), id);
    }
}

proof fn lemma_drain_run(a: Seq<ScreenEntry>, q: Seq<usize>, n: int, id: usize, ph: LifePhase)
    requires
        0 <= n <= q.len(),
        ScreenSystem::no_dups(q),
        phase_matches(a[id as int], ph),
    ensures
        !ScreenSystem::in_seq(q.take(n), id as int) ==> run_from(
            Some(ph),
            ScreenSystem::drain_calls(a, q, n),
            id,
        ) == Some(ph),
        ScreenSystem::in_seq(q.take(n), id as int) ==> run_from(
            Some(ph),
            ScreenSystem::drain_calls(a, q, n),
            id,
        ) == Some(drained_phase(a[id as int], ph)),
    decreases n,
{
    if n > 0 {
        lemma_drain_run(a, q, n - 1, id, ph);
        lemma_run_concat(
            Some(ph),
            ScreenSystem::drain_calls(a, q, n - 1),
            ScreenSystem::retire_calls_for(a, q[n - 1]),
            id,
        );
        assert(forall|i: int| 0 <= i < n - 1 ==> q.take(n - 1)[i] == q[i]);
        assert(forall|i: int| 0 <= i < n ==> q.take(n)[i] == q[i]);
        if q[n - 1] == id {
            assert(!ScreenSystem::in_seq(q.take(n - 1), id as int));
            assert(q.take(n)[n - 1] == id);
            assert(ScreenSystem::in_seq(q.take(n), id as int));
            lemma_retire_run(a, q[n - 1], id, ph);
        } else {
            if ScreenSystem::in_seq(q.take(n), id as int) {
                let i = choose|i: int| 0 <= i < n && q.take(n)[i] == id;
                assert(i != n - 1);
                assert(q.take(n - 1)[i] == id);
                assert(ScreenSystem::in_seq(q.take(n - 1), id as int));
                lemma_retire_run(a, q[n - 1], id, drained_phase(a[id as int], ph));
            } else {
                assert(!ScreenSystem::in_seq(q.take(n - 1), id as int));
                lemma_retire_run(a, q[n - 1], id, ph);
            }
        }
    }
}

/// The phase entry `id` is left in by the catch-up calls over `p[m..j]`,
/// given where it sits in the pending stack (`pos`, or -1 if absent).
pub open spec fn catchup_phase(
    p: Seq<usize>,
    m: int,
    pa: bool,
    j: int,
    pos: int,
    ph: LifePhase,
) -> LifePhase {
    if m <= pos < j {
        if pos == j - 1 {
            LifePhase::Active
        } else {
            LifePhase::Inactive
        }
    } else if pos == m - 1 && m > 0 && pa && j > m {
        LifePhase::Inactive
    } else {
        ph
    }
}

proof fn lemma_catchup_run(
    p: Seq<usize>,
    m: int,
    pa: bool,
    j: int,
    id: usize,
    pos: int,
    ph: LifePhase,
)
    requires
        0 <= m <= j <= p.len(),
        ScreenSystem::no_dups(p),
        pos >= -1,
        pos == -1 ==> !ScreenSystem::in_seq(p, id as int),
        pos >= 0 ==> 0 <= pos < p.len() && p[pos] == id,
        m <= pos ==> ph == LifePhase::Untouched,
        (pos == m - 1 && m > 0 && pa) ==> ph == LifePhase::Active,
    ensures
        run_from(Some(ph), ScreenSystem::catchup_calls(p, m, pa, j), id) == Some(
            catchup_phase(p, m, pa, j, pos, ph),
        ),
    decreases j - m,
{
    if j > m {
        lemma_catchup_run(p, m, pa, j - 1, id, pos, ph);
        lemma_run_concat(
            Some(ph),
            ScreenSystem::catchup_calls(p, m, pa, j - 1),
            ScreenSystem::catchup_step(p, m, pa, j - 1),
            id,
        );
        let k = j - 1;
        let phi = catchup_phase(p, m, pa, k, pos, ph);
        let dact = (if k > m || (k > 0 && pa) {
            seq![Action::OnDeactive(p[k - 1])]
        } else {
            Seq::<Action>::empty()
        });
        let stepc = ScreenSystem::catchup_step(p, m, pa, k);
        assert(stepc =~= dact.push(Action::Init(p[k])).push(Action::OnActive(p[k])));
        let r0 = run_from(Some(phi), dact, id);
        if k > m || (k > 0 && pa) {
            assert(dact =~= Seq::<Action>::empty().push(Action::OnDeactive(p[k - 1])));
            lemma_run_push(Some(phi), Seq::<Action>::empty(), Action::OnDeactive(p[k - 1]), id);
        }
        lemma_run_push(Some(phi), dact, Action::Init(p[k]), id);
        lemma_run_push(Some(phi), dact.push(Action::Init(p[k])), Action::OnActive(p[k]), id);
        if pos == k {
            assert(phi == LifePhase::Untouched);
            if k > 0 {
                lemma_distinct(p, k - 1, k);
            }
        } else if pos == k - 1 && k >= 1 {
            if k - 1 >= m {
                assert(phi == LifePhase::Active);
            } else {
                assert(k == m && pos == m - 1);
            }
            lemma_distinct(p, k - 1, k);
        } else {
            if pos == -1 {
                if p[k] == id {
                    assert(ScreenSystem::in_seq(p, id as int));
                }
                if k > 0 && p[k - 1] == id {
                    assert(ScreenSystem::in_seq(p, id as int));
                }
            } else {
                if pos < k {
                    lemma_distinct(p, pos, k);
                } else {
                    lemma_distinct(p, k, pos);
                }
                if k > 0 {
                    if pos < k - 1 {
                        lemma_distinct(p, pos, k - 1);
                    } else if k - 1 < pos {
                        lemma_distinct(p, k - 1, pos);
                    }
                }
            }
            assert(p[k] != id);
            if k > 0 {
                assert(p[k - 1] != id);
            }
        }
    }
}

proof fn lemma_resize_run(
    a: Seq<ScreenEntry>,
    p: Seq<usize>,
    j: int,
    id: usize,
    pos: int,
    ph: LifePhase,
)
    requires
        0 <= j <= p.len(),
        ScreenSystem::no_dups(p),
        pos >= -1,
        pos == -1 ==> !ScreenSystem::in_seq(p, id as int),
        pos >= 0 ==> 0 <= pos < p.len() && p[pos] == id && !a[id as int].screen.tick_always,
        pos == p.len() - 1 ==> ph == LifePhase::Active,
    ensures
        run_from(Some(ph), ScreenSystem::resize_calls(a, p, j), id) == Some(ph),
        run_from(Some(ph), ScreenSystem::dispatch_calls(a, p, j), id) == Some(ph),
    decreases j,
{
    if j > 0 {
        lemma_resize_run(a, p, j - 1, id, pos, ph);
        lemma_run_concat(
            Some(ph),
            ScreenSystem::resize_calls(a, p, j - 1),
            (if ScreenSystem::broadcast_target(a, p, j - 1) {
                seq![Action::OnResize(p[j - 1])]
            } else {
                Seq::<Action>::empty()
            }),
            id,
        );
        lemma_run_concat(
            Some(ph),
            ScreenSystem::dispatch_calls(a, p, j - 1),
            (if ScreenSystem::broadcast_target(a, p, j - 1) {
                seq![Action::Tick(p[j - 1])]
            } else {
                Seq::<Action>::empty()
            }),
            id,
        );
        if ScreenSystem::broadcast_target(a, p, j - 1) {
            lemma_run_push(Some(ph), Seq::<Action>::empty(), Action::OnResize(p[j - 1]), id);
            lemma_run_push(Some(ph), Seq::<Action>::empty(), Action::Tick(p[j - 1]), id);
            assert(seq![Action::OnResize(p[j - 1])] =~= Seq::<Action>::empty().push(
                Action::OnResize(p[j - 1]),
            ));
            assert(seq![Action::Tick(p[j - 1])] =~= Seq::<Action>::empty().push(
                Action::Tick(p[j - 1]),
            ));
            if p[j - 1] == id {
                if pos == -1 {
                    assert(ScreenSystem::in_seq(p, id as int));
                }
                if pos != j - 1 && pos >= 0 {
                    if pos < j - 1 {
                        lemma_distinct(p, pos, j - 1);
                    } else {
                        lemma_distinct(p, j - 1, pos);
                    }
                }
                assert(pos == j - 1);
                assert(pos == p.len() - 1);
                assert(ph == LifePhase::Active);
            }
        }
    }
}

/// Lifecycle ordering law.
///
/// Whatever history `h` of lifecycle calls a non-tick-always entry has
/// legally observed so far, one commit/tick pass extends it legally: the
/// calls any single pass addresses to the entry keep its history inside the
/// shape `init`, `on_active`, any number of `on_deactive`/`on_active`
/// rounds with `tick` and `on_resize` falling only between an `on_active`
/// and its matching `on_deactive`, and one final `on_deactive` plus
/// `deinit`.  `ph` is the phase the entry's flags imply before the pass; a
/// retired entry never sits on the pending stack again.
pub proof fn lemma_tick_lifecycle(
    s: ScreenSystem,
    width: i32,
    height: i32,
    id: usize,
    ph: LifePhase,
)
    requires
        s.wf(),
        id < s.arena().len(),
        !s.arena()[id as int].screen.tick_always,
        phase_matches(s.arena()[id as int], ph),
        ph == LifePhase::Retired ==> !ScreenSystem::in_seq(s.pending(), id as int),
    ensures
        run_from(Some(ph), s.tick_actions(width, height), id) is Some,
{
    let a = s.arena();
    let p = s.pending();
    let q = s.removals();
    let c = s.committed();
    let plen = p.len() as int;
    let d = ScreenSystem::drain_calls(a, q, q.len() as int);
    let cc = s.commit_calls();
    assert(q.take(q.len() as int) =~= q);
    lemma_drain_run(a, q, q.len() as int, id, ph);
    let ph1 = if ScreenSystem::in_seq(q, id as int) {
        drained_phase(a[id as int], ph)
    } else {
        ph
    };
    assert(run_from(Some(ph), d, id) == Some(ph1));
    let pos: int = if ScreenSystem::in_seq(p, id as int) {
        choose|i: int| 0 <= i < p.len() && p[i] == id
    } else {
        -1
    };
    if pos >= 0 {
        if ScreenSystem::in_seq(q, id as int) {
            let x = choose|x: int| 0 <= x < q.len() && q[x] == id;
            assert(p[pos] != q[x]);
            assert(false);
        }
        assert(ph1 == ph);
    }
    let ph2 = match s.marker() {
        Option::None => ph1,
        Option::Some(mu) => catchup_phase(
            p,
            mu as int,
            s.commit_prev_active(),
            plen,
            pos,
            ph1,
        ),
    };
    match s.marker() {
        Option::None => {
            assert(cc =~= Seq::<Action>::empty());
            assert(run_from(Some(ph1), cc, id) == Some(ph1));
        },
        Option::Some(mu) => {
            let m = mu as int;
            let pa = s.commit_prev_active();
            if m <= pos {
                assert(ScreenSystem::fresh_entry(a[p[pos] as int]));
                assert(ph == LifePhase::Untouched);
            }
            if pos == m - 1 && m > 0 && pa {
                assert(a[id as int].active);
                assert(ph == LifePhase::Active);
            }
            lemma_catchup_run(p, m, pa, plen, id, pos, ph1);
            let cat = ScreenSystem::catchup_calls(p, m, pa, plen);
            let rec = (if s.recenter_needed() {
                seq![Action::RecenterCursor]
            } else {
                Seq::<Action>::empty()
            });
            assert(cc == cat + rec);
            lemma_run_concat(Some(ph1), cat, rec, id);
            assert(forall|i: int| 0 <= i < rec.len() ==> !action_for(#[trigger] rec[i], id));
            lemma_run_skip(Some(ph2), rec, id);
            assert(run_from(Some(ph1), cc, id) == Some(ph2));
        },
    }
    lemma_run_concat(Some(ph), d, cc, id);
    assert(run_from(Some(ph), d + cc, id) == Some(ph2));
    if plen == 0 {
        assert(s.tick_actions(width, height) == d + cc);
    } else {
        let top = p.last();
        if id == top {
            assert(ScreenSystem::in_seq(p, id as int));
            if pos < plen - 1 {
                lemma_distinct(p, pos, plen - 1);
                assert(false);
            }
            assert(pos == plen - 1);
        }
        let tac = s.top_active_after_commit();
        let guard = (if !tac {
            seq![Action::OnActive(top)]
        } else {
            Seq::<Action>::empty()
        });
        let ph3 = if id == top && !tac {
            LifePhase::Active
        } else {
            ph2
        };
        if !tac {
            assert(guard =~= Seq::<Action>::empty().push(Action::OnActive(top)));
            lemma_run_push(Some(ph2), Seq::<Action>::empty(), Action::OnActive(top), id);
            if id == top {
                match s.marker() {
                    Option::None => {
                        assert(p == c);
                        assert(a[c[plen - 1] as int].active <==> plen - 1 == c.len() - 1);
                        assert(false);
                    },
                    Option::Some(mu) => {
                        let m = mu as int;
                        assert(m == plen);
                        assert(p.take(m) == c.take(m));
                        assert(p.take(m)[plen - 1] == p[plen - 1]);
                        assert(c.take(m)[plen - 1] == c[plen - 1]);
                        assert(a[c[plen - 1] as int].initialized);
                        assert(ph == LifePhase::Inactive);
                        assert(ph2 == LifePhase::Inactive);
                    },
                }
            }
        } else {
            assert(run_from(Some(ph2), guard, id) == Some(ph2));
        }
        lemma_run_concat(Some(ph), d + cc, guard, id);
        assert(run_from(Some(ph), d + cc + guard, id) == Some(ph3));
        if pos == plen - 1 {
            if tac {
                match s.marker() {
                    Option::None => {
                        assert(p == c);
                        assert(a[c[plen - 1] as int].active <==> plen - 1 == c.len() - 1);
                        assert(ph == LifePhase::Active);
                    },
                    Option::Some(mu) => {
                        let m = mu as int;
                        if m < plen {
                            assert(ph2 == LifePhase::Active);
                        } else {
                            assert(a[p[plen - 1] as int].active);
                            assert(ph == LifePhase::Active);
                        }
                    },
                }
            }
            assert(ph3 == LifePhase::Active);
        }
        let te = a[top as int];
        let rs = (if te.last_width == width && te.last_height == height {
            Seq::<Action>::empty()
        } else if te.last_width != -1i32 && te.last_height != -1i32 {
            ScreenSystem::resize_calls(a, p, plen)
        } else {
            Seq::<Action>::empty()
        });
        let tk = ScreenSystem::dispatch_calls(a, p, plen);
        lemma_resize_run(a, p, plen, id, pos, ph3);
        assert(run_from(Some(ph3), rs, id) == Some(ph3));
        lemma_run_concat(Some(ph), d + cc + guard, rs, id);
        lemma_run_concat(Some(ph), d + cc + guard + rs, tk, id);
        assert(s.tick_actions(width, height) == d + cc + guard + rs + tk);
        assert(run_from(Some(ph), s.tick_actions(width, height), id) == Some(ph3));
    }
}

} // verus!
