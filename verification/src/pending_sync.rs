use crate::seq_util::{lemma_without_no_dup, remove_all_vec, vec_contains, without};
use std::time::{Duration, Instant};
use vstd::prelude::*;

verus! {

/// The identifier of a native window.
#[derive(PartialEq, Eq, Structural, Clone, Copy, Debug, Hash)]
pub struct WindowId(pub isize);

#[verifier::external_type_specification]
#[verifier::external_body]
pub struct ExInstant(Instant);

/// Reads the monotonic clock: calls `Instant::now`. Nothing is claimed of
/// the result, which depends on the moment of the call.
#[verifier::external_body]
fn clock_now() -> Instant {
    Instant::now()
}

/// The time elapsed on the monotonic clock since `epoch`: calls
/// `Instant::elapsed`. Nothing is claimed of the result, which depends on
/// the moment of the call.
#[verifier::external_body]
fn elapsed_since(epoch: &Instant) -> Duration {
    epoch.elapsed()
}

/// The length of `d` in whole nanoseconds: calls `Duration::as_nanos`.
/// Nothing is claimed of the result, since `Duration` is opaque here.
#[verifier::external_body]
fn duration_nanos(d: &Duration) -> u128 {
    d.as_nanos()
}

/// The time `delay` after `now`, or the clock's last moment where that is
/// beyond its range.
pub open spec fn due_after(now: u128, delay: u128) -> u128 {
    if now + delay > u128::MAX {
        u128::MAX
    } else {
        (now + delay) as u128
    }
}

/// The time `delay` after `now`, or the clock's last moment where that is
/// beyond its range.
pub fn due_time(now: u128, delay: u128) -> (r: u128)
    ensures
        r == due_after(now, delay),
{
    match now.checked_add(delay) {
        Some(d) => d,
        None => u128::MAX,
    }
}

/// A border effect to apply to a window once it is due.
#[derive(PartialEq, Eq, Structural, Clone, Copy, Debug)]
pub struct DelayedBorderEffect {
    pub window_id: WindowId,
    /// When it is due, in nanoseconds on the clock of its `PendingSync`.
    pub due: u128,
}

/// The mathematical model of the pending changes.
pub struct PendingSyncView {
    pub containers_to_redraw: Seq<usize>,
    pub workspaces_to_reorder: Seq<usize>,
    pub needs_focus_update: bool,
    pub needs_focused_effect_update: bool,
    pub needs_all_effects_update: bool,
    pub needs_cursor_jump: bool,
    pub delayed_border_effects: Seq<DelayedBorderEffect>,
}

/// Whether one of `effects` is due at `now`.
pub open spec fn any_due(effects: Seq<DelayedBorderEffect>, now: u128) -> bool {
    exists|i: int| 0 <= i < effects.len() && #[trigger] effects[i].due <= now
}

/// The effects of which `keep` holds, in order.
pub open spec fn retain_effects(
    effects: Seq<DelayedBorderEffect>,
    keep: spec_fn(DelayedBorderEffect) -> bool,
) -> Seq<DelayedBorderEffect>
    decreases effects.len(),
{
    if effects.len() == 0 {
        effects
    } else if keep(effects.last()) {
        retain_effects(effects.drop_last(), keep).push(effects.last())
    } else {
        retain_effects(effects.drop_last(), keep)
    }
}

/// The effects not yet due at `now`, in order.
pub open spec fn not_due(effects: Seq<DelayedBorderEffect>, now: u128) -> Seq<DelayedBorderEffect> {
    retain_effects(effects, |e: DelayedBorderEffect| e.due > now)
}

/// The effects for other windows than `id`, in order.
pub open spec fn without_window(effects: Seq<DelayedBorderEffect>, id: WindowId) -> Seq<
    DelayedBorderEffect,
> {
    retain_effects(effects, |e: DelayedBorderEffect| e.window_id != id)
}

/// The windows of the effects due at `now`, in order.
pub open spec fn due_windows(effects: Seq<DelayedBorderEffect>, now: u128) -> Seq<WindowId>
    decreases effects.len(),
{
    if effects.len() == 0 {
        Seq::empty()
    } else if effects.last().due <= now {
        due_windows(effects.drop_last(), now).push(effects.last().window_id)
    } else {
        due_windows(effects.drop_last(), now)
    }
}

/// Whether one of `effects` is for window `id`.
pub open spec fn has_window(effects: Seq<DelayedBorderEffect>, id: WindowId) -> bool {
    exists|i: int| 0 <= i < effects.len() && #[trigger] effects[i].window_id == id
}

/// The effects after queuing one for `id`, due at `due`: an effect already
/// queued for the window is due then instead; else the effect goes last.
pub open spec fn queue_effect(effects: Seq<DelayedBorderEffect>, id: WindowId, due: u128) -> Seq<
    DelayedBorderEffect,
> {
    if has_window(effects, id) {
        let i = choose|i: int| 0 <= i < effects.len() && #[trigger] effects[i].window_id == id;
        effects.update(i, DelayedBorderEffect { window_id: id, due })
    } else {
        effects.push(DelayedBorderEffect { window_id: id, due })
    }
}

/// No two effects are for the same window.
pub open spec fn distinct_windows(effects: Seq<DelayedBorderEffect>) -> bool {
    forall|i: int, j: int|
        0 <= i < effects.len() && 0 <= j < effects.len() && i != j ==> #[trigger] effects[i].window_id
            != #[trigger] effects[j].window_id
}

/// What `retain_effects` keeps: exactly the effects of which `keep` holds.
pub proof fn lemma_retain_effects(
    effects: Seq<DelayedBorderEffect>,
    keep: spec_fn(DelayedBorderEffect) -> bool,
)
    ensures
        forall|e: DelayedBorderEffect|
            #[trigger] retain_effects(effects, keep).contains(e) <==> (effects.contains(e) && keep(
                e,
            )),
        distinct_windows(effects) ==> distinct_windows(retain_effects(effects, keep)),
    decreases effects.len(),
{
    if effects.len() > 0 {
        let d = effects.drop_last();
        let x = effects.last();
        lemma_retain_effects(d, keep);
        let r = retain_effects(effects, keep);
        let rd = retain_effects(d, keep);
        assert forall|e: DelayedBorderEffect| #[trigger] r.contains(e) <==> (effects.contains(e)
            && keep(e)) by {
            if r.contains(e) {
                let m = choose|m: int| 0 <= m < r.len() && r[m] == e;
                if keep(x) && m == rd.len() {
                    assert(effects[effects.len() - 1] == e);
                } else {
                    assert(rd[m] == e);
                    assert(rd.contains(e));
                    let k = choose|k: int| 0 <= k < d.len() && d[k] == e;
                    assert(effects[k] == e);
                }
            }
            if effects.contains(e) && keep(e) {
                let k = choose|k: int| 0 <= k < effects.len() && effects[k] == e;
                if k == effects.len() - 1 {
                    assert(r[r.len() - 1] == e);
                } else {
                    assert(d[k] == e);
                    assert(d.contains(e));
                    assert(rd.contains(e));
                    let m = choose|m: int| 0 <= m < rd.len() && rd[m] == e;
                    assert(r[m] == e);
                }
            }
        }
        if distinct_windows(effects) {
            assert(distinct_windows(d)) by {
                assert forall|i: int, j: int|
                    0 <= i < d.len() && 0 <= j < d.len() && i != j implies #[trigger] d[i].window_id
                    != #[trigger] d[j].window_id by {
                    assert(effects[i] == d[i] && effects[j] == d[j]);
                }
            }
            if keep(x) {
                assert forall|i: int, j: int|
                    0 <= i < r.len() && 0 <= j < r.len() && i != j implies #[trigger] r[i].window_id
                    != #[trigger] r[j].window_id by {
                    if i == rd.len() || j == rd.len() {
                        let o = if i == rd.len() { j } else { i };
                        assert(rd.contains(rd[o]));
                        assert(d.contains(rd[o]));
                        let k = choose|k: int| 0 <= k < d.len() && d[k] == rd[o];
                        assert(effects[k] == rd[o]);
                        assert(effects[effects.len() - 1] == x);
                    } else {
                        assert(r[i] == rd[i] && r[j] == rd[j]);
                    }
                }
            }
        }
    }
}

impl PendingSyncView {
    /// Whether anything is pending at `now`.
    pub open spec fn has_changes_at(self, now: u128) -> bool {
        ||| self.containers_to_redraw.len() > 0
        ||| self.workspaces_to_reorder.len() > 0
        ||| self.needs_focus_update
        ||| self.needs_focused_effect_update
        ||| self.needs_all_effects_update
        ||| self.needs_cursor_jump
        ||| any_due(self.delayed_border_effects, now)
    }

    /// Nothing is pending.
    pub open spec fn is_empty(self) -> bool {
        &&& self.containers_to_redraw.len() == 0
        &&& self.workspaces_to_reorder.len() == 0
        &&& !self.needs_focus_update
        &&& !self.needs_focused_effect_update
        &&& !self.needs_all_effects_update
        &&& !self.needs_cursor_jump
        &&& self.delayed_border_effects.len() == 0
    }
}

/// Changes to the window manager's state that are yet to be applied to the
/// operating system: containers to redraw, workspaces to reorder, focus,
/// window effect and cursor updates, and border effects that are due later.
pub struct PendingSync {
    containers_to_redraw: Vec<usize>,
    workspaces_to_reorder: Vec<usize>,
    needs_focus_update: bool,
    needs_focused_effect_update: bool,
    needs_all_effects_update: bool,
    needs_cursor_jump: bool,
    delayed_border_effects: Vec<DelayedBorderEffect>,
    epoch: Instant,
}

impl View for PendingSync {
    type V = PendingSyncView;

    closed spec fn view(&self) -> PendingSyncView {
        PendingSyncView {
            containers_to_redraw: self.containers_to_redraw@,
            workspaces_to_reorder: self.workspaces_to_reorder@,
            needs_focus_update: self.needs_focus_update,
            needs_focused_effect_update: self.needs_focused_effect_update,
            needs_all_effects_update: self.needs_all_effects_update,
            needs_cursor_jump: self.needs_cursor_jump,
            delayed_border_effects: self.delayed_border_effects@,
        }
    }
}

impl PendingSync {
    /// No container is queued twice for redraw and no window has two
    /// delayed border effects.
    pub open spec fn wf(&self) -> bool {
        &&& self@.containers_to_redraw.no_duplicates()
        &&& distinct_windows(self@.delayed_border_effects)
    }

    /// Nothing pending.
    pub fn new() -> (r: PendingSync)
        ensures
            r.wf(),
            r@.is_empty(),
    {
        PendingSync {
            containers_to_redraw: Vec::new(),
            workspaces_to_reorder: Vec::new(),
            needs_focus_update: false,
            needs_focused_effect_update: false,
            needs_all_effects_update: false,
            needs_cursor_jump: false,
            delayed_border_effects: Vec::new(),
            epoch: clock_now(),
        }
    }

    /// Whether anything is pending at `now` (on this value's clock).
    pub fn has_changes_at(&self, now: u128) -> (r: bool)
        ensures
            r == self@.has_changes_at(now),
            r <==> (self@.containers_to_redraw.len() > 0 || self@.workspaces_to_reorder.len() > 0
                || self@.needs_focus_update || self@.needs_focused_effect_update
                || self@.needs_all_effects_update || self@.needs_cursor_jump || any_due(
                self@.delayed_border_effects,
                now,
            )),
    {
        self.containers_to_redraw.len() > 0 || self.workspaces_to_reorder.len() > 0
            || self.needs_focus_update || self.needs_focused_effect_update
            || self.needs_all_effects_update || self.needs_cursor_jump
            || self.has_due_border_effects_at(now)
    }

    /// Whether anything is pending now.
    pub fn has_changes(&self) -> (r: bool)
        ensures
            exists|now: u128| r == self@.has_changes_at(now),
    {
        let now = self.now();
        self.has_changes_at(now)
    }

    /// Drops everything pending.
    pub fn clear(&mut self) -> (r: &mut Self)
        ensures
            r.wf(),
            r@.is_empty(),
            *final(self) == *final(r),
    {
        self.containers_to_redraw.clear();
        self.workspaces_to_reorder.clear();
        self.needs_focus_update = false;
        self.needs_focused_effect_update = false;
        self.needs_all_effects_update = false;
        self.needs_cursor_jump = false;
        self.delayed_border_effects.clear();
        self
    }

    /// Queues a container (with its descendants) for redraw; queuing it
    /// again changes nothing.
    pub fn queue_container_to_redraw(&mut self, container: usize) -> (r: &mut Self)
        requires
            old(self).wf(),
        ensures
            r.wf(),
            r@ == (PendingSyncView {
                containers_to_redraw: insert_once(old(self)@.containers_to_redraw, container),
                ..old(self)@
            }),
            *final(self) == *final(r),
    {
        if !vec_contains(&self.containers_to_redraw, container) {
            self.containers_to_redraw.push(container);
        }
        self
    }

    /// Queues each of `containers` for redraw, in order.
    pub fn queue_containers_to_redraw(&mut self, containers: &Vec<usize>) -> (r: &mut Self)
        requires
            old(self).wf(),
        ensures
            r.wf(),
            r@ == (PendingSyncView {
                containers_to_redraw: insert_each(old(self)@.containers_to_redraw, containers@),
                ..old(self)@
            }),
            *final(self) == *final(r),
    {
        let ghost start = self@;
        let len = containers.len();
        let mut i: usize = 0;
        while i < len
            invariant
                self.wf(),
                len == containers@.len(),
                i <= len,
                self@ == (PendingSyncView {
                    containers_to_redraw: insert_each(
                        start.containers_to_redraw,
                        containers@.take(i as int),
                    ),
                    ..start
                }),
            decreases len - i,
        {
            assert(containers@.take(i + 1).drop_last() =~= containers@.take(i as int));
            self.queue_container_to_redraw(containers[i]);
            i = i + 1;
        }
        assert(containers@.take(len as int) =~= containers@);
        self
    }

    /// Takes a container off the redraw queue.
    pub fn dequeue_container_from_redraw(&mut self, container: usize) -> (r: &mut Self)
        requires
            old(self).wf(),
        ensures
            r.wf(),
            r@ == (PendingSyncView {
                containers_to_redraw: without(old(self)@.containers_to_redraw, container),
                ..old(self)@
            }),
            *final(self) == *final(r),
    {
        proof {
            lemma_without_no_dup(self@.containers_to_redraw, container);
        }
        self.containers_to_redraw = remove_all_vec(&self.containers_to_redraw, container);
        self
    }

    /// Queues a workspace whose windows' z-order should be updated.
    pub fn queue_workspace_to_reorder(&mut self, workspace: usize) -> (r: &mut Self)
        requires
            old(self).wf(),
        ensures
            r.wf(),
            r@ == (PendingSyncView {
                workspaces_to_reorder: old(self)@.workspaces_to_reorder.push(workspace),
                ..old(self)@
            }),
            *final(self) == *final(r),
    {
        self.workspaces_to_reorder.push(workspace);
        self
    }

    /// Marks that native focus should be reassigned to the focused
    /// container.
    pub fn queue_focus_change(&mut self) -> (r: &mut Self)
        ensures
            r@ == (PendingSyncView { needs_focus_update: true, ..old(self)@ }),
            *final(self) == *final(r),
    {
        self.needs_focus_update = true;
        self
    }

    /// Marks that the focused window's effect should be updated.
    pub fn queue_focused_effect_update(&mut self) -> (r: &mut Self)
        ensures
            r@ == (PendingSyncView { needs_focused_effect_update: true, ..old(self)@ }),
            *final(self) == *final(r),
    {
        self.needs_focused_effect_update = true;
        self
    }

    /// Marks that every window's effects should be updated.
    pub fn queue_all_effects_update(&mut self) -> (r: &mut Self)
        ensures
            r@ == (PendingSyncView { needs_all_effects_update: true, ..old(self)@ }),
            *final(self) == *final(r),
    {
        self.needs_all_effects_update = true;
        self
    }

    /// Marks that the cursor should jump to the focused container.
    pub fn queue_cursor_jump(&mut self) -> (r: &mut Self)
        ensures
            r@ == (PendingSyncView { needs_cursor_jump: true, ..old(self)@ }),
            *final(self) == *final(r),
    {
        self.needs_cursor_jump = true;
        self
    }

    /// Whether native focus should be reassigned to the focused container.
    pub fn needs_focus_update(&self) -> (r: bool)
        ensures
            r == self@.needs_focus_update,
    {
        self.needs_focus_update
    }

    /// Whether the focused window's effect should be updated.
    pub fn needs_focused_effect_update(&self) -> (r: bool)
        ensures
            r == self@.needs_focused_effect_update,
    {
        self.needs_focused_effect_update
    }

    /// Whether every window's effects should be updated.
    pub fn needs_all_effects_update(&self) -> (r: bool)
        ensures
            r == self@.needs_all_effects_update,
    {
        self.needs_all_effects_update
    }

    /// Whether the cursor should jump to the focused container.
    pub fn needs_cursor_jump(&self) -> (r: bool)
        ensures
            r == self@.needs_cursor_jump,
    {
        self.needs_cursor_jump
    }

    /// The containers queued for redraw.
    pub fn containers_to_redraw(&self) -> (r: &Vec<usize>)
        ensures
            r@ == self@.containers_to_redraw,
    {
        &self.containers_to_redraw
    }

    /// The workspaces queued for reordering, in order.
    pub fn workspaces_to_reorder(&self) -> (r: &Vec<usize>)
        ensures
            r@ == self@.workspaces_to_reorder,
    {
        &self.workspaces_to_reorder
    }

    /// The time on this value's clock, in nanoseconds.
    pub fn now(&self) -> u128 {
        let elapsed = elapsed_since(&self.epoch);
        duration_nanos(&elapsed)
    }

    /// Queues a border effect for a window, due at `due` on this value's
    /// clock; one already queued for the window is due then instead.
    pub fn queue_delayed_border_effect_at(&mut self, window_id: WindowId, due: u128)
        requires
            old(self).wf(),
        ensures
            final(self).wf(),
            final(self)@ == (PendingSyncView {
                delayed_border_effects: queue_effect(
                    old(self)@.delayed_border_effects,
                    window_id,
                    due,
                ),
                ..old(self)@
            }),
    {
        let ghost effects = self@.delayed_border_effects;
        let len = self.delayed_border_effects.len();
        let mut i: usize = 0;
        while i < len
            invariant
                len == effects.len(),
                self@ == old(self)@,
                self.wf(),
                self@.delayed_border_effects == effects,
                i <= len,
                forall|k: int| 0 <= k < i ==> (#[trigger] effects[k]).window_id != window_id,
            decreases len - i,
        {
            if self.delayed_border_effects[i].window_id == window_id {
                let ghost c = choose|c: int|
                    0 <= c < effects.len() && #[trigger] effects[c].window_id == window_id;
                proof {
                    assert(effects[i as int].window_id == window_id);
                    assert(c == i) by {
                        if c != i {
                            assert(effects[c].window_id != effects[i as int].window_id);
                        }
                    }
                }
                self.delayed_border_effects.set(i, DelayedBorderEffect { window_id, due });
                proof {
                    let n = self@.delayed_border_effects;
                    assert forall|a: int, b: int|
                        0 <= a < n.len() && 0 <= b < n.len() && a != b implies #[trigger] n[a].window_id
                        != #[trigger] n[b].window_id by {
                        if a != i && b != i {
                            assert(effects[a].window_id != effects[b].window_id);
                        } else if a == i {
                            assert(effects[b].window_id != effects[a].window_id);
                        } else {
                            assert(effects[a].window_id != effects[b].window_id);
                        }
                    }
                }
                return;
            }
            i = i + 1;
        }
        self.delayed_border_effects.push(DelayedBorderEffect { window_id, due });
        proof {
            assert(!has_window(effects, window_id));
            let n = self@.delayed_border_effects;
            assert forall|a: int, b: int|
                0 <= a < n.len() && 0 <= b < n.len() && a != b implies #[trigger] n[a].window_id
                != #[trigger] n[b].window_id by {
                if a < len && b < len {
                    assert(effects[a].window_id != effects[b].window_id);
                }
            }
        }
    }

    /// Queues a border effect for a window, due `delay_nanos` nanoseconds
    /// from now; one already queued for the window is due then instead. (A
    /// due time beyond the clock's range is taken as the clock's last
    /// moment.)
    pub fn queue_delayed_border_effect(&mut self, window_id: WindowId, delay_nanos: u128)
        requires
            old(self).wf(),
        ensures
            final(self).wf(),
            exists|now: u128|
                final(self)@ == (PendingSyncView {
                    delayed_border_effects: queue_effect(
                        old(self)@.delayed_border_effects,
                        window_id,
                        #[trigger] due_after(now, delay_nanos),
                    ),
                    ..old(self)@
                }),
    {
        let now = self.now();
        let due = due_time(now, delay_nanos);
        self.queue_delayed_border_effect_at(window_id, due);
    }

    /// Takes the border effects due at `now` off the queue and returns
    /// their windows, in order.
    pub fn take_due_border_effects(&mut self, now: u128) -> (r: Vec<WindowId>)
        requires
            old(self).wf(),
        ensures
            final(self).wf(),
            r@ == due_windows(old(self)@.delayed_border_effects, now),
            final(self)@ == (PendingSyncView {
                delayed_border_effects: not_due(old(self)@.delayed_border_effects, now),
                ..old(self)@
            }),
    {
        let ghost effects = self@.delayed_border_effects;
        let ghost keep = |e: DelayedBorderEffect| e.due > now;
        let mut due: Vec<WindowId> = Vec::new();
        let mut rest: Vec<DelayedBorderEffect> = Vec::new();
        let len = self.delayed_border_effects.len();
        let mut i: usize = 0;
        while i < len
            invariant
                len == effects.len(),
                self@.delayed_border_effects == effects,
                i <= len,
                keep == (|e: DelayedBorderEffect| e.due > now),
                due@ == due_windows(effects.take(i as int), now),
                rest@ == retain_effects(effects.take(i as int), keep),
            decreases len - i,
        {
            assert(effects.take(i + 1).drop_last() =~= effects.take(i as int));
            let e = self.delayed_border_effects[i];
            if e.due <= now {
                due.push(e.window_id);
            } else {
                rest.push(e);
            }
            i = i + 1;
        }
        assert(effects.take(len as int) =~= effects);
        proof {
            lemma_retain_effects(effects, keep);
        }
        self.delayed_border_effects = rest;
        due
    }

    /// Takes the border effects that are due off the queue and returns their
    /// windows, in order.
    pub fn get_due_border_effects(&mut self) -> (r: Vec<WindowId>)
        requires
            old(self).wf(),
        ensures
            final(self).wf(),
            exists|now: u128|
                r@ == due_windows(old(self)@.delayed_border_effects, now) && final(self)@ == (
                PendingSyncView {
                    delayed_border_effects: not_due(old(self)@.delayed_border_effects, now),
                    ..old(self)@
                }),
    {
        let now = self.now();
        self.take_due_border_effects(now)
    }

    /// Drops the border effect queued for a window, if any.
    pub fn remove_delayed_border_effect(&mut self, window_id: &WindowId)
        requires
            old(self).wf(),
        ensures
            final(self).wf(),
            final(self)@ == (PendingSyncView {
                delayed_border_effects: without_window(
                    old(self)@.delayed_border_effects,
                    *window_id,
                ),
                ..old(self)@
            }),
    {
        let ghost effects = self@.delayed_border_effects;
        let ghost keep = |e: DelayedBorderEffect| e.window_id != *window_id;
        let mut rest: Vec<DelayedBorderEffect> = Vec::new();
        let len = self.delayed_border_effects.len();
        let mut i: usize = 0;
        while i < len
            invariant
                len == effects.len(),
                self@.delayed_border_effects == effects,
                i <= len,
                keep == (|e: DelayedBorderEffect| e.window_id != *window_id),
                rest@ == retain_effects(effects.take(i as int), keep),
            decreases len - i,
        {
            assert(effects.take(i + 1).drop_last() =~= effects.take(i as int));
            let e = self.delayed_border_effects[i];
            if e.window_id != *window_id {
                rest.push(e);
            }
            i = i + 1;
        }
        assert(effects.take(len as int) =~= effects);
        proof {
            lemma_retain_effects(effects, keep);
        }
        self.delayed_border_effects = rest;
    }

    /// Whether a border effect is due at `now`.
    pub fn has_due_border_effects_at(&self, now: u128) -> (r: bool)
        ensures
            r == any_due(self@.delayed_border_effects, now),
    {
        let len = self.delayed_border_effects.len();
        let mut i: usize = 0;
        while i < len
            invariant
                len == self@.delayed_border_effects.len(),
                i <= len,
                forall|k: int| 0 <= k < i ==> (#[trigger] self@.delayed_border_effects[k]).due > now,
            decreases len - i,
        {
            if self.delayed_border_effects[i].due <= now {
                assert(self@.delayed_border_effects[i as int].due <= now);
                return true;
            }
            i = i + 1;
        }
        false
    }

    /// Whether a border effect is due now.
    pub fn has_due_border_effects(&self) -> (r: bool)
        ensures
            exists|now: u128| r == any_due(self@.delayed_border_effects, now),
    {
        let now = self.now();
        self.has_due_border_effects_at(now)
    }
}

/// Each queued container, queued workspace, set flag or due border effect
/// is a pending change, and nothing else is.
pub proof fn law_pending_changes(v: PendingSyncView, now: u128)
    ensures
        v.containers_to_redraw.len() > 0 ==> v.has_changes_at(now),
        v.workspaces_to_reorder.len() > 0 ==> v.has_changes_at(now),
        v.needs_focus_update ==> v.has_changes_at(now),
        v.needs_focused_effect_update ==> v.has_changes_at(now),
        v.needs_all_effects_update ==> v.has_changes_at(now),
        v.needs_cursor_jump ==> v.has_changes_at(now),
        forall|i: int|
            0 <= i < v.delayed_border_effects.len() && #[trigger] v.delayed_border_effects[i].due
                <= now ==> v.has_changes_at(now),
        v.has_changes_at(now) ==> (v.containers_to_redraw.len() > 0
            || v.workspaces_to_reorder.len() > 0 || v.needs_focus_update
            || v.needs_focused_effect_update || v.needs_all_effects_update || v.needs_cursor_jump
            || exists|i: int|
            0 <= i < v.delayed_border_effects.len() && #[trigger] v.delayed_border_effects[i].due
                <= now),
{
}

/// Queuing a workspace to reorder or a container to redraw, or asking for a
/// focus change, a cursor jump or an effects update, leaves a pending
/// change, whatever the time.
pub proof fn law_queued_is_pending(v: PendingSyncView, workspace: usize, container: usize, now: u128)
    ensures
        (PendingSyncView { workspaces_to_reorder: v.workspaces_to_reorder.push(workspace), ..v })
            .has_changes_at(now),
        (PendingSyncView {
            containers_to_redraw: insert_once(v.containers_to_redraw, container),
            ..v
        }).has_changes_at(now),
        (PendingSyncView { needs_focus_update: true, ..v }).has_changes_at(now),
        (PendingSyncView { needs_focused_effect_update: true, ..v }).has_changes_at(now),
        (PendingSyncView { needs_all_effects_update: true, ..v }).has_changes_at(now),
        (PendingSyncView { needs_cursor_jump: true, ..v }).has_changes_at(now),
{
    let w = PendingSyncView { containers_to_redraw: insert_once(v.containers_to_redraw, container), ..v };
    law_queue_redraw_once(v.containers_to_redraw, container);
    assert(w.containers_to_redraw.contains(container));
    law_pending_changes(w, now);
    law_pending_changes(PendingSyncView { workspaces_to_reorder: v.workspaces_to_reorder.push(workspace), ..v }, now);
}

/// Nothing is pending after `clear`, whatever the time.
pub proof fn law_cleared_has_no_changes(v: PendingSyncView, now: u128)
    requires
        v.is_empty(),
    ensures
        !v.has_changes_at(now),
{
}

/// Taking the border effects due at `now` leaves none due then; each
/// effect is either taken (its window returned) or kept, as it is due or
/// not.
pub proof fn law_take_due_border_effects(effects: Seq<DelayedBorderEffect>, now: u128)
    ensures
        !any_due(not_due(effects, now), now),
        forall|i: int|
            0 <= i < effects.len() ==> (#[trigger] effects[i].due <= now ==> due_windows(
                effects,
                now,
            ).contains(effects[i].window_id)) && (effects[i].due > now ==> not_due(
                effects,
                now,
            ).contains(effects[i])),
{
    let keep = |e: DelayedBorderEffect| e.due > now;
    lemma_retain_effects(effects, keep);
    lemma_due_windows(effects, now);
    let n = not_due(effects, now);
    assert forall|i: int| 0 <= i < n.len() implies #[trigger] n[i].due > now by {
        assert(n.contains(n[i]));
    }
    assert forall|i: int| 0 <= i < effects.len() && effects[i].due > now implies n.contains(
        effects[i],
    ) by {
        assert(effects.contains(effects[i]));
    }
}

/// The windows of the effects due at `now` are those of the due effects.
proof fn lemma_due_windows(effects: Seq<DelayedBorderEffect>, now: u128)
    ensures
        forall|i: int|
            0 <= i < effects.len() && #[trigger] effects[i].due <= now ==> due_windows(
                effects,
                now,
            ).contains(effects[i].window_id),
    decreases effects.len(),
{
    if effects.len() > 0 {
        let d = effects.drop_last();
        lemma_due_windows(d, now);
        let w = due_windows(effects, now);
        let wd = due_windows(d, now);
        assert forall|i: int| 0 <= i < effects.len() && #[trigger] effects[i].due <= now implies w.contains(
            effects[i].window_id,
        ) by {
            if i == effects.len() - 1 {
                assert(w[w.len() - 1] == effects[i].window_id);
            } else {
                assert(d[i] == effects[i]);
                assert(wd.contains(d[i].window_id));
                let m = choose|m: int| 0 <= m < wd.len() && wd[m] == d[i].window_id;
                if effects.last().due <= now {
                    assert(w[m] == wd[m]);
                }
            }
        }
    }
}

/// Queuing a container for redraw twice is queuing it once, and it is then
/// queued.
pub proof fn law_queue_redraw_once(s: Seq<usize>, c: usize)
    ensures
        insert_once(insert_once(s, c), c) == insert_once(s, c),
        insert_once(s, c).contains(c),
{
    if !s.contains(c) {
        assert(s.push(c)[s.len() as int] == c);
    }
}

/// After queuing a border effect for a window, exactly one queued effect is
/// for it, and it is due at the time given; removing the window's effect
/// then leaves none for it.
pub proof fn law_queue_then_remove_effect(
    effects: Seq<DelayedBorderEffect>,
    id: WindowId,
    due: u128,
)
    requires
        distinct_windows(effects),
    ensures
        distinct_windows(queue_effect(effects, id, due)),
        exists|i: int|
            0 <= i < queue_effect(effects, id, due).len() && #[trigger] queue_effect(
                effects,
                id,
                due,
            )[i] == (DelayedBorderEffect { window_id: id, due }),
        !has_window(without_window(queue_effect(effects, id, due), id), id),
{
    let q = queue_effect(effects, id, due);
    let e = DelayedBorderEffect { window_id: id, due };
    if has_window(effects, id) {
        let i = choose|i: int| 0 <= i < effects.len() && #[trigger] effects[i].window_id == id;
        assert(q[i] == e);
        assert forall|a: int, b: int|
            0 <= a < q.len() && 0 <= b < q.len() && a != b implies #[trigger] q[a].window_id
            != #[trigger] q[b].window_id by {
            if a != i && b != i {
                assert(effects[a].window_id != effects[b].window_id);
            } else if a == i {
                assert(effects[b].window_id != effects[a].window_id);
            } else {
                assert(effects[a].window_id != effects[b].window_id);
            }
        }
    } else {
        assert(q[effects.len() as int] == e);
        assert forall|a: int, b: int|
            0 <= a < q.len() && 0 <= b < q.len() && a != b implies #[trigger] q[a].window_id
            != #[trigger] q[b].window_id by {
            if a < effects.len() && b < effects.len() {
                assert(effects[a].window_id != effects[b].window_id);
            }
        }
    }
    let keep = |x: DelayedBorderEffect| x.window_id != id;
    lemma_retain_effects(q, keep);
    let r = without_window(q, id);
    if has_window(r, id) {
        let k = choose|k: int| 0 <= k < r.len() && #[trigger] r[k].window_id == id;
        assert(r.contains(r[k]));
    }
}

impl Default for PendingSync {
    /// Nothing pending.
    fn default() -> (r: Self)
        ensures
            r.wf(),
            r@.is_empty(),
    {
        PendingSync::new()
    }
}

/// `s` with `x` added at the end, unless it holds `x` already.
pub open spec fn insert_once(s: Seq<usize>, x: usize) -> Seq<usize> {
    if s.contains(x) {
        s
    } else {
        s.push(x)
    }
}

/// `s` after adding each of `xs` with `insert_once`, in order.
pub open spec fn insert_each(s: Seq<usize>, xs: Seq<usize>) -> Seq<usize>
    decreases xs.len(),
{
    if xs.len() == 0 {
        s
    } else {
        insert_once(insert_each(s, xs.drop_last()), xs.last())
    }
}

} // verus!
