use crate::container::model::with_children;
use crate::container::monitors::{children_are_monitors, is_sorted_monitors};
use crate::container::tree::ContainerTree;
use crate::events::WindowProps;
use crate::geometry::Rect;
use crate::pending_sync::{insert_once, PendingSync, PendingSyncView};
use crate::monitor::{
    find_matching_monitor, first_matching_monitor, lemma_first_matching_in_range,
    NativeMonitorProperties,
};
use vstd::prelude::*;

verus! {

/// One step of bringing the monitors in line with the displays that the
/// operating system reports.
#[derive(PartialEq, Eq, Structural, Clone, Copy, Debug)]
pub enum DisplayAction {
    /// Update monitor `monitor` (an index into the monitors) with the
    /// properties of display `display` (an index into the displays).
    Update { monitor: usize, display: usize },
    /// Add a new monitor for display `display`.
    Add { display: usize },
    /// Remove monitor `monitor`, moving its workspaces to other monitors.
    Remove { monitor: usize },
}

/// Where matching the displays to the monitors stands: the monitors not
/// matched yet (indices, in order), the updates made so far, and the
/// displays left without a match.
pub struct MatchState {
    pub pending: Seq<usize>,
    pub updates: Seq<DisplayAction>,
    pub unmatched: Seq<usize>,
}

/// The properties of the monitors at `pending`.
pub open spec fn pending_properties(
    monitors: Seq<NativeMonitorProperties>,
    pending: Seq<usize>,
) -> Seq<NativeMonitorProperties> {
    pending.map_values(|i: usize| monitors[i as int])
}

/// The state after matching the first `n` displays, in order: each is
/// matched against the monitors still pending; a matched monitor is
/// updated and stops pending.
pub open spec fn match_displays(
    monitors: Seq<NativeMonitorProperties>,
    displays: Seq<NativeMonitorProperties>,
    n: nat,
) -> MatchState
    decreases n,
{
    if n == 0 {
        MatchState {
            pending: Seq::new(monitors.len(), |i: int| i as usize),
            updates: Seq::empty(),
            unmatched: Seq::empty(),
        }
    } else {
        let s = match_displays(monitors, displays, (n - 1) as nat);
        let d = (n - 1) as usize;
        match first_matching_monitor(pending_properties(monitors, s.pending), displays[d as int]) {
            Some(k) => MatchState {
                pending: s.pending.remove(k),
                updates: s.updates.push(DisplayAction::Update { monitor: s.pending[k], display: d }),
                unmatched: s.unmatched,
            },
            None => MatchState {
                pending: s.pending,
                updates: s.updates,
                unmatched: s.unmatched.push(d),
            },
        }
    }
}

/// The displays left without a match are paired, in order, with the monitors
/// still pending, in order; those beyond get a new monitor each.
pub open spec fn pairing_actions(pending: Seq<usize>, unmatched: Seq<usize>) -> Seq<DisplayAction> {
    Seq::new(
        unmatched.len(),
        |i: int|
            if i < pending.len() {
                DisplayAction::Update { monitor: pending[i], display: unmatched[i] }
            } else {
                DisplayAction::Add { display: unmatched[i] }
            },
    )
}

/// The monitors that neither a display matched nor one was paired with.
pub open spec fn leftover_monitors(pending: Seq<usize>, unmatched: Seq<usize>) -> Seq<usize> {
    if unmatched.len() < pending.len() {
        pending.skip(unmatched.len() as int)
    } else {
        Seq::empty()
    }
}

/// How many leftover monitors are removed: one at a time, while more than
/// one monitor is left (the monitors that were there, plus those added).
pub open spec fn removal_count(leftover: nat, monitors: nat, added: nat) -> nat {
    if monitors + added <= 1 {
        0
    } else if leftover <= monitors + added - 1 {
        leftover
    } else {
        (monitors + added - 1) as nat
    }
}

/// What to do when the display settings change: match each display to a
/// monitor and update it; pair the displays left over with the monitors
/// left over, or add new monitors for them; then remove the monitors that
/// still have no display, but never the last monitor.
pub open spec fn spec_display_actions(
    monitors: Seq<NativeMonitorProperties>,
    displays: Seq<NativeMonitorProperties>,
) -> Seq<DisplayAction> {
    let s = match_displays(monitors, displays, displays.len());
    let pairing = pairing_actions(s.pending, s.unmatched);
    let leftover = leftover_monitors(s.pending, s.unmatched);
    let added = if s.unmatched.len() > s.pending.len() {
        (s.unmatched.len() - s.pending.len()) as nat
    } else {
        0
    };
    let removed = removal_count(leftover.len(), monitors.len(), added);
    s.updates + pairing + Seq::new(
        removed,
        |i: int| DisplayAction::Remove { monitor: leftover[i] },
    )
}

fn copy_string(s: &Option<String>) -> (r: Option<String>)
    ensures
        r == *s,
{
    match s {
        Some(x) => Some(x.clone()),
        None => None,
    }
}

/// A copy of a monitor's properties.
pub fn copy_properties(p: &NativeMonitorProperties) -> (r: NativeMonitorProperties)
    ensures
        r == *p,
{
    NativeMonitorProperties {
        handle: p.handle,
        hardware_id: copy_string(&p.hardware_id),
        device_path: copy_string(&p.device_path),
        device_name: p.device_name.clone(),
        working_area: Rect {
            left: p.working_area.left,
            top: p.working_area.top,
            right: p.working_area.right,
            bottom: p.working_area.bottom,
        },
        bounds: Rect {
            left: p.bounds.left,
            top: p.bounds.top,
            right: p.bounds.right,
            bottom: p.bounds.bottom,
        },
        dpi: p.dpi,
    }
}

/// Decides how to bring the monitors (their properties, in tree order) in
/// line with the displays the operating system reports (sorted): the
/// updates, additions and removals to make, in order.
///
/// Each display is first matched against the monitors not matched yet
/// (see `find_matching_monitor`); the displays without a match are paired
/// with the remaining monitors in order, or get new monitors; monitors left
/// without a display are removed, except that the last monitor is kept.
/// Once these are carried out, `finish_display_settings_change` sorts the
/// monitors, marks the windows for a DPI adjustment and queues the redraw.
pub fn handle_display_settings_changed(
    monitors: &[NativeMonitorProperties],
    displays: &[NativeMonitorProperties],
) -> (r: Vec<DisplayAction>)
    ensures
        r@ == spec_display_actions(monitors@, displays@),
{
    let ghost m = monitors@;
    let ghost ds = displays@;
    // Phase one: match each display to a pending monitor.
    let mut pending: Vec<usize> = Vec::new();
    let mut pending_props: Vec<NativeMonitorProperties> = Vec::new();
    let mlen = monitors.len();
    let mut i: usize = 0;
    while i < mlen
        invariant
            mlen == m.len(),
            m == monitors@,
            i <= mlen,
            pending@ == Seq::new(i as nat, |k: int| k as usize),
            pending_props@ == pending_properties(m, pending@),
        decreases mlen - i,
    {
        let ghost before = pending@;
        pending.push(i);
        pending_props.push(copy_properties(&monitors[i]));
        proof {
            assert(pending@ =~= Seq::new((i + 1) as nat, |k: int| k as usize));
            assert(pending_props@ =~= pending_properties(m, pending@));
        }
        i = i + 1;
    }
    assert(pending@ =~= match_displays(m, ds, 0).pending);
    let mut actions: Vec<DisplayAction> = Vec::new();
    let mut unmatched: Vec<usize> = Vec::new();
    let dlen = displays.len();
    let mut d: usize = 0;
    while d < dlen
        invariant
            dlen == ds.len(),
            ds == displays@,
            m == monitors@,
            d <= dlen,
            pending@ == match_displays(m, ds, d as nat).pending,
            actions@ == match_displays(m, ds, d as nat).updates,
            unmatched@ == match_displays(m, ds, d as nat).unmatched,
            pending_props@ == pending_properties(m, pending@),
        decreases dlen - d,
    {
        match find_matching_monitor(pending_props.as_slice(), &displays[d]) {
            Some((_, k)) => {
                let mi = pending[k];
                pending.remove(k);
                pending_props.remove(k);
                actions.push(DisplayAction::Update { monitor: mi, display: d });
                proof {
                    assert(pending_props@ =~= pending_properties(m, pending@));
                }
            },
            None => {
                unmatched.push(d);
            },
        }
        d = d + 1;
    }
    let ghost s = match_displays(m, ds, ds.len());
    assert(actions@ == s.updates);
    // Phase two: pair the unmatched displays with the remaining monitors,
    // or add new monitors.
    let plen = pending.len();
    let ulen = unmatched.len();
    let ghost pairing = pairing_actions(s.pending, s.unmatched);
    let mut j: usize = 0;
    while j < ulen
        invariant
            ulen == s.unmatched.len(),
            plen == s.pending.len(),
            pending@ == s.pending,
            unmatched@ == s.unmatched,
            pairing == pairing_actions(s.pending, s.unmatched),
            j <= ulen,
            actions@ == s.updates + pairing.take(j as int),
        decreases ulen - j,
    {
        if j < plen {
            actions.push(DisplayAction::Update { monitor: pending[j], display: unmatched[j] });
        } else {
            actions.push(DisplayAction::Add { display: unmatched[j] });
        }
        assert(pairing.take(j + 1) =~= pairing.take(j as int).push(pairing[j as int]));
        assert(actions@ =~= s.updates + pairing.take(j + 1));
        j = j + 1;
    }
    assert(pairing.take(ulen as int) =~= pairing);
    // Phase three: remove the monitors left over while more than one
    // monitor remains.
    let added: usize = if ulen > plen {
        ulen - plen
    } else {
        0
    };
    let ghost leftover = leftover_monitors(s.pending, s.unmatched);
    let start: usize = if ulen < plen {
        ulen
    } else {
        plen
    };
    assert(leftover =~= s.pending.skip(start as int));
    let ghost removed = removal_count(leftover.len(), m.len(), added as nat);
    let ghost removals = Seq::new(removed, |i: int| DisplayAction::Remove { monitor: leftover[i] });
    let ghost base = actions@;
    // The number of monitors at the moment, which is at least one more than
    // the leftover monitors still to be looked at.
    assert(plen <= mlen) by {
        lemma_match_pending_len(m, ds, ds.len());
    }
    let mut count: u128 = mlen as u128 + added as u128;
    let mut k: usize = start;
    proof {
        if count <= 1 {
            assert(removals =~= Seq::<DisplayAction>::empty());
            assert(actions@ =~= base + removals);
        } else {
            assert(removals.take(0) =~= Seq::<DisplayAction>::empty());
            assert(actions@ =~= base + removals.take(0));
        }
    }
    while k < plen
        invariant
            plen == s.pending.len(),
            pending@ == s.pending,
            leftover == s.pending.skip(start as int),
            start <= k <= plen,
            removed == removal_count(leftover.len(), m.len(), added as nat),
            mlen == m.len(),
            count <= mlen + added,
            removals == Seq::new(removed, |i: int| DisplayAction::Remove { monitor: leftover[i] }),
            count > 1 ==> actions@ == base + removals.take((k - start) as int) && count
                == mlen + added - (k - start),
            count <= 1 ==> actions@ == base + removals,
            plen <= mlen,
        decreases plen - k,
    {
        if count > 1 {
            actions.push(DisplayAction::Remove { monitor: pending[k] });
            assert(removals.take((k + 1 - start) as int) =~= removals.take((k - start) as int).push(removals[(k - start) as int]));
            count = count - 1;
            proof {
                if count <= 1 {
                    assert(removals.take((k + 1 - start) as int) =~= removals);
                }
            }
        }
        k = k + 1;
    }
    proof {
        if count > 1 {
            assert(removals.take((plen - start) as int) =~= removals);
        }
        assert(spec_display_actions(m, ds) == s.updates + pairing + removals);
        assert(actions@ =~= s.updates + pairing + removals);
    }
    actions
}

/// Matching never adds pending monitors.
proof fn lemma_match_pending_len(
    monitors: Seq<NativeMonitorProperties>,
    displays: Seq<NativeMonitorProperties>,
    n: nat,
)
    ensures
        match_displays(monitors, displays, n).pending.len() <= monitors.len(),
    decreases n,
{
    if n > 0 {
        lemma_match_pending_len(monitors, displays, (n - 1) as nat);
        let s = match_displays(monitors, displays, (n - 1) as nat);
        let d = (n - 1) as usize;
        lemma_first_matching_in_range(
            pending_properties(monitors, s.pending),
            displays[d as int],
        );
        assert(pending_properties(monitors, s.pending).len() == s.pending.len());
    }
}

/// How many of `actions` `p` holds of.
pub open spec fn count_actions(actions: Seq<DisplayAction>, p: spec_fn(DisplayAction) -> bool) -> nat
    decreases actions.len(),
{
    if actions.len() == 0 {
        0
    } else {
        count_actions(actions.drop_last(), p) + if p(actions.last()) {
            1nat
        } else {
            0nat
        }
    }
}

proof fn lemma_count_concat(
    a: Seq<DisplayAction>,
    b: Seq<DisplayAction>,
    p: spec_fn(DisplayAction) -> bool,
)
    ensures
        count_actions(a + b, p) == count_actions(a, p) + count_actions(b, p),
    decreases b.len(),
{
    if b.len() > 0 {
        lemma_count_concat(a, b.drop_last(), p);
        assert((a + b).drop_last() =~= a + b.drop_last());
        assert((a + b).last() == b.last());
    } else {
        assert(a + b =~= a);
    }
}

/// Where `p` holds exactly of the actions from position `t` on, it holds of
/// `len - t` of them.
proof fn lemma_count_from(s: Seq<DisplayAction>, p: spec_fn(DisplayAction) -> bool, t: int)
    requires
        0 <= t <= s.len(),
        forall|i: int| 0 <= i < s.len() ==> (p(#[trigger] s[i]) <==> i >= t),
    ensures
        count_actions(s, p) == s.len() - t,
    decreases s.len(),
{
    if s.len() > 0 {
        let d = s.drop_last();
        if t == s.len() {
            assert forall|i: int| 0 <= i < d.len() implies (p(#[trigger] d[i]) <==> i >= t - 1) by {
                assert(d[i] == s[i]);
            }
            lemma_count_from(d, p, t - 1);
            assert(!p(s[s.len() - 1]));
        } else {
            assert forall|i: int| 0 <= i < d.len() implies (p(#[trigger] d[i]) <==> i >= t) by {
                assert(d[i] == s[i]);
            }
            lemma_count_from(d, p, t);
            assert(p(s[s.len() - 1]));
        }
    }
}

/// Matching only makes updates.
proof fn lemma_match_updates(
    monitors: Seq<NativeMonitorProperties>,
    displays: Seq<NativeMonitorProperties>,
    n: nat,
)
    ensures
        forall|i: int|
            0 <= i < match_displays(monitors, displays, n).updates.len() ==> (#[trigger] match_displays(
                monitors,
                displays,
                n,
            ).updates[i]) is Update,
    decreases n,
{
    if n > 0 {
        lemma_match_updates(monitors, displays, (n - 1) as nat);
    }
}

/// The number of monitors never drops to zero: fewer monitors are removed
/// than there are monitors, counting those added, wherever there is one.
pub proof fn law_display_changes_keep_a_monitor(
    monitors: Seq<NativeMonitorProperties>,
    displays: Seq<NativeMonitorProperties>,
)
    ensures
        ({
            let actions = spec_display_actions(monitors, displays);
            let added = count_actions(actions, |a: DisplayAction| a is Add);
            let removed = count_actions(actions, |a: DisplayAction| a is Remove);
            monitors.len() + added > 0 ==> removed < monitors.len() + added
        }),
{
    let s = match_displays(monitors, displays, displays.len());
    let pairing = pairing_actions(s.pending, s.unmatched);
    let leftover = leftover_monitors(s.pending, s.unmatched);
    let added = if s.unmatched.len() > s.pending.len() {
        (s.unmatched.len() - s.pending.len()) as nat
    } else {
        0
    };
    let removed = removal_count(leftover.len(), monitors.len(), added);
    let removals = Seq::new(removed, |i: int| DisplayAction::Remove { monitor: leftover[i] });
    let is_add = |a: DisplayAction| a is Add;
    let is_remove = |a: DisplayAction| a is Remove;
    lemma_match_updates(monitors, displays, displays.len());
    lemma_count_from(s.updates, is_add, s.updates.len() as int);
    lemma_count_from(s.updates, is_remove, s.updates.len() as int);
    let t = if s.unmatched.len() < s.pending.len() {
        s.unmatched.len() as int
    } else {
        s.pending.len() as int
    };
    lemma_count_from(pairing, is_add, t);
    lemma_count_from(pairing, is_remove, pairing.len() as int);
    lemma_count_from(removals, is_add, removals.len() as int);
    lemma_count_from(removals, is_remove, 0);
    lemma_count_concat(s.updates, pairing, is_add);
    lemma_count_concat(s.updates + pairing, removals, is_add);
    lemma_count_concat(s.updates, pairing, is_remove);
    lemma_count_concat(s.updates + pairing, removals, is_remove);
}

/// The display an action is about, if any.
pub open spec fn display_of(a: DisplayAction) -> Option<usize> {
    match a {
        DisplayAction::Update { display, .. } => Some(display),
        DisplayAction::Add { display } => Some(display),
        DisplayAction::Remove { .. } => None,
    }
}

/// The monitor an action is about, if any.
pub open spec fn monitor_of(a: DisplayAction) -> Option<usize> {
    match a {
        DisplayAction::Update { monitor, .. } => Some(monitor),
        DisplayAction::Add { .. } => None,
        DisplayAction::Remove { monitor } => Some(monitor),
    }
}

/// What matching the first `n` displays keeps: the pending monitors and
/// those updated are distinct monitors; the displays updated and those left
/// unmatched are distinct displays, and together they are the first `n`.
pub open spec fn match_state_ok(s: MatchState, monitors: nat, n: nat) -> bool {
    &&& s.pending.no_duplicates()
    &&& forall|i: int| 0 <= i < s.pending.len() ==> (#[trigger] s.pending[i]) < monitors
    &&& forall|i: int|
        0 <= i < s.updates.len() ==> (#[trigger] s.updates[i] matches DisplayAction::Update {
            monitor,
            display,
        } && monitor < monitors && display < n && !s.pending.contains(monitor))
    &&& forall|i: int, j: int|
        0 <= i < s.updates.len() && 0 <= j < s.updates.len() && i != j ==> monitor_of(
            #[trigger] s.updates[i],
        ) != monitor_of(#[trigger] s.updates[j]) && display_of(s.updates[i]) != display_of(
            s.updates[j],
        )
    &&& s.unmatched.no_duplicates()
    &&& forall|i: int| 0 <= i < s.unmatched.len() ==> (#[trigger] s.unmatched[i]) < n
    &&& forall|i: int, j: int|
        0 <= i < s.updates.len() && 0 <= j < s.unmatched.len() ==> display_of(
            #[trigger] s.updates[i],
        ) != Some(#[trigger] s.unmatched[j])
    &&& forall|d: usize|
        d < n ==> (exists|i: int| 0 <= i < s.updates.len() && #[trigger] display_of(s.updates[i]) == Some(d))
            || s.unmatched.contains(d)
}

proof fn lemma_match_state_ok(
    monitors: Seq<NativeMonitorProperties>,
    displays: Seq<NativeMonitorProperties>,
    n: nat,
)
    requires
        monitors.len() <= usize::MAX,
        n <= displays.len(),
        displays.len() <= usize::MAX,
    ensures
        match_state_ok(match_displays(monitors, displays, n), monitors.len(), n),
    decreases n,
{
    let s = match_displays(monitors, displays, n);
    if n == 0 {
        assert forall|i: int, j: int|
            0 <= i < s.pending.len() && 0 <= j < s.pending.len() && i != j implies s.pending[i]
            != s.pending[j] by {}
    } else {
        lemma_match_state_ok(monitors, displays, (n - 1) as nat);
        let p = match_displays(monitors, displays, (n - 1) as nat);
        let d = (n - 1) as usize;
        assert(d as int == n - 1);
        lemma_first_matching_in_range(pending_properties(monitors, p.pending), displays[d as int]);
        assert(pending_properties(monitors, p.pending).len() == p.pending.len());
        match first_matching_monitor(pending_properties(monitors, p.pending), displays[d as int]) {
            Some(k) => {
                let mon = p.pending[k];
                assert(s.pending == p.pending.remove(k));
                assert(s.updates == p.updates.push(DisplayAction::Update { monitor: mon, display: d }));
                assert(s.unmatched == p.unmatched);
                lemma_match_step_matched(p, s, monitors.len(), n, k, d);
            },
            None => {
                assert(s.pending == p.pending);
                assert(s.updates == p.updates);
                assert(s.unmatched == p.unmatched.push(d));
                lemma_match_step_unmatched(p, s, monitors.len(), n, d);
            },
        }
    }
}

/// A display matched to the pending monitor at `k` keeps `match_state_ok`.
proof fn lemma_match_step_matched(p: MatchState, s: MatchState, monitors: nat, n: nat, k: int, d: usize)
    requires
        n > 0,
        d == n - 1,
        match_state_ok(p, monitors, (n - 1) as nat),
        0 <= k < p.pending.len(),
        s.pending == p.pending.remove(k),
        s.updates == p.updates.push(DisplayAction::Update { monitor: p.pending[k], display: d }),
        s.unmatched == p.unmatched,
    ensures
        match_state_ok(s, monitors, n),
{
    let mon = p.pending[k];
    assert forall|i: int| 0 <= i < s.pending.len() implies (#[trigger] s.pending[i]) != mon
        && p.pending.contains(s.pending[i]) by {
        if i < k {
            assert(s.pending[i] == p.pending[i]);
        } else {
            assert(s.pending[i] == p.pending[i + 1]);
        }
    }
    assert forall|i: int, j: int|
        0 <= i < s.pending.len() && 0 <= j < s.pending.len() && i != j implies s.pending[i]
        != s.pending[j] by {
        let a = if i < k { i } else { i + 1 };
        let b = if j < k { j } else { j + 1 };
        assert(s.pending[i] == p.pending[a] && s.pending[j] == p.pending[b]);
    }
    assert forall|i: int| 0 <= i < s.updates.len() implies (#[trigger] s.updates[i] matches DisplayAction::Update {
        monitor,
        display,
    } && monitor < monitors && display < n && !s.pending.contains(monitor)) by {
        if i < p.updates.len() {
            assert(s.updates[i] == p.updates[i]);
            let m0 = monitor_of(p.updates[i])->0;
            assert(!p.pending.contains(m0));
            if s.pending.contains(m0) {
                let q = choose|q: int| 0 <= q < s.pending.len() && s.pending[q] == m0;
                assert(p.pending.contains(s.pending[q]));
            }
        } else {
            assert(p.pending.contains(mon));
            if s.pending.contains(mon) {
                let q = choose|q: int| 0 <= q < s.pending.len() && s.pending[q] == mon;
            }
        }
    }
    assert forall|i: int, j: int|
        0 <= i < s.updates.len() && 0 <= j < s.updates.len() && i != j implies monitor_of(
        #[trigger] s.updates[i],
    ) != monitor_of(#[trigger] s.updates[j]) && display_of(s.updates[i]) != display_of(
        s.updates[j],
    ) by {
        if i < p.updates.len() && j < p.updates.len() {
            assert(s.updates[i] == p.updates[i] && s.updates[j] == p.updates[j]);
        } else if i < p.updates.len() {
            assert(s.updates[i] == p.updates[i]);
            assert(p.pending.contains(mon));
            assert(p.updates[i] matches DisplayAction::Update { monitor, display } && !p.pending.contains(monitor));
        } else {
            assert(s.updates[j] == p.updates[j]);
            assert(p.pending.contains(mon));
            assert(p.updates[j] matches DisplayAction::Update { monitor, display } && !p.pending.contains(monitor));
        }
    }
    assert forall|i: int, j: int|
        0 <= i < s.updates.len() && 0 <= j < s.unmatched.len() implies display_of(
        #[trigger] s.updates[i],
    ) != Some(#[trigger] s.unmatched[j]) by {
        if i < p.updates.len() {
            assert(s.updates[i] == p.updates[i]);
        }
    }
    assert forall|e: usize| e < n implies (exists|i: int| 0 <= i < s.updates.len() && #[trigger] display_of(s.updates[i]) == Some(e))
        || s.unmatched.contains(e) by {
        if e == d {
            assert(display_of(s.updates[p.updates.len() as int]) == Some(e));
        } else if exists|i: int| 0 <= i < p.updates.len() && #[trigger] display_of(p.updates[i]) == Some(e) {
            let i = choose|i: int| 0 <= i < p.updates.len() && #[trigger] display_of(p.updates[i]) == Some(e);
            assert(s.updates[i] == p.updates[i]);
        }
    }
}

/// A display left without a match keeps `match_state_ok`.
proof fn lemma_match_step_unmatched(p: MatchState, s: MatchState, monitors: nat, n: nat, d: usize)
    requires
        n > 0,
        d == n - 1,
        match_state_ok(p, monitors, (n - 1) as nat),
        s.pending == p.pending,
        s.updates == p.updates,
        s.unmatched == p.unmatched.push(d),
    ensures
        match_state_ok(s, monitors, n),
{
    assert forall|i: int| 0 <= i < p.unmatched.len() implies (#[trigger] p.unmatched[i]) != d by {}
    assert forall|i: int, j: int|
        0 <= i < s.unmatched.len() && 0 <= j < s.unmatched.len() && i != j implies s.unmatched[i]
        != s.unmatched[j] by {
        if i < p.unmatched.len() && j < p.unmatched.len() {
            assert(s.unmatched[i] == p.unmatched[i] && s.unmatched[j] == p.unmatched[j]);
        } else if i < p.unmatched.len() {
            assert(s.unmatched[i] == p.unmatched[i]);
        } else {
            assert(s.unmatched[j] == p.unmatched[j]);
        }
    }
    assert forall|i: int| 0 <= i < s.unmatched.len() implies (#[trigger] s.unmatched[i]) < n by {
        if i < p.unmatched.len() {
            assert(s.unmatched[i] == p.unmatched[i]);
        }
    }
    assert forall|i: int, j: int|
        0 <= i < s.updates.len() && 0 <= j < s.unmatched.len() implies display_of(
        #[trigger] s.updates[i],
    ) != Some(#[trigger] s.unmatched[j]) by {
        if j < p.unmatched.len() {
            assert(s.unmatched[j] == p.unmatched[j]);
        } else {
            assert(s.updates[i] matches DisplayAction::Update { monitor, display } && display < n - 1);
        }
    }
    assert forall|e: usize| e < n implies (exists|i: int| 0 <= i < s.updates.len() && #[trigger] display_of(s.updates[i]) == Some(e))
        || s.unmatched.contains(e) by {
        if e == d {
            assert(s.unmatched[p.unmatched.len() as int] == e);
        } else if p.unmatched.contains(e) {
            let q = choose|q: int| 0 <= q < p.unmatched.len() && p.unmatched[q] == e;
            assert(s.unmatched[q] == e);
        }
    }
}

/// Each display gets exactly one action (an update of a monitor, or a new
/// monitor), each monitor at most one (an update or a removal), and the
/// actions name only displays and monitors that were given.
pub proof fn law_display_changes_handle_each_display_once(
    monitors: Seq<NativeMonitorProperties>,
    displays: Seq<NativeMonitorProperties>,
)
    requires
        monitors.len() <= usize::MAX,
        displays.len() <= usize::MAX,
    ensures
        ({
            let actions = spec_display_actions(monitors, displays);
            &&& forall|d: usize| d < displays.len() ==> #[trigger] handles_display(actions, d)
            &&& forall|i: int, j: int|
                0 <= i < actions.len() && 0 <= j < actions.len() && i != j && display_of(
                    actions[i],
                ) is Some ==> display_of(#[trigger] actions[i]) != display_of(#[trigger] actions[j])
            &&& forall|i: int, j: int|
                0 <= i < actions.len() && 0 <= j < actions.len() && i != j && monitor_of(
                    actions[i],
                ) is Some ==> monitor_of(#[trigger] actions[i]) != monitor_of(#[trigger] actions[j])
            &&& forall|i: int|
                0 <= i < actions.len() ==> (display_of(#[trigger] actions[i]) matches Some(d) ==> d
                    < displays.len()) && (monitor_of(actions[i]) matches Some(k) ==> k
                    < monitors.len())
        }),
{
    let n = displays.len();
    let s = match_displays(monitors, displays, n);
    lemma_match_state_ok(monitors, displays, n);
    let u = s.updates;
    let pairing = pairing_actions(s.pending, s.unmatched);
    let leftover = leftover_monitors(s.pending, s.unmatched);
    let added = if s.unmatched.len() > s.pending.len() {
        (s.unmatched.len() - s.pending.len()) as nat
    } else {
        0
    };
    let removed = removal_count(leftover.len(), monitors.len(), added);
    let removals = Seq::new(removed, |i: int| DisplayAction::Remove { monitor: leftover[i] });
    let actions = spec_display_actions(monitors, displays);
    assert(actions == u + pairing + removals);
    let ul = u.len() as int;
    let pl = pairing.len() as int;
    let t = s.unmatched.len() as int;
    // Where each action comes from.
    assert forall|i: int| 0 <= i < actions.len() implies {
        &&& i < ul ==> actions[i] == u[i]
        &&& ul <= i < ul + pl ==> actions[i] == pairing[i - ul]
        &&& ul + pl <= i ==> actions[i] == removals[i - ul - pl]
    } by {}
    assert forall|q: int| 0 <= q < removals.len() implies t + q < s.pending.len() && #[trigger] removals[q]
        == (DisplayAction::Remove { monitor: s.pending[t + q] }) by {
        assert(leftover.len() > 0);
    }
    // Each display has an action.
    assert forall|d: usize| d < displays.len() implies #[trigger] handles_display(actions, d) by {
        if exists|i: int| 0 <= i < u.len() && #[trigger] display_of(u[i]) == Some(d) {
            let i = choose|i: int| 0 <= i < u.len() && #[trigger] display_of(u[i]) == Some(d);
            assert(actions[i] == u[i]);
        } else {
            assert(s.unmatched.contains(d));
            let q = choose|q: int| 0 <= q < s.unmatched.len() && s.unmatched[q] == d;
            assert(actions[ul + q] == pairing[q]);
            assert(display_of(actions[ul + q]) == Some(d));
        }
    }
    // No display has two.
    assert forall|i: int, j: int|
        0 <= i < actions.len() && 0 <= j < actions.len() && i != j && display_of(actions[i]) is Some
            implies display_of(#[trigger] actions[i]) != display_of(#[trigger] actions[j]) by {
        if i < ul && j < ul {
        } else if i < ul && j < ul + pl {
            assert(display_of(actions[j]) == Some(s.unmatched[j - ul]));
        } else if j < ul && i < ul + pl {
            assert(display_of(actions[i]) == Some(s.unmatched[i - ul]));
        } else if i < ul + pl && j < ul + pl {
            assert(display_of(actions[i]) == Some(s.unmatched[i - ul]));
            assert(display_of(actions[j]) == Some(s.unmatched[j - ul]));
        } else if i < ul + pl {
        } else {
        }
    }
    // No monitor has two.
    assert forall|i: int, j: int|
        0 <= i < actions.len() && 0 <= j < actions.len() && i != j && monitor_of(actions[i]) is Some
            implies monitor_of(#[trigger] actions[i]) != monitor_of(#[trigger] actions[j]) by {
        lemma_action_monitor(s, pairing, removals, actions, ul, pl, t, i);
        lemma_action_monitor(s, pairing, removals, actions, ul, pl, t, j);
        if i < ul && j < ul {
        } else if i < ul {
            let k = monitor_of(actions[i])->0;
            assert(!s.pending.contains(k));
            if monitor_of(actions[j]) == Some(k) {
                assert(s.pending.contains(k));
            }
        } else if j < ul {
            if monitor_of(actions[j]) is Some {
                let k = monitor_of(actions[j])->0;
                assert(!s.pending.contains(k));
                assert(s.pending.contains(monitor_of(actions[i])->0));
            }
        } else {
            let a = pending_index(ul, pl, t, i);
            if monitor_of(actions[j]) is Some {
                let b = pending_index(ul, pl, t, j);
                assert(a != b);
            }
        }
    }
    // Only given displays and monitors.
    assert forall|i: int| 0 <= i < actions.len() implies (display_of(#[trigger] actions[i]) matches Some(
        d,
    ) ==> d < displays.len()) && (monitor_of(actions[i]) matches Some(k) ==> k < monitors.len()) by {
        lemma_action_monitor(s, pairing, removals, actions, ul, pl, t, i);
        if ul <= i < ul + pl {
            assert(display_of(actions[i]) == Some(s.unmatched[i - ul]));
        }
    }
}

/// One of `actions` is about display `d`.
pub open spec fn handles_display(actions: Seq<DisplayAction>, d: usize) -> bool {
    exists|i: int| 0 <= i < actions.len() && #[trigger] display_of(actions[i]) == Some(d)
}

/// For an action after the updates, the position in the pending monitors
/// of its monitor.
pub open spec fn pending_index(ul: int, pl: int, t: int, i: int) -> int {
    if i < ul + pl {
        i - ul
    } else {
        t + (i - ul - pl)
    }
}

/// The monitor of each action: an updated one (not pending) among the
/// updates, else the pending monitor at `pending_index`.
proof fn lemma_action_monitor(
    s: MatchState,
    pairing: Seq<DisplayAction>,
    removals: Seq<DisplayAction>,
    actions: Seq<DisplayAction>,
    ul: int,
    pl: int,
    t: int,
    i: int,
)
    requires
        ul == s.updates.len(),
        pairing == pairing_actions(s.pending, s.unmatched),
        pl == pairing.len(),
        t == s.unmatched.len(),
        actions == s.updates + pairing + removals,
        0 <= i < actions.len(),
        forall|q: int|
            0 <= q < removals.len() ==> t + q < s.pending.len() && #[trigger] removals[q]
                == (DisplayAction::Remove { monitor: s.pending[t + q] }),
    ensures
        i < ul ==> actions[i] == s.updates[i],
        i >= ul ==> (monitor_of(actions[i]) is Some <==> pending_index(ul, pl, t, i)
            < s.pending.len()),
        i >= ul && monitor_of(actions[i]) is Some ==> 0 <= pending_index(ul, pl, t, i)
            && monitor_of(actions[i]) == Some(s.pending[pending_index(ul, pl, t, i)]),
        i >= ul + pl ==> pending_index(ul, pl, t, i) >= t,
        ul <= i < ul + pl ==> pending_index(ul, pl, t, i) < t,
{
    if i < ul {
    } else if i < ul + pl {
        assert(actions[i] == pairing[i - ul]);
    } else {
        assert(actions[i] == removals[i - ul - pl]);
    }
}

/// A window marked for a DPI adjustment.
pub open spec fn with_dpi_adjustment(w: WindowProps) -> WindowProps {
    WindowProps { has_pending_dpi_adjustment: true, ..w }
}

/// Finishes a change of the display settings, once the monitors have been
/// updated, added and removed: the root's monitors are sorted left-to-right
/// and top-to-bottom, every window is marked for a DPI adjustment (display
/// changes can spread windows out), and the whole tree is queued for
/// redraw.
pub fn finish_display_settings_change(
    tree: &mut ContainerTree,
    root: usize,
    windows: &mut Vec<WindowProps>,
    pending_sync: &mut PendingSync,
)
    requires
        old(tree).wf(),
        root < old(tree)@.len(),
        children_are_monitors(old(tree)@, root as int),
        old(pending_sync).wf(),
    ensures
        final(tree).wf(),
        final(tree)@ == old(tree)@.update(
            root as int,
            with_children(old(tree)@[root as int], final(tree)@[root as int].children),
        ),
        is_sorted_monitors(
            old(tree)@,
            old(tree)@[root as int].children,
            final(tree)@[root as int].children,
        ),
        final(windows)@ == old(windows)@.map_values(|w: WindowProps| with_dpi_adjustment(w)),
        final(pending_sync).wf(),
        final(pending_sync)@ == (PendingSyncView {
            containers_to_redraw: insert_once(old(pending_sync)@.containers_to_redraw, root),
            ..old(pending_sync)@
        }),
{
    // Sort monitors by position.
    tree.sort_monitors(root);
    // Mark all windows as needing a DPI adjustment.
    let ghost start = windows@;
    let len = windows.len();
    let mut i: usize = 0;
    while i < len
        invariant
            len == windows@.len(),
            len == start.len(),
            i <= len,
            forall|k: int| 0 <= k < i ==> windows@[k] == with_dpi_adjustment(#[trigger] start[k]),
            forall|k: int| i <= k < len ==> windows@[k] == #[trigger] start[k],
        decreases len - i,
    {
        let w = windows[i];
        windows.set(i, WindowProps { has_pending_dpi_adjustment: true, ..w });
        i = i + 1;
    }
    assert(windows@ =~= start.map_values(|w: WindowProps| with_dpi_adjustment(w)));
    // Redraw the full container tree.
    pending_sync.queue_container_to_redraw(root);
}

/// Whether a window's floating placement is recentered on its workspace
/// after the display settings changed: always, unless the window has a
/// custom placement that still overlaps the workspace.
pub fn should_recenter(
    has_custom_floating_placement: bool,
    floating_placement: &Rect,
    workspace_rect: &Rect,
) -> (r: bool)
    ensures
        r == (!has_custom_floating_placement || floating_placement.spec_intersection_area(
            workspace_rect,
        ) == 0),
{
    if has_custom_floating_placement {
        floating_placement.intersection_area(workspace_rect) == 0
    } else {
        true
    }
}

} // verus!
