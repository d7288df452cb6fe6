use crate::geometry::Rect;
use vstd::prelude::*;

verus! {

/// What the operating system reports of a display.
#[derive(Debug, Clone, PartialEq, Eq)]
pub struct NativeMonitorProperties {
    pub handle: isize,
    pub hardware_id: Option<String>,
    pub device_path: Option<String>,
    pub device_name: String,
    pub working_area: Rect,
    pub bounds: Rect,
    pub dpi: u32,
}

/// Whether `a` holds a string equal to `s`.
pub open spec fn holds_str(a: Option<String>, s: Seq<char>) -> bool {
    a matches Some(x) && x@ == s
}

/// How many of `monitors` have the hardware id `h`.
pub open spec fn count_hardware_id(monitors: Seq<NativeMonitorProperties>, h: Seq<char>) -> nat
    decreases monitors.len(),
{
    if monitors.len() == 0 {
        0
    } else {
        count_hardware_id(monitors.drop_last(), h) + if holds_str(
            monitors.last().hardware_id,
            h,
        ) {
            1nat
        } else {
            0nat
        }
    }
}

/// Whether the monitor `existing`, one of `monitors`, is the display described
/// by `properties`: same handle, else same device path, else same hardware id
/// where no other monitor has that hardware id.
pub open spec fn monitor_matches(
    monitors: Seq<NativeMonitorProperties>,
    existing: NativeMonitorProperties,
    properties: NativeMonitorProperties,
) -> bool {
    ||| existing.handle == properties.handle
    ||| (existing.device_path matches Some(path) && holds_str(properties.device_path, path@))
    ||| (existing.hardware_id matches Some(id) && count_hardware_id(monitors, id@) == 1
        && holds_str(properties.hardware_id, id@))
}

/// Index of the first of `monitors` that matches `properties`.
pub open spec fn first_matching_monitor(
    monitors: Seq<NativeMonitorProperties>,
    properties: NativeMonitorProperties,
) -> Option<int> {
    if exists|i: int|
        0 <= i < monitors.len() && #[trigger] monitor_matches(monitors, monitors[i], properties) {
        Some(
            choose|i: int|
                0 <= i < monitors.len() && #[trigger] monitor_matches(
                    monitors,
                    monitors[i],
                    properties,
                ) && forall|j: int|
                    0 <= j < i ==> !monitor_matches(monitors, monitors[j], properties),
        )
    } else {
        None
    }
}

/// The first matching monitor is one of them.
pub proof fn lemma_first_matching_in_range(
    monitors: Seq<NativeMonitorProperties>,
    properties: NativeMonitorProperties,
)
    ensures
        first_matching_monitor(monitors, properties) matches Some(k) ==> 0 <= k < monitors.len()
            && monitor_matches(monitors, monitors[k], properties),
{
    if exists|i: int|
        0 <= i < monitors.len() && #[trigger] monitor_matches(monitors, monitors[i], properties) {
        let i = choose|i: int|
            0 <= i < monitors.len() && #[trigger] monitor_matches(monitors, monitors[i], properties);
        lemma_first_match_exists(monitors, properties, i);
    }
}

proof fn lemma_first_match_exists(
    monitors: Seq<NativeMonitorProperties>,
    properties: NativeMonitorProperties,
    i: int,
)
    requires
        0 <= i < monitors.len(),
        monitor_matches(monitors, monitors[i], properties),
    ensures
        exists|c: int|
            0 <= c < monitors.len() && #[trigger] monitor_matches(monitors, monitors[c], properties)
                && forall|j: int| 0 <= j < c ==> !monitor_matches(monitors, monitors[j], properties),
    decreases i,
{
    if exists|j: int| 0 <= j < i && monitor_matches(monitors, monitors[j], properties) {
        let j = choose|j: int| 0 <= j < i && monitor_matches(monitors, monitors[j], properties);
        lemma_first_match_exists(monitors, properties, j);
    } else {
        assert(forall|j: int| 0 <= j < i ==> !monitor_matches(monitors, monitors[j], properties));
    }
}

fn holds_same_str(a: &Option<String>, s: &String) -> (r: bool)
    ensures
        r == holds_str(*a, s@),
{
    match a {
        Some(x) => x.eq(s),
        None => false,
    }
}

fn count_hardware_id_exec(monitors: &[NativeMonitorProperties], h: &String) -> (r: usize)
    ensures
        r == count_hardware_id(monitors@, h@),
{
    let len = monitors.len();
    let mut count: usize = 0;
    let mut i: usize = 0;
    while i < len
        invariant
            len == monitors@.len(),
            i <= len,
            count == count_hardware_id(monitors@.take(i as int), h@),
            count <= i,
        decreases len - i,
    {
        assert(monitors@.take(i + 1).drop_last() =~= monitors@.take(i as int));
        if holds_same_str(&monitors[i].hardware_id, h) {
            count = count + 1;
        }
        i = i + 1;
    }
    assert(monitors@.take(len as int) =~= monitors@);
    count
}

fn matches_monitor(
    monitors: &[NativeMonitorProperties],
    existing: &NativeMonitorProperties,
    properties: &NativeMonitorProperties,
) -> (r: bool)
    ensures
        r == monitor_matches(monitors@, *existing, *properties),
{
    if existing.handle == properties.handle {
        return true;
    }
    if let Some(path) = &existing.device_path {
        if holds_same_str(&properties.device_path, path) {
            return true;
        }
    }
    if let Some(id) = &existing.hardware_id {
        let is_unique = count_hardware_id_exec(monitors, id) == 1;
        if is_unique && holds_same_str(&properties.hardware_id, id) {
            return true;
        }
    }
    false
}

/// Finds the monitor matching the given display properties.
///
/// Returns the monitor and its index within the list of monitors: the first
/// one whose handle, device path, or hardware id (if unique among
/// `monitors`) is that of `properties`.
pub fn find_matching_monitor<'a>(
    monitors: &'a [NativeMonitorProperties],
    properties: &NativeMonitorProperties,
) -> (r: Option<(&'a NativeMonitorProperties, usize)>)
    ensures
        match r {
            Some((monitor, index)) => first_matching_monitor(monitors@, *properties) == Some(
                index as int,
            ) && index < monitors@.len() && *monitor == monitors@[index as int],
            None => first_matching_monitor(monitors@, *properties) is None,
        },
{
    let len = monitors.len();
    let mut i: usize = 0;
    while i < len
        invariant
            len == monitors@.len(),
            i <= len,
            forall|j: int| 0 <= j < i ==> !monitor_matches(monitors@, monitors@[j], *properties),
        decreases len - i,
    {
        if matches_monitor(monitors, &monitors[i], properties) {
            let ghost k = i as int;
            assert(monitor_matches(monitors@, monitors@[k], *properties));
            let ghost c = choose|c: int|
                0 <= c < monitors@.len() && #[trigger] monitor_matches(
                    monitors@,
                    monitors@[c],
                    *properties,
                ) && forall|j: int|
                    0 <= j < c ==> !monitor_matches(monitors@, monitors@[j], *properties);
            assert(c == k) by {
                if c < k {
                } else if c > k {
                    assert(!monitor_matches(monitors@, monitors@[k], *properties));
                }
            }
            return Some((&monitors[i], i));
        }
        i = i + 1;
    }
    None
}

} // verus!
