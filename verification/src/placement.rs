//! Where the launcher's own window goes.
use vstd::prelude::*;

use crate::monitor::LiveMonitor;

verus! {

/// The point lies on the monitor.
pub open spec fn holds_point(m: LiveMonitor, x: int, y: int) -> bool {
    m.left <= x < m.left + m.width && m.top <= y < m.top + m.height
}

/// The rectangle lies entirely on the monitor.
pub open spec fn holds_rectangle(m: LiveMonitor, x: int, y: int, width: int, height: int) -> bool {
    m.left <= x && m.top <= y && x + width <= m.left + m.width && y + height <= m.top + m.height
}

/// The index of the first monitor that holds a point, or the number of monitors where none does.
pub open spec fn first_holding(monitors: Seq<LiveMonitor>, x: int, y: int) -> int
    decreases monitors.len(),
{
    if monitors.len() == 0 || holds_point(monitors[0], x, y) {
        0
    } else {
        1 + first_holding(monitors.skip(1), x, y)
    }
}

/// The index of the first monitor with a resolution, or the number of monitors where none has it.
pub open spec fn first_with_resolution(
    monitors: Seq<LiveMonitor>,
    width: u32,
    height: u32,
) -> int
    decreases monitors.len(),
{
    if monitors.len() == 0 || (monitors[0].width == width && monitors[0].height == height) {
        0
    } else {
        1 + first_with_resolution(monitors.skip(1), width, height)
    }
}

/// The monitor at an index, if the index lies in the list.
pub open spec fn monitor_at(monitors: Seq<LiveMonitor>, i: int) -> Option<LiveMonitor> {
    if 0 <= i < monitors.len() {
        Some(monitors[i])
    } else {
        None
    }
}

/// The monitor that an optional reference refers to.
pub open spec fn referred(m: Option<&LiveMonitor>) -> Option<LiveMonitor> {
    match m {
        Some(m) => Some(*m),
        None => None,
    }
}

/// Finds the first monitor that holds the centre of a window.
pub fn containing_monitor(
    monitors: &[LiveMonitor],
    x: i32,
    y: i32,
    width: u32,
    height: u32,
) -> (r: Option<&LiveMonitor>)
    ensures
        referred(r) == monitor_at(
            monitors@,
            first_holding(monitors@, x + width / 2, y + height / 2),
        ),
        match r {
            Some(m) => exists|i: int|
                {
                    &&& 0 <= i < monitors@.len() && #[trigger] monitors@[i] == *m
                    &&& m.left <= x + width / 2 < m.left + m.width
                    &&& m.top <= y + height / 2 < m.top + m.height
                    &&& forall|j: int|
                        0 <= j < i ==> {
                            let o = #[trigger] monitors@[j];
                            !(o.left <= x + width / 2 < o.left + o.width && o.top <= y + height / 2
                                < o.top + o.height)
                        }
                },
            None => forall|j: int|
                0 <= j < monitors@.len() ==> {
                    let o = #[trigger] monitors@[j];
                    !(o.left <= x + width / 2 < o.left + o.width && o.top <= y + height / 2 < o.top
                        + o.height)
                },
        },
{
    let cx: i64 = x as i64 + (width / 2) as i64;
    let cy: i64 = y as i64 + (height / 2) as i64;
    let n: usize = monitors.len();
    let mut i: usize = 0;
    assert(monitors@.skip(0) == monitors@);
    while i < n
        invariant
            n == monitors@.len(),
            i <= n,
            cx == x + width / 2,
            cy == y + height / 2,
            forall|j: int|
                0 <= j < i ==> {
                    let o = #[trigger] monitors@[j];
                    !(o.left <= cx < o.left + o.width && o.top <= cy < o.top + o.height)
                },
            first_holding(monitors@, cx as int, cy as int) == i + first_holding(
                monitors@.skip(i as int),
                cx as int,
                cy as int,
            ),
        decreases n - i,
    {
        let m = &monitors[i];
        assert(monitors@.skip(i as int)[0] == *m);
        assert(monitors@.skip(i as int).skip(1) == monitors@.skip(i + 1));
        if cx >= m.left as i64 && cx < m.left as i64 + m.width as i64 && cy >= m.top as i64 && cy
            < m.top as i64 + m.height as i64 {
            assert(monitors@[i as int] == *m);
            return Some(m);
        }
        i = i + 1;
    }
    None
}

/// Finds the first monitor with a resolution.
pub fn monitor_with_resolution(monitors: &[LiveMonitor], width: u32, height: u32) -> (r: Option<
    &LiveMonitor,
>)
    ensures
        referred(r) == monitor_at(monitors@, first_with_resolution(monitors@, width, height)),
        match r {
            Some(m) => exists|i: int|
                {
                    &&& 0 <= i < monitors@.len() && #[trigger] monitors@[i] == *m
                    &&& m.width == width && m.height == height
                    &&& forall|j: int|
                        0 <= j < i ==> !((#[trigger] monitors@[j]).width == width
                            && monitors@[j].height == height)
                },
            None => forall|j: int|
                0 <= j < monitors@.len() ==> !((#[trigger] monitors@[j]).width == width
                    && monitors@[j].height == height),
        },
{
    let n: usize = monitors.len();
    let mut i: usize = 0;
    assert(monitors@.skip(0) == monitors@);
    while i < n
        invariant
            n == monitors@.len(),
            i <= n,
            forall|j: int|
                0 <= j < i ==> !((#[trigger] monitors@[j]).width == width && monitors@[j].height
                    == height),
            first_with_resolution(monitors@, width, height) == i + first_with_resolution(
                monitors@.skip(i as int),
                width,
                height,
            ),
        decreases n - i,
    {
        let m = &monitors[i];
        assert(monitors@.skip(i as int)[0] == *m);
        assert(monitors@.skip(i as int).skip(1) == monitors@.skip(i + 1));
        if m.width == width && m.height == height {
            assert(monitors@[i as int] == *m);
            return Some(m);
        }
        i = i + 1;
    }
    None
}

/// Tells whether a window fits entirely on some monitor.
pub fn window_fits(monitors: &[LiveMonitor], x: i32, y: i32, width: u32, height: u32) -> (r: bool)
    ensures
        r == fits(monitors@, x as int, y as int, width as int, height as int),
        r == exists|i: int|
            {
                &&& 0 <= i < monitors@.len()
                &&& (#[trigger] monitors@[i]).left <= x && monitors@[i].top <= y
                &&& x + width <= monitors@[i].left + monitors@[i].width
                &&& y + height <= monitors@[i].top + monitors@[i].height
            },
{
    let n: usize = monitors.len();
    let right: i64 = x as i64 + width as i64;
    let bottom: i64 = y as i64 + height as i64;
    let mut i: usize = 0;
    while i < n
        invariant
            n == monitors@.len(),
            i <= n,
            right == x + width,
            bottom == y + height,
            forall|j: int|
                0 <= j < i ==> !holds_rectangle(
                    #[trigger] monitors@[j],
                    x as int,
                    y as int,
                    width as int,
                    height as int,
                ),
        decreases n - i,
    {
        let m = &monitors[i];
        if x >= m.left && y >= m.top && right <= m.left as i64 + m.width as i64 && bottom
            <= m.top as i64 + m.height as i64 {
            assert(*m == monitors@[i as int]);
            return true;
        }
        i = i + 1;
    }
    false
}

/// The larger of a size and the smallest size that a window is restored to.
pub open spec fn restored_size(size: u32) -> u32 {
    if size < 200 {
        200
    } else {
        size
    }
}

/// The rectangle lies entirely on some monitor.
pub open spec fn fits(
    monitors: Seq<LiveMonitor>,
    x: int,
    y: int,
    width: int,
    height: int,
) -> bool {
    exists|i: int|
        0 <= i < monitors.len() && holds_rectangle(#[trigger] monitors[i], x, y, width, height)
}

/// The point lies in the range of coordinates when it is offset from the corner of the monitor.
pub open spec fn offset_in_range(m: LiveMonitor, dx: i32, dy: i32) -> bool {
    i32::MIN <= m.left + dx <= i32::MAX && i32::MIN <= m.top + dy <= i32::MAX
}

/// Where a window goes that was saved on a monitor with a resolution, `dx` and `dy` from its corner:
/// as far from the corner of the first monitor with that resolution, and at least 200 pixels
/// either way, if it then fits entirely on some monitor.
pub open spec fn restored_window(
    monitors: Seq<LiveMonitor>,
    monitor_width: u32,
    monitor_height: u32,
    dx: i32,
    dy: i32,
    width: u32,
    height: u32,
) -> Option<(i32, i32, u32, u32)> {
    match monitor_at(
        monitors,
        first_with_resolution(monitors, monitor_width, monitor_height),
    ) {
        None => None,
        Some(m) => {
            let x = m.left + dx;
            let y = m.top + dy;
            let w = restored_size(width);
            let h = restored_size(height);
            if fits(monitors, x, y, w as int, h as int) {
                Some((x as i32, y as i32, w, h))
            } else {
                None
            }
        },
    }
}

/// Finds where a saved window goes, if anywhere.
pub fn resolve_saved_position(
    monitors: &[LiveMonitor],
    monitor_width: u32,
    monitor_height: u32,
    dx: i32,
    dy: i32,
    width: u32,
    height: u32,
) -> (r: Option<(i32, i32, u32, u32)>)
    requires
        monitor_at(
            monitors@,
            first_with_resolution(monitors@, monitor_width, monitor_height),
        ) matches Some(m) ==> offset_in_range(m, dx, dy),
    ensures
        r == restored_window(monitors@, monitor_width, monitor_height, dx, dy, width, height),
        (forall|j: int|
            0 <= j < monitors@.len() ==> !((#[trigger] monitors@[j]).width == monitor_width
                && monitors@[j].height == monitor_height)) ==> r is None,
        forall|i: int|
            0 <= i < monitors@.len() && (#[trigger] monitors@[i]).width == monitor_width
                && monitors@[i].height == monitor_height && (forall|j: int|
                0 <= j < i ==> !((#[trigger] monitors@[j]).width == monitor_width
                    && monitors@[j].height == monitor_height)) ==> {
                let x = monitors@[i].left + dx;
                let y = monitors@[i].top + dy;
                let w = if width < 200 {
                    200
                } else {
                    width
                };
                let h = if height < 200 {
                    200
                } else {
                    height
                };
                let there = exists|k: int|
                    {
                        &&& 0 <= k < monitors@.len()
                        &&& (#[trigger] monitors@[k]).left <= x && monitors@[k].top <= y
                        &&& x + w <= monitors@[k].left + monitors@[k].width
                        &&& y + h <= monitors@[k].top + monitors@[k].height
                    };
                match r {
                    Some((rx, ry, rw, rh)) => there && rx == x && ry == y && rw == w && rh == h,
                    None => !there,
                }
            },
{
    let mon = match monitor_with_resolution(monitors, monitor_width, monitor_height) {
        Some(mon) => mon,
        None => {
            return None;
        },
    };
    let x: i32 = mon.left + dx;
    let y: i32 = mon.top + dy;
    let w: u32 = if width < 200 {
        200
    } else {
        width
    };
    let h: u32 = if height < 200 {
        200
    } else {
        height
    };
    if window_fits(monitors, x, y, w, h) {
        Some((x, y, w, h))
    } else {
        None
    }
}

/// A window is restored only to where it lies entirely on a monitor, and only while a monitor has
/// the resolution of the one that it was saved on.
pub proof fn restored_window_is_visible(
    monitors: Seq<LiveMonitor>,
    monitor_width: u32,
    monitor_height: u32,
    dx: i32,
    dy: i32,
    width: u32,
    height: u32,
)
    requires
        monitor_at(
            monitors,
            first_with_resolution(monitors, monitor_width, monitor_height),
        ) matches Some(m) ==> offset_in_range(m, dx, dy),
    ensures
        restored_window(monitors, monitor_width, monitor_height, dx, dy, width, height) matches Some(
            (x, y, w, h),
        ) ==> {
            &&& w >= 200 && h >= 200
            &&& fits(monitors, x as int, y as int, w as int, h as int)
            &&& exists|i: int|
                0 <= i < monitors.len() && (#[trigger] monitors[i]).width == monitor_width
                    && monitors[i].height == monitor_height
        },
{
    lemma_first_with_resolution(monitors, monitor_width, monitor_height);
}

proof fn lemma_first_with_resolution(monitors: Seq<LiveMonitor>, width: u32, height: u32)
    ensures
        0 <= first_with_resolution(monitors, width, height) <= monitors.len(),
        first_with_resolution(monitors, width, height) < monitors.len() ==> {
            let m = monitors[first_with_resolution(monitors, width, height)];
            m.width == width && m.height == height
        },
    decreases monitors.len(),
{
    if monitors.len() > 0 && !(monitors[0].width == width && monitors[0].height == height) {
        lemma_first_with_resolution(monitors.skip(1), width, height);
    }
}

} // verus!
