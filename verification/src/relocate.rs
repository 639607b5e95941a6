//! Moving a session to another monitor: out of full screen, over, and into full screen there.
use vstd::prelude::*;

use crate::session::{is_mstsc_class, mstsc_class, WindowInfo};

verus! {

/// The quotient of two integers, rounded towards zero.
pub open spec fn quotient(n: int, d: int) -> int {
    if n >= 0 {
        n / d
    } else {
        -((-n) / d)
    }
}

/// How many times the windows are looked at before giving up.
pub const POLLS: u32 = 60;

/// What to do after one look at the session windows.
#[derive(Debug, Clone, Copy, PartialEq, Eq, Structural)]
pub enum Poll {
    /// A new window is there.
    Found(isize),
    /// Look again.
    Again,
    /// No new window came in time.
    GiveUp,
}

/// The first of the `current` windows that is not among the `existing` ones.
pub open spec fn new_window(existing: Seq<isize>, current: Seq<isize>) -> Option<isize>
    decreases current.len(),
{
    if current.len() == 0 {
        None
    } else if !existing.contains(current[0]) {
        Some(current[0])
    } else {
        new_window(existing, current.skip(1))
    }
}

fn is_among(handles: &[isize], handle: isize) -> (r: bool)
    ensures
        r == handles@.contains(handle),
{
    let n: usize = handles.len();
    let mut i: usize = 0;
    while i < n
        invariant
            n == handles@.len(),
            i <= n,
            forall|k: int| 0 <= k < i ==> handles@[k] != handle,
        decreases n - i,
    {
        if handles[i] == handle {
            return true;
        }
        i = i + 1;
    }
    false
}

/// Finds the first window that is not among those that were there before.
pub fn find_new_window(existing: &[isize], current: &[isize]) -> (r: Option<isize>)
    ensures
        r == new_window(existing@, current@),
        match r {
            Some(window) => exists|i: int|
                {
                    &&& 0 <= i < current@.len() && #[trigger] current@[i] == window
                    &&& !existing@.contains(window)
                    &&& forall|j: int| 0 <= j < i ==> existing@.contains(#[trigger] current@[j])
                },
            None => forall|j: int|
                0 <= j < current@.len() ==> existing@.contains(#[trigger] current@[j]),
        },
{
    let n: usize = current.len();
    let mut i: usize = 0;
    assert(current@.skip(0) == current@);
    while i < n
        invariant
            n == current@.len(),
            i <= n,
            new_window(existing@, current@) == new_window(existing@, current@.skip(i as int)),
            forall|j: int| 0 <= j < i ==> existing@.contains(#[trigger] current@[j]),
        decreases n - i,
    {
        assert(current@.skip(i as int)[0] == current@[i as int]);
        assert(current@.skip(i as int).skip(1) == current@.skip(i + 1));
        if !is_among(existing, current[i]) {
            return Some(current[i]);
        }
        i = i + 1;
    }
    None
}

/// Decides what to do after look number `looks` at the session windows.
pub fn poll_for_window(existing: &[isize], current: &[isize], looks: u32) -> (r: Poll)
    ensures
        r == (match new_window(existing@, current@) {
            Some(window) => Poll::Found(window),
            None => if looks < POLLS {
                Poll::Again
            } else {
                Poll::GiveUp
            },
        }),
        match r {
            Poll::Found(window) => exists|i: int|
                {
                    &&& 0 <= i < current@.len() && #[trigger] current@[i] == window
                    &&& !existing@.contains(window)
                    &&& forall|j: int| 0 <= j < i ==> existing@.contains(#[trigger] current@[j])
                },
            _ => {
                &&& forall|j: int|
                    0 <= j < current@.len() ==> existing@.contains(#[trigger] current@[j])
                &&& r is Again <==> looks < 60
            },
        },
{
    match find_new_window(existing, current) {
        Some(window) => Poll::Found(window),
        None => if looks < POLLS {
            Poll::Again
        } else {
            Poll::GiveUp
        },
    }
}

/// The window is a visible main window of a session.
pub open spec fn is_session_window(w: WindowInfo) -> bool {
    is_mstsc_class(w.class_name@) && w.visible
}

/// The indices of the main windows of sessions.
pub fn enum_mstsc_hwnds(windows: &[WindowInfo]) -> (r: Vec<usize>)
    ensures
        forall|k: int|
            0 <= k < r@.len() ==> (#[trigger] r@[k]) < windows@.len() && is_session_window(
                windows@[r@[k] as int],
            ),
        forall|j: int, k: int| 0 <= j < k < r@.len() ==> r@[j] < r@[k],
        forall|i: int|
            0 <= i < windows@.len() && is_session_window(#[trigger] windows@[i])
                ==> r@.contains(i as usize),
        forall|i: int|
            0 <= i < windows@.len() ==> (r@.contains(i as usize) <==> (#[trigger] windows@[i]).visible
                && (windows@[i].class_name@ == "TscShellContainerClass"@
                || windows@[i].class_name@ == "RAIL_WINDOW"@)),
{
    let mut r: Vec<usize> = Vec::new();
    let n: usize = windows.len();
    let mut i: usize = 0;
    while i < n
        invariant
            n == windows@.len(),
            i <= n,
            forall|k: int|
                0 <= k < r@.len() ==> (#[trigger] r@[k]) < i && is_session_window(
                    windows@[r@[k] as int],
                ),
            forall|j: int, k: int| 0 <= j < k < r@.len() ==> r@[j] < r@[k],
            forall|j: int|
                0 <= j < i && is_session_window(#[trigger] windows@[j]) ==> r@.contains(
                    j as usize,
                ),
        decreases n - i,
    {
        let w = &windows[i];
        let ghost before = r@;
        if mstsc_class(w.class_name.as_str()) && w.visible {
            r.push(i);
            proof {
                assert forall|x: usize| before.contains(x) implies r@.contains(x) by {
                    let k = choose|k: int| 0 <= k < before.len() && before[k] == x;
                    assert(r@[k] == x);
                }
                assert(r@[before.len() as int] == i);
            }
        }
        i = i + 1;
    }
    assert forall|i: int| 0 <= i < windows@.len() implies (r@.contains(i as usize) <==> (
    #[trigger] windows@[i]).visible && (windows@[i].class_name@ == "TscShellContainerClass"@
        || windows@[i].class_name@ == "RAIL_WINDOW"@)) by {
        if r@.contains(i as usize) {
            let k = choose|k: int| 0 <= k < r@.len() && r@[k] == i as usize;
            assert(is_session_window(windows@[r@[k] as int]));
        }
        if windows@[i].visible && (windows@[i].class_name@ == "TscShellContainerClass"@
            || windows@[i].class_name@ == "RAIL_WINDOW"@) {
            assert(is_session_window(windows@[i]));
        }
    }
    r
}

/// The width of a window.
pub open spec fn window_width(w: WindowInfo) -> int {
    w.right - w.left
}

/// The height of a window.
pub open spec fn window_height(w: WindowInfo) -> int {
    w.bottom - w.top
}

/// The window may be the connection bar of the process `pid`: a visible window of it, other than
/// the session itself, that is thin and wide.
pub open spec fn may_be_bar(w: WindowInfo, pid: u32) -> bool {
    &&& w.pid == pid
    &&& w.visible
    &&& w.class_name@.len() > 0
    &&& !is_mstsc_class(w.class_name@)
    &&& window_width(w) > 100
    &&& 0 < window_height(w) < 80
}

/// How many times as wide as high a window is, rounded down.
pub open spec fn flatness(w: WindowInfo) -> int {
    window_width(w) / window_height(w)
}

/// Window `i` is the connection bar: the flattest of those that may be it, the last one of
/// several.
pub open spec fn is_bar(windows: Seq<WindowInfo>, pid: u32, i: int) -> bool {
    &&& 0 <= i < windows.len()
    &&& may_be_bar(windows[i], pid)
    &&& forall|j: int|
        0 <= j < windows.len() && may_be_bar(#[trigger] windows[j], pid) ==> flatness(windows[j])
            <= flatness(windows[i]) && (i < j ==> flatness(windows[j]) < flatness(windows[i]))
}

/// A window may be a connection bar exactly where it is a visible window of the process with a class
/// of its own, other than that of a session, more than 100 wide, and from 1 to 79 high. It is as
/// flat as its width holds its height whole times.
pub proof fn bars_are_thin_and_wide(w: WindowInfo, pid: u32)
    ensures
        may_be_bar(w, pid) <==> {
            &&& w.pid == pid && w.visible
            &&& w.class_name@.len() > 0
            &&& w.class_name@ != "TscShellContainerClass"@ && w.class_name@ != "RAIL_WINDOW"@
            &&& w.right - w.left > 100
            &&& 1 <= w.bottom - w.top <= 79
        },
        may_be_bar(w, pid) ==> flatness(w) * (w.bottom - w.top) <= w.right - w.left < (flatness(w)
            + 1) * (w.bottom - w.top),
{
    if may_be_bar(w, pid) {
        let n = w.right - w.left;
        let d = w.bottom - w.top;
        assert((n / d) * d <= n < (n / d + 1) * d) by (nonlinear_arith)
            requires
                n > 0,
                d > 0,
        ;
    }
}

/// The connection bar is the flattest of the windows that may be it, and the last of those that
/// are as flat.
pub proof fn bar_is_the_last_flattest(windows: Seq<WindowInfo>, pid: u32, i: int, j: int)
    requires
        is_bar(windows, pid, i),
        0 <= j < windows.len(),
        may_be_bar(windows[j], pid),
    ensures
        0 <= i < windows.len(),
        may_be_bar(windows[i], pid),
        flatness(windows[j]) <= flatness(windows[i]),
        j > i ==> flatness(windows[j]) < flatness(windows[i]),
{
}

fn bar_flatness(w: &WindowInfo, pid: u32) -> (r: Option<i64>)
    ensures
        match r {
            Some(f) => may_be_bar(*w, pid) && f == flatness(*w),
            None => !may_be_bar(*w, pid),
        },
{
    if w.pid != pid || !w.visible || w.class_name.as_str().is_empty() || mstsc_class(
        w.class_name.as_str(),
    ) {
        return None;
    }
    let width: i64 = w.right as i64 - w.left as i64;
    let height: i64 = w.bottom as i64 - w.top as i64;
    if width > 100 && height > 0 && height < 80 {
        Some(width / height)
    } else {
        None
    }
}

/// Finds the connection bar of the session process `target_pid`.
pub fn find_connection_bar(windows: &[WindowInfo], target_pid: u32) -> (r: Option<usize>)
    ensures
        match r {
            Some(i) => is_bar(windows@, target_pid, i as int),
            None => forall|j: int|
                0 <= j < windows@.len() ==> !may_be_bar(#[trigger] windows@[j], target_pid),
        },
{
    let n: usize = windows.len();
    let mut best: Option<(usize, i64)> = None;
    let mut i: usize = 0;
    while i < n
        invariant
            n == windows@.len(),
            i <= n,
            match best {
                Some((b, f)) => {
                    &&& b < i
                    &&& may_be_bar(windows@[b as int], target_pid)
                    &&& f == flatness(windows@[b as int])
                    &&& forall|j: int|
                        0 <= j < i && may_be_bar(#[trigger] windows@[j], target_pid) ==> flatness(
                            windows@[j],
                        ) <= f && (b < j ==> flatness(windows@[j]) < f)
                },
                None => forall|j: int|
                    0 <= j < i ==> !may_be_bar(#[trigger] windows@[j], target_pid),
            },
        decreases n - i,
    {
        if let Some(f) = bar_flatness(&windows[i], target_pid) {
            let flattest = match best {
                Some((_, other)) => other <= f,
                None => true,
            };
            if flattest {
                best = Some((i, f));
            }
        }
        i = i + 1;
    }
    match best {
        Some((b, _)) => Some(b),
        None => None,
    }
}

/// The area that all monitors span together.
#[derive(Debug, Clone, Copy, PartialEq, Eq, Structural)]
pub struct VirtualScreen {
    pub left: i32,
    pub top: i32,
    pub width: i32,
    pub height: i32,
}

impl VirtualScreen {
    /// The area has an extent both ways.
    pub open spec fn has_extent(self) -> bool {
        self.width != 0 && self.height != 0
    }
}

/// A coordinate in units of which 65535 make the extent of the virtual screen.
pub open spec fn absolute(p: i32, origin: i32, extent: i32) -> i32 {
    quotient((p - origin) * 65535, extent as int) as i32
}

fn to_units(p: i32, origin: i32, extent: i32) -> (r: i32)
    requires
        extent != 0,
    ensures
        r == absolute(p, origin, extent),
{
    let n: i64 = (p as i64 - origin as i64) * 65535;
    let d: i64 = extent as i64;
    proof {
        let m: int = if n < 0 {
            -(n as int)
        } else {
            n as int
        };
        let e = d as int;
        assert(-m <= m / e <= m) by (nonlinear_arith)
            requires
                m >= 0,
                e != 0,
        ;
    }
    let q: i64 = n / d;
    #[verifier::truncate]
    (q as i32)
}

/// Converts pixel coordinates to the units of absolute mouse input.
pub fn to_absolute(px_x: i32, px_y: i32, screen: VirtualScreen) -> (r: (i32, i32))
    requires
        screen.has_extent(),
    ensures
        r.0 == absolute(px_x, screen.left, screen.width),
        r.1 == absolute(px_y, screen.top, screen.height),
{
    (to_units(px_x, screen.left, screen.width), to_units(px_y, screen.top, screen.height))
}

/// A key of the keyboard.
#[derive(Debug, Clone, Copy, PartialEq, Eq, Structural)]
pub enum Key {
    Ctrl,
    Alt,
    Break,
}

/// One thing to do with the mouse, the keyboard or the session's window.
#[derive(Debug, Clone, Copy, PartialEq, Eq, Structural)]
pub enum InputStep {
    /// Move to a point in the units of absolute mouse input.
    MoveTo(i32, i32),
    /// Press the left button.
    Press,
    /// Release the left button.
    Release,
    /// Wait for so many milliseconds.
    Wait(u32),
    /// Move the session's window so that its corner lies at a point given in pixels.
    MoveWindow(i32, i32),
    /// Press a key.
    KeyDown(Key),
    /// Release a key.
    KeyUp(Key),
}

/// The coordinate `i` twentieths of the way from one coordinate to another.
pub open spec fn part_way(from: i32, to: i32, i: int) -> int {
    from + quotient((to - from) * i, 20)
}

/// A movement to a point given in pixels.
pub open spec fn move_step(x: int, y: int, screen: VirtualScreen) -> InputStep {
    InputStep::MoveTo(
        absolute(x as i32, screen.left, screen.width),
        absolute(y as i32, screen.top, screen.height),
    )
}

/// A straight drag from one point to another in twenty movements, each with a short wait behind
/// it, and a longer wait at its end.
pub open spec fn segment_steps(
    from: (i32, i32),
    to: (i32, i32),
    screen: VirtualScreen,
) -> Seq<InputStep> {
    Seq::new(
        40,
        |k: int|
            if k % 2 == 0 {
                move_step(
                    part_way(from.0, to.0, k / 2 + 1),
                    part_way(from.1, to.1, k / 2 + 1),
                    screen,
                )
            } else {
                InputStep::Wait(15)
            },
    ).push(InputStep::Wait(300))
}

/// Straight drags from `from` through the waypoints.
pub open spec fn path_steps(
    from: (i32, i32),
    waypoints: Seq<(i32, i32)>,
    screen: VirtualScreen,
) -> Seq<InputStep>
    decreases waypoints.len(),
{
    if waypoints.len() == 0 {
        seq![]
    } else {
        segment_steps(from, waypoints[0], screen) + path_steps(
            waypoints[0],
            waypoints.skip(1),
            screen,
        )
    }
}

/// A whole drag: press at the start, move through the waypoints, release at the last of them.
pub open spec fn drag_steps(
    start: (i32, i32),
    waypoints: Seq<(i32, i32)>,
    screen: VirtualScreen,
) -> Seq<InputStep> {
    seq![
        move_step(start.0 as int, start.1 as int, screen),
        InputStep::Wait(50),
        InputStep::Press,
        InputStep::Wait(100),
    ] + path_steps(start, waypoints, screen) + seq![InputStep::Wait(50), InputStep::Release]
}

/// Each point of the way is as many twentieths along it as the steps taken, rounded towards where
/// the way began.
pub proof fn part_way_is_in_twentieths(from: i32, to: i32, i: int)
    requires
        0 <= i <= 20,
    ensures
        from <= to ==> 20 * (part_way(from, to, i) - from) <= (to - from) * i < 20 * (part_way(
            from,
            to,
            i,
        ) - from) + 20,
        to <= from ==> 20 * (from - part_way(from, to, i)) <= (from - to) * i < 20 * (from
            - part_way(from, to, i)) + 20,
{
    let d = to - from;
    assert((from - to) * i == -(d * i)) by (nonlinear_arith)
        requires
            d == to - from,
    ;
    if d >= 0 {
        assert(d * i >= 0) by (nonlinear_arith)
            requires
                d >= 0,
                i >= 0,
        ;
    } else {
        assert(d * i <= 0) by (nonlinear_arith)
            requires
                d < 0,
                i >= 0,
        ;
    }
}

/// A drag along no stretch is a click at its start.
pub proof fn drag_without_waypoints(start: (i32, i32), screen: VirtualScreen)
    ensures
        drag_steps(start, seq![], screen) == seq![
            InputStep::MoveTo(
                absolute(start.0, screen.left, screen.width),
                absolute(start.1, screen.top, screen.height),
            ),
            InputStep::Wait(50),
            InputStep::Press,
            InputStep::Wait(100),
            InputStep::Wait(50),
            InputStep::Release,
        ],
{
    let none = Seq::<(i32, i32)>::empty();
    assert(path_steps(start, none, screen) =~= seq![]);
}

/// A drag, step by step: to the start, press; along each straight stretch twenty movements of a
/// twentieth each with a short wait behind each and a longer one at the end; then release.
pub proof fn drag_step_by_step(
    start: (i32, i32),
    waypoints: Seq<(i32, i32)>,
    screen: VirtualScreen,
    w: int,
    i: int,
)
    requires
        0 <= w < waypoints.len(),
        1 <= i <= 20,
    ensures
        ({
            let steps = drag_steps(start, waypoints, screen);
            let n = steps.len() as int;
            let from = if w == 0 {
                start
            } else {
                waypoints[w - 1]
            };
            let to = waypoints[w];
            &&& n == 6 + 41 * waypoints.len()
            &&& steps[0] == InputStep::MoveTo(
                absolute(start.0, screen.left, screen.width),
                absolute(start.1, screen.top, screen.height),
            )
            &&& steps[1] == InputStep::Wait(50) && steps[2] == InputStep::Press
            &&& steps[3] == InputStep::Wait(100)
            &&& steps[4 + 41 * w + 2 * (i - 1)] == InputStep::MoveTo(
                absolute(part_way(from.0, to.0, i) as i32, screen.left, screen.width),
                absolute(part_way(from.1, to.1, i) as i32, screen.top, screen.height),
            )
            &&& steps[4 + 41 * w + 2 * (i - 1) + 1] == InputStep::Wait(15)
            &&& steps[4 + 41 * w + 40] == InputStep::Wait(300)
            &&& steps[n - 2] == InputStep::Wait(50) && steps[n - 1] == InputStep::Release
        }),
{
    lemma_path_step(start, waypoints, screen, w, i);
    let path = path_steps(start, waypoints, screen);
    let steps = drag_steps(start, waypoints, screen);
    assert(steps[4 + 41 * w + 2 * (i - 1)] == path[41 * w + 2 * (i - 1)]);
    assert(steps[4 + 41 * w + 2 * (i - 1) + 1] == path[41 * w + 2 * (i - 1) + 1]);
    assert(steps[4 + 41 * w + 40] == path[41 * w + 40]);
}

proof fn lemma_path_step(
    start: (i32, i32),
    waypoints: Seq<(i32, i32)>,
    screen: VirtualScreen,
    w: int,
    i: int,
)
    requires
        0 <= w < waypoints.len(),
        1 <= i <= 20,
    ensures
        ({
            let path = path_steps(start, waypoints, screen);
            let from = if w == 0 {
                start
            } else {
                waypoints[w - 1]
            };
            let to = waypoints[w];
            &&& path.len() == 41 * waypoints.len()
            &&& path[41 * w + 2 * (i - 1)] == move_step(
                part_way(from.0, to.0, i),
                part_way(from.1, to.1, i),
                screen,
            )
            &&& path[41 * w + 2 * (i - 1) + 1] == InputStep::Wait(15)
            &&& path[41 * w + 40] == InputStep::Wait(300)
        }),
    decreases waypoints.len(),
{
    let first = segment_steps(start, waypoints[0], screen);
    let rest = waypoints.skip(1);
    let tail = path_steps(waypoints[0], rest, screen);
    let path = path_steps(start, waypoints, screen);
    assert(first.len() == 41);
    if rest.len() > 0 {
        lemma_path_step(waypoints[0], rest, screen, if w > 0 { w - 1 } else { 0 }, i);
    }
    let k = 2 * (i - 1);
    if w == 0 {
        assert(k % 2 == 0 && k / 2 + 1 == i);
        assert(path[k] == first[k]);
        assert(path[k + 1] == first[k + 1]);
        assert(path[40] == first[40]);
    } else {
        assert(path[41 * w + k] == tail[41 * (w - 1) + k]);
        assert(path[41 * w + k + 1] == tail[41 * (w - 1) + k + 1]);
        assert(path[41 * w + 40] == tail[41 * (w - 1) + 40]);
        assert(rest[w - 1] == waypoints[w]);
        if w > 1 {
            assert(rest[w - 2] == waypoints[w - 1]);
        }
    }
}

/// No point on the way lies outside of the two ends.
pub proof fn part_way_stays_between(from: i32, to: i32, i: int)
    requires
        0 <= i <= 20,
    ensures
        from <= to ==> from <= part_way(from, to, i) <= to,
        to <= from ==> to <= part_way(from, to, i) <= from,
{
    let d = to - from;
    if d >= 0 {
        assert(0 <= d * i <= d * 20) by (nonlinear_arith)
            requires
                d >= 0,
                0 <= i <= 20,
        ;
    } else {
        assert(0 <= (-d) * i <= (-d) * 20) by (nonlinear_arith)
            requires
                d < 0,
                0 <= i <= 20,
        ;
        assert((-d) * i == -(d * i)) by (nonlinear_arith);
    }
}

/// The way ends at its end.
pub proof fn part_way_arrives(from: i32, to: i32)
    ensures
        part_way(from, to, 20) == to,
{
}

fn between(from: i32, to: i32, i: u32) -> (r: i32)
    requires
        1 <= i <= 20,
    ensures
        r == part_way(from, to, i as int),
{
    proof {
        part_way_stays_between(from, to, i as int);
    }
    let d: i64 = to as i64 - from as i64;
    proof {
        let steps = i as int;
        let far = d as int;
        assert(-(0x1_0000_0000int * 20) <= far * steps <= 0x1_0000_0000int * 20) by (
            nonlinear_arith)
            requires
                1 <= steps <= 20,
                -0x1_0000_0000int <= far <= 0x1_0000_0000int,
        ;
    }
    let moved: i64 = d * (i as i64) / 20;
    (from as i64 + moved) as i32
}

fn moved_to(x: i32, y: i32, screen: VirtualScreen) -> (r: InputStep)
    requires
        screen.has_extent(),
    ensures
        r == move_step(x as int, y as int, screen),
{
    let (ax, ay) = to_absolute(x, y, screen);
    InputStep::MoveTo(ax, ay)
}

/// Appends a straight drag.
fn push_segment(
    steps: &mut Vec<InputStep>,
    from: (i32, i32),
    to: (i32, i32),
    screen: VirtualScreen,
)
    requires
        screen.has_extent(),
    ensures
        final(steps)@ == old(steps)@ + segment_steps(from, to, screen),
{
    let ghost before = steps@;
    let ghost all = segment_steps(from, to, screen);
    let mut i: u32 = 1;
    while i <= 20
        invariant
            screen.has_extent(),
            1 <= i <= 21,
            all == segment_steps(from, to, screen),
            steps@ == before + all.take(2 * (i - 1)),
        decreases 21 - i,
    {
        let x: i32 = between(from.0, to.0, i);
        let y: i32 = between(from.1, to.1, i);
        let step = moved_to(x, y, screen);
        steps.push(step);
        steps.push(InputStep::Wait(15));
        assert(all[2 * (i - 1)] == step);
        assert(all[2 * (i - 1) + 1] == InputStep::Wait(15));
        assert(all.take(2 * i) =~= all.take(2 * (i - 1)).push(step).push(InputStep::Wait(15)));
        i = i + 1;
    }
    steps.push(InputStep::Wait(300));
    assert(all =~= all.take(40).push(InputStep::Wait(300)));
    assert(steps@ =~= before + all);
}

/// What to do with the mouse to drag from a point through waypoints, all given in pixels.
pub fn mouse_drag_via(
    x0: i32,
    y0: i32,
    waypoints: &[(i32, i32)],
    screen: VirtualScreen,
) -> (r: Vec<InputStep>)
    requires
        screen.has_extent(),
    ensures
        r@ == drag_steps((x0, y0), waypoints@, screen),
{
    let mut steps: Vec<InputStep> = Vec::new();
    steps.push(moved_to(x0, y0, screen));
    steps.push(InputStep::Wait(50));
    steps.push(InputStep::Press);
    steps.push(InputStep::Wait(100));
    let ghost head = steps@;
    let mut from: (i32, i32) = (x0, y0);
    let n: usize = waypoints.len();
    let mut i: usize = 0;
    let ghost path = path_steps((x0, y0), waypoints@, screen);
    assert(waypoints@.skip(0) == waypoints@);
    assert(head + path =~= steps@ + path);
    while i < n
        invariant
            screen.has_extent(),
            n == waypoints@.len(),
            i <= n,
            head + path == steps@ + path_steps(from, waypoints@.skip(i as int), screen),
        decreases n - i,
    {
        let to = waypoints[i];
        let ghost before = steps@;
        let ghost rest = waypoints@.skip(i as int);
        assert(rest[0] == to);
        assert(rest.skip(1) == waypoints@.skip(i + 1));
        push_segment(&mut steps, from, to, screen);
        assert(before + (segment_steps(from, to, screen) + path_steps(to, rest.skip(1), screen))
            =~= steps@ + path_steps(to, rest.skip(1), screen));
        from = to;
        i = i + 1;
    }
    assert(steps@ + path_steps(from, waypoints@.skip(i as int), screen) =~= steps@);
    steps.push(InputStep::Wait(50));
    steps.push(InputStep::Release);
    assert(head =~= seq![
        move_step(x0 as int, y0 as int, screen),
        InputStep::Wait(50),
        InputStep::Press,
        InputStep::Wait(100),
    ]);
    assert(steps@ =~= drag_steps((x0, y0), waypoints@, screen));
    steps
}

/// The middle of two coordinates.
pub open spec fn middle(a: i32, b: i32) -> int {
    quotient(a + b, 2)
}

/// Where the drag of a connection bar begins: in its middle.
pub open spec fn grip(bar: WindowInfo) -> (i32, i32) {
    (middle(bar.left, bar.right) as i32, middle(bar.top, bar.bottom) as i32)
}

/// How far down a connection bar is dragged, in pixels.
pub const DRAG_DOWN: i32 = 400;

/// The drag of a connection bar straight down, away from the top edge, which ends full screen.
pub open spec fn drag_down_steps(bar: WindowInfo, screen: VirtualScreen) -> Seq<InputStep> {
    drag_steps(grip(bar), seq![(grip(bar).0, (grip(bar).1 + DRAG_DOWN) as i32)], screen)
}

/// The keys Ctrl, Alt and Break pressed together, by which a session enters full screen.
pub open spec fn ctrl_alt_break() -> Seq<InputStep> {
    seq![
        InputStep::KeyDown(Key::Ctrl),
        InputStep::KeyDown(Key::Alt),
        InputStep::KeyDown(Key::Break),
        InputStep::KeyUp(Key::Break),
        InputStep::KeyUp(Key::Alt),
        InputStep::KeyUp(Key::Ctrl),
    ]
}

/// How a session gets to the monitor that begins at the target: its connection bar is dragged
/// down, its window is moved there, and it enters full screen again.
pub open spec fn relocation_steps(
    bar: WindowInfo,
    target_left: i32,
    target_top: i32,
    screen: VirtualScreen,
) -> Seq<InputStep> {
    drag_down_steps(bar, screen) + seq![InputStep::MoveWindow(target_left, target_top)]
        + ctrl_alt_break()
}

fn middle_of(a: i32, b: i32) -> (r: i32)
    ensures
        r == middle(a, b),
{
    ((a as i64 + b as i64) / 2) as i32
}

/// What to do to move a session, given its connection bar, to the monitor that begins at the
/// target.
pub fn relocate_mstsc_to_monitor(
    bar: &WindowInfo,
    target_left: i32,
    target_top: i32,
    screen: VirtualScreen,
) -> (r: Vec<InputStep>)
    requires
        screen.has_extent(),
        middle(bar.top, bar.bottom) + DRAG_DOWN <= i32::MAX,
    ensures
        r@ == relocation_steps(*bar, target_left, target_top, screen),
        r@ == drag_steps(
            (middle(bar.left, bar.right) as i32, middle(bar.top, bar.bottom) as i32),
            seq![
                (
                    middle(bar.left, bar.right) as i32,
                    (middle(bar.top, bar.bottom) + 400) as i32,
                ),
            ],
            screen,
        ) + seq![
            InputStep::MoveWindow(target_left, target_top),
            InputStep::KeyDown(Key::Ctrl),
            InputStep::KeyDown(Key::Alt),
            InputStep::KeyDown(Key::Break),
            InputStep::KeyUp(Key::Break),
            InputStep::KeyUp(Key::Alt),
            InputStep::KeyUp(Key::Ctrl),
        ],
{
    let start_x: i32 = middle_of(bar.left, bar.right);
    let start_y: i32 = middle_of(bar.top, bar.bottom);
    let mut waypoints: Vec<(i32, i32)> = Vec::new();
    waypoints.push((start_x, start_y + DRAG_DOWN));
    assert(waypoints@ =~= seq![(grip(*bar).0, (grip(*bar).1 + DRAG_DOWN) as i32)]);
    let mut steps = mouse_drag_via(start_x, start_y, waypoints.as_slice(), screen);
    steps.push(InputStep::MoveWindow(target_left, target_top));
    steps.push(InputStep::KeyDown(Key::Ctrl));
    steps.push(InputStep::KeyDown(Key::Alt));
    steps.push(InputStep::KeyDown(Key::Break));
    steps.push(InputStep::KeyUp(Key::Break));
    steps.push(InputStep::KeyUp(Key::Alt));
    steps.push(InputStep::KeyUp(Key::Ctrl));
    assert(steps@ =~= relocation_steps(*bar, target_left, target_top, screen));
    steps
}

/// The mouse button is released, below where the bar was gripped, before the window is moved; the
/// keys that enter full screen come last, and each one that is pressed is released again.
pub proof fn relocation_ends_in_full_screen(
    bar: WindowInfo,
    target_left: i32,
    target_top: i32,
    screen: VirtualScreen,
)
    requires
        middle(bar.top, bar.bottom) + DRAG_DOWN <= i32::MAX,
    ensures
        ({
            let steps = relocation_steps(bar, target_left, target_top, screen);
            let n = steps.len() as int;
            &&& n >= 12
            &&& steps[n - 12] == move_step(
                grip(bar).0 as int,
                grip(bar).1 + DRAG_DOWN,
                screen,
            )
            &&& steps[n - 8] == InputStep::Release
            &&& steps[n - 7] == InputStep::MoveWindow(target_left, target_top)
            &&& steps.skip(n - 6) == ctrl_alt_break()
        }),
{
    let waypoints = seq![(grip(bar).0, (grip(bar).1 + DRAG_DOWN) as i32)];
    drag_ends_at_last_waypoint(grip(bar), waypoints, screen);
    let steps = relocation_steps(bar, target_left, target_top, screen);
    assert(steps.skip(steps.len() - 6) =~= ctrl_alt_break());
}

/// A coordinate in units is as large a part of 65535 as its distance is of the extent, rounded
/// towards the origin, on either side of it.
pub proof fn absolute_is_the_part_of_the_extent(p: i32, origin: i32, extent: i32)
    requires
        extent > 0,
    ensures
        ({
            let a = absolute(p, origin, extent);
            let far = (p - origin) * 65535;
            &&& 0 <= far <= i32::MAX * extent ==> a * extent <= far < (a + 1) * extent
            &&& i32::MIN * extent <= far <= 0 ==> (a - 1) * extent < far <= a * extent
        }),
{
    let far = (p - origin) * 65535;
    let e = extent as int;
    if 0 <= far <= i32::MAX * e {
        let q = far / e;
        assert(q * e <= far < (q + 1) * e && 0 <= q <= 0x7fff_ffff) by (nonlinear_arith)
            requires
                0 <= far <= 0x7fff_ffff * e,
                e > 0,
                q == far / e,
        ;
        assert(absolute(p, origin, extent) == q);
    }
    if i32::MIN * e <= far <= 0 {
        let q = (-far) / e;
        assert(q * e <= -far < (q + 1) * e && 0 <= q <= 0x8000_0000) by (nonlinear_arith)
            requires
                0 <= -far <= 0x8000_0000 * e,
                e > 0,
                q == (-far) / e,
        ;
        assert(absolute(p, origin, extent) == -q);
        assert((-q) * e == -(q * e) && (-q - 1) * e == -((q + 1) * e)) by (nonlinear_arith);
    }
}

/// The middle of two coordinates is half their sum, rounded towards zero.
pub proof fn middle_is_half_the_sum(a: i32, b: i32)
    ensures
        a + b >= 0 ==> 2 * middle(a, b) <= a + b < 2 * middle(a, b) + 2,
        a + b <= 0 ==> 2 * middle(a, b) - 2 < a + b <= 2 * middle(a, b),
{
}

/// A point of the virtual screen has absolute coordinates from 0 to 65535.
pub proof fn absolute_is_in_range(p: i32, origin: i32, extent: i32)
    requires
        extent > 0,
        origin <= p <= origin + extent,
    ensures
        0 <= absolute(p, origin, extent) <= 65535,
{
    let d = p - origin;
    let e = extent as int;
    assert(0 <= (d * 65535) / e <= 65535) by (nonlinear_arith)
        requires
            0 <= d <= e,
            e > 0,
    ;
}

/// The last movement of a drag goes to the last waypoint, and the button is released there.
pub proof fn drag_ends_at_last_waypoint(
    start: (i32, i32),
    waypoints: Seq<(i32, i32)>,
    screen: VirtualScreen,
)
    requires
        waypoints.len() > 0,
    ensures
        ({
            let steps = drag_steps(start, waypoints, screen);
            let n = steps.len() as int;
            &&& n >= 5
            &&& steps[n - 5] == move_step(
                waypoints.last().0 as int,
                waypoints.last().1 as int,
                screen,
            )
            &&& steps[n - 4] == InputStep::Wait(15)
            &&& steps[n - 3] == InputStep::Wait(300)
            &&& steps[n - 2] == InputStep::Wait(50)
            &&& steps[n - 1] == InputStep::Release
        }),
{
    lemma_path_end(start, waypoints, screen);
}

proof fn lemma_path_end(from: (i32, i32), waypoints: Seq<(i32, i32)>, screen: VirtualScreen)
    requires
        waypoints.len() > 0,
    ensures
        ({
            let steps = path_steps(from, waypoints, screen);
            let n = steps.len() as int;
            &&& n >= 41
            &&& steps[n - 3] == move_step(
                waypoints.last().0 as int,
                waypoints.last().1 as int,
                screen,
            )
            &&& steps[n - 2] == InputStep::Wait(15)
            &&& steps[n - 1] == InputStep::Wait(300)
        }),
    decreases waypoints.len(),
{
    let to = waypoints[0];
    let rest = waypoints.skip(1);
    part_way_arrives(from.0, to.0);
    part_way_arrives(from.1, to.1);
    if waypoints.len() > 1 {
        lemma_path_end(to, rest, screen);
        assert(rest.last() == waypoints.last());
    } else {
        assert(path_steps(to, rest, screen) =~= seq![]);
    }
}

} // verus!
