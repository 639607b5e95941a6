//! The monitors that are connected now, and which of them a profile means.
use vstd::math::abs;
use vstd::prelude::*;
use vstd::string::StringExecFns;

use crate::casing::is_ascii_text;
use crate::config::MonitorDef;
use crate::listing::{ascii_listed_monitors, extent, listed_monitors, parse_mstsc_output, span};

verus! {

/// A connected monitor, with the number that it has until the next restart.
#[derive(Debug, Clone, Copy, PartialEq, Eq, Structural)]
pub struct LiveMonitor {
    pub mstsc_id: u32,
    pub left: i32,
    pub top: i32,
    pub width: u32,
    pub height: u32,
    pub is_primary: bool,
}

/// What came of starting `mstsc /l` and looking for its dialog.
pub enum Capture {
    /// There is no `mstsc` on this system.
    Unsupported,
    /// The process could not be started, for this reason.
    SpawnFailed(String),
    /// No dialog of the process appeared in time.
    NoDialog,
    /// The dialog appeared; this is its text, empty where none could be read.
    Dialog(String),
}

/// The monitors that the `mstsc /l` dialog lists, or why there are none.
pub open spec fn captured(capture: Capture) -> Result<Seq<LiveMonitor>, Seq<char>> {
    match capture {
        Capture::Unsupported => Err("mstsc is only available on Windows"@),
        Capture::SpawnFailed(reason) => Err("Failed to spawn mstsc: "@ + reason@),
        Capture::NoDialog => Err("mstsc /l dialog not found"@),
        Capture::Dialog(text) => if text@.len() == 0 {
            Err("Could not read mstsc /l dialog text"@)
        } else if listed_monitors(text@).len() == 0 {
            Err("No monitor lines found in mstsc output"@)
        } else {
            Ok(listed_monitors(text@))
        },
    }
}

/// The monitors or the error text that a result carries.
pub open spec fn monitors_result(r: Result<Vec<LiveMonitor>, String>) -> Result<
    Seq<LiveMonitor>,
    Seq<char>,
> {
    match r {
        Ok(monitors) => Ok(monitors@),
        Err(e) => Err(e@),
    }
}

/// Turns what came of `mstsc /l` into monitors.
pub fn capture_mstsc_l(capture: Capture) -> (r: Result<Vec<LiveMonitor>, String>)
    ensures
        monitors_result(r) == captured(capture),
        capture is Unsupported ==> (r matches Err(e) && e@
            == "mstsc is only available on Windows"@),
        capture matches Capture::SpawnFailed(reason) ==> (r matches Err(e) && e@
            == "Failed to spawn mstsc: "@ + reason@),
        capture is NoDialog ==> (r matches Err(e) && e@ == "mstsc /l dialog not found"@),
        capture matches Capture::Dialog(text) ==> match r {
            Ok(monitors) => text@.len() > 0 && monitors@.len() > 0 && monitors@ == listed_monitors(
                text@,
            ),
            Err(e) => if text@.len() == 0 {
                e@ == "Could not read mstsc /l dialog text"@
            } else {
                listed_monitors(text@).len() == 0 && e@
                    == "No monitor lines found in mstsc output"@
            },
        },
        capture matches Capture::Dialog(text) ==> text@.len() > 0 && is_ascii_text(text@) ==> match r {
            Ok(monitors) => monitors@ == ascii_listed_monitors(text@),
            Err(_) => ascii_listed_monitors(text@).len() == 0,
        },
{
    match capture {
        Capture::Unsupported => Err("mstsc is only available on Windows".to_string()),
        Capture::SpawnFailed(reason) => {
            let mut message = "Failed to spawn mstsc: ".to_string();
            message.append(reason.as_str());
            Err(message)
        },
        Capture::NoDialog => Err("mstsc /l dialog not found".to_string()),
        Capture::Dialog(text) => if text.as_str().is_empty() {
            Err("Could not read mstsc /l dialog text".to_string())
        } else {
            parse_mstsc_output(text.as_str())
        },
    }
}

/// The area of one display as the system enumerates it, and its flags. The lowest flag marks the
/// primary display.
#[derive(Debug, Clone, Copy, PartialEq, Eq, Structural)]
pub struct DisplayArea {
    pub left: i32,
    pub top: i32,
    pub right: i32,
    pub bottom: i32,
    pub flags: u32,
}

/// The monitor of the display that is enumerated as number `i`.
pub open spec fn area_monitor(area: DisplayArea, i: int) -> LiveMonitor {
    LiveMonitor {
        mstsc_id: i as u32,
        left: area.left,
        top: area.top,
        width: span(area.left, area.right as int),
        height: span(area.top, area.bottom as int),
        is_primary: area.flags & 1 != 0,
    }
}

/// The monitors of the enumerated displays, numbered in that order; `None` stands for an
/// enumeration that failed.
pub open spec fn enumerated(areas: Option<Seq<DisplayArea>>) -> Result<
    Seq<LiveMonitor>,
    Seq<char>,
> {
    match areas {
        None => Err("EnumDisplayMonitors failed"@),
        Some(areas) => if areas.len() == 0 {
            Err("No monitors detected"@)
        } else {
            Ok(areas.map(|i: int, area: DisplayArea| area_monitor(area, i)))
        },
    }
}

/// Numbers the displays in the order in which the system enumerated them.
pub fn enumerate_display_monitors(areas: Option<Vec<DisplayArea>>) -> (r: Result<
    Vec<LiveMonitor>,
    String,
>)
    ensures
        monitors_result(r) == enumerated(
            match areas {
                Some(areas) => Some(areas@),
                None => None,
            },
        ),
        areas is None ==> (r matches Err(e) && e@ == "EnumDisplayMonitors failed"@),
        areas matches Some(areas) ==> match r {
            Ok(monitors) => {
                &&& areas@.len() > 0
                &&& monitors@.len() == areas@.len()
                &&& forall|i: int|
                    0 <= i < areas@.len() ==> {
                        let area = #[trigger] areas@[i];
                        &&& monitors@[i].mstsc_id == i as u32
                        &&& monitors@[i].left == area.left && monitors@[i].top == area.top
                        &&& area.left <= area.right ==> monitors@[i].width == area.right - area.left
                        &&& area.top <= area.bottom ==> monitors@[i].height == area.bottom
                            - area.top
                        &&& (area.right - area.left - monitors@[i].width) % 0x1_0000_0000 == 0
                        &&& (area.bottom - area.top - monitors@[i].height) % 0x1_0000_0000 == 0
                        &&& monitors@[i].is_primary == (area.flags & 1 != 0)
                    }
            },
            Err(e) => areas@.len() == 0 && e@ == "No monitors detected"@,
        },
{
    let areas = match areas {
        Some(areas) => areas,
        None => {
            return Err("EnumDisplayMonitors failed".to_string());
        },
    };
    let n: usize = areas.len();
    if n == 0 {
        return Err("No monitors detected".to_string());
    }
    let mut monitors: Vec<LiveMonitor> = Vec::new();
    let mut i: usize = 0;
    while i < n
        invariant
            n == areas@.len(),
            i <= n,
            monitors@.len() == i,
            forall|k: int| 0 <= k < i ==> monitors@[k] == area_monitor(areas@[k], k),
        decreases n - i,
    {
        let area = areas[i];
        monitors.push(
            LiveMonitor {
                mstsc_id: i as u32,
                left: area.left,
                top: area.top,
                width: extent(area.left, area.right as i64),
                height: extent(area.top, area.bottom as i64),
                is_primary: area.flags & 1 != 0,
            },
        );
        i = i + 1;
    }
    assert(monitors@ =~= areas@.map(|i: int, area: DisplayArea| area_monitor(area, i)));
    Ok(monitors)
}

/// The monitors that stand in where there are no displays to enumerate.
pub open spec fn sample() -> Seq<LiveMonitor> {
    seq![
        LiveMonitor {
            mstsc_id: 0,
            left: -1920i32,
            top: 0,
            width: 1920,
            height: 1080,
            is_primary: false,
        },
        LiveMonitor {
            mstsc_id: 1,
            left: 0,
            top: 0,
            width: 2560,
            height: 1440,
            is_primary: true,
        },
        LiveMonitor {
            mstsc_id: 2,
            left: 2560,
            top: 0,
            width: 1920,
            height: 1080,
            is_primary: false,
        },
    ]
}

/// Three monitors that stand in where there are no displays to enumerate.
pub fn sample_monitors() -> (r: Vec<LiveMonitor>)
    ensures
        r@ == sample(),
        r@.len() == 3,
        r@[0] == (LiveMonitor {
            mstsc_id: 0,
            left: -1920i32,
            top: 0,
            width: 1920,
            height: 1080,
            is_primary: false,
        }),
        r@[1] == (LiveMonitor {
            mstsc_id: 1,
            left: 0,
            top: 0,
            width: 2560,
            height: 1440,
            is_primary: true,
        }),
        r@[2] == (LiveMonitor {
            mstsc_id: 2,
            left: 2560,
            top: 0,
            width: 1920,
            height: 1080,
            is_primary: false,
        }),
{
    let mut r: Vec<LiveMonitor> = Vec::new();
    r.push(
        LiveMonitor {
            mstsc_id: 0,
            left: -1920,
            top: 0,
            width: 1920,
            height: 1080,
            is_primary: false,
        },
    );
    r.push(
        LiveMonitor {
            mstsc_id: 1,
            left: 0,
            top: 0,
            width: 2560,
            height: 1440,
            is_primary: true,
        },
    );
    r.push(
        LiveMonitor {
            mstsc_id: 2,
            left: 2560,
            top: 0,
            width: 1920,
            height: 1080,
            is_primary: false,
        },
    );
    assert(r@ =~= sample());
    r
}

/// The captured monitors where there are some, else the enumerated ones.
pub open spec fn current(
    captured: Result<Seq<LiveMonitor>, Seq<char>>,
    enumerated: Result<Seq<LiveMonitor>, Seq<char>>,
) -> Result<Seq<LiveMonitor>, Seq<char>> {
    if captured is Ok && captured->Ok_0.len() > 0 {
        captured
    } else {
        enumerated
    }
}

/// A capture that lists a monitor decides alone: whatever the system enumerates, and however many
/// monitors that are, the monitors are those of the capture. A capture that lists none, or fails,
/// plays no part: the monitors, or the failure, are those of the enumeration.
pub proof fn capture_that_lists_decides_alone(
    captured: Result<Seq<LiveMonitor>, Seq<char>>,
    other: Result<Seq<LiveMonitor>, Seq<char>>,
    enumerated: Result<Seq<LiveMonitor>, Seq<char>>,
)
    ensures
        captured matches Ok(monitors) && monitors.len() > 0 ==> current(captured, enumerated)
            == captured && current(captured, enumerated) == current(captured, other),
        !(captured matches Ok(monitors) && monitors.len() > 0) ==> current(captured, enumerated)
            == enumerated,
{
}

/// The monitors connected now: those that `mstsc /l` lists, or, where it lists none, those that
/// the system enumerates.
pub fn get_current_monitors(
    captured: Result<Vec<LiveMonitor>, String>,
    enumerated: Result<Vec<LiveMonitor>, String>,
) -> (r: Result<Vec<LiveMonitor>, String>)
    ensures
        monitors_result(r) == current(monitors_result(captured), monitors_result(enumerated)),
        match captured {
            Ok(monitors) => if monitors@.len() > 0 {
                r == captured
            } else {
                r == enumerated
            },
            Err(_) => r == enumerated,
        },
{
    match captured {
        Ok(monitors) => if monitors.len() > 0 {
            Ok(monitors)
        } else {
            enumerated
        },
        Err(_) => enumerated,
    }
}

/// The monitor is the screen that the enumeration marks as primary.
pub open spec fn is_primary_screen(m: LiveMonitor, enumerated: Seq<LiveMonitor>) -> bool {
    exists|i: int|
        0 <= i < enumerated.len() && (#[trigger] enumerated[i]).is_primary && same_screen(
            m,
            enumerated[i],
        )
}

/// Some monitor is marked as primary.
pub open spec fn has_primary(monitors: Seq<LiveMonitor>) -> bool {
    exists|i: int| 0 <= i < monitors.len() && (#[trigger] monitors[i]).is_primary
}

/// The captured monitors with the mark of the primary one taken from the enumeration, where the
/// capture marks none itself.
pub open spec fn with_primary(
    captured: Seq<LiveMonitor>,
    enumerated: Seq<LiveMonitor>,
) -> Seq<LiveMonitor> {
    if has_primary(captured) {
        captured
    } else {
        captured.map_values(
            |m: LiveMonitor|
                LiveMonitor {
                    mstsc_id: m.mstsc_id,
                    left: m.left,
                    top: m.top,
                    width: m.width,
                    height: m.height,
                    is_primary: is_primary_screen(m, enumerated),
                },
        )
    }
}

fn primary_screen(m: &LiveMonitor, enumerated: &[LiveMonitor]) -> (r: bool)
    ensures
        r == is_primary_screen(*m, enumerated@),
{
    let n: usize = enumerated.len();
    let mut i: usize = 0;
    while i < n
        invariant
            n == enumerated@.len(),
            i <= n,
            forall|k: int|
                0 <= k < i ==> !((#[trigger] enumerated@[k]).is_primary && same_screen(
                    *m,
                    enumerated@[k],
                )),
        decreases n - i,
    {
        let e = enumerated[i];
        if e.is_primary && m.left == e.left && m.top == e.top && m.width == e.width && m.height
            == e.height {
            assert(enumerated@[i as int].is_primary);
            return true;
        }
        i = i + 1;
    }
    false
}

/// Marks the primary one among captured monitors, of which a listing may say nothing: the one with
/// the position and resolution of the enumerated primary monitor. A capture that marks one itself
/// stays as it is.
pub fn mark_primary(captured: Vec<LiveMonitor>, enumerated: &[LiveMonitor]) -> (r: Vec<
    LiveMonitor,
>)
    ensures
        r@ == with_primary(captured@, enumerated@),
        r@.len() == captured@.len(),
        (exists|i: int| 0 <= i < captured@.len() && (#[trigger] captured@[i]).is_primary) ==> r@
            == captured@,
        (forall|i: int| 0 <= i < captured@.len() ==> !(#[trigger] captured@[i]).is_primary)
            ==> forall|i: int|
            0 <= i < captured@.len() ==> {
                let m = #[trigger] captured@[i];
                &&& r@[i].mstsc_id == m.mstsc_id
                &&& r@[i].left == m.left && r@[i].top == m.top
                &&& r@[i].width == m.width && r@[i].height == m.height
                &&& r@[i].is_primary == exists|j: int|
                    0 <= j < enumerated@.len() && (#[trigger] enumerated@[j]).is_primary
                        && enumerated@[j].left == m.left && enumerated@[j].top == m.top
                        && enumerated@[j].width == m.width && enumerated@[j].height == m.height
            },
{
    let n: usize = captured.len();
    let mut marked: Vec<LiveMonitor> = Vec::new();
    let mut i: usize = 0;
    while i < n
        invariant
            n == captured@.len(),
            i <= n,
            marked@.len() == i,
            forall|k: int| 0 <= k < i ==> !(#[trigger] captured@[k]).is_primary,
            forall|k: int|
                0 <= k < i ==> (#[trigger] marked@[k]).is_primary == is_primary_screen(
                    captured@[k],
                    enumerated@,
                ) && same_screen(marked@[k], captured@[k]) && marked@[k].mstsc_id
                    == captured@[k].mstsc_id,
        decreases n - i,
    {
        let mut m = captured[i];
        if m.is_primary {
            assert(captured@[i as int].is_primary);
            return captured;
        }
        m.is_primary = primary_screen(&m, enumerated);
        marked.push(m);
        i = i + 1;
    }
    assert(marked@ =~= with_primary(captured@, enumerated@));
    assert forall|i: int| 0 <= i < captured@.len() implies marked@[i].is_primary == exists|j: int|
        0 <= j < enumerated@.len() && (#[trigger] enumerated@[j]).is_primary && enumerated@[j].left
            == (#[trigger] captured@[i]).left && enumerated@[j].top == captured@[i].top
            && enumerated@[j].width == captured@[i].width && enumerated@[j].height
            == captured@[i].height by {
        assert(marked@[i].is_primary == is_primary_screen(captured@[i], enumerated@));
    }
    marked
}

/// Turns what came of `mstsc /l` into monitors, of which the primary one is marked after the
/// enumeration if the listing does not mark it.
pub fn captured_monitors(
    capture: Capture,
    enumerated: &Result<Vec<LiveMonitor>, String>,
) -> (r: Result<Vec<LiveMonitor>, String>)
    ensures
        match (captured(capture), enumerated) {
            (Ok(monitors), Ok(known)) => monitors_result(r) == Ok::<Seq<LiveMonitor>, Seq<char>>(
                with_primary(monitors, known@),
            ),
            (found, _) => monitors_result(r) == found,
        },
        capture matches Capture::Dialog(text) ==> text@.len() > 0 && is_ascii_text(text@) ==> match r {
            Ok(monitors) => monitors@ == (match enumerated {
                Ok(known) => with_primary(ascii_listed_monitors(text@), known@),
                Err(_) => ascii_listed_monitors(text@),
            }),
            Err(_) => ascii_listed_monitors(text@).len() == 0,
        },
{
    match capture_mstsc_l(capture) {
        Ok(monitors) => match enumerated {
            Ok(known) => Ok(mark_primary(monitors, known.as_slice())),
            Err(_) => Ok(monitors),
        },
        Err(e) => Err(e),
    }
}

/// Marking the primary monitor changes no number, position or resolution.
pub proof fn marking_keeps_screens(captured: Seq<LiveMonitor>, enumerated: Seq<LiveMonitor>)
    ensures
        with_primary(captured, enumerated).len() == captured.len(),
        forall|i: int|
            0 <= i < captured.len() ==> {
                let marked = #[trigger] with_primary(captured, enumerated)[i];
                same_screen(marked, captured[i]) && marked.mstsc_id == captured[i].mstsc_id
            },
{
}

/// The monitors connected now, and whether their numbers are only those of the enumeration, which
/// `mstsc` may not share.
pub fn get_monitors_for_connect(
    captured: Result<Vec<LiveMonitor>, String>,
    enumerated: Result<Vec<LiveMonitor>, String>,
) -> (r: Result<(Vec<LiveMonitor>, bool), String>)
    ensures
        match r {
            Ok((monitors, fallback)) => {
                &&& Ok::<Seq<LiveMonitor>, Seq<char>>(monitors@) == current(
                    monitors_result(captured),
                    monitors_result(enumerated),
                )
                &&& fallback == !(captured is Ok && captured->Ok_0@.len() > 0)
            },
            Err(e) => Err::<Seq<LiveMonitor>, Seq<char>>(e@) == current(
                monitors_result(captured),
                monitors_result(enumerated),
            ),
        },
        match (captured, r) {
            (Ok(monitors), _) if monitors@.len() > 0 => r == Ok::<(Vec<LiveMonitor>, bool), String>(
                (monitors, false),
            ),
            (_, Ok((monitors, fallback))) => fallback && enumerated == Ok::<
                Vec<LiveMonitor>,
                String,
            >(monitors),
            (_, Err(e)) => enumerated == Err::<Vec<LiveMonitor>, String>(e),
        },
{
    let fallback = match &captured {
        Ok(monitors) => monitors.len() == 0,
        Err(_) => true,
    };
    match get_current_monitors(captured, enumerated) {
        Ok(monitors) => Ok((monitors, fallback)),
        Err(e) => Err(e),
    }
}

/// The distance of two coordinates.
pub open spec fn gap(a: i32, b: i32) -> int {
    if a < b {
        b - a
    } else {
        a - b
    }
}

/// The monitor has the resolution that the definition states.
pub open spec fn same_size(def: MonitorDef, m: LiveMonitor) -> bool {
    m.width == def.width && m.height == def.height
}

/// The monitor has the position that the definition states.
pub open spec fn same_place(def: MonitorDef, m: LiveMonitor) -> bool {
    m.left == def.left && m.top == def.top
}

/// How far the monitor is from the position that the definition states.
pub open spec fn distance(def: MonitorDef, m: LiveMonitor) -> int {
    gap(m.left, def.left) + gap(m.top, def.top)
}

/// Monitor `i` is the one that the definition means: of those with its resolution none is nearer
/// to its position, and none before it is as near.
pub open spec fn is_best(def: MonitorDef, live: Seq<LiveMonitor>, i: int) -> bool {
    &&& 0 <= i < live.len()
    &&& same_size(def, live[i])
    &&& forall|j: int|
        0 <= j < live.len() && same_size(def, #[trigger] live[j]) ==> distance(def, live[i])
            <= distance(def, live[j]) && (j < i ==> distance(def, live[i]) < distance(
            def,
            live[j],
        ))
}

/// The monitor that the definition means, if there is one.
pub open spec fn best_match(def: MonitorDef, live: Seq<LiveMonitor>) -> Option<LiveMonitor> {
    if exists|i: int| is_best(def, live, i) {
        Some(live[choose|i: int| is_best(def, live, i)])
    } else {
        None
    }
}

pub(crate) proof fn lemma_best_unique(def: MonitorDef, live: Seq<LiveMonitor>, i: int, j: int)
    requires
        is_best(def, live, i),
        is_best(def, live, j),
    ensures
        i == j,
{
    assert(same_size(def, live[i]) && same_size(def, live[j]));
}

pub(crate) proof fn lemma_best_is(def: MonitorDef, live: Seq<LiveMonitor>, i: int)
    requires
        is_best(def, live, i),
    ensures
        best_match(def, live) == Some(live[i]),
{
    lemma_best_unique(def, live, i, choose|j: int| is_best(def, live, j));
}

fn apart(a: i32, b: i32) -> (r: i64)
    ensures
        r == gap(a, b),
{
    if a < b {
        b as i64 - a as i64
    } else {
        a as i64 - b as i64
    }
}

fn distance_of(def: &MonitorDef, m: &LiveMonitor) -> (r: i64)
    ensures
        r == distance(*def, *m),
{
    apart(m.left, def.left) + apart(m.top, def.top)
}

/// Finds the monitor that a definition means: one with exactly its position and resolution, else
/// the nearest one with its resolution.
pub fn match_monitor<'a>(def: &MonitorDef, live: &'a [LiveMonitor]) -> (r: Option<
    &'a LiveMonitor,
>)
    ensures
        match r {
            Some(m) => best_match(*def, live@) == Some(*m),
            None => best_match(*def, live@) is None,
        },
        r is None <==> forall|i: int| 0 <= i < live@.len() ==> !same_size(*def, #[trigger] live@[i]),
{
    let n: usize = live.len();
    let mut best: Option<usize> = None;
    let mut i: usize = 0;
    while i < n
        invariant
            n == live@.len(),
            i <= n,
            match best {
                None => forall|j: int| 0 <= j < i ==> !same_size(*def, #[trigger] live@[j]),
                Some(b) => b < i && is_best(*def, live@.take(i as int), b as int),
            },
        decreases n - i,
    {
        let ghost seen = live@.take(i as int);
        let ghost next = live@.take(i + 1);
        let m = &live[i];
        if m.width == def.width && m.height == def.height {
            let nearer = match best {
                None => true,
                Some(b) => distance_of(def, m) < distance_of(def, &live[b]),
            };
            if nearer {
                best = Some(i);
            }
        }
        proof {
            match best {
                None => {},
                Some(b) => {
                    assert forall|j: int|
                        0 <= j < next.len() && same_size(*def, #[trigger] next[j]) implies distance(
                        *def,
                        next[b as int],
                    ) <= distance(*def, next[j]) && (j < b ==> distance(*def, next[b as int])
                        < distance(*def, next[j])) by {
                        if j < i {
                            assert(next[j] == live@[j]);
                            assert(seen[j] == live@[j]);
                        }
                    }
                    assert(is_best(*def, next, b as int));
                },
            }
        }
        i = i + 1;
    }
    assert(live@.take(n as int) =~= live@);
    match best {
        Some(b) => {
            proof {
                lemma_best_is(*def, live@, b as int);
            }
            assert(same_size(*def, live@[b as int]));
            Some(&live[b])
        },
        None => {
            assert forall|i: int| !is_best(*def, live@, i) by {}
            None
        },
    }
}

/// The monitor that a definition means is the first of those with its resolution to which no other
/// of these is nearer to its position, by the sum of the distances across and down; there is none
/// exactly where no monitor has the resolution. Numbers and marks of the monitors play no part.
pub proof fn match_is_the_first_nearest(def: MonitorDef, live: Seq<LiveMonitor>)
    ensures
        match best_match(def, live) {
            Some(m) => m.width == def.width && m.height == def.height && exists|i: int|
                {
                    &&& 0 <= i < live.len() && #[trigger] live[i] == m
                    &&& forall|j: int|
                        0 <= j < live.len() && (#[trigger] live[j]).width == def.width
                            && live[j].height == def.height ==> {
                            let here = abs(m.left - def.left) + abs(m.top - def.top);
                            let there = abs(live[j].left - def.left) + abs(live[j].top - def.top);
                            here <= there && (j < i ==> here < there)
                        }
                },
            None => forall|j: int|
                0 <= j < live.len() ==> !((#[trigger] live[j]).width == def.width && live[j].height
                    == def.height),
        },
{
    match best_match(def, live) {
        Some(m) => {
            let i = choose|i: int| is_best(def, live, i);
            assert(live[i] == m);
            assert forall|j: int|
                0 <= j < live.len() && (#[trigger] live[j]).width == def.width && live[j].height
                    == def.height implies {
                let here = abs(m.left - def.left) + abs(m.top - def.top);
                let there = abs(live[j].left - def.left) + abs(live[j].top - def.top);
                here <= there && (j < i ==> here < there)
            } by {
                assert(same_size(def, live[j]));
            }
        },
        None => {
            assert forall|j: int| 0 <= j < live.len() implies !((#[trigger] live[j]).width
                == def.width && live[j].height == def.height) by {
                if live[j].width == def.width && live[j].height == def.height {
                    let k = lemma_best_exists(def, live, j);
                }
            }
        },
    }
}

/// A monitor with exactly the position and the resolution of the definition is the one it means,
/// whatever its number: the match has that position and resolution.
pub proof fn exact_match_wins(def: MonitorDef, live: Seq<LiveMonitor>, i: int)
    requires
        0 <= i < live.len(),
        same_place(def, live[i]),
        same_size(def, live[i]),
    ensures
        best_match(def, live) is Some,
        same_place(def, best_match(def, live)->0),
        same_size(def, best_match(def, live)->0),
{
    let k = first_exact(def, live);
    lemma_first_exact(def, live, i);
    lemma_best_is(def, live, k);
}

spec fn is_exact(def: MonitorDef, live: Seq<LiveMonitor>, i: int) -> bool {
    0 <= i < live.len() && same_place(def, live[i]) && same_size(def, live[i])
}

spec fn first_exact(def: MonitorDef, live: Seq<LiveMonitor>) -> int {
    choose|k: int| is_exact(def, live, k) && forall|j: int| 0 <= j < k ==> !is_exact(def, live, j)
}

proof fn lemma_first_exact(def: MonitorDef, live: Seq<LiveMonitor>, i: int)
    requires
        is_exact(def, live, i),
    ensures
        is_exact(def, live, first_exact(def, live)),
        is_best(def, live, first_exact(def, live)),
    decreases i,
{
    if exists|j: int| 0 <= j < i && is_exact(def, live, j) {
        let j = choose|j: int| 0 <= j < i && is_exact(def, live, j);
        lemma_first_exact(def, live, j);
    } else {
        assert(is_exact(def, live, i) && forall|j: int| 0 <= j < i ==> !is_exact(def, live, j));
        let k = first_exact(def, live);
        assert forall|j: int|
            0 <= j < live.len() && same_size(def, #[trigger] live[j]) implies distance(def, live[k])
            <= distance(def, live[j]) && (j < k ==> distance(def, live[k]) < distance(
            def,
            live[j],
        )) by {
            if j < k {
                assert(!is_exact(def, live, j));
            }
        }
    }
}

/// Some monitor with the resolution of the definition suffices for a match.
pub proof fn same_size_suffices(def: MonitorDef, live: Seq<LiveMonitor>, i: int)
    requires
        0 <= i < live.len(),
        same_size(def, live[i]),
    ensures
        best_match(def, live) is Some,
        same_size(def, best_match(def, live)->0),
        live.contains(best_match(def, live)->0),
        distance(def, best_match(def, live)->0) <= distance(def, live[i]),
{
    let k = lemma_best_exists(def, live, i);
    lemma_best_is(def, live, k);
}

proof fn lemma_best_exists(def: MonitorDef, live: Seq<LiveMonitor>, i: int) -> (k: int)
    requires
        0 <= i < live.len(),
        same_size(def, live[i]),
    ensures
        is_best(def, live, k),
    decreases live.len(),
{
    let front = live.drop_last();
    let last = live.len() - 1;
    if exists|j: int| 0 <= j < last && same_size(def, #[trigger] live[j]) {
        let j = choose|j: int| 0 <= j < last && same_size(def, #[trigger] live[j]);
        assert(front[j] == live[j]);
        let b = lemma_best_exists(def, front, j);
        assert(front[b] == live[b]);
        let k = if same_size(def, live[last]) && distance(def, live[last]) < distance(
            def,
            live[b],
        ) {
            last
        } else {
            b
        };
        assert forall|j: int|
            0 <= j < live.len() && same_size(def, #[trigger] live[j]) implies distance(def, live[k])
            <= distance(def, live[j]) && (j < k ==> distance(def, live[k]) < distance(
            def,
            live[j],
        )) by {
            if j < last {
                assert(front[j] == live[j]);
            }
        }
        k
    } else {
        assert(i == last);
        last
    }
}

/// The two monitors have the same position and resolution.
pub open spec fn same_screen(a: LiveMonitor, b: LiveMonitor) -> bool {
    a.left == b.left && a.top == b.top && a.width == b.width && a.height == b.height
}

/// Some monitor in the list is the same screen.
pub open spec fn shown_in(m: LiveMonitor, live: Seq<LiveMonitor>) -> bool {
    exists|i: int| 0 <= i < live.len() && same_screen(m, #[trigger] live[i])
}

/// The two lists show the same screens, in whatever order and under whatever numbers.
pub open spec fn same_screens(a: Seq<LiveMonitor>, b: Seq<LiveMonitor>) -> bool {
    &&& forall|i: int| 0 <= i < a.len() ==> #[trigger] shown_in(a[i], b)
    &&& forall|i: int| 0 <= i < b.len() ==> #[trigger] shown_in(b[i], a)
}

/// The monitor has the resolution of the definition, and none with it is nearer.
pub open spec fn is_nearest(def: MonitorDef, live: Seq<LiveMonitor>, i: int) -> bool {
    &&& 0 <= i < live.len()
    &&& same_size(def, live[i])
    &&& forall|j: int|
        0 <= j < live.len() && same_size(def, #[trigger] live[j]) ==> distance(def, live[i])
            <= distance(def, live[j])
}

/// The two lists show the same screen at each index, under whatever numbers.
pub open spec fn same_screens_in_order(a: Seq<LiveMonitor>, b: Seq<LiveMonitor>) -> bool {
    &&& a.len() == b.len()
    &&& forall|i: int| 0 <= i < a.len() ==> same_screen(#[trigger] a[i], #[trigger] b[i])
}

/// A definition means the monitor at the same index, or none, whatever numbers the monitors have.
pub proof fn match_survives_new_numbers(
    def: MonitorDef,
    before: Seq<LiveMonitor>,
    after: Seq<LiveMonitor>,
)
    requires
        same_screens_in_order(before, after),
    ensures
        best_match(def, before) is Some <==> best_match(def, after) is Some,
        best_match(def, before) is Some ==> at_one_index(
            best_match(def, before)->0,
            best_match(def, after)->0,
            before,
            after,
        ),
{
    assert forall|i: int| is_best(def, before, i) implies is_best(def, after, i) by {
        lemma_best_in_order(def, before, after, i);
    }
    assert forall|i: int| is_best(def, after, i) implies is_best(def, before, i) by {
        assert(same_screens_in_order(after, before)) by {
            assert forall|k: int| 0 <= k < after.len() implies same_screen(
                #[trigger] after[k],
                #[trigger] before[k],
            ) by {
                assert(same_screen(before[k], after[k]));
            }
        }
        lemma_best_in_order(def, after, before, i);
    }
    if best_match(def, before) is Some {
        let i = choose|i: int| is_best(def, before, i);
        lemma_best_is(def, before, i);
        lemma_best_is(def, after, i);
        assert(before[i] == best_match(def, before)->0 && after[i] == best_match(def, after)->0);
    }
}

/// The two monitors stand in the two lists at one index.
pub open spec fn at_one_index(
    b: LiveMonitor,
    a: LiveMonitor,
    before: Seq<LiveMonitor>,
    after: Seq<LiveMonitor>,
) -> bool {
    exists|i: int|
        0 <= i < before.len() && i < after.len() && #[trigger] before[i] == b && after[i] == a
}

proof fn lemma_best_in_order(
    def: MonitorDef,
    before: Seq<LiveMonitor>,
    after: Seq<LiveMonitor>,
    i: int,
)
    requires
        same_screens_in_order(before, after),
        is_best(def, before, i),
    ensures
        is_best(def, after, i),
{
    assert(same_screen(before[i], after[i]));
    assert forall|j: int|
        0 <= j < after.len() && same_size(def, #[trigger] after[j]) implies distance(def, after[i])
        <= distance(def, after[j]) && (j < i ==> distance(def, after[i]) < distance(
        def,
        after[j],
    )) by {
        assert(same_screen(before[j], after[j]));
        assert(same_size(def, before[j]));
    }
}

/// No two screens are equally near to the definition and nearer than all others.
pub open spec fn no_tie(def: MonitorDef, live: Seq<LiveMonitor>) -> bool {
    forall|i: int, j: int| #[trigger]
        is_nearest(def, live, i) && #[trigger] is_nearest(def, live, j) ==> same_screen(
            live[i],
            live[j],
        )
}

/// A definition means the same screen whatever order the monitors come in and whatever numbers
/// they have.
pub proof fn match_survives_renumbering(
    def: MonitorDef,
    before: Seq<LiveMonitor>,
    after: Seq<LiveMonitor>,
)
    requires
        same_screens(before, after),
        no_tie(def, before),
    ensures
        best_match(def, before) is Some <==> best_match(def, after) is Some,
        best_match(def, before) is Some ==> same_screen(
            best_match(def, before)->0,
            best_match(def, after)->0,
        ),
{
    if best_match(def, before) is Some {
        let b = choose|i: int| is_best(def, before, i);
        assert(shown_in(before[b], after));
        let a = choose|j: int| 0 <= j < after.len() && same_screen(before[b], #[trigger] after[j]);
        lemma_match_agrees(def, before, after, b, a);
    }
    if best_match(def, after) is Some {
        let a = choose|j: int| is_best(def, after, j);
        assert(shown_in(after[a], before));
        let b = choose|i: int| 0 <= i < before.len() && same_screen(after[a], #[trigger] before[i]);
        assert(same_size(def, before[b]));
        lemma_best_exists(def, before, b);
    }
}

proof fn lemma_match_agrees(
    def: MonitorDef,
    before: Seq<LiveMonitor>,
    after: Seq<LiveMonitor>,
    b: int,
    a: int,
)
    requires
        same_screens(before, after),
        no_tie(def, before),
        is_best(def, before, b),
        0 <= a < after.len(),
        same_screen(before[b], after[a]),
    ensures
        best_match(def, before) == Some(before[b]),
        best_match(def, after) is Some,
        same_screen(before[b], best_match(def, after)->0),
{
    lemma_best_is(def, before, b);
    let best = lemma_best_exists(def, after, a);
    lemma_best_is(def, after, best);
    assert(shown_in(after[best], before));
    let c = choose|i: int| 0 <= i < before.len() && same_screen(after[best], #[trigger] before[i]);
    assert(same_size(def, before[c]));
    assert(same_size(def, after[a]));
    assert(distance(def, after[best]) <= distance(def, after[a]));
    assert(is_nearest(def, before, b));
    assert(is_nearest(def, before, c));
}

} // verus!
