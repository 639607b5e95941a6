//! Remote desktop sessions that are open, found by their windows.
use vstd::prelude::*;
use vstd::slice::slice_subrange;

use crate::casing::{ascii_lowercased, is_ascii_text, lowercase, lowercased};
use crate::text::{
    chars_of, contains, find, find_is_the_first_place, has, has_char, is_white_space,
    lemma_trim_nothing, occurs_at, position_of, same_text, string_of, trim, trimmed,
};

verus! {

/// A top-level window.
#[derive(Debug, Clone)]
pub struct WindowInfo {
    /// The process that it belongs to.
    pub pid: u32,
    pub visible: bool,
    pub class_name: String,
    pub title: String,
    pub left: i32,
    pub top: i32,
    pub right: i32,
    pub bottom: i32,
}

/// A control inside a dialog.
#[derive(Debug, Clone)]
pub struct ControlInfo {
    pub class_name: String,
    pub text: String,
}

/// An open session, found by the title of its window.
#[derive(Debug, Clone)]
pub struct ActiveSession {
    pub window_title: String,
    pub hostname: String,
}

/// The class is that of a session's main window, or of a remote application's window.
pub open spec fn is_mstsc_class(class_name: Seq<char>) -> bool {
    class_name == "TscShellContainerClass"@ || class_name == "RAIL_WINDOW"@
}

/// The host that a window title such as `host - Remote Desktop Connection` names: the trimmed text
/// before the first ` - `.
pub open spec fn title_host(title: Seq<char>) -> Seq<char> {
    trimmed(title.take(find(title, " - "@)))
}

/// Title and host of the session that a window shows, if it shows one.
pub open spec fn window_session(w: WindowInfo) -> Option<(Seq<char>, Seq<char>)> {
    if is_mstsc_class(w.class_name@) && w.visible && title_host(w.title@).len() > 0 {
        Some((w.title@, title_host(w.title@)))
    } else {
        None
    }
}

/// Title and host of each session that some windows show, in the order of the windows.
pub open spec fn window_sessions(windows: Seq<WindowInfo>) -> Seq<(Seq<char>, Seq<char>)> {
    windows.filter_map(|w: WindowInfo| window_session(w))
}

/// Title and host of each session in a list.
pub open spec fn session_texts(sessions: Seq<ActiveSession>) -> Seq<(Seq<char>, Seq<char>)> {
    sessions.map_values(|s: ActiveSession| (s.window_title@, s.hostname@))
}

/// Tells whether a class is that of a session's window.
pub fn mstsc_class(class_name: &str) -> (r: bool)
    ensures
        r == is_mstsc_class(class_name@),
        r == (class_name@ == "TscShellContainerClass"@ || class_name@ == "RAIL_WINDOW"@),
{
    same_text(class_name, "TscShellContainerClass") || same_text(class_name, "RAIL_WINDOW")
}

/// The host that a window title names.
pub fn host_in_title(title: &str) -> (r: String)
    ensures
        r@ == title_host(title@),
{
    let chars = chars_of(title);
    let i: usize = position_of(chars.as_slice(), chars_of(" - ").as_slice());
    let front = slice_subrange(chars.as_slice(), 0, i);
    assert(front@ == title@.take(i as int));
    string_of(trim(front))
}

/// The sessions that some windows show.
pub fn get_active_sessions(windows: &[WindowInfo]) -> (r: Vec<ActiveSession>)
    ensures
        session_texts(r@) == window_sessions(windows@),
{
    let ghost read = |w: WindowInfo| window_session(w);
    let mut sessions: Vec<ActiveSession> = Vec::new();
    let n: usize = windows.len();
    let mut i: usize = 0;
    assert(windows@.take(0) =~= seq![]);
    assert(session_texts(sessions@) =~= seq![]);
    while i < n
        invariant
            n == windows@.len(),
            i <= n,
            read == (|w: WindowInfo| window_session(w)),
            session_texts(sessions@) == windows@.take(i as int).filter_map(read),
        decreases n - i,
    {
        proof {
            windows@.lemma_filter_map_take_succ(read, i as int);
        }
        let w = &windows[i];
        let ghost before = sessions@;
        if mstsc_class(w.class_name.as_str()) && w.visible {
            let hostname = host_in_title(w.title.as_str());
            if !hostname.as_str().is_empty() {
                let ghost entry = (w.title@, hostname@);
                sessions.push(ActiveSession { window_title: w.title.clone(), hostname });
                assert(session_texts(sessions@) =~= session_texts(before).push(entry));
            }
        }
        i = i + 1;
        assert(session_texts(sessions@) =~= windows@.take(i as int).filter_map(read));
    }
    assert(windows@.take(n as int) =~= windows@);
    sessions
}

/// One of the two texts holds the other.
pub open spec fn overlap(a: Seq<char>, b: Seq<char>) -> bool {
    contains(a, b) || contains(b, a)
}

/// Some session's host and `host` hold one another when both are in lower case.
pub open spec fn host_has_session(
    host: Seq<char>,
    sessions: Seq<(Seq<char>, Seq<char>)>,
) -> bool {
    exists|i: int|
        0 <= i < sessions.len() && overlap(
            lowercased((#[trigger] sessions[i]).1),
            lowercased(host),
        )
}

/// Some session's host and `host` hold one another when the ASCII capitals in both are made small.
pub open spec fn ascii_host_has_session(
    host: Seq<char>,
    sessions: Seq<(Seq<char>, Seq<char>)>,
) -> bool {
    exists|i: int|
        0 <= i < sessions.len() && overlap(
            ascii_lowercased((#[trigger] sessions[i]).1),
            ascii_lowercased(host),
        )
}

/// The hosts of all sessions are ASCII texts.
pub open spec fn ascii_hosts(sessions: Seq<(Seq<char>, Seq<char>)>) -> bool {
    forall|i: int| 0 <= i < sessions.len() ==> is_ascii_text((#[trigger] sessions[i]).1)
}

/// Tells whether one of two texts holds the other.
pub fn texts_overlap(a: &str, b: &str) -> (r: bool)
    ensures
        r == overlap(a@, b@),
        r == (contains(a@, b@) || contains(b@, a@)),
{
    let a = chars_of(a);
    let b = chars_of(b);
    has(a.as_slice(), b.as_slice()) || has(b.as_slice(), a.as_slice())
}

/// Tells whether a host appears to have an open session: whether its name and that of a session's
/// host hold one another, regardless of case.
pub fn is_host_connected(host: &str, sessions: &[ActiveSession]) -> (r: bool)
    ensures
        r == host_has_session(host@, session_texts(sessions@)),
        is_ascii_text(host@) && ascii_hosts(session_texts(sessions@)) ==> r
            == ascii_host_has_session(host@, session_texts(sessions@)),
        host@.len() == 0 ==> r == (sessions@.len() > 0),
        r == exists|i: int|
            0 <= i < sessions@.len() && (contains(
                lowercased((#[trigger] sessions@[i]).hostname@),
                lowercased(host@),
            ) || contains(lowercased(host@), lowercased(sessions@[i].hostname@))),
{
    let host_lower = lowercase(host);
    proof {
        if host@.len() == 0 {
            assert(host_lower@.len() == 0);
            empty_host_overlaps(host@, session_texts(sessions@));
        }
    }
    let ghost all = session_texts(sessions@);
    let n: usize = sessions.len();
    let mut i: usize = 0;
    while i < n
        invariant
            n == sessions@.len(),
            i <= n,
            all == session_texts(sessions@),
            host_lower@ == lowercased(host@),
            is_ascii_text(host@) ==> host_lower@ == ascii_lowercased(host@),
            forall|k: int|
                0 <= k < i ==> !overlap(lowercased((#[trigger] all[k]).1), lowercased(host@)),
            is_ascii_text(host@) && ascii_hosts(all) ==> forall|k: int|
                0 <= k < i ==> !overlap(
                    ascii_lowercased((#[trigger] all[k]).1),
                    ascii_lowercased(host@),
                ),
        decreases n - i,
    {
        let session_lower = lowercase(sessions[i].hostname.as_str());
        assert(all[i as int].1 == sessions@[i as int].hostname@);
        if texts_overlap(session_lower.as_str(), host_lower.as_str()) {
            assert(sessions@[i as int].hostname@ == all[i as int].1);
            return true;
        }
        i = i + 1;
    }
    proof {
        assert forall|k: int| 0 <= k < sessions@.len() implies !(contains(
            lowercased((#[trigger] sessions@[k]).hostname@),
            lowercased(host@),
        ) || contains(lowercased(host@), lowercased(sessions@[k].hostname@))) by {
            assert(all[k].1 == sessions@[k].hostname@);
        }
    }
    false
}

/// A window shows a session exactly where it is visible, is of one of the two classes and has a
/// title that names a host; the session has that title and that host. Windows are taken in their
/// order, each for itself.
pub proof fn each_window_is_taken_for_itself(windows: Seq<WindowInfo>, w: WindowInfo)
    ensures
        window_sessions(seq![]) == Seq::<(Seq<char>, Seq<char>)>::empty(),
        window_sessions(windows.push(w)) == window_sessions(windows) + (if w.visible && (
        w.class_name@ == "TscShellContainerClass"@ || w.class_name@ == "RAIL_WINDOW"@)
            && title_host(w.title@).len() > 0 {
            seq![(w.title@, title_host(w.title@))]
        } else {
            seq![]
        }),
{
    let read = |w: WindowInfo| window_session(w);
    assert(windows.push(w).drop_last() =~= windows);
    assert(windows.push(w).last() == w);
    assert(window_sessions(windows.push(w)) =~= window_sessions(windows) + (match read(w) {
        Some(s) => seq![s],
        None => seq![],
    }));
}

/// The host in a title is what stands before the first ` - `, or the whole title where there is
/// none, without white space at either end.
pub proof fn title_host_is_before_the_separator(front: Seq<char>, rest: Seq<char>)
    ensures
        (forall|k: int|
            0 <= k < front.len() ==> !" - "@.is_prefix_of(
                #[trigger] (front + " - "@ + rest).skip(k),
            )) ==> title_host(front + " - "@ + rest) == trimmed(front),
        (forall|k: int| 0 <= k < front.len() ==> !" - "@.is_prefix_of(#[trigger] front.skip(k)))
            ==> title_host(front) == trimmed(front),
{
    reveal_strlit(" - ");
    let title = front + " - "@ + rest;
    let n = front.len() as int;
    find_is_the_first_place(title, " - "@);
    find_is_the_first_place(front, " - "@);
    let i = find(title, " - "@);
    if forall|k: int| 0 <= k < n ==> !" - "@.is_prefix_of(#[trigger] title.skip(k)) {
        assert(" - "@.is_prefix_of(title.skip(n))) by {
            assert(title.skip(n) =~= " - "@ + rest);
            assert(" - "@ =~= (" - "@ + rest).subrange(0, 3));
        }
        if i < n {
            assert(!" - "@.is_prefix_of(title.skip(i)));
        }
        if n < i {
            assert(!" - "@.is_prefix_of(title.skip(n)));
        }
        assert(title.take(n) =~= front);
    }
    let j = find(front, " - "@);
    if forall|k: int| 0 <= k < n ==> !" - "@.is_prefix_of(#[trigger] front.skip(k)) {
        if j < n {
            assert(!" - "@.is_prefix_of(front.skip(j)));
        }
        assert(front.take(n) =~= front);
    }
}

/// A list of sessions stands for their titles and hosts, one for one.
pub proof fn sessions_are_one_for_one(sessions: Seq<ActiveSession>)
    ensures
        session_texts(sessions).len() == sessions.len(),
        forall|i: int|
            0 <= i < sessions.len() ==> #[trigger] session_texts(sessions)[i] == (
                sessions[i].window_title@,
                sessions[i].hostname@,
            ),
{
}

/// Whether a host is connected, for ASCII names: whether its name and that of some session's host
/// hold one another once the capitals in both are made small.
pub proof fn ascii_hosts_match_by_their_names(
    host: Seq<char>,
    sessions: Seq<(Seq<char>, Seq<char>)>,
)
    ensures
        ascii_host_has_session(host, sessions) <==> exists|i: int|
            0 <= i < sessions.len() && (contains(
                ascii_lowercased((#[trigger] sessions[i]).1),
                ascii_lowercased(host),
            ) || contains(ascii_lowercased(host), ascii_lowercased(sessions[i].1))),
        host_has_session(host, sessions) <==> exists|i: int|
            0 <= i < sessions.len() && (contains(
                lowercased((#[trigger] sessions[i]).1),
                lowercased(host),
            ) || contains(lowercased(host), lowercased(sessions[i].1))),
{
    if ascii_host_has_session(host, sessions) {
        let i = choose|i: int|
            0 <= i < sessions.len() && overlap(
                ascii_lowercased((#[trigger] sessions[i]).1),
                ascii_lowercased(host),
            );
        assert(sessions[i].1 == sessions[i].1);
    }
    if host_has_session(host, sessions) {
        let i = choose|i: int|
            0 <= i < sessions.len() && overlap(
                lowercased((#[trigger] sessions[i]).1),
                lowercased(host),
            );
        assert(sessions[i].1 == sessions[i].1);
    }
}

/// Hosts whose names differ only in case are connected alike.
pub proof fn case_does_not_matter(
    a: Seq<char>,
    b: Seq<char>,
    sessions: Seq<(Seq<char>, Seq<char>)>,
)
    requires
        lowercased(a) == lowercased(b),
    ensures
        host_has_session(a, sessions) == host_has_session(b, sessions),
{
}

/// Where a session is open, a host with an empty name counts as connected.
pub proof fn empty_host_overlaps(
    host: Seq<char>,
    sessions: Seq<(Seq<char>, Seq<char>)>,
)
    requires
        lowercased(host).len() == 0,
    ensures
        host_has_session(host, sessions) == (sessions.len() > 0),
{
    if sessions.len() > 0 {
        let name = lowercased(sessions[0].1);
        assert(occurs_at(name, lowercased(host), 0));
    }
}

/// The title `host - ...` names the host, for a host name without white space.
pub proof fn title_names_host(host: Seq<char>, rest: Seq<char>)
    requires
        forall|k: int| 0 <= k < host.len() ==> !is_white_space(#[trigger] host[k]),
    ensures
        title_host(host + " - "@ + rest) == host,
        title_host(host) == host,
{
    reveal_strlit(" - ");
    let title = host + " - "@ + rest;
    lemma_find_separator(host, rest);
    assert(title.take(host.len() as int) =~= host);
    assert(host.len() > 0 ==> !is_white_space(host[0]) && !is_white_space(host[host.len() - 1]));
    lemma_trim_nothing(host);
    lemma_find_nothing(host);
    assert(host.take(host.len() as int) =~= host);
}

proof fn lemma_find_nothing(s: Seq<char>)
    requires
        forall|k: int| 0 <= k < s.len() ==> !is_white_space(#[trigger] s[k]),
    ensures
        find(s, " - "@) == s.len(),
    decreases s.len(),
{
    reveal_strlit(" - ");
    if s.len() > 0 {
        assert(!is_white_space(s[0]));
        assert(is_white_space(" - "@[0]));
        if " - "@.is_prefix_of(s) {
            assert(s[0] == " - "@[0]);
        }
        let rest = s.skip(1);
        assert forall|k: int| 0 <= k < rest.len() implies !is_white_space(#[trigger] rest[k]) by {
            assert(rest[k] == s[k + 1]);
        }
        lemma_find_nothing(rest);
    }
}

proof fn lemma_find_separator(host: Seq<char>, rest: Seq<char>)
    requires
        forall|k: int| 0 <= k < host.len() ==> !is_white_space(#[trigger] host[k]),
    ensures
        find(host + " - "@ + rest, " - "@) == host.len(),
    decreases host.len(),
{
    reveal_strlit(" - ");
    let title = host + " - "@ + rest;
    if host.len() > 0 {
        assert(!is_white_space(host[0]));
        assert(title[0] == host[0]);
        assert(is_white_space(" - "@[0]));
        if " - "@.is_prefix_of(title) {
            assert(title[0] == " - "@[0]);
        }
        let tail = host.skip(1);
        assert forall|k: int| 0 <= k < tail.len() implies !is_white_space(#[trigger] tail[k]) by {
            assert(tail[k] == host[k + 1]);
        }
        lemma_find_separator(tail, rest);
        assert(title.skip(1) =~= tail + " - "@ + rest);
    } else {
        assert(" - "@.is_prefix_of(title));
    }
}

/// A host counts as connected while a visible session window has it in its title.
pub proof fn open_session_is_noticed(
    windows: Seq<WindowInfo>,
    i: int,
    host: Seq<char>,
    rest: Seq<char>,
)
    requires
        0 <= i < windows.len(),
        is_mstsc_class(windows[i].class_name@),
        windows[i].visible,
        windows[i].title@ == host + " - "@ + rest,
        host.len() > 0,
        forall|k: int| 0 <= k < host.len() ==> !is_white_space(#[trigger] host[k]),
    ensures
        host_has_session(host, window_sessions(windows)),
{
    let read = |w: WindowInfo| window_session(w);
    title_names_host(host, rest);
    let entry = (windows[i].title@, host);
    assert(read(windows[i]) == Some(entry));
    lemma_filter_map_has(windows, i);
    let all = window_sessions(windows);
    let k = choose|k: int| 0 <= k < all.len() && all[k] == entry;
    let name = lowercased(host);
    assert(name.is_prefix_of(name.skip(0)));
    assert(occurs_at(name, name, 0));
    assert(overlap(lowercased(all[k].1), name));
}

/// A host with an ASCII name counts as connected while a visible session window has it in its
/// title, however each of the two writes its letters.
pub proof fn open_session_is_noticed_in_any_case(
    windows: Seq<WindowInfo>,
    i: int,
    shown: Seq<char>,
    rest: Seq<char>,
    host: Seq<char>,
)
    requires
        0 <= i < windows.len(),
        is_mstsc_class(windows[i].class_name@),
        windows[i].visible,
        windows[i].title@ == shown + " - "@ + rest,
        shown.len() > 0,
        forall|k: int| 0 <= k < shown.len() ==> !is_white_space(#[trigger] shown[k]),
        ascii_lowercased(host) == ascii_lowercased(shown),
    ensures
        ascii_host_has_session(host, window_sessions(windows)),
{
    let read = |w: WindowInfo| window_session(w);
    title_names_host(shown, rest);
    let entry = (windows[i].title@, shown);
    assert(read(windows[i]) == Some(entry));
    lemma_filter_map_has(windows, i);
    let all = window_sessions(windows);
    let k = choose|k: int| 0 <= k < all.len() && all[k] == entry;
    let name = ascii_lowercased(host);
    assert(name.is_prefix_of(name.skip(0)));
    assert(occurs_at(name, name, 0));
    assert(overlap(ascii_lowercased(all[k].1), name));
}

proof fn lemma_filter_map_has(windows: Seq<WindowInfo>, i: int)
    requires
        0 <= i < windows.len(),
        window_session(windows[i]) is Some,
    ensures
        window_sessions(windows).contains(window_session(windows[i])->0),
    decreases windows.len(),
{
    let read = |w: WindowInfo| window_session(w);
    let front = windows.drop_last();
    let entry = window_session(windows[i])->0;
    let all = window_sessions(windows);
    if i < front.len() {
        assert(front[i] == windows[i]);
        lemma_filter_map_has(front, i);
        let inner = window_sessions(front);
        let k = choose|k: int| 0 <= k < inner.len() && inner[k] == entry;
        assert(all[k] == entry);
    } else {
        assert(all[all.len() - 1] == entry);
    }
}

/// The window is the dialog of a process.
pub open spec fn is_dialog_of(w: WindowInfo, pid: u32) -> bool {
    w.pid == pid && w.visible && w.class_name@ == "#32770"@
}

/// Finds the first window that is a dialog of the process `target_pid`.
pub fn find_dialog_by_pid(windows: &[WindowInfo], target_pid: u32) -> (r: Option<usize>)
    ensures
        match r {
            Some(i) => i < windows@.len() && is_dialog_of(windows@[i as int], target_pid)
                && forall|j: int| 0 <= j < i ==> !is_dialog_of(#[trigger] windows@[j], target_pid),
            None => forall|j: int|
                0 <= j < windows@.len() ==> !is_dialog_of(#[trigger] windows@[j], target_pid),
        },
        match r {
            Some(i) => {
                &&& i < windows@.len()
                &&& windows@[i as int].pid == target_pid && windows@[i as int].visible
                &&& windows@[i as int].class_name@ == "#32770"@
                &&& forall|j: int|
                    0 <= j < i ==> !((#[trigger] windows@[j]).pid == target_pid
                        && windows@[j].visible && windows@[j].class_name@ == "#32770"@)
            },
            None => forall|j: int|
                0 <= j < windows@.len() ==> !((#[trigger] windows@[j]).pid == target_pid
                    && windows@[j].visible && windows@[j].class_name@ == "#32770"@),
        },
{
    let n: usize = windows.len();
    let mut i: usize = 0;
    while i < n
        invariant
            n == windows@.len(),
            i <= n,
            forall|j: int| 0 <= j < i ==> !is_dialog_of(#[trigger] windows@[j], target_pid),
        decreases n - i,
    {
        let w = &windows[i];
        if w.pid == target_pid && w.visible && same_text(w.class_name.as_str(), "#32770") {
            return Some(i);
        }
        i = i + 1;
    }
    None
}

/// How many milliseconds after the start of a process its dialog is waited for.
pub const DIALOG_WAIT: u64 = 3000;

/// What to do after one look for the dialog of a process.
#[derive(Debug, Clone, Copy, PartialEq, Eq, Structural)]
pub enum DialogLook {
    /// The window with this index is the dialog.
    Found(usize),
    /// Look again.
    Again,
    /// No dialog came in time.
    GiveUp,
}

/// No window is a dialog of the process.
pub open spec fn no_dialog_of(windows: Seq<WindowInfo>, pid: u32) -> bool {
    forall|j: int| 0 <= j < windows.len() ==> !is_dialog_of(#[trigger] windows[j], pid)
}

/// Decides what to do after a look at the windows, `elapsed` milliseconds after the process
/// `target_pid` was started.
pub fn look_for_dialog(windows: &[WindowInfo], target_pid: u32, elapsed: u64) -> (r: DialogLook)
    ensures
        match r {
            DialogLook::Found(i) => i < windows@.len() && is_dialog_of(
                windows@[i as int],
                target_pid,
            ) && no_dialog_of(windows@.take(i as int), target_pid),
            DialogLook::Again => no_dialog_of(windows@, target_pid) && elapsed < DIALOG_WAIT,
            DialogLook::GiveUp => no_dialog_of(windows@, target_pid) && elapsed >= DIALOG_WAIT,
        },
        match r {
            DialogLook::Found(i) => {
                &&& i < windows@.len()
                &&& windows@[i as int].pid == target_pid && windows@[i as int].visible
                &&& windows@[i as int].class_name@ == "#32770"@
                &&& forall|j: int|
                    0 <= j < i ==> !((#[trigger] windows@[j]).pid == target_pid
                        && windows@[j].visible && windows@[j].class_name@ == "#32770"@)
            },
            _ => {
                &&& forall|j: int|
                    0 <= j < windows@.len() ==> !((#[trigger] windows@[j]).pid == target_pid
                        && windows@[j].visible && windows@[j].class_name@ == "#32770"@)
                &&& r is Again <==> elapsed < 3000
            },
        },
{
    match find_dialog_by_pid(windows, target_pid) {
        Some(i) => DialogLook::Found(i),
        None => if elapsed < DIALOG_WAIT {
            DialogLook::Again
        } else {
            DialogLook::GiveUp
        },
    }
}

/// The length of a text in UTF-16 code units.
pub open spec fn utf16_len(s: Seq<char>) -> nat
    decreases s.len(),
{
    if s.len() == 0 {
        0
    } else {
        utf16_len(s.drop_last()) + if (s.last() as u32) >= 0x10000 {
            2nat
        } else {
            1nat
        }
    }
}

/// The control is a label that may hold a monitor listing: longer than ten code units, with a
/// semicolon and an opening parenthesis.
pub open spec fn is_listing_label(c: ControlInfo) -> bool {
    &&& c.class_name@ == "Static"@
    &&& utf16_len(c.text@) > 10
    &&& c.text@.contains(';')
    &&& c.text@.contains('(')
}

/// Tells whether a text is longer than ten UTF-16 code units.
fn longer_than_ten(s: &[char]) -> (r: bool)
    ensures
        r == (utf16_len(s@) > 10),
{
    let n: usize = s.len();
    let mut units: u64 = 0;
    let mut i: usize = 0;
    assert(s@.take(0) =~= seq![]);
    while i < n
        invariant
            n == s@.len(),
            i <= n,
            units == utf16_len(s@.take(i as int)),
            units <= 10,
        decreases n - i,
    {
        assert(s@.take(i + 1).drop_last() =~= s@.take(i as int));
        units = units + if (s[i] as u32) >= 0x10000 {
            2
        } else {
            1
        };
        i = i + 1;
        if units > 10 {
            proof {
                lemma_utf16_len_grows(s@, i as int);
            }
            return true;
        }
    }
    assert(s@.take(n as int) =~= s@);
    false
}

proof fn lemma_utf16_len_grows(s: Seq<char>, i: int)
    requires
        0 <= i <= s.len(),
    ensures
        utf16_len(s.take(i)) <= utf16_len(s),
    decreases s.len() - i,
{
    if i < s.len() {
        assert(s.take(i + 1).drop_last() =~= s.take(i));
        lemma_utf16_len_grows(s, i + 1);
    } else {
        assert(s.take(i) =~= s);
    }
}

/// The text of the first label that may hold a monitor listing, empty where there is none.
pub open spec fn listing_text(controls: Seq<ControlInfo>) -> Seq<char>
    decreases controls.len(),
{
    if controls.len() == 0 {
        seq![]
    } else if is_listing_label(controls[0]) {
        controls[0].text@
    } else {
        listing_text(controls.skip(1))
    }
}

/// A character counts as one UTF-16 code unit, or as two beyond 0xffff.
pub proof fn utf16_len_counts_units(s: Seq<char>, c: char)
    ensures
        utf16_len(seq![]) == 0,
        utf16_len(s.push(c)) == utf16_len(s) + (if (c as u32) < 0x10000 {
            1int
        } else {
            2
        }),
{
    assert(s.push(c).drop_last() =~= s);
}

/// The text is that of the first control of the class `Static` whose text is longer than ten code
/// units and holds a `;` and a `(`; it is empty where there is no such control.
pub proof fn first_listing_label_is_taken(
    before: Seq<ControlInfo>,
    c: ControlInfo,
    after: Seq<ControlInfo>,
)
    requires
        forall|i: int|
            0 <= i < before.len() ==> !((#[trigger] before[i]).class_name@ == "Static"@
                && utf16_len(before[i].text@) > 10 && before[i].text@.contains(';')
                && before[i].text@.contains('(')),
    ensures
        listing_text(before) == Seq::<char>::empty(),
        c.class_name@ == "Static"@ && utf16_len(c.text@) > 10 && c.text@.contains(';')
            && c.text@.contains('(') ==> listing_text(before + seq![c] + after) == c.text@,
    decreases before.len(),
{
    let all = before + seq![c] + after;
    if before.len() == 0 {
        assert(all[0] == c);
    } else {
        let rest = before.skip(1);
        assert forall|i: int| 0 <= i < rest.len() implies !((#[trigger] rest[i]).class_name@
            == "Static"@ && utf16_len(rest[i].text@) > 10 && rest[i].text@.contains(';')
            && rest[i].text@.contains('(')) by {
            assert(rest[i] == before[i + 1]);
        }
        first_listing_label_is_taken(rest, c, after);
        assert(all.skip(1) =~= rest + seq![c] + after);
        assert(all[0] == before[0]);
        assert(!is_listing_label(before[0]));
    }
}

/// Reads the monitor listing out of the controls of the `mstsc /l` dialog.
pub fn read_dialog_static_text(controls: &[ControlInfo]) -> (r: String)
    ensures
        r@ == listing_text(controls@),
{
    let n: usize = controls.len();
    let mut i: usize = 0;
    assert(controls@.skip(0) == controls@);
    while i < n
        invariant
            n == controls@.len(),
            i <= n,
            listing_text(controls@) == listing_text(controls@.skip(i as int)),
        decreases n - i,
    {
        let c = &controls[i];
        assert(controls@.skip(i as int)[0] == *c);
        assert(controls@.skip(i as int).skip(1) == controls@.skip(i + 1));
        if same_text(c.class_name.as_str(), "Static") {
            let text = chars_of(c.text.as_str());
            if longer_than_ten(text.as_slice()) && has_char(text.as_slice(), ';') && has_char(
                text.as_slice(),
                '(',
            ) {
                return c.text.clone();
            }
        }
        i = i + 1;
    }
    String::new()
}

} // verus!
