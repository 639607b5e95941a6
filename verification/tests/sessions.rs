use rdp_anchor::relocate::{
    enum_mstsc_hwnds, find_connection_bar, find_new_window, mouse_drag_via, poll_for_window,
    relocate_mstsc_to_monitor, to_absolute, InputStep, Key, Poll, VirtualScreen,
};
use rdp_anchor::session::{
    find_dialog_by_pid, get_active_sessions, host_in_title, is_host_connected, look_for_dialog,
    read_dialog_static_text, texts_overlap, ActiveSession, ControlInfo, DialogLook, WindowInfo,
};

fn window(pid: u32, class: &str, title: &str) -> WindowInfo {
    WindowInfo {
        pid,
        visible: true,
        class_name: class.to_string(),
        title: title.to_string(),
        left: 0,
        top: 0,
        right: 0,
        bottom: 0,
    }
}

fn bar(pid: u32, class: &str, width: i32, height: i32) -> WindowInfo {
    WindowInfo { left: -5, top: 7, right: width - 5, bottom: height + 7, ..window(pid, class, "") }
}

fn session(host: &str) -> ActiveSession {
    ActiveSession { window_title: String::new(), hostname: host.to_string() }
}

#[test]
fn sessions_are_found_by_class_and_title() {
    let hidden = WindowInfo { visible: false, ..window(1, "RAIL_WINDOW", "h - x") };
    let windows = vec![
        window(1, "Notepad", "a - Remote Desktop Connection"),
        window(2, "TscShellContainerClass", "myhost - Remote Desktop Connection"),
        hidden,
        window(3, "RAIL_WINDOW", " app - b - c"),
        window(4, "TscShellContainerClass", ""),
        window(5, "TscShellContainerClass", " - Remote Desktop Connection"),
        window(6, "TscShellContainerClass", "only"),
    ];
    let found: Vec<(String, String)> = get_active_sessions(&windows)
        .into_iter()
        .map(|s| (s.window_title, s.hostname))
        .collect();
    let pair = |a: &str, b: &str| (a.to_string(), b.to_string());
    assert_eq!(
        found,
        vec![
            pair("myhost - Remote Desktop Connection", "myhost"),
            pair(" app - b - c", "app"),
            pair("only", "only"),
        ]
    );
}

#[test]
fn hosts_in_titles() {
    assert_eq!(host_in_title("myhost - \u{30ea}\u{30e2}\u{30fc}\u{30c8}"), "myhost");
    assert_eq!(host_in_title("a-b - c"), "a-b");
    assert_eq!(host_in_title("a -- b"), "a -- b");
    assert_eq!(host_in_title(""), "");
}

#[test]
fn connected_hosts() {
    let sessions = vec![session("Server.Example.COM"), session("db")];
    assert!(is_host_connected("server", &sessions));
    assert!(is_host_connected("SERVER.example.com", &sessions));
    assert!(is_host_connected("my-DB-host", &sessions));
    assert!(!is_host_connected("web", &sessions));
    assert!(!is_host_connected("web", &[]));
    assert!(is_host_connected("", &sessions));
    assert!(!is_host_connected("", &[]));
    // The lower case of a capital sigma depends on where it stands.
    assert!(is_host_connected("\u{39f}\u{3a3}", &[session("\u{3bf}\u{3c2}")]));
    assert!(texts_overlap("abc", "b"));
    assert!(texts_overlap("b", "abc"));
    assert!(!texts_overlap("B", "abc"));
}

#[test]
fn an_open_session_is_noticed() {
    let windows = vec![window(2, "TscShellContainerClass", "MyHost - Remote Desktop Connection")];
    assert!(is_host_connected("MyHost", &get_active_sessions(&windows)));
    assert!(is_host_connected("myhost", &get_active_sessions(&windows)));
}

#[test]
fn the_dialog_of_a_process() {
    let hidden = WindowInfo { visible: false, ..window(7, "#32770", "") };
    let windows = vec![
        window(1, "#32770", ""),
        hidden,
        window(7, "Other", ""),
        window(7, "#32770", "x"),
        window(7, "#32770", "y"),
    ];
    assert_eq!(find_dialog_by_pid(&windows, 7), Some(3));
    assert_eq!(find_dialog_by_pid(&windows, 8), None);
}

#[test]
fn looking_for_the_dialog() {
    let windows = vec![window(1, "#32770", ""), window(7, "Other", ""), window(7, "#32770", "x")];
    assert_eq!(look_for_dialog(&windows, 7, 0), DialogLook::Found(2));
    assert_eq!(look_for_dialog(&windows, 7, 9999), DialogLook::Found(2));
    assert_eq!(look_for_dialog(&windows, 8, 2999), DialogLook::Again);
    assert_eq!(look_for_dialog(&windows, 8, 3000), DialogLook::GiveUp);
}

#[test]
fn an_empty_host_is_connected_while_any_session_is_open() {
    assert!(is_host_connected("", &[session("\u{dc}ber")]));
}

#[test]
fn the_text_of_the_listing() {
    let control = |class: &str, text: &str| ControlInfo {
        class_name: class.to_string(),
        text: text.to_string(),
    };
    let controls = vec![
        control("Button", "0; (0, 0, 1, 1); x"),
        control("Static", "0; (0, 0)"),
        control("Static", "0123456789;"),
        control("Static", "0123456789("),
        control("Static", "01234567;(\u{1f600}"),
        control("Static", "0; (0, 0, 1, 1); y"),
    ];
    assert_eq!(read_dialog_static_text(&controls), "01234567;(\u{1f600}");
    assert_eq!(read_dialog_static_text(&controls[..4]), "");
    assert_eq!(read_dialog_static_text(&[control("Static", "01234567;(")]), "");
    assert_eq!(read_dialog_static_text(&[]), "");
}

#[test]
fn new_windows() {
    assert_eq!(find_new_window(&[1, 2], &[2, 1, 5, 6]), Some(5));
    assert_eq!(find_new_window(&[1, 2], &[2]), None);
    assert_eq!(poll_for_window(&[1], &[1, -3], 60), Poll::Found(-3));
    assert_eq!(poll_for_window(&[1], &[1], 59), Poll::Again);
    assert_eq!(poll_for_window(&[1], &[1], 60), Poll::GiveUp);
    let hidden = WindowInfo { visible: false, ..window(1, "RAIL_WINDOW", "") };
    let windows = vec![
        window(1, "RAIL_WINDOW", ""),
        hidden,
        window(1, "x", ""),
        window(2, "TscShellContainerClass", ""),
    ];
    assert_eq!(enum_mstsc_hwnds(&windows), vec![0, 3]);
}

#[test]
fn the_connection_bar() {
    let hidden = WindowInfo { visible: false, ..bar(1, "Bar", 900, 10) };
    let windows = vec![
        bar(2, "Bar", 900, 10),
        hidden,
        bar(1, "", 900, 10),
        bar(1, "TscShellContainerClass", 900, 10),
        bar(1, "Bar", 100, 1),
        bar(1, "Bar", 900, 80),
        bar(1, "Bar", 900, 0),
        bar(1, "Bar", 300, 30),
        bar(1, "Bar", 605, 30),
        bar(1, "Bar", 600, 30),
        bar(1, "Bar", 200, 30),
    ];
    assert_eq!(find_connection_bar(&windows, 1), Some(9));
    assert_eq!(find_connection_bar(&windows[..7], 1), None);
    assert_eq!(find_connection_bar(&windows, 3), None);
}

const SCREEN: VirtualScreen = VirtualScreen { left: -1000, top: 0, width: 2000, height: 1000 };

#[test]
fn absolute_coordinates() {
    assert_eq!(to_absolute(-1000, 0, SCREEN), (0, 0));
    assert_eq!(to_absolute(1000, 1000, SCREEN), (65535, 65535));
    assert_eq!(to_absolute(0, 500, SCREEN), (32767, 32767));
    // Quotients are rounded towards zero.
    assert_eq!(to_absolute(-1001, -1, SCREEN), (-32, -65));
    let tiny = VirtualScreen { left: 0, top: 0, width: 1, height: -1 };
    assert_eq!(to_absolute(2, 2, tiny), (131070, -131070));
}

#[test]
fn drags_pass_through_their_waypoints() {
    let steps = mouse_drag_via(0, 0, &[(0, 500), (-1000, 7)], SCREEN);
    let at = |x: i32, y: i32| {
        let (ax, ay) = to_absolute(x, y, SCREEN);
        InputStep::MoveTo(ax, ay)
    };
    assert_eq!(steps.len(), 4 + 41 + 41 + 2);
    assert_eq!(
        steps[..6],
        [
            at(0, 0),
            InputStep::Wait(50),
            InputStep::Press,
            InputStep::Wait(100),
            at(0, 25),
            InputStep::Wait(15),
        ]
    );
    assert_eq!(steps[4 + 38..4 + 41], [at(0, 500), InputStep::Wait(15), InputStep::Wait(300)]);
    assert_eq!(steps[4 + 41], at(-50, 476));
    assert_eq!(
        steps[steps.len() - 5..],
        [
            at(-1000, 7),
            InputStep::Wait(15),
            InputStep::Wait(300),
            InputStep::Wait(50),
            InputStep::Release,
        ]
    );
    assert_eq!(mouse_drag_via(1, 2, &[], SCREEN).len(), 6);
}

#[test]
fn long_drags_stay_in_range() {
    let wide = VirtualScreen { left: 0, top: 0, width: i32::MAX, height: i32::MAX };
    let steps = mouse_drag_via(i32::MIN, i32::MAX, &[(i32::MAX, i32::MIN)], wide);
    assert_eq!(steps.len(), 47);
    assert_eq!(steps[42], InputStep::MoveTo(65535, -65535));
}

#[test]
fn relocation_leaves_full_screen_moves_and_enters_it_again() {
    let b = WindowInfo { left: 100, top: 0, right: 401, bottom: 31, ..window(1, "Bar", "") };
    let steps = relocate_mstsc_to_monitor(&b, -900, 20, SCREEN);
    let drag = mouse_drag_via(250, 15, &[(250, 415)], SCREEN);
    assert_eq!(drag[drag.len() - 1], InputStep::Release);
    assert_eq!(steps[..drag.len()], drag[..]);
    assert_eq!(
        steps[drag.len()..],
        [
            InputStep::MoveWindow(-900, 20),
            InputStep::KeyDown(Key::Ctrl),
            InputStep::KeyDown(Key::Alt),
            InputStep::KeyDown(Key::Break),
            InputStep::KeyUp(Key::Break),
            InputStep::KeyUp(Key::Alt),
            InputStep::KeyUp(Key::Ctrl),
        ]
    );
}

#[test]
fn targets_may_lie_anywhere() {
    let b = WindowInfo { left: 0, top: 0, right: 300, bottom: 30, ..window(1, "Bar", "") };
    let steps = relocate_mstsc_to_monitor(&b, i32::MAX, i32::MIN, SCREEN);
    assert!(steps.contains(&InputStep::MoveWindow(i32::MAX, i32::MIN)));
}
