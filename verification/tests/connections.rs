use rdp_anchor::config::{AppConfig, DisplayProfile, HostEntry, MonitorDef};
use rdp_anchor::connect::{
    browsed_path, connect, connect_target, preflight_connect, printed_path, shown_monitors,
    LaunchOptions,
};
use rdp_anchor::monitor::LiveMonitor;
use rdp_anchor::placement::{
    containing_monitor, monitor_with_resolution, resolve_saved_position, window_fits,
};
use rdp_anchor::rdp::{host_in, info_in};
use rdp_anchor::session::ActiveSession;

fn monitor(id: u32, left: i32, top: i32, width: u32, height: u32) -> LiveMonitor {
    LiveMonitor { mstsc_id: id, left, top, width, height, is_primary: false }
}

fn desk() -> AppConfig {
    let mut config = AppConfig::default();
    let def = |left: i32| MonitorDef { name: String::new(), left, top: 3, width: 100, height: 50 };
    config.monitors.insert("l".to_string(), def(-100));
    config.monitors.insert("r".to_string(), def(0));
    let profile = |ids: &[&str], primary: &str| DisplayProfile {
        name: String::new(),
        monitor_ids: ids.iter().map(|id| id.to_string()).collect(),
        primary: primary.to_string(),
    };
    config.save_profile("both".to_string(), profile(&["l", "r"], "r"));
    config.save_profile("one".to_string(), profile(&["l"], "l"));
    config.save_profile("bad".to_string(), profile(&["x"], "x"));
    config.save_host(HostEntry {
        id: "dev".to_string(),
        name: "Dev Server".to_string(),
        rdp_file: "dev.rdp".to_string(),
        default_profile: "both".to_string(),
        color: String::new(),
    });
    config
}

fn live() -> Result<Vec<LiveMonitor>, String> {
    Ok(vec![monitor(4, 0, 3, 100, 50), monitor(2, -100, 3, 100, 50)])
}

fn raw() -> Result<Vec<u8>, String> {
    Ok(b"full address:s:devhost:3390\r\n".to_vec())
}

fn open(host: &str) -> Vec<ActiveSession> {
    vec![ActiveSession { window_title: String::new(), hostname: host.to_string() }]
}

const QUIET: LaunchOptions =
    LaunchOptions { save_last_rdp: false, relocate_to_primary: false, minimize_on_connect: false };

#[test]
fn targets() {
    let config = desk();
    let (host, profile) = connect_target(&config, "dev", None).unwrap();
    assert_eq!(host.name, "Dev Server");
    assert_eq!(profile.primary, "r");
    let (_, profile) = connect_target(&config, "dev", Some("one")).unwrap();
    assert_eq!(profile.primary, "l");
    assert_eq!(connect_target(&config, "prod", None).unwrap_err(), "Host not found");
    assert_eq!(
        connect_target(&config, "dev", Some("none")).unwrap_err(),
        "Profile 'none' not found"
    );
    let mut orphan = desk();
    orphan.delete_profile("both");
    assert_eq!(connect_target(&orphan, "dev", None).unwrap_err(), "Profile 'both' not found");
}

#[test]
fn preflight() {
    let config = desk();
    let check = |sessions: &[ActiveSession]| {
        preflight_connect(&config, "dev", None, live(), raw(), sessions).unwrap()
    };
    let calm = check(&open("elsewhere"));
    assert!(calm.success);
    assert_eq!(calm.message, "");
    assert!(!calm.needs_confirm);
    assert_eq!(calm.host, "devhost");
    assert_eq!(calm.host_name, "Dev Server");
    assert!(check(&open("DEVHOST")).needs_confirm);

    let unread = preflight_connect(&config, "dev", None, live(), Err("e".to_string()), &open("z"))
        .unwrap();
    assert_eq!(unread.host, "");
    assert!(unread.needs_confirm);
}

#[test]
fn preflight_errors() {
    let config = desk();
    let error = |host: &str, profile: Option<&str>, live: Result<Vec<LiveMonitor>, String>| {
        preflight_connect(&config, host, profile, live, raw(), &[]).unwrap_err()
    };
    assert_eq!(error("x", None, Err("m".to_string())), "Host not found");
    assert_eq!(error("dev", Some("x"), Err("m".to_string())), "Profile 'x' not found");
    assert_eq!(error("dev", Some("bad"), Err("m".to_string())), "m");
    assert_eq!(
        error("dev", Some("bad"), live()),
        "Monitor definition 'x' not found in config"
    );
}

#[test]
fn launches() {
    let config = desk();
    let plan = connect(&config, QUIET, "dev", None, live(), raw(), "dev").unwrap();
    assert_eq!(plan.file.file_name, "dev_launch.rdp");
    assert_eq!(
        plan.file.content,
        "full address:s:devhost:3390\r\nuse multimon:i:1\r\nscreen mode id:i:2\r\nselectedmonitors:s:4,2"
    );
    assert_eq!(plan.message, "Dev Server|4,2");
    assert!(!plan.keep_copy);
    assert!(!plan.minimize);
    assert_eq!(plan.relocate, None);

    let all = LaunchOptions {
        save_last_rdp: true,
        relocate_to_primary: true,
        minimize_on_connect: true,
    };
    let plan = connect(&config, all, "dev", Some("one"), live(), raw(), "dev").unwrap();
    assert_eq!(plan.message, "Dev Server|2");
    assert!(plan.keep_copy);
    assert!(plan.minimize);
    assert_eq!(plan.relocate, Some((-100, 3)));
}

#[test]
fn launched_files_open_as_planned() {
    let config = desk();
    let base = "selectedmonitors:s:9\nfull address:s:devhost:3390\nselectedmonitors:i:7\nusername:s:me\n\n";
    let plan =
        connect(&config, QUIET, "dev", None, live(), Ok(base.as_bytes().to_vec()), "dev").unwrap();
    let selections: Vec<&str> =
        plan.file.content.lines().filter_map(|l| l.strip_prefix("selectedmonitors:s:")).collect();
    assert_eq!(selections, vec!["4,2", "4,2"]);
    let (copy, file) =
        (info_in("p", &plan.file.content).unwrap(), info_in("p", base).unwrap());
    assert_eq!(copy.host, "devhost");
    assert_eq!((copy.host, copy.port, copy.username), (file.host, file.port, file.username));
    assert_eq!(host_in("p", &plan.file.content), Ok("devhost".to_string()));
}

#[test]
fn launch_errors() {
    let config = desk();
    let error = |host: &str, profile: Option<&str>, live: Result<Vec<LiveMonitor>, String>| {
        match connect(&config, QUIET, host, profile, live, Err("gone".to_string()), "dev") {
            Ok(_) => panic!("a launch was planned"),
            Err(e) => e,
        }
    };
    assert_eq!(error("x", None, live()), "Host not found");
    assert_eq!(error("dev", Some("x"), live()), "Profile 'x' not found");
    assert_eq!(error("dev", None, Err("m".to_string())), "m");
    assert_eq!(
        error("dev", None, Ok(vec![])),
        "No current monitor matches 'l' (100x50 at -100, 3)"
    );
    assert_eq!(error("dev", None, live()), "Cannot read dev.rdp: gone");
}

#[test]
fn chosen_paths() {
    assert_eq!(browsed_path(b"C:\\a b.rdp\r\n"), Some("C:\\a b.rdp".to_string()));
    assert_eq!(browsed_path(b" \r\n"), None);
    assert_eq!(browsed_path(b"a\xff"), Some("a\u{fffd}".to_string()));
    assert_eq!(printed_path("\tx "), Some("x".to_string()));
    assert_eq!(printed_path(""), None);
}

#[test]
fn monitors_that_are_shown() {
    let some = vec![monitor(1, 0, 0, 1, 1)];
    let failed = || Err::<Vec<LiveMonitor>, String>("e".to_string());
    assert_eq!(shown_monitors(Ok((some.clone(), false)), failed()), (some.clone(), false));
    assert_eq!(shown_monitors(Err("e".to_string()), Ok(some.clone())), (some, true));
    assert_eq!(shown_monitors(Err("e".to_string()), failed()), (vec![], true));
}

#[test]
fn the_monitor_of_a_window() {
    let monitors = vec![monitor(1, -100, 0, 100, 100), monitor(2, 0, 0, 200, 100)];
    let at = |x: i32, y: i32, w: u32, h: u32| {
        containing_monitor(&monitors, x, y, w, h).map(|m| m.mstsc_id)
    };
    assert_eq!(at(-100, 0, 10, 10), Some(1));
    assert_eq!(at(-10, 0, 19, 10), Some(1));
    assert_eq!(at(-10, 0, 20, 10), Some(2));
    assert_eq!(at(0, 95, 10, 10), None);
    assert_eq!(at(2147483647, 0, 4294967295, 10), None);
    assert_eq!(monitor_with_resolution(&monitors, 200, 100).unwrap().mstsc_id, 2);
    assert_eq!(monitor_with_resolution(&monitors, 200, 101), None);
}

#[test]
fn restored_windows_fit_on_a_monitor() {
    let monitors = vec![monitor(1, -1000, 0, 1000, 800), monitor(2, 0, 0, 1000, 800)];
    assert!(window_fits(&monitors, 0, 0, 1000, 800));
    assert!(!window_fits(&monitors, -1, 0, 1000, 800));
    assert!(!window_fits(&monitors, 0, 0, 1001, 800));
    assert!(!window_fits(&monitors, 10, 0, 4294967295, 10));
    assert_eq!(
        resolve_saved_position(&monitors, 1000, 800, 100, 50, 300, 10),
        Some((-900, 50, 300, 200))
    );
    assert_eq!(
        resolve_saved_position(&monitors, 1000, 800, 1000, 0, 0, 0),
        Some((0, 0, 200, 200))
    );
    assert_eq!(resolve_saved_position(&monitors, 1000, 800, 900, 0, 300, 300), None);
    assert_eq!(resolve_saved_position(&monitors, 800, 1000, 0, 0, 300, 300), None);
    assert_eq!(resolve_saved_position(&[], 1000, 800, 0, 0, 300, 300), None);
    let mixed = vec![monitor(1, 0, 0, 500, 500), monitor(2, 500, 0, 1000, 800)];
    assert_eq!(
        resolve_saved_position(&mixed, 1000, 800, 10, 20, 300, 300),
        Some((510, 20, 300, 300))
    );
}
