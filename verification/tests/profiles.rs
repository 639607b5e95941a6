use rdp_anchor::config::{AppConfig, DisplayProfile, MonitorDef};
use rdp_anchor::detect::{auto_detect_defs, sort_by_position};
use rdp_anchor::monitor::{match_monitor, LiveMonitor};
use rdp_anchor::number::read_unsigned;
use rdp_anchor::profile::{resolve_monitors, resolve_profile, selected_monitors};

fn monitor(id: u32, left: i32, top: i32, width: u32, height: u32) -> LiveMonitor {
    LiveMonitor { mstsc_id: id, left, top, width, height, is_primary: false }
}

fn def(left: i32, top: i32, width: u32, height: u32) -> MonitorDef {
    MonitorDef { name: "m".to_string(), left, top, width, height }
}

fn profile(ids: &[&str], primary: &str) -> DisplayProfile {
    DisplayProfile {
        name: "p".to_string(),
        monitor_ids: ids.iter().map(|id| id.to_string()).collect(),
        primary: primary.to_string(),
    }
}

fn desk() -> AppConfig {
    let mut config = AppConfig::default();
    config.monitors.insert("left".to_string(), def(-1920, 0, 1920, 1080));
    config.monitors.insert("center".to_string(), def(0, 0, 2560, 1440));
    config.monitors.insert("right".to_string(), def(2560, 0, 1920, 1080));
    config
}

#[test]
fn nearest_of_the_same_resolution() {
    let live = vec![
        monitor(1, 5000, 0, 1920, 1080),
        monitor(2, -1900, 30, 1920, 1080),
        monitor(3, -1920, 0, 1920, 1200),
    ];
    assert_eq!(match_monitor(&def(-1920, 0, 1920, 1080), &live), Some(&live[1]));
    assert_eq!(match_monitor(&def(-1920, 0, 800, 600), &live), None);
    assert_eq!(match_monitor(&def(0, 0, 1920, 1080), &[]), None);
}

#[test]
fn first_of_equally_near_monitors() {
    let live = vec![monitor(8, 10, 0, 5, 5), monitor(9, -10, 0, 5, 5), monitor(7, 0, 10, 5, 5)];
    assert_eq!(match_monitor(&def(0, 0, 5, 5), &live).unwrap().mstsc_id, 8);
}

#[test]
fn exact_match_beats_an_earlier_near_one() {
    let live = vec![monitor(8, 1, 0, 5, 5), monitor(9, 0, 0, 5, 5), monitor(7, 0, 0, 5, 5)];
    assert_eq!(match_monitor(&def(0, 0, 5, 5), &live).unwrap().mstsc_id, 9);
}

#[test]
fn extreme_coordinates_are_compared_exactly() {
    let live = vec![
        monitor(1, i32::MAX, i32::MAX, 5, 5),
        monitor(2, i32::MAX, i32::MAX - 1, 5, 5),
    ];
    assert_eq!(
        match_monitor(&def(i32::MIN, i32::MIN, 5, 5), &live).unwrap().mstsc_id,
        2
    );
}

#[test]
fn primary_first_then_the_order_of_the_profile() {
    let live = vec![
        monitor(12, 2560, 0, 1920, 1080),
        monitor(5, -1920, 0, 1920, 1080),
        monitor(0, 0, 0, 2560, 1440),
    ];
    let config = desk();
    let all = profile(&["left", "center", "right"], "right");
    assert_eq!(resolve_profile(&config, &all, &live).unwrap(), "12,5,0");
    let resolved = resolve_monitors(&config, &all, &live).unwrap();
    assert_eq!(resolved.selected_monitors, "12,5,0");
    assert_eq!((resolved.primary_left, resolved.primary_top), (2560, 0));
    let twice = profile(&["center", "left", "center", "left"], "center");
    assert_eq!(resolve_profile(&config, &twice, &live).unwrap(), "0,5,5");
}

#[test]
fn renumbered_monitors_are_still_found() {
    let config = desk();
    let p = profile(&["left", "center"], "center");
    let before = vec![
        monitor(0, -1920, 0, 1920, 1080),
        monitor(1, 0, 0, 2560, 1440),
        monitor(2, 2560, 0, 1920, 1080),
    ];
    let after = vec![
        monitor(0, 2560, 0, 1920, 1080),
        monitor(1, -1920, 0, 1920, 1080),
        monitor(2, 0, 0, 2560, 1440),
    ];
    assert_eq!(resolve_profile(&config, &p, &before).unwrap(), "1,0");
    assert_eq!(resolve_profile(&config, &p, &after).unwrap(), "2,1");
}

#[test]
fn new_numbers_alone_do_not_move_a_tie() {
    let mut config = desk();
    config.monitors.insert("middle".to_string(), def(50, 0, 100, 100));
    let p = profile(&["middle"], "middle");
    let numbered = |a: u32, b: u32| vec![monitor(a, 0, 0, 100, 100), monitor(b, 100, 0, 100, 100)];
    assert_eq!(resolve_profile(&config, &p, &numbered(4, 9)).unwrap(), "4");
    assert_eq!(resolve_profile(&config, &p, &numbered(9, 4)).unwrap(), "9");
}

#[test]
fn detection_does_not_depend_on_order_or_numbers() {
    let one = vec![
        monitor(0, 0, 0, 2560, 1440),
        monitor(1, -1920, 0, 1920, 1080),
        monitor(2, 2560, -7, 1920, 1080),
    ];
    let other = vec![
        monitor(5, 2560, -7, 1920, 1080),
        monitor(1, 0, 0, 2560, 1440),
        monitor(9, -1920, 0, 1920, 1080),
    ];
    let (a, b) = (auto_detect_defs(&one), auto_detect_defs(&other));
    for key in ["mon-0", "mon-1", "mon-2"] {
        let (x, y) = (a.get(key).unwrap(), b.get(key).unwrap());
        assert_eq!(
            (&x.name, x.left, x.top, x.width, x.height),
            (&y.name, y.left, y.top, y.width, y.height)
        );
    }
    assert_eq!((a.entries().len(), b.entries().len()), (3, 3));
}

#[test]
fn a_profile_of_all_detected_monitors_selects_each_once() {
    let live = vec![
        monitor(4, 0, 0, 100, 100),
        monitor(8, -100, 0, 100, 100),
        monitor(6, 100, 0, 100, 100),
    ];
    let mut config = AppConfig::default();
    config.save_monitors(auto_detect_defs(&live));
    let p = profile(&["mon-2", "mon-0", "mon-1"], "mon-0");
    assert_eq!(resolve_profile(&config, &p, &live).unwrap(), "8,6,4");
    let p = profile(&["mon-2", "mon-0"], "mon-2");
    assert_eq!(resolve_profile(&config, &p, &live).unwrap(), "6,8");
}

#[test]
fn errors_of_resolution() {
    let config = desk();
    let live = vec![monitor(0, 0, 0, 2560, 1440)];
    assert_eq!(
        resolve_profile(&config, &profile(&["center", "attic", "left"], "center"), &live)
            .unwrap_err(),
        "Monitor definition 'attic' not found in config"
    );
    assert_eq!(
        resolve_profile(&config, &profile(&["center", "left", "attic"], "center"), &live)
            .unwrap_err(),
        "No current monitor matches 'left' (1920x1080 at -1920, 0)"
    );
    assert_eq!(
        resolve_profile(&config, &profile(&["center"], "left"), &live).unwrap_err(),
        "Primary monitor not found in profile"
    );
    assert_eq!(
        resolve_profile(&config, &profile(&[], "left"), &live).unwrap_err(),
        "Primary monitor not found in profile"
    );
}

#[test]
fn selection_reads_back() {
    let ids = [0, 4294967295, 10, 7];
    let text = selected_monitors(&ids);
    assert_eq!(text, "0,4294967295,10,7");
    let back: Vec<u32> = text
        .split(',')
        .map(|part| read_unsigned(&part.chars().collect::<Vec<char>>(), u32::MAX).unwrap())
        .collect();
    assert_eq!(back, ids);
    assert_eq!(selected_monitors(&[]), "");
}

#[test]
fn detection_names_monitors_by_position() {
    let live = vec![
        monitor(4, 2560, 0, 1920, 1080),
        monitor(1, 0, 0, 2560, 1440),
        monitor(3, -1920, 0, 1920, 1080),
        monitor(2, 1000, -1080, 1920, 1081),
    ];
    let defs = auto_detect_defs(&live);
    assert_eq!(defs.entries().len(), 4);
    let found = |key: &str| {
        let d = defs.get(key).unwrap();
        (d.name.clone(), d.left, d.top, d.width, d.height)
    };
    assert_eq!(found("mon-0"), ("left 1920x1080".to_string(), -1920, 0, 1920, 1080));
    assert_eq!(found("mon-1"), ("center 2560x1440".to_string(), 0, 0, 2560, 1440));
    assert_eq!(found("mon-2"), ("center 1920x1081".to_string(), 1000, -1080, 1920, 1081));
    assert_eq!(found("mon-3"), ("right 1920x1080".to_string(), 2560, 0, 1920, 1080));
    assert!(defs.get("mon-4").is_none());
}

#[test]
fn detection_labels() {
    let single = auto_detect_defs(&[monitor(0, 0, 0, 100, 50)]);
    assert_eq!(single.get("mon-0").unwrap().name, "left 100x50");
    let column = auto_detect_defs(&[monitor(0, 0, 50, 100, 50), monitor(1, 0, 0, 100, 60)]);
    assert_eq!(column.get("mon-0").unwrap().name, "left 100x60");
    assert_eq!(column.get("mon-1").unwrap().name, "right 100x50");
    let shifted = auto_detect_defs(&[monitor(0, 5, 0, 1, 1), monitor(1, 6, 0, 2, 2)]);
    assert_eq!(shifted.get("mon-0").unwrap().name, "left 1x1");
    assert_eq!(shifted.get("mon-1").unwrap().name, "right 2x2");
    assert_eq!(auto_detect_defs(&[]).entries().len(), 0);
}

#[test]
fn sorting_is_stable() {
    let live = vec![
        monitor(3, 5, 5, 1, 1),
        monitor(1, 5, 4, 1, 1),
        monitor(2, 5, 5, 2, 2),
        monitor(0, -1, 9, 1, 1),
    ];
    let order: Vec<u32> = sort_by_position(&live).iter().map(|m| m.mstsc_id).collect();
    assert_eq!(order, vec![0, 1, 3, 2]);
}

#[test]
fn detected_monitors_resolve_at_once() {
    let live: Vec<LiveMonitor> =
        (0..12).map(|i| monitor(11 - i, (i as i32) * 100, 0, 100, 50)).collect();
    let mut config = AppConfig::default();
    config.auto_detect_monitors(Ok(live.clone())).unwrap();
    let p = profile(&["mon-0", "mon-10", "mon-11"], "mon-10");
    assert_eq!(resolve_profile(&config, &p, &live).unwrap(), "1,11,0");
}
