use rdp_anchor::config::{AppConfig, DisplayProfile, MonitorDef};
use rdp_anchor::listing::{extract_numbers, parse_mstsc_output};
use rdp_anchor::monitor::{match_monitor, LiveMonitor};
use rdp_anchor::profile::resolve_profile;

#[test]
fn test_parse_mstsc_output() {
    let text = "0; (-1920, 0, 0, 1080); (1920 x 1080)\n\
                 1; (0, 0, 2560, 1440); (2560 x 1440)  [PRIMARY]\n\
                 2; (2560, 0, 4480, 1080); (1920 x 1080)";
    let monitors = parse_mstsc_output(text).unwrap();
    assert_eq!(monitors.len(), 3);
    assert_eq!(monitors[0].mstsc_id, 0);
    assert_eq!(monitors[0].left, -1920);
    assert_eq!(monitors[0].width, 1920);
    assert!(monitors[1].is_primary);
    assert_eq!(monitors[2].left, 2560);
}

#[test]
fn test_match_exact() {
    let live = vec![
        LiveMonitor {
            mstsc_id: 5,
            left: -1920,
            top: 0,
            width: 1920,
            height: 1080,
            is_primary: false,
        },
        LiveMonitor {
            mstsc_id: 3,
            left: 0,
            top: 0,
            width: 2560,
            height: 1440,
            is_primary: true,
        },
    ];
    let def = MonitorDef {
        name: "test".into(),
        left: -1920,
        top: 0,
        width: 1920,
        height: 1080,
    };
    let m = match_monitor(&def, &live).unwrap();
    assert_eq!(m.mstsc_id, 5);
}

#[test]
fn test_extract_numbers() {
    assert_eq!(
        extract_numbers("(-1920, 0, 0, 1080)"),
        vec![-1920, 0, 0, 1080]
    );
    assert_eq!(extract_numbers("(2560 x 1440)"), vec![2560, 1440]);
    assert_eq!(
        extract_numbers("(-3840, -200, -1920, 880)"),
        vec![-3840, -200, -1920, 880]
    );
    assert_eq!(extract_numbers("()"), Vec::<i32>::new());
}

#[test]
fn test_match_fallback_same_resolution() {
    let live = vec![
        LiveMonitor {
            mstsc_id: 2,
            left: -1920,
            top: 0,
            width: 1920,
            height: 1080,
            is_primary: false,
        },
        LiveMonitor {
            mstsc_id: 0,
            left: 0,
            top: 0,
            width: 2560,
            height: 1440,
            is_primary: true,
        },
        LiveMonitor {
            mstsc_id: 1,
            left: 2560,
            top: 0,
            width: 1920,
            height: 1080,
            is_primary: false,
        },
    ];
    let def = MonitorDef {
        name: "left".into(),
        left: -1920,
        top: 0,
        width: 1920,
        height: 1080,
    };
    let m = match_monitor(&def, &live).unwrap();
    assert_eq!(m.mstsc_id, 2);
}

#[test]
fn test_resolve_profile() {
    let mut config = AppConfig::default();
    config.monitors.insert(
        "left".into(),
        MonitorDef {
            name: "left".into(),
            left: -1920,
            top: 0,
            width: 1920,
            height: 1080,
        },
    );
    config.monitors.insert(
        "center".into(),
        MonitorDef {
            name: "center".into(),
            left: 0,
            top: 0,
            width: 2560,
            height: 1440,
        },
    );

    let profile = DisplayProfile {
        name: "test".into(),
        monitor_ids: vec!["left".into(), "center".into()],
        primary: "center".into(),
    };

    let live = vec![
        LiveMonitor {
            mstsc_id: 7,
            left: -1920,
            top: 0,
            width: 1920,
            height: 1080,
            is_primary: false,
        },
        LiveMonitor {
            mstsc_id: 3,
            left: 0,
            top: 0,
            width: 2560,
            height: 1440,
            is_primary: true,
        },
    ];

    let result = resolve_profile(&config, &profile, &live).unwrap();
    assert_eq!(result, "3,7");
}
