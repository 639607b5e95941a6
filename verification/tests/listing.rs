use rdp_anchor::listing::{extract_numbers, parse_line, parse_mstsc_output, regex_lite_parse};
use rdp_anchor::monitor::{
    capture_mstsc_l, captured_monitors, enumerate_display_monitors, get_current_monitors,
    get_monitors_for_connect, mark_primary, sample_monitors, Capture, DisplayArea, LiveMonitor,
};

fn monitor(id: u32, left: i32, top: i32, width: u32, height: u32, primary: bool) -> LiveMonitor {
    LiveMonitor { mstsc_id: id, left, top, width, height, is_primary: primary }
}

#[test]
fn numbers_out_of_range_are_left_out() {
    assert_eq!(
        extract_numbers("2147483647 2147483648 -2147483648 -2147483649"),
        vec![2147483647, -2147483648]
    );
    assert_eq!(extract_numbers("99999999999999999999999"), Vec::<i32>::new());
}

#[test]
fn lone_signs_are_no_numbers() {
    assert_eq!(extract_numbers("- -- -5 3-4 -"), vec![-5, 3, -4]);
    assert_eq!(extract_numbers("--7"), vec![-7]);
    assert_eq!(extract_numbers("007"), vec![7]);
}

#[test]
fn lines_that_describe_no_monitor_are_skipped() {
    let text = "Monitors\n\n  \nx; (0, 0, 1, 1); a\n1; (0, 0, 1); a\n2; (0, 0, 4, 5)\n+7; (1 2 5 9) ; z\n";
    assert_eq!(regex_lite_parse(text), vec![monitor(7, 1, 2, 4, 7, false)]);
}

#[test]
fn carriage_returns_end_lines_too() {
    let text = "  0; (0, 0, 10, 20); (10 x 20) \r\n1; (10, 0, 30, 20); (20 x 20)\r\n";
    assert_eq!(
        regex_lite_parse(text),
        vec![monitor(0, 0, 0, 10, 20, false), monitor(1, 10, 0, 20, 20, false)]
    );
}

#[test]
fn form_with_inclusive_bounds() {
    let text = "0: 1920 x 1200; (3840, 241, 5759, 1440)\n\
                1: 3840 x 2160; (0, 0, 3839, 2159)\n\
                2: 2560 x 1440; (-2560, 0, -1, 1439)\n\
                3: 1920 x 1080; (1736, -1080, 3655, -1)";
    assert_eq!(
        parse_mstsc_output(text).unwrap(),
        vec![
            monitor(0, 3840, 241, 1920, 1200, false),
            monitor(1, 0, 0, 3840, 2160, false),
            monitor(2, -2560, 0, 2560, 1440, false),
            monitor(3, 1736, -1080, 1920, 1080, false),
        ]
    );
}

#[test]
fn only_a_resolution_makes_the_form_with_inclusive_bounds() {
    let read = |size: &str| parse_line(&format!("7:{size}; (1, 2, 3, 4)"), "");
    let seven = Some(monitor(7, 1, 2, 3, 3, false));
    for size in ["3x3", " 3x3 ", " 3 x 3", "3  x3", "\t00 x\u{3000}99999999999999999999"] {
        assert_eq!(read(size), seven);
    }
    for size in
        ["", " ", " nonsense", " x", "3", "3x", "x3", "3 3", "3X3", "3x3x3", "3x 3 3", "-3x3", "a3x3", ":3x3"]
    {
        assert_eq!(read(size), None);
    }
    assert_eq!(parse_line("3x3; (1, 2, 3, 4)", ""), None);
    assert!(parse_mstsc_output("7: x; (1, 2, 3, 4)").is_err());
}

#[test]
fn the_primary_monitor_is_taken_from_the_enumeration() {
    let listing = || Capture::Dialog("3: 10 x 20; (0, 0, 9, 19)\n4: 10 x 20; (10, 0, 19, 19)".to_string());
    let enumerated = Ok(vec![monitor(0, 10, 0, 10, 20, true), monitor(1, 0, 0, 10, 20, false)]);
    assert_eq!(
        captured_monitors(listing(), &enumerated).unwrap(),
        vec![monitor(3, 0, 0, 10, 20, false), monitor(4, 10, 0, 10, 20, true)]
    );
    // Another resolution at the place of the primary monitor is another screen.
    let other = Ok(vec![monitor(0, 10, 0, 10, 21, true)]);
    let plain = vec![monitor(3, 0, 0, 10, 20, false), monitor(4, 10, 0, 10, 20, false)];
    assert_eq!(captured_monitors(listing(), &other).unwrap(), plain);
    assert_eq!(captured_monitors(listing(), &Err("e".to_string())).unwrap(), plain);
    // A listing that marks its primary monitor is believed.
    let marked = vec![monitor(3, 0, 0, 10, 20, true), monitor(4, 10, 0, 10, 20, false)];
    assert_eq!(mark_primary(marked.clone(), &[monitor(0, 10, 0, 10, 20, true)]), marked);
    assert_eq!(
        captured_monitors(Capture::NoDialog, &Ok(vec![])),
        Err("mstsc /l dialog not found".to_string())
    );
}

#[test]
fn written_listings_read_back() {
    let monitors = vec![
        monitor(4294967295, -2147483648, -1, 4294967295, 1, false),
        monitor(7, 0, 2147483647, 2147483648, 1, false),
        monitor(0, -5, 10, 100, 200, false),
    ];
    let text: Vec<String> = monitors
        .iter()
        .map(|m| {
            let (right, bottom) =
                (m.left as i64 + m.width as i64 - 1, m.top as i64 + m.height as i64 - 1);
            format!(
                "{}: {} x {}; ({}, {}, {}, {})",
                m.mstsc_id, m.width, m.height, m.left, m.top, right, bottom
            )
        })
        .collect();
    assert_eq!(parse_mstsc_output(&text.join("\r\n")).unwrap(), monitors);
}

#[test]
fn parts_of_a_listing_are_read_alone() {
    let parts = ["", "1; (0, 0, 4, 5); a\r", "nothing\n", "\n2: 1 x 1; (7, 7, 7, 7)\r\n", "3; (0, 0)"];
    for a in parts {
        for b in parts {
            let mut apart = regex_lite_parse(a);
            apart.extend(regex_lite_parse(b));
            assert_eq!(regex_lite_parse(&format!("{a}\n{b}")), apart);
        }
    }
}

#[test]
fn written_numbers_read_back() {
    for all in [vec![], vec![-7], vec![2147483647, -2147483648, 0, 0, 12]] {
        let text: Vec<String> = all.iter().map(|n: &i32| n.to_string()).collect();
        assert_eq!(extract_numbers(&text.join(", ")), all);
    }
}

#[test]
fn what_follows_the_edges_is_passed_over() {
    assert_eq!(
        parse_line("3; (1, -2, 11, 18);;(9, 9, 9, 9); :", ""),
        Some(monitor(3, 1, -2, 10, 20, false))
    );
}

#[test]
fn primary_is_found_in_any_case() {
    assert!(regex_lite_parse("4; (0, 0, 1, 1); primary")[0].is_primary);
    assert!(regex_lite_parse("4; (0, 0, 1, 1); [PriMary]")[0].is_primary);
    assert!(!regex_lite_parse("4; (0, 0, 1, 1); prim")[0].is_primary);
    // A small dotless i has the capital I as its upper case.
    assert!(regex_lite_parse("4; (0, 0, 1, 1); pr\u{131}mary")[0].is_primary);
}

#[test]
fn line_with_given_upper_case() {
    assert_eq!(
        parse_line("5; (-4, -3, 6, 7); x", "PRIMARY"),
        Some(monitor(5, -4, -3, 10, 10, true))
    );
    assert_eq!(parse_line("5; (-4, -3, 6, 7); PRIMARY", ""), Some(monitor(5, -4, -3, 10, 10, false)));
    assert_eq!(parse_line("", "PRIMARY"), None);
    assert_eq!(parse_line("-5; (1, 2, 3, 4); x", ""), None);
}

#[test]
fn extents_wrap() {
    let m = parse_line("0; (-2147483648, 5, 2147483647, 0); w", "").unwrap();
    assert_eq!(m.width, 4294967295);
    assert_eq!(m.height, 4294967291);
    let m = parse_line("0: 0 x 1; (-2147483648, 0, 2147483647, 0)", "").unwrap();
    assert_eq!(m.width, 0);
    assert_eq!(m.height, 1);
}

#[test]
fn empty_listing_is_an_error() {
    assert_eq!(
        parse_mstsc_output("nothing here").unwrap_err(),
        "No monitor lines found in mstsc output"
    );
    assert_eq!(parse_mstsc_output("").unwrap_err(), "No monitor lines found in mstsc output");
}

#[test]
fn captures() {
    assert_eq!(
        capture_mstsc_l(Capture::Unsupported).unwrap_err(),
        "mstsc is only available on Windows"
    );
    assert_eq!(
        capture_mstsc_l(Capture::SpawnFailed("gone".to_string())).unwrap_err(),
        "Failed to spawn mstsc: gone"
    );
    assert_eq!(capture_mstsc_l(Capture::NoDialog).unwrap_err(), "mstsc /l dialog not found");
    assert_eq!(
        capture_mstsc_l(Capture::Dialog(String::new())).unwrap_err(),
        "Could not read mstsc /l dialog text"
    );
    assert_eq!(
        capture_mstsc_l(Capture::Dialog("hello".to_string())).unwrap_err(),
        "No monitor lines found in mstsc output"
    );
    assert_eq!(
        capture_mstsc_l(Capture::Dialog("3; (0, 0, 8, 6); a".to_string())).unwrap(),
        vec![monitor(3, 0, 0, 8, 6, false)]
    );
}

#[test]
fn enumeration_numbers_displays_in_order() {
    let areas = vec![
        DisplayArea { left: -1920, top: 0, right: 0, bottom: 1080, flags: 0 },
        DisplayArea { left: 0, top: 0, right: 2560, bottom: 1440, flags: 1 },
        DisplayArea { left: 10, top: 20, right: 5, bottom: 25, flags: 3 },
    ];
    assert_eq!(
        enumerate_display_monitors(Some(areas)).unwrap(),
        vec![
            monitor(0, -1920, 0, 1920, 1080, false),
            monitor(1, 0, 0, 2560, 1440, true),
            monitor(2, 10, 20, 4294967291, 5, true),
        ]
    );
    assert_eq!(
        enumerate_display_monitors(Some(vec![])).unwrap_err(),
        "No monitors detected"
    );
    assert_eq!(enumerate_display_monitors(None).unwrap_err(), "EnumDisplayMonitors failed");
}

#[test]
fn sample_of_three() {
    assert_eq!(
        sample_monitors(),
        vec![
            monitor(0, -1920, 0, 1920, 1080, false),
            monitor(1, 0, 0, 2560, 1440, true),
            monitor(2, 2560, 0, 1920, 1080, false),
        ]
    );
}

#[test]
fn listed_monitors_come_before_enumerated_ones() {
    let listed = vec![monitor(4, 0, 0, 1, 1, false)];
    let enumerated = vec![monitor(0, 0, 0, 1, 1, true)];
    let failed = || Err::<Vec<LiveMonitor>, String>("no".to_string());

    assert_eq!(get_current_monitors(Ok(listed.clone()), Ok(enumerated.clone())), Ok(listed.clone()));
    assert_eq!(get_current_monitors(Ok(vec![]), Ok(enumerated.clone())), Ok(enumerated.clone()));
    assert_eq!(get_current_monitors(failed(), Ok(enumerated.clone())), Ok(enumerated.clone()));
    assert_eq!(get_current_monitors(Ok(vec![]), failed()), failed());

    assert_eq!(
        get_monitors_for_connect(Ok(listed.clone()), failed()),
        Ok((listed, false))
    );
    assert_eq!(
        get_monitors_for_connect(Ok(vec![]), Ok(enumerated.clone())),
        Ok((enumerated.clone(), true))
    );
    assert_eq!(
        get_monitors_for_connect(failed(), Ok(enumerated.clone())),
        Ok((enumerated, true))
    );
    assert_eq!(get_monitors_for_connect(failed(), failed()), Err("no".to_string()));
}
