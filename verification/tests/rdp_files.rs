use rdp_anchor::decode::read_rdp_file;
use rdp_anchor::launch_file::{launch_file_name, prepare_rdp_for_launch, rewrite_for_launch};
use rdp_anchor::rdp::{host_in, info_in, read_rdp_host, read_rdp_info};

fn utf16(text: &str) -> Vec<u8> {
    let mut bytes = vec![0xff, 0xfe];
    for unit in text.encode_utf16() {
        bytes.push((unit & 0xff) as u8);
        bytes.push((unit >> 8) as u8);
    }
    bytes
}

fn marked(text: &str) -> Vec<u8> {
    let mut bytes = vec![0xef, 0xbb, 0xbf];
    bytes.extend(text.as_bytes());
    bytes
}

#[test]
fn encodings() {
    let text = "full address:s:h\u{f6}st\r\n\u{1f600}";
    for raw in [utf16(text), marked(text), text.as_bytes().to_vec()] {
        assert_eq!(read_rdp_file("p", Ok(raw)), Ok(text.to_string()));
    }
    assert_eq!(read_rdp_file("p", Ok(utf16("plain"))), Ok("plain".to_string()));
    assert_eq!(read_rdp_file("p", Ok(vec![])), Ok(String::new()));
    assert_eq!(read_rdp_file("p", Ok(vec![0xff, 0xfe])), Ok(String::new()));
}

#[test]
fn bytes_that_are_no_text() {
    // Without a mark what is not UTF-8 is replaced.
    assert_eq!(read_rdp_file("p", Ok(vec![b'a', 0xff, b'b'])), Ok("a\u{fffd}b".to_string()));
    // Unpaired surrogates are replaced.
    assert_eq!(
        read_rdp_file("p", Ok(vec![0xff, 0xfe, 0x00, 0xd8, b'a', 0])),
        Ok("\u{fffd}a".to_string())
    );
    // A marked file has to be UTF-8.
    let error = String::from_utf8(vec![b'a', 0xff]).unwrap_err().to_string();
    assert_eq!(
        read_rdp_file("p", Ok(vec![0xef, 0xbb, 0xbf, b'a', 0xff])),
        Err(format!("UTF-8 decode error: {error}"))
    );
    assert_eq!(
        read_rdp_file("a/b.rdp", Err("not there".to_string())),
        Err("Cannot read a/b.rdp: not there".to_string())
    );
}

#[test]
fn one_text_in_three_encodings() {
    for text in ["", "a", "x\u{e9}\u{ffff}\u{10000}\u{10ffff}\u{feff}", "\u{d7ff}\u{e000}", "\u{0}\r\n"] {
        for raw in [text.as_bytes().to_vec(), marked(text), utf16(text)] {
            assert_eq!(read_rdp_file("p", Ok(raw)), Ok(text.to_string()));
        }
    }
}

#[test]
fn a_second_mark_behind_the_first_is_dropped() {
    assert_eq!(
        read_rdp_file("p", Ok(vec![0xff, 0xfe, 0xff, 0xfe, b'a', 0])),
        Ok("a".to_string())
    );
}

#[test]
fn host_of_the_first_address() {
    let text = "screen mode id:i:2\r\n  full address:s:one:3390:x  \r\nfull address:s:two\r\n";
    assert_eq!(host_in("p", text), Ok("one".to_string()));
    assert_eq!(read_rdp_host("p", Ok(utf16(text))), Ok("one".to_string()));
    assert_eq!(host_in("p", "full address:s:"), Ok(String::new()));
    assert_eq!(
        host_in("x.rdp", "full address:i:one\nFull address:s:one"),
        Err("No 'full address' found in x.rdp".to_string())
    );
    assert_eq!(
        read_rdp_host("x.rdp", Err("denied".to_string())),
        Err("Cannot read x.rdp: denied".to_string())
    );
}

#[test]
fn info_of_the_last_address() {
    let info = read_rdp_info(
        "x.rdp",
        Ok(b"full address:s:one:1\nusername:s:me\nfull address:s:two\nusername:s:\n".to_vec()),
    )
    .unwrap();
    assert_eq!(info.host, "two");
    assert_eq!(info.username, Some("me".to_string()));
    assert_eq!(info.port, 1);
    assert_eq!(info.path, "x.rdp");
}

#[test]
fn ports() {
    let port = |address: &str| info_in("p", &format!("full address:s:{address}")).unwrap().port;
    assert_eq!(port("h"), 3389);
    assert_eq!(port("h:"), 3389);
    assert_eq!(port("h:22"), 22);
    assert_eq!(port("h:65535"), 65535);
    assert_eq!(port("h:65536"), 3389);
    assert_eq!(port("h:1:2"), 3389);
    assert_eq!(port("h:+7"), 7);
    assert_eq!(port("h: 7"), 3389);
    assert_eq!(info_in("p", "full address:s:h:22\nfull address:s:g:x").unwrap().port, 3389);
}

#[test]
fn info_without_a_host() {
    assert_eq!(info_in("x.rdp", "username:s:me").unwrap_err(), "No host found in x.rdp");
    assert_eq!(info_in("x.rdp", "full address:s::22").unwrap_err(), "No host found in x.rdp");
    assert_eq!(
        read_rdp_info("x.rdp", Err("denied".to_string())).unwrap_err(),
        "Cannot read x.rdp: denied"
    );
    assert!(info_in("p", "full address:s:h").unwrap().username.is_none());
}

#[test]
fn rewriting_replaces_the_three_settings() {
    let text = "full address:s:h\n  use multimon:i:0 \r\nselectedmonitors:s:9\nscreen mode id:i:1\naudiomode:i:0\n";
    assert_eq!(
        rewrite_for_launch(text, "2,1"),
        "full address:s:h\r\nuse multimon:i:1\r\nselectedmonitors:s:2,1\r\nscreen mode id:i:2\r\naudiomode:i:0"
    );
}

#[test]
fn rewriting_adds_what_is_missing() {
    assert_eq!(
        rewrite_for_launch("  full address:s:h ", "0"),
        "  full address:s:h \r\nuse multimon:i:1\r\nscreen mode id:i:2\r\nselectedmonitors:s:0"
    );
    assert_eq!(
        rewrite_for_launch("", "0"),
        "use multimon:i:1\r\nscreen mode id:i:2\r\nselectedmonitors:s:0"
    );
    assert_eq!(
        rewrite_for_launch("selectedmonitors:s:1\nselectedmonitors:i:2\nuse multimon:", "3"),
        "selectedmonitors:s:3\r\nselectedmonitors:s:3\r\nuse multimon:i:1\r\nscreen mode id:i:2"
    );
}

#[test]
fn the_copy_keeps_the_connection() {
    let text = "username:s:me\nfull address:s:h:22\n\nuse multimon:i:0\nprompt for credentials:i:1";
    let copy = rewrite_for_launch(text, "4,5");
    assert_eq!(host_in("p", &copy), host_in("p", text));
    let (a, b) = (info_in("p", &copy).unwrap(), info_in("p", text).unwrap());
    assert_eq!((a.host, a.port, a.username), (b.host, b.port, b.username));
    assert!(copy.contains("\r\n\r\n"));
    assert!(copy.contains("prompt for credentials:i:1"));
}

#[test]
fn a_copy_of_a_copy() {
    let text = "full address:s:h\nuse multimon:i:0";
    let copy = rewrite_for_launch(text, "4,5");
    assert_eq!(rewrite_for_launch(&copy, "6"), rewrite_for_launch(text, "6"));
    let blank_end = "selectedmonitors:s:1\nuse multimon:i:1\nscreen mode id:i:2\n\n";
    let copy = rewrite_for_launch(blank_end, "1");
    assert_eq!(copy, "selectedmonitors:s:1\r\nuse multimon:i:1\r\nscreen mode id:i:2\r\n");
    assert_eq!(
        rewrite_for_launch(&copy, "1"),
        "selectedmonitors:s:1\r\nuse multimon:i:1\r\nscreen mode id:i:2"
    );
}

#[test]
fn the_copy_has_a_name_of_its_own() {
    assert_eq!(launch_file_name("work"), "work_launch.rdp");
    assert_ne!(launch_file_name("work"), "work.rdp");
    assert_ne!(launch_file_name(""), "");
}

#[test]
fn preparing_a_launch() {
    let file = prepare_rdp_for_launch(
        "c/work.rdp",
        Ok(utf16("full address:s:h\r\n")),
        "work",
        "1,0",
    )
    .unwrap();
    assert_eq!(file.file_name, "work_launch.rdp");
    assert_eq!(
        file.content,
        "full address:s:h\r\nuse multimon:i:1\r\nscreen mode id:i:2\r\nselectedmonitors:s:1,0"
    );
    let error = prepare_rdp_for_launch("c/work.rdp", Err("gone".to_string()), "work", "1");
    assert!(matches!(error, Err(e) if e == "Cannot read c/work.rdp: gone"));
}
