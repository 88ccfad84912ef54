use logfilter::adb::{adb_binary, args_from, command_args, list_devices, route_line};
use logfilter::bytes::stream_lossy_lines;
use logfilter::transport::{device_serial, Transport};
use std::collections::VecDeque;

#[test]
fn stream_lossy_lines_keeps_all_lines_across_invalid_utf8() {
    // A stray non-UTF-8 byte (0xFF) sits in the middle line. All three lines must be
    // kept, with the bad byte replaced.
    let mut data = Vec::new();
    data.extend_from_slice(b"first\n");
    data.extend_from_slice(b"bad\xFFbyte\n");
    data.extend_from_slice(b"third\n");

    let lines = stream_lossy_lines(&data);
    assert_eq!(lines.len(), 3, "no line should be dropped");
    assert_eq!(lines[0], "first");
    assert!(
        lines[1].starts_with("bad") && lines[1].ends_with("byte"),
        "bad byte line kept with replacement char: {:?}",
        lines[1]
    );
    assert!(lines[1].contains('\u{FFFD}'), "0xFF → U+FFFD");
    assert_eq!(lines[2], "third");
}

#[test]
fn stream_lossy_lines_trims_crlf_and_handles_no_final_newline() {
    let lines = stream_lossy_lines(b"has\r\nno-newline-tail");
    assert_eq!(
        lines,
        vec!["has".to_string(), "no-newline-tail".to_string()]
    );
    assert!(stream_lossy_lines(b"").is_empty());
}

/// Takes in a line and passes on what is to be passed on. Tells whether all of it was
/// accepted.
fn route(
    paused: bool,
    line: &str,
    buffer: &mut VecDeque<String>,
    cap: usize,
    mut send: impl FnMut(String) -> bool,
) -> bool {
    let Some(mut passing) = route_line(paused, line.to_string(), buffer, cap) else {
        return true;
    };
    let mut accepted = true;
    while let Some(line) = passing.next_line(buffer, accepted) {
        accepted = send(line);
    }
    passing.went_through()
}

#[test]
fn route_line_buffers_while_paused_then_flushes_on_resume() {
    let mut buffer: VecDeque<String> = VecDeque::new();
    let mut out: Vec<String> = Vec::new();

    // Paused: lines are buffered, nothing emitted.
    for l in ["a", "b"] {
        route(true, l, &mut buffer, 3, |l| {
            out.push(l);
            true
        });
    }
    assert!(out.is_empty(), "paused lines must not be emitted yet");
    assert_eq!(buffer.len(), 2);

    // Resume: the next line flushes the backlog (oldest first) then itself.
    route(false, "c", &mut buffer, 3, |l| {
        out.push(l);
        true
    });
    assert_eq!(out, vec!["a", "b", "c"]);
    assert!(buffer.is_empty());

    // Overflow past the cap drops the oldest buffered line.
    for l in ["x", "y", "z", "w"] {
        route(true, l, &mut buffer, 3, |_| true);
    }
    assert_eq!(
        buffer.iter().cloned().collect::<Vec<_>>(),
        vec!["y", "z", "w"],
        "cap=3 drops the oldest ('x')"
    );
}

#[test]
fn a_refused_line_ends_the_passing_and_the_lines_behind_it_stay() {
    for refused in ["1", "2", "3", "4"] {
        let mut buffer: VecDeque<String> = ["1", "2", "3"].map(String::from).into();
        let mut sent: Vec<String> = Vec::new();
        let through = route(false, "4", &mut buffer, 9, |l| {
            sent.push(l.clone());
            l != refused
        });
        assert!(!through);
        let k: usize = refused.parse().unwrap();
        let all = ["1", "2", "3", "4"];
        assert_eq!(sent, all[..k]);
        let held: Vec<&str> = all[..3].iter().skip(k).copied().collect();
        assert_eq!(buffer, held);
    }
}

#[test]
fn no_more_lines_are_held_than_allowed() {
    let mut buffer: VecDeque<String> = VecDeque::new();
    assert!(route_line(true, "a".into(), &mut buffer, 0).is_none());
    assert!(buffer.is_empty());
    buffer.extend(["1", "2", "3", "4"].map(String::from));
    assert!(route_line(true, "5".into(), &mut buffer, 2).is_none());
    assert_eq!(buffer, ["4", "5"]);
}

#[test]
fn listed_devices_are_those_that_can_be_used() {
    let out = b"List of devices attached\n* daemon started\n\
        emulator-5554\tdevice\r\nR58M\toffline\nX1\tunauthorized\nX2\tno permissions\n\nbare\n";
    let devices = list_devices(Transport::Adb, true, Some(0), out, b"").unwrap();
    assert_eq!(devices, vec!["emulator-5554", "R58M"]);

    let out = b"7001005458323933328a01bce6a33900\r\n192.168.0.2:5555\n";
    let devices = list_devices(Transport::Hdc, true, Some(0), out, b"").unwrap();
    assert_eq!(
        devices,
        vec!["7001005458323933328a01bce6a33900", "192.168.0.2:5555"]
    );
    let devices = list_devices(Transport::Hdc, true, Some(0), b"[Empty]\n", b"").unwrap();
    assert!(devices.is_empty());
}

#[test]
fn a_tool_that_fails_says_why() {
    let e = list_devices(Transport::Adb, false, Some(1), b"x\tdevice\n", b" no daemon \n")
        .unwrap_err();
    assert_eq!(e.code, Some(1));
    assert_eq!(e.message, "no daemon");
    let e = list_devices(Transport::Adb, false, None, b"", b"\xFF").unwrap_err();
    assert_eq!(e.code, None);
    assert_eq!(e.message, "\u{FFFD}");
}

#[test]
fn commands_are_split_as_the_shell_does() {
    assert_eq!(
        command_args(Transport::Adb, None, "logcat -s \"My Tag\" a\\ b"),
        vec!["logcat", "-s", "My Tag", "a b"]
    );
    assert_eq!(
        command_args(Transport::Hdc, Some("S1"), "hilog  -r"),
        vec!["-t", "S1", "hilog", "-r"]
    );
    // A quote that is left open: the words between white space.
    assert_eq!(
        command_args(Transport::Adb, Some("S1"), "logcat -s \"My Tag"),
        vec!["-s", "S1", "logcat", "-s", "\"My", "Tag"]
    );
    assert_eq!(
        args_from(Transport::Adb, None, "a b", Some(vec!["x".into()])),
        vec!["x"]
    );
}

#[test]
fn a_configured_tool_goes_before_an_installed_one() {
    let adb = Transport::Adb;
    assert_eq!(adb_binary(adb, Some("/x/adb"), Some("/y/adb")), "/x/adb");
    // Also where there is no such file.
    assert_eq!(adb_binary(adb, Some("/no/such/adb"), None), "/no/such/adb");
    assert_eq!(adb_binary(Transport::Hdc, Some("/x"), None), "/x");
    // An empty path is none.
    assert_eq!(adb_binary(Transport::Hdc, Some(""), None), "hdc");
    assert_eq!(adb_binary(adb, None, Some("/y/adb")), "/y/adb");
    assert_eq!(adb_binary(adb, None, None), "adb");
    assert_eq!(adb_binary(Transport::Hdc, None, None), "hdc");
}

#[test]
fn serials_are_the_first_words_of_labels() {
    assert_eq!(device_serial("R58M (unauthorized)"), "R58M");
    assert_eq!(device_serial("R58M"), "R58M");
}
