//! Workers: what they are told and what they say.

use dd_gui::job::{
    administrator_script, is_record_count, launcher, outcome, own_executable, progress_bytes, quote, script_outcome,
    start_error, CopyMode, Event, Outcome, Shared, Spec, Splitter, Work,
};
use dd_gui::plan::System;

#[test]
fn parses_dd_output() {
    assert_eq!(progress_bytes("5000000000 bytes (5.0 GB, 4.7 GiB) copied, 120 s, 41.7 MB/s"), Some(5_000_000_000));
    assert_eq!(progress_bytes("1 byte copied, 0.1 s, 10 B/s"), Some(1));
    assert_eq!(progress_bytes("dd: error writing '/dev/sdb': No space left on device"), None);
    assert!(is_record_count("1192+1 records in"));
    assert!(!is_record_count("dd: 12+0 records"));

    let mut lines = Vec::new();
    let mut splitter = Splitter::default();
    lines.extend(splitter.feed(b"\r1 bytes copied\r2 bytes"));
    lines.extend(splitter.feed(b" copied\n3+0 records in\n"));
    assert_eq!(lines, ["1 bytes copied", "2 bytes copied", "3+0 records in"]);
}

#[test]
fn pieces_of_lines() {
    let text = b"one\r\n\ntwo\rthree";
    let mut whole = Splitter::default();
    let mut lines = whole.feed(text);
    lines.extend(whole.flush());
    assert_eq!(lines, ["one", "two", "three"]);
    for cut in 0..text.len() {
        let mut s = Splitter::default();
        let mut parts = s.feed(&text[..cut]);
        parts.extend(s.feed(&text[cut..]));
        parts.extend(s.flush());
        assert_eq!(parts, lines);
        assert_eq!(s.flush(), None);
    }
    // What isn't text comes out with marks.
    let mut s = Splitter::default();
    assert_eq!(s.feed(b"a\xffb\n"), ["a\u{fffd}b"]);
}

fn spec() -> Spec {
    Spec {
        work: Work::Copy {
            mode: CopyMode::Smart,
            from: "/dev/sdy".into(),
            to: "/tmp/x.img.zst".into(),
            ask: true,
            block_size: Some(1 << 20),
            size: None,
            dd_args: vec!["if=/dev/sdy".into(), "of=/tmp/x.img".into()],
        },
        elevate: true,
        unmount: vec!["/dev/sdy1".into()],
        lock: vec!["E:".into()],
        sync: Some("/dev/sdz".into()),
    }
}

#[test]
fn workers_get_their_words() {
    assert_eq!(
        spec().piped_words(),
        [
            "copy",
            "--ddgui-worker",
            "--ddgui-unmount=/dev/sdy1",
            "--ddgui-lock=E:",
            "--ddgui-sync=/dev/sdz",
            "--ddgui-watch-stdin",
            "--mode=smart",
            "--from=/dev/sdy",
            "--to=/tmp/x.img.zst",
            "--ask",
            "--block-size=1048576",
            "--",
            "if=/dev/sdy",
            "of=/tmp/x.img",
        ]
    );
    let words = spec().followed_words("/tmp/cancel", "/tmp/answer", 42);
    assert_eq!(words[5], "--ddgui-cancel-file=/tmp/cancel");
    assert_eq!(words[6], "--ddgui-answer-file=/tmp/answer");
    assert_eq!(words[7], "--ddgui-parent=42");
    let dd = Work::Dd(vec!["if=a".into()]);
    assert_eq!(dd.args(&["--ddgui-worker".to_owned()]), ["dd", "--ddgui-worker", "if=a"]);
    assert!(spec().work.asks() && !dd.asks());
    let zeros = Work::Copy {
        mode: CopyMode::Zeros,
        from: String::new(),
        to: "x".into(),
        ask: false,
        block_size: None,
        size: Some(7),
        dd_args: vec![],
    };
    assert_eq!(zeros.args(&[]), ["copy", "--mode=zeros", "--to=x", "--size=7"]);
}

#[test]
fn launchers() {
    assert_eq!(launcher("/dd", false, System::Linux, Some("sudo")), ["/dd"]);
    assert_eq!(launcher("/dd", true, System::Windows, None), ["/dd"]);
    assert_eq!(launcher("/dd", true, System::Linux, None), ["pkexec", "/dd"]);
    assert_eq!(launcher("/dd", true, System::Linux, Some(" ")), ["pkexec", "/dd"]);
    assert_eq!(launcher("/dd", true, System::Linux, Some("sudo -A")), ["sudo", "-A", "/dd"]);
    assert_eq!(own_executable("/x (deleted)".into(), false, true), "/x");
    assert_eq!(own_executable("/x (deleted)".into(), false, false), "/x (deleted)");
    assert_eq!(own_executable("/x (deleted)".into(), true, true), "/x (deleted)");
    assert!(start_error(true, true, "?").contains("pkexec (polkit) isn't installed"));
    assert_eq!(start_error(true, false, "no"), "couldn't start the copy: no");
}

#[test]
fn scripts_hand_words_over_as_they_are() {
    assert_eq!(quote("it's"), r"'it'\''s'");
    let script = administrator_script(&["/a b".to_owned(), r#"x"\"#.to_owned()], "/s", "/o");
    assert_eq!(
        script,
        r#"do shell script "'/a b' 'x\"\\' </dev/null >>'/s' 2>>'/o'" with administrator privileges"#
    );
}

#[test]
fn status_lines() {
    let mut s = Shared::default();
    assert!(matches!(s.on_status_line("@layout {\"size\": 1}\n"), Some(Event::Layout(j)) if j == "{\"size\": 1}"));
    assert!(!s.started);
    assert!(matches!(s.on_status_line("@ready"), Some(Event::Started)));
    assert!(s.started);
    assert!(matches!(s.on_status_line("@copy"), Some(Event::Copying)));
    assert!(matches!(s.on_status_line("@total 12"), Some(Event::Total(12))));
    assert!(s.on_status_line("@total x").is_none());
    assert!(matches!(s.on_status_line("@progress 5 7"), Some(Event::Progress { done: 5, written: Some(7) })));
    assert!(matches!(s.on_status_line(" @progress  5 "), Some(Event::Progress { done: 5, written: None })));
    assert!(matches!(s.on_status_line("@sync"), Some(Event::Syncing)));
    assert!(s.on_status_line("hello").is_none());
}

#[test]
fn outcomes() {
    let mut s = Shared::default();
    assert!(matches!(outcome(Some(0), &s, true), Outcome::Success));
    assert!(matches!(outcome(Some(126), &s, true), Outcome::NotAuthorized(m) if m == "The password prompt was dismissed."));
    assert!(matches!(outcome(Some(127), &s, true), Outcome::NotAuthorized(m) if m == "Authorization failed."));
    assert!(s.on_dd_line("Error executing command as another user: Not authorized\n").is_none());
    assert!(
        matches!(outcome(Some(127), &s, true), Outcome::NotAuthorized(m) if m == "Authorization failed: Not authorized")
    );
    assert!(matches!(script_outcome(Some(1), &s, "x (-128)"), Outcome::NotAuthorized(m) if m.contains("dismissed")));
    assert!(
        matches!(script_outcome(Some(1), &s, " no \n"), Outcome::NotAuthorized(m) if m == "Authorization failed: no")
    );
    let mut s = Shared::default();
    s.started = true;
    assert!(matches!(outcome(Some(-3), &s, true), Outcome::Failed(m) if m == "dd stopped with exit code -3."));
    assert!(matches!(outcome(None, &s, true), Outcome::Failed(m) if m == "dd was stopped by a signal."));
    for line in ["one", "two", "three", "four", "dd-gui: cancelled", "", "3+0 records in"] {
        assert!(s.on_dd_line(line).is_none());
    }
    assert!(matches!(s.on_dd_line("9 bytes copied"), Some(Event::Progress { done: 9, written: None })));
    assert!(matches!(outcome(Some(1), &s, true), Outcome::Failed(m) if m == "two\nthree\nfour"));
    for i in 0..30 {
        s.on_dd_line(&format!("message {i}"));
    }
    assert_eq!(s.messages.len(), 20);
    assert_eq!(s.messages[0], "message 10");
    assert!(!s.cancel());
    assert!(matches!(outcome(Some(0), &s, true), Outcome::Cancelled));
    assert!(matches!(script_outcome(Some(0), &s, ""), Outcome::Cancelled));
    assert!(Shared::default().cancel());
}

#[test]
fn workers_understand_their_jobs() {
    let spec = Spec {
        work: Work::Copy {
            mode: CopyMode::Smart,
            from: "/dev/sdy".to_owned(),
            to: "/tmp/grüße = ja.img".to_owned(),
            ask: true,
            block_size: Some(0x10_0000),
            size: None,
            dd_args: vec!["if=/dev/sdy".to_owned(), "--".to_owned()],
        },
        elevate: false,
        unmount: vec!["/dev/sdy1".to_owned()],
        lock: vec![],
        sync: Some("/dev/sdz".to_owned()),
    };
    for words in [spec.piped_words(), spec.followed_words("/tmp/c", "/tmp/a", 77)] {
        assert_eq!(words[0], "copy");
        let raw: Vec<Vec<u8>> = words[1..].iter().map(|w| w.as_bytes().to_vec()).collect();
        let a = dd_gui::engine::args::Args::parse(&raw).unwrap();
        assert_eq!(a.mode, dd_gui::engine::args::Mode::Smart);
        assert_eq!(a.from, b"/dev/sdy");
        assert_eq!(a.to, "/tmp/grüße = ja.img".as_bytes());
        assert!(a.ask && a.worker());
        assert_eq!(a.block_size, 0x10_0000);
        assert_eq!(a.dd, [b"if=/dev/sdy".to_vec(), b"--".to_vec()]);
        let n = a.plumbing.len();
        assert_eq!(a.plumbing, words[1..1 + n]);
        assert_eq!(a.plumbing[1], "--ddgui-unmount=/dev/sdy1");
    }
}
