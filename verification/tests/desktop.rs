//! The desktop entry.

use dd_gui::desktop::{
    data_home, desktop_entry, exec_arg, icon_path, leaves_alone, outdated, running_binary, stale_caches, temporary_name,
    Changes, TEMPLATE,
};

/// The value of `key` in the entry's [Desktop Entry] group.
fn value<'a>(entry: &'a str, key: &str) -> &'a str {
    let mut values = entry
        .lines()
        .filter_map(|line| line.strip_prefix(key)?.strip_prefix('='));
    let value = values.next().unwrap_or_else(|| panic!("no {key} in:\n{entry}"));
    assert!(values.next().is_none(), "{key} twice in:\n{entry}");
    value
}

/// Reads an Exec value back the way desktops do: the file's
/// escapes, then field codes (`%f` becomes "FILE"), then the quoting.
fn parse_exec(value: &str) -> Vec<String> {
    let mut unescaped = String::new();
    let mut chars = value.chars();
    while let Some(c) = chars.next() {
        unescaped.push(match c {
            '\\' => match chars.next() {
                Some('\\') => '\\',
                Some('s') => ' ',
                Some('n') => '\n',
                Some('t') => '\t',
                Some('r') => '\r',
                other => panic!("bad escape \\{other:?} in {value:?}"),
            },
            c => c,
        });
    }
    let mut expanded = String::new();
    let mut chars = unescaped.chars();
    while let Some(c) = chars.next() {
        match c {
            '%' => match chars.next() {
                Some('%') => expanded.push('%'),
                Some('f') => expanded.push_str("FILE"),
                other => panic!("field code %{other:?} in {value:?}"),
            },
            c => expanded.push(c),
        }
    }
    let mut args = Vec::new();
    let mut chars = expanded.chars().peekable();
    while let Some(&c) = chars.peek() {
        if c == ' ' {
            chars.next();
            continue;
        }
        let mut arg = String::new();
        if c == '"' {
            chars.next();
            loop {
                match chars.next().expect("unterminated quote") {
                    '"' => break,
                    '\\' => {
                        let next = chars.next().expect("dangling backslash");
                        assert!(matches!(next, '"' | '`' | '$' | '\\'), "\\{next} in quotes");
                        arg.push(next);
                    }
                    c => arg.push(c),
                }
            }
            assert!(
                matches!(chars.peek(), None | Some(' ')),
                "junk after quotes in {value:?}"
            );
        } else {
            while let Some(&c) = chars.peek() {
                if c == ' ' {
                    break;
                }
                assert!(
                    !"\"'\\><~|&;$*?#`=()\t\n".contains(c),
                    "reserved {c:?} unquoted in {value:?}"
                );
                arg.push(c);
                chars.next();
            }
        }
        args.push(arg);
    }
    args
}

const WROTE_ALL: Changes = Changes {
    icons: true,
    entry: true,
};
#[test]
fn exec_quoting() {
    // Examples straight from the Exec rules.
    for (path, exec) in [
        ("/usr/bin/dd-gui", "/usr/bin/dd-gui %f"),
        ("/home/me/My Apps/dd-gui", r#""/home/me/My Apps/dd-gui" %f"#),
        ("/home/me/100%/dd-gui", "/home/me/100%%/dd-gui %f"),
        ("/home/me/a=b/dd-gui", r#""/home/me/a=b/dd-gui" %f"#),
        ("/home/me/~/dd-gui", r#""/home/me/~/dd-gui" %f"#),
        // A literal $ is written \\$ and a literal backslash \\\\ (the rules' own examples).
        ("/home/me/$HOME/dd-gui", r#""/home/me/\\$HOME/dd-gui" %f"#),
        (r"/home/me/back\slash/dd-gui", r#""/home/me/back\\\\slash/dd-gui" %f"#),
        (r#"/home/me/"quoted"/dd-gui"#, r#""/home/me/\\"quoted\\"/dd-gui" %f"#),
        ("/home/me/`tick`/dd-gui", r#""/home/me/\\`tick\\`/dd-gui" %f"#),
        ("/home/me/it's/dd-gui", r#""/home/me/it's/dd-gui" %f"#),
        ("/home/me/Programme/dd-gui (1)", r#""/home/me/Programme/dd-gui (1)" %f"#),
        ("/home/josé/приложения/dd-gui", "/home/josé/приложения/dd-gui %f"),
    ] {
        let entry = desktop_entry(path, TEMPLATE).unwrap();
        assert_eq!(value(&entry, "Exec"), exec, "for {path}");
        assert_eq!(parse_exec(value(&entry, "Exec")), [path, "FILE"], "for {path}");
        // TryExec is a plain string: only the file's own escaping applies.
        assert_eq!(value(&entry, "TryExec"), path.replace('\\', r"\\"), "for {path}");
    }
    // Every reserved character, and some that aren't, round-trip.
    for c in " \"'\\><~|&;$*?#`=()%!@^[]{},+:".chars() {
        let path = format!("/tmp/a{c}b{c}/dd-gui");
        let entry = desktop_entry(&path, TEMPLATE).unwrap();
        assert_eq!(parse_exec(value(&entry, "Exec")), [path.as_str(), "FILE"]);
    }
    assert_eq!(exec_arg("plain"), "plain");
    assert_eq!(exec_arg("50%"), "50%%");
    assert_eq!(exec_arg("50% off"), r#""50%% off""#);
}

#[test]
fn data_home_follows_xdg() {
    let os = |s: &str| Some(s.to_owned());
    assert_eq!(data_home(os("/data"), os("/home/me")), Some(String::from("/data")));
    assert_eq!(
        data_home(None, os("/home/me")),
        Some(String::from("/home/me/.local/share"))
    );
    // Empty or relative values are ignored (the base directory rules).
    assert_eq!(
        data_home(os(""), os("/home/me")),
        Some(String::from("/home/me/.local/share"))
    );
    assert_eq!(
        data_home(os("data"), os("/home/me")),
        Some(String::from("/home/me/.local/share"))
    );
    assert_eq!(data_home(None, None), None);
    assert_eq!(data_home(os(""), os("")), None);
    assert_eq!(data_home(None, os("me")), None);
}

#[test]
fn deleted_suffix() {
    let gone = "/data/dd-gui";
    assert_eq!(running_binary(format!("{gone} (deleted)"), false), gone);
    // A file that's really called that stays as it is.
    let odd = "/data/odd (deleted)";
    assert_eq!(running_binary(odd.to_owned(), true), odd);
    assert_eq!(running_binary(gone.to_owned(), false), gone);
}

#[test]
fn entries_keep_the_other_lines() {
    let short = "[Desktop Entry]\nType=Application\nName=DD-GUI\nExec=dd-gui %f\nTryExec=dd-gui\nIcon=dd-gui\n";
    let entry = desktop_entry("/opt/dd-gui/dd-gui", short).unwrap();
    assert!(entry.starts_with('#'), "starts with the comment that explains it");
    assert!(entry.ends_with("[Desktop Entry]\nType=Application\nName=DD-GUI\nExec=/opt/dd-gui/dd-gui %f\nTryExec=/opt/dd-gui/dd-gui\nIcon=dd-gui\n"));
    assert!(desktop_entry("/opt/a\nb/dd-gui", TEMPLATE).is_none());
    assert!(desktop_entry("/opt/a\u{1b}b/dd-gui", TEMPLATE).is_none());
}

#[test]
fn files_of_the_integration() {
    assert_eq!(icon_path(48), "icons/hicolor/48x48/apps/dd-gui.png");
    assert_eq!(temporary_name("dd-gui.desktop", 7), ".dd-gui.desktop.7.tmp");
    assert!(outdated(&None, b"x"));
    assert!(outdated(&Some(b"y".to_vec()), b"x"));
    assert!(outdated(&Some(b"xx".to_vec()), b"x"));
    assert!(!outdated(&Some(b"x".to_vec()), b"x"));
    assert_eq!(stale_caches(Changes { icons: true, entry: false }, true), (false, true));
    assert_eq!(stale_caches(Changes { icons: true, entry: true }, false), (true, false));
    assert!(leaves_alone(true, false) && leaves_alone(false, true) && !leaves_alone(false, false));
}

#[test]
fn the_template_has_one_exec_and_try_exec() {
    let template = TEMPLATE;
    assert_eq!(value(template, "Exec"), "dd-gui %f");
    assert_eq!(value(template, "TryExec"), "dd-gui");
    assert_eq!(value(template, "Icon"), "dd-gui");
    assert_eq!(value(template, "StartupWMClass"), "dd-gui");
    // Actions would have Exec lines of their own, which desktop_entry doesn't handle.
    assert_eq!(template.lines().filter(|line| line.starts_with('[')).count(), 1);
}

#[test]
fn the_entry_says_what_the_program_is() {
    let entry = desktop_entry("/opt/dd-gui/dd-gui", TEMPLATE).unwrap();
    assert!(entry.lines().any(|line| line == "[Desktop Entry]"));
    assert_eq!(value(&entry, "Exec"), "/opt/dd-gui/dd-gui %f");
    assert_eq!(value(&entry, "TryExec"), "/opt/dd-gui/dd-gui");
    assert_eq!(value(&entry, "Type"), "Application");
    assert_eq!(value(&entry, "Name"), "DD-GUI");
    assert_eq!(value(&entry, "GenericName"), "Disk Imager");
    assert!(!value(&entry, "Comment").is_empty());
    assert_eq!(value(&entry, "Categories"), "System;Utility;");
    assert_eq!(value(&entry, "Terminal"), "false");
    let mime: Vec<&str> = value(&entry, "MimeType").split_terminator(';').collect();
    for t in [
        "application/vnd.efi.iso",
        "application/x-cd-image",
        "application/vnd.efi.img",
        "application/x-raw-disk-image",
        "application/x-raw-disk-image-xz-compressed",
        "application/gzip",
        "application/x-xz",
        "application/zstd",
        "application/zip",
        "application/x-apple-diskimage",
        "application/x-vhd-disk",
        "application/x-vhdx-disk",
        "application/x-vmdk-disk",
        "application/x-qemu-disk",
    ] {
        assert!(mime.contains(&t), "{t} missing from MimeType");
    }
}
