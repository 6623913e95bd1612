//! Drives as the system's tools list them.

use dd_gui::drives::linux;
use dd_gui::drives::macos;
use dd_gui::drives::windows::{encoded_command, error_text, parse, volume_name, SCRIPT};
use dd_gui::drives::{first_line, flag, items, list, natural_key, number, text, tidy, Drive, DriveKind};
use dd_gui::properties::{plist_xml, property_list};
use dd_gui::values::{json, Node};

fn is_text(n: &Node, s: &str) -> bool {
    matches!(n, Node::Text(t) if t == s)
}

#[test]
fn sorts_naturally() {
    let mut names = vec!["/dev/disk10", "/dev/disk2", "/dev/disk1"];
    names.sort_by_key(|n| natural_key(n));
    assert_eq!(names, ["/dev/disk1", "/dev/disk2", "/dev/disk10"]);
}

#[test]
fn tidies_names() {
    assert_eq!(tidy("  SanDisk  Cruzer_Blade "), "SanDisk Cruzer Blade");
}

#[test]
fn reads_loose_json() {
    let v = json(
        br#"{"a": " x ", "b": "", "n": 5, "s": "7", "t": true, "one": 1, "f": "0",
             "list": ["p", null], "single": "q", "wrapped": {"value": ["r", "s"], "Count": 2}}"#,
    )
    .unwrap();
    assert_eq!(text(&v, "a").as_deref(), Some("x"));
    assert_eq!(text(&v, "b"), None);
    assert_eq!(text(&v, "missing"), None);
    assert_eq!((number(&v, "n"), number(&v, "s"), number(&v, "a")), (5, 7, 0));
    assert!(flag(&v, "t") && flag(&v, "one") && !flag(&v, "f") && !flag(&v, "missing"));
    let l = items(&v, "list");
    assert!(l.len() == 1 && is_text(l[0], "p"));
    let l = items(&v, "single");
    assert!(l.len() == 1 && is_text(l[0], "q"));
    let l = items(&v, "wrapped");
    assert!(l.len() == 2 && is_text(l[0], "r") && is_text(l[1], "s"));
    assert!(items(&v, "missing").is_empty());
}

/// What the script prints on a PC with a system NVMe, a USB stick with a lettered FAT32 volume
/// and an EFI partition without a letter, and an attached VHDX.
const LISTING: &str = r#"[
  {"Number":0,"Name":"Samsung SSD 980 PRO 1TB","Size":1000204886016,"Bus":"NVMe","External":false,"System":true,
   "ReadOnly":false,"Offline":false,"Volumes":[
     {"Letter":"","Guid":"\\\\?\\Volume{11111111-1111-1111-1111-111111111111}\\","Folders":[],"Label":"","FileSystem":"FAT32"},
     {"Letter":"C","Guid":"\\\\?\\Volume{22222222-2222-2222-2222-222222222222}\\","Folders":[],"Label":"Windows","FileSystem":"NTFS"}]},
  {"Number":2,"Name":"SanDisk Cruzer Blade USB Device","Size":31914983424,"Bus":"USB","External":true,"System":false,
   "ReadOnly":false,"Offline":false,"Volumes":[
     {"Letter":"E","Guid":"\\\\?\\Volume{33333333-3333-3333-3333-333333333333}\\","Folders":["C:\\mnt\\stick\\"],"Label":"Cl\u00e9 USB","FileSystem":"FAT32"},
     {"Letter":"\u0000","Guid":"\\\\?\\Volume{44444444-4444-4444-4444-444444444444}\\","Folders":[],"Label":"","FileSystem":"FAT"}]},
  {"Number":3,"Name":"Msft Virtual Disk","Size":268435456,"Bus":"File Backed Virtual","External":false,"System":false,
   "ReadOnly":false,"Offline":false,"Volumes":{"value":[{"Letter":"V","Guid":"","Folders":[],"Label":"VHD","FileSystem":"NTFS"}],"Count":1}},
  {"Number":4,"Name":"Generic STORAGE DEVICE USB Device","Size":0,"Bus":"USB","Volumes":[]},
  {"Number":null,"Name":"ghost","Size":1000,"Bus":"SATA"}
]"#;


/// The script's output with a page file on D:, a NUL drive letter for partitions without one, a
/// label with an é, a VHD without volumes, and a dynamic disk whose BusType came as a number.
const FROM_POWERSHELL: &str = r#"[{"Number":0,"Name":"Samsung SSD 980 PRO 1TB","Size":1000204886016,"Bus":"NVMe","External":false,"System":true,"ReadOnly":false,"Offline":false,"Dynamic":false,"Volumes":[{"Letter":"","Guid":"\\\\?\\Volume{11111111-0000-0000-0000-000000000001}\\","Folders":[],"Label":"","FileSystem":"FAT32"},{"Letter":"C","Guid":"\\\\?\\Volume{11111111-0000-0000-0000-000000000002}\\","Folders":[],"Label":"Windows","FileSystem":"NTFS"}]},{"Number":1,"Name":"SanDisk Cruzer Blade","Size":31914983424,"Bus":"USB","External":true,"System":false,"ReadOnly":false,"Offline":false,"Dynamic":false,"Volumes":[{"Letter":"E","Guid":"\\\\?\\Volume{22222222-0000-0000-0000-000000000001}\\","Folders":["C:\\mnt\\stick\\"],"Label":"Cl\u00e9 USB","FileSystem":"FAT32"},{"Letter":"","Guid":"\\\\?\\Volume{22222222-0000-0000-0000-000000000002}\\","Folders":[],"Label":"VTOYEFI","FileSystem":"FAT"}]},{"Number":2,"Name":"WDC WD20EZRZ","Size":2000398934016,"Bus":"SATA","External":false,"System":true,"ReadOnly":false,"Offline":false,"Dynamic":false,"Volumes":[{"Letter":"D","Guid":"\\\\?\\Volume{33333333-0000-0000-0000-000000000001}\\","Folders":[],"Label":"Data","FileSystem":"NTFS"}]},{"Number":3,"Name":"Msft Virtual Disk","Size":1073741824,"Bus":"File Backed Virtual","External":false,"System":false,"ReadOnly":false,"Offline":false,"Dynamic":false,"Volumes":[]},{"Number":4,"Name":"ST1000DM010-2EP102","Size":1000204886016,"Bus":"11","External":false,"System":false,"ReadOnly":false,"Offline":false,"Dynamic":true,"Volumes":[]}]"#;

#[test]
fn lists_disks_and_every_volume() {
    let drives = parse(LISTING.as_bytes()).unwrap();
    let paths: Vec<&str> = drives.iter().map(|d| d.path.as_str()).collect();
    assert_eq!(paths, [r"\\.\PhysicalDrive0", r"\\.\PhysicalDrive2", r"\\.\PhysicalDrive3"]);

    let system = &drives[0];
    assert!(system.system && !system.removable);
    assert_eq!((system.kind, system.bus.as_str()), (DriveKind::Ssd, "NVMe"));
    assert_eq!(system.lock, [r"\\?\Volume{11111111-1111-1111-1111-111111111111}", "C:"]);

    let stick = &drives[1];
    assert_eq!((stick.name.as_str(), stick.kind, stick.removable, stick.system), ("SanDisk Cruzer Blade", DriveKind::Usb, true, false));
    assert_eq!(stick.mountpoints, [r"E:\", r"C:\mnt\stick\"]);
    // A NUL "letter" (no letter) is no letter: the volume is locked by its GUID.
    assert_eq!(stick.lock, ["E:", r"\\?\Volume{44444444-4444-4444-4444-444444444444}"]);
    assert_eq!(stick.volumes, ["Clé USB (FAT32)", "FAT"]);

    let vhd = &drives[2];
    assert_eq!((vhd.kind, vhd.bus.as_str(), vhd.removable), (DriveKind::Virtual, "VHD", false));
    assert_eq!((vhd.lock.clone(), vhd.volumes.clone()), (vec!["V:".to_owned()], vec!["VHD (NTFS)".to_owned()]));
}

#[test]
fn reads_what_the_script_prints() {
    let drives = parse(FROM_POWERSHELL.as_bytes()).unwrap();
    let summary: Vec<(&str, DriveKind, bool, bool)> =
        drives.iter().map(|d| (d.path.as_str(), d.kind, d.removable, d.system)).collect();
    assert_eq!(
        summary,
        [
            (r"\\.\PhysicalDrive0", DriveKind::Ssd, false, true),
            (r"\\.\PhysicalDrive1", DriveKind::Usb, true, false),
            // Holds the page file.
            (r"\\.\PhysicalDrive2", DriveKind::Hdd, false, true),
            (r"\\.\PhysicalDrive3", DriveKind::Virtual, false, false),
            (r"\\.\PhysicalDrive4", DriveKind::Hdd, false, false),
        ]
    );
    let dynamic = &drives[4];
    assert_eq!((dynamic.bus.as_str(), dynamic.read_only), ("SATA", true));
    let stick = &drives[1];
    assert_eq!(stick.lock, ["E:", r"\\?\Volume{22222222-0000-0000-0000-000000000002}"]);
    assert_eq!(stick.mountpoints, [r"E:\", r"C:\mnt\stick\"]);
    assert_eq!(stick.volumes, ["Clé USB (FAT32)", "VTOYEFI (FAT)"]);
    assert!(drives[3].lock.is_empty() && drives[3].volumes.is_empty());
}

#[test]
fn copes_with_what_powershell_does_to_json() {
    // One disk (PowerShell may drop the array), a BusType as a number, a byte order
    // mark and a warning before the JSON.
    let out = "\u{feff}WARNING: something [odd]\r\n{\"Number\":\"1\",\"Name\":\"\",\"Size\":\"8004304896\",\"Bus\":\"7\",\"Volumes\":null}\r\n";
    let drives = parse(out.as_bytes()).unwrap();
    assert_eq!(drives.len(), 1);
    assert_eq!((drives[0].name.as_str(), drives[0].bus.as_str(), drives[0].kind), ("Disk 1", "USB", DriveKind::Usb));
    assert!(drives[0].lock.is_empty());
    assert!(parse(b"[]").unwrap().is_empty());
}

#[test]
fn says_what_went_wrong() {
    assert!(parse(b"").unwrap_err().contains("PowerShell listed no drives"));
    assert!(parse(b"Get-Disk : Access denied\r\n").unwrap_err().contains("Access denied"));
    let clixml = "#< CLIXML\r\n<Objs Version=\"1.1.0.1\" xmlns=\"http://schemas.microsoft.com/powershell/2004/04\"><S S=\"Error\">Get-Disk : Invalid class _x000D__x000A_</S></Objs>";
    assert_eq!(error_text(clixml.as_bytes()), "Get-Disk : Invalid class");
    assert_eq!(error_text(b"The Storage module isn't there\r\n"), "The Storage module isn't there");
    assert_eq!(error_text(b""), "it stopped without saying why");
}

#[test]
fn encodes_commands_as_powershell_wants() {
    // [Convert]::ToBase64String([Text.Encoding]::Unicode.GetBytes('dir'))
    assert_eq!(encoded_command("dir"), "ZABpAHIA");
    assert_eq!(encoded_command("ab"), "YQBiAA==");
    assert_eq!(encoded_command("é"), "6QA=");
}

#[test]
fn volume_names() {
    assert_eq!(volume_name(r"\\?\Volume{abc}\").as_deref(), Some(r"\\?\Volume{abc}"));
    assert_eq!(volume_name(r"E:\"), None);
    assert_eq!(volume_name(r"\\?\Volume{abc}\..\x"), None);
}

#[test]
fn the_script_fits_a_command_line() {
    // Windows allows 32767 characters in all.
    assert!(encoded_command(SCRIPT).len() < 16_000);
}

fn drive(path: &str, removable: bool) -> Drive {
    Drive {
        path: path.to_owned(),
        io_path: path.to_owned(),
        name: "x".to_owned(),
        size: 1000,
        bus: String::new(),
        kind: DriveKind::Usb,
        removable,
        system: false,
        read_only: false,
        mountpoints: vec![],
        volumes: vec![],
        unmount: vec![],
        lock: vec![],
    }
}

#[test]
fn lists_start_with_what_can_be_taken_out() {
    let sorted = list(vec![drive("/dev/sda10", false), drive("/dev/sdb", true), drive("/dev/sda2", false)]);
    let paths: Vec<&str> = sorted.iter().map(|d| d.path.as_str()).collect();
    assert_eq!(paths, ["/dev/sdb", "/dev/sda2", "/dev/sda10"]);
}

#[test]
fn first_lines_skip_blank_ones() {
    assert_eq!(first_line(b"\n  \n  it failed \nmore"), "it failed");
    assert_eq!(first_line(b""), "");
}

const LSBLK: &[u8] = br#"{"blockdevices": [
  {"name": "nvme0n1", "path": "/dev/nvme0n1", "type": "disk", "size": 256060514304, "ro": false, "rm": false,
   "tran": "nvme", "model": "KINGSTON_SNV2S", "vendor": null, "rota": false, "hotplug": false, "mountpoints": [null],
   "children": [
     {"name": "nvme0n1p1", "path": "/dev/nvme0n1p1", "type": "part", "size": 1000, "mountpoints": ["/"],
      "fstype": "ext4", "label": "root"}]},
  {"name": "sdb", "path": "/dev/sdb", "type": "disk", "size": 31914983424, "ro": false, "rm": true, "tran": "usb",
   "model": "Cruzer Blade", "vendor": "SanDisk ", "rota": true, "hotplug": true, "mountpoints": [null],
   "children": [
     {"name": "sdb1", "path": "/dev/sdb1", "type": "part", "size": 1000, "mountpoints": ["/media/me/STICK"],
      "fstype": "vfat", "label": "STICK"}]}
]}"#;

#[test]
fn reads_what_lsblk_prints() {
    let drives = linux::list(LSBLK).unwrap();
    assert_eq!(drives.len(), 2);
    let system = drives.iter().find(|d| d.path == "/dev/nvme0n1").unwrap();
    assert!(system.system && !system.removable);
    let stick = drives.iter().find(|d| d.path == "/dev/sdb").unwrap();
    assert_eq!((stick.name.as_str(), stick.kind, stick.size), ("SanDisk Cruzer Blade", DriveKind::Usb, 31_914_983_424));
    assert!(stick.removable && !stick.system);
    assert_eq!(stick.mountpoints, ["/media/me/STICK"]);
    assert_eq!(stick.unmount, ["/dev/sdb1"]);
    assert_eq!(stick.volumes, ["STICK (vfat)"]);
    assert!(linux::list(b"lsblk: oops").unwrap_err().starts_with("couldn't read lsblk output: "));
}

const PLIST: &[u8] = br#"<?xml version="1.0" encoding="UTF-8"?>
<!DOCTYPE plist PUBLIC "-//Apple//DTD PLIST 1.0//EN" "http://www.apple.com/DTDs/PropertyList-1.0.dtd">
<plist version="1.0"><dict><key>WholeDisks</key><array><string>disk4</string></array>
<key>Size</key><integer>31914983424</integer><key>Yes</key><true/><key>Raw</key><data>AQID</data></dict></plist>"#;

/// How many lists are in each other, and what is in the innermost of them.
fn unnested(mut v: Node) -> (usize, Node) {
    let mut depth = 0;
    while let Node::List(mut list) = v {
        assert_eq!(list.len(), 1);
        v = list.pop().unwrap();
        depth += 1;
    }
    (depth, v)
}

fn lists(n: usize) -> String {
    format!("{}<true/>{}", "<array>".repeat(n), "</array>".repeat(n))
}

#[test]
fn deep_property_lists_are_read() {
    let nested = |n: usize| format!("<plist>{}</plist>", lists(n));
    for read in [plist_xml, property_list] {
        for n in [1, 127, 128] {
            let (depth, inner) = unnested(read(nested(n).as_bytes()).unwrap());
            assert!(depth == n && matches!(inner, Node::Bool(true)));
        }
        // What is deeper is left out.
        for n in [129, 1000, 100_000] {
            let (depth, inner) = unnested(read(nested(n).as_bytes()).unwrap());
            assert!(depth == 128 && matches!(inner, Node::Null));
        }
    }
    let text = format!("{}a{}", "(".repeat(5000), ")".repeat(5000));
    let (depth, inner) = unnested(property_list(text.as_bytes()).unwrap());
    assert!(depth == 128 && matches!(inner, Node::Null));

    // The members around deep ones, and the order of values.
    let deep = lists(100_000);
    let many = format!("<plist><dict><key>b</key>{deep}<key>Size</key><integer>7</integer><key>a</key>{deep}</dict></plist>");
    for v in [plist_xml(many.as_bytes()).unwrap(), property_list(many.as_bytes()).unwrap()] {
        assert!(matches!(v.get("Size"), Some(Node::Number(Some(7)))));
        assert!(matches!((v.get("a"), v.get("b")), (Some(Node::List(_)), Some(Node::List(_)))));
    }
    let list = b"<plist><array><integer>1</integer><string>x</string><false/></array></plist>";
    match plist_xml(list).unwrap() {
        Node::List(l) => assert!(matches!(&l[..], [Node::Number(Some(1)), Node::Text(t), Node::Bool(false)] if t == "x")),
        other => panic!("{other:?}"),
    }
}

#[test]
fn the_last_of_a_name_counts() {
    let deep = lists(100_000);
    let twice = format!("<plist><dict><key>a</key>{deep}<key>a</key><integer>2</integer></dict></plist>");
    for v in [plist_xml(twice.as_bytes()).unwrap(), property_list(twice.as_bytes()).unwrap()] {
        assert!(matches!(v.get("a"), Some(Node::Number(Some(2)))));
    }
}

#[test]
fn damaged_property_lists() {
    // What the reader of property lists itself says of them.
    for body in [
        "",
        "<array>",
        "<array><true/>",
        "<true/><true/>",
        "<true/><array/>",
        "<array/><dict/>",
        "<dict><key>a</key></dict>",
        "<dict><true/></dict>",
        "<dict><array/><true/></dict>",
        "<dict><key>a</key><true/><integer>1</integer><true/></dict>",
        "</array>",
        "<array></dict>",
        "<odd/>",
        "<array><true/></array><odd/>",
        "<integer>x</integer>",
        "<true/><array><odd/></array>",
        "<true/></array>",
        "<array/><string>x</string>",
        "<dict><dict/><true/></dict>",
        "<dict><array><odd/></array></dict>",
        "<dict><false/><true/></dict>",
        "<dict><integer>-5</integer><true/></dict>",
        "<dict><integer>18446744073709551615</integer><true/></dict>",
        "<dict><real>1.5</real><true/></dict>",
        "<dict><real>2</real><true/></dict>",
        "<dict><real>-1e300</real><true/></dict>",
        "<dict><real>1e-9</real><true/></dict>",
        "<dict><real>nan</real><true/></dict>",
        "<dict><real>-inf</real><true/></dict>",
        "<dict><date>2024-01-02T03:04:05Z</date><true/></dict>",
        "<dict><data>/w==</data><true/></dict>",
        "<dict><data>YWI=</data><true/></dict>",
        "<dict><string>a</string><true/></dict>",
        "<array><real>2</real><date>2024-01-02T03:04:05Z</date><integer>-1</integer></array>",
    ] {
        for list in [format!("<plist>{body}</plist>"), body.to_string()] {
            match (plist_xml(list.as_bytes()), plist::Value::from_reader_xml(list.as_bytes())) {
                (Ok(_), Ok(_)) => {}
                (Err(a), Err(b)) => assert_eq!(a, b.to_string(), "{list}"),
                (a, b) => panic!("{list}: {a:?}, {b:?}"),
            }
            match (property_list(list.as_bytes()), plist::from_bytes::<plist::Value>(list.as_bytes())) {
                (Ok(_), Ok(_)) => {}
                (Err(a), Err(b)) => assert_eq!(a, b.to_string(), "{list}"),
                (a, b) => panic!("{list}: {a:?}, {b:?}"),
            }
        }
    }
    // Data is a name to one of the two.
    let data = b"<plist><dict><data>YWI=</data><true/></dict></plist>";
    assert!(matches!(property_list(data).unwrap().get("ab"), Some(Node::Bool(true))));
    assert!(plist_xml(data).is_err());
    assert_eq!(
        property_list(b"<plist><dict><real>2</real><true/></dict></plist>").unwrap_err(),
        "Serde(\"invalid type: floating point `2.0`, expected a string\")"
    );
    assert_eq!(plist_xml(b"<plist></plist>").unwrap_err(), "UnexpectedEndOfEventStream");
    assert_eq!(
        plist_xml(b"<plist><dict><true/></dict></plist>").unwrap_err(),
        "UnexpectedEventType { expected: DictionaryKeyOrEndCollection, found: Boolean }"
    );
    // Deep values in front of the damage, or where a name belongs.
    let deep = lists(100_000);
    for (body, words) in [
        (format!("{deep}<true/>"), "ExpectedEndOfEventStream { found: Boolean }"),
        (format!("{deep}{deep}"), "ExpectedEndOfEventStream { found: StartArray }"),
        (
            format!("<dict>{deep}<true/></dict>"),
            "UnexpectedEventType { expected: DictionaryKeyOrEndCollection, found: StartArray }",
        ),
    ] {
        let list = format!("<plist>{body}</plist>");
        assert_eq!(plist_xml(list.as_bytes()).unwrap_err(), words);
        let words = words.replace(
            "UnexpectedEventType { expected: DictionaryKeyOrEndCollection, found: StartArray }",
            "Serde(\"invalid type: sequence, expected a string\")",
        );
        assert_eq!(property_list(list.as_bytes()).unwrap_err(), words);
    }
    for body in [format!("{deep}<odd/>"), format!("<array>{deep}<odd/>"), format!("{deep}</array>")] {
        let list = format!("<plist>{body}</plist>");
        assert!(plist_xml(list.as_bytes()).is_err() && property_list(list.as_bytes()).is_err());
    }
}

#[test]
fn reads_property_lists() {
    for v in [plist_xml(PLIST).unwrap(), property_list(PLIST).unwrap(), macos::printed(PLIST).unwrap()] {
        assert!(matches!(v.get("Size"), Some(Node::Number(Some(31_914_983_424)))));
        assert!(matches!(v.get("Yes"), Some(Node::Bool(true))));
        assert!(matches!(v.get("Raw"), Some(Node::Data(d)) if d == &[1, 2, 3]));
        let l = items(&v, "WholeDisks");
        assert!(l.len() == 1 && is_text(l[0], "disk4"));
    }
    assert!(macos::printed(b"no list").unwrap_err().starts_with("couldn't read diskutil output: "));
    assert!(json(b"{").is_err());
}
