//! What the window shows and does.

use dd_gui::drives::{Drive, DriveKind};
use dd_gui::engine::{ImageFormat, ImageInfo, SmartInfo};
use dd_gui::job::{CopyMode, Event, Outcome, Work};
use dd_gui::plan::{Options, Places, Plan, Source, System, Target};
use dd_gui::window::picker::{
    chosen_drives, copy_drive, find_drive, recheck, same_choice, show_drives, Chosen,
};
use dd_gui::window::run::{finish_pending, finish_run, on_event, overview, remount_notice, Bar, Finished, Reaction, Run, BARS};
use dd_gui::window::start::{begin_drive_copy, busy, copy_files, launch, mode_cancel, mode_start, show_modes, start_checked, Click, Dismissed, LayoutInfo, PartInfo, Pending};
use dd_gui::window::{
    display_value, drive_glyph, drive_summary, endpoint_name, erase_detail, file_summary, options, refresh, same_names,
    short_path, source, success_title, suggested_name, target, target_name, tilde, unprobed, Surroundings,
};

fn usb(path: &str, size: u64) -> Drive {
    Drive {
        path: path.into(),
        io_path: path.into(),
        name: "USB stick".into(),
        size,
        bus: "USB".into(),
        kind: DriveKind::Usb,
        removable: true,
        system: false,
        read_only: false,
        mountpoints: vec![],
        volumes: vec![],
        unmount: vec![format!("{path}1")],
        lock: vec![],
    }
}

fn nowhere() -> Places {
    Places { same_file: false, source: None, target: None }
}

fn around() -> Surroundings {
    Surroundings {
        source_file: "os.iso".into(),
        source_folder: "~/Downloads".into(),
        target_file: "b.img".into(),
        target_folder: "~".into(),
        home: Some("/home/me".into()),
    }
}

fn raw(size: u64) -> ImageInfo {
    ImageInfo { format: ImageFormat::Raw, size, uncompressed: Some(size), smart: None }
}

#[test]
fn words_for_drives_and_files() {
    let mut d = usb("/dev/sdb", 31_914_983_424);
    assert_eq!(drive_summary(&d), "31.9 GB · USB · /dev/sdb");
    d.bus = String::new();
    assert_eq!(drive_summary(&d), "31.9 GB · /dev/sdb");
    d.volumes = vec!["A".into(), "B".into()];
    assert_eq!(erase_detail(&d), "/dev/sdb · 31.9 GB\nHolds: A, B");
    assert_eq!(drive_glyph(&d), 1);
    assert_eq!(file_summary("~", &raw(1000)), ("1.00 kB · ~".to_owned(), String::new()));
    let xz = ImageInfo { format: ImageFormat::Xz, size: 1000, uncompressed: Some(4000), smart: None };
    assert_eq!(file_summary("~", &xz), ("1.00 kB → 4.00 kB unpacked · ~".to_owned(), "XZ".to_owned()));
    let smart = ImageInfo { smart: Some(SmartInfo { disk_size: 9000, used: 2000 }), ..xz };
    assert_eq!(
        file_summary("~", &smart),
        ("2.00 kB of data from a 9.00 kB drive · ~".to_owned(), "SMART IMAGE".to_owned())
    );
    assert_eq!(success_title("Wipe drive"), "Drive wiped");
    assert_eq!(success_title("?"), "Copy finished");
    assert_eq!((short_path("/dev/sdb"), short_path(r"\\.\X"), short_path("a/")), ("sdb".into(), "X".into(), "".into()));
    assert_eq!(endpoint_name(&Source::Zeros, "f"), "Zeros");
    assert_eq!(target_name(&Target::File("/x/f".into()), "f"), "f");
    let target = Target::Drive(usb("/dev/sdc", 1));
    assert_eq!(
        same_names("S".into(), "S".into(), &d, &target),
        ("S (sdb)".to_owned(), "S (sdc)".to_owned())
    );
    assert_eq!(same_names("S".into(), "T".into(), &d, &target), ("S".to_owned(), "T".to_owned()));
}

#[test]
fn paths_are_shortened() {
    assert_eq!(tilde("/home/me/x", Some("/home/me")), "~/x");
    assert_eq!(tilde("/home/me/x", Some("")), "/home/me/x");
    assert_eq!(tilde("/home/me/x", None), "/home/me/x");
    let long = "/home/me/a-very-long-folder-name/and-another-one/disk-image.img";
    assert_eq!(display_value("if", long, Some("/home/me")), "~/a-very-long-fo…-another-one/disk-image.img");
    assert_eq!(display_value("bs", long, None), long);
    assert_eq!(suggested_name(&Source::Drive(Drive { name: "a/b:c".into(), ..usb("x", 1) }), ""), "a-b-c.img");
    assert_eq!(suggested_name(&Source::File { path: "/x".into(), info: raw(1) }, "x"), "Copy of x");
    assert_eq!(suggested_name(&Source::Zeros, ""), "image.img");
}

#[test]
fn advanced_options() {
    let o = options(3, true, " 7 ", "", "2").unwrap();
    assert_eq!((o.block_size, o.noerror, o.count, o.skip, o.seek), (Some(4 << 20), true, Some(7), None, Some(2)));
    assert_eq!(options(0, false, "", "", "").unwrap(), Options::default());
    assert_eq!(options(6, false, "", "", "").unwrap().block_size, None);
    assert_eq!(options(0, false, "x", "y", "").unwrap_err(), "Count has to be a whole number of blocks.");
    assert_eq!(options(0, false, "", "-1", "").unwrap_err(), "Skip has to be a whole number of blocks.");
    assert_eq!(options(0, false, "", "", "1.5").unwrap_err(), "Seek has to be a whole number of blocks.");
}

#[test]
fn the_setup_page() {
    let o = Options::default();
    let places = nowhere();
    let source = Source::File { path: "/home/me/os.iso".into(), info: raw(1000) };
    let target = Target::Drive(usb("/dev/sdb", 8000));
    let plan = Plan { source: &source, target: &target, opts: &o, drives: &[], places: &places, system: System::Linux };
    let page = refresh(&plan, None, Some("Hello.".into()), false, true, &around());
    assert!(page.source_set && page.target_set && page.can_start);
    assert_eq!((page.source.title.as_str(), page.source.subtitle.as_str()), ("os.iso", "1.00 kB · ~/Downloads"));
    assert_eq!((page.banner.as_str(), page.banner_warning), ("Hello.", false));
    assert_eq!(page.action, "Write to drive");
    assert_eq!(page.command[1].1, "~/os.iso");
    let page = refresh(&plan, Some("No.".into()), Some("Hello.".into()), false, true, &around());
    assert_eq!((page.can_start, page.banner.as_str(), page.banner_warning), (false, "No.", true));
    // Nothing chosen yet: no complaints.
    let plan = Plan { source: &Source::Unset, target: &Target::Unset, ..plan };
    let page = refresh(&plan, None, None, true, false, &around());
    assert_eq!((page.can_start, page.banner.as_str()), (false, ""));
    assert_eq!((page.source.title.as_str(), page.target.title.as_str()), ("Choose a drive", "Choose where to save"));
}

#[test]
fn the_picker() {
    let drives = [
        Drive { system: true, removable: false, ..usb("/dev/sda", 9000) },
        usb("/dev/sdb", 9000),
        Drive { read_only: true, ..usb("/dev/sdc", 9000) },
        usb("/dev/sdd", 10),
        Drive { mountpoints: vec!["/m".into()], ..usb("/dev/sde", 9000) },
    ];
    let source = Source::Drive(usb("/dev/sdb", 9000));
    let notes = |all: bool, for_source: bool| -> Vec<(String, &'static str, bool)> {
        show_drives(&drives, all, for_source, &source, &Target::Unset, Some("/dev/sde"))
            .into_iter()
            .map(|i| (i.key, i.note, i.disabled))
            .collect()
    };
    assert_eq!(
        notes(true, false),
        [
            ("/dev/sda".to_owned(), "SYSTEM", true),
            ("/dev/sdb".to_owned(), "SOURCE", true),
            ("/dev/sdc".to_owned(), "READ-ONLY", true),
            ("/dev/sdd".to_owned(), "TOO SMALL", true),
            ("/dev/sde".to_owned(), "MOUNTED", false),
        ]
    );
    assert_eq!(notes(false, false).len(), 4);
    assert!(notes(true, true).iter().all(|n| !n.2));
    let items = show_drives(&drives, false, false, &source, &Target::Unset, Some("/dev/sde"));
    assert!(items[3].selected && !items[0].selected);
    assert_eq!(items[3].detail, "USB · /dev/sde · /m");
    assert_eq!(items[3].size, "9.00 kB");
}

#[test]
fn swapped_drives_are_noticed() {
    let stick = usb("/dev/sdb", 9000);
    let list = [usb("/dev/sda", 1), Drive { mountpoints: vec!["/m".into()], ..usb("/dev/sdb", 9000) }];
    assert_eq!(find_drive(&list, "/dev/sdb"), Some(1));
    assert_eq!(recheck(&stick, &list).unwrap().mountpoints, ["/m"]);
    assert_eq!(
        recheck(&usb("/dev/sdb", 1), &list).unwrap_err(),
        "/dev/sdb changed since you picked it. Choose the drive again."
    );
    assert_eq!(recheck(&usb("/dev/sdz", 1), &list).unwrap_err(), "USB stick is no longer connected.");

    let mut chosen = Chosen { source: Some(copy_drive(&stick)), target: Some(usb("/dev/sdz", 1)) };
    assert_eq!(chosen.drives_loaded(&list, true), None);
    assert!(chosen.target.is_some());
    assert_eq!(chosen.drives_loaded(&list, false).unwrap(), "USB stick was disconnected.");
    assert!(chosen.target.is_none());
    assert_eq!(chosen.source.as_ref().unwrap().mountpoints, ["/m"]);
    assert!(chosen.pick_drive(&list, "/dev/sda", false) && !chosen.pick_drive(&list, "/dev/x", false));
    assert_eq!(chosen.target.as_ref().unwrap().path, "/dev/sda");

    let (source, target) = (Source::Drive(copy_drive(&stick)), Target::Drive(usb("/dev/sda", 5)));
    let both = chosen_drives(&source, &target);
    assert!(same_choice(&both, &chosen_drives(&source, &target)) && !same_choice(&both, &[]));
    assert!(chosen.rechecked(&both, &list).unwrap().starts_with("/dev/sda changed"));
    assert!(chosen.target.is_none() && chosen.source.is_some());
    assert_eq!(chosen.rechecked(&both[..1], &list), None);
}

#[test]
fn start_asks_before_erasing() {
    let o = Options::default();
    let places = nowhere();
    let file = Source::File { path: "/a".into(), info: raw(1000) };
    let drive = Target::Drive(usb("/dev/sdb", 8000));
    let to_file = Target::File("/b".into());
    let from_drive = Source::Drive(usb("/dev/sdc", 10));
    let plan = |source, target| Plan { source, target, opts: &o, drives: &[], places: &places, system: System::Linux };
    match start_checked(&plan(&file, &drive)) {
        Click::Confirm { title, body, detail, action } => {
            assert_eq!(title, "Erase USB stick?");
            assert_eq!(body, "Everything on this 8.00 kB drive will be overwritten. This can't be undone.");
            assert_eq!(detail, "/dev/sdb · USB · 8.00 kB");
            assert_eq!(action, "Erase and write");
        }
        other => panic!("{other:?}"),
    }
    match start_checked(&plan(&Source::Zeros, &drive)) {
        Click::Confirm { body, action, .. } => {
            assert!(body.contains("overwritten with zeros."));
            assert_eq!(action, "Wipe drive");
        }
        other => panic!("{other:?}"),
    }
    assert!(matches!(start_checked(&plan(&from_drive, &drive)), Click::CopyDrive));
    assert!(matches!(start_checked(&plan(&file, &to_file)), Click::Launch));
    assert!(matches!(start_checked(&plan(&Source::Unset, &drive)), Click::Nothing));
    assert!(busy(false, false, true) && !busy(false, false, false));
}

#[test]
fn launches() {
    let o = Options::default();
    let places = nowhere();
    let xz = ImageInfo { format: ImageFormat::Xz, size: 900, uncompressed: Some(4000), smart: None };
    let source = Source::File { path: "/a.xz".into(), info: xz };
    let target = Target::Drive(usb("/dev/sdb", 0x100_0000));
    let plan = Plan { source: &source, target: &target, opts: &o, drives: &[], places: &places, system: System::Linux };
    let l = launch(&plan, false, "a.xz", "").unwrap();
    assert_eq!(l.route, "a.xz  →  USB stick");
    assert!(matches!(&l.spec.work, Work::Copy { mode: CopyMode::Restore, from, to, ask: false, .. } if from == "/a.xz" && to == "/dev/sdb"));
    assert!(l.spec.elevate && l.run.elevated && l.run.compressed_units);
    assert_eq!((l.spec.unmount.as_slice(), l.spec.sync.as_deref()), (&["/dev/sdb1".to_owned()][..], Some("/dev/sdb")));
    assert_eq!((l.run.total, l.run.verb, l.run.action), (None, "Writing", "Write to drive"));

    let wipe = Plan { source: &Source::Zeros, system: System::Windows, ..plan };
    let l = launch(&wipe, false, "", "").unwrap();
    assert!(matches!(&l.spec.work, Work::Copy { mode: CopyMode::Zeros, size: Some(0x100_0000), .. }));
    assert!(!l.spec.elevate);
    assert_eq!((l.run.total, l.run.verb), (Some(0x100_0000), "Wiping"));
    let wipe = Plan { system: System::Linux, ..wipe };
    assert!(matches!(launch(&wipe, true, "", "").unwrap().spec.work, Work::Dd(_)));
    let nothing = Plan { source: &Source::Unset, ..plan };
    assert!(launch(&nothing, false, "", "").is_none());
}

fn layout() -> LayoutInfo {
    let part = |index, fs: Option<&str>, label: Option<&str>, understood| PartInfo {
        index,
        fs: fs.map(str::to_owned),
        label: label.map(str::to_owned),
        understood,
    };
    LayoutInfo {
        size: 8000,
        partitions: vec![
            part(1, Some("vfat"), None, true),
            part(2, Some("msdos"), None, true),
            part(3, Some("crypto_LUKS"), Some("secret"), false),
            part(4, None, None, false),
        ],
        extents: vec![1000, 500],
    }
}

fn pending(target: Target) -> Pending {
    let files = match &target {
        Target::File(p) => Some(copy_files(p)),
        _ => None,
    };
    Pending {
        source: usb("/dev/sdb", 8000),
        chosen_file: match &target {
            Target::File(p) => Some(p.clone()),
            _ => None,
        },
        target,
        smart_file: files.as_ref().map(|f| f.0.clone()),
        full_file: files.map(|f| f.1),
        full_total: Some(8000),
        elevated: true,
        layout: Some(layout()),
    }
}

#[test]
fn drive_copies() {
    assert_eq!(copy_files("/b.img"), ("/b.img.zst".to_owned(), "/b.img".to_owned()));
    assert_eq!(copy_files("/b.img.zst"), ("/b.img.zst".to_owned(), "/b.img".to_owned()));
    let o = Options { seek: Some(1), ..Options::default() };
    let places = nowhere();
    let source = Source::Drive(usb("/dev/sdb", 8000));
    let target = Target::File("/b.img".into());
    let plan = Plan { source: &source, target: &target, opts: &o, drives: &[], places: &places, system: System::Linux };
    let c = begin_drive_copy(&plan, Some("/b.img.zst"), false).unwrap();
    match &c.spec.work {
        Work::Copy { mode: CopyMode::Smart, from, to, ask: true, dd_args, .. } => {
            assert_eq!((from.as_str(), to.as_str()), ("/dev/sdb", "/b.img.zst"));
            assert!(dd_args.contains(&"of=/b.img".to_owned()));
        }
        other => panic!("{other:?}"),
    }
    assert_eq!((c.title.as_str(), c.action, c.smart_available), ("Copy USB stick", "Start copy", false));
    assert_eq!((c.status, c.elevated), ("Waiting for permission…", true));
    assert_eq!((c.spec.unmount.len(), c.spec.sync), (1, None));
    assert!(begin_drive_copy(&plan, None, false).is_none());

    let clone = Target::Drive(usb("/dev/sdc", 9000));
    let plan = Plan { target: &clone, ..plan };
    let c = begin_drive_copy(&plan, None, true).unwrap();
    assert_eq!((c.action, c.elevated), ("Erase and copy", false));
    assert_eq!(c.spec.unmount, ["/dev/sdb1", "/dev/sdc1"]);
    assert_eq!(c.spec.sync.as_deref(), Some("/dev/sdc"));
}

#[test]
fn the_choice_of_modes() {
    let p = pending(Target::File("/b.img".into()));
    let m = show_modes(&p, &layout(), false, ("b.img.zst", true), ("b.img", true));
    assert_eq!(m.subtitle, "8.00 kB · USB · /dev/sdb · 4 partitions");
    assert_eq!((m.smart_figure.as_str(), m.full_figure.as_str()), ("1.50 kB", "8.00 kB"));
    assert_eq!(m.smart_foot, "reads FAT");
    assert_eq!(
        m.note,
        "Copied in full either way: secret (LUKS), partition 4. Smart copy is off while count, skip or seek are set in Advanced."
    );
    assert_eq!(m.smart_output, "b.img.zst  (replaces the existing file)");
    assert_eq!((m.full_output.as_str(), m.erase.as_str(), m.action), ("b.img", "", "Start copy"));

    let b = mode_start(p, true, "b.img.zst").unwrap();
    assert_eq!((b.answer, b.route.as_str()), ("smart", "USB stick  →  b.img.zst"));
    assert_eq!((b.run.total, b.run.skipped, b.run.verb), (Some(1500), Some(6500), "Copying used space"));
    assert!(b.run.output_is_compressed && b.run.started && b.run.unmounted_source.is_some());

    let p = pending(Target::Drive(usb("/dev/sdc", 9000)));
    let m = show_modes(&p, &layout(), true, ("", false), ("", false));
    assert_eq!(m.erase, "Everything on USB stick (/dev/sdc) will be erased.");
    let b = mode_start(p, false, "").unwrap();
    assert_eq!((b.answer, b.route.as_str()), ("full", "USB stick (sdb)  →  USB stick (sdc)"));
    assert_eq!((b.run.total, b.run.skipped, b.run.verb, b.run.action), (Some(8000), None, "Cloning", "Clone drive"));
    let unread = Pending { layout: None, ..pending(Target::Unset) };
    assert!(mode_start(unread, false, "").is_none());
    assert_eq!(layout().used(), 1500);
    let odd = LayoutInfo { extents: vec![u64::MAX, 1], ..layout() };
    assert_eq!((odd.used_checked(), layout().used_checked()), (None, Some(1500)));
}

fn run() -> Run {
    mode_start(pending(Target::File("/b.img".into())), true, "b.img.zst").unwrap().run
}

const SECOND: u64 = 1_000_000_000;

#[test]
fn events() {
    let mut r = None;
    assert!(matches!(on_event(&mut r, Event::Started, false, true, 0), Reaction::Ignore));
    assert!(matches!(on_event(&mut r, Event::Started, true, true, 0), Reaction::Status("Reading the drive's layout…")));
    assert!(matches!(on_event(&mut r, Event::Copying, true, true, 0), Reaction::Stop(_)));
    assert!(matches!(on_event(&mut r, Event::Layout("x".into()), true, true, 0), Reaction::ReadLayout(j) if j == "x"));
    assert!(matches!(
        on_event(&mut r, Event::Finished(Outcome::Success), true, true, 0),
        Reaction::FinishPending(Outcome::Success)
    ));
    assert!(matches!(on_event(&mut r, Event::Syncing, true, false, 0), Reaction::Ignore));

    let mut r = Some(run());
    assert_eq!(r.as_ref().unwrap().phase(), "Getting the drive ready");
    assert!(matches!(on_event(&mut r, Event::Copying, true, false, SECOND), Reaction::Render));
    assert_eq!(r.as_ref().unwrap().phase(), "Copying used space");
    for i in 1..=20u64 {
        let e = Event::Progress { done: i * 50, written: Some(i * 10) };
        assert!(matches!(on_event(&mut r, e, true, false, (i + 1) * SECOND), Reaction::Render));
    }
    let run = r.as_ref().unwrap();
    assert_eq!((run.samples.len(), run.history.len()), (8, 20));
    assert_eq!(run.history[0], Bar { bytes: 50, nanos: SECOND });
    assert_eq!(run.rates(99 * SECOND), Some((350, 350, 7 * SECOND)));
    assert_eq!((run.bytes_written(), run.bytes_moved()), (200, 1000));
    assert_eq!(run.amount(), "1.00 kB of 1.50 kB");
    assert_eq!((run.left(), run.elapsed(21 * SECOND), run.spinning()), (Some(500), 20 * SECOND, false));
    assert_eq!(run.recent().len(), BARS);
    assert_eq!(run.recent()[BARS - 1], Bar { bytes: 50, nanos: SECOND });
    assert!(matches!(on_event(&mut r, Event::Total(1000), true, false, 0), Reaction::Render));
    assert_eq!(r.as_ref().unwrap().phase(), "Flushing to disk");
    assert_eq!(r.as_ref().unwrap().left(), None);
    assert!(matches!(
        on_event(&mut r, Event::Finished(Outcome::Cancelled), true, false, 0),
        Reaction::FinishRun(Outcome::Cancelled)
    ));
    assert!(overview(3).is_empty());
    let parts = overview(100);
    assert_eq!((parts[0], parts[47]), ((0, 2), (97, 100)));
    assert_eq!(overview(4)[0], (0, 1));
}

#[test]
fn endings() {
    let mut r = run();
    r.record(5, 1200, Some(300));
    match finish_run(&r, Outcome::Success, "a  →  b", "1 MB/s", "5s") {
        Finished::Page { result, title, stats, route, can_reveal, .. } => {
            assert_eq!((result, title, can_reveal), (1, "Image created", true));
            assert_eq!(route, "a  →  b\nSkipped 6.50 kB of free space.");
            assert_eq!(
                stats,
                [("COPIED", "1.20 kB".to_owned()), ("IMAGE SIZE", "300 B".to_owned()), ("TOOK", "5s".to_owned())]
            );
        }
        other => panic!("{other:?}"),
    }
    match finish_run(&r, Outcome::Failed("why".into()), "r", "", "") {
        Finished::Page { result, body, detail, .. } => {
            assert_eq!((result, body.as_str(), detail.as_str()), (2, "It stopped after copying 1.20 kB.", "why"));
        }
        other => panic!("{other:?}"),
    }
    match finish_run(&run(), Outcome::Cancelled, "r", "", "") {
        Finished::Page { result, body, .. } => assert_eq!((result, body.as_str()), (3, "Nothing was written.")),
        other => panic!("{other:?}"),
    }
    assert!(matches!(finish_run(&r, Outcome::NotAuthorized("no".into()), "", "", ""), Finished::Back(s) if s == "no"));
    assert_eq!(finish_pending(Outcome::Failed("a\nb\n".into())).unwrap(), "Couldn't read the drive: b");
    assert_eq!(finish_pending(Outcome::NotAuthorized("no".into())).unwrap(), "no");
    assert_eq!(finish_pending(Outcome::Cancelled), None);
}

#[test]
fn late_clicks_stop_nothing() {
    assert_eq!(mode_cancel(false, true), Dismissed::Ignored);
    assert_eq!(mode_cancel(true, true), Dismissed::Closed { stops_job: true });
    assert_eq!(mode_cancel(true, false), Dismissed::Closed { stops_job: false });
}

#[test]
fn shown_commands_are_run() {
    let info = ImageInfo { format: ImageFormat::Raw, size: 10, uncompressed: Some(10), smart: None };
    let source = Source::File { path: "/tmp/it's here.img".to_owned(), info };
    let target = Target::File("/tmp/out.img".to_owned());
    let opts = Options::default();
    let places = Places { same_file: false, source: None, target: None };
    let plan = Plan {
        source: &source,
        target: &target,
        opts: &opts,
        drives: &[],
        places: &places,
        system: System::Linux,
    };
    let shown = plan.command_line();
    assert!(shown.starts_with("dd if='/tmp/it'\\''s here.img' of=/tmp/out.img bs="), "{shown}");
    assert_eq!(plan.args()[0], "if=/tmp/it's here.img");
    assert_eq!(plan.words().len(), plan.args().len() + 1);
}

#[test]
fn drives_that_stay_unmounted() {
    assert_eq!(remount_notice("USB stick", "it is gone"), "Couldn't mount USB stick again: it is gone");
}

#[test]
fn modes_keep_their_own_choices() {
    let file = || Some(("/a.img".to_string(), unprobed(700)));
    let drive = || Some(usb("/dev/sdb", 1000));
    match source(0, file(), drive()) {
        Source::File { path, info } => {
            assert_eq!(path, "/a.img");
            assert!(info.format == ImageFormat::Raw && info.size == 700);
            assert!(info.uncompressed == Some(700) && info.smart.is_none());
        }
        _ => panic!("not the file"),
    }
    assert!(matches!(source(0, None, drive()), Source::Unset));
    assert!(matches!(source(1, file(), drive()), Source::Drive(d) if d.path == "/dev/sdb"));
    assert!(matches!(source(1, file(), None), Source::Unset));
    assert!(matches!(source(2, file(), drive()), Source::Zeros));
    let to = || Some("/b.img".to_string());
    assert!(matches!(target(0, drive(), to()), Target::Drive(d) if d.path == "/dev/sdb"));
    assert!(matches!(target(0, None, to()), Target::Unset));
    assert!(matches!(target(1, drive(), to()), Target::File(p) if p == "/b.img"));
    assert!(matches!(target(1, drive(), None), Target::Unset));
}
