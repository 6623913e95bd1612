//! Plans: what dd gets told, and what stops a copy.

use dd_gui::drives::{Drive, DriveKind};
use dd_gui::engine::{ImageFormat, ImageInfo, SmartInfo};
use dd_gui::plan::{lives_on, shell_quote, Options, Places, Plan, Source, System, Target};

fn nowhere() -> Places {
    Places { same_file: false, source: None, target: None }
}

fn raw(size: u64) -> ImageInfo {
    ImageInfo { format: ImageFormat::Raw, size, uncompressed: Some(size), smart: None }
}

fn usb(size: u64) -> Drive {
    Drive {
        path: "/dev/sdb".into(),
        io_path: "/dev/sdb".into(),
        name: "USB stick".into(),
        size,
        bus: "USB".into(),
        kind: DriveKind::Usb,
        removable: true,
        system: false,
        read_only: false,
        mountpoints: vec![],
        volumes: vec![],
        unmount: vec![],
        lock: vec![],
    }
}

#[test]
fn image_to_drive() {
    let source = Source::File { path: "/home/me/My Images/os.iso".into(), info: raw(5_000_000_000) };
    let target = Target::Drive(usb(32_000_000_000));
    let o = Options::default();
    let plan = Plan { source: &source, target: &target, opts: &o, drives: &[], places: &nowhere(), system: System::Linux };
    assert!(plan.problem().is_none());
    assert_eq!(plan.total_bytes(), Some(5_000_000_000));
    let expected = "dd if='/home/me/My Images/os.iso' of=/dev/sdb bs=4M oflag=direct status=progress && sync";
    assert_eq!(plan.command_line(), expected);
    let elsewhere = Plan { system: System::Other, ..plan };
    assert_eq!(
        elsewhere.command_line(),
        "dd if='/home/me/My Images/os.iso' of=/dev/sdb bs=4M status=progress && sync"
    );
    assert!(plan.sync_after().is_some());
}

#[test]
fn backups_are_sparse_and_flushed() {
    let source = Source::Drive(usb(8_000_000_000));
    let target = Target::File("/tmp/backup.img".into());
    let o = Options::default();
    let plan = Plan { source: &source, target: &target, opts: &o, drives: &[], places: &nowhere(), system: System::Linux };
    let line = plan.command_line();
    assert!(line.contains("conv=fsync,sparse"), "{line}");
    assert!(line.contains("iflag=direct"), "{line}");
}

#[test]
fn compressed_images_are_unpacked() {
    let info = ImageInfo { format: ImageFormat::Xz, size: 900_000_000, uncompressed: Some(4_000_000_000), smart: None };
    let source = Source::File { path: "/tmp/raspios.img.xz".into(), info };
    let target = Target::Drive(usb(32_000_000_000));
    let o = Options::default();
    let plan = Plan { source: &source, target: &target, opts: &o, drives: &[], places: &nowhere(), system: System::Linux };
    assert!(plan.restores_image());
    assert!(plan.problem().is_none());
    assert!(plan.command_line().starts_with("xz -dc /tmp/raspios.img.xz | dd of=/dev/sdb bs=4M"));
    assert!(plan.note().is_some());
}

#[test]
fn smart_images_need_room_for_the_whole_drive() {
    let smart = SmartInfo { disk_size: 64_000_000_000, used: 9_000_000_000 };
    let info = ImageInfo { format: ImageFormat::Gzip, size: 5_000_000_000, uncompressed: Some(64_000_000_000), smart: Some(smart) };
    let source = Source::File { path: "/tmp/backup.img.gz".into(), info };
    let target = Target::Drive(usb(32_000_000_000));
    let o = Options::default();
    let plan = Plan { source: &source, target: &target, opts: &o, drives: &[], places: &nowhere(), system: System::Linux };
    assert!(plan.problem().unwrap().contains("doesn't fit"));
}

#[test]
fn restores_refuse_count_skip_seek() {
    let info = ImageInfo { format: ImageFormat::Xz, size: 900_000_000, uncompressed: None, smart: None };
    let source = Source::File { path: "/tmp/a.img.xz".into(), info };
    let target = Target::Drive(usb(32_000_000_000));
    let o = Options { seek: Some(2), ..Options::default() };
    let plan = Plan { source: &source, target: &target, opts: &o, drives: &[], places: &nowhere(), system: System::Linux };
    assert!(plan.problem().unwrap().contains("don't apply"));
}

#[test]
fn compressed_file_copied_as_is_counts_file_size() {
    let info = ImageInfo { format: ImageFormat::Xz, size: 900_000_000, uncompressed: Some(4_000_000_000), smart: None };
    let source = Source::File { path: "/tmp/a.img.xz".into(), info };
    let target = Target::File("/tmp/b.img.xz".into());
    let o = Options::default();
    let plan = Plan { source: &source, target: &target, opts: &o, drives: &[], places: &nowhere(), system: System::Linux };
    assert_eq!(plan.total_bytes(), Some(900_000_000));
}

#[test]
fn huge_seek_does_not_overflow() {
    let source = Source::File { path: "/tmp/a.img".into(), info: raw(1 << 20) };
    let target = Target::Drive(usb(32_000_000_000));
    let o = Options { seek: Some(99_999_999_999_999), ..Options::default() };
    let plan = Plan { source: &source, target: &target, opts: &o, drives: &[], places: &nowhere(), system: System::Linux };
    assert!(plan.problem().unwrap().contains("doesn't fit"));
}

#[test]
fn root_mount_counts_when_nothing_more_specific_does() {
    let home = "/tmp";
    let mut system = usb(256_000_000_000);
    system.path = "/dev/nvme0n1".into();
    system.mountpoints = vec!["/".into()];
    let file = format!("{home}/backup.img");
    assert!(lives_on(Some(&file), &system, std::slice::from_ref(&system), System::Linux));
    let mut tmp_drive = usb(8_000_000_000);
    tmp_drive.mountpoints = vec![home.to_owned()];
    assert!(!lives_on(Some(&file), &system, &[system.clone(), tmp_drive], System::Linux));
}

#[test]
fn too_small() {
    let source = Source::File { path: "/tmp/big.img".into(), info: raw(64_000_000_000) };
    let target = Target::Drive(usb(32_000_000_000));
    let o = Options::default();
    let plan = Plan { source: &source, target: &target, opts: &o, drives: &[], places: &nowhere(), system: System::Linux };
    assert!(plan.problem().unwrap().contains("doesn't fit"));
}

#[test]
fn zeros_stop_at_end_of_drive() {
    let target = Target::Drive(usb(8_000_000_000));
    let o = Options::default();
    let plan = Plan { source: &Source::Zeros, target: &target, opts: &o, drives: &[], places: &nowhere(), system: System::Linux };
    let args = plan.args();
    assert!(args.contains(&"count=8000000000".to_owned()));
    assert!(args.contains(&"iflag=count_bytes".to_owned()));
    assert!(args.contains(&"bs=16M".to_owned()));
    assert_eq!(plan.total_bytes(), Some(8_000_000_000));
}

#[test]
fn count_and_skip_limit_total() {
    let source = Source::File { path: "/tmp/a.img".into(), info: raw(100 << 20) };
    let target = Target::File("/tmp/b.img".into());
    // 100 MiB file, skipping 5 blocks of 4 MiB leaves 80 MiB.
    let o = Options { count: Some(10), skip: Some(5), ..Options::default() };
    let plan = Plan { source: &source, target: &target, opts: &o, drives: &[], places: &nowhere(), system: System::Linux };
    assert_eq!(plan.total_bytes(), Some(40 << 20));
    let o = Options { count: Some(100), skip: Some(5), ..Options::default() };
    let plan = Plan { source: &source, target: &target, opts: &o, drives: &[], places: &nowhere(), system: System::Linux };
    assert_eq!(plan.total_bytes(), Some(80 << 20));
}

#[test]
fn started_jobs_spare_what_they_must() {
    let source = Source::File { path: "/tmp/a.img".into(), info: raw(1000) };
    let o = Options::default();
    let places = nowhere();
    for (system, read_only) in [(true, false), (false, true)] {
        let target = Target::Drive(Drive { system, read_only, ..usb(8_000_000_000) });
        let plan = Plan { source: &source, target: &target, opts: &o, drives: &[], places: &places, system: System::Linux };
        assert!(plan.problem().is_some());
    }
    let source = Source::Drive(usb(1000));
    let target = Target::Drive(usb(1000));
    let plan = Plan { source: &source, target: &target, opts: &o, drives: &[], places: &places, system: System::Linux };
    assert_eq!(plan.problem().as_deref(), Some("Source and target are the same drive."));
    let plan = Plan { source: &Source::Unset, target: &target, opts: &o, drives: &[], places: &places, system: System::Linux };
    assert_eq!(plan.problem().as_deref(), Some("Choose what to copy from."));
    let plan = Plan { source: &source, target: &Target::Unset, opts: &o, drives: &[], places: &places, system: System::Linux };
    assert_eq!(plan.problem().as_deref(), Some("Choose where to write."));
    assert_eq!(plan.action(), "Start");
    assert!(plan.needs_elevation(false) && !plan.needs_elevation(true));
}

#[test]
fn words_are_quoted_for_the_shell() {
    assert_eq!(shell_quote("/dev/sdb", System::Linux), "/dev/sdb");
    assert_eq!(shell_quote("it's", System::Linux), r"'it'\''s'");
    assert_eq!(shell_quote("", System::Linux), "''");
}
