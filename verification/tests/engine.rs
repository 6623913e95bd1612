//! The copy engine: maps, smart images, copies and restores, on drives that are vectors.

use dd_gui::engine::args::{
    answered, drive_too_small, full_copy_words, image_too_big, parse_size, smart_map, Answer, Args, Mode,
};
use dd_gui::engine::copy::{fits, pieces, read_error, to_drive, to_image, write_error};
use dd_gui::engine::disk::{
    body, is_drive, patched, reading, round_up, DiskReader, Moved, Next, Reading, SeekTo, Transfer,
};
use dd_gui::engine::formats::source::{crc32, Loaded, Stop};
use dd_gui::engine::frames::{image_puts, image_table, restore_image, write_puts, SmartFrames};
use dd_gui::engine::image::{
    get_varint, map_frame, push_base64, put_varint, read_head, read_header, read_seek_table, seek_table,
    seek_table_place, unbase64, Frame, SpaceMap, Zeros, MAGIC_V1,
};
use dd_gui::engine::progress::{total_said, Progress};
use dd_gui::engine::restore::{
    first_file, format_of, inspect, vli, way, xz_index, xz_workers, zstd_content_size, zstd_frame_end, Put, Smart,
    Staging, Step, Way,
};
use dd_gui::engine::unpack::unpack;
use dd_gui::engine::{tidy, why, ImageFormat};
use dd_gui::job::{Event, Shared};
use dd_gui::smart::Extent;
use std::io::{Read, Write};

const MIB: u64 = 1 << 20;

/// Reproducible pseudo-random bytes (xorshift64*).
fn noise(seed: u64, len: usize) -> Vec<u8> {
    let mut x = seed.wrapping_mul(0x9e37_79b9_7f4a_7c15) | 1;
    let mut out = Vec::with_capacity(len + 8);
    while out.len() < len {
        x ^= x >> 12;
        x ^= x << 25;
        x ^= x >> 27;
        out.extend(x.wrapping_mul(0x2545_f491_4f6c_dd1d).to_le_bytes());
    }
    out.truncate(len);
    out
}

fn ext(start: u64, len: u64) -> Extent {
    Extent { start, len }
}

#[test]
fn map_comment_round_trip() {
    let size = 10 << 30;
    let map = SpaceMap { size, extents: vec![ext(0, MIB), ext(5 * MIB, 4096), ext(size - 12288, 12288)] };
    let comment = map.to_text(MAGIC_V1);
    assert!(comment.starts_with("DD-GUI smart image v1\nsize=10737418240 used=1064960 extents=3 unit=4096\nmap="));
    assert_eq!(SpaceMap::parse(comment.as_bytes(), MAGIC_V1), Some(Ok(map.clone())));

    let damaged = comment.replace("used=1064960", "used=1064961");
    assert!(matches!(SpaceMap::parse(damaged.as_bytes(), MAGIC_V1), Some(Err(_))));
    let truncated = &comment.as_bytes()[..comment.len() - 4];
    assert!(matches!(SpaceMap::parse(truncated, MAGIC_V1), Some(Err(_))));
    assert_eq!(SpaceMap::parse(b"Created by some other tool", MAGIC_V1), None);
    assert_eq!(SpaceMap::parse(b"DD-GUI smart image v2\nsize=1", MAGIC_V1), None);

    let empty = SpaceMap { size: 4096, extents: vec![] };
    assert_eq!(SpaceMap::parse(empty.to_text(MAGIC_V1).as_bytes(), MAGIC_V1), Some(Ok(empty)));

    // A drive whose size isn't a multiple of 4 KiB, and extents that aren't aligned at all.
    let odd = SpaceMap { size: size + 1000, extents: vec![ext(0, 4096), ext(size - 4096, 5096)] };
    assert!(odd.to_text(MAGIC_V1).contains(" unit=4096\n"));
    assert_eq!(SpaceMap::parse(odd.to_text(MAGIC_V1).as_bytes(), MAGIC_V1), Some(Ok(odd)));
    let unaligned = SpaceMap { size: 5000, extents: vec![ext(100, 900), ext(1000, 1), ext(4999, 1)] };
    assert!(unaligned.to_text(MAGIC_V1).contains(" unit=1\n"));
    assert_eq!(SpaceMap::parse(unaligned.to_text(MAGIC_V1).as_bytes(), MAGIC_V1), Some(Ok(unaligned)));

    // Many extents stay compact: under 3 characters each here.
    let many =
        SpaceMap { size: 1 << 40, extents: (0..100_000).map(|i| ext(i * 64 * 4096, 4096 * (1 + i % 7))).collect() };
    let text = many.to_text(MAGIC_V1);
    assert!(text.len() < 100_000 * 3, "{} bytes", text.len());
    assert_eq!(SpaceMap::parse(text.as_bytes(), MAGIC_V1), Some(Ok(many)));
}

#[test]
fn parses_options() {
    let args = |words: &[&str]| {
        let words: Vec<Vec<u8>> = words.iter().map(|w| w.as_bytes().to_vec()).collect();
        Args::parse(&words)
    };
    let a = args(&[
        "--ddgui-worker",
        "--ddgui-sync=/dev/sdz",
        "--mode=smart",
        "--from=/dev/sdy",
        "--to=/tmp/x.img.gz",
        "--ask",
        "--block-size=1048576",
        "--",
        "if=/dev/sdy",
        "of=/tmp/x.img",
    ])
    .unwrap();
    assert_eq!(a.mode, Mode::Smart);
    assert!(a.ask && a.worker());
    assert_eq!(a.plumbing, ["--ddgui-worker", "--ddgui-sync=/dev/sdz"]);
    assert_eq!(a.block_size, 1 << 20);
    assert_eq!(a.dd, [b"if=/dev/sdy".to_vec(), b"of=/tmp/x.img".to_vec()]);
    assert_eq!(a.say("ready").as_deref(), Some("@ready"));
    assert_eq!(
        full_copy_words(&a, 7).unwrap(),
        [b"dd".to_vec(), b"--ddgui-parent=7".to_vec(), b"if=/dev/sdy".to_vec(), b"of=/tmp/x.img".to_vec()]
    );

    let a = args(&["--mode=restore", "--from=a b.xz", "--to=/dev/sdz"]).unwrap();
    assert_eq!((a.mode, a.block_size, a.from.as_slice()), (Mode::Restore, 4 << 20, &b"a b.xz"[..]));
    assert_eq!(a.say("ready"), None);
    assert!(full_copy_words(&a, 7).is_err());
    assert!(args(&["--mode=restore", "--from=a", "--to=b", "--ask"]).is_err());
    assert!(args(&["--mode=copy", "--from=a", "--to=b"]).is_err());
    assert!(args(&["--mode=smart", "--from=a"]).is_err());
    assert!(args(&["--mode=smart", "--from=a", "--to=b", "--block-size=1000"]).is_err());
    assert!(args(&["--mode=smart", "--from=a", "--to=b", "--nope"]).is_err());
    assert_eq!(parse_size("4M"), Some(4 << 20));
    assert_eq!(parse_size("512K"), Some(512 << 10));
    assert_eq!(parse_size("64MiB"), Some(64 << 20));
    assert_eq!(parse_size("4X"), None);
}

#[test]
fn option_errors() {
    let err = |words: &[&[u8]]| {
        let words: Vec<Vec<u8>> = words.iter().map(|w| w.to_vec()).collect();
        Args::parse(&words).unwrap_err()
    };
    assert_eq!(err(&[]), "--mode is missing");
    assert_eq!(err(&[b"--mode=x"]), "unknown mode \"x\" (use smart or restore)");
    assert_eq!(err(&[b"--mode=smart"]), "--from is missing");
    assert_eq!(err(&[b"--mode=smart", b"--from="]), "--from is missing");
    assert_eq!(err(&[b"--mode=smart", b"--from=a", b"--to"]), "--to is missing");
    assert_eq!(
        err(&[b"--mode=restore", b"--from=a", b"--to=b", b"--ask"]),
        "--ask only goes with --mode=smart"
    );
    assert_eq!(err(&[b"--block-size=3"]), "--block-size has to be a multiple of 4096 between 4K and 256M");
    assert_eq!(err(&[b"--block-size=512M"]), "--block-size has to be a multiple of 4096 between 4K and 256M");
    assert_eq!(err(&[b"--ddgui-x=\xff"]), "invalid option");
    assert_eq!(err(&[b"--n\xffope=1"]), "unknown option --n\u{fffd}ope");
    // A path needn't be text.
    let words: Vec<Vec<u8>> = [&b"--mode=smart"[..], b"--from=\xff", b"--to=a=b"].iter().map(|w| w.to_vec()).collect();
    let a = Args::parse(&words).unwrap();
    assert_eq!((a.from, a.to), (b"\xff".to_vec(), b"a=b".to_vec()));
    assert_eq!(parse_size(""), None);
    assert_eq!(parse_size("99999999999999999999"), None);
    assert_eq!(parse_size("99999999999999999G"), None);
    assert_eq!(parse_size("1g"), None);
    assert_eq!(parse_size("1k"), Some(1024));
}

#[test]
fn answers_and_room() {
    assert_eq!(answered(Some("Smart")), Answer::Smart);
    assert_eq!(answered(Some("FULL")), Answer::Full);
    assert_eq!(answered(Some("smart ")), Answer::Cancel);
    assert_eq!(answered(None), Answer::Cancel);
    assert_eq!(drive_too_small(1000, 1000, "a", "b"), None);
    assert_eq!(
        drive_too_small(2000, 1000, "/dev/a", "/dev/b").unwrap(),
        "/dev/b is too small: the data on /dev/a reaches 2.00 kB, but the drive holds 1.00 kB."
    );
    assert_eq!(image_too_big(Some(2000), false, 1000, "x"), None);
    assert_eq!(image_too_big(None, true, 1000, "x"), None);
    assert_eq!(
        image_too_big(Some(2000), true, 1000, "/dev/b").unwrap(),
        "The image doesn't fit: it needs 2.00 kB, but /dev/b holds 1.00 kB."
    );
    assert_eq!(why("No space left on device (os error 28)"), "No space left on device");
    assert_eq!(why("odd"), "odd");
    assert_eq!(read_error("/x", 1000, "gone (os error 5)"), "couldn't read /x at 1.00 kB: gone");
    assert_eq!(write_error("/x", 0, "gone"), "couldn't write to /x at 0 B: gone");
}

#[test]
fn tidied_extents() {
    let extents = [ext(50, 10), ext(0, 10), ext(5, 10), ext(60, 100), ext(15, 5), ext(200, 5), ext(30, 0)];
    assert_eq!(tidy(&extents, 100), [ext(0, 20), ext(50, 50)]);
    let map = smart_map(&extents, 100);
    assert_eq!((map.size, map.used(), map.end()), (100, 70, 100));
    assert_eq!(tidy(&[ext(u64::MAX, u64::MAX)], 100), []);
}

/// A drive full of junk, with random data (and a run of zeros) in the extents.
fn junk_drive(size: u64, extents: &[Extent]) -> Vec<u8> {
    let mut content: Vec<u8> = (0..size).map(|i| 0x5a ^ (i % 251) as u8).collect();
    for (n, e) in extents.iter().enumerate() {
        let data = noise(n as u64 + 7, e.len as usize);
        content[e.start as usize..(e.start + e.len) as usize].copy_from_slice(&data);
    }
    // Zeros inside used space are data too, and have to survive as such.
    if let Some(e) = extents.iter().find(|e| e.len >= 3 * 4096) {
        content[(e.start + 4096) as usize..(e.start + 8192) as usize].fill(0);
    }
    content
}

/// `content` with everything outside the extents set to `fill`.
fn only_extents(content: &[u8], extents: &[Extent], fill: u8) -> Vec<u8> {
    let mut out = vec![fill; content.len()];
    for e in extents {
        let r = e.start as usize..(e.start + e.len) as usize;
        out[r.clone()].copy_from_slice(&content[r]);
    }
    out
}

/// A 64 MiB (and a bit) drive whose used space starts, ends and crosses chunks oddly.
fn test_layout() -> (u64, Vec<Extent>) {
    let size = 64 * MIB + 1536;
    let extents = vec![
        ext(0, MIB),
        ext(3 * MIB + 4096, 8192),
        ext(8 * MIB, 9 * MIB + 4096),
        ext(40 * MIB, 4096),
        ext(size - 5632, 5632),
    ];
    (size, extents)
}

#[test]
fn smart_copy_to_drive_leaves_free_space() {
    let (size, extents) = test_layout();
    let content = junk_drive(size, &extents);
    let mut target = vec![0xaa; size as usize + 4096];
    // Small chunks, so extents split into several pieces.
    let mut progress = Progress::default();
    to_drive(&content, &mut target, &extents, 1 << 20, "/dev/sdz", &mut progress).unwrap();
    let used: u64 = extents.iter().map(|e| e.len).sum();
    assert_eq!((progress.done, progress.written), (used, used));
    let mut want = only_extents(&content, &extents, 0xaa);
    want.extend([0xaa; 4096]);
    assert!(target == want, "target");
    let moved: usize = pieces(&extents, 1 << 20).iter().map(|p| p.1).sum();
    assert_eq!(moved as u64, extents.iter().map(|e| e.len).sum::<u64>());
}

#[test]
fn writing_past_the_end_of_a_drive_fails_cleanly() {
    let image = noise(1, 3 * MIB as usize);
    let mut target = vec![0xaa; 2 * MIB as usize];
    let found = inspect(image.len() as u64, &Loaded::whole(image.clone()), None).ok().unwrap();
    assert_eq!((found.info.format, found.total()), (ImageFormat::Raw, 3 * MIB));
    let data = unpack(&image, way(&found, 4), "img").unwrap().unwrap();
    let mut staging = Staging::new(MIB as usize);
    let mut puts = staging.put(0, &data);
    puts.extend(staging.flush());
    assert_eq!(puts.len(), 3);
    let mut progress = Progress::default();
    let err = write_puts(&puts, &mut target, "/dev/sdz", &mut progress).unwrap_err();
    assert!(err.contains("doesn't fit"), "{err}");
    // What fits was written.
    assert!(target == image[..2 * MIB as usize]);
    assert_eq!((progress.done, progress.written), (2 * MIB, 2 * MIB));
}

#[test]
fn pieces_that_do_not_fit_are_left_alone() {
    let content = noise(1, 10_000);
    let mut target = vec![0; 5000];
    let mut progress = Progress { done: 1, written: 2 };
    let err = to_drive(&content, &mut target, &[ext(0, 10_000)], 4096, "/dev/sdz", &mut progress).unwrap_err();
    assert_eq!(err, "The image doesn't fit on /dev/sdz: it holds more than the drive's 5.00 kB.");
    // The first piece was written; nothing of the second, which doesn't fit.
    assert!(target[..4096] == content[..4096] && target[4096..] == [0; 904]);
    assert_eq!((progress.done, progress.written), (4097, 4098));
    assert!(fits(false, 0, u64::MAX, 9) && fits(true, 10, 5, 5) && !fits(true, 10, 5, 6));
}

#[test]
fn extents_go_in_any_order() {
    let content = noise(4, 3000);
    let mut target = vec![0; 2500];
    let extents = [ext(2000, 500), ext(100, 0), ext(0, 700), ext(2900, 0)];
    to_drive(&content, &mut target, &extents, 300, "/dev/sdz", &mut Progress::default()).unwrap();
    assert!(target == only_extents(&content, &extents, 0)[..2500]);
    // What comes after a piece that doesn't fit is left alone, too.
    let mut target = vec![0; 2500];
    let mut progress = Progress::default();
    let extents = [ext(10, 5), ext(2400, 200), ext(50, 5)];
    assert!(to_drive(&content, &mut target, &extents, 300, "/dev/sdz", &mut progress).is_err());
    assert!(target[10..15] == content[10..15] && target[15..] == [0; 2485]);
    assert_eq!((progress.done, progress.written), (5, 5));
}

#[test]
fn smart_images_unpack_to_the_drive() {
    let (size, extents) = test_layout();
    let content = junk_drive(size, &extents);
    let map = SpaceMap { size, extents: extents.clone() };
    let mut progress = Progress::default();
    let image = to_image(&content, &map, &mut progress).unwrap();
    // Any zstd gives the whole drive, with free space as zeros.
    let unpacked = zstd::stream::decode_all(&image[..]).unwrap();
    assert!(unpacked == only_extents(&content, &extents, 0), "unpacked");
    let used: u64 = extents.iter().map(|e| e.len).sum();
    assert!((image.len() as u64) < used + 100_000, "{} bytes", image.len());
    assert_eq!((progress.done, progress.written), (used, image.len() as u64));

    // The map is at its start, and the seek table at its end lists every frame.
    let head = read_head(&image).unwrap();
    assert_eq!(head.map, Ok(map.clone()));
    let footer = &image[image.len() - 9..];
    let place = seek_table_place(footer, image.len() as u64).unwrap();
    let table = &image[place.start as usize..(place.start + place.len) as usize];
    let (frames, start) = read_seek_table(table, place).unwrap();
    assert_eq!(start, place.start);
    assert_eq!(frames.iter().map(|f| f.len as u64).sum::<u64>(), size);
    assert_eq!(frames.iter().map(|f| f.packed as u64).sum::<u64>(), place.start);

    // A frame holds used data, up to 4 MiB of it, or zeros; it says how much, and has a
    // checksum.
    let mut at = frames[0].packed as usize;
    let mut pos = 0u64;
    for f in &frames[1..] {
        let frame = &image[at..at + f.packed as usize];
        let held = zstd::bulk::decompress(frame, f.len as usize).unwrap();
        assert_eq!(held.len(), f.len as usize);
        let have = Loaded::whole(frame.to_vec());
        assert_eq!(zstd_content_size(frame.len() as u64, &have).ok().unwrap(), Some(f.len as u64));
        assert!(frame[4] & 4 != 0);
        let inside = extents.iter().any(|e| e.start <= pos && pos + f.len as u64 <= e.start + e.len);
        assert!(if inside { f.len <= 4 << 20 } else { held.iter().all(|b| *b == 0) });
        at += f.packed as usize;
        pos += f.len as u64;
    }
}

fn put_on(target: &mut [u8], puts: &[Put]) {
    for p in puts {
        target[p.pos as usize..p.pos as usize + p.data.len()].copy_from_slice(&p.data);
    }
}

#[test]
fn smart_images_are_restored() {
    let (size, extents) = test_layout();
    let content = junk_drive(size, &extents);
    let map = SpaceMap { size, extents: extents.clone() };
    let image = to_image(&content, &map, &mut Progress::default()).unwrap();
    let used: u64 = extents.iter().map(|e| e.len).sum();

    // What it is, as a file.
    let have = Loaded::whole(image.clone());
    let found = inspect(image.len() as u64, &have, None).ok().unwrap();
    assert_eq!(found.info.format, ImageFormat::Zstd);
    assert_eq!(found.info.uncompressed, Some(size));
    assert_eq!(found.info.smart.map(|s| (s.disk_size, s.used)), Some((size, used)));
    assert_eq!((found.total(), found.needs()), (used, Some(size)));
    assert_eq!(found.map, Some(map.clone()));
    assert!(way(&found, 4) == Way::Smart);
    // With another first line it is plain zstd; with a damaged map too.
    let mut other = image.clone();
    other[8 + 20] = b'9';
    let found = inspect(other.len() as u64, &Loaded::whole(other.clone()), None).ok().unwrap();
    assert!(found.info.smart.is_none() && way(&found, 4) == Way::Zstd);
    assert_eq!(found.info.uncompressed, Some(MIB));
    assert_eq!(image_puts(&other).err().unwrap(), "the smart image is damaged (no map)");

    // Only used data comes back.
    let puts = image_puts(&image).unwrap();
    assert_eq!(puts.iter().map(|p| p.data.len() as u64).sum::<u64>(), used);
    let mut target = vec![0xaa; size as usize + 4096];
    let mut progress = Progress::default();
    restore_image(&image, &mut target, "/dev/sdz", &mut progress).unwrap();
    let mut want = only_extents(&content, &extents, 0xaa);
    want.extend([0xaa; 4096]);
    assert!(target == want, "restored onto 0xAA");
    assert_eq!((progress.done, progress.written), (used, used));

    // A drive that is too small gets what comes before what doesn't fit.
    let mut small = vec![0xaa; 41 * MIB as usize];
    let err = restore_image(&image, &mut small, "/dev/sdz", &mut progress).unwrap_err();
    assert!(err.contains("doesn't fit"), "{err}");
    assert!(small == want[..41 * MIB as usize], "restored in part");

    // Frame by frame, those of free space are passed over.
    let (frames, start) = image_table(&image).ok().unwrap();
    let head = frames[0].packed as u64;
    let mut s = SmartFrames::new(&map, &frames, head, start).ok().unwrap();
    let mut target = vec![0xaa; size as usize];
    let mut read = 0;
    while let Some((at, n)) = s.next() {
        put_on(&mut target, &s.put(&image[at as usize..at as usize + n]).unwrap());
        read += 1;
    }
    assert!(read < frames.len() - 1);
    assert!(target == only_extents(&content, &extents, 0xaa), "restored frame by frame");
}

#[test]
fn damaged_smart_images_are_found() {
    let extents = vec![ext(0, 5000), ext(12_288, 10_000)];
    let content = junk_drive(40_000, &extents);
    let map = SpaceMap { size: 40_000, extents };
    let image = to_image(&content, &map, &mut Progress::default()).unwrap();
    let (frames, start) = image_table(&image).ok().unwrap();
    let head = frames[0].packed as usize;
    let error = |image: &[u8]| {
        let mut target = vec![0xaa; 40_000];
        let err = restore_image(image, &mut target, "/dev/sdz", &mut Progress::default()).unwrap_err();
        assert!(target == [0xaa; 40_000]);
        err
    };

    // A byte of a frame, or of its checksum.
    for at in [head + 20, head + frames[1].packed as usize - 1] {
        let mut bad = image.clone();
        bad[at] ^= 1;
        assert_eq!(error(&bad), "the smart image is damaged (a frame that doesn't unpack)");
    }
    assert_eq!(error(&image[..start as usize]), "the smart image is damaged (no seek table)");
    let mut bad = image.clone();
    bad[start as usize + 4] ^= 1;
    assert_eq!(error(&bad), "the smart image is damaged (a damaged seek table)");

    let with = |list: &[Frame]| {
        let mut v = image[..start as usize].to_vec();
        v.extend(seek_table(list));
        v
    };
    assert_eq!(error(&with(&frames[1..])), "the smart image is damaged (a seek table without the map)");
    assert_eq!(error(&with(&frames[..1])), "the smart image is damaged (a seek table that doesn't add up)");
    let mut big = frames.clone();
    big[1].len = (64 << 20) + 1;
    assert_eq!(error(&with(&big)), "the smart image is damaged (a frame that's too big)");
    let mut wrong = frames.clone();
    wrong[1].len -= 1;
    wrong[2].len += 1;
    assert_eq!(error(&with(&wrong)), "the smart image is damaged (a frame that doesn't unpack)");
}

#[test]
fn zero_members_decompress_to_zeros() {
    for len in [1u64, 4095, 4096, 12288, 64 * MIB + 4096 + 500, 3 * 64 * MIB] {
        let mut z = Zeros::new();
        let mut unpacked = 0;
        for n in Zeros::pieces(len) {
            let frame = z.frame(n).unwrap();
            // Each one says how big it is.
            let have = Loaded::whole(frame.clone());
            assert_eq!(zstd_content_size(frame.len() as u64, &have).ok().unwrap(), Some(n));
            let data = zstd::stream::decode_all(&frame[..]).unwrap();
            assert_eq!(data.len() as u64, n);
            assert!(data == vec![0u8; n as usize]);
            unpacked += n;
        }
        assert_eq!(unpacked, len);
    }
    // 64 MiB of zeros takes about 64 KiB at most.
    let mut z = Zeros::new();
    let total: usize = Zeros::pieces(64 * MIB).into_iter().map(|n| z.frame(n).unwrap().len()).sum();
    assert!(total < 70_000, "{total} bytes");
}

#[test]
fn small_numbers_and_texts() {
    for v in [0u64, 1, 127, 128, 300, u64::MAX] {
        let mut b = vec![9];
        put_varint(&mut b, v);
        let mut at = 1;
        assert_eq!(get_varint(&b, &mut at), Some(v));
        assert_eq!(at, b.len());
    }
    assert_eq!(get_varint(&[0x80], &mut 0), None);
    for text in ["", "a", "ab", "abc", "\u{0}\u{7f}?"] {
        let mut s = String::new();
        push_base64(&mut s, text.as_bytes());
        assert_eq!(unbase64(&s.chars().collect::<Vec<char>>()).unwrap(), text.as_bytes());
    }
    let mut s = String::new();
    push_base64(&mut s, b"ab");
    assert_eq!(s, "YWI");
    assert_eq!(unbase64(&['!']), None);
    let mut at = 0;
    assert_eq!(vli(&[0xe5, 0x8e, 0x26, 9], &mut at), Some(624_485));
    assert_eq!(at, 3);
}

#[test]
fn frames_and_maps() {
    let frames = [Frame { packed: 10, len: 100 }, Frame { packed: 7, len: 5 }];
    let mut file = vec![1u8; 17];
    file.extend(seek_table(&frames));
    let place = seek_table_place(&file[file.len() - 9..], file.len() as u64).unwrap();
    let table = &file[place.start as usize..(place.start + place.len) as usize];
    let (listed, at) = read_seek_table(table, place).unwrap();
    assert!(listed == frames && at == 17);
    assert_eq!(seek_table_place(&[0; 9], 100).unwrap_err().what, "no seek table");
    let map = SpaceMap { size: 8192, extents: vec![ext(0, 4096)] };
    let frame = map_frame(&map);
    let head = read_head(&frame).unwrap();
    assert_eq!((head.map, head.len), (Ok(map), frame.len() as u64));
    assert!(read_head(b"nothing of the kind").is_none());
}

// Restores of smart images of the first version: gzip members, with the map in a comment.

fn member(data: &[u8], comment: Option<&str>) -> Vec<u8> {
    let mut gz = flate2::GzBuilder::new();
    if let Some(c) = comment {
        gz = gz.comment(c);
    }
    let mut enc = gz.write(Vec::new(), flate2::Compression::fast());
    enc.write_all(data).unwrap();
    enc.finish().unwrap()
}

fn restore(image: &[u8], map: &SpaceMap, target: &mut [u8]) -> Result<(), String> {
    let mut smart = Smart::new(map);
    let mut staging = Staging::new(5000);
    let mut at = 0usize;
    let mut want = 300usize;
    loop {
        let end = (at + want).min(image.len());
        match smart.step(&image[at..end], end == image.len(), 1000)? {
            Step::More => want += 300,
            Step::On { used, skip, puts } => {
                at += used + skip as usize;
                want = 300;
                for p in puts {
                    for full in staging.put(p.pos, &p.data) {
                        target[full.pos as usize..full.pos as usize + full.data.len()].copy_from_slice(&full.data);
                    }
                }
            }
            Step::End => break,
        }
    }
    if let Some(last) = staging.flush() {
        target[last.pos as usize..last.pos as usize + last.data.len()].copy_from_slice(&last.data);
    }
    smart.finish(image.len() as u64)
}

#[test]
fn first_version_images_are_restored() {
    let size = 40_000u64;
    let extents = vec![ext(0, 5000), ext(12_288, 10_000), ext(39_000, 1000)];
    let content = only_extents(&junk_drive(size, &extents), &extents, 0);
    let map = SpaceMap { size, extents: extents.clone() };
    let mut image = member(b"", Some(&map.to_text(MAGIC_V1)));
    for part in content.chunks(7000) {
        image.extend(member(part, None));
    }
    let header = read_header(&image).unwrap();
    assert_eq!(SpaceMap::parse(&header.comment.unwrap(), MAGIC_V1), Some(Ok(map.clone())));
    let mut target = vec![0xaa; size as usize];
    restore(&image, &map, &mut target).unwrap();
    assert!(target == only_extents(&content, &extents, 0xaa), "restored onto 0xAA");

    // Damage and missing ends are found.
    let mut bad = image.clone();
    let at = bad.len() - 6;
    bad[at] ^= 1;
    assert!(restore(&bad, &map, &mut target).is_err());
    assert!(restore(&image[..image.len() - 4], &map, &mut target).is_err());
    let short = member(&content[..7000], None);
    assert!(restore(&short, &map, &mut target).is_err());

    // What it is, as a file.
    let have = Loaded::whole(image.clone());
    let found = inspect(image.len() as u64, &have, None).ok().unwrap();
    assert_eq!(found.info.format, ImageFormat::Gzip);
    assert_eq!(found.info.smart.map(|s| (s.disk_size, s.used)), Some((size, 16_000)));
    assert_eq!(found.needs(), Some(size));
    assert_eq!(found.total(), 16_000);
    assert!(way(&found, 4) == Way::Smart);
}

#[test]
fn streams_tell_what_they_are() {
    let data = noise(2, 300_000);
    let zst = zstd::stream::encode_all(&data[..], 1).unwrap();
    let mut xz = lzma_rust2::XzWriter::new(Vec::new(), lzma_rust2::XzOptions::with_preset(1)).unwrap();
    xz.write_all(&data).unwrap();
    let xz = xz.finish().unwrap();
    let gz = member(&data, None);
    assert!(format_of(&zst) == ImageFormat::Zstd);
    assert!(format_of(&xz) == ImageFormat::Xz);
    assert!(format_of(&gz) == ImageFormat::Gzip);
    assert!(format_of(b"PK\x03\x04....") == ImageFormat::Zip);
    assert!(format_of(&data) == ImageFormat::Raw);

    let have = Loaded::whole(xz.clone());
    let index = xz_index(xz.len() as u64, &have).ok().unwrap();
    assert_eq!((index.uncompressed, index.streams, index.blocks), (300_000, 1, 1));
    assert_eq!(xz_workers(&index, 8), 1);
    let found = inspect(xz.len() as u64, &have, None).ok().unwrap();
    assert_eq!(found.info.uncompressed, Some(300_000));
    assert_eq!((found.total(), found.needs()), (xz.len() as u64, Some(300_000)));

    // Blocks can be decoded at the same time.
    let mut options = lzma_rust2::XzOptions::with_preset(1);
    options.set_block_size(std::num::NonZeroU64::new(MIB));
    let mut blocks = lzma_rust2::XzWriter::new(Vec::new(), options).unwrap();
    blocks.write_all(&vec![7u8; 3 * MIB as usize]).unwrap();
    let blocks = blocks.finish().unwrap();
    let index = xz_index(blocks.len() as u64, &Loaded::whole(blocks.clone())).ok().unwrap();
    assert_eq!((index.uncompressed, index.blocks), (3 * MIB, 3));
    assert!(xz_workers(&index, 8) > 1);

    let sized = zstd::bulk::compress(&data, 1).unwrap();
    let have = Loaded::whole(sized.clone());
    assert_eq!(zstd_content_size(sized.len() as u64, &have).ok().unwrap(), Some(300_000));
    // A part of the file that isn't there is asked for.
    assert!(matches!(zstd_content_size(sized.len() as u64, &Loaded::new()), Err(Stop::Need { offset: 0, .. })));
    assert!(zstd_frame_end(Some(1), Some(2)).is_err() && zstd_frame_end(Some(1), None).is_ok());
    assert_eq!(first_file(&[Some(true), None, Some(false), Some(false)]), Some(2));

    let raw = inspect(data.len() as u64, &Loaded::whole(data.clone()), None).ok().unwrap();
    assert!(way(&raw, 4) == Way::Raw);
    assert_eq!((raw.total(), raw.needs()), (300_000, Some(300_000)));
    let mut out = Vec::new();
    flate2::read::MultiGzDecoder::new(&gz[..]).read_to_end(&mut out).unwrap();
    assert_eq!(crc32(0, &out), u32::from_le_bytes(gz[gz.len() - 8..gz.len() - 4].try_into().unwrap()));
}

// Disks.

#[test]
fn analysis_reads_through_disk_reader() {
    // The analysis gets small reads anywhere; the reader serves them from aligned reads.
    let data = noise(3, 3 * MIB as usize + 777);
    let mut r = DiskReader::new(data.len() as u64);
    let mut read = |r: &mut DiskReader, len: usize| {
        let mut got = Vec::new();
        while got.len() < len {
            if let Some((start, span)) = r.fetch(len - got.len()) {
                assert_eq!(start % 4096, 0);
                assert!(span <= 1 << 20);
                r.fill(start, data[start as usize..(start + span) as usize].to_vec());
            }
            let part = r.read(len - got.len());
            if part.is_empty() {
                break;
            }
            got.extend(part);
        }
        got
    };
    for (at, len) in
        [(0u64, 512usize), (446, 66), (MIB - 10, 20), (2 * MIB + 5, 300_000), (3 * MIB + 700, 77)]
    {
        assert_eq!(r.seek(SeekTo::Start(at)), Some(at));
        assert_eq!(read(&mut r, len), &data[at as usize..at as usize + len]);
    }
    r.seek(SeekTo::End(-100)).unwrap();
    assert_eq!(read(&mut r, 1000), &data[data.len() - 100..]);
    assert_eq!(r.seek(SeekTo::Start(5)), Some(5));
    assert_eq!(r.seek(SeekTo::Current(-6)), None);
    assert_eq!(r.seek(SeekTo::Current(2)), Some(7));
}

#[test]
fn whole_sectors() {
    assert_eq!((round_up(0, 512), round_up(1, 512), round_up(512, 512)), (0, 512, 512));
    assert_eq!(reading(None, 100, 3, 5, 10), Reading { start: 3, span: 5, at: 0 });
    assert_eq!(reading(Some(512), 10_000, 700, 400, 400), Reading { start: 512, span: 1024, at: 188 });
    assert_eq!(reading(Some(512), 10_000, 1024, 400, 4096), Reading { start: 1024, span: 512, at: 0 });
    assert_eq!(reading(Some(512), 1100, 1024, 50, 4096), Reading { start: 1024, span: 76, at: 0 });
    assert_eq!((body(None, 3, 100), body(Some(512), 512, 1100), body(Some(512), 3, 1100)), (100, 1024, 0));
    assert_eq!(patched(vec![1, 2, 3, 4], 1, &[8, 9]), [1, 8, 9, 4]);
    assert!(is_drive(r"\\.\PhysicalDrive1") && !is_drive("/dev/sda"));
}

#[test]
fn transfers_go_on() {
    let mut t = Transfer { off: 100, left: 10 };
    assert_eq!(t.next(Moved::Interrupted), Next::More);
    assert_eq!(t.next(Moved::Bytes(4)), Next::More);
    assert_eq!(t, Transfer { off: 104, left: 6 });
    assert_eq!(t.next(Moved::Bytes(0)), Next::Stuck);
    assert_eq!(t.next(Moved::Bytes(6)), Next::Done);
}

#[test]
fn progress_is_understood() {
    let mut p = Progress::default();
    p.add(30, 20);
    p.add(5, 1);
    assert_eq!(p.line(Some(33)), "@progress 33 21");
    assert_eq!(p.percent(Some(100)), " 35% · ");
    assert_eq!(p.percent(Some(0)), "100% · ");
    assert_eq!(p.percent(None), "");
    let mut s = Shared::default();
    assert!(matches!(
        s.on_status_line(&p.line(None)),
        Some(Event::Progress { done: 35, written: Some(21) })
    ));
    assert!(matches!(s.on_status_line(&total_said(77)), Some(Event::Total(77))));
}
