//! Image formats, on files that are vectors.

use dd_gui::engine::formats::bz2::{self, decode_block, Action, BitWriter, Bz2, Item, ParBz2, Splitter};
use dd_gui::engine::formats::codec::{decode, Codec};
use dd_gui::engine::formats::lz4::{self, xxh32, Lz4, Xxh32};
use dd_gui::engine::formats::lzma;
use dd_gui::engine::formats::sevenz;
use dd_gui::engine::formats::source::{crc32c, Loaded, Source, Stop};
use dd_gui::engine::formats::tar::{self, number, Pax};
use dd_gui::engine::formats::vdisk::{Layout, List, Packed, Piece, Run, VDisk};
use dd_gui::engine::formats::{detect, dmg, inside, qcow2, untar, vhd, vhdx, vmdk, Finding};
use dd_gui::engine::ImageFormat;
use std::io::Write;

const MIB: usize = 1 << 20;

/// Reproducible pseudo-random bytes (xorshift64*).
fn noise(seed: u64, len: usize) -> Vec<u8> {
    let mut x = seed.wrapping_mul(0x9e37_79b9_7f4a_7c15) | 1;
    let mut out = Vec::with_capacity(len + 8);
    while out.len() < len {
        x ^= x >> 12;
        x ^= x << 25;
        x ^= x >> 27;
        out.extend(x.wrapping_mul(0x2545_f491_4f6c_dd1d).to_le_bytes());
    }
    out.truncate(len);
    out
}

/// A disk of noise, zeros and patterns.
fn reference(len: usize) -> Vec<u8> {
    let mut d = noise(1, len / 4);
    d.resize(len / 2, 0);
    d.extend(b"DD-GUI writes disk images to drives. ".iter().cycle().take(len / 4));
    d.extend(noise(3, len - d.len()));
    d
}

fn zlib(data: &[u8]) -> Vec<u8> {
    let mut z = flate2::write::ZlibEncoder::new(Vec::new(), flate2::Compression::fast());
    z.write_all(data).unwrap();
    z.finish().unwrap()
}

fn bzip(data: &[u8]) -> Vec<u8> {
    let mut z = bzip2::write::BzEncoder::new(Vec::new(), bzip2::Compression::fast());
    z.write_all(data).unwrap();
    z.finish().unwrap()
}

fn xz(data: &[u8]) -> Vec<u8> {
    let mut z = lzma_rust2::XzWriter::new(Vec::new(), lzma_rust2::XzOptions::with_preset(0)).unwrap();
    z.write_all(data).unwrap();
    z.finish().unwrap()
}

fn found(file: &[u8]) -> Option<(ImageFormat, Option<u64>)> {
    let head = &file[..file.len().min(4096)];
    match detect(file.len() as u64, &Loaded::whole(file.to_vec()), head) {
        Ok(Finding::No) => None,
        Ok(Finding::Is(d)) => Some((d.format, d.raw_size)),
        Ok(Finding::Holds(f)) => Some((f, None)),
        Err(_) => panic!("detect failed"),
    }
}

/// Reads a disk to its end.
fn read_all<L: Layout>(disk: &mut VDisk<L>, file: &[u8]) -> Result<Vec<u8>, String> {
    let have = Loaded::whole(file.to_vec());
    let mut out = Vec::new();
    loop {
        match disk.read(&have, 777_777) {
            Ok(v) if v.is_empty() => return Ok(out),
            Ok(v) => out.extend(v),
            Err(Stop::Failed(e)) => return Err(e.what),
            Err(Stop::Need { .. }) => panic!("a whole file lacks nothing"),
        }
    }
}

fn failed<T>(r: Result<T, Stop>) -> String {
    match r {
        Ok(_) => panic!("it opened"),
        Err(Stop::Failed(e)) => e.what,
        Err(Stop::Need { .. }) => panic!("a whole file lacks nothing"),
    }
}

#[test]
fn adc_literals_and_matches() {
    // "abc" as literals, then a short match of 6 at distance 3, then a long match of 4 at
    // distance 1 (repeating the last byte).
    let input = [0x82, b'a', b'b', b'c', (6 - 3) << 2, 2, 0x40, 0, 0];
    let mut out = Vec::new();
    decode(Codec::Adc, &input, &mut out, 100).unwrap();
    assert_eq!(out, b"abcabcabccccc");
    // Output is capped.
    decode(Codec::Adc, &input, &mut out, 5).unwrap();
    assert_eq!(out, b"abcab");
    // A match before the start is an error, not a panic.
    assert!(decode(Codec::Adc, &[0x40, 0, 9], &mut out, 100).is_err());
    assert!(decode(Codec::Adc, &[0x85, 1], &mut out, 100).is_err());
    // Nothing is left in the output then.
    assert!(out.is_empty());
}

#[test]
fn capped_output() {
    let data: Vec<u8> = (0..100_000u32).map(|i| (i % 7) as u8).collect();
    let packed = zlib(&data);
    let mut out = Vec::new();
    decode(Codec::Zlib, &packed, &mut out, 1000).unwrap();
    assert_eq!(out, &data[..1000]);
    decode(Codec::Zlib, &packed, &mut out, 1 << 20).unwrap();
    assert_eq!(out, data);
    assert!(decode(Codec::Zlib, &packed[..10], &mut out, 1 << 20).is_ok());
    assert!(out.len() < data.len());
    assert!(decode(Codec::Zlib, b"garbage!", &mut out, 1 << 20).is_err());
    assert!(out.is_empty());
}

#[test]
fn every_codec_decodes() {
    let data = reference(100_000);
    let mut lzfse = Vec::new();
    lzfse_rust::encode_bytes(&data, &mut lzfse).unwrap();
    let mut deflated = flate2::write::DeflateEncoder::new(Vec::new(), flate2::Compression::fast());
    deflated.write_all(&data).unwrap();
    for (codec, packed) in [
        (Codec::Zlib, zlib(&data)),
        (Codec::Deflate, deflated.finish().unwrap()),
        (Codec::Bzip2, bzip(&data)),
        (Codec::Lzfse, lzfse),
        (Codec::Xz, xz(&data)),
        (Codec::Zstd, zstd::bulk::compress(&data, 1).unwrap()),
    ] {
        let mut out = Vec::new();
        decode(codec, &packed, &mut out, 1 << 20).unwrap();
        assert!(out == data, "{}", codec.name());
        // LZFSE comes in one piece.
        if codec == Codec::Lzfse {
            assert!(decode(codec, &packed, &mut out, 1000).is_err());
        } else {
            decode(codec, &packed, &mut out, 1000).unwrap();
            assert!(out == data[..1000], "{} capped", codec.name());
        }
        assert!(decode(codec, b"\x07garbage!", &mut out, 1 << 20).is_err(), "{} garbage", codec.name());
    }
}

#[test]
fn xxh32_known_values() {
    assert_eq!(xxh32(b""), 0x02cc_5d05);
    assert_eq!(xxh32(b"a"), 0x550d_7456);
    assert_eq!(xxh32(b"abc"), 0x32d1_53ff);
    let data: Vec<u8> = (0..1000u32).map(|i| (i * 31) as u8).collect();
    let mut h = Xxh32::new();
    for piece in data.chunks(7) {
        h.update(piece);
    }
    assert_eq!(h.digest(), xxh32(&data));
}

#[test]
fn crc32c_known_values() {
    assert_eq!(crc32c(0, b"123456789"), 0xe306_9283);
    assert_eq!(crc32c(0, &[0u8; 32]), 0x8a91_36aa);
    let data: Vec<u8> = (0..1000u32).map(|i| (i * 7) as u8).collect();
    let whole = crc32c(0, &data);
    let split = crc32c(crc32c(0, &data[..333]), &data[333..]);
    assert_eq!(whole, split);
}

#[test]
fn numbers() {
    assert_eq!(number(b"0000644\0"), Some(0o644));
    assert_eq!(number(b"   17 \0"), Some(0o17));
    assert_eq!(number(b"\0\0\0\0"), None);
    let mut big = [0u8; 12];
    big[0] = 0x80;
    big[4..].copy_from_slice(&(20u64 << 30).to_be_bytes());
    assert_eq!(number(&big), Some(20 << 30));
    assert_eq!(number(&[0xff; 12]), None);
}

#[test]
fn pax_records() {
    let pax = Pax::parse(b"20 size=12345678901\n28 GNU.sparse.realsize=4096\n").unwrap();
    assert_eq!(pax.size, Some(12_345_678_901));
    assert_eq!(pax.real_size, Some(4096));
    assert!(Pax::parse(b"99 size=1\n").is_err());
    assert!(Pax::parse(b"x").is_err());
}

// bzip2

fn bunzip_plain(file: &[u8]) -> Result<Vec<u8>, String> {
    let mut z = Bz2::new();
    let (mut at, mut out) = (0, Vec::new());
    loop {
        let end = (at + 5000).min(file.len());
        let s = z.step(&file[at..end], 10_000).map_err(|e| e.what)?;
        at += s.used;
        out.extend(s.out);
        if s.end {
            return Ok(out);
        }
    }
}

/// Blocks on their own, `bad` (counting from 1) pretending not to decode.
fn bunzip_blocks(file: &[u8], bad: usize) -> (Vec<u8>, bool) {
    let have = Loaded::whole(file.to_vec());
    let (mut split, mut par) = (Splitter::new(), ParBz2::new());
    let (mut out, mut n) = (Vec::new(), 0);
    loop {
        let item = match split.next(file.len() as u64, &have) {
            Ok(item) => item,
            Err(_) => panic!("a whole file lacks nothing"),
        };
        let mut action = par.take(Some(&item));
        if action == Action::Wait {
            n += 1;
            let data = match &item {
                Item::Block { stream, .. } => decode_block(stream),
                _ => panic!("no block to wait for"),
            };
            match data {
                Ok(data) if n != bad => {
                    par.gave(data.len());
                    out.extend(data);
                    action = par.block_end(true);
                }
                _ => action = par.block_end(false),
            }
        }
        match action {
            Action::Next => {}
            Action::Done => return (out, false),
            Action::FallBack { start, skip } => {
                let rest = bunzip_plain(&file[start as usize..]).unwrap();
                out.extend(&rest[skip as usize..]);
                return (out, true);
            }
            Action::Wait => panic!("two blocks at once"),
        }
    }
}

#[test]
fn bzip2_streams_and_blocks() {
    let data = reference(600_000);
    let one = bzip(&data);
    assert_eq!(found(&one), Some((ImageFormat::Bzip2, None)));
    assert!(bz2::detect(&one) && !bz2::detect(b"BZh0"));
    // An empty stream, then two, and zeros after them.
    let mut multi = bzip(b"");
    multi.extend(bzip(&data[..200_000]));
    multi.extend(bzip(&data[200_000..]));
    multi.extend([0; 100]);
    for file in [&one, &multi] {
        assert!(bunzip_plain(file).unwrap() == data, "plain");
        let (out, fell) = bunzip_blocks(file, 0);
        assert!(out == data && !fell, "blocks");
        // When a block doesn't decode, the plain decoder takes over.
        for bad in [1, 3] {
            let (out, fell) = bunzip_blocks(file, bad);
            assert!(out == data && fell, "block {bad} failing");
        }
    }
    // Anything else after the end is an error, not a quiet end.
    multi.extend(b"junk");
    assert_eq!(bunzip_plain(&multi).unwrap_err(), "the bzip2 file has unexpected data after its end");
    let mut damaged = one.clone();
    damaged[one.len() / 2] ^= 0x10;
    assert!(bunzip_plain(&damaged).is_err());
    assert!(bunzip_plain(&one[..one.len() / 2]).is_err());
    // All at once, up to a limit.
    assert!(bz2::bunzip(&one, data.len()).ok().unwrap() == data);
    assert!(bz2::bunzip(&one, 1000).ok().unwrap() == data[..1000]);
    assert!(bz2::bunzip(b"", 10).ok().unwrap().is_empty());
    assert!(bz2::bunzip(&[0; 50], 10).ok().unwrap().is_empty());
    assert_eq!(
        bz2::bunzip(&multi, data.len() + 1).err().unwrap().what,
        "the bzip2 file has unexpected data after its end"
    );
    assert!(bz2::bunzip(&damaged, data.len()).is_err());
    let mut w = BitWriter::new(&[0xff]);
    w.push(true);
    w.put(0b0101, 4);
    assert_eq!(w.finish(), [0xff, 0b1010_1000]);
}

// lz4

fn unlz4(file: &[u8]) -> Result<Vec<u8>, String> {
    let mut z = Lz4::new();
    let (mut at, mut out, mut want) = (0usize, Vec::new(), 100usize);
    loop {
        let end = (at + want).min(file.len());
        match z.step(&file[at..end], end == file.len()).map_err(|e| e.what)? {
            lz4::Step::More(n) => want = n.max(want + 1),
            lz4::Step::End => return Ok(out),
            lz4::Step::On { used, skip } => {
                at = (at + used + skip as usize).min(file.len());
                want = 100;
            }
            lz4::Step::Block { used, data } => {
                at += used;
                out.extend(data);
                want = 100;
            }
        }
    }
}

fn lz4_frame(mode: lz4_flex::frame::BlockMode, size: Option<u64>, data: &[u8]) -> Vec<u8> {
    let info = lz4_flex::frame::FrameInfo::new()
        .block_mode(mode)
        .block_size(lz4_flex::frame::BlockSize::Max64KB)
        .content_size(size)
        .block_checksums(true)
        .content_checksum(true);
    let mut enc = lz4_flex::frame::FrameEncoder::with_frame_info(info, Vec::new());
    enc.write_all(data).unwrap();
    enc.finish().unwrap()
}

#[test]
fn lz4_frames_and_legacy() {
    let data = reference(500_001);
    let len = data.len() as u64;
    let linked = lz4_frame(lz4_flex::frame::BlockMode::Linked, Some(len), &data);
    assert_eq!(found(&linked).unwrap().0, ImageFormat::Lz4);
    assert!(unlz4(&linked).unwrap() == data, "linked");
    // A skippable frame first, then two frames.
    let cut = 300_001;
    let mut multi = vec![0x5a, 0x2a, 0x4d, 0x18];
    multi.extend(10_000u32.to_le_bytes());
    multi.extend(noise(15, 10_000));
    multi.extend(lz4_frame(lz4_flex::frame::BlockMode::Independent, Some(cut as u64), &data[..cut]));
    multi.extend(lz4_frame(lz4_flex::frame::BlockMode::Linked, None, &data[cut..]));
    assert_eq!(found(&multi).unwrap().0, ImageFormat::Lz4);
    assert!(unlz4(&multi).unwrap() == data, "skippable + 2 frames");
    // The legacy format: blocks of 8 MiB.
    let mut legacy = vec![0x02, 0x21, 0x4c, 0x18];
    let packed = lz4_flex::block::compress(&data);
    legacy.extend((packed.len() as u32).to_le_bytes());
    legacy.extend(packed);
    assert!(unlz4(&legacy).unwrap() == data, "legacy");
    // Damage is an error.
    let mut bad = linked.clone();
    bad[linked.len() / 2] ^= 0x55;
    assert!(unlz4(&bad).is_err());
    assert!(unlz4(&linked[..linked.len() / 2]).is_err());
}

// lzma

#[test]
fn lzma_alone_streams() {
    let data = reference(200_000);
    let pack = |size: Option<u64>| {
        let o = lzma_rust2::LzmaOptions::with_preset(1);
        let mut z = lzma_rust2::LzmaWriter::new_use_header(Vec::new(), &o, size).unwrap();
        z.write_all(&data).unwrap();
        z.finish().unwrap()
    };
    let open = pack(None);
    assert_eq!(found(&open).map(|f| f.0), Some(ImageFormat::Lzma));
    let sized = pack(Some(data.len() as u64));
    assert_eq!(found(&sized).map(|f| f.0), Some(ImageFormat::Lzma));
    let h = lzma::header(&sized).unwrap();
    assert_eq!(h.size, Some(200_000));
    assert!(lzma::header(&open).unwrap().size.is_none());
    let start = lzma::trial(&sized[..14], &sized[13..]).unwrap();
    assert!(!start.is_empty() && data.starts_with(&start));
    assert!(lzma::plausible_dict(1 << 23) && !lzma::plausible_dict(12_345));
}

// tar

fn tar_header(name: &str, size: u64, kind: u8) -> Vec<u8> {
    let mut h = vec![0u8; 512];
    h[..name.len()].copy_from_slice(name.as_bytes());
    h[100..108].copy_from_slice(b"0000644\0");
    h[124..136].copy_from_slice(format!("{size:011o}\0").as_bytes());
    h[136..148].copy_from_slice(b"00000000000\0");
    h[156] = kind;
    h[257..265].copy_from_slice(b"ustar\x0000");
    h[148..156].fill(b' ');
    let sum: u32 = h.iter().map(|&b| b as u32).sum();
    h[148..156].copy_from_slice(format!("{sum:06o}\0 ").as_bytes());
    h
}

fn tar_entry(name: &str, data: &[u8], kind: u8) -> Vec<u8> {
    let mut out = tar_header(name, data.len() as u64, kind);
    out.extend(data);
    out.resize(out.len().div_ceil(512) * 512, 0);
    out
}

fn untarred(file: &[u8]) -> Result<Vec<u8>, String> {
    let mut e = match tar::first_file(file, true) {
        Ok(e) => e,
        Err(tar::Halt::Failed(e)) => return Err(e.what),
        Err(tar::Halt::More) => panic!("all of it is there"),
    };
    let (mut at, mut out) = (e.at as usize, Vec::new());
    loop {
        let (v, used) = e.contents.read(999, &file[at..]).map_err(|e| e.what)?;
        if v.is_empty() {
            assert_eq!(out.len() as u64, e.contents.len());
            return Ok(out);
        }
        at += used;
        out.extend(v);
    }
}

#[test]
fn tar_archives_hold_files() {
    let data = reference(10_000);
    let mut plain = tar_entry("folder/", b"", b'5');
    plain.extend(tar_entry("pax", b"14 size=10000\n", b'x'));
    plain.extend(tar_entry("disk.img", &data, b'0'));
    plain.extend([0; 1024]);
    assert_eq!(found(&plain), Some((ImageFormat::Tar, Some(10_000))));
    assert!(untarred(&plain).unwrap() == data);
    assert!(untarred(&plain[..5000]).is_err());
    assert!(matches!(tar::first_file(&plain[..600], false), Err(tar::Halt::More)));
    // Inside a stream, and not.
    assert!(untar(&plain, true).ok().unwrap().is_some());
    assert!(untar(&data, true).ok().unwrap().is_none());
    assert_eq!(inside(ImageFormat::Bzip2, Some(&plain), None).raw_size, Some(10_000));

    // Sparse: 4096 bytes stored at 8192, in a file of 20000 bytes.
    let record = |text: &str| format!("{} {text}\n", text.len() + 4);
    let records = record("GNU.sparse.size=20000") + &record("GNU.sparse.map=8192,4096");
    let mut sparse = tar_entry("pax", records.as_bytes(), b'x');
    sparse.extend(tar_entry("disk.img", &data[..4096], b'0'));
    let mut want = vec![0u8; 20_000];
    want[8192..12_288].copy_from_slice(&data[..4096]);
    assert!(untarred(&sparse).unwrap() == want, "sparse");
    assert!(tar::is_header(&plain[..512]) && !tar::is_header(&data[..512]));
}

// DMG

const DMG_ZERO: u32 = 0;
const DMG_RAW: u32 = 1;
const DMG_IGNORE: u32 = 2;
const DMG_ADC: u32 = 0x8000_0004;
const DMG_ZLIB: u32 = 0x8000_0005;
const DMG_BZIP2: u32 = 0x8000_0006;
const DMG_LZFSE: u32 = 0x8000_0007;
const DMG_LZMA: u32 = 0x8000_0008;
const DMG_COMMENT: u32 = 0x7fff_fffe;
const DMG_END: u32 = 0xffff_ffff;

/// Writes `disk` (padded to whole sectors) as a UDIF image, with partitions of these sizes (the
/// last one takes the rest) and chunks of these kinds in turn.
fn udif(disk: &[u8], kinds: &[u32], resource_fork: bool, wrong_crc: bool) -> Vec<u8> {
    let sectors = disk.len().div_ceil(512);
    let mut padded = disk.to_vec();
    padded.resize(sectors * 512, 0);
    let mut fork = Vec::new();
    let mut blocks = Vec::new();
    let (mut first, mut kind_at) = (0usize, 0usize);
    for (p, want) in [1usize, 33, 500, usize::MAX].into_iter().enumerate() {
        if first >= sectors {
            break;
        }
        let count = want.min(sectors - first);
        let data_offset = if p % 2 == 1 { fork.len() as u64 } else { 0 };
        let mut chunks = vec![(DMG_COMMENT, 0u64, 0u64, 0u64, 0u64)];
        let mut crc = flate2::Crc::new();
        let mut s = 0;
        while s < count {
            let n = 256.min(count - s);
            let data = &padded[(first + s) * 512..(first + s + n) * 512];
            let zeros = data.iter().all(|&b| b == 0);
            let mut kind = kinds[kind_at % kinds.len()];
            kind_at += 1;
            if zeros && kind_at % 3 == 0 {
                kind = if kind_at % 2 == 0 { DMG_ZERO } else { DMG_IGNORE };
            }
            if !zeros && (kind == DMG_ZERO || kind == DMG_IGNORE) {
                kind = DMG_ZLIB;
            }
            if kind != DMG_IGNORE {
                crc.update(data);
            }
            let packed = match kind {
                DMG_ZERO | DMG_IGNORE => Vec::new(),
                DMG_RAW => data.to_vec(),
                DMG_ZLIB => zlib(data),
                DMG_BZIP2 => bzip(data),
                DMG_LZFSE => {
                    let mut out = Vec::new();
                    lzfse_rust::encode_bytes(data, &mut out).unwrap();
                    out
                }
                DMG_LZMA => xz(data),
                DMG_ADC => {
                    let mut out = Vec::new();
                    for c in data.chunks(128) {
                        out.push(0x80 | (c.len() - 1) as u8);
                        out.extend(c);
                    }
                    out
                }
                other => panic!("kind {other:#x}"),
            };
            let at = fork.len() as u64 - data_offset;
            chunks.push((kind, s as u64, n as u64, if packed.is_empty() { 0 } else { at }, packed.len() as u64));
            fork.extend(&packed);
            s += n;
        }
        chunks.push((DMG_END, count as u64, 0, fork.len() as u64 - data_offset, 0));
        let mut mish = Vec::new();
        mish.extend(b"mish");
        mish.extend(1u32.to_be_bytes());
        mish.extend((first as u64).to_be_bytes());
        mish.extend((count as u64).to_be_bytes());
        mish.extend(data_offset.to_be_bytes());
        mish.extend(0x208u32.to_be_bytes());
        mish.extend((p as i32 - 1).to_be_bytes());
        mish.extend([0u8; 24]);
        mish.extend(2u32.to_be_bytes());
        mish.extend(32u32.to_be_bytes());
        mish.extend((crc.sum() ^ u32::from(wrong_crc && p == 2)).to_be_bytes());
        mish.extend([0u8; 124]);
        mish.extend((chunks.len() as u32).to_be_bytes());
        for (kind, sector, n, offset, len) in chunks {
            mish.extend(kind.to_be_bytes());
            mish.extend(if kind == DMG_COMMENT { *b"+beg" } else { [0; 4] });
            mish.extend(sector.to_be_bytes());
            mish.extend(n.to_be_bytes());
            mish.extend(offset.to_be_bytes());
            mish.extend(len.to_be_bytes());
        }
        blocks.push((format!("partition {p}"), mish));
        first += count;
    }
    let mut file = fork.clone();
    let table = if resource_fork { rsrc(&blocks) } else { toc(&blocks).into_bytes() };
    let at = file.len() as u64;
    file.extend(&table);
    let mut koly = vec![0u8; 512];
    koly[..4].copy_from_slice(b"koly");
    koly[4..8].copy_from_slice(&4u32.to_be_bytes());
    koly[8..12].copy_from_slice(&512u32.to_be_bytes());
    koly[12..16].copy_from_slice(&1u32.to_be_bytes());
    koly[32..40].copy_from_slice(&(fork.len() as u64).to_be_bytes());
    koly[56..60].copy_from_slice(&1u32.to_be_bytes());
    koly[60..64].copy_from_slice(&1u32.to_be_bytes());
    let place = if resource_fork { 40 } else { 216 };
    koly[place..place + 8].copy_from_slice(&at.to_be_bytes());
    koly[place + 8..place + 16].copy_from_slice(&(table.len() as u64).to_be_bytes());
    koly[488..492].copy_from_slice(&1u32.to_be_bytes());
    koly[492..500].copy_from_slice(&(sectors as u64).to_be_bytes());
    file.extend(koly);
    file
}

fn toc(blocks: &[(String, Vec<u8>)]) -> String {
    let mut x = String::from("<?xml version=\"1.0\" encoding=\"UTF-8\"?>\n<plist version=\"1.0\">\n<dict><key>resource-fork</key><dict><key>blkx</key><array>\n");
    for (name, mish) in blocks {
        x.push_str(&format!("<dict><key>CFName</key><string>{name}</string><key>Data</key><data>\n"));
        for line in base64(mish).as_bytes().chunks(52) {
            x.push_str(&format!("\t\t{}\n", std::str::from_utf8(line).unwrap()));
        }
        x.push_str("</data></dict>\n");
    }
    x.push_str("</array></dict></dict>\n</plist>\n");
    x
}

fn base64(data: &[u8]) -> String {
    const ABC: &[u8; 64] = b"ABCDEFGHIJKLMNOPQRSTUVWXYZabcdefghijklmnopqrstuvwxyz0123456789+/";
    let mut out = String::new();
    for c in data.chunks(3) {
        let n = c.iter().enumerate().fold(0u32, |n, (i, &b)| n | (b as u32) << (16 - 8 * i));
        for i in 0..4 {
            out.push(if i <= c.len() { ABC[(n >> (18 - 6 * i) & 63) as usize] as char } else { '=' });
        }
    }
    out
}

/// A classic resource fork holding the blkx resources.
fn rsrc(blocks: &[(String, Vec<u8>)]) -> Vec<u8> {
    let (mut data, mut offsets) = (Vec::new(), Vec::new());
    for (_, mish) in blocks {
        offsets.push(data.len() as u32);
        data.extend((mish.len() as u32).to_be_bytes());
        data.extend(mish);
    }
    let mut map = vec![0u8; 0x1c];
    map.extend(0u16.to_be_bytes());
    map.extend(*b"blkx");
    map.extend(((blocks.len() - 1) as u16).to_be_bytes());
    map.extend(10u16.to_be_bytes());
    for (i, off) in offsets.iter().enumerate() {
        map.extend(((i as i16) - 1).to_be_bytes());
        map.extend(0xffffu16.to_be_bytes());
        map.extend((0x5000_0000u32 | off).to_be_bytes());
        map.extend(0u32.to_be_bytes());
    }
    let names_offset = map.len() as u16;
    map[0x18..0x1a].copy_from_slice(&0x1cu16.to_be_bytes());
    map[0x1a..0x1c].copy_from_slice(&names_offset.to_be_bytes());
    let mut header = [0u8; 16];
    header[..4].copy_from_slice(&0x100u32.to_be_bytes());
    header[4..8].copy_from_slice(&(0x100 + data.len() as u32).to_be_bytes());
    header[8..12].copy_from_slice(&(data.len() as u32).to_be_bytes());
    header[12..16].copy_from_slice(&(map.len() as u32).to_be_bytes());
    map[..16].copy_from_slice(&header);
    let mut fork = vec![0u8; 0x100];
    fork[..16].copy_from_slice(&header);
    fork.extend(data);
    fork.extend(map);
    fork
}

fn read_dmg(file: &[u8]) -> Result<Vec<u8>, String> {
    let have = Loaded::whole(file.to_vec());
    let mut disk = match dmg::open(file.len() as u64, &have) {
        Ok(d) => d,
        Err(Stop::Failed(e)) => return Err(e.what),
        Err(Stop::Need { .. }) => panic!("a whole file lacks nothing"),
    };
    let mut out = Vec::new();
    loop {
        match disk.read(&have, 100_000) {
            Ok(v) if v.is_empty() => return Ok(out),
            Ok(v) => out.extend(v),
            Err(Stop::Failed(e)) => return Err(e.what),
            Err(Stop::Need { .. }) => panic!("a whole file lacks nothing"),
        }
    }
}

#[test]
fn dmg_chunks() {
    let disk = reference(2 * MIB + 300);
    let mut want = disk.clone();
    want.resize(disk.len().div_ceil(512) * 512, 0);
    let kinds = [DMG_ZLIB, DMG_RAW, DMG_BZIP2, DMG_LZFSE, DMG_ADC, DMG_ZERO, DMG_IGNORE, DMG_LZMA];
    for resource_fork in [false, true] {
        let file = udif(&disk, &kinds, resource_fork, false);
        assert_eq!(found(&file), Some((ImageFormat::Dmg, Some(want.len() as u64))));
        assert!(read_dmg(&file).unwrap() == want, "every kind of chunk");
    }
}

#[test]
fn pieces_in_order_with_parallel_blocks() {
    // The file: 1000 stored bytes, then 300 zlib blocks of 10000 bytes each.
    let stored: Vec<u8> = (0..1000u32).map(|i| (i * 13) as u8).collect();
    let mut file = stored.clone();
    let mut pieces = vec![Piece::zeros(7), Piece::stored(0, 1000)];
    let mut want = vec![0u8; 7];
    want.extend(&stored);
    for b in 0..300u32 {
        let block: Vec<u8> = (0..10_000u32).map(|i| ((i / 7) ^ b) as u8).collect();
        let packed = zlib(&block);
        pieces.push(Piece {
            len: if b == 299 { 5000 } else { 10_000 },
            run: Run::Packed(Packed {
                offset: file.len() as u64,
                len: packed.len() as u32,
                codec: Codec::Zlib,
                size: 10_000,
                short_ok: false,
            }),
        });
        want.extend(&block[..if b == 299 { 5000 } else { 10_000 }]);
        file.extend(packed);
        if b % 50 == 0 {
            pieces.push(Piece::zeros(3));
            want.extend([0; 3]);
        }
    }
    // The disk is a bit longer than the pieces: zeros at the end.
    let size = want.len() as u64 + 100;
    want.extend([0; 100]);
    let have = Loaded::whole(file.clone());
    for room in [777usize, 1, 65_536] {
        let src = Source::new(file.len() as u64);
        let mut disk = VDisk::new(src, size, List::new(pieces.clone()));
        let mut got: Vec<u8> = Vec::new();
        loop {
            let v = disk.read(&have, if room == 1 { 1 + got.len() % 5000 } else { room }).ok().unwrap();
            if v.is_empty() {
                break;
            }
            got.extend(v);
        }
        assert!(got == want, "the disk doesn't read back right");
    }
    // A disk that is shorter than its pieces ends where it ends.
    let src = Source::new(file.len() as u64);
    let mut disk = VDisk::new(src, 1_234_567, List::new(pieces));
    assert!(read_all(&mut disk, &file).unwrap() == want[..1_234_567]);
}

#[test]
fn disks_read_the_same_in_any_pieces() {
    let disk = reference(MIB + 300);
    let file = udif(&disk, &[DMG_ZLIB, DMG_RAW, DMG_ZERO, DMG_LZFSE], false, false);
    let whole = read_dmg(&file).unwrap();
    let have = Loaded::whole(file.clone());
    for sizes in [vec![1usize << 30], vec![4096], vec![100_000, 1, 777], vec![70_001, 513]] {
        let mut d = dmg::open(file.len() as u64, &have).ok().unwrap();
        let mut out = Vec::new();
        for n in sizes.iter().cycle() {
            let v = d.read(&have, *n).ok().unwrap();
            assert!(v.len() <= *n);
            if v.is_empty() {
                break;
            }
            out.extend(v);
        }
        assert!(out == whole, "in pieces of {sizes:?}");
    }
    // Nothing is made up for a chunk that doesn't decode: what comes before it, then an error.
    let mut bad = udif(&disk, &[DMG_RAW, DMG_ZLIB], false, false);
    bad[512] ^= 0xff;
    let have = Loaded::whole(bad.clone());
    let mut d = dmg::open(bad.len() as u64, &have).ok().unwrap();
    let mut out = Vec::new();
    let err = loop {
        match d.read(&have, 4096) {
            Ok(v) => out.extend(v),
            Err(Stop::Failed(e)) => break e.what,
            Err(Stop::Need { .. }) => panic!("a whole file lacks nothing"),
        }
        assert!(out.len() < whole.len(), "read to its end");
    };
    assert!(!err.is_empty() && out.len() <= 512 && whole.starts_with(&out));
}

#[test]
fn dmg_damage() {
    let disk = noise(6, MIB + 1000);
    let err = read_dmg(&udif(&disk, &[DMG_ZLIB], false, true)).unwrap_err();
    assert!(err.contains("checksum"), "{err}");
    let mut b = udif(&disk, &[DMG_ZLIB], false, false);
    b[500_000] ^= 0x40;
    assert!(read_dmg(&b).is_err());
    // Encrypted, sparse, segmented: refused with an explanation.
    let mut enc = b"encrcdsa".to_vec();
    enc.extend(noise(7, 100_000));
    assert_eq!(found(&enc).unwrap().0, ImageFormat::Dmg);
    assert!(read_dmg(&enc).unwrap_err().contains("encrypted"));
    let mut sparse = b"sprs".to_vec();
    sparse.extend(3u32.to_be_bytes());
    sparse.extend(noise(8, 100_000));
    assert!(read_dmg(&sparse).unwrap_err().contains("sparse"));
    let mut b = udif(&disk, &[DMG_ZLIB], false, false);
    let koly = b.len() - 512;
    b[koly + 60..koly + 64].copy_from_slice(&2u32.to_be_bytes());
    assert!(read_dmg(&b).unwrap_err().contains("segment"));
}

// VHD

fn vhd_footer(kind: u32, size: u64, data_offset: u64) -> Vec<u8> {
    let mut f = vec![0u8; 512];
    f[..8].copy_from_slice(b"conectix");
    f[8..12].copy_from_slice(&2u32.to_be_bytes());
    f[12..16].copy_from_slice(&0x1_0000u32.to_be_bytes());
    f[16..24].copy_from_slice(&data_offset.to_be_bytes());
    f[40..48].copy_from_slice(&size.to_be_bytes());
    f[48..56].copy_from_slice(&size.to_be_bytes());
    f[60..64].copy_from_slice(&kind.to_be_bytes());
    let sum: u32 = f.iter().map(|&b| b as u32).sum();
    f[64..68].copy_from_slice(&(!sum).to_be_bytes());
    f
}

#[test]
fn vhd_disks() {
    let disk = reference(3 * MIB);
    // Fixed: the disk, then a footer.
    let mut fixed = disk.clone();
    fixed.extend(vhd_footer(2, disk.len() as u64, u64::MAX));
    assert_eq!(found(&fixed), Some((ImageFormat::Vhd, Some(disk.len() as u64))));
    let have = Loaded::whole(fixed.clone());
    let mut d = vhd::open(fixed.len() as u64, &have).ok().unwrap();
    assert!(read_all(&mut d, &fixed).unwrap() == disk, "fixed");

    // Dynamic: blocks of 1 MiB, the second one missing, all sectors of the others marked.
    let footer = vhd_footer(3, disk.len() as u64, 512);
    let mut dynamic = footer.clone();
    let mut head = vec![0u8; 1024];
    head[..8].copy_from_slice(b"cxsparse");
    head[8..16].copy_from_slice(&u64::MAX.to_be_bytes());
    head[16..24].copy_from_slice(&1536u64.to_be_bytes());
    head[24..28].copy_from_slice(&0x1_0000u32.to_be_bytes());
    head[28..32].copy_from_slice(&3u32.to_be_bytes());
    head[32..36].copy_from_slice(&(MIB as u32).to_be_bytes());
    let sum: u32 = head.iter().map(|&b| b as u32).sum();
    head[36..40].copy_from_slice(&(!sum).to_be_bytes());
    dynamic.extend(&head);
    let mut bat = vec![0xffu8; 512];
    bat[..4].copy_from_slice(&4u32.to_be_bytes());
    bat[8..12].copy_from_slice(&(4u32 + 2049).to_be_bytes());
    dynamic.extend(bat);
    for block in [0, 2] {
        dynamic.extend([0xff; 512]);
        dynamic.extend(&disk[block * MIB..(block + 1) * MIB]);
    }
    dynamic.extend(&footer);
    let mut want = disk.clone();
    want[MIB..2 * MIB].fill(0);
    assert_eq!(found(&dynamic), Some((ImageFormat::Vhd, Some(disk.len() as u64))));
    let have = Loaded::whole(dynamic.clone());
    let mut d = vhd::open(dynamic.len() as u64, &have).ok().unwrap();
    assert!(read_all(&mut d, &dynamic).unwrap() == want, "dynamic");

    // Differencing: refused.
    let diff = vhd_footer(4, disk.len() as u64, 512);
    dynamic[..512].copy_from_slice(&diff);
    let end = dynamic.len() - 512;
    dynamic[end..].copy_from_slice(&diff);
    let have = Loaded::whole(dynamic.clone());
    assert!(failed(vhd::open(dynamic.len() as u64, &have)).contains("differencing"));
}

// QCOW2

#[test]
fn qcow2_disks() {
    let cluster = 65_536usize;
    let disk = reference(6 * cluster);
    // Clusters: header, L1, L2, then data. Disk cluster 0 stored, 1 missing, 2 zeros, 3
    // compressed, 4 and 5 stored.
    let mut file = vec![0u8; 3 * cluster];
    file[..4].copy_from_slice(b"QFI\xfb");
    file[4..8].copy_from_slice(&3u32.to_be_bytes());
    file[20..24].copy_from_slice(&16u32.to_be_bytes());
    file[24..32].copy_from_slice(&(disk.len() as u64).to_be_bytes());
    file[36..40].copy_from_slice(&1u32.to_be_bytes());
    file[40..48].copy_from_slice(&(cluster as u64).to_be_bytes());
    file[96..100].copy_from_slice(&4u32.to_be_bytes());
    file[100..104].copy_from_slice(&104u32.to_be_bytes());
    file[cluster..cluster + 8].copy_from_slice(&((2 * cluster) as u64 | 1 << 63).to_be_bytes());
    let mut l2 = [0u64; 6];
    for i in [0usize, 4, 5] {
        l2[i] = file.len() as u64 | 1 << 63;
        file.extend(&disk[i * cluster..(i + 1) * cluster]);
    }
    l2[2] = 1;
    let mut deflated = flate2::write::DeflateEncoder::new(Vec::new(), flate2::Compression::fast());
    deflated.write_all(&disk[3 * cluster..4 * cluster]).unwrap();
    let packed = deflated.finish().unwrap();
    let at = file.len() as u64;
    let sectors = ((at % 512 + packed.len() as u64).div_ceil(512) - 1).max(0);
    l2[3] = 1 << 62 | sectors << 54 | at;
    file.extend(&packed);
    file.resize(file.len().div_ceil(512) * 512, 0);
    for (i, e) in l2.iter().enumerate() {
        let p = 2 * cluster + i * 8;
        file[p..p + 8].copy_from_slice(&e.to_be_bytes());
    }
    let mut want = disk.clone();
    want[cluster..3 * cluster].fill(0);
    assert_eq!(found(&file), Some((ImageFormat::Qcow2, Some(disk.len() as u64))));
    let have = Loaded::whole(file.clone());
    let mut d = qcow2::open(file.len() as u64, &have).ok().unwrap();
    assert!(read_all(&mut d, &file).unwrap() == want, "clusters");

    // Encrypted, and with a backing file: refused.
    let mut enc = file.clone();
    enc[32..36].copy_from_slice(&2u32.to_be_bytes());
    let have = Loaded::whole(enc.clone());
    assert!(failed(qcow2::open(enc.len() as u64, &have)).contains("encrypted"));
    let mut overlay = file.clone();
    overlay[8..16].copy_from_slice(&200u64.to_be_bytes());
    overlay[16..20].copy_from_slice(&4u32.to_be_bytes());
    overlay[200..204].copy_from_slice(b"base");
    let have = Loaded::whole(overlay.clone());
    let err = failed(qcow2::open(overlay.len() as u64, &have));
    assert!(err.contains("backing") || err.contains("overlay"), "{err}");
}

// VMDK

#[test]
fn vmdk_descriptors() {
    let text = "# Disk DescriptorFile\nversion=1\nCID=fffffffe\nparentCID=ffffffff\ncreateType=\"monolithicFlat\"\n\nRW 6144 FLAT \"flat-flat.vmdk\" 0\n";
    assert_eq!(found(text.as_bytes()), Some((ImageFormat::Vmdk, None)));
    let have = Loaded::whole(text.as_bytes().to_vec());
    let err = failed(vmdk::open(text.len() as u64, &have));
    assert!(err.contains("flat-flat.vmdk"), "{err}");
    let chars: Vec<char> = text.chars().collect();
    let kind: String = vmdk::value(&chars, "createType").unwrap().into_iter().collect();
    assert_eq!(kind, "monolithicFlat");
    assert_eq!(vmdk::extents(&chars).len(), 1);
}

// VHDX

#[test]
fn vhdx_checksums() {
    let mut b = noise(4, 4096);
    b[4..8].fill(0);
    let crc = crc32c(0, &b);
    b[4..8].copy_from_slice(&crc.to_le_bytes());
    assert!(vhdx::checksum_ok(&b, 4));
    b[100] ^= 1;
    assert!(!vhdx::checksum_ok(&b, 4));
    // One that is cut short is refused.
    let mut file = b"vhdxfile".to_vec();
    file.resize(2 * MIB, 0);
    let have = Loaded::whole(file.clone());
    assert!(!failed(vhdx::open(file.len() as u64, &have)).is_empty());
}

// 7z

#[test]
fn sevenz_listings() {
    let member = |size, directory, block| sevenz::Member {
        has_stream: size > 0,
        is_directory: directory,
        is_anti_item: false,
        size,
        block,
    };
    let lzma2 = || vec![sevenz::Coder { id: vec![0x21], properties: vec![24] }];
    let listing = sevenz::Listing {
        files: vec![member(0, true, None), member(0, false, None), member(500, false, Some(0))],
        blocks: vec![lzma2()],
    };
    let first = sevenz::first_file(&listing).unwrap();
    assert_eq!((first.block, first.size), (0, 500));
    assert!(sevenz::finished(&first, 500).is_ok() && sevenz::finished(&first, 499).is_err());
    let empty = sevenz::Listing { files: vec![member(0, true, None)], blocks: vec![] };
    assert!(sevenz::first_file(&empty).is_err());
    assert!(sevenz::error(&sevenz::Complaint::Password, "x").what.contains("password"));
}

#[test]
fn no_false_claims() {
    let mut cases: Vec<(&str, Vec<u8>)> = vec![
        ("reference", reference(MIB)),
        ("zeros", vec![0u8; MIB]),
        ("tiny", vec![0x5d]),
        ("empty", vec![]),
    ];
    // Starts like an .lzma file: valid properties, dictionary and size, a zero byte.
    let mut lzma_like = vec![0x5d, 0, 0, 0x80, 0, 0xff, 0xff, 0xff, 0xff, 0xff, 0xff, 0xff, 0xff, 0];
    lzma_like.extend(noise(11, 2 * MIB));
    cases.push(("lzma-like", lzma_like));
    let mut lzma_like_sized = vec![0x5d, 0, 0, 0x10, 0, 0, 0, 0x10, 0, 0, 0, 0, 0, 0];
    lzma_like_sized.extend(noise(14, 100_000));
    cases.push(("lzma-like, sized", lzma_like_sized));
    let mut zero_dict = vec![0x5d, 0, 0, 0, 0, 0, 0, 0x10, 0, 0, 0, 0, 0, 0];
    zero_dict.extend(vec![0u8; 100_000]);
    cases.push(("lzma-like, no dictionary", zero_dict));
    // Names of formats inside, but not where they count.
    let mut inside = vec![0u8; MIB];
    inside[4096..4104].copy_from_slice(b"conectix");
    inside[8192..8196].copy_from_slice(b"koly");
    inside[100..108].copy_from_slice(b"vhdxfile");
    cases.push(("magic words inside", inside));
    cases.push(("zstd", zstd::bulk::compress(&reference(MIB), 1).unwrap()));
    cases.push(("xz", xz(&reference(MIB))));
    for (name, data) in &cases {
        assert!(found(data).is_none(), "{name}: claimed");
    }
}
