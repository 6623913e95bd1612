//! VHDX and VMDK disks, made by hand.

use dd_gui::engine::formats::source::{crc32c, Loaded, Stop};
use dd_gui::engine::formats::vdisk::{Layout, VDisk};
use dd_gui::engine::formats::{detect, vhdx, vmdk, Finding};
use dd_gui::engine::ImageFormat;
use std::io::Write;

const MIB: usize = 1 << 20;

/// Reproducible data that doesn't compress well.
fn noise(seed: u64, len: usize) -> Vec<u8> {
    let mut x = seed.wrapping_mul(0x9e37_79b9_7f4a_7c15) | 1;
    let mut out = Vec::new();
    while out.len() < len {
        x ^= x << 13;
        x ^= x >> 7;
        x ^= x << 17;
        out.push((x >> 32) as u8);
    }
    out
}

fn found(file: &[u8]) -> (ImageFormat, Option<u64>) {
    let head = &file[..file.len().min(4096)];
    match detect(file.len() as u64, &Loaded::whole(file.to_vec()), head) {
        Ok(Finding::Is(d)) => (d.format, d.raw_size),
        _ => panic!("not found"),
    }
}

/// Reads a disk to its end.
fn read_all<L: Layout>(disk: &mut VDisk<L>, file: &[u8]) -> Result<Vec<u8>, String> {
    let have = Loaded::whole(file.to_vec());
    let mut out = Vec::new();
    loop {
        match disk.read(&have, 777_777) {
            Ok(v) if v.is_empty() => return Ok(out),
            Ok(v) => out.extend(v),
            Err(Stop::Failed(e)) => return Err(e.what),
            Err(Stop::Need { .. }) => panic!("a whole file lacks nothing"),
        }
    }
}

fn put(b: &mut [u8], at: usize, data: &[u8]) {
    b[at..at + data.len()].copy_from_slice(data);
}

/// Sets a VHDX structure's CRC-32C (at offset 4, over all of it).
fn seal(b: &mut [u8]) {
    b[4..8].fill(0);
    let crc = crc32c(0, b);
    b[4..8].copy_from_slice(&crc.to_le_bytes());
}

/// Where the log, the tables and the blocks are.
const LOG: usize = MIB;
const BAT: usize = 2 * MIB;
const META: usize = 3 * MIB;
const DATA: usize = 4 * MIB;

/// A VHDX with blocks of 1 MiB: block `i` of the disk is stored if `stored[i]`, else zeros.
fn vhdx_file(disk: &[u8], stored: &[bool], log_guid: [u8; 16]) -> Vec<u8> {
    let mut b = vec![0u8; DATA];
    put(&mut b, 0, b"vhdxfile");
    for (at, seq) in [(0x1_0000usize, 3u64), (0x2_0000, 4)] {
        let mut h = vec![0u8; 4096];
        put(&mut h, 0, b"head");
        put(&mut h, 8, &seq.to_le_bytes());
        put(&mut h, 48, &log_guid);
        put(&mut h, 66, &1u16.to_le_bytes());
        put(&mut h, 68, &(MIB as u32).to_le_bytes());
        put(&mut h, 72, &(LOG as u64).to_le_bytes());
        seal(&mut h);
        put(&mut b, at, &h);
    }
    let mut t = vec![0u8; 0x1_0000];
    put(&mut t, 0, b"regi");
    put(&mut t, 8, &2u32.to_le_bytes());
    for (i, (guid, at)) in [(vhdx::BAT_REGION, BAT), (vhdx::METADATA_REGION, META)].into_iter().enumerate() {
        put(&mut t, 16 + 32 * i, &guid);
        put(&mut t, 32 + 32 * i, &(at as u64).to_le_bytes());
        put(&mut t, 40 + 32 * i, &(MIB as u32).to_le_bytes());
        put(&mut t, 44 + 32 * i, &1u32.to_le_bytes());
    }
    seal(&mut t);
    put(&mut b, 0x3_0000, &t);
    put(&mut b, 0x4_0000, &t);
    put(&mut b, META, b"metadata");
    put(&mut b, META + 10, &3u16.to_le_bytes());
    let items: [([u8; 16], Vec<u8>); 3] = [
        (vhdx::FILE_PARAMETERS, [(MIB as u32).to_le_bytes(), [0; 4]].concat()),
        (vhdx::VIRTUAL_DISK_SIZE, (disk.len() as u64).to_le_bytes().to_vec()),
        (vhdx::LOGICAL_SECTOR_SIZE, 512u32.to_le_bytes().to_vec()),
    ];
    for (i, (guid, data)) in items.into_iter().enumerate() {
        let (entry, at) = (META + 32 + 32 * i, 0x1_0000 + 64 * i);
        put(&mut b, entry, &guid);
        put(&mut b, entry + 16, &(at as u32).to_le_bytes());
        put(&mut b, entry + 20, &(data.len() as u32).to_le_bytes());
        put(&mut b, entry + 24, &4u32.to_le_bytes());
        put(&mut b, META + at, &data);
    }
    for (i, &there) in stored.iter().enumerate() {
        let entry = if there { b.len() as u64 | 6 } else { 2 };
        put(&mut b, BAT + 8 * i, &entry.to_le_bytes());
        if there {
            let mut block = disk[i * MIB..disk.len().min((i + 1) * MIB)].to_vec();
            block.resize(MIB, 0);
            b.extend(block);
        }
    }
    b
}

/// A disk of three blocks and a bit, the second of them zeros.
fn disk_with_a_gap() -> Vec<u8> {
    let mut disk = noise(31, 3 * MIB + 512);
    disk[MIB..2 * MIB].fill(0);
    disk
}

#[test]
fn vhdx_blocks() {
    let disk = disk_with_a_gap();
    let file = vhdx_file(&disk, &[true, false, true, true], [0; 16]);
    assert_eq!(found(&file), (ImageFormat::Vhdx, Some(disk.len() as u64)));
    let have = Loaded::whole(file.clone());
    let mut d = vhdx::open(file.len() as u64, &have).ok().unwrap();
    assert!(read_all(&mut d, &file).unwrap() == disk);
    // The older header does when the newer one is damaged, and so does the copy of the table.
    let mut half = file.clone();
    half[0x2_0000 + 100] ^= 1;
    half[0x3_0000 + 100] ^= 1;
    assert_eq!(found(&half).1, Some(disk.len() as u64));
    half[0x1_0000 + 100] ^= 1;
    assert_eq!(found(&half).1, None);
    let refused = |f: &[u8]| match vhdx::open(f.len() as u64, &Loaded::whole(f.to_vec())) {
        Err(Stop::Failed(e)) => e.what,
        _ => panic!("opened"),
    };
    assert_eq!(refused(&half), "the VHDX is damaged (no valid header)");
    half[0x1_0000 + 100] ^= 1;
    half[0x4_0000 + 100] ^= 1;
    assert_eq!(refused(&half), "the VHDX is damaged (no valid region table)");
    // A parent.
    let mut child = file.clone();
    child[META + 0x1_0000 + 4] |= 2;
    assert!(refused(&child).contains("differencing"));
}

/// A log entry at the start of the log: a new page at `page_at`, zeros from `zeros_at` on.
fn log_entry(guid: &[u8; 16], size: u64, seq: u64, page: &[u8], page_at: u64, zeros_at: u64, zeros: u64) -> Vec<u8> {
    let mut e = vec![0u8; 8192];
    put(&mut e, 0, b"loge");
    put(&mut e, 8, &8192u32.to_le_bytes());
    put(&mut e, 16, &seq.to_le_bytes());
    put(&mut e, 24, &2u32.to_le_bytes());
    put(&mut e, 32, guid);
    put(&mut e, 48, &size.to_le_bytes());
    put(&mut e, 56, &size.to_le_bytes());
    // A data descriptor: the first 8 and the last 4 bytes of the page are in it.
    put(&mut e, 64, b"desc");
    put(&mut e, 68, &page[4092..]);
    put(&mut e, 72, &page[..8]);
    put(&mut e, 80, &page_at.to_le_bytes());
    put(&mut e, 88, &seq.to_le_bytes());
    put(&mut e, 96, b"zero");
    put(&mut e, 104, &zeros.to_le_bytes());
    put(&mut e, 112, &zeros_at.to_le_bytes());
    put(&mut e, 120, &seq.to_le_bytes());
    put(&mut e, 4096, b"data");
    put(&mut e, 4100, &((seq >> 32) as u32).to_le_bytes());
    put(&mut e, 4104, &page[8..4092]);
    put(&mut e, 8188, &(seq as u32).to_le_bytes());
    seal(&mut e);
    e
}

/// A VHDX that wasn't closed cleanly: its log holds changes the file doesn't have yet. They show
/// up.
#[test]
fn vhdx_logs_are_replayed() {
    let disk = disk_with_a_gap();
    let guid = [7u8; 16];
    let mut file = vhdx_file(&disk, &[true, false, true, true], guid);
    let page = noise(77, 4096);
    let size = file.len() as u64;
    let entry = log_entry(&guid, size, 5, &page, (DATA + 8192) as u64, (DATA + 65_536) as u64, 12_288);
    put(&mut file, LOG, &entry);
    let mut want = disk.clone();
    want[8192..12_288].copy_from_slice(&page);
    want[65_536..65_536 + 12_288].fill(0);
    // The size isn't vouched for until the log has been replayed.
    assert_eq!(found(&file), (ImageFormat::Vhdx, None));
    let have = Loaded::whole(file.clone());
    let mut d = vhdx::open(size, &have).ok().unwrap();
    assert!(read_all(&mut d, &file).unwrap() == want);
    // The file itself stays as it is.
    assert!(file[DATA..DATA + MIB] == disk[..MIB]);
    // Without a complete entry nothing was logged: the file is as it was.
    file[LOG + 5000] ^= 1;
    let have = Loaded::whole(file.clone());
    let mut d = vhdx::open(size, &have).ok().unwrap();
    assert!(read_all(&mut d, &file).unwrap() == disk);
    // A file that lacks what the log counts on was cut short.
    let entry = log_entry(&guid, size + 4096, 5, &page, (DATA + 8192) as u64, (DATA + 65_536) as u64, 12_288);
    put(&mut file, LOG, &entry);
    let have = Loaded::whole(file.clone());
    assert!(matches!(vhdx::open(size, &have), Err(Stop::Failed(_))));
}

const GRAIN: usize = 65_536;

fn vmdk_header(capacity: u64, gd: u64, desc: (u64, u64), flags: u32, compress: u16) -> Vec<u8> {
    let mut h = vec![0u8; 512];
    put(&mut h, 0, b"KDMV");
    put(&mut h, 4, &1u32.to_le_bytes());
    put(&mut h, 8, &flags.to_le_bytes());
    put(&mut h, 12, &capacity.to_le_bytes());
    put(&mut h, 20, &(GRAIN as u64 / 512).to_le_bytes());
    put(&mut h, 28, &desc.0.to_le_bytes());
    put(&mut h, 36, &desc.1.to_le_bytes());
    put(&mut h, 44, &512u32.to_le_bytes());
    put(&mut h, 56, &gd.to_le_bytes());
    put(&mut h, 77, &compress.to_le_bytes());
    h
}

fn descriptor(kind: &str, more: &str) -> Vec<u8> {
    let mut text = format!(
        "# Disk DescriptorFile\nversion=1\nCID=fffffffe\nparentCID=ffffffff\ncreateType=\"{kind}\"\n{more}\n"
    )
    .into_bytes();
    text.resize(1024, 0);
    text
}

/// A VMDK with its directory after the descriptor: grain `i` is stored if it isn't all zeros.
fn sparse_vmdk(disk: &[u8], text: &[u8]) -> Vec<u8> {
    let mut b = vmdk_header(disk.len() as u64 / 512, 3, (1, 2), 3, 0);
    b.extend(text);
    // The directory, then a table of 512 entries.
    let mut tables = vec![0u8; 512 + 2048];
    put(&mut tables, 0, &4u32.to_le_bytes());
    let first = b.len() + tables.len();
    let mut grains: Vec<u8> = Vec::new();
    for (i, grain) in disk.chunks(GRAIN).enumerate() {
        if grain.iter().any(|&x| x != 0) {
            let at = ((first + grains.len()) / 512) as u32;
            put(&mut tables, 512 + 4 * i, &at.to_le_bytes());
            grains.extend(grain);
        }
    }
    b.extend(tables);
    b.extend(grains);
    b
}

/// A VMDK whose grains are deflated, each behind a marker, with the directory at the end.
fn stream_vmdk(disk: &[u8]) -> Vec<u8> {
    let capacity = disk.len() as u64 / 512;
    let mut b = vmdk_header(capacity, u64::MAX, (1, 2), 0x3_0003, 1);
    b.extend(descriptor("streamOptimized", ""));
    let mut table = vec![0u8; 2048];
    for (i, grain) in disk.chunks(GRAIN).enumerate() {
        if grain.iter().all(|&x| x == 0) {
            continue;
        }
        let mut z = flate2::write::ZlibEncoder::new(Vec::new(), flate2::Compression::fast());
        z.write_all(grain).unwrap();
        let packed = z.finish().unwrap();
        put(&mut table, 4 * i, &((b.len() / 512) as u32).to_le_bytes());
        b.extend(((i * GRAIN / 512) as u64).to_le_bytes());
        b.extend((packed.len() as u32).to_le_bytes());
        b.extend(packed);
        b.resize(b.len().next_multiple_of(512), 0);
    }
    let gt = (b.len() / 512) as u32;
    b.extend(table);
    let gd = (b.len() / 512) as u64;
    let mut directory = vec![0u8; 512];
    put(&mut directory, 0, &gt.to_le_bytes());
    b.extend(directory);
    let mut footer = vec![0u8; 512];
    put(&mut footer, 12, &3u32.to_le_bytes());
    b.extend(footer);
    b.extend(vmdk_header(capacity, gd, (1, 2), 0x3_0003, 1));
    b.extend(vec![0u8; 512]);
    b
}

#[test]
fn vmdk_disks() {
    let disk = disk_with_a_gap();
    for file in [sparse_vmdk(&disk, &descriptor("monolithicSparse", "")), stream_vmdk(&disk)] {
        assert_eq!(found(&file), (ImageFormat::Vmdk, Some(disk.len() as u64)));
        let have = Loaded::whole(file.clone());
        let mut d = vmdk::open(file.len() as u64, &have).ok().unwrap();
        assert!(read_all(&mut d, &file).unwrap() == disk);
    }
    let refused = |f: &[u8]| match vmdk::open(f.len() as u64, &Loaded::whole(f.to_vec())) {
        Err(Stop::Failed(e)) => e.what,
        _ => panic!("opened"),
    };
    // A stream without its end.
    let stream = stream_vmdk(&disk);
    let cut = &stream[..stream.len() - 512];
    assert_eq!(refused(cut), "the VMDK is damaged or incomplete (its footer is missing)");
    // Part of a split disk, and a snapshot.
    assert!(refused(&sparse_vmdk(&disk, &[0; 1024])).contains("split"));
    let mut snapshot = descriptor("monolithicSparse", "parentFileNameHint=\"base.vmdk\"");
    let at = snapshot.windows(8).position(|w| w == b"ffffffff").unwrap();
    put(&mut snapshot, at, b"12345678");
    let e = refused(&sparse_vmdk(&disk, &snapshot));
    assert!(e.contains("snapshot") && e.contains("(base.vmdk)"), "{e}");
    let flat = descriptor("monolithicFlat", "");
    assert!(refused(&sparse_vmdk(&disk, &flat)).contains("(monolithicFlat)"));
    // A damaged grain.
    let mut broken = stream.clone();
    broken[4000] ^= 0xff;
    let have = Loaded::whole(broken.clone());
    let mut d = vmdk::open(broken.len() as u64, &have).ok().unwrap();
    assert!(read_all(&mut d, &broken).is_err());
}
