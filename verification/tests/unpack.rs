//! Whole images, unpacked.

use dd_gui::engine::formats::{decoded_start, decoder, inside_7z, lzma, sevenz};
use dd_gui::engine::restore::Way;
use dd_gui::engine::unpack::{unpack, unzip, unzstd, zip_uncompressed};
use dd_gui::engine::ImageFormat;
use dd_gui::error::Kind;
use std::io::{Cursor, Write};

/// Reproducible data that doesn't compress well.
fn noise(seed: u64, len: usize) -> Vec<u8> {
    let mut x = seed.wrapping_mul(0x9e37_79b9_7f4a_7c15) | 1;
    let mut out = Vec::new();
    while out.len() < len {
        x ^= x << 13;
        x ^= x >> 7;
        x ^= x << 17;
        out.push((x >> 32) as u8);
    }
    out
}

fn gzip(data: &[u8]) -> Vec<u8> {
    let mut z = flate2::write::GzEncoder::new(Vec::new(), flate2::Compression::fast());
    z.write_all(data).unwrap();
    z.finish().unwrap()
}

fn xz(data: &[u8], block: Option<u64>) -> Vec<u8> {
    let mut options = lzma_rust2::XzOptions::with_preset(0);
    if let Some(size) = block {
        options.set_block_size(std::num::NonZeroU64::new(size));
    }
    let mut z = lzma_rust2::XzWriter::new(Vec::new(), options).unwrap();
    z.write_all(data).unwrap();
    z.finish().unwrap()
}

#[test]
fn raw_images_are_themselves() {
    let data = noise(1, 1000);
    assert_eq!(unpack(&data, Way::Raw, "a.img"), Some(Ok(data.clone())));
    assert_eq!(unpack(&data, Way::Smart, "a.img"), None);
    assert_eq!(unpack(&data, Way::Other, "a.img"), None);
}

#[test]
fn gzip_members() {
    let (a, b) = (noise(1, 100_000), vec![7; 50_000]);
    let mut file = gzip(&a);
    file.extend(gzip(&b));
    let whole = [a, b].concat();
    assert_eq!(unpack(&file, Way::Gzip, "a.gz"), Some(Ok(whole)));
    let mut broken = file.clone();
    broken[50_000] ^= 0xff;
    let e = unpack(&broken, Way::Gzip, "a.gz").unwrap().unwrap_err();
    assert!(e.starts_with("couldn't unpack a.gz: "), "{e}");
}

#[test]
fn xz_streams_and_blocks() {
    let data = noise(2, 3_000_000);
    let one = xz(&data, None);
    assert!(unpack(&one, Way::Xz(1), "a.xz") == Some(Ok(data.clone())));
    let two = [one.clone(), xz(&[9; 5000], None)].concat();
    assert!(unpack(&two, Way::Xz(1), "a.xz") == Some(Ok([&data[..], &[9; 5000]].concat())));
    let blocks = xz(&data, Some(1 << 20));
    assert!(unpack(&blocks, Way::Xz(4), "a.xz") == Some(Ok(data.clone())));
    let mut broken = blocks.clone();
    broken[500_000] ^= 0xff;
    let cut = &blocks[..blocks.len() - 100];
    for (file, way) in [(&broken[..], Way::Xz(1)), (cut, Way::Xz(1)), (cut, Way::Xz(4))] {
        let r = unpack(file, way, "a.xz").unwrap();
        assert!(r.is_err(), "{way:?}");
        let e = r.unwrap_err();
        assert!(e.starts_with("couldn't unpack a.xz: "), "{e}");
    }
}

#[test]
fn zstd_frames() {
    let (a, b) = (noise(3, 300_000), vec![1; 200_000]);
    let mut file = zstd::stream::encode_all(&a[..], 1).unwrap();
    // A frame to pass over.
    file.extend([0x50, 0x2a, 0x4d, 0x18, 3, 0, 0, 0, 1, 2, 3]);
    file.extend(zstd::stream::encode_all(&b[..], 1).unwrap());
    let whole = [a.clone(), b].concat();
    assert_eq!(unzstd(&file), Ok(whole.clone()));
    assert_eq!(unpack(&file, Way::Zstd, "a.zst"), Some(Ok(whole)));
    assert_eq!(unzstd(&[]), Ok(Vec::new()));
    // Its end is missing.
    assert_eq!(
        unzstd(&[0x50, 0x2a, 0x4d, 0x18, 4, 0, 0, 0, 1, 2, 3]),
        Err("unexpected end of file".to_owned())
    );
    assert!(unzstd(&file[..100]).is_err());
    assert!(unzstd(b"no frame at all").is_err());
    // A checksum that isn't the data's.
    let mut z = zstd::stream::Encoder::new(Vec::new(), 1).unwrap();
    z.include_checksum(true).unwrap();
    z.write_all(&a).unwrap();
    let mut checked = z.finish().unwrap();
    assert_eq!(unzstd(&checked), Ok(a));
    *checked.last_mut().unwrap() ^= 1;
    assert_eq!(unzstd(&checked), Err("zstd checksum mismatch".to_owned()));
    assert_eq!(
        unpack(&checked, Way::Zstd, "a.zst"),
        Some(Err("couldn't unpack a.zst: zstd checksum mismatch".to_owned()))
    );
}

#[test]
fn zip_gives_its_first_file() {
    let data = noise(4, 100_000);
    let options = zip::write::SimpleFileOptions::default();
    let mut z = zip::ZipWriter::new(Cursor::new(Vec::new()));
    z.add_directory("folder", options).unwrap();
    z.start_file("folder/disk.img", options).unwrap();
    z.write_all(&data).unwrap();
    z.start_file("other.img", options).unwrap();
    z.write_all(&[1; 10]).unwrap();
    let file = z.finish().unwrap().into_inner();
    assert_eq!(zip_uncompressed(&file), Some(100_000));
    assert_eq!(unzip(&file, "a.zip"), Ok(data.clone()));
    assert_eq!(unpack(&file, Way::Zip, "a.zip"), Some(Ok(data)));
    // Only a folder.
    let mut z = zip::ZipWriter::new(Cursor::new(Vec::new()));
    z.add_directory("folder", options).unwrap();
    let empty = z.finish().unwrap().into_inner();
    assert_eq!(unzip(&empty, "b.zip"), Err("b.zip holds no files".to_owned()));
    assert_eq!(zip_uncompressed(&empty), None);
    // Not one, and a damaged one.
    assert!(unzip(b"PK\x03\x04", "c.zip").unwrap_err().starts_with("couldn't unpack c.zip: "));
    assert_eq!(zip_uncompressed(b"PK\x03\x04"), None);
    let mut broken = file.clone();
    broken[50_000] ^= 0xff;
    assert!(unzip(&broken, "d.zip").unwrap_err().starts_with("couldn't unpack d.zip: "));
}

fn seven(methods: Vec<sevenz_rust2::EncoderConfiguration>, data: &[u8]) -> Vec<u8> {
    let mut w = sevenz_rust2::ArchiveWriter::new(Cursor::new(Vec::new())).unwrap();
    w.set_content_methods(methods);
    let entry = sevenz_rust2::ArchiveEntry::new_directory("a-folder");
    w.push_archive_entry(entry, None::<&[u8]>).unwrap();
    let entry = sevenz_rust2::ArchiveEntry::new_file("disk.img");
    w.push_archive_entry(entry, Some(data)).unwrap();
    w.finish().unwrap().into_inner()
}

#[test]
fn sevenz_files_come_out() {
    let data = noise(5, 100_000);
    let methods = [
        sevenz_rust2::EncoderMethod::LZMA2,
        sevenz_rust2::EncoderMethod::LZMA,
        sevenz_rust2::EncoderMethod::BZIP2,
        sevenz_rust2::EncoderMethod::DEFLATE,
        sevenz_rust2::EncoderMethod::PPMD,
        sevenz_rust2::EncoderMethod::COPY,
        sevenz_rust2::EncoderMethod::ZSTD,
        sevenz_rust2::EncoderMethod::LZ4,
    ];
    for method in methods {
        let file = seven(vec![method.into()], &data);
        let (size, head) = sevenz::peek(&file).unwrap();
        assert_eq!((size, &head[..]), (100_000, &data[..8192]), "{method:?}");
        assert!(sevenz::open(&file).unwrap() == data, "{method:?}");
        let d = inside_7z(&file);
        assert_eq!((d.format, d.raw_size), (ImageFormat::SevenZ, Some(100_000)));
    }
    // Damage in the data, in the header, and no end.
    let file = seven(vec![sevenz_rust2::EncoderMethod::COPY.into()], &data);
    let mut broken = file.clone();
    broken[5000] ^= 0xff;
    assert!(sevenz::open(&broken).unwrap_err().what.starts_with("the 7z archive is damaged ("));
    let mut broken = file.clone();
    *broken.last_mut().unwrap() ^= 0xff;
    let e = sevenz::open(&broken).unwrap_err();
    assert_eq!(e.what, "the 7z archive is damaged (checksum mismatch)");
    assert_eq!(inside_7z(&broken).raw_size, None);
    let e = sevenz::peek(&file[..1000]).unwrap_err();
    assert_eq!(e.kind, Kind::InvalidData);
    let e = sevenz::peek(&file[..10]).unwrap_err();
    assert_eq!((e.kind, &e.what[..]), (Kind::UnexpectedEof, "failed to fill whole buffer"));
    // Nothing in it.
    let mut w = sevenz_rust2::ArchiveWriter::new(Cursor::new(Vec::new())).unwrap();
    let entry = sevenz_rust2::ArchiveEntry::new_directory("a-folder");
    w.push_archive_entry(entry, None::<&[u8]>).unwrap();
    let empty = w.finish().unwrap().into_inner();
    assert_eq!(sevenz::open(&empty).unwrap_err().what, "the 7z archive holds no files");
}

#[test]
fn sevenz_passwords_are_refused() {
    let options = sevenz_rust2::encoder_options::AesEncoderOptions::new("SECRET".into());
    let methods = vec![options.into(), sevenz_rust2::EncoderMethod::LZMA2.into()];
    let file = seven(methods, &noise(9, 10_000));
    let e = sevenz::open(&file).unwrap_err();
    assert!(e.what.contains("password"), "{}", e.what);
    assert_eq!(e.kind, Kind::Unsupported);
}

#[test]
fn lzma_files_come_out() {
    let data = noise(6, 100_000);
    for size in [None, Some(data.len() as u64)] {
        let o = lzma_rust2::LzmaOptions::with_preset(1);
        let mut z = lzma_rust2::LzmaWriter::new_use_header(Vec::new(), &o, size).unwrap();
        z.write_all(&data).unwrap();
        let file = z.finish().unwrap();
        assert!(lzma::open(&file).unwrap() == data);
        assert!(lzma::open(&file[..1000]).is_err());
        // A dictionary of 2 GiB.
        let mut greedy = file.clone();
        greedy[1..5].copy_from_slice(&[0, 0, 0, 0x80]);
        assert_eq!(
            lzma::open(&greedy).unwrap_err().what,
            "this .lzma file needs a 2 GiB dictionary, more memory than DD-GUI allows"
        );
        assert_eq!(lzma::open(&file[..13]).unwrap_err().what, "the .lzma header is damaged");
    }
}

#[test]
fn streams_come_out() {
    let (a, b) = (noise(7, 150_000), vec![3; 200_000]);
    let bzip = |data: &[u8]| {
        let mut z = bzip2::write::BzEncoder::new(Vec::new(), bzip2::Compression::fast());
        z.write_all(data).unwrap();
        z.finish().unwrap()
    };
    // Two streams, and zeros after them.
    let mut file = bzip(&a);
    file.extend(bzip(&b));
    file.extend([0; 100]);
    let whole = [a.clone(), b.clone()].concat();
    assert!(decoder(&file, ImageFormat::Bzip2, 1 << 40).unwrap() == whole);
    assert!(decoded_start(&file, ImageFormat::Bzip2).unwrap() == a[..65536]);
    assert!(decoder(&file, ImageFormat::Bzip2, 0).unwrap().is_empty());
    let text = |r: Result<Vec<u8>, dd_gui::error::Error>| r.unwrap_err().what;
    let cut = &file[..1000];
    assert_eq!(text(decoder(cut, ImageFormat::Bzip2, 1 << 40)), "the bzip2 data is cut short");
    assert_eq!(decoded_start(cut, ImageFormat::Bzip2), None);
    let after = [&file[..], b"more"].concat();
    assert_eq!(
        text(decoder(&after, ImageFormat::Bzip2, 1 << 40)),
        "the bzip2 file has unexpected data after its end"
    );
    let mut broken = file.clone();
    broken[500] ^= 0xff;
    let e = text(decoder(&broken, ImageFormat::Bzip2, 1 << 40));
    assert!(e.starts_with("the bzip2 data is damaged ("), "{e}");
    // LZ4.
    let lz4 = |data: &[u8]| {
        let mut z = lz4_flex::frame::FrameEncoder::new(Vec::new());
        z.write_all(data).unwrap();
        z.finish().unwrap()
    };
    let file = [lz4(&a), lz4(&b)].concat();
    assert!(decoder(&file, ImageFormat::Lz4, 1 << 40).unwrap() == whole);
    assert!(decoded_start(&file, ImageFormat::Lz4).unwrap() == a[..65536]);
    assert_eq!(text(decoder(&file[..1000], ImageFormat::Lz4, 1 << 40)), "the LZ4 data is cut short");
    assert_eq!(text(decoder(&[], ImageFormat::Lz4, 1)), "the LZ4 file is empty");
    // Neither.
    assert_eq!(text(decoder(&file, ImageFormat::SevenZ, 1)), "SevenZ isn't a stream format");
    assert_eq!(decoded_start(&file, ImageFormat::Raw), None);
}
