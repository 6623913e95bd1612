//! Compressed images, unpacked whole in memory: gzip, xz, zstd and zip. (A zip gives the first
//! file in it.)

use vstd::prelude::*;
use vstd::string::*;
use ruzstd::decoding::errors::{FrameDecoderError, ReadFrameHeaderError};
use ruzstd::decoding::{BlockDecodingStrategy, FrameDecoder};
use crate::engine::formats::source::bytes_at;
use crate::engine::restore::{first_entry, zstd_frame_end, Way};
use crate::engine::{plain_words, why};

verus! {

// The decoders that other crates bring.

/// What `flate2::bufread::MultiGzDecoder` makes of a gzip file, or what it says of it.
pub uninterp spec fn gunzipped(file: Seq<u8>) -> Result<Seq<u8>, Seq<char>>;

/// `flate2::bufread::MultiGzDecoder`, read to its end: what all members of a gzip file hold, or
/// the text of the error.
#[verifier::external_body]
fn gunzip(file: &[u8]) -> (r: Result<Vec<u8>, String>)
    ensures
        match r {
            Ok(v) => gunzipped(file@) == Ok::<Seq<u8>, Seq<char>>(v@),
            Err(e) => gunzipped(file@) == Err::<Seq<u8>, Seq<char>>(e@),
        },
{
    let mut out = Vec::new();
    let mut decoder = flate2::bufread::MultiGzDecoder::new(file);
    std::io::Read::read_to_end(&mut decoder, &mut out).map_err(|e| e.to_string())?;
    Ok(out)
}

/// What `lzma_rust2::XzReader` makes of the streams of an xz file, or what it says of it.
pub uninterp spec fn unxzed_streams(file: Seq<u8>) -> Result<Seq<u8>, Seq<char>>;

/// `lzma_rust2::XzReader` over one stream after another, read to its end: what the streams
/// hold, or the text of the error.
#[verifier::external_body]
fn unxz_streams(file: &[u8]) -> (r: Result<Vec<u8>, String>)
    ensures
        match r {
            Ok(v) => unxzed_streams(file@) == Ok::<Seq<u8>, Seq<char>>(v@),
            Err(e) => unxzed_streams(file@) == Err::<Seq<u8>, Seq<char>>(e@),
        },
{
    let mut out = Vec::new();
    let mut reader = lzma_rust2::XzReader::new(file, true);
    std::io::Read::read_to_end(&mut reader, &mut out).map_err(|e| e.to_string())?;
    Ok(out)
}

/// What the blocks of an xz file of one stream hold, as `lzma_rust2::XzReaderMt` reads them
/// (without a look at their checksums), if all of them can be read.
pub uninterp spec fn unxzed_blocks(file: Seq<u8>) -> Option<Seq<u8>>;

/// Is that what `lzma_rust2` says where there is not memory enough?
pub uninterp spec fn wants_memory(text: Seq<char>) -> bool;

/// `lzma_rust2::XzReaderMt` with that many threads, read to its end: what the blocks hold, or
/// the text of the error. Given the memory, it fails just where a block (or the index) can't be
/// read. Which error is met first is up to the threads, so that is not stated.
#[verifier::external_body]
fn unxz_blocks(file: &[u8], workers: u32) -> (r: Result<Vec<u8>, String>)
    ensures
        match r {
            Ok(v) => unxzed_blocks(file@) == Some(v@),
            Err(e) => unxzed_blocks(file@) is None || wants_memory(e@),
        },
{
    let mut out = Vec::new();
    let source = std::io::Cursor::new(file);
    let mut reader = lzma_rust2::XzReaderMt::new(source, false, workers).map_err(|e| e.to_string())?;
    std::io::Read::read_to_end(&mut reader, &mut out).map_err(|e| e.to_string())?;
    Ok(out)
}

/// What is at some place in a zstd file.
pub enum Frame {
    /// A frame to pass over: `used` bytes of it were read, `length` more follow.
    Skip { used: usize, length: u32 },
    /// A frame of `used` bytes, what it holds, and its checksum as stored and as computed.
    Data { used: usize, content: Vec<u8>, stored: Option<u32>, computed: Option<u32> },
    /// Something that can't be decoded.
    Failed(String),
}

/// What a `Frame` says.
pub ghost enum FrameView {
    Skip { used: nat, length: nat },
    Data { used: nat, content: Seq<u8>, stored: Option<u32>, computed: Option<u32> },
    Failed(Seq<char>),
}

impl View for Frame {
    type V = FrameView;

    open spec fn view(&self) -> FrameView {
        match *self {
            Frame::Skip { used, length } => FrameView::Skip { used: used as nat, length: length as nat },
            Frame::Data { used, content, stored, computed } => FrameView::Data {
                used: used as nat,
                content: content@,
                stored,
                computed,
            },
            Frame::Failed(why) => FrameView::Failed(why@),
        }
    }
}

/// The largest window of a zstd frame that is decoded: that of `zstd --long=31`. (The decoder's
/// own limit is 128 MiB.)
pub const MAX_WINDOW: u64 = 0x8000_0000;

/// What `ruzstd::decoding::FrameDecoder` finds at the start of `input`.
pub uninterp spec fn zstd_frame_at(input: Seq<u8>, max_window: u64) -> FrameView;

/// A new `ruzstd::decoding::FrameDecoder`, its `reset` at the start of `input`, and a
/// `decode_blocks` of the whole frame there: what it found, or the text of the error. A frame
/// takes some of the input, and no more than there is.
#[verifier::external_body]
fn zstd_frame(input: &[u8], max_window: u64) -> (f: Frame)
    ensures
        f@ == zstd_frame_at(input@, max_window),
        f matches Frame::Skip { used, .. } ==> 0 < used <= input@.len(),
        f matches Frame::Data { used, .. } ==> 0 < used <= input@.len(),
{
    let (mut d, mut rest) = (FrameDecoder::new(), input);
    d.set_max_window_size(max_window);
    match d.reset(&mut rest) {
        Err(FrameDecoderError::ReadFrameHeaderError(ReadFrameHeaderError::SkipFrame { length, .. })) => {
            return Frame::Skip { used: input.len() - rest.len(), length };
        }
        Err(e) => return Frame::Failed(e.to_string()),
        Ok(()) => {}
    }
    if let Err(e) = d.decode_blocks(&mut rest, BlockDecodingStrategy::All) {
        return Frame::Failed(e.to_string());
    }
    let (content, stored) = (d.collect().unwrap_or_default(), d.get_checksum_from_data());
    Frame::Data { used: input.len() - rest.len(), content, stored, computed: d.get_calculated_checksum() }
}

/// How many entries `zip::ZipArchive::new` finds in a zip file, or what it says of the file.
pub uninterp spec fn zip_count(file: Seq<u8>) -> Result<usize, Seq<char>>;

/// `zip::ZipArchive::new` and `zip::ZipArchive::len`: how many entries a zip file has, or the
/// text of the error.
#[verifier::external_body]
fn zip_len(file: &[u8]) -> (r: Result<usize, String>)
    ensures
        match r {
            Ok(n) => zip_count(file@) == Ok::<usize, Seq<char>>(n),
            Err(e) => zip_count(file@) == Err::<usize, Seq<char>>(e@),
        },
{
    zip::ZipArchive::new(std::io::Cursor::new(file)).map(|archive| archive.len()).map_err(|e| e.to_string())
}

/// An entry of a zip file as `zip::ZipArchive::by_index_raw` gives it: whether it is a folder,
/// and its size unpacked; None for what can't be read.
pub uninterp spec fn zip_entry_at(file: Seq<u8>, index: nat) -> Option<(bool, u64)>;

/// `zip::ZipArchive::by_index_raw`: is the entry a folder, and how big is it unpacked?
#[verifier::external_body]
fn zip_entry(file: &[u8], index: usize) -> (r: Option<(bool, u64)>)
    ensures
        r == zip_entry_at(file@, index as nat),
{
    let mut archive = zip::ZipArchive::new(std::io::Cursor::new(file)).ok()?;
    archive.by_index_raw(index).ok().map(|f| (f.is_dir(), f.size()))
}

/// What an entry of a zip file holds, as `zip::ZipArchive::by_index` gives it; or what is said
/// of it, and whether that was said while it was read.
pub uninterp spec fn zip_entry_content(file: Seq<u8>, index: nat) -> Result<Seq<u8>, (bool, Seq<char>)>;

/// `zip::ZipArchive::by_index`, read to its end: what an entry holds; or the text of the error,
/// and whether it came while the entry was read.
#[verifier::external_body]
fn zip_content(file: &[u8], index: usize) -> (r: Result<Vec<u8>, (bool, String)>)
    ensures
        match r {
            Ok(v) => zip_entry_content(file@, index as nat) == Ok::<Seq<u8>, (bool, Seq<char>)>(v@),
            Err(e) => zip_entry_content(file@, index as nat) == Err::<Seq<u8>, (bool, Seq<char>)>((e.0, e.1@)),
        },
{
    let mut archive = zip::ZipArchive::new(std::io::Cursor::new(file)).map_err(|e| (false, e.to_string()))?;
    let mut entry = archive.by_index(index).map_err(|e| (false, e.to_string()))?;
    let mut out = Vec::new();
    std::io::Read::read_to_end(&mut entry, &mut out).map_err(|e| (true, e.to_string()))?;
    Ok(out)
}

// zstd: frame after frame.

/// The frames of a zstd file from `at` on: what they hold together, or what is wrong.
pub open spec fn unzstd_from(file: Seq<u8>, at: int) -> Result<Seq<u8>, Seq<char>>
    decreases file.len() - at,
{
    if at < 0 || at >= file.len() {
        Ok(Seq::empty())
    } else {
        match zstd_frame_at(file.skip(at), MAX_WINDOW) {
            FrameView::Failed(why) => Err(why),
            FrameView::Skip { used, length } => if at + used + length > file.len() {
                Err("unexpected end of file"@)
            } else if used == 0 {
                Ok(Seq::empty())
            } else {
                unzstd_from(file, at + used + length)
            },
            FrameView::Data { used, content, stored, computed } => if stored is Some && computed is Some
                && stored != computed {
                Err("zstd checksum mismatch"@)
            } else if used == 0 || at + used > file.len() {
                Ok(Seq::empty())
            } else {
                match unzstd_from(file, at + used) {
                    Ok(rest) => Ok(content + rest),
                    Err(e) => Err(e),
                }
            },
        }
    }
}

/// Decodes every frame of a zstd file (the decoder does one at a time); frames to pass over are
/// passed over.
pub fn unzstd(file: &[u8]) -> (r: Result<Vec<u8>, String>)
    ensures
        match r {
            Ok(v) => unzstd_from(file@, 0) == Ok::<Seq<u8>, Seq<char>>(v@),
            Err(e) => unzstd_from(file@, 0) == Err::<Seq<u8>, Seq<char>>(e@),
        },
{
    let mut out: Vec<u8> = Vec::new();
    let mut at: usize = 0;
    let n: usize = file.len();
    while at < n
        invariant
            at <= n,
            n == file@.len(),
            unzstd_from(file@, 0) == (match unzstd_from(file@, at as int) {
                Ok(rest) => Ok::<Seq<u8>, Seq<char>>(out@ + rest),
                Err(e) => Err(e),
            }),
        decreases n - at,
    {
        let input: Vec<u8> = bytes_at(file, at, n - at);
        assert(input@ =~= file@.skip(at as int));
        match zstd_frame(&input, MAX_WINDOW) {
            Frame::Failed(why) => {
                return Err(why);
            },
            Frame::Skip { used, length } => {
                if n - at - used < length as usize {
                    return Err("unexpected end of file".to_owned());
                }
                at = at + used + length as usize;
            },
            Frame::Data { used, content, stored, computed } => {
                match zstd_frame_end(stored, computed) {
                    Ok(()) => {},
                    Err(e) => {
                        return Err(e.what);
                    },
                }
                let ghost before = out@;
                let ghost part = content@;
                let mut content: Vec<u8> = content;
                out.append(&mut content);
                proof {
                    if let Ok(rest) = unzstd_from(file@, at + used) {
                        assert(before + (part + rest) =~= (before + part) + rest);
                    }
                }
                at = at + used;
            },
        }
    }
    proof {
        assert(out@ + Seq::<u8>::empty() =~= out@);
    }
    Ok(out)
}

// zip: the first file.

/// Whether each entry of a zip file is a folder, None for what can't be read.
pub open spec fn zip_folders(file: Seq<u8>, count: usize) -> Seq<Option<bool>> {
    Seq::new(
        count as nat,
        |i: int|
            match zip_entry_at(file, i as nat) {
                Some((folder, size)) => Some(folder),
                None => None,
            },
    )
}

/// The first file among the entries of a zip file, and its size unpacked.
fn zip_first(file: &[u8], count: usize) -> (r: Option<(usize, u64)>)
    ensures
        match r {
            Some((i, size)) => first_entry(zip_folders(file@, count), 0) == Some(i as int) && zip_entry_at(
                file@,
                i as nat,
            ) == Some((false, size)),
            None => first_entry(zip_folders(file@, count), 0) is None,
        },
{
    let ghost entries = zip_folders(file@, count);
    let mut i: usize = 0;
    while i < count
        invariant
            i <= count,
            entries == zip_folders(file@, count),
            first_entry(entries, 0) == first_entry(entries, i as int),
        decreases count - i,
    {
        match zip_entry(file, i) {
            Some((false, size)) => {
                assert(entries[i as int] == Some(false));
                return Some((i, size));
            },
            _ => {
                assert(entries[i as int] != Some(false));
            },
        }
        i = i + 1;
    }
    None
}

/// The size of the first file of a zip file, unpacked, when it is known.
pub open spec fn zip_first_size(file: Seq<u8>) -> Option<u64> {
    match zip_count(file) {
        Err(_) => None,
        Ok(count) => match first_entry(zip_folders(file, count), 0) {
            None => None,
            Some(i) => match zip_entry_at(file, i as nat) {
                Some((folder, size)) => Some(size),
                None => None,
            },
        },
    }
}

/// The size of the first file of a zip file, unpacked, when it is known.
pub fn zip_uncompressed(file: &[u8]) -> (r: Option<u64>)
    ensures
        r == zip_first_size(file@),
{
    match zip_len(file) {
        Err(_) => None,
        Ok(count) => match zip_first(file, count) {
            None => None,
            Some((_, size)) => Some(size),
        },
    }
}

/// "couldn't unpack …", for the user.
pub open spec fn unpack_text(name: Seq<char>, why: Seq<char>) -> Seq<char> {
    "couldn't unpack "@ + name + ": "@ + why
}

fn unpack_error(name: &str, why: &str) -> (s: String)
    ensures
        s@ == unpack_text(name@, why@),
{
    let mut s: String = "couldn't unpack ".to_owned();
    s.append(name);
    s.append(": ");
    s.append(why);
    s
}

/// What the first file of a zip file holds, or what the user is told.
pub open spec fn zip_unpacked(file: Seq<u8>, name: Seq<char>) -> Result<Seq<u8>, Seq<char>> {
    match zip_count(file) {
        Err(e) => Err(unpack_text(name, e)),
        Ok(count) => match first_entry(zip_folders(file, count), 0) {
            None => Err(name + " holds no files"@),
            Some(i) => match zip_entry_content(file, i as nat) {
                Ok(v) => Ok(v),
                Err((false, e)) => Err(unpack_text(name, e)),
                Err((true, e)) => Err(unpack_text(name, plain_words(e))),
            },
        },
    }
}

/// The first file of the zip file `name`.
pub fn unzip(file: &[u8], name: &str) -> (r: Result<Vec<u8>, String>)
    ensures
        match r {
            Ok(v) => zip_unpacked(file@, name@) == Ok::<Seq<u8>, Seq<char>>(v@),
            Err(e) => zip_unpacked(file@, name@) == Err::<Seq<u8>, Seq<char>>(e@),
        },
{
    let count: usize = match zip_len(file) {
        Ok(n) => n,
        Err(e) => {
            return Err(unpack_error(name, e.as_str()));
        },
    };
    match zip_first(file, count) {
        None => {
            let mut s: String = name.to_owned();
            s.append(" holds no files");
            Err(s)
        },
        Some((i, _)) => match zip_content(file, i) {
            Ok(v) => Ok(v),
            Err((reading, e)) => if reading {
                Err(unpack_error(name, why(e.as_str()).as_str()))
            } else {
                Err(unpack_error(name, e.as_str()))
            },
        },
    }
}

// All of them.

/// Is `r` what a decoder gave, an error told as the user is told it?
pub open spec fn told(r: Result<Vec<u8>, String>, given: Result<Seq<u8>, Seq<char>>, name: Seq<char>) -> bool {
    match given {
        Ok(v) => r matches Ok(got) && got@ == v,
        Err(e) => r matches Err(got) && got@ == unpack_text(name, plain_words(e)),
    }
}

/// Is `r` what the image `file`, called `name`, unpacks to, read in that way?
pub open spec fn unpacks(file: Seq<u8>, way: Way, name: Seq<char>, r: Option<Result<Vec<u8>, String>>) -> bool {
    match way {
        Way::Raw => r matches Some(Ok(v)) && v@ == file,
        Way::Gzip => r matches Some(got) && told(got, gunzipped(file), name),
        Way::Xz(workers) => if workers == 1 {
            r matches Some(got) && told(got, unxzed_streams(file), name)
        } else {
            match r {
                Some(Ok(v)) => unxzed_blocks(file) == Some(v@),
                Some(Err(e)) => exists|why: Seq<char>|
                    e@ == #[trigger] unpack_text(name, plain_words(why)) && (unxzed_blocks(file) is None || wants_memory(
                        why,
                    )),
                None => false,
            }
        },
        Way::Zstd => r matches Some(got) && told(got, unzstd_from(file, 0), name),
        Way::Zip => match zip_unpacked(file, name) {
            Ok(v) => r matches Some(Ok(got)) && got@ == v,
            Err(e) => r matches Some(Err(got)) && got@ == e,
        },
        Way::Smart | Way::Other => r is None,
    }
}

fn tell(given: Result<Vec<u8>, String>, name: &str) -> (r: Result<Vec<u8>, String>)
    ensures
        match given {
            Ok(v) => r matches Ok(got) && got@ == v@,
            Err(e) => r matches Err(got) && got@ == unpack_text(name@, plain_words(e@)),
        },
{
    match given {
        Ok(v) => Ok(v),
        Err(e) => Err(unpack_error(name, why(e.as_str()).as_str())),
    }
}

/// What the image `file`, called `name`, unpacks to, read in that way. None for smart images
/// and for the formats that are read block by block.
pub fn unpack(file: &[u8], way: Way, name: &str) -> (r: Option<Result<Vec<u8>, String>>)
    ensures
        unpacks(file@, way, name@, r),
{
    match way {
        Way::Raw => {
            let v: Vec<u8> = bytes_at(file, 0, file.len());
            assert(v@ =~= file@);
            Some(Ok(v))
        },
        Way::Gzip => Some(tell(gunzip(file), name)),
        Way::Xz(workers) => if workers == 1 {
            Some(tell(unxz_streams(file), name))
        } else {
            let given: Result<Vec<u8>, String> = unxz_blocks(file, workers);
            proof {
                if given is Err {
                    let e = given->Err_0@;
                    assert(unpack_text(name@, plain_words(e)) == unpack_text(name@, plain_words(e)));
                }
            }
            Some(tell(given, name))
        },
        Way::Zstd => Some(tell(unzstd(file), name)),
        Way::Zip => Some(unzip(file, name)),
        Way::Smart | Way::Other => None,
    }
}

} // verus!
