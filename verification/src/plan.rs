//! Turns "copy this to that" into a dd command line, and checks it makes sense.
//!
//! The dd options that only affect speed and safety (block size, direct I/O, flushing, sparse
//! output) are picked automatically for each kind of job.

use vstd::prelude::*;
use vstd::string::*;
use vstd::utf8::encode_utf8;
use crate::drives::{described, Described, Drive};
use crate::engine::{ImageFormat, ImageInfo};
use crate::fmt;
use crate::fmt::{block_size_of, bytes_of};
use crate::job::{law_quoted_words_are_kept, shell_reads};
use crate::text::{
    chars, decimal, decimal_text, is_digit, join, joined, law_decimal_round_trip, lowercase, lowercased, part,
    replace_char, replaced, same, starts, starts_with, string, texts, to_upper, upper_char, value, views,
};

verus! {

/// The system that the program runs on.
#[derive(Clone, Copy, Debug, PartialEq, Eq, Structural)]
pub enum System {
    Linux,
    Macos,
    Windows,
    Other,
}

#[derive(Clone, Debug)]
pub enum Source {
    /// Not chosen yet.
    Unset,
    File { path: String, info: ImageInfo },
    Drive(Drive),
    Zeros,
}

#[derive(Clone, Debug)]
pub enum Target {
    /// Not chosen yet.
    Unset,
    File(String),
    Drive(Drive),
}

/// What the user can override in Advanced. Everything else is automatic.
#[derive(Clone, Copy, Debug, PartialEq, Eq, Structural)]
pub struct Options {
    /// None picks a block size for the job.
    pub block_size: Option<u64>,
    pub noerror: bool,
    /// All three are counted in blocks, like dd does.
    pub count: Option<u64>,
    pub skip: Option<u64>,
    pub seek: Option<u64>,
}

impl Default for Options {
    fn default() -> (o: Options)
        ensures
            o == (Options { block_size: None, noerror: false, count: None, skip: None, seek: None }),
    {
        Options { block_size: None, noerror: false, count: None, skip: None, seek: None }
    }
}

/// The choices in Advanced, after "Auto".
pub const BLOCK_SIZES: [u64; 5] = [0x8_0000, 0x10_0000, 0x40_0000, 0x100_0000, 0x400_0000];

/// Zeros are dd's /dev/zero on Linux and macOS; Windows has none, so the copier writes them.
pub const ZEROS_AVAILABLE: bool = true;

/// What is known of where files are.
#[derive(Clone, Debug)]
pub struct Places {
    /// Are the source and the target the same file?
    pub same_file: bool,
    /// The full path of the source file, or of the folder that it would be in; None if there
    /// is none.
    pub source: Option<String>,
    /// The same of the target file.
    pub target: Option<String>,
}

pub struct Plan<'a> {
    pub source: &'a Source,
    pub target: &'a Target,
    pub opts: &'a Options,
    /// Every drive we know of, to tell which one a file is stored on.
    pub drives: &'a [Drive],
    pub places: &'a Places,
    pub system: System,
}

// Numbers.

pub open spec fn capped(n: int) -> u64 {
    if n > u64::MAX {
        u64::MAX
    } else {
        n as u64
    }
}

/// `a` without `b` blocks of `size` bytes; nothing if that is more.
pub open spec fn without_blocks(a: u64, b: Option<u64>, size: u64) -> u64 {
    let gone = capped(
        (match b {
            Some(n) => n as int,
            None => 0,
        }) * size,
    );
    if gone >= a {
        0
    } else {
        (a - gone) as u64
    }
}

fn times(a: u64, b: u64) -> (r: u64)
    ensures
        r == capped(a * b),
{
    proof {
        assert(0 <= a * b <= 0xffff_ffff_ffff_ffff * 0xffff_ffff_ffff_ffff) by (nonlinear_arith)
            requires
                0 <= a <= 0xffff_ffff_ffff_ffff,
                0 <= b <= 0xffff_ffff_ffff_ffff,
        ;
    }
    let p: u128 = a as u128 * b as u128;
    if p > u64::MAX as u128 {
        u64::MAX
    } else {
        p as u64
    }
}

fn less_blocks(a: u64, b: Option<u64>, size: u64) -> (r: u64)
    ensures
        r == without_blocks(a, b, size),
{
    let n: u64 = match b {
        Some(n) => n,
        None => 0,
    };
    a.saturating_sub(times(n, size))
}

impl Source {
    pub open spec fn is_drive(self) -> bool {
        self is Drive
    }
}

/// Direct I/O (iflag/oflag=direct) is a Linux-only flag in dd.
pub open spec fn direct_io(system: System) -> bool {
    system == System::Linux
}

/// Is it an image that has to be unpacked, or only partly written?
pub open spec fn is_packed(info: ImageInfo) -> bool {
    info.format != ImageFormat::Raw || info.smart is Some
}

impl<'a> Plan<'a> {
    pub open spec fn block_size_of(&self) -> u64 {
        match self.opts.block_size {
            Some(n) => n,
            // Big blocks make wipes cheaper; 4 MiB suits USB sticks, SD cards and disks alike.
            None => if self.source is Zeros {
                0x100_0000
            } else {
                0x40_0000
            },
        }
    }

    pub fn block_size(&self) -> (n: u64)
        ensures
            n == self.block_size_of(),
    {
        match self.opts.block_size {
            Some(n) => n,
            None => match self.source {
                Source::Zeros => 0x100_0000,
                _ => 0x40_0000,
            },
        }
    }

    fn to_drive(&self) -> (r: bool)
        ensures
            r == (self.target is Drive),
    {
        match self.target {
            Target::Drive(_) => true,
            _ => false,
        }
    }

    fn from_drive(&self) -> (r: bool)
        ensures
            r == (self.source is Drive),
    {
        match self.source {
            Source::Drive(_) => true,
            _ => false,
        }
    }

    /// Writing straight to the drive keeps the progress honest (nothing piles up in RAM).
    pub fn direct_out(&self) -> (r: bool)
        ensures
            r == (direct_io(self.system) && self.target is Drive),
    {
        self.system == System::Linux && self.to_drive()
    }

    /// Reading a drive without the page cache doesn't evict everything else from RAM.
    fn direct_in(&self) -> (r: bool)
        ensures
            r == (direct_io(self.system) && self.source is Drive),
    {
        self.system == System::Linux && self.from_drive()
    }

    /// Backups skip writing runs of zeros, which saves space on the target disk.
    fn sparse(&self) -> (r: bool)
        ensures
            r == (self.source is Drive && self.target is File),
    {
        match (self.source, self.target) {
            (Source::Drive(_), Target::File(_)) => true,
            _ => false,
        }
    }

    pub open spec fn unpacks(&self) -> bool {
        match (*self.source, *self.target) {
            (Source::File { path, info }, Target::Drive(_)) => is_packed(info),
            _ => false,
        }
    }

    /// The copier does this job: compressed images and smart images need unpacking.
    pub fn restores_image(&self) -> (r: bool)
        ensures
            r == self.unpacks(),
    {
        match (self.source, self.target) {
            (Source::File { path, info }, Target::Drive(_)) => {
                info.format != ImageFormat::Raw || info.smart.is_some()
            },
            _ => false,
        }
    }

    // Sizes.

    /// Bytes the target needs to hold, when known.
    pub open spec fn source_size_of(&self) -> Option<u64> {
        match *self.source {
            Source::File { path, info } => if !self.unpacks() {
                // Copied as-is unless it's being written to a drive.
                Some(info.size)
            } else {
                match info.smart {
                    Some(smart) => Some(smart.disk_size),
                    None => if info.format == ImageFormat::Raw {
                        Some(info.size)
                    } else {
                        info.uncompressed
                    },
                }
            },
            Source::Drive(d) => Some(d.size),
            _ => None,
        }
    }

    fn source_size(&self) -> (r: Option<u64>)
        ensures
            r == self.source_size_of(),
    {
        match self.source {
            Source::File { path, info } => if !self.restores_image() {
                Some(info.size)
            } else {
                match info.smart {
                    Some(smart) => Some(smart.disk_size),
                    None => if info.format == ImageFormat::Raw {
                        Some(info.size)
                    } else {
                        info.uncompressed
                    },
                }
            },
            Source::Drive(d) => Some(d.size),
            _ => None,
        }
    }

    pub open spec fn room_of(&self) -> Option<u64> {
        match *self.target {
            Target::Drive(d) => Some(without_blocks(d.size, self.opts.seek, self.block_size_of())),
            _ => None,
        }
    }

    fn target_room(&self) -> (r: Option<u64>)
        ensures
            r == self.room_of(),
    {
        match self.target {
            Target::Drive(d) => Some(less_blocks(d.size, self.opts.seek, self.block_size())),
            _ => None,
        }
    }

    /// How many bytes dd will copy, when that's known up front.
    pub open spec fn total_of(&self) -> Option<u64> {
        let limit = match self.opts.count {
            Some(c) => Some(capped(c * self.block_size_of())),
            None => None,
        };
        let available = if self.source is Zeros {
            self.room_of()
        } else {
            match self.source_size_of() {
                Some(s) => Some(without_blocks(s, self.opts.skip, self.block_size_of())),
                None => None,
            }
        };
        match (available, limit) {
            (Some(a), Some(l)) => Some(
                if a < l {
                    a
                } else {
                    l
                },
            ),
            (Some(a), None) => Some(a),
            (None, l) => l,
        }
    }

    /// How many bytes dd will copy, when that's known up front.
    pub fn total_bytes(&self) -> (r: Option<u64>)
        ensures
            r == self.total_of(),
    {
        let bs: u64 = self.block_size();
        let limit: Option<u64> = match self.opts.count {
            Some(c) => Some(times(c, bs)),
            None => None,
        };
        let zeros: bool = match self.source {
            Source::Zeros => true,
            _ => false,
        };
        let available: Option<u64> = if zeros {
            self.target_room()
        } else {
            match self.source_size() {
                Some(s) => Some(less_blocks(s, self.opts.skip, bs)),
                None => None,
            }
        };
        match (available, limit) {
            (Some(a), Some(l)) => Some(
                if a < l {
                    a
                } else {
                    l
                },
            ),
            (Some(a), None) => Some(a),
            (None, l) => l,
        }
    }

    /// Raw drives on macOS and Windows only take whole sectors, so a last partial block gets
    /// padded with zeros (dd pads it to the full block size).
    pub open spec fn pads(&self) -> bool {
        &&& self.system == System::Windows || self.system == System::Macos
        &&& self.target is Drive
        &&& !self.opts.noerror
        &&& self.total_of() matches Some(t) && t % 4096 != 0
    }

    fn pads_last_block(&self) -> (r: bool)
        ensures
            r == self.pads(),
    {
        (self.system == System::Windows || self.system == System::Macos) && self.to_drive() && !self.opts.noerror
            && match self.total_bytes() {
            Some(t) => t % 4096 != 0,
            None => false,
        }
    }
}

// Operands.

/// What a word of the command line is for, and the word.
pub open spec fn pairs(v: Seq<(&'static str, String)>) -> Seq<(Seq<char>, Seq<char>)> {
    v.map_values(|p: (&'static str, String)| (p.0@, p.1@))
}

pub open spec fn one(key: Seq<char>, value: Seq<char>) -> Seq<(Seq<char>, Seq<char>)> {
    seq![(key, value)]
}

pub open spec fn nothing() -> Seq<(Seq<char>, Seq<char>)> {
    Seq::empty()
}

/// A number of blocks that is not zero.
pub open spec fn blocks(key: Seq<char>, n: Option<u64>) -> Seq<(Seq<char>, Seq<char>)> {
    match n {
        Some(n) => if n > 0 {
            one(key, decimal(n as nat))
        } else {
            nothing()
        },
        None => nothing(),
    }
}

/// Flags, unless there are none.
pub open spec fn flags(key: Seq<char>, list: Seq<Seq<char>>) -> Seq<(Seq<char>, Seq<char>)> {
    if list.len() > 0 {
        one(key, join(list, ","@))
    } else {
        nothing()
    }
}

pub open spec fn some_of(b: bool, list: Seq<Seq<char>>) -> Seq<Seq<char>> {
    if b {
        list
    } else {
        Seq::empty()
    }
}

fn push_op(ops: &mut Vec<(&'static str, String)>, key: &'static str, value: String)
    ensures
        pairs(final(ops)@) == pairs(old(ops)@) + one(key@, value@),
{
    let ghost v = value@;
    ops.push((key, value));
    proof {
        assert(pairs(ops@) =~= pairs(old(ops)@) + one(key@, v));
    }
}

fn push_flag(list: &mut Vec<String>, b: bool, flag: &str)
    ensures
        texts(final(list)@) == texts(old(list)@) + some_of(b, seq![flag@]),
{
    if b {
        list.push(flag.to_owned());
        proof {
            assert(texts(list@) =~= texts(old(list)@) + seq![flag@]);
        }
    } else {
        proof {
            assert(texts(list@) + Seq::<Seq<char>>::empty() =~= texts(list@));
        }
    }
}

fn push_flags(ops: &mut Vec<(&'static str, String)>, key: &'static str, list: &Vec<String>)
    ensures
        pairs(final(ops)@) == pairs(old(ops)@) + flags(key@, texts(list@)),
{
    if list.len() > 0 {
        push_op(ops, key, joined(list, ","));
        assert(texts(list@).len() > 0);
    } else {
        assert(texts(list@).len() == 0);
        assert(pairs(ops@) + nothing() =~= pairs(ops@));
    }
}

fn push_blocks(ops: &mut Vec<(&'static str, String)>, key: &'static str, n: Option<u64>)
    ensures
        pairs(final(ops)@) == pairs(old(ops)@) + blocks(key@, n),
{
    match n {
        Some(n) => {
            if n > 0 {
                push_op(ops, key, decimal_text(n));
                return;
            }
        },
        None => {},
    }
    assert(pairs(ops@) + nothing() =~= pairs(ops@));
}

impl<'a> Plan<'a> {
    pub open spec fn input_ops(&self) -> Seq<(Seq<char>, Seq<char>)> {
        if self.unpacks() {
            nothing()
        } else {
            match *self.source {
                Source::File { path, info } => one("if"@, path@),
                Source::Drive(d) => one("if"@, d.io_path@),
                Source::Zeros => one("if"@, "/dev/zero"@),
                Source::Unset => nothing(),
            }
        }
    }

    pub open spec fn output_ops(&self) -> Seq<(Seq<char>, Seq<char>)> {
        match *self.target {
            Target::File(path) => one("of"@, path@),
            Target::Drive(d) => one("of"@, d.io_path@),
            Target::Unset => nothing(),
        }
    }

    /// Is the count one of bytes? /dev/zero never ends; it stops exactly at the end of the
    /// drive instead of running into "No space left on device".
    pub open spec fn counts_bytes(&self) -> bool {
        self.opts.count is None && self.source is Zeros && self.target is Drive
    }

    pub open spec fn count_ops(&self) -> Seq<(Seq<char>, Seq<char>)> {
        match self.opts.count {
            Some(n) => one("count"@, decimal(n as nat)),
            None => if self.counts_bytes() {
                one("count"@, decimal(self.room_of()->0 as nat))
            } else {
                nothing()
            },
        }
    }

    pub open spec fn input_flags(&self) -> Seq<Seq<char>> {
        some_of(self.counts_bytes(), seq!["count_bytes"@]) + some_of(
            direct_io(self.system) && self.source is Drive,
            seq!["direct"@],
        )
    }

    pub open spec fn conversions(&self) -> Seq<Seq<char>> {
        // Drives get flushed after dd instead (see `sync_after`).
        some_of(!(self.target is Drive), seq!["fsync"@]) + some_of(
            self.source is Drive && self.target is File,
            seq!["sparse"@],
        ) + some_of(self.opts.noerror, seq!["noerror"@]) + some_of(self.opts.noerror, seq!["sync"@])
        // Windows can't truncate or create a physical drive, so dd is told not to try.
         + some_of(self.system == System::Windows && self.target is Drive, seq!["notrunc"@]) + some_of(
            self.system == System::Windows && self.target is Drive,
            seq!["nocreat"@],
        ) + some_of(self.pads(), seq!["sync"@])
    }

    /// dd's operands, as (key, value) pairs in the order they're shown.
    pub open spec fn operands_of(&self) -> Seq<(Seq<char>, Seq<char>)> {
        self.input_ops() + self.output_ops() + one("bs"@, block_size_of(self.block_size_of())) + self.count_ops()
            + blocks("skip"@, self.opts.skip) + blocks("seek"@, self.opts.seek) + flags(
            "iflag"@,
            self.input_flags(),
        ) + (if direct_io(self.system) && self.target is Drive {
            one("oflag"@, "direct"@)
        } else {
            nothing()
        }) + flags("conv"@, self.conversions()) + one("status"@, "progress"@)
    }

    fn push_ends(&self, ops: &mut Vec<(&'static str, String)>)
        ensures
            pairs(final(ops)@) == pairs(old(ops)@) + self.input_ops() + self.output_ops(),
    {
        let ghost start = pairs(ops@);
        proof {
            assert(start + nothing() =~= start);
        }
        if !self.restores_image() {
            match self.source {
                Source::File { path, info } => push_op(ops, "if", path.as_str().to_owned()),
                Source::Drive(d) => push_op(ops, "if", d.io_path.as_str().to_owned()),
                Source::Zeros => push_op(ops, "if", "/dev/zero".to_owned()),
                Source::Unset => {},
            }
        }
        let ghost mid = pairs(ops@);
        proof {
            assert(mid == start + self.input_ops());
            assert(mid + nothing() =~= mid);
        }
        match self.target {
            Target::File(path) => push_op(ops, "of", path.as_str().to_owned()),
            Target::Drive(d) => push_op(ops, "of", d.io_path.as_str().to_owned()),
            Target::Unset => {},
        }
    }

    fn push_count(&self, ops: &mut Vec<(&'static str, String)>) -> (bytes: bool)
        ensures
            bytes == self.counts_bytes(),
            pairs(final(ops)@) == pairs(old(ops)@) + self.count_ops(),
    {
        match self.opts.count {
            Some(n) => {
                push_op(ops, "count", decimal_text(n));
                false
            },
            None => match (self.source, self.target_room()) {
                (Source::Zeros, Some(room)) => {
                    push_op(ops, "count", decimal_text(room));
                    true
                },
                _ => {
                    assert(pairs(ops@) + nothing() =~= pairs(ops@));
                    false
                },
            },
        }
    }

    fn conv(&self) -> (conv: Vec<String>)
        ensures
            texts(conv@) == self.conversions(),
    {
        let mut conv: Vec<String> = Vec::new();
        proof {
            let a = some_of(!(self.target is Drive), seq!["fsync"@]);
            assert(texts(conv@) + a =~= a);
        }
        let windows: bool = self.system == System::Windows && self.to_drive();
        push_flag(&mut conv, !self.to_drive(), "fsync");
        push_flag(&mut conv, self.sparse(), "sparse");
        push_flag(&mut conv, self.opts.noerror, "noerror");
        push_flag(&mut conv, self.opts.noerror, "sync");
        push_flag(&mut conv, windows, "notrunc");
        push_flag(&mut conv, windows, "nocreat");
        push_flag(&mut conv, self.pads_last_block(), "sync");
        conv
    }

    /// dd's operands, as (key, value) pairs in the order they're shown.
    pub fn operands(&self) -> (ops: Vec<(&'static str, String)>)
        ensures
            pairs(ops@) == self.operands_of(),
    {
        let mut ops: Vec<(&'static str, String)> = Vec::new();
        proof {
            assert(pairs(ops@) + self.input_ops() =~= self.input_ops());
        }
        self.push_ends(&mut ops);
        push_op(&mut ops, "bs", fmt::block_size(self.block_size()));
        let bytes: bool = self.push_count(&mut ops);
        push_blocks(&mut ops, "skip", self.opts.skip);
        push_blocks(&mut ops, "seek", self.opts.seek);
        let mut iflag: Vec<String> = Vec::new();
        proof {
            let a = some_of(self.counts_bytes(), seq!["count_bytes"@]);
            assert(texts(iflag@) + a =~= a);
        }
        push_flag(&mut iflag, bytes, "count_bytes");
        push_flag(&mut iflag, self.direct_in(), "direct");
        push_flags(&mut ops, "iflag", &iflag);
        if self.direct_out() {
            push_op(&mut ops, "oflag", "direct".to_owned());
        } else {
            assert(pairs(ops@) + nothing() =~= pairs(ops@));
        }
        let conv: Vec<String> = self.conv();
        push_flags(&mut ops, "conv", &conv);
        push_op(&mut ops, "status", "progress".to_owned());
        ops
    }

    /// The drive to flush once dd is done; the worker does it, like `dd … && sync`.
    ///
    /// Two reasons not to leave it to `conv=fsync`: uutils dd writes through an unaligned
    /// buffer whenever any `conv=` is given, and O_DIRECT then quietly falls back to cached
    /// writes, making the progress run ahead of the drive. And on macOS, fsync on a raw disk
    /// may fail where the worker's flush falls back to asking the drive to empty its cache.
    pub fn sync_after(&self) -> (r: Option<String>)
        ensures
            match (r, *self.target) {
                (Some(s), Target::Drive(d)) => s@ == d.io_path@,
                (None, Target::Drive(d)) => false,
                (Some(_), _) => false,
                (None, _) => true,
            },
    {
        match self.target {
            Target::Drive(d) => Some(d.io_path.as_str().to_owned()),
            _ => None,
        }
    }

    /// The operands as dd takes them.
    pub fn args(&self) -> (r: Vec<String>)
        ensures
            texts(r@) == self.operands_of().map_values(
                |p: (Seq<char>, Seq<char>)| p.0 + "="@ + p.1,
            ),
    {
        let ops: Vec<(&'static str, String)> = self.operands();
        let mut r: Vec<String> = Vec::new();
        let mut i: usize = 0;
        let ghost all = self.operands_of();
        let ghost f = |p: (Seq<char>, Seq<char>)| p.0 + "="@ + p.1;
        proof {
            assert(texts(r@) =~= all.take(0).map_values(f));
        }
        while i < ops.len()
            invariant
                i <= ops@.len(),
                all == pairs(ops@),
                f == (|p: (Seq<char>, Seq<char>)| p.0 + "="@ + p.1),
                texts(r@) == all.take(i as int).map_values(f),
            decreases ops@.len() - i,
        {
            let ghost before = r@;
            let mut s: String = ops[i].0.to_owned();
            s.append("=");
            s.append(ops[i].1.as_str());
            let ghost made = s@;
            r.push(s);
            proof {
                assert(made == f(all[i as int]));
                assert(texts(r@) =~= texts(before).push(made));
                assert(all.take(i + 1).map_values(f) =~= all.take(i as int).map_values(f).push(f(all[i as int])));
            }
            i = i + 1;
        }
        proof {
            assert(all.take(all.len() as int) =~= all);
        }
        r
    }
}

// The command line.

/// What unpacks a format in a shell, in front of dd.
pub open spec fn unpacker(format: ImageFormat) -> Seq<char> {
    match format {
        ImageFormat::Xz => "xz -dc"@,
        ImageFormat::Zstd => "zstd -dc"@,
        ImageFormat::Zip => "unzip -p"@,
        ImageFormat::Bzip2 => "bzip2 -dc"@,
        ImageFormat::Lz4 => "lz4 -dc"@,
        ImageFormat::Lzma => "xz --format=lzma -dc"@,
        ImageFormat::SevenZ => "7z x -so"@,
        ImageFormat::Tar => "tar -xOf"@,
        _ => "gzip -dc"@,
    }
}

fn unpack_command(format: ImageFormat) -> (s: &'static str)
    ensures
        s@ == unpacker(format),
{
    match format {
        ImageFormat::Xz => "xz -dc",
        ImageFormat::Zstd => "zstd -dc",
        ImageFormat::Zip => "unzip -p",
        ImageFormat::Bzip2 => "bzip2 -dc",
        ImageFormat::Lz4 => "lz4 -dc",
        ImageFormat::Lzma => "xz --format=lzma -dc",
        ImageFormat::SevenZ => "7z x -so",
        ImageFormat::Tar => "tar -xOf",
        _ => "gzip -dc",
    }
}

/// Virtual disks.
pub open spec fn is_virtual(format: ImageFormat) -> bool {
    match format {
        ImageFormat::Dmg | ImageFormat::Vhd | ImageFormat::Vhdx | ImageFormat::Vmdk | ImageFormat::Qcow2 => true,
        _ => false,
    }
}

pub fn virtual_disk(format: ImageFormat) -> (r: bool)
    ensures
        r == is_virtual(format),
{
    match format {
        ImageFormat::Dmg | ImageFormat::Vhd | ImageFormat::Vhdx | ImageFormat::Vmdk | ImageFormat::Qcow2 => true,
        _ => false,
    }
}

/// A character that needs no quotes in a shell.
pub open spec fn is_plain(c: char) -> bool {
    'a' <= c <= 'z' || 'A' <= c <= 'Z' || '0' <= c <= '9' || c == '/' || c == '.' || c == '_' || c == '-' || c
        == '+' || c == ',' || c == ':' || c == '=' || c == '@' || c == '%'
}

pub open spec fn all_plain(s: Seq<char>) -> bool {
    forall|i: int| 0 <= i < s.len() ==> is_plain(#[trigger] s[i])
}

/// A word in quotes, if it needs them.
pub open spec fn quoted(s: Seq<char>, system: System) -> Seq<char> {
    if s.len() > 0 && all_plain(s) {
        s
    } else if system == System::Windows {
        "\""@ + s + "\""@
    } else {
        "'"@ + replace_char(s, '\'', "'\\''"@) + "'"@
    }
}

fn plain_text(s: &[char]) -> (r: bool)
    ensures
        r == all_plain(s@),
{
    let mut i: usize = 0;
    while i < s.len()
        invariant
            i <= s@.len(),
            forall|k: int| 0 <= k < i ==> is_plain(#[trigger] s@[k]),
        decreases s@.len() - i,
    {
        let c: char = s[i];
        let plain: bool = ('a' <= c && c <= 'z') || ('A' <= c && c <= 'Z') || ('0' <= c && c <= '9') || c == '/'
            || c == '.' || c == '_' || c == '-' || c == '+' || c == ',' || c == ':' || c == '=' || c == '@' || c
            == '%';
        if !plain {
            assert(!is_plain(s@[i as int]));
            return false;
        }
        i = i + 1;
    }
    true
}

/// A word in quotes, if it needs them.
pub fn shell_quote(s: &str, system: System) -> (r: String)
    ensures
        r@ == quoted(s@, system),
{
    let v: Vec<char> = chars(s);
    if v.len() > 0 && plain_text(&v) {
        s.to_owned()
    } else if system == System::Windows {
        let mut r: String = "\"".to_owned();
        r.append(s);
        r.append("\"");
        r
    } else {
        let mut r: String = "'".to_owned();
        r.append(replaced(s, '\'', "'\\''").as_str());
        r.append("'");
        r
    }
}

/// A word as it is typed: commands as they are, arguments and operands in quotes where they
/// need them.
pub open spec fn typed(p: (Seq<char>, Seq<char>), system: System) -> Seq<char> {
    if p.0 == ""@ {
        p.1
    } else if p.0 == "_"@ {
        quoted(p.1, system)
    } else {
        p.0 + "="@ + quoted(p.1, system)
    }
}

pub open spec fn typed_all(words: Seq<(Seq<char>, Seq<char>)>, system: System) -> Seq<Seq<char>> {
    words.map_values(|p: (Seq<char>, Seq<char>)| typed(p, system))
}

impl<'a> Plan<'a> {
    pub open spec fn sync_words(&self) -> Seq<(Seq<char>, Seq<char>)> {
        if self.target is Drive {
            one(""@, "&& sync"@)
        } else {
            nothing()
        }
    }

    /// The command as shell words: `("", word)` for commands, `("_", word)` for plain
    /// arguments, `(key, value)` for dd operands. For image restores this is the equivalent
    /// pipeline (`xz -dc image | dd of=…`).
    pub open spec fn words_of(&self) -> Seq<(Seq<char>, Seq<char>)> {
        let dd = one(""@, "dd"@) + self.operands_of() + self.sync_words();
        match (*self.source, *self.target) {
            (Source::File { path, info }, Target::Drive(d)) => if !is_packed(info) {
                nothing() + dd
            } else if is_virtual(info.format) {
                // Virtual disks: qemu-img converts them straight onto the drive.
                one(""@, "qemu-img convert -O raw"@) + one("_"@, path@) + one("_"@, d.io_path@) + one(
                    ""@,
                    "&& sync"@,
                )
            } else {
                one(""@, unpacker(info.format)) + one("_"@, path@) + one(""@, "|"@) + dd
            },
            _ => nothing() + dd,
        }
    }

    fn push_dd(&self, words: &mut Vec<(&'static str, String)>)
        ensures
            pairs(final(words)@) == pairs(old(words)@) + (one(""@, "dd"@) + self.operands_of() + self.sync_words()),
    {
        let ghost start = pairs(words@);
        push_op(words, "", "dd".to_owned());
        let mut ops: Vec<(&'static str, String)> = self.operands();
        let ghost all = pairs(ops@);
        let ghost before = words@;
        words.append(&mut ops);
        proof {
            assert(pairs(words@) =~= pairs(before) + all);
        }
        if self.to_drive() {
            push_op(words, "", "&& sync".to_owned());
        } else {
            assert(pairs(words@) + nothing() =~= pairs(words@));
        }
        proof {
            let a = one(""@, "dd"@);
            assert(pairs(words@) =~= start + (a + all + self.sync_words()));
        }
    }

    /// The command as shell words: `("", word)` for commands, `("_", word)` for plain
    /// arguments, `(key, value)` for dd operands. For image restores this is the equivalent
    /// pipeline (`xz -dc image | dd of=…`).
    pub fn words(&self) -> (words: Vec<(&'static str, String)>)
        ensures
            pairs(words@) == self.words_of(),
    {
        let mut words: Vec<(&'static str, String)> = Vec::new();
        proof {
            assert(pairs(words@) =~= nothing());
            assert(forall|s: Seq<(Seq<char>, Seq<char>)>| #[trigger] (nothing() + s) =~= s);
        }
        match (self.source, self.target) {
            (Source::File { path, info }, Target::Drive(d)) => {
                if info.format != ImageFormat::Raw || info.smart.is_some() {
                    if virtual_disk(info.format) {
                        push_op(&mut words, "", "qemu-img convert -O raw".to_owned());
                        push_op(&mut words, "_", path.as_str().to_owned());
                        push_op(&mut words, "_", d.io_path.as_str().to_owned());
                        push_op(&mut words, "", "&& sync".to_owned());
                        return words;
                    }
                    push_op(&mut words, "", unpack_command(info.format).to_owned());
                    push_op(&mut words, "_", path.as_str().to_owned());
                    push_op(&mut words, "", "|".to_owned());
                }
            },
            _ => {},
        }
        self.push_dd(&mut words);
        words
    }

    /// The command as you'd type it in a shell.
    pub fn command_line(&self) -> (s: String)
        ensures
            s@ == join(typed_all(self.words_of(), self.system), " "@),
    {
        let words: Vec<(&'static str, String)> = self.words();
        let ghost all = self.words_of();
        let mut parts: Vec<String> = Vec::new();
        let mut i: usize = 0;
        proof {
            assert(texts(parts@) =~= typed_all(all.take(0), self.system));
        }
        while i < words.len()
            invariant
                i <= words@.len(),
                all == pairs(words@),
                texts(parts@) == typed_all(all.take(i as int), self.system),
            decreases words@.len() - i,
        {
            let key: &'static str = words[i].0;
            let value: &str = words[i].1.as_str();
            let s: String = if same(key, "") {
                value.to_owned()
            } else if same(key, "_") {
                shell_quote(value, self.system)
            } else {
                let mut s: String = key.to_owned();
                s.append("=");
                s.append(shell_quote(value, self.system).as_str());
                s
            };
            let ghost before = parts@;
            let ghost made = s@;
            parts.push(s);
            proof {
                assert(made == typed(all[i as int], self.system));
                assert(texts(parts@) =~= texts(before).push(made));
                assert(typed_all(all.take(i + 1), self.system) =~= typed_all(
                    all.take(i as int),
                    self.system,
                ).push(made));
            }
            i = i + 1;
        }
        proof {
            assert(all.take(all.len() as int) =~= all);
        }
        joined(&parts, " ")
    }

    pub open spec fn summary_parts(&self) -> Seq<Seq<char>> {
        seq![block_size_of(self.block_size_of()) + " blocks"@] + some_of(
            direct_io(self.system) && (self.source is Drive || self.target is Drive),
            seq!["direct I/O on drives"@],
        ) + seq!["flush to disk at the end"@] + some_of(
            self.source is Drive && self.target is File,
            seq!["sparse image (zeros take no space)"@],
        ) + some_of(self.unpacks(), seq!["unpacked on the fly"@])
    }

    /// Plain words for what was picked, for the Advanced dialog.
    pub fn auto_summary(&self) -> (s: String)
        ensures
            s@ == capitalized(join(self.summary_parts(), " · "@)),
    {
        let mut parts: Vec<String> = Vec::new();
        let mut first: String = fmt::block_size(self.block_size());
        first.append(" blocks");
        let ghost words = first@;
        parts.push(first);
        proof {
            assert(texts(parts@) =~= seq![words]);
        }
        push_flag(&mut parts, self.direct_in() || self.direct_out(), "direct I/O on drives");
        push_flag(&mut parts, true, "flush to disk at the end");
        push_flag(&mut parts, self.sparse(), "sparse image (zeros take no space)");
        push_flag(&mut parts, self.restores_image(), "unpacked on the fly");
        let text: String = joined(&parts, " · ");
        let mut v: Vec<char> = chars(text.as_str());
        if v.len() > 0 {
            let c: char = to_upper(v[0]);
            v.set(0, c);
        }
        string(&v)
    }
}

/// A text that starts with a capital.
pub open spec fn capitalized(s: Seq<char>) -> Seq<char> {
    if s.len() > 0 {
        s.update(0, upper_char(s[0]))
    } else {
        s
    }
}

// Where files are.

pub open spec fn is_separator(c: char, system: System) -> bool {
    c == '/' || (system == System::Windows && c == '\\')
}

/// Where the first separator is; the length if there is none.
pub open spec fn separator_at(s: Seq<char>, system: System) -> nat
    decreases s.len(),
{
    if s.len() == 0 || is_separator(s[0], system) {
        0
    } else {
        1 + separator_at(s.skip(1), system)
    }
}

/// The names in a path. Empty ones and `.` do not count.
pub open spec fn names(s: Seq<char>, system: System) -> Seq<Seq<char>>
    decreases s.len(),
    via names_shrink
{
    if s.len() == 0 {
        Seq::empty()
    } else {
        let k = separator_at(s, system) as int;
        let one = s.take(k);
        let rest = if k < s.len() {
            s.skip(k + 1)
        } else {
            Seq::empty()
        };
        (if one.len() == 0 || one == "."@ {
            Seq::empty()
        } else {
            seq![one]
        }) + names(rest, system)
    }
}

#[via_fn]
proof fn names_shrink(s: Seq<char>, system: System) {
    lemma_separator_at(s, system);
}

proof fn lemma_separator_at(s: Seq<char>, system: System)
    ensures
        separator_at(s, system) <= s.len(),
        separator_at(s, system) < s.len() ==> is_separator(s[separator_at(s, system) as int], system),
        forall|i: int| 0 <= i < separator_at(s, system) ==> !is_separator(#[trigger] s[i], system),
    decreases s.len(),
{
    if s.len() > 0 && !is_separator(s[0], system) {
        lemma_separator_at(s.skip(1), system);
        assert forall|i: int| 0 <= i < separator_at(s, system) implies !is_separator(#[trigger] s[i], system) by {
            if i > 0 {
                assert(s[i] == s.skip(1)[i - 1]);
            }
        }
    }
}

/// Does a path start at the root (of its drive)?
pub open spec fn is_rooted(s: Seq<char>, system: System) -> bool {
    if system == System::Windows && s.len() >= 2 && s[1] == ':' {
        s.len() > 2 && is_separator(s[2], system)
    } else {
        s.len() > 0 && is_separator(s[0], system)
    }
}

/// The parts of a path: where it starts, and the names in it.
pub open spec fn components(s: Seq<char>, system: System) -> Seq<Seq<char>> {
    (if is_rooted(s, system) {
        seq!["/"@]
    } else if s.take(separator_at(s, system) as int) == "."@ {
        seq!["."@]
    } else {
        Seq::empty()
    }) + names(s, system)
}

/// Is `path` at or below `mount`? Windows does not tell upper and lower case apart.
pub open spec fn is_below(path: Seq<char>, mount: Seq<char>, system: System) -> bool {
    let p = if system == System::Windows {
        components(lowercased(path), system)
    } else {
        components(path, system)
    };
    let m = if system == System::Windows {
        components(lowercased(mount), system)
    } else {
        components(mount, system)
    };
    m.len() <= p.len() && p.take(m.len() as int) == m
}

fn next_separator(s: &[char], from: usize, system: System) -> (at: usize)
    requires
        from <= s@.len(),
    ensures
        from <= at <= s@.len(),
        at - from == separator_at(s@.skip(from as int), system),
{
    let mut i: usize = from;
    while i < s.len() && !(s[i] == '/' || (system == System::Windows && s[i] == '\\'))
        invariant
            from <= i <= s@.len(),
            separator_at(s@.skip(from as int), system) == (i - from) + separator_at(s@.skip(i as int), system),
        decreases s@.len() - i,
    {
        proof {
            assert(s@.skip(i as int).skip(1) =~= s@.skip(i + 1));
        }
        i = i + 1;
    }
    i
}

fn rooted(s: &[char], system: System) -> (r: bool)
    ensures
        r == is_rooted(s@, system),
{
    if system == System::Windows && s.len() >= 2 && s[1] == ':' {
        s.len() > 2 && (s[2] == '/' || s[2] == '\\')
    } else {
        s.len() > 0 && (s[0] == '/' || (system == System::Windows && s[0] == '\\'))
    }
}

fn path_parts(s: &[char], system: System) -> (r: Vec<Vec<char>>)
    ensures
        views(r@) == components(s@, system),
{
    let mut r: Vec<Vec<char>> = Vec::new();
    let first: usize = next_separator(s, 0, system);
    let lead: Vec<char> = part(s, 0, first);
    proof {
        assert(s@.skip(0) =~= s@);
        assert(lead@ =~= s@.take(first as int));
    }
    if rooted(s, system) {
        r.push(chars("/"));
        assert(views(r@) =~= seq!["/"@]);
    } else if crate::text::is_text(&lead, ".") {
        r.push(chars("."));
        assert(views(r@) =~= seq!["."@]);
    } else {
        assert(views(r@) =~= Seq::<Seq<char>>::empty());
    }
    let ghost start = views(r@);
    let mut at: usize = 0;
    while at < s.len()
        invariant
            at <= s@.len(),
            start + names(s@, system) == views(r@) + names(s@.skip(at as int), system),
        decreases s@.len() - at,
    {
        let ghost here = s@.skip(at as int);
        let ghost before = views(r@);
        let k: usize = next_separator(s, at, system);
        let one: Vec<char> = part(s, at, k);
        let ghost name = one@;
        let next: usize = if k < s.len() {
            k + 1
        } else {
            k
        };
        proof {
            assert(name =~= here.take(k - at));
            if k < s@.len() {
                assert(here.skip(k - at + 1) =~= s@.skip(k + 1));
            } else {
                assert(s@.skip(s@.len() as int) =~= Seq::<char>::empty());
            }
        }
        let ghost rest = names(s@.skip(next as int), system);
        if one.len() > 0 && !crate::text::is_text(&one, ".") {
            r.push(one);
            proof {
                assert(views(r@) =~= before.push(name));
                assert(before + (seq![name] + rest) =~= before.push(name) + rest);
            }
        } else {
            proof {
                assert(before + (Seq::<Seq<char>>::empty() + rest) =~= before + rest);
            }
        }
        at = next;
    }
    proof {
        assert(s@.skip(s@.len() as int) =~= Seq::<char>::empty());
        assert(views(r@) + Seq::<Seq<char>>::empty() =~= views(r@));
    }
    r
}

fn starts_parts(p: &Vec<Vec<char>>, m: &Vec<Vec<char>>) -> (r: bool)
    ensures
        r == (m@.len() <= p@.len() && views(p@).take(m@.len() as int) == views(m@)),
{
    if m.len() > p.len() {
        return false;
    }
    let mut i: usize = 0;
    while i < m.len()
        invariant
            i <= m@.len() <= p@.len(),
            forall|k: int| 0 <= k < i ==> p@[k]@ == #[trigger] m@[k]@,
        decreases m@.len() - i,
    {
        if !crate::text::same_chars(&p[i], &m[i]) {
            proof {
                assert(views(p@).take(m@.len() as int)[i as int] != views(m@)[i as int]);
            }
            return false;
        }
        i = i + 1;
    }
    proof {
        assert(views(p@).take(m@.len() as int) =~= views(m@));
    }
    true
}

/// Is `path` at or below `mount`?
pub fn path_starts_with(path: &str, mount: &str, system: System) -> (r: bool)
    ensures
        r == is_below(path@, mount@, system),
{
    if system == System::Windows {
        let p: String = lowercase(path);
        let m: String = lowercase(mount);
        let a: Vec<Vec<char>> = path_parts(&chars(p.as_str()), system);
        let b: Vec<Vec<char>> = path_parts(&chars(m.as_str()), system);
        starts_parts(&a, &b)
    } else {
        let a: Vec<Vec<char>> = path_parts(&chars(path), system);
        let b: Vec<Vec<char>> = path_parts(&chars(mount), system);
        starts_parts(&a, &b)
    }
}

/// Windows' full paths start with `\\?\`, which its mount points don't.
pub open spec fn plain_path_of(path: Seq<char>) -> Seq<char> {
    if starts(path, "\\\\?\\"@) {
        path.skip(4)
    } else {
        path
    }
}

fn plain_path(path: &str) -> (s: String)
    ensures
        s@ == plain_path_of(path@),
{
    let v: Vec<char> = chars(path);
    proof {
        reveal_strlit("\\\\?\\");
    }
    if starts_with(&v, "\\\\?\\") {
        let rest: Vec<char> = part(&v, 4, v.len());
        assert(rest@ =~= path@.skip(4));
        string(&rest)
    } else {
        path.to_owned()
    }
}

/// The best of some mount points so far (how long it is, and its drive) and one more: the
/// longer one wins, of two as long the later.
pub open spec fn better(best: Option<(nat, Seq<char>)>, len: nat, drive: Seq<char>) -> Option<(nat, Seq<char>)> {
    match best {
        Some((l, _)) => if len >= l {
            Some((len, drive))
        } else {
            best
        },
        None => Some((len, drive)),
    }
}

/// The best of a drive's mount points that `path` is below.
pub open spec fn best_mount(
    best: Option<(nat, Seq<char>)>,
    mounts: Seq<Seq<char>>,
    drive: Seq<char>,
    path: Seq<char>,
    system: System,
) -> Option<(nat, Seq<char>)>
    decreases mounts.len(),
{
    if mounts.len() == 0 {
        best
    } else {
        let before = best_mount(best, mounts.drop_last(), drive, path, system);
        if is_below(path, mounts.last(), system) {
            better(before, encode_utf8(mounts.last()).len(), drive)
        } else {
            before
        }
    }
}

/// The best of all drives' mount points that `path` is below.
pub open spec fn best_of(drives: Seq<Described>, path: Seq<char>, system: System) -> Option<(nat, Seq<char>)>
    decreases drives.len(),
{
    if drives.len() == 0 {
        None
    } else {
        best_mount(
            best_of(drives.drop_last(), path, system),
            drives.last().mountpoints,
            drives.last().path,
            path,
            system,
        )
    }
}

/// Is what is at `path` stored on a file system mounted from drive `d`? The drive with the
/// longest mount point that contains the path wins, so "/" only counts when nothing more
/// specific does.
pub open spec fn is_on(path: Option<Seq<char>>, d: Described, drives: Seq<Described>, system: System) -> bool {
    match path {
        None => false,
        Some(p) => best_of(drives.push(d), plain_path_of(p), system) matches Some((_, drive)) && drive == d.path,
    }
}

struct Best {
    len: usize,
    drive: String,
}

spec fn best_view(b: Option<Best>) -> Option<(nat, Seq<char>)> {
    match b {
        Some(b) => Some((b.len as nat, b.drive@)),
        None => None,
    }
}

fn look_at(best: Option<Best>, d: &Drive, path: &str, system: System) -> (r: Option<Best>)
    ensures
        best_view(r) == best_mount(best_view(best), d@.mountpoints, d@.path, path@, system),
{
    let mut r: Option<Best> = best;
    let mut i: usize = 0;
    let ghost all = d@.mountpoints;
    proof {
        assert(all.take(0) =~= Seq::<Seq<char>>::empty());
    }
    while i < d.mountpoints.len()
        invariant
            i <= d.mountpoints@.len(),
            all == d@.mountpoints,
            best_view(r) == best_mount(best_view(best), all.take(i as int), d@.path, path@, system),
        decreases d.mountpoints@.len() - i,
    {
        proof {
            assert(all.take(i + 1).drop_last() =~= all.take(i as int));
            assert(all.take(i + 1).last() == d.mountpoints@[i as int]@);
        }
        let m: &str = d.mountpoints[i].as_str();
        if path_starts_with(path, m, system) {
            let len: usize = m.as_bytes().len();
            let wins: bool = match &r {
                Some(b) => len >= b.len,
                None => true,
            };
            if wins {
                r = Some(Best { len, drive: d.path.as_str().to_owned() });
            }
        }
        i = i + 1;
    }
    proof {
        assert(all.take(all.len() as int) =~= all);
    }
    r
}

/// Is what is at `path` stored on a file system mounted from drive `d`?
pub fn lives_on(path: Option<&str>, d: &Drive, drives: &[Drive], system: System) -> (r: bool)
    ensures
        r == is_on(
            match path {
                Some(p) => Some(p@),
                None => None,
            },
            d@,
            described(drives@),
            system,
        ),
{
    let full: &str = match path {
        Some(p) => p,
        None => {
            return false;
        },
    };
    let p: String = plain_path(full);
    let mut best: Option<Best> = None;
    let mut i: usize = 0;
    let ghost all = described(drives@);
    proof {
        assert(all.take(0) =~= Seq::<Described>::empty());
    }
    while i < drives.len()
        invariant
            i <= drives@.len(),
            all == described(drives@),
            best_view(best) == best_of(all.take(i as int), p@, system),
        decreases drives@.len() - i,
    {
        proof {
            assert(all.take(i + 1).drop_last() =~= all.take(i as int));
            assert(all.take(i + 1).last() == drives@[i as int]@);
        }
        best = look_at(best, &drives[i], p.as_str(), system);
        i = i + 1;
    }
    proof {
        assert(all.take(all.len() as int) =~= all);
        assert(all.push(d@).drop_last() =~= all);
    }
    best = look_at(best, d, p.as_str(), system);
    match best {
        Some(b) => same(b.drive.as_str(), d.path.as_str()),
        None => false,
    }
}

// What stops a job.

pub open spec fn place(p: Option<String>) -> Option<Seq<char>> {
    match p {
        Some(s) => Some(s@),
        None => None,
    }
}

/// `n` in whole blocks.
pub open spec fn whole_blocks(n: u64, size: u64) -> u64 {
    capped((n + size - 1) / size as int * size)
}

fn padded(n: u64, size: u64) -> (r: u64)
    requires
        size > 0,
    ensures
        r == whole_blocks(n, size),
{
    let q: u64 = n / size;
    let blocks: u128 = if n % size == 0 {
        q as u128
    } else {
        q as u128 + 1
    };
    proof {
        let s = size as int;
        let m = n as int;
        assert((m + s - 1) / s == blocks) by (nonlinear_arith)
            requires
                s > 0,
                m >= 0,
                blocks == (if m % s == 0 {
                    m / s
                } else {
                    m / s + 1
                }),
        ;
        assert(blocks * size <= n + size) by (nonlinear_arith)
            requires
                size > 0,
                blocks <= n / size + 1,
        ;
    }
    let p: u128 = blocks * size as u128;
    if p > u64::MAX as u128 {
        u64::MAX
    } else {
        p as u64
    }
}

impl<'a> Plan<'a> {
    /// What is wrong with the source and the target themselves.
    pub open spec fn ends_problem(&self) -> Option<Seq<char>> {
        match (*self.source, *self.target) {
            (Source::Unset, _) => Some("Choose what to copy from."@),
            (_, Target::Unset) => Some("Choose where to write."@),
            (Source::Drive(a), Target::Drive(b)) => if a.path@ == b.path@ {
                Some("Source and target are the same drive."@)
            } else {
                None
            },
            (Source::File { path, info }, Target::File(_)) => if self.places.same_file {
                Some("Source and target are the same file."@)
            } else {
                None
            },
            (Source::File { path, info }, Target::Drive(d)) => if is_on(
                place(self.places.source),
                d@,
                described(self.drives@),
                self.system,
            ) {
                Some("The source file is stored on "@ + d.name@ + ", the drive you're writing to."@)
            } else {
                None
            },
            (Source::Drive(d), Target::File(_)) => if is_on(
                place(self.places.target),
                d@,
                described(self.drives@),
                self.system,
            ) {
                Some("The image would be saved onto "@ + d.name@ + ", the drive being read."@)
            } else {
                None
            },
            (Source::Zeros, Target::File(_)) => if self.opts.count is None {
                Some("Set a block count in Advanced to limit the file size."@)
            } else {
                None
            },
            _ => None,
        }
    }

    pub open spec fn drive_problem(&self) -> Option<Seq<char>> {
        match *self.target {
            Target::Drive(d) => if d.system {
                Some(d.name@ + " holds your operating system and can't be overwritten."@)
            } else if d.read_only {
                Some(d.name@ + " is read-only."@)
            } else {
                None
            },
            _ => None,
        }
    }

    pub open spec fn size_problem(&self) -> Option<Seq<char>> {
        let o = self.opts;
        if self.unpacks() && (o.count is Some || o.skip is Some || o.seek is Some) {
            Some(
                "Count, skip and seek don't apply when writing compressed or DD-GUI images. Clear them in Advanced."@,
            )
        } else {
            match (self.total_of(), self.room_of()) {
                (Some(total), Some(room)) => if self.pads() && whole_blocks(total, self.block_size_of()) > room {
                    Some(
                        "The image ends mid-block and won't fit once padded. Pick a smaller block size in Advanced."@,
                    )
                } else if total > room {
                    Some(
                        "The source ("@ + bytes_of(total) + ") doesn't fit on the target drive ("@ + bytes_of(room)
                            + ")."@,
                    )
                } else {
                    None
                },
                _ => None,
            }
        }
    }

    /// Anything that stops the job from starting, in plain words.
    pub open spec fn problem_of(&self) -> Option<Seq<char>> {
        if self.ends_problem() is Some {
            self.ends_problem()
        } else if self.drive_problem() is Some {
            self.drive_problem()
        } else {
            self.size_problem()
        }
    }

    fn check_ends(&self) -> (r: Option<String>)
        ensures
            match r {
                Some(s) => self.ends_problem() == Some(s@),
                None => self.ends_problem() is None,
            },
    {
        match (self.source, self.target) {
            (Source::Unset, _) => Some("Choose what to copy from.".to_owned()),
            (_, Target::Unset) => Some("Choose where to write.".to_owned()),
            (Source::Drive(a), Target::Drive(b)) => {
                if same(a.path.as_str(), b.path.as_str()) {
                    Some("Source and target are the same drive.".to_owned())
                } else {
                    None
                }
            },
            (Source::File { path, info }, Target::File(_)) => {
                if self.places.same_file {
                    Some("Source and target are the same file.".to_owned())
                } else {
                    None
                }
            },
            (Source::File { path, info }, Target::Drive(d)) => {
                let at: Option<&str> = match &self.places.source {
                    Some(s) => Some(s.as_str()),
                    None => None,
                };
                if lives_on(at, d, self.drives, self.system) {
                    let mut s: String = "The source file is stored on ".to_owned();
                    s.append(d.name.as_str());
                    s.append(", the drive you're writing to.");
                    Some(s)
                } else {
                    None
                }
            },
            (Source::Drive(d), Target::File(_)) => {
                let at: Option<&str> = match &self.places.target {
                    Some(s) => Some(s.as_str()),
                    None => None,
                };
                if lives_on(at, d, self.drives, self.system) {
                    let mut s: String = "The image would be saved onto ".to_owned();
                    s.append(d.name.as_str());
                    s.append(", the drive being read.");
                    Some(s)
                } else {
                    None
                }
            },
            (Source::Zeros, Target::File(_)) => {
                if self.opts.count.is_none() {
                    Some("Set a block count in Advanced to limit the file size.".to_owned())
                } else {
                    None
                }
            },
            (Source::Zeros, Target::Drive(_)) => None,
        }
    }

    fn check_sizes(&self) -> (r: Option<String>)
        requires
            self.block_size_of() > 0,
        ensures
            match r {
                Some(s) => self.size_problem() == Some(s@),
                None => self.size_problem() is None,
            },
    {
        let o: &Options = self.opts;
        if self.restores_image() && (o.count.is_some() || o.skip.is_some() || o.seek.is_some()) {
            return Some(
                "Count, skip and seek don't apply when writing compressed or DD-GUI images. Clear them in Advanced.".to_owned(),
            );
        }
        match (self.total_bytes(), self.target_room()) {
            (Some(total), Some(room)) => {
                if self.pads_last_block() && padded(total, self.block_size()) > room {
                    return Some(
                        "The image ends mid-block and won't fit once padded. Pick a smaller block size in Advanced.".to_owned(),
                    );
                }
                if total > room {
                    let mut s: String = "The source (".to_owned();
                    s.append(fmt::bytes(total).as_str());
                    s.append(") doesn't fit on the target drive (");
                    s.append(fmt::bytes(room).as_str());
                    s.append(").");
                    return Some(s);
                }
                None
            },
            _ => None,
        }
    }

    /// Anything that stops the job from starting, in plain words.
    pub fn problem(&self) -> (r: Option<String>)
        requires
            self.block_size_of() > 0,
        ensures
            match r {
                Some(s) => self.problem_of() == Some(s@),
                None => self.problem_of() is None,
            },
    {
        if let Some(s) = self.check_ends() {
            return Some(s);
        }
        if let Target::Drive(d) = self.target {
            if d.system {
                let mut s: String = d.name.as_str().to_owned();
                s.append(" holds your operating system and can't be overwritten.");
                return Some(s);
            }
            if d.read_only {
                let mut s: String = d.name.as_str().to_owned();
                s.append(" is read-only.");
                return Some(s);
            }
        }
        self.check_sizes()
    }

    pub open spec fn note_of(&self) -> Option<Seq<char>> {
        match *self.source {
            Source::File { path, info } => if info.smart is Some && self.target is Drive {
                Some("DD-GUI smart image: only the space in use gets written, so this is quick."@)
            } else if info.smart is None && info.format == ImageFormat::Raw {
                None
            } else if self.target is Drive {
                if is_virtual(info.format) {
                    Some("Virtual disk: DD-GUI turns it into a plain disk while writing."@)
                } else {
                    Some("Compressed image: DD-GUI unpacks it while writing."@)
                }
            } else {
                Some("Packed image: it gets copied as-is. Write it to a drive to unpack it."@)
            },
            _ => None,
        }
    }

    /// Worth knowing, but doesn't stop the job.
    pub fn note(&self) -> (r: Option<String>)
        ensures
            match r {
                Some(s) => self.note_of() == Some(s@),
                None => self.note_of() is None,
            },
    {
        match self.source {
            Source::File { path, info } => {
                if info.smart.is_some() && self.to_drive() {
                    Some("DD-GUI smart image: only the space in use gets written, so this is quick.".to_owned())
                } else if info.smart.is_none() && info.format == ImageFormat::Raw {
                    None
                } else if self.to_drive() {
                    if virtual_disk(info.format) {
                        Some("Virtual disk: DD-GUI turns it into a plain disk while writing.".to_owned())
                    } else {
                        Some("Compressed image: DD-GUI unpacks it while writing.".to_owned())
                    }
                } else {
                    Some("Packed image: it gets copied as-is. Write it to a drive to unpack it.".to_owned())
                }
            },
            _ => None,
        }
    }

    /// Reading or writing a drive needs admin rights (on Windows the whole app has them).
    /// `root` if the program has them already.
    pub fn needs_elevation(&self, root: bool) -> (r: bool)
        ensures
            r == (self.system != System::Windows && !root && (self.source is Drive || self.target is Drive)),
    {
        if self.system == System::Windows || root {
            return false;
        }
        self.from_drive() || self.to_drive()
    }

    pub open spec fn action_of(&self) -> Seq<char> {
        match (*self.source, *self.target) {
            (Source::File { path, info }, Target::Drive(_)) => "Write to drive"@,
            (Source::Drive(_), Target::File(_)) => "Create image"@,
            (Source::Drive(_), Target::Drive(_)) => "Clone drive"@,
            (Source::Zeros, Target::Drive(_)) => "Wipe drive"@,
            (Source::File { path, info }, Target::File(_)) => "Copy file"@,
            (Source::Zeros, Target::File(_)) => "Write zeros"@,
            _ => "Start"@,
        }
    }

    pub fn action(&self) -> (s: &'static str)
        ensures
            s@ == self.action_of(),
    {
        match (self.source, self.target) {
            (Source::File { path, info }, Target::Drive(_)) => "Write to drive",
            (Source::Drive(_), Target::File(_)) => "Create image",
            (Source::Drive(_), Target::Drive(_)) => "Clone drive",
            (Source::Zeros, Target::Drive(_)) => "Wipe drive",
            (Source::File { path, info }, Target::File(_)) => "Copy file",
            (Source::Zeros, Target::File(_)) => "Write zeros",
            _ => "Start",
        }
    }
}

// What holds of every plan.

/// A job that may start never writes the drive that holds the operating system, a drive that
/// is read-only, or the drive it reads.
pub proof fn law_started_jobs_spare_what_they_must<'a>(p: Plan<'a>, d: Drive)
    requires
        p.problem_of() is None,
        *p.target == Target::Drive(d),
    ensures
        !d.system,
        !d.read_only,
        !(p.source matches Source::Drive(s) && s.path@ == d.path@),
        !(p.source is File && is_on(place(p.places.source), d@, described(p.drives@), p.system)),
{
}

/// A job that may start fits on its drive, as far as its size is known.
pub proof fn law_started_jobs_fit<'a>(p: Plan<'a>)
    requires
        p.problem_of() is None,
        p.target is Drive,
        p.total_of() is Some,
    ensures
        p.total_of()->0 <= p.room_of()->0,
{
}

/// A wipe ends where the drive does: what it starts behind and what it writes are no more than
/// the drive holds.
pub proof fn law_wipes_end_with_the_drive<'a>(p: Plan<'a>, d: Drive)
    requires
        p.source is Zeros,
        *p.target == Target::Drive(d),
        p.opts.count is None,
    ensures
        p.total_of() == p.room_of(),
        p.total_of()->0 <= d.size,
        (match p.opts.seek {
            Some(n) => n as int,
            None => 0,
        }) * p.block_size_of() <= d.size ==> p.total_of()->0 + (match p.opts.seek {
            Some(n) => n as int,
            None => 0,
        }) * p.block_size_of() == d.size,
{
}

// The command that is shown.

/// A dd operand's name?
pub open spec fn is_key(k: Seq<char>) -> bool {
    k.len() >= 2 && forall|i: int| 0 <= i < k.len() ==> 'a' <= #[trigger] k[i] <= 'z'
}

spec fn keyed(ops: Seq<(Seq<char>, Seq<char>)>) -> bool {
    forall|i: int| 0 <= i < ops.len() ==> is_key((#[trigger] ops[i]).0)
}

proof fn lemma_keyed_both(a: Seq<(Seq<char>, Seq<char>)>, b: Seq<(Seq<char>, Seq<char>)>)
    requires
        keyed(a),
        keyed(b),
    ensures
        keyed(a + b),
{
}

proof fn lemma_operand_keys<'a>(p: Plan<'a>)
    ensures
        keyed(p.operands_of()),
{
    reveal_strlit("if");
    reveal_strlit("of");
    reveal_strlit("bs");
    reveal_strlit("count");
    reveal_strlit("skip");
    reveal_strlit("seek");
    reveal_strlit("iflag");
    reveal_strlit("oflag");
    reveal_strlit("conv");
    reveal_strlit("status");
    let a = p.input_ops();
    let b = p.output_ops();
    let c = one("bs"@, block_size_of(p.block_size_of()));
    let d = p.count_ops();
    let e = blocks("skip"@, p.opts.skip);
    let f = blocks("seek"@, p.opts.seek);
    let g = flags("iflag"@, p.input_flags());
    let h = if direct_io(p.system) && p.target is Drive {
        one("oflag"@, "direct"@)
    } else {
        nothing()
    };
    let k = flags("conv"@, p.conversions());
    let l = one("status"@, "progress"@);
    lemma_keyed_both(a, b);
    lemma_keyed_both(a + b, c);
    lemma_keyed_both(a + b + c, d);
    lemma_keyed_both(a + b + c + d, e);
    lemma_keyed_both(a + b + c + d + e, f);
    lemma_keyed_both(a + b + c + d + e + f, g);
    lemma_keyed_both(a + b + c + d + e + f + g, h);
    lemma_keyed_both(a + b + c + d + e + f + g + h, k);
    lemma_keyed_both(a + b + c + d + e + f + g + h + k, l);
}

proof fn lemma_plain_is_read(a: Seq<char>, b: Seq<char>)
    requires
        all_plain(a),
    ensures
        shell_reads(a + b, false) == a + shell_reads(b, false),
    decreases a.len(),
{
    if a.len() == 0 {
        assert(a + b =~= b);
        assert(a + shell_reads(b, false) =~= shell_reads(b, false));
    } else {
        assert(is_plain(a[0]));
        let more = a.skip(1);
        assert forall|i: int| 0 <= i < more.len() implies is_plain(#[trigger] more[i]) by {
            assert(more[i] == a[i + 1]);
        }
        lemma_plain_is_read(more, b);
        assert((a + b)[0] == a[0]);
        assert((a + b).skip(1) =~= more + b);
        assert(seq![a[0]] + (more + shell_reads(b, false)) =~= a + shell_reads(b, false));
    }
}

/// A shell gets a word of the command that is shown as it is, whatever is in it.
pub proof fn law_shown_words_are_kept(word: Seq<char>, system: System)
    requires
        system != System::Windows,
    ensures
        shell_reads(quoted(word, system), false) == word,
{
    if word.len() > 0 && all_plain(word) {
        lemma_plain_is_read(word, Seq::empty());
        assert(word + Seq::<char>::empty() =~= word);
        assert(word + shell_reads(Seq::<char>::empty(), false) =~= word);
    } else {
        law_quoted_words_are_kept(word);
    }
}

/// Typed into a shell, each operand that is shown is the operand that dd is given.
pub proof fn law_shown_operands_are_given<'a>(p: Plan<'a>, i: int)
    requires
        0 <= i < p.operands_of().len(),
        p.system != System::Windows,
    ensures
        shell_reads(typed(p.operands_of()[i], p.system), false) == p.operands_of()[i].0 + "="@
            + p.operands_of()[i].1,
{
    let (k, v) = p.operands_of()[i];
    lemma_operand_keys(p);
    assert(is_key(p.operands_of()[i].0));
    reveal_strlit("");
    reveal_strlit("_");
    reveal_strlit("=");
    let name = k + "="@;
    assert forall|j: int| 0 <= j < name.len() implies is_plain(#[trigger] name[j]) by {
        if j < k.len() {
            assert('a' <= k[j] <= 'z');
        }
    }
    lemma_plain_is_read(name, quoted(v, p.system));
    law_shown_words_are_kept(v, p.system);
}

/// The command that is shown is the one that runs: dd and the operands it is given, then a flush
/// of the drive. (Packed images are unpacked on the way, for which a pipeline is shown.)
pub proof fn law_shown_command_is_run<'a>(p: Plan<'a>)
    requires
        !p.unpacks(),
    ensures
        p.words_of() == one(""@, "dd"@) + p.operands_of() + p.sync_words(),
{
    let dd = one(""@, "dd"@) + p.operands_of() + p.sync_words();
    assert(nothing() + dd =~= dd);
}

// What dd is asked to do.

/// What operands ask for under a name: the last one counts.
pub open spec fn asked(ops: Seq<(Seq<char>, Seq<char>)>, key: Seq<char>) -> Option<Seq<char>>
    decreases ops.len(),
{
    if ops.len() == 0 {
        None
    } else if ops.last().0 == key {
        Some(ops.last().1)
    } else {
        asked(ops.drop_last(), key)
    }
}

/// Is nothing asked for twice?
pub open spec fn asked_once(ops: Seq<(Seq<char>, Seq<char>)>) -> bool {
    forall|i: int, j: int| 0 <= i < j < ops.len() ==> (#[trigger] ops[i]).0 != (#[trigger] ops[j]).0
}

/// A size as dd reads it: a number, and K, M or G for how many bytes each of it is.
pub open spec fn dd_size(s: Seq<char>) -> nat {
    if s.len() == 0 {
        0
    } else if s.last() == 'K' {
        value(s.drop_last()) * 0x400
    } else if s.last() == 'M' {
        value(s.drop_last()) * 0x10_0000
    } else if s.last() == 'G' {
        value(s.drop_last()) * 0x4000_0000
    } else {
        value(s)
    }
}

/// dd reads a block size as the number of bytes that it is.
pub proof fn law_dd_reads_block_sizes(n: u64)
    ensures
        dd_size(block_size_of(n)) == n,
{
    reveal_strlit("G");
    reveal_strlit("M");
    reveal_strlit("K");
    let g = (n / 0x4000_0000) as nat;
    let m = (n / 0x10_0000) as nat;
    let k = (n / 0x400) as nat;
    law_decimal_round_trip(g);
    law_decimal_round_trip(m);
    law_decimal_round_trip(k);
    law_decimal_round_trip(n as nat);
    assert((decimal(g) + "G"@).drop_last() =~= decimal(g));
    assert((decimal(m) + "M"@).drop_last() =~= decimal(m));
    assert((decimal(k) + "K"@).drop_last() =~= decimal(k));
    assert((decimal(g) + "G"@).last() == 'G');
    assert((decimal(m) + "M"@).last() == 'M');
    assert((decimal(k) + "K"@).last() == 'K');
    assert(is_digit(decimal(n as nat)[decimal(n as nat).len() - 1]));
    if n >= 0x4000_0000 && n % 0x4000_0000 == 0 {
        assert(dd_size(block_size_of(n)) == g * 0x4000_0000);
    } else if n >= 0x10_0000 && n % 0x10_0000 == 0 {
        assert(dd_size(block_size_of(n)) == m * 0x10_0000);
    } else if n >= 0x400 && n % 0x400 == 0 {
        assert(dd_size(block_size_of(n)) == k * 0x400);
    } else {
        assert(dd_size(block_size_of(n)) == n);
    }
}

/// At most one operand, of that name.
spec fn at_most_one(seg: Seq<(Seq<char>, Seq<char>)>, key: Seq<char>) -> bool {
    seg.len() == 0 || (seg.len() == 1 && seg[0].0 == key)
}

spec fn value_in(seg: Seq<(Seq<char>, Seq<char>)>) -> Option<Seq<char>> {
    if seg.len() == 0 {
        None
    } else {
        Some(seg[0].1)
    }
}

proof fn lemma_asked_more(
    ops: Seq<(Seq<char>, Seq<char>)>,
    seg: Seq<(Seq<char>, Seq<char>)>,
    name: Seq<char>,
    key: Seq<char>,
)
    requires
        at_most_one(seg, name),
    ensures
        asked(ops + seg, key) == (if seg.len() > 0 && name == key {
            value_in(seg)
        } else {
            asked(ops, key)
        }),
        asked_once(ops) && asked(ops, name) is None ==> asked_once(ops + seg),
{
    if seg.len() == 0 {
        assert(ops + seg =~= ops);
    } else {
        assert((ops + seg).drop_last() =~= ops);
        if asked_once(ops) && asked(ops, name) is None {
            lemma_not_asked(ops, name);
        }
    }
}

proof fn lemma_not_asked(ops: Seq<(Seq<char>, Seq<char>)>, key: Seq<char>)
    requires
        asked(ops, key) is None,
    ensures
        forall|i: int| 0 <= i < ops.len() ==> (#[trigger] ops[i]).0 != key,
    decreases ops.len(),
{
    if ops.len() > 0 {
        lemma_not_asked(ops.drop_last(), key);
        assert forall|i: int| 0 <= i < ops.len() implies (#[trigger] ops[i]).0 != key by {
            if i < ops.len() - 1 {
                assert(ops.drop_last()[i].0 != key);
            }
        }
    }
}

proof fn lemma_names_differ()
    ensures
        "if"@ != "of"@,
        "if"@ != "bs"@,
        "of"@ != "bs"@,
        "skip"@ != "seek"@,
        "skip"@ != "conv"@,
        "seek"@ != "conv"@,
        "count"@ != "iflag"@,
        "count"@ != "oflag"@,
        "iflag"@ != "oflag"@,
        "if"@.len() == 2,
        "of"@.len() == 2,
        "bs"@.len() == 2,
        "skip"@.len() == 4,
        "seek"@.len() == 4,
        "conv"@.len() == 4,
        "count"@.len() == 5,
        "iflag"@.len() == 5,
        "oflag"@.len() == 5,
        "status"@.len() == 6,
{
    reveal_strlit("if");
    reveal_strlit("of");
    reveal_strlit("bs");
    reveal_strlit("count");
    reveal_strlit("skip");
    reveal_strlit("seek");
    reveal_strlit("iflag");
    reveal_strlit("oflag");
    reveal_strlit("conv");
    reveal_strlit("status");
    assert("if"@[0] == 'i' && "of"@[0] == 'o' && "bs"@[0] == 'b');
    assert("skip"@[1] == 'k' && "seek"@[1] == 'e' && "conv"@[1] == 'o');
    assert("count"@[0] == 'c' && "iflag"@[0] == 'i' && "oflag"@[0] == 'o');
}

#[verifier::spinoff_prover]
#[verifier::rlimit(60)]
proof fn lemma_asked<'a>(p: Plan<'a>, key: Seq<char>)
    ensures
        asked_once(p.operands_of()),
        key == "if"@ ==> asked(p.operands_of(), key) == value_in(p.input_ops()),
        key == "of"@ ==> asked(p.operands_of(), key) == value_in(p.output_ops()),
        key == "bs"@ ==> asked(p.operands_of(), key) == Some(block_size_of(p.block_size_of())),
        key == "count"@ ==> asked(p.operands_of(), key) == value_in(p.count_ops()),
        key == "skip"@ ==> asked(p.operands_of(), key) == value_in(blocks("skip"@, p.opts.skip)),
        key == "seek"@ ==> asked(p.operands_of(), key) == value_in(blocks("seek"@, p.opts.seek)),
        key == "iflag"@ ==> asked(p.operands_of(), key) == value_in(flags("iflag"@, p.input_flags())),
        key == "oflag"@ ==> asked(p.operands_of(), key) == (if direct_io(p.system) && p.target is Drive {
            Some("direct"@)
        } else {
            None
        }),
        key == "conv"@ ==> asked(p.operands_of(), key) == value_in(flags("conv"@, p.conversions())),
{
    lemma_names_differ();
    let a = p.input_ops();
    let b = p.output_ops();
    let c = one("bs"@, block_size_of(p.block_size_of()));
    let d = p.count_ops();
    let e = blocks("skip"@, p.opts.skip);
    let f = blocks("seek"@, p.opts.seek);
    let g = flags("iflag"@, p.input_flags());
    let h = if direct_io(p.system) && p.target is Drive {
        one("oflag"@, "direct"@)
    } else {
        nothing()
    };
    let k = flags("conv"@, p.conversions());
    let l = one("status"@, "progress"@);
    lemma_segments(a, b, c, d, e, f, g, h, k, l, key);
}

#[verifier::spinoff_prover]
#[verifier::rlimit(60)]
proof fn lemma_segments(
    a: Seq<(Seq<char>, Seq<char>)>,
    b: Seq<(Seq<char>, Seq<char>)>,
    c: Seq<(Seq<char>, Seq<char>)>,
    d: Seq<(Seq<char>, Seq<char>)>,
    e: Seq<(Seq<char>, Seq<char>)>,
    f: Seq<(Seq<char>, Seq<char>)>,
    g: Seq<(Seq<char>, Seq<char>)>,
    h: Seq<(Seq<char>, Seq<char>)>,
    k: Seq<(Seq<char>, Seq<char>)>,
    l: Seq<(Seq<char>, Seq<char>)>,
    key: Seq<char>,
)
    requires
        at_most_one(a, "if"@),
        at_most_one(b, "of"@),
        at_most_one(c, "bs"@),
        at_most_one(d, "count"@),
        at_most_one(e, "skip"@),
        at_most_one(f, "seek"@),
        at_most_one(g, "iflag"@),
        at_most_one(h, "oflag"@),
        at_most_one(k, "conv"@),
        at_most_one(l, "status"@),
    ensures
        asked_once(a + b + c + d + e + f + g + h + k + l),
        key == "if"@ ==> asked(a + b + c + d + e + f + g + h + k + l, key) == value_in(a),
        key == "of"@ ==> asked(a + b + c + d + e + f + g + h + k + l, key) == value_in(b),
        key == "bs"@ ==> asked(a + b + c + d + e + f + g + h + k + l, key) == value_in(c),
        key == "count"@ ==> asked(a + b + c + d + e + f + g + h + k + l, key) == value_in(d),
        key == "skip"@ ==> asked(a + b + c + d + e + f + g + h + k + l, key) == value_in(e),
        key == "seek"@ ==> asked(a + b + c + d + e + f + g + h + k + l, key) == value_in(f),
        key == "iflag"@ ==> asked(a + b + c + d + e + f + g + h + k + l, key) == value_in(g),
        key == "oflag"@ ==> asked(a + b + c + d + e + f + g + h + k + l, key) == value_in(h),
        key == "conv"@ ==> asked(a + b + c + d + e + f + g + h + k + l, key) == value_in(k),
{
    lemma_names_differ();
    let none = nothing();
    assert(none + a =~= a);
    let segs = seq![a, b, c, d, e, f, g, h, k, l];
    let names = seq![
        "if"@,
        "of"@,
        "bs"@,
        "count"@,
        "skip"@,
        "seek"@,
        "iflag"@,
        "oflag"@,
        "conv"@,
        "status"@,
    ];
    lemma_chain(segs, names, 10, key);
    assert(chain(segs, 10) =~= a + b + c + d + e + f + g + h + k + l) by {
        reveal_with_fuel(chain, 11);
    }
    if key == "if"@ {
        assert(names[0] == key);
    }
    if key == "of"@ {
        assert(names[1] == key);
    }
    if key == "bs"@ {
        assert(names[2] == key);
    }
    if key == "count"@ {
        assert(names[3] == key);
    }
    if key == "skip"@ {
        assert(names[4] == key);
    }
    if key == "seek"@ {
        assert(names[5] == key);
    }
    if key == "iflag"@ {
        assert(names[6] == key);
    }
    if key == "oflag"@ {
        assert(names[7] == key);
    }
    if key == "conv"@ {
        assert(names[8] == key);
    }
}

spec fn chain(segs: Seq<Seq<(Seq<char>, Seq<char>)>>, n: nat) -> Seq<(Seq<char>, Seq<char>)>
    decreases n,
{
    if n == 0 {
        nothing()
    } else {
        chain(segs, (n - 1) as nat) + segs[n - 1]
    }
}

proof fn lemma_chain(segs: Seq<Seq<(Seq<char>, Seq<char>)>>, names: Seq<Seq<char>>, n: nat, key: Seq<char>)
    requires
        n <= segs.len(),
        segs.len() == names.len(),
        forall|i: int| 0 <= i < segs.len() ==> at_most_one(#[trigger] segs[i], names[i]),
        forall|i: int, j: int| 0 <= i < j < names.len() ==> #[trigger] names[i] != #[trigger] names[j],
    ensures
        asked_once(chain(segs, n)),
        forall|i: int| 0 <= i < n && #[trigger] names[i] == key ==> asked(chain(segs, n), key) == value_in(segs[i]),
        (forall|i: int| 0 <= i < n ==> #[trigger] names[i] != key) ==> asked(chain(segs, n), key) is None,
    decreases n,
{
    if n > 0 {
        let m = (n - 1) as nat;
        lemma_chain(segs, names, m, key);
        lemma_chain(segs, names, m, names[m as int]);
        assert forall|i: int| 0 <= i < m implies #[trigger] names[i] != names[m as int] by {}
        assert(at_most_one(segs[m as int], names[m as int]));
        lemma_asked_more(chain(segs, m), segs[m as int], names[m as int], key);
        assert forall|i: int| 0 <= i < n && #[trigger] names[i] == key implies asked(chain(segs, n), key) == value_in(
            segs[i],
        ) by {
            if i < m {
                assert(names[m as int] != names[i]);
            } else {
                assert forall|j: int| 0 <= j < m implies #[trigger] names[j] != key by {}
            }
        }
    }
}

/// dd is asked to pass over as many blocks of the input as "skip" says and as many of the output
/// as "seek" says, each under its own name and only if it says any; and nothing is asked twice.
pub proof fn law_dd_skips_and_seeks<'a>(p: Plan<'a>)
    ensures
        asked_once(p.operands_of()),
        asked(p.operands_of(), "skip"@) == (match p.opts.skip {
            Some(n) => if n > 0 {
                Some(decimal(n as nat))
            } else {
                None
            },
            None => None,
        }),
        asked(p.operands_of(), "seek"@) == (match p.opts.seek {
            Some(n) => if n > 0 {
                Some(decimal(n as nat))
            } else {
                None
            },
            None => None,
        }),
{
    lemma_asked(p, "skip"@);
    lemma_asked(p, "seek"@);
}

/// dd reads the source and writes the target, in blocks of the size that was chosen (or of
/// 4 MiB, and 16 MiB for zeros).
pub proof fn law_dd_copies_the_source_to_the_target<'a>(p: Plan<'a>)
    ensures
        *p.source matches Source::Drive(d) ==> asked(p.operands_of(), "if"@) == Some(d.io_path@),
        *p.source is Zeros ==> asked(p.operands_of(), "if"@) == Some("/dev/zero"@),
        *p.source matches Source::File { path, info } ==> asked(p.operands_of(), "if"@) == (if p.target is Drive && (
        info.format != ImageFormat::Raw || info.smart is Some) {
            None
        } else {
            Some(path@)
        }),
        *p.target matches Target::Drive(d) ==> asked(p.operands_of(), "of"@) == Some(d.io_path@),
        *p.target matches Target::File(path) ==> asked(p.operands_of(), "of"@) == Some(path@),
        asked(p.operands_of(), "bs"@) is Some,
        dd_size(asked(p.operands_of(), "bs"@)->0) == (match p.opts.block_size {
            Some(n) => n as int,
            None => if p.source is Zeros {
                0x100_0000
            } else {
                0x40_0000
            },
        }),
{
    lemma_asked(p, "if"@);
    lemma_asked(p, "of"@);
    lemma_asked(p, "bs"@);
    law_dd_reads_block_sizes(p.block_size_of());
}

/// dd stops after as many blocks as "count" says. A wipe without one stops, to the byte, where
/// the drive ends.
pub proof fn law_dd_counts<'a>(p: Plan<'a>)
    ensures
        p.opts.count matches Some(n) ==> asked(p.operands_of(), "count"@) == Some(decimal(n as nat)) && !(asked(
            p.operands_of(),
            "iflag"@,
        ) == Some("count_bytes"@)),
        p.opts.count is None && p.source is Zeros ==> (*p.target matches Target::Drive(d) ==> {
            let start = (match p.opts.seek {
                Some(n) => n as int,
                None => 0,
            }) * (match p.opts.block_size {
                Some(n) => n as int,
                None => 0x100_0000,
            });
            &&& asked(p.operands_of(), "iflag"@) == Some("count_bytes"@)
            &&& start <= d.size ==> asked(p.operands_of(), "count"@) == Some(decimal((d.size - start) as nat))
            &&& start > d.size ==> asked(p.operands_of(), "count"@) == Some(decimal(0))
        }),
        p.opts.count is None && !(p.source is Zeros && p.target is Drive) ==> asked(p.operands_of(), "count"@) is None,
{
    lemma_asked(p, "count"@);
    lemma_asked(p, "iflag"@);
    reveal_strlit("count_bytes");
    reveal_strlit("direct");
    let bytes = some_of(p.counts_bytes(), seq!["count_bytes"@]);
    let direct = some_of(direct_io(p.system) && p.source is Drive, seq!["direct"@]);
    assert(p.input_flags() == bytes + direct);
    if p.counts_bytes() {
        assert(bytes + direct =~= seq!["count_bytes"@]);
        assert(join(seq!["count_bytes"@], ","@) == "count_bytes"@);
    } else if direct_io(p.system) && p.source is Drive {
        assert(bytes + direct =~= seq!["direct"@]);
        assert(join(seq!["direct"@], ","@) == "direct"@);
        assert("direct"@.len() != "count_bytes"@.len());
    } else {
        assert((bytes + direct).len() == 0);
    }
}

/// Drives are read and written past the cache on Linux, and on no other system.
pub proof fn law_drives_are_read_directly<'a>(p: Plan<'a>)
    ensures
        asked(p.operands_of(), "oflag"@) == (if p.system == System::Linux && p.target is Drive {
            Some("direct"@)
        } else {
            None
        }),
        p.source is Drive ==> asked(p.operands_of(), "iflag"@) == (if p.system == System::Linux {
            Some("direct"@)
        } else {
            None
        }),
{
    lemma_asked(p, "oflag"@);
    lemma_asked(p, "iflag"@);
    let bytes = some_of(p.counts_bytes(), seq!["count_bytes"@]);
    let direct = some_of(direct_io(p.system) && p.source is Drive, seq!["direct"@]);
    assert(p.input_flags() == bytes + direct);
    if p.source is Drive {
        if direct_io(p.system) {
            assert(bytes + direct =~= seq!["direct"@]);
            assert(join(seq!["direct"@], ","@) == "direct"@);
        } else {
            assert((bytes + direct).len() == 0);
        }
    }
}

/// How many bytes there are to copy: what the source holds behind the blocks that are passed
/// over, and no more than the count allows.
pub proof fn law_totals_are_what_dd_copies<'a>(p: Plan<'a>, size: u64)
    requires
        match *p.source {
            Source::Drive(d) => size == d.size,
            Source::File { path, info } => if p.target is Drive && info.smart is Some {
                size == info.smart->0.disk_size
            } else if p.target is Drive && info.format != ImageFormat::Raw {
                info.uncompressed == Some(size)
            } else {
                size == info.size
            },
            _ => false,
        },
    ensures
        p.total_of() is Some,
        ({
            let block = p.block_size_of() as int;
            let skipped = (match p.opts.skip {
                Some(n) => n as int,
                None => 0,
            }) * block;
            let left = if skipped <= size {
                size - skipped
            } else {
                0
            };
            match p.opts.count {
                Some(n) => if n * block <= left {
                    p.total_of()->0 == n * block
                } else {
                    p.total_of()->0 == left
                },
                None => p.total_of()->0 == left,
            }
        }),
{
}

/// What is written lies on the drive: behind the blocks of it that are passed over, all that is
/// copied fits. (Padded to whole blocks, too, where the system takes whole sectors only.)
pub proof fn law_started_jobs_end_on_the_drive<'a>(p: Plan<'a>, d: Drive)
    requires
        p.problem_of() is None,
        *p.target == Target::Drive(d),
        p.total_of() is Some,
        p.total_of()->0 > 0,
        p.block_size_of() > 0,
        d.size < u64::MAX,
    ensures
        ({
            let start = (match p.opts.seek {
                Some(n) => n as int,
                None => 0,
            }) * p.block_size_of();
            let total = p.total_of()->0 as int;
            &&& start + total <= d.size
            &&& (p.system == System::Windows || p.system == System::Macos) && !p.opts.noerror && total % 4096 != 0
                ==> start + (total + p.block_size_of() - 1) / p.block_size_of() as int * p.block_size_of() <= d.size
        }),
{
    let block = p.block_size_of() as int;
    let total = p.total_of()->0 as int;
    let whole = (total + block - 1) / block * block;
    assert(whole >= total) by (nonlinear_arith)
        requires
            whole == (total + block - 1) / block * block,
            block > 0,
    ;
}

// Where files may be.

proof fn lemma_best_mount(
    best: Option<(nat, Seq<char>)>,
    mounts: Seq<Seq<char>>,
    drive: Seq<char>,
    path: Seq<char>,
    system: System,
)
    ensures
        ({
            let r = best_mount(best, mounts, drive, path, system);
            ||| r == best && forall|k: int|
                0 <= k < mounts.len() && is_below(path, #[trigger] mounts[k], system) ==> (best matches Some((l, _)) && l
                    > encode_utf8(mounts[k]).len())
            ||| exists|k: int|
                0 <= k < mounts.len() && is_below(path, #[trigger] mounts[k], system) && r == Some(
                    (encode_utf8(mounts[k]).len(), drive),
                )
        }),
    decreases mounts.len(),
{
    if mounts.len() > 0 {
        let before = mounts.drop_last();
        lemma_best_mount(best, before, drive, path, system);
        let r0 = best_mount(best, before, drive, path, system);
        let r = best_mount(best, mounts, drive, path, system);
        let last = mounts.len() - 1;
        let m = mounts[last];
        if is_below(path, m, system) && r == Some((encode_utf8(m).len(), drive)) {
            assert(is_below(path, mounts[last], system));
        } else if exists|k: int|
            0 <= k < before.len() && is_below(path, #[trigger] before[k], system) && r0 == Some(
                (encode_utf8(before[k]).len(), drive),
            ) {
            let k = choose|k: int|
                0 <= k < before.len() && is_below(path, #[trigger] before[k], system) && r0 == Some(
                    (encode_utf8(before[k]).len(), drive),
                );
            assert(is_below(path, mounts[k], system));
            assert(r == r0);
        } else {
            assert forall|k: int| 0 <= k < mounts.len() && is_below(path, #[trigger] mounts[k], system) implies (
            best matches Some((l, _)) && l > encode_utf8(mounts[k]).len()) by {
                if k < last {
                    assert(is_below(path, before[k], system));
                }
            }
        }
    }
}

proof fn lemma_best_of(drives: Seq<Described>, path: Seq<char>, system: System)
    ensures
        best_of(drives, path, system) matches Some((l, name)) ==> exists|i: int, j: int|
            {
                &&& 0 <= i < drives.len()
                &&& 0 <= j < drives[i].mountpoints.len()
                &&& is_below(path, #[trigger] drives[i].mountpoints[j], system)
                &&& l == encode_utf8(drives[i].mountpoints[j]).len()
                &&& name == drives[i].path
            },
    decreases drives.len(),
{
    if drives.len() > 0 {
        let before = drives.drop_last();
        let last = drives.len() - 1;
        lemma_best_of(before, path, system);
        let best = best_of(before, path, system);
        lemma_best_mount(best, drives[last].mountpoints, drives[last].path, path, system);
        let r = best_of(drives, path, system);
        if let Some((l, name)) = r {
            if exists|k: int|
                0 <= k < drives[last].mountpoints.len() && is_below(
                    path,
                    #[trigger] drives[last].mountpoints[k],
                    system,
                ) && r == Some((encode_utf8(drives[last].mountpoints[k]).len(), drives[last].path)) {
                let k = choose|k: int|
                    0 <= k < drives[last].mountpoints.len() && is_below(
                        path,
                        #[trigger] drives[last].mountpoints[k],
                        system,
                    ) && r == Some((encode_utf8(drives[last].mountpoints[k]).len(), drives[last].path));
                assert(is_below(path, drives[last].mountpoints[k], system));
            } else {
                assert(r == best);
                let (i, j) = choose|i: int, j: int|
                    {
                        &&& 0 <= i < before.len()
                        &&& 0 <= j < before[i].mountpoints.len()
                        &&& is_below(path, #[trigger] before[i].mountpoints[j], system)
                        &&& l == encode_utf8(before[i].mountpoints[j]).len()
                        &&& name == before[i].path
                    };
                assert(is_below(path, drives[i].mountpoints[j], system));
            }
        }
    }
}

/// Is what is at `path` kept by another drive than `d`, one with a longer mount point around it
/// than `mount`?
pub open spec fn kept_elsewhere(path: Seq<char>, mount: Seq<char>, d: Described, drives: Seq<Described>, system: System) -> bool {
    exists|i: int, j: int|
        {
            &&& 0 <= i < drives.len()
            &&& 0 <= j < drives[i].mountpoints.len()
            &&& is_below(path, #[trigger] drives[i].mountpoints[j], system)
            &&& encode_utf8(drives[i].mountpoints[j]).len() > encode_utf8(mount).len()
            &&& drives[i].path != d.path
        }
}

/// A file is on a drive if the drive is mounted above it, unless another drive is mounted
/// further down.
pub proof fn law_files_are_where_they_are_mounted(
    path: Seq<char>,
    d: Described,
    drives: Seq<Described>,
    system: System,
    k: int,
)
    requires
        0 <= k < d.mountpoints.len(),
        is_below(plain_path_of(path), d.mountpoints[k], system),
    ensures
        is_on(Some(path), d, drives, system) || kept_elsewhere(
            plain_path_of(path),
            d.mountpoints[k],
            d,
            drives,
            system,
        ),
{
    let at = plain_path_of(path);
    let all = drives.push(d);
    assert(all.drop_last() =~= drives);
    let best = best_of(drives, at, system);
    lemma_best_mount(best, d.mountpoints, d.path, at, system);
    lemma_best_of(drives, at, system);
    let r = best_of(all, at, system);
    if !is_on(Some(path), d, drives, system) {
        assert(r == best);
        let (l, name) = best->0;
        let (i, j) = choose|i: int, j: int|
            {
                &&& 0 <= i < drives.len()
                &&& 0 <= j < drives[i].mountpoints.len()
                &&& is_below(at, #[trigger] drives[i].mountpoints[j], system)
                &&& l == encode_utf8(drives[i].mountpoints[j]).len()
                &&& name == drives[i].path
            };
        assert(is_below(at, drives[i].mountpoints[j], system));
    }
}

/// A backup that may start is never saved onto the drive that it is made of: wherever that drive
/// is mounted above the file's place, another drive is mounted further down.
pub proof fn law_backups_are_saved_elsewhere<'a>(p: Plan<'a>, d: Drive, at: String, k: int)
    requires
        p.problem_of() is None,
        *p.source == Source::Drive(d),
        p.target is File,
        p.places.target == Some(at),
        0 <= k < d@.mountpoints.len(),
        is_below(plain_path_of(at@), d@.mountpoints[k], p.system),
    ensures
        kept_elsewhere(plain_path_of(at@), d@.mountpoints[k], d@, described(p.drives@), p.system),
{
    law_files_are_where_they_are_mounted(at@, d@, described(p.drives@), p.system, k);
}

/// An image that may be written to a drive is never stored on that drive.
pub proof fn law_images_are_kept_elsewhere<'a>(p: Plan<'a>, d: Drive, at: String, k: int)
    requires
        p.problem_of() is None,
        p.source is File,
        *p.target == Target::Drive(d),
        p.places.source == Some(at),
        0 <= k < d@.mountpoints.len(),
        is_below(plain_path_of(at@), d@.mountpoints[k], p.system),
    ensures
        kept_elsewhere(plain_path_of(at@), d@.mountpoints[k], d@, described(p.drives@), p.system),
{
    law_files_are_where_they_are_mounted(at@, d@, described(p.drives@), p.system, k);
}

proof fn lemma_names_of_both(a: Seq<char>, b: Seq<char>, system: System)
    ensures
        names(a + "/"@ + b, system) == names(a, system) + names(b, system),
    decreases a.len(),
{
    reveal_strlit("/");
    let all = a + "/"@ + b;
    lemma_separator_at(a, system);
    lemma_separator_at(all, system);
    let k = separator_at(a, system) as int;
    lemma_first_separator(all, k, system);
    assert(separator_at(all, system) == k);
    assert(all.take(k) =~= a.take(k));
    if k < a.len() {
        assert(all.skip(k + 1) =~= a.skip(k + 1) + "/"@ + b);
        lemma_names_of_both(a.skip(k + 1), b, system);
        let one = if a.take(k).len() == 0 || a.take(k) == "."@ {
            Seq::<Seq<char>>::empty()
        } else {
            seq![a.take(k)]
        };
        assert(one + (names(a.skip(k + 1), system) + names(b, system)) =~= (one + names(a.skip(k + 1), system))
            + names(b, system));
    } else {
        assert(all.skip(k + 1) =~= b);
        let one = if a.take(k).len() == 0 || a.take(k) == "."@ {
            Seq::<Seq<char>>::empty()
        } else {
            seq![a.take(k)]
        };
        if a.len() == 0 {
            assert(one + names(b, system) =~= names(a, system) + names(b, system));
        } else {
            assert(names(Seq::<char>::empty(), system) =~= Seq::<Seq<char>>::empty());
            assert(names(a, system) =~= one);
        }
    }
}

proof fn lemma_first_separator(s: Seq<char>, k: int, system: System)
    requires
        0 <= k < s.len(),
        is_separator(s[k], system),
        forall|i: int| 0 <= i < k ==> !is_separator(#[trigger] s[i], system),
    ensures
        separator_at(s, system) == k,
{
    lemma_separator_at(s, system);
    let n = separator_at(s, system) as int;
    if n < k {
        assert(!is_separator(s[n], system));
    }
    if n > k {
        assert(!is_separator(s[k], system));
    }
}

/// What lies under the folder that a drive is mounted at is below it, whatever it is called.
pub proof fn law_files_are_below_their_mounts(mount: Seq<char>, rest: Seq<char>, system: System)
    requires
        system != System::Windows,
        mount.len() > 0,
    ensures
        is_below(mount + "/"@ + rest, mount, system),
        is_below(mount, mount, system),
{
    reveal_strlit("/");
    reveal_strlit(".");
    let all = mount + "/"@ + rest;
    lemma_names_of_both(mount, rest, system);
    lemma_separator_at(mount, system);
    let k = separator_at(mount, system) as int;
    lemma_first_separator(all, k, system);
    assert(all.take(k) =~= mount.take(k));
    assert(all[0] == mount[0]);
    let p = components(all, system);
    let m = components(mount, system);
    assert(p.take(m.len() as int) =~= m);
    assert(m.take(m.len() as int) =~= m);
}

} // verus!
