//! What the window shows and does: cards and summaries, the drive picker, the choice between a
//! smart copy and sector by sector, and a copy while it runs.
//!
//! Nothing here draws. Names that only the system can tell (a file's name and folder, the home
//! folder) come as plain texts.

pub mod picker;
pub mod run;
pub mod start;

use vstd::prelude::*;
use vstd::string::*;
use crate::drives::{Described, Drive, DriveKind};
use crate::engine::{ImageFormat, ImageInfo};
use crate::fmt;
use crate::fmt::bytes_of;
use crate::plan::{pairs, typed_all, Options, Plan, Source, Target, BLOCK_SIZES};
use crate::plan::capitalized;
use crate::text::{
    chars, join, joined, parse_u64, part, same, starts, starts_with, string, texts, trim, trimmed, u64_in,
};

verus! {

// Small words.

pub open spec fn success_of(action: Seq<char>) -> Seq<char> {
    if action == "Write to drive"@ {
        "Drive written"@
    } else if action == "Create image"@ {
        "Image created"@
    } else if action == "Clone drive"@ {
        "Drive cloned"@
    } else if action == "Wipe drive"@ {
        "Drive wiped"@
    } else if action == "Write zeros"@ {
        "Zeros written"@
    } else {
        "Copy finished"@
    }
}

/// What to say when an action is done.
pub fn success_title(action: &str) -> (s: &'static str)
    ensures
        s@ == success_of(action@),
{
    if same(action, "Write to drive") {
        "Drive written"
    } else if same(action, "Create image") {
        "Image created"
    } else if same(action, "Clone drive") {
        "Drive cloned"
    } else if same(action, "Wipe drive") {
        "Drive wiped"
    } else if same(action, "Write zeros") {
        "Zeros written"
    } else {
        "Copy finished"
    }
}

pub open spec fn glyph_of(kind: DriveKind) -> i32 {
    match kind {
        DriveKind::Usb => 1,
        DriveKind::Sd => 2,
        DriveKind::Ssd => 3,
        DriveKind::Hdd => 3,
        DriveKind::Virtual => 4,
    }
}

/// The picture for a drive.
pub fn drive_glyph(d: &Drive) -> (r: i32)
    ensures
        r == glyph_of(d.kind),
{
    match d.kind {
        DriveKind::Usb => 1,
        DriveKind::Sd => 2,
        DriveKind::Ssd => 3,
        DriveKind::Hdd => 3,
        DriveKind::Virtual => 4,
    }
}

/// The texts that are not empty.
pub open spec fn filled(parts: Seq<Seq<char>>) -> Seq<Seq<char>>
    decreases parts.len(),
{
    if parts.len() == 0 {
        Seq::empty()
    } else if parts.last().len() == 0 {
        filled(parts.drop_last())
    } else {
        filled(parts.drop_last()).push(parts.last())
    }
}

fn is_empty(s: &str) -> (r: bool)
    ensures
        r == (s@.len() == 0),
{
    proof {
        reveal_strlit("");
        assert(s@.len() == 0 ==> s@ =~= ""@);
    }
    same(s, "")
}

fn keep_filled(parts: &[String]) -> (r: Vec<String>)
    ensures
        texts(r@) == filled(texts(parts@)),
{
    let mut r: Vec<String> = Vec::new();
    let mut i: usize = 0;
    let ghost all = texts(parts@);
    proof {
        assert(all.take(0) =~= Seq::<Seq<char>>::empty());
        assert(texts(r@) =~= Seq::<Seq<char>>::empty());
    }
    while i < parts.len()
        invariant
            i <= parts@.len(),
            all == texts(parts@),
            texts(r@) == filled(all.take(i as int)),
        decreases parts@.len() - i,
    {
        proof {
            assert(all.take(i + 1).drop_last() =~= all.take(i as int));
            assert(all.take(i + 1).last() == parts@[i as int]@);
        }
        if !is_empty(parts[i].as_str()) {
            let ghost was = r@;
            let s: String = parts[i].as_str().to_owned();
            r.push(s);
            assert(texts(r@) =~= texts(was).push(s@));
        }
        i = i + 1;
    }
    proof {
        assert(all.take(all.len() as int) =~= all);
    }
    r
}

pub open spec fn summary_of(d: Described) -> Seq<char> {
    join(filled(seq![bytes_of(d.size), d.bus, d.path]), " · "@)
}

/// "31.9 GB · USB · /dev/sdb"
pub fn drive_summary(d: &Drive) -> (s: String)
    ensures
        s@ == summary_of(d@),
{
    let parts: [String; 3] = [fmt::bytes(d.size), d.bus.as_str().to_owned(), d.path.as_str().to_owned()];
    let kept: Vec<String> = keep_filled(&parts);
    proof {
        assert(texts(parts@) =~= seq![bytes_of(d.size), d.bus@, d.path@]);
    }
    joined(&kept, " · ")
}

pub open spec fn erase_of(d: Described) -> Seq<char> {
    join(filled(seq![d.path, d.bus, bytes_of(d.size)]), " · "@) + (if d.volumes.len() > 0 {
        "\nHolds: "@ + join(d.volumes, ", "@)
    } else {
        Seq::empty()
    })
}

/// What the confirmation dialog lists about a drive about to be erased.
pub fn erase_detail(d: &Drive) -> (s: String)
    ensures
        s@ == erase_of(d@),
{
    let parts: [String; 3] = [d.path.as_str().to_owned(), d.bus.as_str().to_owned(), fmt::bytes(d.size)];
    let kept: Vec<String> = keep_filled(&parts);
    proof {
        assert(texts(parts@) =~= seq![d.path@, d.bus@, bytes_of(d.size)]);
    }
    let mut s: String = joined(&kept, " · ");
    if d.volumes.len() > 0 {
        let ghost before = s@;
        s.append("\nHolds: ");
        s.append(joined(&d.volumes, ", ").as_str());
        assert(s@ =~= before + ("\nHolds: "@ + join(texts(d.volumes@), ", "@)));
    } else {
        assert(s@ + Seq::<char>::empty() =~= s@);
    }
    s
}

pub open spec fn tag_of(format: ImageFormat) -> Seq<char> {
    match format {
        ImageFormat::Raw => ""@,
        ImageFormat::Gzip => "GZIP"@,
        ImageFormat::Xz => "XZ"@,
        ImageFormat::Zstd => "ZSTD"@,
        ImageFormat::Zip => "ZIP"@,
        ImageFormat::Bzip2 => "BZIP2"@,
        ImageFormat::Lz4 => "LZ4"@,
        ImageFormat::Lzma => "LZMA"@,
        ImageFormat::SevenZ => "7-ZIP"@,
        ImageFormat::Tar => "TAR"@,
        ImageFormat::Dmg => "DMG"@,
        ImageFormat::Vhd => "VHD"@,
        ImageFormat::Vhdx => "VHDX"@,
        ImageFormat::Vmdk => "VMDK"@,
        ImageFormat::Qcow2 => "QCOW2"@,
    }
}

fn tag(format: ImageFormat) -> (s: &'static str)
    ensures
        s@ == tag_of(format),
{
    match format {
        ImageFormat::Raw => "",
        ImageFormat::Gzip => "GZIP",
        ImageFormat::Xz => "XZ",
        ImageFormat::Zstd => "ZSTD",
        ImageFormat::Zip => "ZIP",
        ImageFormat::Bzip2 => "BZIP2",
        ImageFormat::Lz4 => "LZ4",
        ImageFormat::Lzma => "LZMA",
        ImageFormat::SevenZ => "7-ZIP",
        ImageFormat::Tar => "TAR",
        ImageFormat::Dmg => "DMG",
        ImageFormat::Vhd => "VHD",
        ImageFormat::Vhdx => "VHDX",
        ImageFormat::Vmdk => "VMDK",
        ImageFormat::Qcow2 => "QCOW2",
    }
}

/// The subtitle and the tag of an image file.
pub open spec fn file_summary_of(folder: Seq<char>, info: ImageInfo) -> (Seq<char>, Seq<char>) {
    match info.smart {
        Some(smart) => (
            bytes_of(smart.used) + " of data from a "@ + bytes_of(smart.disk_size) + " drive · "@ + folder,
            "SMART IMAGE"@,
        ),
        None => if info.format == ImageFormat::Raw {
            (bytes_of(info.size) + " · "@ + folder, ""@)
        } else {
            (
                match info.uncompressed {
                    Some(full) => bytes_of(info.size) + " → "@ + bytes_of(full) + " unpacked"@,
                    None => bytes_of(info.size),
                } + " · "@ + folder,
                tag_of(info.format),
            )
        },
    }
}

/// Subtitle and tag for an image file on the source card.
pub fn file_summary(folder: &str, info: &ImageInfo) -> (r: (String, String))
    ensures
        (r.0@, r.1@) == file_summary_of(folder@, *info),
{
    if let Some(smart) = info.smart {
        let mut s: String = fmt::bytes(smart.used);
        s.append(" of data from a ");
        s.append(fmt::bytes(smart.disk_size).as_str());
        s.append(" drive · ");
        s.append(folder);
        return (s, "SMART IMAGE".to_owned());
    }
    let mut s: String = fmt::bytes(info.size);
    if info.format != ImageFormat::Raw {
        if let Some(full) = info.uncompressed {
            s.append(" → ");
            s.append(fmt::bytes(full).as_str());
            s.append(" unpacked");
        }
    }
    s.append(" · ");
    s.append(folder);
    (s, tag(info.format).to_owned())
}

// Names.

/// What a source is called; `file` is the name of its file.
pub open spec fn source_name_of(source: Source, file: Seq<char>) -> Seq<char> {
    match source {
        Source::File { path, info } => file,
        Source::Drive(d) => d.name@,
        Source::Zeros => "Zeros"@,
        Source::Unset => ""@,
    }
}

pub fn endpoint_name(source: &Source, file: &str) -> (s: String)
    ensures
        s@ == source_name_of(*source, file@),
{
    match source {
        Source::File { path, info } => file.to_owned(),
        Source::Drive(d) => d.name.as_str().to_owned(),
        Source::Zeros => "Zeros".to_owned(),
        Source::Unset => "".to_owned(),
    }
}

pub open spec fn target_name_of(target: Target, file: Seq<char>) -> Seq<char> {
    match target {
        Target::File(_) => file,
        Target::Drive(d) => d.name@,
        Target::Unset => ""@,
    }
}

pub fn target_name(target: &Target, file: &str) -> (s: String)
    ensures
        s@ == target_name_of(*target, file@),
{
    match target {
        Target::File(_) => file.to_owned(),
        Target::Drive(d) => d.name.as_str().to_owned(),
        Target::Unset => "".to_owned(),
    }
}

/// What is after the last slash.
pub open spec fn short_of(path: Seq<char>) -> Seq<char>
    decreases path.len(),
{
    if path.len() == 0 || path.last() == '/' || path.last() == '\\' {
        Seq::empty()
    } else {
        short_of(path.drop_last()).push(path.last())
    }
}

/// "/dev/sdb" → "sdb"
pub fn short_path(path: &str) -> (s: String)
    ensures
        s@ == short_of(path@),
{
    let v: Vec<char> = chars(path);
    let n: usize = v.len();
    let mut i: usize = n;
    proof {
        assert(v@.take(n as int) =~= v@);
        assert(v@.subrange(n as int, n as int) =~= Seq::<char>::empty());
        assert(short_of(v@.take(n as int)) + v@.subrange(n as int, n as int) =~= short_of(path@));
    }
    while i > 0 && v[i - 1] != '/' && v[i - 1] != '\\'
        invariant
            i <= n,
            n == v@.len(),
            v@ == path@,
            short_of(path@) == short_of(v@.take(i as int)) + v@.subrange(i as int, n as int),
        decreases i,
    {
        proof {
            assert(v@.take(i as int).drop_last() =~= v@.take(i - 1));
            assert(v@.take(i as int).last() == v@[i - 1]);
            assert(short_of(v@.take(i - 1)).push(v@[i - 1]) + v@.subrange(i as int, n as int) =~= short_of(
                v@.take(i - 1),
            ) + v@.subrange(i - 1, n as int));
        }
        i = i - 1;
    }
    proof {
        if i > 0 {
            assert(v@.take(i as int).last() == v@[i - 1]);
        }
        assert(short_of(v@.take(i as int)) =~= Seq::<char>::empty());
        assert(Seq::<char>::empty() + v@.subrange(i as int, n as int) =~= v@.subrange(i as int, n as int));
    }
    string(&part(&v, i, n))
}

/// Two drives with the same name, told apart by their device names.
pub open spec fn told_apart(from: Seq<char>, to: Seq<char>, source: Described, target: Target) -> (
    Seq<char>,
    Seq<char>,
) {
    match target {
        Target::Drive(t) => if from == to {
            (from + " ("@ + short_of(source.path) + ")"@, to + " ("@ + short_of(t.path@) + ")"@)
        } else {
            (from, to)
        },
        _ => (from, to),
    }
}

/// Tells two drives with the same name apart by their device names.
pub fn same_names(from: String, to: String, source: &Drive, target: &Target) -> (r: (String, String))
    ensures
        (r.0@, r.1@) == told_apart(from@, to@, source@, *target),
{
    if let Target::Drive(t) = target {
        if same(from.as_str(), to.as_str()) {
            let mut a: String = from;
            a.append(" (");
            a.append(short_path(source.path.as_str()).as_str());
            a.append(")");
            let mut b: String = to;
            b.append(" (");
            b.append(short_path(t.path.as_str()).as_str());
            b.append(")");
            return (a, b);
        }
    }
    (from, to)
}

pub open spec fn tilde_of(path: Seq<char>, home: Option<Seq<char>>) -> Seq<char> {
    match home {
        Some(h) => if h.len() > 0 && starts(path, h) {
            "~"@ + path.skip(h.len() as int)
        } else {
            path
        },
        None => path,
    }
}

/// "~/Downloads"
pub fn tilde(path: &str, home: Option<&str>) -> (s: String)
    ensures
        s@ == tilde_of(
            path@,
            match home {
                Some(h) => Some(h@),
                None => None,
            },
        ),
{
    if let Some(h) = home {
        let v: Vec<char> = chars(path);
        let n: usize = chars(h).len();
        if n > 0 && starts_with(&v, h) {
            let rest: Vec<char> = part(&v, n, v.len());
            assert(rest@ =~= path@.skip(n as int));
            let mut s: String = "~".to_owned();
            s.append(string(&rest).as_str());
            return s;
        }
    }
    path.to_owned()
}

pub open spec fn display_of(key: Seq<char>, value: Seq<char>, home: Option<Seq<char>>) -> Seq<char> {
    let v = tilde_of(value, home);
    if key != "if"@ && key != "of"@ && key != "_"@ {
        value
    } else if v.len() <= 46 {
        v
    } else {
        v.take(16) + "…"@ + v.skip(v.len() - 27)
    }
}

/// Shortens long paths in the command preview (the copy button copies the real thing).
pub fn display_value(key: &str, value: &str, home: Option<&str>) -> (s: String)
    ensures
        s@ == display_of(
            key@,
            value@,
            match home {
                Some(h) => Some(h@),
                None => None,
            },
        ),
{
    if !same(key, "if") && !same(key, "of") && !same(key, "_") {
        return value.to_owned();
    }
    let shown: String = tilde(value, home);
    let v: Vec<char> = chars(shown.as_str());
    if v.len() <= 46 {
        return shown;
    }
    let head: Vec<char> = part(&v, 0, 16);
    let tail: Vec<char> = part(&v, v.len() - 27, v.len());
    proof {
        assert(head@ =~= v@.take(16));
        assert(tail@ =~= v@.skip(v@.len() - 27));
    }
    let mut s: String = string(&head);
    s.append("…");
    s.append(string(&tail).as_str());
    s
}

pub open spec fn is_awkward(c: char) -> bool {
    c == '/' || c == '\\' || c == ':' || c == '*' || c == '?' || c == '"' || c == '<' || c == '>' || c == '|'
}

/// A name without the characters that some system won't have in a file name.
pub open spec fn file_safe(name: Seq<char>) -> Seq<char> {
    name.map_values(
        |c: char|
            if is_awkward(c) {
                '-'
            } else {
                c
            },
    )
}

pub open spec fn suggested_of(source: Source, file: Seq<char>) -> Seq<char> {
    match source {
        Source::Drive(d) => file_safe(d.name@) + ".img"@,
        Source::File { path, info } => "Copy of "@ + file,
        _ => "image.img"@,
    }
}

/// A name for an image of the source; `file` is the name of its file.
pub fn suggested_name(source: &Source, file: &str) -> (s: String)
    ensures
        s@ == suggested_of(*source, file@),
{
    match source {
        Source::Drive(d) => {
            let v: Vec<char> = chars(d.name.as_str());
            let mut w: Vec<char> = Vec::new();
            let mut i: usize = 0;
            while i < v.len()
                invariant
                    i <= v@.len(),
                    w@ == file_safe(v@).take(i as int),
                decreases v@.len() - i,
            {
                let c: char = v[i];
                if c == '/' || c == '\\' || c == ':' || c == '*' || c == '?' || c == '"' || c == '<' || c == '>' || c
                    == '|' {
                    w.push('-');
                } else {
                    w.push(c);
                }
                proof {
                    assert(file_safe(v@).take(i + 1) =~= file_safe(v@).take(i as int).push(file_safe(v@)[i as int]));
                }
                i = i + 1;
            }
            assert(file_safe(v@).take(v@.len() as int) =~= file_safe(v@));
            let mut s: String = string(&w);
            s.append(".img");
            s
        },
        Source::File { path, info } => {
            let mut s: String = "Copy of ".to_owned();
            s.append(file);
            s
        },
        _ => "image.img".to_owned(),
    }
}

// What is set in Advanced.

/// A number of blocks that was typed, or what is wrong with it.
pub open spec fn blocks_of(text: Seq<char>, name: Seq<char>) -> Result<Option<u64>, Seq<char>> {
    if trim(text).len() == 0 {
        Ok(None)
    } else {
        match u64_in(trim(text)) {
            Some(n) => Ok(Some(n)),
            None => Err(name + " has to be a whole number of blocks."@),
        }
    }
}

fn blocks(text: &str, name: &str) -> (r: Result<Option<u64>, String>)
    ensures
        match r {
            Ok(n) => blocks_of(text@, name@) == Ok::<Option<u64>, Seq<char>>(n),
            Err(e) => blocks_of(text@, name@) == Err::<Option<u64>, Seq<char>>(e@),
        },
{
    let v: Vec<char> = trimmed(&chars(text));
    if v.len() == 0 {
        return Ok(None);
    }
    match parse_u64(&v) {
        Some(n) => Ok(Some(n)),
        None => {
            let mut e: String = name.to_owned();
            e.append(" has to be a whole number of blocks.");
            Err(e)
        },
    }
}

pub open spec fn options_of(
    block_size: i32,
    noerror: bool,
    count: Seq<char>,
    skip: Seq<char>,
    seek: Seq<char>,
) -> Result<Options, Seq<char>> {
    match (blocks_of(count, "Count"@), blocks_of(skip, "Skip"@), blocks_of(seek, "Seek"@)) {
        (Err(e), _, _) => Err(e),
        (_, Err(e), _) => Err(e),
        (_, _, Err(e)) => Err(e),
        (Ok(count), Ok(skip), Ok(seek)) => Ok(
            Options {
                block_size: if 1 <= block_size <= 5 {
                    Some(BLOCK_SIZES@[block_size - 1])
                } else {
                    None
                },
                noerror,
                count,
                skip,
                seek,
            },
        ),
    }
}

/// The choices in Advanced. `block_size` is the place in its list, where the first is "Auto".
pub fn options(block_size: i32, noerror: bool, count: &str, skip: &str, seek: &str) -> (r: Result<Options, String>)
    ensures
        match r {
            Ok(o) => options_of(block_size, noerror, count@, skip@, seek@) == Ok::<Options, Seq<char>>(o),
            Err(e) => options_of(block_size, noerror, count@, skip@, seek@) == Err::<Options, Seq<char>>(e@),
        },
{
    let count: Option<u64> = match blocks(count, "Count") {
        Ok(n) => n,
        Err(e) => {
            return Err(e);
        },
    };
    let skip: Option<u64> = match blocks(skip, "Skip") {
        Ok(n) => n,
        Err(e) => {
            return Err(e);
        },
    };
    let seek: Option<u64> = match blocks(seek, "Seek") {
        Ok(n) => n,
        Err(e) => {
            return Err(e);
        },
    };
    let size: Option<u64> = if 1 <= block_size && block_size <= 5 {
        Some(BLOCK_SIZES[(block_size - 1) as usize])
    } else {
        None
    };
    Ok(Options { block_size: size, noerror, count, skip, seek })
}

/// What is set in Advanced never makes blocks of nothing.
pub proof fn law_blocks_are_not_empty(block_size: i32, noerror: bool, count: Seq<char>, skip: Seq<char>, seek: Seq<char>)
    ensures
        options_of(block_size, noerror, count, skip, seek) matches Ok(o) ==> (o.block_size matches Some(n) ==> n > 0),
{
}

// The setup page.

/// A card: a picture and what it says.
#[derive(Debug)]
pub struct Card {
    pub glyph: i32,
    pub title: String,
    pub subtitle: String,
    pub tag: String,
}

#[verifier::ext_equal]
pub ghost struct Shown {
    pub glyph: i32,
    pub title: Seq<char>,
    pub subtitle: Seq<char>,
    pub tag: Seq<char>,
}

impl View for Card {
    type V = Shown;

    open spec fn view(&self) -> Shown {
        Shown { glyph: self.glyph, title: self.title@, subtitle: self.subtitle@, tag: self.tag@ }
    }
}

/// What the source card shows. `drives` if the drives' tab is open.
pub open spec fn source_card_of(source: Source, drives: bool, file: Seq<char>, folder: Seq<char>) -> Shown {
    match source {
        Source::File { path, info } => Shown {
            glyph: 0,
            title: file,
            subtitle: file_summary_of(folder, info).0,
            tag: file_summary_of(folder, info).1,
        },
        Source::Drive(d) => Shown { glyph: glyph_of(d.kind), title: d.name@, subtitle: summary_of(d@), tag: ""@ },
        Source::Zeros => Shown {
            glyph: 5,
            title: "Zeros"@,
            subtitle: "An endless stream of zero bytes, to wipe a drive"@,
            tag: ""@,
        },
        Source::Unset => if drives {
            Shown { glyph: 1, title: "Choose a drive"@, subtitle: "Back it up or clone it"@, tag: ""@ }
        } else {
            Shown {
                glyph: 0,
                title: "Choose an image"@,
                subtitle: "ISO, IMG, DMG, VHD, VMDK, QCOW2 or compressed"@,
                tag: ""@,
            }
        },
    }
}

pub fn source_card(source: &Source, drives: bool, file: &str, folder: &str) -> (c: Card)
    ensures
        c@ == source_card_of(*source, drives, file@, folder@),
{
    match source {
        Source::File { path, info } => {
            let (subtitle, tag) = file_summary(folder, info);
            Card { glyph: 0, title: file.to_owned(), subtitle, tag }
        },
        Source::Drive(d) => Card {
            glyph: drive_glyph(d),
            title: d.name.as_str().to_owned(),
            subtitle: drive_summary(d),
            tag: "".to_owned(),
        },
        Source::Zeros => Card {
            glyph: 5,
            title: "Zeros".to_owned(),
            subtitle: "An endless stream of zero bytes, to wipe a drive".to_owned(),
            tag: "".to_owned(),
        },
        Source::Unset => {
            if drives {
                Card {
                    glyph: 1,
                    title: "Choose a drive".to_owned(),
                    subtitle: "Back it up or clone it".to_owned(),
                    tag: "".to_owned(),
                }
            } else {
                Card {
                    glyph: 0,
                    title: "Choose an image".to_owned(),
                    subtitle: "ISO, IMG, DMG, VHD, VMDK, QCOW2 or compressed".to_owned(),
                    tag: "".to_owned(),
                }
            }
        },
    }
}

pub open spec fn target_card_of(target: Target, drives: bool, file: Seq<char>, folder: Seq<char>) -> Shown {
    match target {
        Target::Drive(d) => Shown { glyph: glyph_of(d.kind), title: d.name@, subtitle: summary_of(d@), tag: ""@ },
        Target::File(_) => Shown { glyph: 6, title: file, subtitle: folder, tag: ""@ },
        Target::Unset => if drives {
            Shown { glyph: 1, title: "Choose a drive"@, subtitle: "USB drive, SD card or disk"@, tag: ""@ }
        } else {
            Shown {
                glyph: 6,
                title: "Choose where to save"@,
                subtitle: "Saves everything into an image file"@,
                tag: ""@,
            }
        },
    }
}

pub fn target_card(target: &Target, drives: bool, file: &str, folder: &str) -> (c: Card)
    ensures
        c@ == target_card_of(*target, drives, file@, folder@),
{
    match target {
        Target::Drive(d) => Card {
            glyph: drive_glyph(d),
            title: d.name.as_str().to_owned(),
            subtitle: drive_summary(d),
            tag: "".to_owned(),
        },
        Target::File(_) => Card { glyph: 6, title: file.to_owned(), subtitle: folder.to_owned(), tag: "".to_owned() },
        Target::Unset => {
            if drives {
                Card {
                    glyph: 1,
                    title: "Choose a drive".to_owned(),
                    subtitle: "USB drive, SD card or disk".to_owned(),
                    tag: "".to_owned(),
                }
            } else {
                Card {
                    glyph: 6,
                    title: "Choose where to save".to_owned(),
                    subtitle: "Saves everything into an image file".to_owned(),
                    tag: "".to_owned(),
                }
            }
        },
    }
}

pub open spec fn shown_text(s: Option<String>) -> Option<Seq<char>> {
    match s {
        Some(t) => Some(t@),
        None => None,
    }
}

/// What the banner says, and whether it warns. Problems and notes only show once both ends are
/// chosen.
pub open spec fn banner_of(
    problem: Option<Seq<char>>,
    notice: Option<Seq<char>>,
    note: Option<Seq<char>>,
    both: bool,
) -> (Seq<char>, bool) {
    if problem is Some && both {
        (problem->0, true)
    } else if notice is Some {
        (notice->0, false)
    } else if note is Some && both {
        (note->0, false)
    } else {
        (""@, false)
    }
}

fn banner(problem: Option<String>, notice: Option<String>, note: Option<String>, both: bool) -> (r: (String, bool))
    ensures
        (r.0@, r.1) == banner_of(shown_text(problem), shown_text(notice), shown_text(note), both),
{
    if both {
        if let Some(s) = problem {
            return (s, true);
        }
    }
    if let Some(s) = notice {
        return (s, false);
    }
    if both {
        if let Some(s) = note {
            return (s, false);
        }
    }
    ("".to_owned(), false)
}

// What is chosen on each side: the modes keep their own choices.

/// The source in that mode: the file, the drive, or zeros.
pub fn source(mode: i32, file: Option<(String, ImageInfo)>, drive: Option<Drive>) -> (r: Source)
    ensures
        r == (if mode == 0 {
            match file {
                Some((path, info)) => Source::File { path, info },
                None => Source::Unset,
            }
        } else if mode == 1 {
            match drive {
                Some(d) => Source::Drive(d),
                None => Source::Unset,
            }
        } else {
            Source::Zeros
        }),
{
    if mode == 0 {
        match file {
            Some((path, info)) => Source::File { path, info },
            None => Source::Unset,
        }
    } else if mode == 1 {
        match drive {
            Some(d) => Source::Drive(d),
            None => Source::Unset,
        }
    } else {
        Source::Zeros
    }
}

/// The target in that mode: the drive, or the file.
pub fn target(mode: i32, drive: Option<Drive>, file: Option<String>) -> (r: Target)
    ensures
        r == (if mode == 0 {
            match drive {
                Some(d) => Target::Drive(d),
                None => Target::Unset,
            }
        } else {
            match file {
                Some(path) => Target::File(path),
                None => Target::Unset,
            }
        }),
{
    if mode == 0 {
        match drive {
            Some(d) => Target::Drive(d),
            None => Target::Unset,
        }
    } else {
        match file {
            Some(path) => Target::File(path),
            None => Target::Unset,
        }
    }
}

/// What a file is taken for that can't be looked into: raw data, as long as the file.
pub fn unprobed(size: u64) -> (r: ImageInfo)
    ensures
        r == (ImageInfo { format: ImageFormat::Raw, size, uncompressed: Some(size), smart: None }),
{
    ImageInfo { format: ImageFormat::Raw, size, uncompressed: Some(size), smart: None }
}

/// Everything on the setup page.
#[derive(Debug)]
pub struct Setup {
    pub source_set: bool,
    pub source: Card,
    pub target_set: bool,
    pub target: Card,
    /// The command, as pairs of a key and a value to show.
    pub command: Vec<(&'static str, String)>,
    pub command_text: String,
    pub auto_summary: String,
    pub can_start: bool,
    pub banner: String,
    pub banner_warning: bool,
    pub action: &'static str,
}

/// What only the system can tell.
#[derive(Debug)]
pub struct Surroundings {
    /// The name and the folder of the source file, if it is one.
    pub source_file: String,
    pub source_folder: String,
    pub target_file: String,
    pub target_folder: String,
    pub home: Option<String>,
}

pub open spec fn displayed(words: Seq<(Seq<char>, Seq<char>)>, home: Option<Seq<char>>) -> Seq<(Seq<char>, Seq<char>)> {
    words.map_values(|p: (Seq<char>, Seq<char>)| (p.0, display_of(p.0, p.1, home)))
}

/// What stops the job: what is wrong in Advanced, else a problem of the plan.
pub open spec fn stop_of<'a>(plan: Plan<'a>, wrong: Option<Seq<char>>) -> Option<Seq<char>> {
    if wrong is Some {
        wrong
    } else {
        plan.problem_of()
    }
}

/// Brings everything on the setup page up to date. `wrong` is what is wrong in Advanced.
pub fn refresh<'a>(
    plan: &Plan<'a>,
    wrong: Option<String>,
    notice: Option<String>,
    source_drives: bool,
    target_drives: bool,
    around: &Surroundings,
) -> (r: Setup)
    requires
        plan.block_size_of() > 0,
    ensures
        r.source_set == !(plan.source is Unset),
        r.target_set == !(plan.target is Unset),
        r.source@ == source_card_of(*plan.source, source_drives, around.source_file@, around.source_folder@),
        r.target@ == target_card_of(*plan.target, target_drives, around.target_file@, around.target_folder@),
        pairs(r.command@) == displayed(plan.words_of(), shown_text(around.home)),
        r.command_text@ == join(typed_all(plan.words_of(), plan.system), " "@),
        r.auto_summary@ == capitalized(join(plan.summary_parts(), " · "@)),
        r.can_start == (stop_of(*plan, shown_text(wrong)) is None),
        (r.banner@, r.banner_warning) == banner_of(
            stop_of(*plan, shown_text(wrong)),
            shown_text(notice),
            plan.note_of(),
            !(plan.source is Unset) && !(plan.target is Unset),
        ),
        r.action@ == plan.action_of(),
{
    let source_set: bool = match plan.source {
        Source::Unset => false,
        _ => true,
    };
    let target_set: bool = match plan.target {
        Target::Unset => false,
        _ => true,
    };
    let home: Option<&str> = match &around.home {
        Some(h) => Some(h.as_str()),
        None => None,
    };
    let words: Vec<(&'static str, String)> = plan.words();
    let mut command: Vec<(&'static str, String)> = Vec::new();
    let mut i: usize = 0;
    let ghost all = displayed(plan.words_of(), shown_text(around.home));
    proof {
        assert(pairs(command@) =~= all.take(0));
    }
    while i < words.len()
        invariant
            i <= words@.len(),
            pairs(words@) == plan.words_of(),
            all == displayed(plan.words_of(), shown_text(around.home)),
            shown_text(around.home) == (match home {
                Some(h) => Some(h@),
                None => None,
            }),
            pairs(command@) == all.take(i as int),
        decreases words@.len() - i,
    {
        let key: &'static str = words[i].0;
        let value: String = display_value(key, words[i].1.as_str(), home);
        let ghost was = command@;
        let ghost shown = value@;
        command.push((key, value));
        proof {
            assert(plan.words_of()[i as int] == (key@, words@[i as int].1@));
            assert(all[i as int] == (key@, shown));
            assert(pairs(command@) =~= pairs(was).push((key@, shown)));
            assert(all.take(i + 1) =~= all.take(i as int).push(all[i as int]));
        }
        i = i + 1;
    }
    proof {
        assert(all.take(all.len() as int) =~= all);
    }
    let problem: Option<String> = match wrong {
        Some(e) => Some(e),
        None => plan.problem(),
    };
    let can_start: bool = problem.is_none();
    let (text, warning) = banner(problem, notice, plan.note(), source_set && target_set);
    Setup {
        source_set,
        source: source_card(plan.source, source_drives, around.source_file.as_str(), around.source_folder.as_str()),
        target_set,
        target: target_card(plan.target, target_drives, around.target_file.as_str(), around.target_folder.as_str()),
        command,
        command_text: plan.command_line(),
        auto_summary: plan.auto_summary(),
        can_start,
        banner: text,
        banner_warning: warning,
        action: plan.action(),
    }
}

} // verus!
