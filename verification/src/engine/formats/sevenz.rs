//! 7z archives: the first file in them (the first one that isn't a folder or empty), from
//! what an archive's header lists. Encrypted archives (AES) are refused, and so is what needs
//! too much memory to unpack.

use vstd::arithmetic::power2::{lemma2_to64, lemma_pow2_unfold, pow2};
use vstd::prelude::*;
use vstd::string::*;
use sevenz_rust2::{Archive, BlockDecoder, Error as Sevenz, Password};
use std::io::{Cursor, ErrorKind, Read};
use crate::engine::formats::source::{
    bad, has_bytes, le32, le32_at, size_text, size_text_of, unsupported,
};
use crate::error::{bad_fault, unsupported_fault, Error, Fault, Kind};
use crate::text::{chars, contains, find_text};

verus! {

pub const SIGNATURE: [u8; 6] = [0x37, 0x7a, 0xbc, 0xaf, 0x27, 0x1c];

/// The most memory a coder may ask for (a dictionary, PPMd's model).
pub const MAX_MEMORY: u64 = 0x6000_0000;

/// The most that is looked at of the first file, to see if it is a tar.
pub const PEEK: u64 = 8192;

// What coders are called in an archive.

pub const ID_LZMA: [u8; 3] = [0x03, 0x01, 0x01];

pub const ID_PPMD: [u8; 3] = [0x03, 0x04, 0x01];

pub const ID_LZMA2: [u8; 1] = [0x21];

pub const ID_AES256_SHA256: [u8; 4] = [0x06, 0xf1, 0x07, 0x01];

/// A file in an archive.
#[derive(Clone, Copy, Debug, PartialEq, Eq, Structural)]
pub struct Member {
    pub has_stream: bool,
    pub is_directory: bool,
    pub is_anti_item: bool,
    pub size: u64,
    /// The block that holds it.
    pub block: Option<usize>,
}

/// A step of a block's decoding.
#[derive(Debug)]
pub struct Coder {
    pub id: Vec<u8>,
    pub properties: Vec<u8>,
}

/// What an archive's header lists.
#[derive(Debug)]
pub struct Listing {
    pub files: Vec<Member>,
    /// The coders of each block.
    pub blocks: Vec<Vec<Coder>>,
}

/// What a step of a block's decoding is.
pub ghost struct Step {
    pub id: Seq<u8>,
    pub properties: Seq<u8>,
}

impl View for Coder {
    type V = Step;

    open spec fn view(&self) -> Step {
        Step { id: self.id@, properties: self.properties@ }
    }
}

/// The steps of a block's decoding.
pub open spec fn steps(coders: Seq<Coder>) -> Seq<Step> {
    coders.map_values(|c: Coder| c@)
}

/// What an archive's header says.
#[verifier::ext_equal]
pub ghost struct Contents {
    pub files: Seq<Member>,
    pub blocks: Seq<Seq<Step>>,
}

impl View for Listing {
    type V = Contents;

    open spec fn view(&self) -> Contents {
        Contents { files: self.files@, blocks: self.blocks@.map_values(|b: Vec<Coder>| steps(b@)) }
    }
}

/// The first file: its block and size.
#[derive(Clone, Copy, Debug, PartialEq, Eq, Structural)]
pub struct First {
    pub block: usize,
    pub size: u64,
}

impl Member {
    /// A file with something in it?
    pub open spec fn is_file(self) -> bool {
        self.has_stream && self.size > 0 && !self.is_directory && !self.is_anti_item
    }
}

/// Where the first file with something in it is listed.
pub open spec fn first_listed(files: Seq<Member>, from: int) -> Option<int>
    decreases files.len() - from,
{
    if from >= files.len() {
        None
    } else if files[from].is_file() {
        Some(from)
    } else {
        first_listed(files, from + 1)
    }
}

/// The memory that a coder needs.
pub open spec fn memory_of(id: Seq<u8>, properties: Seq<u8>) -> int {
    if id == ID_LZMA@ || id == ID_PPMD@ {
        le32_at(properties, 1) as int
    } else if id == ID_LZMA2@ {
        // A dictionary size of 2^n or 2^n + 2^(n-1).
        if properties.len() > 0 && properties[0] < 40 {
            lzma2_dict(properties[0] as nat)
        } else {
            u32::MAX as int
        }
    } else {
        0
    }
}

/// The dictionary that a property of LZMA2 stands for: from 4 KiB on, each second one doubles
/// it.
pub open spec fn lzma2_dict(d: nat) -> int
    decreases d,
{
    if d == 0 {
        4096
    } else if d == 1 {
        6144
    } else {
        2 * lzma2_dict((d - 2) as nat)
    }
}

pub open spec fn encrypted_fault() -> Fault {
    unsupported_fault(
        "this 7z archive is password-protected, which DD-GUI doesn't support. Unpack it with 7-Zip first."@,
    )
}

fn encrypted() -> (e: Error)
    ensures
        e@ == encrypted_fault(),
{
    unsupported(
        "this 7z archive is password-protected, which DD-GUI doesn't support. Unpack it with 7-Zip first.",
    )
}

/// Why a coder is not run, if so.
pub open spec fn coder_refused(c: Step) -> Option<Fault> {
    let memory = memory_of(c.id, c.properties);
    if c.id == ID_AES256_SHA256@ {
        Some(encrypted_fault())
    } else if memory > MAX_MEMORY {
        Some(
            unsupported_fault(
                "this 7z archive needs "@ + size_text_of(memory as nat)
                    + " of memory to unpack, more than DD-GUI allows"@,
            ),
        )
    } else {
        None
    }
}

/// Why coders are not run: what is said of the first that is refused.
pub open spec fn refused_from(coders: Seq<Step>, from: int) -> Option<Fault>
    decreases coders.len() - from,
{
    if from >= coders.len() {
        None
    } else {
        match coder_refused(coders[from]) {
            Some(f) => Some(f),
            None => refused_from(coders, from + 1),
        }
    }
}

/// The first file of an archive.
pub open spec fn first_of(l: Contents) -> Result<First, Fault> {
    match first_listed(l.files, 0) {
        None => Err(bad_fault("the 7z archive holds no files"@)),
        Some(i) => match l.files[i].block {
            None => Err(bad_fault("the 7z archive is damaged"@)),
            Some(block) => if block >= l.blocks.len() {
                Err(bad_fault("the 7z archive is damaged"@))
            } else {
                match refused_from(l.blocks[block as int], 0) {
                    Some(f) => Err(f),
                    None => Ok(First { block, size: l.files[i].size }),
                }
            },
        },
    }
}

fn same_id(id: &[u8], name: &[u8]) -> (r: bool)
    ensures
        r == (id@ == name@),
{
    proof {
        if id@.len() == name@.len() {
            assert(id@.subrange(0, name@.len() as int) == id@);
        }
    }
    id.len() == name.len() && has_bytes(id, 0, name)
}

proof fn lemma_lzma2_dict(d: nat)
    requires
        d < 40,
    ensures
        4096 <= lzma2_dict(d) <= 0xc000_0000,
{
    reveal_with_fuel(lzma2_dict, 21);
}

fn dict_of(d: u8) -> (r: u64)
    requires
        d < 40,
    ensures
        r == lzma2_dict(d as nat),
{
    let mut left: u8 = d;
    let mut times: u64 = 1;
    proof {
        lemma_lzma2_dict(d as nat);
    }
    while left >= 2
        invariant
            left <= d < 40,
            times <= 0x10_0000,
            lzma2_dict(d as nat) == times * lzma2_dict(left as nat),
            lzma2_dict(d as nat) <= 0xc000_0000,
            lzma2_dict(left as nat) >= 4096,
        decreases left,
    {
        proof {
            lemma_lzma2_dict((left - 2) as nat);
            lemma_lzma2_dict(d as nat);
            let rest = lzma2_dict((left - 2) as nat);
            assert(times * (2 * rest) == (times * 2) * rest) by (nonlinear_arith);
            assert((times * 2) * rest >= (times * 2) * 4096) by (nonlinear_arith)
                requires
                    rest >= 4096,
            ;
        }
        left = left - 2;
        times = times * 2;
    }
    if left == 0 {
        times * 4096
    } else {
        times * 6144
    }
}

fn memory(c: &Coder) -> (r: u64)
    ensures
        r == memory_of(c.id@, c.properties@),
{
    if same_id(&c.id, &ID_LZMA) || same_id(&c.id, &ID_PPMD) {
        le32(&c.properties, 1) as u64
    } else if same_id(&c.id, &ID_LZMA2) {
        if c.properties.len() > 0 && c.properties[0] < 40 {
            dict_of(c.properties[0])
        } else {
            u32::MAX as u64
        }
    } else {
        0
    }
}

/// The first file of an archive: the first that isn't a folder or empty.
pub fn first_file(archive: &Listing) -> (r: Result<First, Error>)
    ensures
        match r {
            Ok(f) => first_of(archive@) == Ok::<First, Fault>(f),
            Err(e) => first_of(archive@) == Err::<First, Fault>(e@),
        },
{
    let mut i: usize = 0;
    while i < archive.files.len() && !(archive.files[i].has_stream && archive.files[i].size > 0
        && !archive.files[i].is_directory && !archive.files[i].is_anti_item)
        invariant
            i <= archive.files@.len(),
            first_listed(archive.files@, 0) == first_listed(archive.files@, i as int),
        decreases archive.files@.len() - i,
    {
        i = i + 1;
    }
    if i >= archive.files.len() {
        return Err(bad("the 7z archive holds no files"));
    }
    let block: usize = match archive.files[i].block {
        Some(b) => b,
        None => {
            return Err(bad("the 7z archive is damaged"));
        },
    };
    if block >= archive.blocks.len() {
        return Err(bad("the 7z archive is damaged"));
    }
    let coders: &Vec<Coder> = &archive.blocks[block];
    let mut k: usize = 0;
    while k < coders.len()
        invariant
            k <= coders@.len(),
            block < archive.blocks@.len(),
            *coders == archive.blocks@[block as int],
            i < archive.files@.len(),
            refused_from(steps(coders@), 0) == refused_from(steps(coders@), k as int),
            first_of(archive@) == (match refused_from(steps(coders@), 0) {
                Some(f) => Err::<First, Fault>(f),
                None => Ok::<First, Fault>(First { block, size: archive.files@[i as int].size }),
            }),
        decreases coders@.len() - k,
    {
        let c: &Coder = &coders[k];
        assert(steps(coders@)[k as int] == c@);
        if same_id(&c.id, &ID_AES256_SHA256) {
            return Err(encrypted());
        }
        let memory: u64 = memory(c);
        if memory > MAX_MEMORY {
            let mut s: String = "this 7z archive needs ".to_owned();
            s.append(size_text(memory).as_str());
            s.append(" of memory to unpack, more than DD-GUI allows");
            return Err(unsupported(s.as_str()));
        }
        k = k + 1;
    }
    Ok(First { block, size: archive.files[i].size })
}

/// What a decoder complains of.
#[derive(Debug)]
pub enum Complaint {
    /// A password is needed, or was wrong.
    Password,
    /// A compression method that is not handled.
    Method(String),
    /// Data in another stream, which is not handled.
    External,
    /// A checksum that does not match.
    Checksum,
    /// An error of reading, which says all there is to say.
    Reading(Kind, String),
    Other(String),
}

/// What a decoder complains of.
pub ghost enum Grievance {
    Password,
    Method(Seq<char>),
    External,
    Checksum,
    Reading(Fault),
    Other(Seq<char>),
}

impl View for Complaint {
    type V = Grievance;

    open spec fn view(&self) -> Grievance {
        match self {
            Complaint::Password => Grievance::Password,
            Complaint::Method(m) => Grievance::Method(m@),
            Complaint::External => Grievance::External,
            Complaint::Checksum => Grievance::Checksum,
            Complaint::Reading(kind, what) => Grievance::Reading(Fault { kind: *kind, what: what@ }),
            Complaint::Other(why) => Grievance::Other(why@),
        }
    }
}

/// A decoder's complaint in plain words.
pub open spec fn error_of(c: Grievance, context: Seq<char>) -> Fault {
    match c {
        Grievance::Password => encrypted_fault(),
        Grievance::Method(m) => if contains(m, "AES"@) {
            encrypted_fault()
        } else {
            unsupported_fault("this 7z archive uses a compression method DD-GUI doesn't support ("@ + m + ")"@)
        },
        Grievance::External => unsupported_fault(
            "this 7z archive uses a feature DD-GUI doesn't support (external data)"@,
        ),
        Grievance::Checksum => bad_fault(context + " (checksum mismatch)"@),
        Grievance::Reading(fault) => fault,
        Grievance::Other(why) => bad_fault(context + " ("@ + why + ")"@),
    }
}

/// A decoder's complaint in plain words.
pub fn error(c: &Complaint, context: &str) -> (e: Error)
    ensures
        e@ == error_of(c@, context@),
{
    match c {
        Complaint::Password => encrypted(),
        Complaint::Method(m) => {
            let v: Vec<char> = chars(m.as_str());
            if find_text(&v, "AES").is_some() {
                encrypted()
            } else {
                let mut s: String = "this 7z archive uses a compression method DD-GUI doesn't support (".to_owned();
                s.append(m.as_str());
                s.append(")");
                unsupported(s.as_str())
            }
        },
        Complaint::External => unsupported(
            "this 7z archive uses a feature DD-GUI doesn't support (external data)",
        ),
        Complaint::Checksum => {
            let mut s: String = context.to_owned();
            s.append(" (checksum mismatch)");
            bad(s.as_str())
        },
        Complaint::Reading(kind, what) => Error { kind: *kind, what: what.as_str().to_owned() },
        Complaint::Other(why) => {
            let mut s: String = context.to_owned();
            s.append(" (");
            s.append(why.as_str());
            s.append(")");
            bad(s.as_str())
        },
    }
}

/// How much is read of a file of a block: nothing of a folder or of an empty file; else its
/// start, to see if it is a tar, or all of it.
pub fn reads(has_stream: bool, size: u64, start: bool) -> (n: Option<u64>)
    ensures
        n == (if !(has_stream && size > 0) {
            None
        } else if !start {
            Some(u64::MAX)
        } else if size < PEEK {
            Some(size)
        } else {
            Some(PEEK)
        }),
{
    if !(has_stream && size > 0) {
        None
    } else if !start {
        Some(u64::MAX)
    } else if size < PEEK {
        Some(size)
    } else {
        Some(PEEK)
    }
}

/// Checks that the first file came out whole: `sent` bytes of it did.
pub fn finished(first: &First, sent: u64) -> (r: Result<(), Error>)
    ensures
        r is Ok <==> sent == first.size,
        r matches Err(e) ==> e@ == bad_fault("the 7z archive is cut short"@),
{
    if sent == first.size {
        Ok(())
    } else {
        Err(bad("the 7z archive is cut short"))
    }
}

// The decoder that another crate brings.

/// `sevenz_rust2::Error`, an error of the decoder.
#[verifier::external_type_specification]
#[verifier::external_body]
pub struct ExSevenz(Sevenz);

/// What an error of the decoder complains of.
pub uninterp spec fn complaint_of(e: Sevenz) -> Grievance;

/// The variants of `sevenz_rust2::Error`; those that nothing is asked of become their text.
#[verifier::external_body]
fn complaint(e: Sevenz) -> (c: Complaint)
    ensures
        c@ == complaint_of(e),
{
    match e {
        Sevenz::PasswordRequired | Sevenz::MaybeBadPassword(_) => Complaint::Password,
        Sevenz::UnsupportedCompressionMethod(m) => Complaint::Method(m),
        Sevenz::ExternalUnsupported => Complaint::External,
        Sevenz::ChecksumVerificationFailed | Sevenz::NextHeaderCrcMismatch => Complaint::Checksum,
        Sevenz::Io(e, _) | Sevenz::FileOpen(e, _) if e.kind() != ErrorKind::Other => match e.kind() {
            ErrorKind::InvalidData => Complaint::Reading(Kind::InvalidData, e.to_string()),
            ErrorKind::Unsupported => Complaint::Reading(Kind::Unsupported, e.to_string()),
            ErrorKind::UnexpectedEof => Complaint::Reading(Kind::UnexpectedEof, e.to_string()),
            _ => Complaint::Reading(Kind::Other, e.to_string()),
        },
        other => Complaint::Other(other.to_string()),
    }
}

/// What `sevenz_rust2::Archive::read` finds listed in an archive, or what it complains of.
pub uninterp spec fn listed(file: Seq<u8>) -> Result<Contents, Grievance>;

/// `sevenz_rust2::Archive::read` without a password: the files it lists, the block that holds
/// each, and the coders of each block; or its error.
#[verifier::external_body]
fn read_archive(file: &[u8]) -> (r: Result<Listing, Sevenz>)
    ensures
        match r {
            Ok(l) => listed(file@) == Ok::<Contents, Grievance>(l@),
            Err(e) => listed(file@) == Err::<Contents, Grievance>(complaint_of(e)),
        },
{
    let a = Archive::read(&mut Cursor::new(file), &Password::empty())?;
    let files = a.files.iter().enumerate().map(|(i, f)| Member {
        has_stream: f.has_stream,
        is_directory: f.is_directory,
        is_anti_item: f.is_anti_item,
        size: f.size,
        block: a.stream_map.file_block_index.get(i).copied().flatten(),
    });
    let coder = |c: &sevenz_rust2::Coder| Coder { id: c.encoder_method_id().into(), properties: c.properties().into() };
    let blocks = a.blocks.iter().map(|b| b.coders.iter().map(coder).collect());
    Ok(Listing { files: files.collect(), blocks: blocks.collect() })
}

/// What `sevenz_rust2::BlockDecoder` gives of the first file with something in it of a block:
/// its start, or all of it; or what it complains of.
pub uninterp spec fn block_data(file: Seq<u8>, block: nat, start: bool) -> Result<Seq<u8>, Grievance>;

/// `sevenz_rust2::BlockDecoder::for_each_entries` up to the first file with something in it,
/// which is read as far as it is wanted; or its error.
#[verifier::external_body]
fn read_block(file: &[u8], block: usize, start: bool) -> (r: Result<Vec<u8>, Sevenz>)
    requires
        listed(file@) matches Ok(l) && first_of(l) matches Ok(f) && f.block == block,
    ensures
        match r {
            Ok(v) => block_data(file@, block as nat, start) == Ok::<Seq<u8>, Grievance>(v@),
            Err(e) => block_data(file@, block as nat, start) == Err::<Seq<u8>, Grievance>(complaint_of(e)),
        },
{
    let (mut src, password, mut out) = (Cursor::new(file), Password::empty(), Vec::new());
    let archive = Archive::read(&mut src, &password)?;
    BlockDecoder::new(1, block, &archive, &password, &mut src).for_each_entries(&mut |entry, reader| {
        match reads(entry.has_stream, entry.size, start) {
            None => Ok(true),
            Some(n) => {
                reader.take(n).read_to_end(&mut out)?;
                Ok(false)
            }
        }
    })?;
    Ok(out)
}

/// What is said of an archive that can't be decoded.
pub open spec fn broken(c: Grievance) -> Fault {
    error_of(c, "the 7z archive is damaged"@)
}

/// The first file of an archive: where it is.
pub open spec fn first_in(file: Seq<u8>) -> Result<First, Fault> {
    match listed(file) {
        Err(c) => Err(broken(c)),
        Ok(l) => first_of(l),
    }
}

fn locate(file: &[u8]) -> (r: Result<First, Error>)
    ensures
        match r {
            Ok(f) => first_in(file@) == Ok::<First, Fault>(f),
            Err(e) => first_in(file@) == Err::<First, Fault>(e@),
        },
{
    match read_archive(file) {
        Err(e) => Err(error(&complaint(e), "the 7z archive is damaged")),
        Ok(l) => first_file(&l),
    }
}

/// The first file's size, and the first bytes of it (to see if it's a tar).
pub open spec fn peeked(file: Seq<u8>) -> Result<(u64, Seq<u8>), Fault> {
    match first_in(file) {
        Err(e) => Err(e),
        Ok(first) => match block_data(file, first.block as nat, true) {
            Err(c) => Err(broken(c)),
            Ok(head) => Ok((first.size, head)),
        },
    }
}

/// The first file's size, and the first bytes of it (to see if it's a tar).
pub fn peek(file: &[u8]) -> (r: Result<(u64, Vec<u8>), Error>)
    ensures
        match r {
            Ok((size, head)) => peeked(file@) == Ok::<(u64, Seq<u8>), Fault>((size, head@)),
            Err(e) => peeked(file@) == Err::<(u64, Seq<u8>), Fault>(e@),
        },
{
    let first: First = match locate(file) {
        Ok(f) => f,
        Err(e) => {
            return Err(e);
        },
    };
    match read_block(file, first.block, true) {
        Ok(head) => Ok((first.size, head)),
        Err(e) => Err(error(&complaint(e), "the 7z archive is damaged")),
    }
}

/// The first file's contents.
pub open spec fn opened(file: Seq<u8>) -> Result<Seq<u8>, Fault> {
    match first_in(file) {
        Err(e) => Err(e),
        Ok(first) => match block_data(file, first.block as nat, false) {
            Err(c) => Err(broken(c)),
            Ok(data) => if data.len() == first.size {
                Ok(data)
            } else {
                Err(bad_fault("the 7z archive is cut short"@))
            },
        },
    }
}

/// The first file's contents.
pub fn open(file: &[u8]) -> (r: Result<Vec<u8>, Error>)
    ensures
        match r {
            Ok(v) => opened(file@) == Ok::<Seq<u8>, Fault>(v@),
            Err(e) => opened(file@) == Err::<Seq<u8>, Fault>(e@),
        },
{
    let first: First = match locate(file) {
        Ok(f) => f,
        Err(e) => {
            return Err(e);
        },
    };
    match read_block(file, first.block, false) {
        Ok(data) => match finished(&first, data.len() as u64) {
            Ok(()) => Ok(data),
            Err(e) => Err(e),
        },
        Err(e) => Err(error(&complaint(e), "the 7z archive is damaged")),
    }
}

proof fn lemma_first_listed(files: Seq<Member>, from: int)
    requires
        0 <= from,
    ensures
        match first_listed(files, from) {
            Some(i) => from <= i < files.len() && files[i].is_file() && forall|k: int|
                from <= k < i ==> !(#[trigger] files[k]).is_file(),
            None => forall|k: int| from <= k < files.len() ==> !(#[trigger] files[k]).is_file(),
        },
    decreases files.len() - from,
{
    if from < files.len() && !files[from].is_file() {
        lemma_first_listed(files, from + 1);
    }
}

proof fn lemma_not_refused(coders: Seq<Step>, from: int)
    requires
        0 <= from,
        refused_from(coders, from) is None,
    ensures
        forall|k: int| from <= k < coders.len() ==> coder_refused(#[trigger] coders[k]) is None,
    decreases coders.len() - from,
{
    if from < coders.len() {
        lemma_not_refused(coders, from + 1);
    }
}

/// The file that is taken has something in it, as none that is listed before it has; nothing of
/// what decodes it is encrypted or needs more memory than is allowed.
pub proof fn law_first_file_is_the_first(l: Contents) -> (i: int)
    requires
        first_of(l) is Ok,
    ensures
        0 <= i < l.files.len(),
        l.files[i].size > 0 && l.files[i].has_stream && !l.files[i].is_directory && !l.files[i].is_anti_item,
        forall|k: int|
            0 <= k < i ==> (#[trigger] l.files[k]).size == 0 || !l.files[k].has_stream || l.files[k].is_directory
                || l.files[k].is_anti_item,
        first_of(l)->Ok_0.size == l.files[i].size,
        l.files[i].block == Some(first_of(l)->Ok_0.block),
        first_of(l)->Ok_0.block < l.blocks.len(),
        forall|k: int|
            0 <= k < l.blocks[first_of(l)->Ok_0.block as int].len() ==> {
                let c = #[trigger] l.blocks[first_of(l)->Ok_0.block as int][k];
                c.id != ID_AES256_SHA256@ && memory_of(c.id, c.properties) <= MAX_MEMORY
            },
{
    lemma_first_listed(l.files, 0);
    let i = first_listed(l.files, 0)->0;
    lemma_not_refused(l.blocks[first_of(l)->Ok_0.block as int], 0);
    assert forall|k: int| 0 <= k < i implies (#[trigger] l.files[k]).size == 0 || !l.files[k].has_stream
        || l.files[k].is_directory || l.files[k].is_anti_item by {
        assert(!l.files[k].is_file());
    }
    i
}

/// A dictionary of LZMA2 is two or three times a power of two, by whether its property is even.
pub proof fn law_lzma2_dictionaries(d: nat)
    ensures
        d % 2 == 0 ==> lzma2_dict(d) == 2 * pow2(11 + d / 2),
        d % 2 == 1 ==> lzma2_dict(d) == 3 * pow2(11 + d / 2),
    decreases d,
{
    if d < 2 {
        lemma2_to64();
        assert(11 + d / 2 == 11);
        assert(pow2(11) == 2048);
    } else {
        let e = (d - 2) as nat;
        law_lzma2_dictionaries(e);
        let n = 11 + d / 2;
        lemma_pow2_unfold(n);
        assert(11 + e / 2 == n - 1);
        assert(e % 2 == d % 2);
    }
}

} // verus!
