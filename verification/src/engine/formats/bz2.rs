//! bzip2 (.bz2): one stream after another, as `pbzip2` and `cat a.bz2 b.bz2` make them.
//! Zeros after the last stream (padding) are fine; anything else is an error, so a damaged
//! stream header can't pass for the end of the data.
//!
//! With several CPUs, blocks are decoded in parallel: each block starts with a 48-bit magic
//! number, at any bit position. A `Splitter` finds them, and each block becomes a stream of
//! its own (a header, the block, an end marker with the block's CRC). Every block's CRC and
//! every stream's combined CRC are checked. Anything odd (a magic number that was really
//! part of the data, damage) makes the plain decoder take over from the start of that
//! stream, so results are always the plain decoder's.

use vstd::prelude::*;
use vstd::slice::*;
use vstd::string::*;
use crate::engine::formats::codec::{
    begins, bunzip2, bunzipped, refused_with, streamed_bytes, Streamed, MOST_AT_ONCE,
};
use crate::engine::formats::source::{bad, has_bytes, holds, plain, push_bytes, Loaded};
use crate::error::{bad_fault, Error, Fault, Kind};

verus! {

pub const MAGIC: [u8; 3] = [0x42, 0x5a, 0x68];

/// A block's start (pi), as bytes.
pub const PI: [u8; 6] = [0x31, 0x41, 0x59, 0x26, 0x53, 0x59];

/// The end of a stream (the square root of pi), as bytes.
pub const ROOT_PI: [u8; 6] = [0x17, 0x72, 0x45, 0x38, 0x50, 0x90];

/// "BZh", a block size from 1 to 9, then a block's magic or the end of an empty stream.
pub open spec fn looks_bzip2(head: Seq<u8>) -> bool {
    &&& head.len() >= 10
    &&& holds(head, 0, MAGIC@)
    &&& 0x31 <= head[3] <= 0x39
    &&& holds(head, 4, PI@) || holds(head, 4, ROOT_PI@)
}

pub fn detect(head: &[u8]) -> (r: bool)
    ensures
        r == looks_bzip2(head@),
{
    head.len() >= 10 && has_bytes(head, 0, &MAGIC) && head[3] >= 0x31 && head[3] <= 0x39 && (has_bytes(
        head,
        4,
        &PI,
    ) || has_bytes(head, 4, &ROOT_PI))
}

// The plain decoder.

#[verifier::external_type_specification]
#[verifier::external_body]
pub struct ExDecompress(bzip2::Decompress);

/// The bytes that a `bzip2::Decompress` has taken in so far.
pub uninterp spec fn bz2_taken(z: bzip2::Decompress) -> Seq<u8>;

/// The bytes that a `bzip2::Decompress` has written so far.
pub uninterp spec fn bz2_made(z: bzip2::Decompress) -> Seq<u8>;

/// Is a `bzip2::Decompress` still at work: has it neither come to the end of its stream, nor
/// failed, nor run short of memory?
pub uninterp spec fn bz2_at_work(z: bzip2::Decompress) -> bool;

/// `bzip2::Decompress::new(false)`: a decoder at the start of a stream, which has taken
/// nothing in and written nothing.
#[verifier::external_body]
fn new_stream() -> (z: bzip2::Decompress)
    ensures
        bz2_taken(z) == Seq::<u8>::empty(),
        bz2_made(z) == Seq::<u8>::empty(),
        bz2_at_work(z),
{
    bzip2::Decompress::new(false)
}

/// What a call of the decoder came to.
#[derive(Clone, Copy, Debug, PartialEq, Eq, Structural)]
pub enum Came {
    /// There is more to come.
    On,
    /// The stream is over.
    Over,
    /// There was no memory for what the decoder needs.
    Short,
}

/// What a `bzip2::Decompress` makes of data that starts with a stream.
pub uninterp spec fn bz2_stream(data: Seq<u8>) -> Streamed;

/// One `bzip2::Decompress::decompress` of `input` into a buffer of `room` bytes: how much of
/// the input it took, what it wrote, and what it came to; or the text of its error.
///
/// The decoder goes by the data alone, however that is cut. Unless it ran short of memory, it
/// has then taken that much more in and written that much more, which is what comes first of
/// what the data gives. It goes on as long as there is input and room. Where a stream is over,
/// the decoder has taken all of it, and nothing behind it. Where the decoder wants more, what
/// it was given is the start of a stream; where it fails, it fails on what it was given,
/// whatever comes after that. It asks for memory once, for the size that the fourth byte of a
/// stream gives.
#[verifier::external_body]
fn decompress(stream: &mut bzip2::Decompress, input: &[u8], room: usize) -> (r: Result<
    (usize, Vec<u8>, Came),
    String,
>)
    requires
        input@.len() <= MOST_AT_ONCE,
        room <= MOST_AT_ONCE,
        bz2_at_work(*old(stream)),
    ensures
        match r {
            Ok((used, out, Came::Short)) => {
                &&& used <= input@.len()
                &&& out@.len() <= room
                &&& bz2_taken(*old(stream)).len() < 4 <= bz2_taken(*old(stream)).len() + input@.len()
            },
            Ok((used, out, came)) => {
                let taken = bz2_taken(*final(stream));
                let made = bz2_made(*final(stream));
                &&& used <= input@.len()
                &&& out@.len() <= room
                &&& taken == bz2_taken(*old(stream)) + input@.take(used as int)
                &&& made == bz2_made(*old(stream)) + out@
                &&& forall|more: Seq<u8>| begins(streamed_bytes(#[trigger] bz2_stream(taken + more)), made)
                &&& came == Came::Over ==> taken.len() > 0 && forall|more: Seq<u8>| #[trigger]
                    bz2_stream(taken + more) == (Streamed::Whole { len: taken.len(), made })
                &&& came == Came::On ==> bz2_at_work(*final(stream))
                &&& came == Came::On ==> used == input@.len() || out@.len() == room
                &&& came == Came::On && used == input@.len() && out@.len() < room ==> bz2_stream(taken) == (
                Streamed::Unfinished { made })
            },
            Err(e) => forall|more: Seq<u8>|
                refused_with(
                    #[trigger] bz2_stream((bz2_taken(*old(stream)) + input@) + more),
                    bz2_made(*old(stream)).len() + room as nat,
                    e@,
                ),
        },
{
    let mut out = vec![0u8; room];
    let (used, made) = (stream.total_in(), stream.total_out());
    let status = stream.decompress(input, &mut out).map_err(|e| e.to_string())?;
    out.truncate((stream.total_out() - made) as usize);
    let came = match status {
        bzip2::Status::StreamEnd => Came::Over,
        bzip2::Status::MemNeeded => Came::Short,
        _ => Came::On,
    };
    Ok(((stream.total_in() - used) as usize, out, came))
}

/// What is between streams.
#[derive(Clone, Copy, Debug, PartialEq, Eq, Structural)]
pub enum Between {
    /// The end of the data.
    End,
    /// Another stream.
    Stream,
    /// This many zeros of padding.
    Padding(usize),
    /// Something else.
    Other,
}

/// The zeros at the start of `s`.
pub open spec fn zero_run(s: Seq<u8>) -> nat
    decreases s.len(),
{
    if s.len() > 0 && s[0] == 0 {
        1 + zero_run(s.skip(1))
    } else {
        0
    }
}

/// Does `input` go on with a stream's magic number, as far as it goes?
pub open spec fn starts_stream(input: Seq<u8>) -> bool {
    &&& input.len() > 0
    &&& forall|i: int| 0 <= i < input.len() && i < 3 ==> #[trigger] input[i] == MAGIC@[i]
}

pub open spec fn between_of(input: Seq<u8>) -> Between {
    if input.len() == 0 {
        Between::End
    } else if starts_stream(input) {
        Between::Stream
    } else if input[0] == 0 {
        Between::Padding(zero_run(input) as usize)
    } else {
        Between::Other
    }
}

proof fn lemma_zero_run(s: Seq<u8>, n: int)
    requires
        0 <= n <= s.len(),
        forall|i: int| 0 <= i < n ==> #[trigger] s[i] == 0,
        n < s.len() ==> s[n] != 0,
    ensures
        zero_run(s) == n,
    decreases n,
{
    if n > 0 {
        assert forall|i: int| 0 <= i < n - 1 implies #[trigger] s.skip(1)[i] == 0 by {
            assert(s.skip(1)[i] == s[i + 1]);
        }
        assert(s[0] == 0);
        lemma_zero_run(s.skip(1), n - 1);
    }
}

/// What `input`, which comes after a stream, starts with. (No input: the end.)
pub fn between(input: &[u8]) -> (r: Between)
    ensures
        r == between_of(input@),
{
    if input.len() == 0 {
        return Between::End;
    }
    let b0: bool = input[0] == 0x42;
    let b1: bool = input.len() < 2 || input[1] == 0x5a;
    let b2: bool = input.len() < 3 || input[2] == 0x68;
    if b0 && b1 && b2 {
        return Between::Stream;
    }
    proof {
        assert(MAGIC@[0] == 0x42 && MAGIC@[1] == 0x5a && MAGIC@[2] == 0x68);
        if starts_stream(input@) {
            assert(input@[0] == MAGIC@[0]);
            if input@.len() > 1 {
                assert(input@[1] == MAGIC@[1]);
            }
            if input@.len() > 2 {
                assert(input@[2] == MAGIC@[2]);
            }
        }
    }
    if input[0] != 0 {
        return Between::Other;
    }
    let mut n: usize = 0;
    while n < input.len() && input[n] == 0
        invariant
            n <= input@.len(),
            forall|i: int| 0 <= i < n ==> #[trigger] input@[i] == 0,
        decreases input@.len() - n,
    {
        n = n + 1;
    }
    proof {
        lemma_zero_run(input@, n as int);
    }
    Between::Padding(n)
}

/// What follows from a step of the decoder inside a stream that took `used` bytes and made
/// `made`: whether the stream is over, or what is wrong. `over` if the decoder says that the
/// stream is over, `ended` if there was no input for it.
pub open spec fn judged(used: nat, made: nat, over: bool, ended: bool) -> Result<bool, Fault> {
    if over {
        Ok(true)
    } else if made == 0 && ended {
        Err(bad_fault("the bzip2 data is cut short"@))
    } else if made == 0 && used == 0 {
        Err(bad_fault("the bzip2 data is damaged"@))
    } else {
        Ok(false)
    }
}

pub fn judge(used: usize, made: usize, over: bool, ended: bool) -> (r: Result<bool, Error>)
    ensures
        match r {
            Ok(b) => judged(used as nat, made as nat, over, ended) == Ok::<bool, Fault>(b),
            Err(e) => judged(used as nat, made as nat, over, ended) == Err::<bool, Fault>(e@),
        },
{
    if over {
        Ok(true)
    } else if made == 0 && ended {
        Err(bad("the bzip2 data is cut short"))
    } else if made == 0 && used == 0 {
        Err(bad("the bzip2 data is damaged"))
    } else {
        Ok(false)
    }
}

/// What the decoder says of damaged data.
pub open spec fn damaged_fault(why: Seq<char>) -> Fault {
    bad_fault("the bzip2 data is damaged ("@ + why + ")"@)
}

fn damaged(why: &str) -> (e: Error)
    ensures
        e@ == damaged_fault(why@),
{
    let mut s: String = "the bzip2 data is damaged (".to_owned();
    s.append(why);
    s.append(")");
    bad(s.as_str())
}

/// What a step gives: how much of the input it took, the bytes it made, whether the data has
/// come to its end.
pub struct Stepped {
    pub used: usize,
    pub out: Vec<u8>,
    pub end: bool,
    /// Did the decoder run short of memory?
    pub short: bool,
}

/// bzip2 data, decoded in order.
pub struct Bz2 {
    stream: Option<bzip2::Decompress>,
}

impl Bz2 {
    /// Inside a stream?
    pub closed spec fn inside(&self) -> bool {
        self.stream is Some
    }

    /// Inside a stream, the decoder is at work.
    pub closed spec fn wf(&self) -> bool {
        self.stream matches Some(z) ==> bz2_at_work(z)
    }

    /// What the stream it is in has given it so far.
    pub closed spec fn taken(&self) -> Seq<u8> {
        match self.stream {
            Some(z) => bz2_taken(z),
            None => Seq::empty(),
        }
    }

    /// What it has made of that.
    pub closed spec fn made(&self) -> Seq<u8> {
        match self.stream {
            Some(z) => bz2_made(z),
            None => Seq::empty(),
        }
    }

    pub fn new() -> (b: Bz2)
        ensures
            b.wf(),
            !b.inside(),
    {
        Bz2 { stream: None }
    }

    /// Goes on with `input` (what comes next of the data; nothing at its end), making `room`
    /// bytes at most. It takes input, makes bytes, comes to the end, enters or leaves a
    /// stream, or fails: it never does nothing. Out of a stream that failed, or for which
    /// there was no memory, it is outside again.
    pub fn step(&mut self, input: &[u8], room: usize) -> (r: Result<Stepped, Error>)
        requires
            old(self).wf(),
        ensures
            final(self).wf(),
            r is Err ==> !final(self).inside(),
            !old(self).inside() ==> (r matches Ok(s) ==> !s.short),
            !old(self).inside() ==> match between_of(input@) {
                Between::End => r matches Ok(s) && s.used == 0 && s.out@.len() == 0 && s.end
                    && !final(self).inside(),
                Between::Stream => r matches Ok(s) && s.used == 0 && s.out@.len() == 0 && !s.end
                    && final(self).inside() && final(self).taken().len() == 0 && final(self).made().len() == 0,
                Between::Padding(n) => r matches Ok(s) && s.used == n && s.out@.len() == 0 && !s.end
                    && !final(self).inside(),
                Between::Other => r matches Err(e) && e@ == bad_fault(
                    "the bzip2 file has unexpected data after its end"@,
                ) && !final(self).inside(),
            },
            old(self).inside() ==> match r {
                Ok(s) => {
                    let taken = old(self).taken() + input@.take(s.used as int);
                    let made = old(self).made() + s.out@;
                    &&& s.used <= input@.len()
                    &&& s.out@.len() <= room
                    &&& !s.end
                    &&& s.short ==> !final(self).inside() && old(self).taken().len() < 4 <= old(self).taken().len()
                        + input@.len()
                    &&& !s.short ==> begins(streamed_bytes(bz2_stream(old(self).taken() + input@)), made)
                    &&& !s.short && final(self).inside() ==> {
                        &&& s.used > 0 || s.out@.len() > 0
                        &&& s.used == input@.len() || s.used == MOST_AT_ONCE || s.out@.len() == room || s.out@.len()
                            == MOST_AT_ONCE
                        &&& final(self).taken() == taken
                        &&& final(self).made() == made
                    }
                    &&& !s.short && !final(self).inside() ==> taken.len() > 0 && bz2_stream(old(self).taken() + input@)
                        == (Streamed::Whole { len: taken.len(), made })
                },
                Err(e) => {
                    ||| bz2_stream(old(self).taken() + input@) matches Streamed::Refused { made, why } && made.len()
                        <= old(self).made().len() + room && e@ == damaged_fault(why)
                    ||| input@.len() == 0 && bz2_stream(old(self).taken()) == (Streamed::Unfinished {
                        made: old(self).made(),
                    }) && e@ == bad_fault("the bzip2 data is cut short"@)
                    ||| room == 0 && e@ == judged(0, 0, false, input@.len() == 0)->Err_0
                },
            },
    {
        match self.stream.take() {
            None => {
                match between(input) {
                    Between::End => Ok(Stepped { used: 0, out: Vec::new(), end: true, short: false }),
                    Between::Stream => {
                        self.stream = Some(new_stream());
                        Ok(Stepped { used: 0, out: Vec::new(), end: false, short: false })
                    },
                    Between::Padding(n) => Ok(Stepped { used: n, out: Vec::new(), end: false, short: false }),
                    Between::Other => Err(bad("the bzip2 file has unexpected data after its end")),
                }
            },
            Some(mut stream) => {
                let n: usize = if input.len() < MOST_AT_ONCE {
                    input.len()
                } else {
                    MOST_AT_ONCE
                };
                let space: usize = if room < MOST_AT_ONCE {
                    room
                } else {
                    MOST_AT_ONCE
                };
                let part: &[u8] = slice_subrange(input, 0, n);
                let ghost taken0 = bz2_taken(stream);
                let (used, out, came) = match decompress(&mut stream, part, space) {
                    Ok(step) => step,
                    Err(e) => {
                        proof {
                            assert((taken0 + part@) + input@.skip(n as int) =~= taken0 + input@);
                            assert(refused_with(
                                bz2_stream((taken0 + part@) + input@.skip(n as int)),
                                old(self).made().len() + space as nat,
                                e@,
                            ));
                        }
                        return Err(damaged(e.as_str()));
                    },
                };
                if came == Came::Short {
                    return Ok(Stepped { used, out, end: false, short: true });
                }
                proof {
                    assert(part@.take(used as int) =~= input@.take(used as int));
                    assert((taken0 + input@.take(used as int)) + input@.skip(used as int) =~= taken0 + input@);
                    assert(begins(
                        streamed_bytes(
                            bz2_stream((taken0 + input@.take(used as int)) + input@.skip(used as int)),
                        ),
                        old(self).made() + out@,
                    ));
                    if input@.len() == 0 {
                        assert(taken0 + input@.take(0) =~= taken0);
                        assert(old(self).made() + Seq::<u8>::empty() =~= old(self).made());
                        if out@.len() == 0 {
                            assert(old(self).made() + out@ =~= old(self).made());
                        }
                    }
                }
                match judge(used, out.len(), came == Came::Over, input.len() == 0) {
                    Ok(true) => {},
                    Ok(false) => {
                        self.stream = Some(stream);
                    },
                    Err(e) => return Err(e),
                }
                Ok(Stepped { used, out, end: false, short: false })
            },
        }
    }
}

/// What reading a file gives, up to what goes wrong.
#[verifier::ext_equal]
pub ghost struct Reading {
    pub bytes: Seq<u8>,
    pub fault: Option<Fault>,
}

/// What a bzip2 file gives from `at` on, where a stream may start: one stream after another, and
/// zeros after some of them.
pub open spec fn bunzip_from(file: Seq<u8>, at: int) -> Reading
    decreases file.len() - at,
{
    if at < 0 || at >= file.len() {
        Reading { bytes: Seq::empty(), fault: None }
    } else {
        let rest = file.skip(at);
        if starts_stream(rest) {
            match bz2_stream(rest) {
                Streamed::Whole { len, made } => if len == 0 || at + len > file.len() {
                    Reading { bytes: made, fault: None }
                } else {
                    let then_on = bunzip_from(file, at + len);
                    Reading { bytes: made + then_on.bytes, fault: then_on.fault }
                },
                Streamed::Unfinished { made } => Reading {
                    bytes: made,
                    fault: Some(bad_fault("the bzip2 data is cut short"@)),
                },
                Streamed::Refused { made, why } => Reading { bytes: made, fault: Some(damaged_fault(why)) },
            }
        } else if rest[0] == 0 {
            let n = zero_run(rest);
            if n == 0 || at + n > file.len() {
                Reading { bytes: Seq::empty(), fault: None }
            } else {
                bunzip_from(file, at + n)
            }
        } else {
            Reading {
                bytes: Seq::empty(),
                fault: Some(bad_fault("the bzip2 file has unexpected data after its end"@)),
            }
        }
    }
}

/// Is there a stream in the file, for which a decoder asks for memory?
pub open spec fn asks_for_memory(file: Seq<u8>) -> bool {
    exists|at: int| 0 <= at && at + 4 <= file.len() && starts_stream(#[trigger] file.skip(at))
}

/// Is `r` what comes of reading `file`, up to `most` bytes? For want of memory a read can fail
/// wherever a stream starts.
pub open spec fn bunzips(file: Seq<u8>, most: nat, r: Result<Vec<u8>, Error>) -> bool {
    let all = bunzip_from(file, 0);
    match r {
        Ok(v) => {
            &&& v@.len() <= most
            &&& begins(all.bytes, v@)
            &&& v@.len() < most ==> v@ == all.bytes && all.fault is None
        },
        Err(e) => {
            ||| all.fault == Some(e@) && all.bytes.len() <= most
            ||| e@ == no_memory_fault() && asks_for_memory(file)
        },
    }
}

pub open spec fn no_memory_fault() -> Fault {
    Fault { kind: Kind::Other, what: "out of memory"@ }
}

/// A file of one whole stream after another gives what they hold, one after another.
pub proof fn law_streams_follow_each_other(first: Seq<u8>, made: Seq<u8>, rest: Seq<u8>)
    requires
        starts_stream(first),
        first.len() >= 3,
        bz2_stream(first + rest) == (Streamed::Whole { len: first.len(), made }),
    ensures
        bunzip_from(first + rest, 0) == (Reading {
            bytes: made + bunzip_from(rest, 0).bytes,
            fault: bunzip_from(rest, 0).fault,
        }),
{
    let file = first + rest;
    assert(file.skip(0) =~= file);
    lemma_shifted(first, rest, 0);
}

proof fn lemma_shifted(first: Seq<u8>, rest: Seq<u8>, at: int)
    requires
        0 <= at <= rest.len(),
    ensures
        bunzip_from(first + rest, first.len() + at) == bunzip_from(rest, at),
    decreases rest.len() - at,
{
    let file = first + rest;
    if at < rest.len() {
        let part = rest.skip(at);
        assert(file.skip(first.len() + at) =~= part);
        if starts_stream(part) {
            if let Streamed::Whole { len, made } = bz2_stream(part) {
                if len > 0 && at + len <= rest.len() {
                    lemma_shifted(first, rest, at + len);
                }
            }
        } else if part[0] == 0 {
            lemma_zeros_run(part);
            lemma_shifted(first, rest, at + zero_run(part));
        }
    }
}

/// The most that is decoded at a time.
pub const PIECE: usize = 0x10_0000;

/// What a bzip2 file holds, up to `most` bytes. If that is less than `most`, the whole file is
/// streams, and zeros after some of them, and what comes out is what the streams hold one after
/// another.
#[verifier::rlimit(40)]
pub fn bunzip(file: &[u8], most: usize) -> (r: Result<Vec<u8>, Error>)
    ensures
        bunzips(file@, most as nat, r),
{
    let mut z: Bz2 = Bz2::new();
    let mut out: Vec<u8> = Vec::new();
    let mut at: usize = 0;
    let n: usize = file.len();
    let ghost all = bunzip_from(file@, 0);
    let ghost mut done: Seq<u8> = Seq::empty();
    let ghost mut from: int = 0;
    proof {
        assert(done + bunzip_from(file@, 0).bytes =~= all.bytes);
        assert(done + z.made() =~= out@);
    }
    while out.len() < most
        invariant
            at <= n == file@.len(),
            out@.len() <= most,
            all == bunzip_from(file@, 0),
            0 <= from <= at,
            all.bytes == done + bunzip_from(file@, from).bytes,
            all.fault == bunzip_from(file@, from).fault,
            out@ == done + z.made(),
            z.wf(),
            !z.inside() ==> from == at && z.made().len() == 0 && z.taken().len() == 0,
            z.inside() ==> {
                &&& from < n
                &&& starts_stream(file@.skip(from))
                &&& z.taken() == file@.subrange(from, at as int)
                &&& begins(streamed_bytes(bz2_stream(file@.skip(from))), z.made())
            },
        decreases most - out@.len(), n - at, phase(z),
    {
        let left: usize = most - out.len();
        let room: usize = if left < PIECE {
            left
        } else {
            PIECE
        };
        let input: &[u8] = slice_subrange(file, at, n);
        let ghost before = z;
        let ghost was = out@;
        proof {
            assert(input@ =~= file@.skip(at as int));
            lemma_zeros_run(input@);
            if z.inside() {
                assert(z.taken() + input@ =~= file@.skip(from));
                if input@.len() == 0 {
                    assert(z.taken() =~= file@.skip(from));
                }
            }
        }
        match z.step(input, room) {
            Err(e) => {
                proof {
                    if before.inside() {
                        lemma_failed(file@, from, done, before.made(), room as nat, e@);
                    }
                }
                return Err(e);
            },
            Ok(s) => {
                if s.end {
                    proof {
                        assert(out@ =~= all.bytes);
                        assert(all.bytes.take(out@.len() as int) =~= out@);
                    }
                    return Ok(out);
                }
                if s.short {
                    proof {
                        assert(before.inside());
                        assert(starts_stream(file@.skip(from)));
                    }
                    return Err(Error { kind: Kind::Other, what: "out of memory".to_owned() });
                }
                push_bytes(&mut out, &s.out);
                at = at + s.used;
                proof {
                    let took = input@.take(s.used as int);
                    if before.inside() {
                        assert(was + s.out@ =~= done + (before.made() + s.out@));
                        assert(before.taken() + took =~= file@.subrange(from, at as int));
                        if !z.inside() {
                            let made = before.made() + s.out@;
                            let rest = bunzip_from(file@, at as int);
                            assert(bz2_stream(file@.skip(from)) == (Streamed::Whole {
                                len: (at - from) as nat,
                                made,
                            }));
                            assert(bunzip_from(file@, from) == (Reading {
                                bytes: made + rest.bytes,
                                fault: rest.fault,
                            }));
                            assert(done + (made + rest.bytes) =~= (done + made) + rest.bytes);
                            done = done + made;
                            from = at as int;
                            assert(done + z.made() =~= out@);
                        }
                    } else if z.inside() {
                        assert(took.len() == 0);
                        assert(z.taken() =~= file@.subrange(from, at as int));
                        assert(out@ =~= was);
                        assert(z.made() =~= before.made());
                        let all_made = streamed_bytes(bz2_stream(file@.skip(from)));
                        assert(all_made.take(0) =~= z.made());
                    } else {
                        assert(out@ =~= was);
                        assert(bunzip_from(file@, from) == bunzip_from(file@, at as int));
                        from = at as int;
                    }
                }
            },
        }
    }
    proof {
        lemma_so_many(file@, from, done, z.made(), z.inside());
    }
    Ok(out)
}

/// What went wrong inside a stream is what is wrong with the file.
proof fn lemma_failed(file: Seq<u8>, from: int, done: Seq<u8>, made: Seq<u8>, room: nat, f: Fault)
    requires
        0 <= from < file.len(),
        starts_stream(file.skip(from)),
        ({
            ||| bz2_stream(file.skip(from)) matches Streamed::Refused { made: m, why } && m.len() <= made.len() + room
                && f == damaged_fault(why)
            ||| bz2_stream(file.skip(from)) == (Streamed::Unfinished { made }) && f == bad_fault(
                "the bzip2 data is cut short"@,
            )
        }),
    ensures
        bunzip_from(file, from).fault == Some(f),
        (done + bunzip_from(file, from).bytes).len() <= done.len() + made.len() + room,
{
}

/// What has come out so far is what comes first.
proof fn lemma_so_many(file: Seq<u8>, from: int, done: Seq<u8>, made: Seq<u8>, inside: bool)
    requires
        0 <= from <= file.len(),
        inside ==> {
            &&& from < file.len()
            &&& starts_stream(file.skip(from))
            &&& begins(streamed_bytes(bz2_stream(file.skip(from))), made)
        },
        !inside ==> made.len() == 0,
    ensures
        begins(done + bunzip_from(file, from).bytes, done + made),
{
    let all = done + bunzip_from(file, from).bytes;
    let out = done + made;
    if inside {
        let whole = streamed_bytes(bz2_stream(file.skip(from)));
        let bytes = bunzip_from(file, from).bytes;
        assert(bytes.take(whole.len() as int) =~= whole);
        assert forall|i: int| 0 <= i < made.len() implies made[i] == bytes[i] by {
            assert(whole.take(made.len() as int)[i] == whole[i]);
            assert(bytes.take(whole.len() as int)[i] == bytes[i]);
        }
    }
    assert(all.take(out.len() as int) =~= out);
}

/// Where a decoder that takes and makes nothing goes next: out of a stream, then into one.
spec fn phase(z: Bz2) -> nat {
    if !z.inside() {
        1
    } else if z.taken().len() > 0 {
        2
    } else {
        0
    }
}

proof fn lemma_zeros_run(s: Seq<u8>)
    ensures
        zero_run(s) <= s.len(),
        forall|i: int| 0 <= i < zero_run(s) ==> #[trigger] s[i] == 0,
        s.len() > 0 && s[0] == 0 ==> zero_run(s) > 0,
    decreases s.len(),
{
    if s.len() > 0 && s[0] == 0 {
        lemma_zeros_run(s.skip(1));
        assert forall|i: int| 0 <= i < zero_run(s) implies #[trigger] s[i] == 0 by {
            if i > 0 {
                assert(s.skip(1)[i - 1] == s[i]);
            }
        }
    }
}

// In parallel: bits.

/// A block's start, as a number.
pub const BLOCK_MAGIC: u64 = 0x3141_5926_5359;

/// The end of a stream, as a number; the stream's CRC follows.
pub const END_MAGIC: u64 = 0x1772_4538_5090;

/// The most compressed bytes a block takes (900k of input, and then some).
pub const MAX_PACKED_BLOCK: u64 = 0x20_0000;

/// The most a block decodes to (runs of 4 to 255 equal bytes take 5 bytes of a 900k block).
pub const MAX_BLOCK_OUT: usize = 0x300_0000;

/// How much the splitter reads at a time.
pub const READ: usize = 0x40_0000;

/// The biggest file whose bits can be counted.
pub const MAX_FILE: u64 = 0x1000_0000_0000_0000;

/// A bit of some bytes; in each byte the most significant comes first.
pub open spec fn bit(data: Seq<u8>, i: int) -> bool {
    (data[i / 8] >> ((7 - i % 8) as u8)) & 1 == 1
}

/// The bits of some bytes.
pub open spec fn bits_in(data: Seq<u8>) -> Seq<bool> {
    Seq::new(data.len() * 8, |i: int| bit(data, i))
}

/// The number that `n` bits from `at` on are, the most significant first. Bits past the end
/// are zeros.
pub open spec fn value(bits: Seq<bool>, at: int, n: nat) -> nat
    decreases n,
{
    if n == 0 {
        0
    } else {
        2 * value(bits, at, (n - 1) as nat) + (if at + n - 1 < bits.len() && bits[at + n - 1] {
            1nat
        } else {
            0
        })
    }
}

pub open spec fn power(n: nat) -> nat
    decreases n,
{
    if n == 0 {
        1
    } else {
        2 * power((n - 1) as nat)
    }
}

proof fn lemma_value_bound(bits: Seq<bool>, at: int, n: nat)
    ensures
        value(bits, at, n) < power(n),
    decreases n,
{
    if n > 0 {
        lemma_value_bound(bits, at, (n - 1) as nat);
    }
}

/// Taking the first of some bits off.
proof fn lemma_value_first(bits: Seq<bool>, at: int, n: nat)
    requires
        0 <= at,
    ensures
        value(bits, at, n + 1) == value(bits, at + 1, n) + (if at < bits.len() && bits[at] {
            power(n)
        } else {
            0
        }),
    decreases n,
{
    if n > 0 {
        lemma_value_first(bits, at, (n - 1) as nat);
    } else {
        assert(value(bits, at, 0) == 0);
        assert(power(0) == 1);
    }
}

/// The same bits elsewhere.
proof fn lemma_value_same(a: Seq<bool>, at: int, b: Seq<bool>, bt: int, n: nat)
    requires
        0 <= at,
        0 <= bt,
        forall|i: int|
            0 <= i < n ==> (#[trigger] (at + i) < a.len() && a[at + i]) == (bt + i < b.len() && b[bt + i]),
    ensures
        value(a, at, n) == value(b, bt, n),
    decreases n,
{
    if n > 0 {
        lemma_value_same(a, at, b, bt, (n - 1) as nat);
        let i = n - 1;
        assert((at + i < a.len() && a[at + i]) == (bt + i < b.len() && b[bt + i]));
    }
}

proof fn lemma_power(n: nat)
    requires
        n <= 64,
    ensures
        power(n) <= 0x1_0000_0000_0000_0000,
        n == 47 ==> power(n) == 0x8000_0000_0000,
        n == 48 ==> power(n) == 0x1_0000_0000_0000,
        n == 32 ==> power(n) == 0x1_0000_0000,
        n <= 8 ==> power(n) <= 256,
        n <= 7 ==> power(n) <= 128,
{
    reveal_with_fuel(power, 66);
    assert(power(64) == 0x1_0000_0000_0000_0000);
    lemma_power_grows(n, 64);
    if n <= 8 {
        lemma_power_grows(n, 8);
    }
    if n <= 7 {
        lemma_power_grows(n, 7);
    }
}

proof fn lemma_power_grows(a: nat, b: nat)
    requires
        a <= b,
    ensures
        power(a) <= power(b),
    decreases b - a,
{
    if a < b {
        lemma_power_grows(a, (b - 1) as nat);
    }
}

fn get_bit(data: &[u8], i: usize) -> (r: bool)
    requires
        i / 8 < data@.len(),
    ensures
        r == bit(data@, i as int),
{
    let b: u8 = data[i / 8];
    let shift: u8 = (7 - i % 8) as u8;
    (b >> shift) & 1 == 1
}

/// `n` bits from bit `at` on, as a number.
fn bits(data: &[u8], at: usize, n: u32) -> (v: u64)
    requires
        n <= 64,
        at + n <= data@.len() * 8,
        data@.len() * 8 <= usize::MAX,
    ensures
        v == value(bits_in(data@), at as int, n as nat),
        v < power(n as nat),
{
    let mut v: u64 = 0;
    let mut i: u32 = 0;
    let ghost all = bits_in(data@);
    while i < n
        invariant
            i <= n <= 64,
            at + n <= data@.len() * 8,
            data@.len() * 8 <= usize::MAX,
            all == bits_in(data@),
            v == value(all, at as int, i as nat),
        decreases n - i,
    {
        proof {
            lemma_value_bound(all, at as int, (i + 1) as nat);
            lemma_power((i + 1) as nat);
            assert(all[at + i] == bit(data@, at + i));
        }
        let b: u64 = if get_bit(data, at + i as usize) {
            1
        } else {
            0
        };
        v = v * 2 + b;
        i = i + 1;
    }
    proof {
        lemma_value_bound(all, at as int, n as nat);
    }
    v
}

/// The first magic number that starts at bit `from` or later, and not later than bit
/// `limit`: its first bit, and whether it ends a stream.
pub open spec fn magic_from(all: Seq<bool>, from: int, limit: int) -> Option<(int, bool)>
    decreases limit - from + 1,
{
    if from > limit || from + 48 > all.len() {
        None
    } else if value(all, from, 48) == BLOCK_MAGIC {
        Some((from, false))
    } else if value(all, from, 48) == END_MAGIC {
        Some((from, true))
    } else {
        magic_from(all, from + 1, limit)
    }
}

/// The first magic number that starts at bit `from` of `data` or later, and not later than
/// bit `limit`.
fn find(data: &[u8], from: usize, limit: usize) -> (r: Option<(usize, bool)>)
    requires
        data@.len() * 8 <= usize::MAX,
        from <= limit,
    ensures
        match r {
            Some((at, end)) => magic_from(bits_in(data@), from as int, limit as int) == Some((at as int, end))
                && from <= at <= limit && at + 48 <= data@.len() * 8,
            None => magic_from(bits_in(data@), from as int, limit as int) is None,
        },
{
    let ghost all = bits_in(data@);
    let count: usize = data.len() * 8;
    if count < 48 || from > count - 48 {
        return None;
    }
    let mut at: usize = from;
    let mut v: u64 = bits(data, from, 48);
    proof {
        lemma_power(48);
    }
    loop
        invariant
            from <= at <= limit,
            at + 48 <= count == data@.len() * 8,
            data@.len() * 8 <= usize::MAX,
            all == bits_in(data@),
            v == value(all, at as int, 48),
            v < 0x1_0000_0000_0000,
            magic_from(all, from as int, limit as int) == magic_from(all, at as int, limit as int),
        decreases limit - at,
    {
        if v == BLOCK_MAGIC {
            return Some((at, false));
        }
        if v == END_MAGIC {
            return Some((at, true));
        }
        if at == limit || at + 48 == count {
            assert(magic_from(all, at + 1, limit as int) is None);
            return None;
        }
        let next: u64 = if get_bit(data, at + 48) {
            1
        } else {
            0
        };
        proof {
            lemma_value_first(all, at as int, 47);
            lemma_value_bound(all, at + 1, 47);
            lemma_power(47);
            assert(all[at as int] == bit(data@, at as int));
            assert(all[at + 48] == bit(data@, at + 48));
        }
        let low: u64 = if v >= 0x8000_0000_0000 {
            v - 0x8000_0000_0000
        } else {
            v
        };
        v = low * 2 + next;
        at = at + 1;
    }
}

// Writing bits.

/// The last `n` bits of a number.
pub open spec fn bits_of(v: u64, n: nat) -> Seq<bool> {
    Seq::new(n, |i: int| (v >> ((n - 1 - i) as u64)) & 1 == 1)
}

/// Bits as bytes; zeros fill the last one.
pub open spec fn packed(all: Seq<bool>) -> Seq<u8> {
    Seq::new((all.len() + 7) / 8, |k: int| value(all, 8 * k, 8) as u8)
}

pub struct BitWriter {
    out: Vec<u8>,
    acc: u8,
    n: u8,
    bits: Ghost<Seq<bool>>,
}

impl View for BitWriter {
    type V = Seq<bool>;

    closed spec fn view(&self) -> Seq<bool> {
        self.bits@
    }
}

proof fn lemma_value_push(all: Seq<bool>, b: bool, at: int, n: nat)
    requires
        0 <= at,
        at + n <= all.len() || !b,
    ensures
        value(all.push(b), at, n) == value(all, at, n),
    decreases n,
{
    if n > 0 {
        lemma_value_push(all, b, at, (n - 1) as nat);
    }
}

impl BitWriter {
    pub closed spec fn wf(&self) -> bool {
        &&& self.n == self.bits@.len() % 8
        &&& self.out@.len() == self.bits@.len() / 8
        &&& self.acc == value(self.bits@, 8 * self.out@.len() as int, self.n as nat)
        &&& forall|k: int|
            0 <= k < self.out@.len() ==> #[trigger] self.out@[k] == value(self.bits@, 8 * k, 8)
    }

    /// Starts with whole bytes.
    pub fn new(bytes: &[u8]) -> (w: BitWriter)
        ensures
            w.wf(),
            w@ == bits_in(bytes@),
    {
        let mut w: BitWriter = BitWriter { out: Vec::new(), acc: 0, n: 0, bits: Ghost(Seq::empty()) };
        let mut i: usize = 0;
        proof {
            assert(bits_in(bytes@.take(0)) =~= Seq::<bool>::empty());
        }
        while i < bytes.len()
            invariant
                i <= bytes@.len(),
                w.wf(),
                w@ == bits_in(bytes@.take(i as int)),
            decreases bytes@.len() - i,
        {
            let ghost before = w@;
            w.put(bytes[i] as u64, 8);
            proof {
                let b = bytes@[i as int];
                assert(bits_in(bytes@.take(i + 1)) =~= before + bits_of(b as u64, 8)) by {
                    let all = bits_in(bytes@.take(i + 1));
                    assert forall|k: int| 0 <= k < all.len() implies all[k] == (before + bits_of(b as u64, 8))[k] by {
                        if k < 8 * i {
                            assert(bytes@.take(i + 1)[k / 8] == bytes@.take(i as int)[k / 8]);
                        } else {
                            let j = k - 8 * i;
                            assert(k / 8 == i && k % 8 == j);
                            let s = (7 - j) as u8;
                            assert((b >> s) & 1 == 1 <==> ((b as u64) >> (s as u64)) & 1 == 1) by (bit_vector)
                                requires
                                    s < 8,
                            ;
                        }
                    }
                }
            }
            i = i + 1;
        }
        proof {
            assert(bytes@.take(bytes@.len() as int) == bytes@);
        }
        w
    }

    /// One more bit.
    pub fn push(&mut self, b: bool)
        requires
            old(self).wf(),
        ensures
            final(self).wf(),
            final(self)@ == old(self)@.push(b),
    {
        let ghost before = self.bits@;
        let ghost whole = self.out@.len() as int;
        proof {
            lemma_value_bound(before, 8 * whole, self.n as nat);
            lemma_power(self.n as nat);
            lemma_value_push(before, b, 8 * whole, self.n as nat);
            assert forall|k: int| 0 <= k < whole implies value(before.push(b), 8 * k, 8) == #[trigger] value(
                before,
                8 * k,
                8,
            ) by {
                lemma_value_push(before, b, 8 * k, 8);
            }
        }
        self.acc = self.acc * 2 + (if b {
            1
        } else {
            0
        });
        self.n = self.n + 1;
        self.bits = Ghost(before.push(b));
        proof {
            assert(8 * whole + self.n - 1 == before.len());
        }
        if self.n == 8 {
            self.out.push(self.acc);
            self.acc = 0;
            self.n = 0;
        }
    }

    /// The last `n` bits of a number.
    pub fn put(&mut self, v: u64, n: u32)
        requires
            old(self).wf(),
            n <= 64,
        ensures
            final(self).wf(),
            final(self)@ == old(self)@ + bits_of(v, n as nat),
    {
        let mut i: u32 = 0;
        proof {
            assert(old(self)@ + bits_of(v, n as nat).take(0) =~= old(self)@);
        }
        while i < n
            invariant
                i <= n <= 64,
                self.wf(),
                self@ == old(self)@ + bits_of(v, n as nat).take(i as int),
            decreases n - i,
        {
            let b: bool = (v >> ((n - 1 - i) as u64)) & 1 == 1;
            proof {
                let s = bits_of(v, n as nat);
                assert(s[i as int] == b);
                assert(old(self)@ + s.take(i + 1) =~= (old(self)@ + s.take(i as int)).push(b));
            }
            self.push(b);
            i = i + 1;
        }
        proof {
            let s = bits_of(v, n as nat);
            assert(s.take(s.len() as int) =~= s);
        }
    }

    /// All the bits, as bytes.
    #[verifier::spinoff_prover]
    #[verifier::rlimit(40)]
    pub fn finish(self) -> (out: Vec<u8>)
        requires
            self.wf(),
        ensures
            out@ == packed(self@),
    {
        let ghost all = self.bits@;
        let mut w: BitWriter = self;
        while w.n > 0
            invariant
                w.wf(),
                w.bits@.len() >= all.len(),
                (w.bits@.len() + 7) / 8 == (all.len() + 7) / 8,
                forall|at: int, n: nat| 0 <= at ==> #[trigger] value(w.bits@, at, n) == value(all, at, n),
            decreases (8 - w.n) % 8,
        {
            let ghost before = w.bits@;
            w.push(false);
            proof {
                assert forall|at: int, n: nat| 0 <= at implies #[trigger] value(w.bits@, at, n) == value(
                    all,
                    at,
                    n,
                ) by {
                    lemma_value_push(before, false, at, n);
                    assert(value(before, at, n) == value(all, at, n));
                }
            }
        }
        proof {
            assert forall|k: int| 0 <= k < w.out@.len() implies w.out@[k] == packed(all)[k] by {
                assert(w.out@[k] == value(w.bits@, 8 * k, 8));
            }
            assert(w.out@ =~= packed(all));
        }
        w.out
    }
}

// In parallel: streams and blocks.

/// Where a splitter is.
#[derive(Clone, Copy, Debug, PartialEq, Eq, Structural)]
pub enum Place {
    /// Where the next stream starts, or where the file has ended.
    Between(u64),
    /// In the zeros at the end of the file.
    Zeros(u64),
    /// After the header of the stream at this offset.
    Begun { level: u8, pos: u64 },
    /// At a block; its first bit.
    Block { level: u8, at: u64 },
    /// At the end of a stream; the first bit of its end marker.
    Ending(u64),
    /// Nothing more to find.
    Over,
}

/// What a splitter finds, in the file's order.
pub enum Item {
    /// A stream starts at this offset of the file.
    Stream(u64),
    /// A block: its CRC, and the block as a stream of its own.
    Block { crc: u32, stream: Vec<u8> },
    /// The end of a stream, with its combined CRC.
    StreamEnd(u32),
    /// The end of the file.
    End,
    /// Something a bzip2 file shouldn't hold here: the plain decoder takes over and says
    /// what it is.
    Trouble,
}

/// What an `Item` says.
pub ghost enum Part {
    Stream(u64),
    Block { crc: u32, stream: Seq<u8> },
    StreamEnd(u32),
    End,
    Trouble,
}

impl View for Item {
    type V = Part;

    open spec fn view(&self) -> Part {
        match *self {
            Item::Stream(at) => Part::Stream(at),
            Item::Block { crc, stream } => Part::Block { crc, stream: stream@ },
            Item::StreamEnd(crc) => Part::StreamEnd(crc),
            Item::End => Part::End,
            Item::Trouble => Part::Trouble,
        }
    }
}

/// The four bytes of a stream's header.
pub open spec fn header_of(level: u8) -> Seq<u8> {
    MAGIC@.push(level)
}

/// The block from bit `a` to bit `b` as a stream of its own: the header, the block, an end
/// marker, and the block's CRC as the stream's.
pub open spec fn stream_of(file: Seq<u8>, level: u8, a: int, b: int, crc: u32) -> Seq<u8> {
    packed(
        bits_in(header_of(level)) + bits_in(file).subrange(a, b) + bits_of(END_MAGIC, 48) + bits_of(
            crc as u64,
            32,
        ),
    )
}

/// The 32 bits from bit `at` on.
pub open spec fn word_at(file: Seq<u8>, at: int) -> u32 {
    value(bits_in(file), at, 32) as u32
}

/// The block that starts at bit `a`: it goes to the next magic number, after its own header
/// and within a block's reach.
pub open spec fn block_from(file: Seq<u8>, level: u8, a: int) -> (Part, Place) {
    match magic_from(bits_in(file), a + 80, a + MAX_PACKED_BLOCK * 8) {
        None => (Part::Trouble, Place::Over),
        Some((b, end)) => (
            Part::Block { crc: word_at(file, a + 48), stream: stream_of(file, level, a, b, word_at(file, a + 48)) },
            if end {
                Place::Ending(b as u64)
            } else {
                Place::Block { level, at: b as u64 }
            },
        ),
    }
}

/// The byte after bit `b`.
pub open spec fn byte_after(b: int) -> int {
    (b + 7) / 8
}

/// What a splitter finds next, and where it is then.
pub open spec fn next_of(file: Seq<u8>, place: Place) -> (Part, Place) {
    let over = |p: Part| (p, Place::Over);
    match place {
        Place::Between(pos) => if pos >= file.len() {
            over(Part::End)
        } else if file[pos as int] == 0 {
            zeros_from(file, pos as int)
        } else if pos + 14 > file.len() || !holds(file, pos as int, MAGIC@) || !(0x31 <= file[pos + 3] <= 0x39) {
            over(Part::Trouble)
        } else {
            (Part::Stream(pos), Place::Begun { level: file[pos + 3], pos })
        },
        Place::Zeros(pos) => zeros_from(file, pos as int),
        Place::Begun { level, pos } => {
            let a = (pos + 4) * 8;
            let v = value(bits_in(file), a, 48);
            if v == BLOCK_MAGIC {
                block_from(file, level, a)
            } else if v == END_MAGIC {
                // An empty stream.
                (Part::StreamEnd(word_at(file, a + 48)), Place::Between((pos + 14) as u64))
            } else {
                over(Part::Trouble)
            }
        },
        Place::Block { level, at } => block_from(file, level, at as int),
        Place::Ending(b) => if byte_after(b + 80) > file.len() {
            over(Part::Trouble)
        } else {
            (Part::StreamEnd(word_at(file, b + 48)), Place::Between(byte_after(b + 80) as u64))
        },
        Place::Over => over(Part::End),
    }
}

/// Nothing but zeros up to the end of the file?
pub open spec fn zeros_from(file: Seq<u8>, pos: int) -> (Part, Place) {
    if forall|i: int| pos <= i < file.len() ==> #[trigger] file[i] == 0 {
        (Part::End, Place::Over)
    } else {
        (Part::Trouble, Place::Over)
    }
}

/// Is a place one that a splitter comes to in a file of that size?
pub open spec fn in_file(place: Place, size: int) -> bool {
    match place {
        Place::Between(pos) => pos <= size,
        Place::Zeros(pos) => pos <= size,
        Place::Begun { level, pos } => pos + 14 <= size,
        Place::Block { level, at } => at + 48 <= size * 8,
        Place::Ending(b) => b + 48 <= size * 8,
        Place::Over => true,
    }
}

proof fn lemma_magic_in(all: Seq<bool>, from: int, limit: int)
    ensures
        magic_from(all, from, limit) matches Some((b, end)) ==> from <= b <= limit && b + 48 <= all.len(),
    decreases limit - from + 1,
{
    if !(from > limit || from + 48 > all.len()) {
        lemma_magic_in(all, from + 1, limit);
    }
}

/// Bits of a part of the file.
proof fn lemma_part_bits(file: Seq<u8>, lo: int, hi: int)
    requires
        0 <= lo <= hi <= file.len(),
    ensures
        bits_in(file.subrange(lo, hi)) == bits_in(file).subrange(lo * 8, hi * 8),
{
    let part = file.subrange(lo, hi);
    let a = bits_in(part);
    let b = bits_in(file).subrange(lo * 8, hi * 8);
    assert forall|i: int| 0 <= i < a.len() implies a[i] == b[i] by {
        assert(part[i / 8] == file[lo + i / 8]);
        assert((lo * 8 + i) / 8 == lo + i / 8);
        assert((lo * 8 + i) % 8 == i % 8);
    }
    assert(a =~= b);
}

proof fn lemma_part_value(all: Seq<bool>, lo: int, hi: int, at: int, n: nat)
    requires
        0 <= lo <= hi <= all.len(),
        0 <= at,
        at + n <= hi - lo,
    ensures
        value(all.subrange(lo, hi), at, n) == value(all, lo + at, n),
{
    let part = all.subrange(lo, hi);
    assert forall|i: int| 0 <= i < n implies (#[trigger] (at + i) < part.len() && part[at + i]) == (lo + at + i
        < all.len() && all[lo + at + i]) by {}
    lemma_value_same(part, at, all, lo + at, n);
}

proof fn lemma_part_magic(all: Seq<bool>, lo: int, hi: int, from: int, limit: int)
    requires
        0 <= lo <= hi <= all.len(),
        0 <= from,
        lo + limit + 48 <= hi || hi == all.len(),
    ensures
        match magic_from(all.subrange(lo, hi), from, limit) {
            Some((b, end)) => magic_from(all, lo + from, lo + limit) == Some((lo + b, end)),
            None => magic_from(all, lo + from, lo + limit) is None,
        },
    decreases limit - from + 1,
{
    let part = all.subrange(lo, hi);
    if from <= limit && from + 48 <= part.len() {
        lemma_part_value(all, lo, hi, from, 48);
        lemma_part_magic(all, lo, hi, from + 1, limit);
    }
}

/// Finds the streams and blocks of a bzip2 file.
pub struct Splitter {
    pub place: Place,
}

impl Splitter {
    pub fn new() -> (s: Splitter)
        ensures
            s.place == Place::Between(0),
    {
        Splitter { place: Place::Between(0) }
    }

    /// The next item of a file of `size` bytes; or the part of it that is needed for that.
    pub fn next(&mut self, size: u64, have: &Loaded) -> (r: Result<Item, (u64, usize)>)
        requires
            size <= MAX_FILE,
            in_file(old(self).place, size as int),
        ensures
            in_file(final(self).place, size as int),
            match r {
                Ok(item) => forall|file: Seq<u8>| #[trigger]
                    have.shows(plain(size), file) ==> next_of(file, old(self).place) == (
                        item@,
                        final(self).place,
                    ),
                Err((offset, len)) => have.lacks(plain(size), offset, len) && forall|file: Seq<u8>| #[trigger]
                    have.shows(plain(size), file) ==> next_of(file, final(self).place) == next_of(
                        file,
                        old(self).place,
                    ),
            },
    {
        match self.place {
            Place::Between(pos) => self.between(size, have, pos),
            Place::Zeros(pos) => self.zeros(size, have, pos),
            Place::Begun { level, pos } => {
                let b: Vec<u8> = match have.get(pos, 14) {
                    Some(b) => b,
                    None => {
                        return Err((pos, 14));
                    },
                };
                let v: u64 = bits(&b, 32, 48);
                let crc: u64 = bits(&b, 80, 32);
                let a: u64 = (pos + 4) * 8;
                proof {
                    lemma_power(32);
                    assert forall|file: Seq<u8>| #[trigger] have.shows(plain(size), file) implies v == value(
                        bits_in(file),
                        a as int,
                        48,
                    ) && crc == word_at(file, a + 48) by {
                        lemma_part_bits(file, pos as int, pos + 14);
                        lemma_part_value(bits_in(file), pos * 8, (pos + 14) * 8, 32, 48);
                        lemma_part_value(bits_in(file), pos * 8, (pos + 14) * 8, 80, 32);
                    }
                }
                if v == BLOCK_MAGIC {
                    return self.block(size, have, level, a);
                }
                if v == END_MAGIC {
                    self.place = Place::Between(pos + 14);
                    return Ok(Item::StreamEnd(crc as u32));
                }
                self.place = Place::Over;
                Ok(Item::Trouble)
            },
            Place::Block { level, at } => self.block(size, have, level, at),
            Place::Ending(b) => {
                let end: u64 = (b + 80 + 7) / 8;
                if end > size {
                    self.place = Place::Over;
                    return Ok(Item::Trouble);
                }
                let lo: u64 = b / 8;
                let bytes: Vec<u8> = match have.get(lo, (end - lo) as usize) {
                    Some(v) => v,
                    None => {
                        return Err((lo, (end - lo) as usize));
                    },
                };
                let at: usize = (b - lo * 8) as usize + 48;
                let crc: u64 = bits(&bytes, at, 32);
                proof {
                    lemma_power(32);
                    assert forall|file: Seq<u8>| #[trigger] have.shows(plain(size), file) implies crc == word_at(
                        file,
                        b + 48,
                    ) by {
                        lemma_part_bits(file, lo as int, end as int);
                        lemma_part_value(bits_in(file), lo * 8, end * 8, at as int, 32);
                    }
                }
                self.place = Place::Between(end);
                Ok(Item::StreamEnd(crc as u32))
            },
            Place::Over => Ok(Item::End),
        }
    }

    fn between(&mut self, size: u64, have: &Loaded, pos: u64) -> (r: Result<Item, (u64, usize)>)
        requires
            size <= MAX_FILE,
            in_file(old(self).place, size as int),
            old(self).place == Place::Between(pos),
        ensures
            in_file(final(self).place, size as int),
            match r {
                Ok(item) => forall|file: Seq<u8>| #[trigger]
                    have.shows(plain(size), file) ==> next_of(file, old(self).place) == (
                        item@,
                        final(self).place,
                    ),
                Err((offset, len)) => have.lacks(plain(size), offset, len) && forall|file: Seq<u8>| #[trigger]
                    have.shows(plain(size), file) ==> next_of(file, final(self).place) == next_of(
                        file,
                        old(self).place,
                    ),
            },
    {
        if pos >= size {
            self.place = Place::Over;
            return Ok(Item::End);
        }
        let n: usize = if size - pos < 14 {
            (size - pos) as usize
        } else {
            14
        };
        let b: Vec<u8> = match have.get(pos, n) {
            Some(b) => b,
            None => {
                return Err((pos, n));
            },
        };
        proof {
            assert forall|file: Seq<u8>| #[trigger] have.shows(plain(size), file) implies b@ == file.subrange(
                pos as int,
                pos + n,
            ) && file[pos as int] == b@[0] && (n == 14 ==> file[pos + 3] == b@[3] && holds(
                file,
                pos as int,
                MAGIC@,
            ) == holds(b@, 0, MAGIC@)) by {
                assert(file.subrange(pos as int, pos + n)[0] == file[pos as int]);
                if n == 14 {
                    assert(file.subrange(pos as int, pos + n)[3] == file[pos + 3]);
                    assert(file.subrange(pos as int, pos + n).subrange(0, 3) =~= file.subrange(
                        pos as int,
                        pos + 3,
                    ));
                }
            }
        }
        if b[0] == 0 {
            let ghost before = self.place;
            self.place = Place::Zeros(pos);
            proof {
                assert forall|file: Seq<u8>| #[trigger] have.shows(plain(size), file) implies next_of(
                    file,
                    before,
                ) == next_of(file, self.place) by {}
            }
            return self.zeros(size, have, pos);
        }
        if n < 14 || !has_bytes(&b, 0, &MAGIC) || b[3] < 0x31 || b[3] > 0x39 {
            self.place = Place::Over;
            return Ok(Item::Trouble);
        }
        self.place = Place::Begun { level: b[3], pos };
        Ok(Item::Stream(pos))
    }

    fn zeros(&mut self, size: u64, have: &Loaded, start: u64) -> (r: Result<Item, (u64, usize)>)
        requires
            size <= MAX_FILE,
            in_file(old(self).place, size as int),
            old(self).place == Place::Zeros(start),
        ensures
            in_file(final(self).place, size as int),
            match r {
                Ok(item) => forall|file: Seq<u8>| #[trigger]
                    have.shows(plain(size), file) ==> next_of(file, old(self).place) == (
                        item@,
                        final(self).place,
                    ),
                Err((offset, len)) => have.lacks(plain(size), offset, len) && forall|file: Seq<u8>| #[trigger]
                    have.shows(plain(size), file) ==> next_of(file, final(self).place) == next_of(
                        file,
                        old(self).place,
                    ),
            },
    {
        let mut pos: u64 = start;
        while pos < size
            invariant
                start <= pos <= size <= MAX_FILE,
                old(self).place == Place::Zeros(start),
                self.place == Place::Zeros(pos),
                forall|file: Seq<u8>| #[trigger]
                    have.shows(plain(size), file) ==> zeros_from(file, start as int) == zeros_from(
                        file,
                        pos as int,
                    ),
            decreases size - pos,
        {
            let n: usize = if size - pos < READ as u64 {
                (size - pos) as usize
            } else {
                READ
            };
            let b: Vec<u8> = match have.get(pos, n) {
                Some(b) => b,
                None => {
                    return Err((pos, n));
                },
            };
            let mut i: usize = 0;
            while i < n && b[i] == 0
                invariant
                    i <= n == b@.len(),
                    forall|k: int| 0 <= k < i ==> #[trigger] b@[k] == 0,
                decreases n - i,
            {
                i = i + 1;
            }
            proof {
                assert forall|file: Seq<u8>| #[trigger] have.shows(plain(size), file) implies zeros_from(
                    file,
                    start as int,
                ) == (if i == n {
                    zeros_from(file, pos + n)
                } else {
                    (Part::Trouble, Place::Over)
                }) by {
                    assert(b@ == file.subrange(pos as int, pos + n));
                    if i < n {
                        assert(file[pos + i] == b@[i as int]);
                    }
                    assert forall|k: int| pos <= k < pos + i implies file[k] == 0 by {
                        assert(file[k] == b@[k - pos]);
                    }
                    assert(zeros_from(file, start as int) == zeros_from(file, pos as int));
                    if i == n {
                        if forall|k: int| pos + n <= k < file.len() ==> #[trigger] file[k] == 0 {
                            assert forall|k: int| pos <= k < file.len() implies #[trigger] file[k] == 0 by {
                                if k < pos + n {
                                    assert(file[k] == b@[k - pos]);
                                }
                            }
                        }
                    }
                }
            }
            if i < n {
                self.place = Place::Over;
                return Ok(Item::Trouble);
            }
            pos = pos + n as u64;
            self.place = Place::Zeros(pos);
        }
        self.place = Place::Over;
        Ok(Item::End)
    }

    fn block(&mut self, size: u64, have: &Loaded, level: u8, a: u64) -> (r: Result<Item, (u64, usize)>)
        requires
            size <= MAX_FILE,
            a + 48 <= size * 8,
            in_file(old(self).place, size as int),
        ensures
            in_file(final(self).place, size as int),
            match r {
                Ok(item) => forall|file: Seq<u8>| #[trigger]
                    have.shows(plain(size), file) ==> block_from(file, level, a as int) == (
                        item@,
                        final(self).place,
                    ),
                Err((offset, len)) => have.lacks(plain(size), offset, len) && final(self).place == old(self).place,
            },
    {
        // The block is somewhere in these bytes.
        let lo: u64 = a / 8;
        let reach: u64 = (a + MAX_PACKED_BLOCK * 8 + 48 + 7) / 8;
        let hi: u64 = if reach < size {
            reach
        } else {
            size
        };
        let bytes: Vec<u8> = match have.get(lo, (hi - lo) as usize) {
            Some(v) => v,
            None => {
                return Err((lo, (hi - lo) as usize));
            },
        };
        let first: usize = (a - lo * 8) as usize;
        let limit: usize = first + (MAX_PACKED_BLOCK * 8) as usize;
        let ghost l = lo as int * 8;
        proof {
            assert forall|file: Seq<u8>| #[trigger] have.shows(plain(size), file) implies bits_in(bytes@)
                == bits_in(file).subrange(l, hi * 8) by {
                lemma_part_bits(file, lo as int, hi as int);
            }
            assert forall|file: Seq<u8>| #[trigger] have.shows(plain(size), file) implies (match magic_from(
                bits_in(bytes@),
                first + 80,
                limit as int,
            ) {
                Some((b, end)) => magic_from(bits_in(file), a + 80, a + MAX_PACKED_BLOCK * 8) == Some(
                    (l + b, end),
                ),
                None => magic_from(bits_in(file), a + 80, a + MAX_PACKED_BLOCK * 8) is None,
            }) by {
                lemma_part_magic(bits_in(file), l, hi * 8, first + 80, limit as int);
            }
        }
        let (b, end) = match find(&bytes, first + 80, limit) {
            Some(p) => p,
            None => {
                self.place = Place::Over;
                return Ok(Item::Trouble);
            },
        };
        let crc: u32 = {
            let v: u64 = bits(&bytes, first + 48, 32);
            proof {
                lemma_power(32);
            }
            v as u32
        };
        let stream: Vec<u8> = stream(&bytes, level, first, b, crc);
        proof {
            assert forall|file: Seq<u8>| #[trigger] have.shows(plain(size), file) implies crc == word_at(
                file,
                a + 48,
            ) && stream@ == stream_of(file, level, a as int, l + b, crc) by {
                lemma_power(32);
                lemma_part_value(bits_in(file), l, hi * 8, first + 48, 32);
                assert(bits_in(bytes@).subrange(first as int, b as int) =~= bits_in(file).subrange(
                    a as int,
                    l + b,
                ));
            }
        }
        let at: u64 = lo * 8 + b as u64;
        self.place = if end {
            Place::Ending(at)
        } else {
            Place::Block { level, at }
        };
        Ok(Item::Block { crc, stream })
    }
}

/// The block from bit `a` to bit `b` of `data` as a stream of its own.
fn stream(data: &[u8], level: u8, a: usize, b: usize, crc: u32) -> (v: Vec<u8>)
    requires
        a <= b <= data@.len() * 8,
        data@.len() * 8 <= usize::MAX,
    ensures
        v@ == stream_of(data@, level, a as int, b as int, crc),
{
    let header: [u8; 4] = [0x42, 0x5a, 0x68, level];
    assert(header@ =~= header_of(level));
    let mut w: BitWriter = BitWriter::new(&header);
    let ghost start = w@;
    let ghost all = bits_in(data@);
    let mut i: usize = a;
    proof {
        assert(start + all.subrange(a as int, a as int) =~= start);
    }
    while i < b
        invariant
            a <= i <= b <= data@.len() * 8,
            data@.len() * 8 <= usize::MAX,
            all == bits_in(data@),
            w.wf(),
            w@ == start + all.subrange(a as int, i as int),
        decreases b - i,
    {
        proof {
            assert(start + all.subrange(a as int, i + 1) =~= (start + all.subrange(a as int, i as int)).push(
                all[i as int],
            ));
        }
        w.push(get_bit(data, i));
        i = i + 1;
    }
    w.put(END_MAGIC, 48);
    w.put(crc as u64, 32);
    w.finish()
}

/// A splitter always gets further in the file until it is over, so it comes to an end.
pub open spec fn progress(place: Place) -> (int, int) {
    match place {
        Place::Between(pos) => (pos as int * 8, 2),
        Place::Zeros(pos) => (pos as int * 8, 2),
        Place::Begun { level, pos } => (pos as int * 8, 3),
        Place::Block { level, at } => (at as int, 4),
        Place::Ending(b) => (b as int, 4),
        Place::Over => (MAX_FILE as int * 8 + 1, 0),
    }
}

/// Every item of a file takes a splitter further: it comes to an end.
pub proof fn law_splitting_gets_further(file: Seq<u8>, place: Place)
    requires
        file.len() <= MAX_FILE,
        in_file(place, file.len() as int),
        place != Place::Over,
    ensures
        in_file(next_of(file, place).1, file.len() as int),
        progress(next_of(file, place).1).0 > progress(place).0 || (progress(next_of(file, place).1).0
            == progress(place).0 && progress(next_of(file, place).1).1 > progress(place).1),
{
    match place {
        Place::Begun { level, pos } => {
            let a = (pos + 4) * 8;
            lemma_magic_in(bits_in(file), a + 80, a + MAX_PACKED_BLOCK * 8);
        },
        Place::Block { level, at } => {
            lemma_magic_in(bits_in(file), at + 80, at + MAX_PACKED_BLOCK * 8);
        },
        _ => {},
    }
}

// Decoding blocks.

/// What a block's own stream decodes to: it must come to an end, and not be too much.
pub open spec fn block_data(stream: Seq<u8>) -> Result<Seq<u8>, Fault> {
    match bunzipped(stream, (MAX_BLOCK_OUT + 1) as nat) {
        Err(why) => Err(damaged_fault(why)),
        Ok((data, end)) => if data.len() > MAX_BLOCK_OUT {
            Err(bad_fault("a bzip2 block decodes to too much"@))
        } else if !end {
            Err(bad_fault("the bzip2 data is cut short"@))
        } else {
            Ok(data)
        },
    }
}

/// What becomes of a decoded block; `end` if that is the end of its stream.
pub fn decoded_block(data: Vec<u8>, end: bool) -> (r: Result<Vec<u8>, Error>)
    ensures
        match r {
            Ok(v) => v@ == data@ && end && data@.len() <= MAX_BLOCK_OUT,
            Err(e) => e@ == (if data@.len() > MAX_BLOCK_OUT {
                bad_fault("a bzip2 block decodes to too much"@)
            } else {
                bad_fault("the bzip2 data is cut short"@)
            }),
        },
        r is Ok <==> end && data@.len() <= MAX_BLOCK_OUT,
{
    if data.len() > MAX_BLOCK_OUT {
        Err(bad("a bzip2 block decodes to too much"))
    } else if !end {
        Err(bad("the bzip2 data is cut short"))
    } else {
        Ok(data)
    }
}

/// Decodes a stream of one block.
pub fn decode_block(stream: &[u8]) -> (r: Result<Vec<u8>, Error>)
    ensures
        match r {
            Ok(v) => block_data(stream@) == Ok::<Seq<u8>, Fault>(v@),
            Err(e) => block_data(stream@) == Err::<Seq<u8>, Fault>(e@) || e@ == bad_fault(
                "there is no memory for a bzip2 block"@,
            ),
        },
{
    match bunzip2(stream, MAX_BLOCK_OUT + 1) {
        None => Err(bad("there is no memory for a bzip2 block")),
        Some(Err(e)) => Err(damaged(e.as_str())),
        Some(Ok((data, end))) => decoded_block(data, end),
    }
}

// Putting blocks together.

/// A stream's CRC so far with one more block's.
pub open spec fn with_crc(combined: u32, crc: u32) -> u32 {
    ((combined << 1) | (combined >> 31)) ^ crc
}

/// The combined CRC of a stream's blocks.
pub open spec fn combined_of(crcs: Seq<u32>) -> u32
    decreases crcs.len(),
{
    if crcs.len() == 0 {
        0
    } else {
        with_crc(combined_of(crcs.drop_last()), crcs.last())
    }
}

/// What to do next.
#[derive(Clone, Copy, Debug, PartialEq, Eq, Structural)]
pub enum Action {
    /// Take the next item.
    Next,
    /// Take the block's data.
    Wait,
    /// The end has been reached.
    Done,
    /// The plain decoder takes over: from `start` in the file, and what it makes is passed
    /// over until `skip` bytes are.
    FallBack { start: u64, skip: u64 },
}

/// Puts the data of blocks that were decoded on their own together, checking the streams'
/// CRCs.
pub struct ParBz2 {
    /// Where the current stream starts, and how much of it has been returned.
    stream_start: u64,
    stream_out: u64,
    /// The combined CRC of the stream's blocks so far.
    combined: u32,
    /// The CRCs themselves.
    crcs: Ghost<Seq<u32>>,
    /// The CRC of the block being returned.
    block: Option<u32>,
    fallen: bool,
    done: bool,
}

impl ParBz2 {
    pub closed spec fn start(&self) -> u64 {
        self.stream_start
    }

    /// How much of the current stream has been returned.
    pub closed spec fn returned(&self) -> u64 {
        self.stream_out
    }

    /// The CRCs of the current stream's blocks that were returned whole.
    pub closed spec fn blocks(&self) -> Seq<u32> {
        self.crcs@
    }

    /// The CRC of the block being returned.
    pub closed spec fn current(&self) -> Option<u32> {
        self.block
    }

    /// Has the plain decoder taken over?
    pub closed spec fn fell_back(&self) -> bool {
        self.fallen
    }

    pub closed spec fn is_done(&self) -> bool {
        self.done
    }

    pub closed spec fn wf(&self) -> bool {
        self.combined == combined_of(self.crcs@)
    }

    pub fn new() -> (p: ParBz2)
        ensures
            p.wf(),
            p.start() == 0,
            p.returned() == 0,
            p.blocks().len() == 0,
            p.current() is None,
            !p.fell_back(),
            !p.is_done(),
    {
        ParBz2 {
            stream_start: 0,
            stream_out: 0,
            combined: 0,
            crcs: Ghost(Seq::empty()),
            block: None,
            fallen: false,
            done: false,
        }
    }

    /// The plain decoder takes over, from the start of the current stream (skipping what of
    /// it was returned already).
    pub fn fall_back(&mut self) -> (a: Action)
        requires
            old(self).wf(),
        ensures
            final(self).wf(),
            final(self).fell_back(),
            final(self).is_done() == old(self).is_done(),
            final(self).current() is None,
            final(self).start() == old(self).start(),
            final(self).returned() == old(self).returned(),
            final(self).blocks() == old(self).blocks(),
            a == (Action::FallBack { start: old(self).start(), skip: old(self).returned() }),
    {
        self.block = None;
        self.fallen = true;
        Action::FallBack { start: self.stream_start, skip: self.stream_out }
    }

    /// Takes the next item, None if there will be none.
    pub fn take(&mut self, item: Option<&Item>) -> (a: Action)
        requires
            old(self).wf(),
            old(self).current() is None,
            !old(self).is_done(),
        ensures
            final(self).wf(),
            match item {
                Some(Item::Stream(offset)) => {
                    &&& a == Action::Next
                    &&& final(self).start() == *offset
                    &&& final(self).returned() == 0
                    &&& final(self).blocks() == Seq::<u32>::empty()
                },
                Some(Item::Block { crc, .. }) => {
                    &&& a == Action::Wait
                    &&& final(self).current() == Some(*crc)
                    &&& final(self).start() == old(self).start()
                    &&& final(self).returned() == old(self).returned()
                    &&& final(self).blocks() == old(self).blocks()
                },
                Some(Item::End) => {
                    &&& a == Action::Done
                    &&& final(self).start() == old(self).start()
                    &&& final(self).returned() == old(self).returned()
                    &&& final(self).blocks() == old(self).blocks()
                },
                // A checksum that adds up, or not; trouble, or the splitter gone.
                _ => {
                    &&& final(self).start() == old(self).start()
                    &&& final(self).returned() == old(self).returned()
                    &&& final(self).blocks() == old(self).blocks()
                    &&& a == (if item matches Some(Item::StreamEnd(crc)) && *crc == combined_of(
                        old(self).blocks(),
                    ) {
                        Action::Next
                    } else {
                        Action::FallBack { start: old(self).start(), skip: old(self).returned() }
                    })
                },
            },
            final(self).is_done() == (a == Action::Done),
            final(self).current() is Some == (a == Action::Wait),
            final(self).fell_back() == (old(self).fell_back() || a is FallBack),
    {
        match item {
            Some(Item::Stream(offset)) => {
                self.stream_start = *offset;
                self.stream_out = 0;
                self.combined = 0;
                self.crcs = Ghost(Seq::empty());
                Action::Next
            },
            Some(Item::Block { crc, .. }) => {
                self.block = Some(*crc);
                Action::Wait
            },
            Some(Item::StreamEnd(crc)) => {
                if *crc == self.combined {
                    Action::Next
                } else {
                    self.fall_back()
                }
            },
            Some(Item::End) => {
                self.done = true;
                Action::Done
            },
            Some(Item::Trouble) => self.fall_back(),
            None => self.fall_back(),
        }
    }

    /// The block being returned has come whole (`ok`), or does not decode.
    pub fn block_end(&mut self, ok: bool) -> (a: Action)
        requires
            old(self).wf(),
            old(self).current() is Some,
        ensures
            final(self).wf(),
            final(self).current() is None,
            final(self).start() == old(self).start(),
            final(self).returned() == old(self).returned(),
            final(self).is_done() == old(self).is_done(),
            ok ==> a == Action::Next && final(self).blocks() == old(self).blocks().push(old(self).current()->0)
                && final(self).fell_back() == old(self).fell_back(),
            !ok ==> a == (Action::FallBack { start: old(self).start(), skip: old(self).returned() })
                && final(self).blocks() == old(self).blocks() && final(self).fell_back(),
    {
        if !ok {
            return self.fall_back();
        }
        match self.block {
            Some(crc) => {
                self.combined = ((self.combined << 1) | (self.combined >> 31)) ^ crc;
                let ghost crcs = self.crcs@;
                self.crcs = Ghost(crcs.push(crc));
                proof {
                    assert(crcs.push(crc).drop_last() =~= crcs);
                }
            },
            None => {},
        }
        self.block = None;
        Action::Next
    }

    /// `n` more bytes of the current stream were returned.
    pub fn gave(&mut self, n: usize)
        requires
            old(self).wf(),
            old(self).returned() + n <= u64::MAX,
        ensures
            final(self).wf(),
            final(self).returned() == old(self).returned() + n,
            final(self).start() == old(self).start(),
            final(self).blocks() == old(self).blocks(),
            final(self).current() == old(self).current(),
            final(self).fell_back() == old(self).fell_back(),
            final(self).is_done() == old(self).is_done(),
    {
        self.stream_out = self.stream_out + n as u64;
    }
}

} // verus!
