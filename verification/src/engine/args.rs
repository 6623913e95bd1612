//! The command line of DD-GUI's own copier:
//!
//! ```text
//! DD-GUI copy [PLUMBING…] --mode=smart|restore --from=PATH --to=PATH [--ask] [--block-size=N] [-- DD_OPERANDS…]
//! ```
//!
//! PLUMBING are the `--ddgui-*` options shared with `DD-GUI dd`. What the copier says on its
//! way is lines with an `@` in front, for the window only.

use vstd::prelude::*;
use vstd::slice::*;
use vstd::string::*;
use vstd::utf8::{decode_utf8, valid_utf8};
use crate::engine::image::SpaceMap;
use crate::engine::{apart, tidy};
use crate::fmt;
use crate::fmt::{block_size_of, bytes_of};
use crate::smart::{any_holds, in_order, none_empty, Extent};
use crate::text::{
    chars, decimal, from_utf8, from_utf8_lossy, is_alike, is_digit, is_text, law_decimal_round_trip, lossy, lower,
    parse_usize, part, push_decimal, same, texts, usize_in,
};

verus! {

/// Chunk sizes are multiples of this.
pub const ALIGN: usize = 4096;

/// The biggest chunk: 256 MiB.
pub const BIGGEST: usize = 0x1000_0000;

/// The chunk size when none is given: 4 MiB.
pub const DEFAULT_BLOCK: usize = 0x40_0000;

#[derive(Clone, Copy, Debug, PartialEq, Eq, Structural)]
pub enum Mode {
    Smart,
    Restore,
}

#[derive(Debug)]
pub struct Args {
    /// The `--ddgui-*` options, in order.
    pub plumbing: Vec<String>,
    pub mode: Mode,
    pub from: Vec<u8>,
    pub to: Vec<u8>,
    pub ask: bool,
    pub block_size: usize,
    /// dd's operands, for a full copy after `--ask`.
    pub dd: Vec<Vec<u8>>,
}

/// What a command line says so far.
pub ghost struct Gathered {
    pub plumbing: Seq<Seq<char>>,
    pub mode: Option<Mode>,
    pub from: Option<Seq<u8>>,
    pub to: Option<Seq<u8>>,
    pub ask: bool,
    pub block_size: usize,
    pub dd: Seq<Seq<u8>>,
}

/// What a command line says.
pub ghost struct Said {
    pub plumbing: Seq<Seq<char>>,
    pub mode: Mode,
    pub from: Seq<u8>,
    pub to: Seq<u8>,
    pub ask: bool,
    pub block_size: usize,
    pub dd: Seq<Seq<u8>>,
}

/// The bytes of some words.
pub open spec fn raw(words: Seq<Vec<u8>>) -> Seq<Seq<u8>> {
    words.map_values(|w: Vec<u8>| w@)
}

impl View for Args {
    type V = Said;

    open spec fn view(&self) -> Said {
        Said {
            plumbing: texts(self.plumbing@),
            mode: self.mode,
            from: self.from@,
            to: self.to@,
            ask: self.ask,
            block_size: self.block_size,
            dd: raw(self.dd@),
        }
    }
}

// Sizes.

/// How many digits `s` starts with.
pub open spec fn digits_run(s: Seq<char>) -> nat
    decreases s.len(),
{
    if s.len() > 0 && '0' <= s[0] <= '9' {
        1 + digits_run(s.skip(1))
    } else {
        0
    }
}

pub open spec fn unit_in(s: Seq<char>) -> Option<usize> {
    if s.len() == 0 {
        Some(1)
    } else if s == "K"@ || s == "k"@ || s == "KiB"@ {
        Some(0x400)
    } else if s == "M"@ || s == "MiB"@ {
        Some(0x10_0000)
    } else if s == "G"@ || s == "GiB"@ {
        Some(0x4000_0000)
    } else {
        None
    }
}

pub open spec fn size_in(text: Seq<char>) -> Option<usize> {
    let n = digits_run(text) as int;
    match (usize_in(text.take(n)), unit_in(text.skip(n))) {
        (Some(v), Some(unit)) => if v * unit <= usize::MAX {
            Some((v * unit) as usize)
        } else {
            None
        },
        _ => None,
    }
}

pub proof fn lemma_digits_run(s: Seq<char>, n: nat)
    requires
        n <= s.len(),
        forall|i: int| 0 <= i < n ==> '0' <= #[trigger] s[i] <= '9',
        n < s.len() ==> !('0' <= s[n as int] <= '9'),
    ensures
        digits_run(s) == n,
    decreases s.len(),
{
    if n > 0 {
        assert('0' <= s[0] <= '9');
        assert forall|i: int| 0 <= i < n - 1 implies '0' <= #[trigger] s.skip(1)[i] <= '9' by {
            assert(s.skip(1)[i] == s[i + 1]);
        }
        lemma_digits_run(s.skip(1), (n - 1) as nat);
    }
}

/// "4194304", "4M", "512K", "1G" → bytes.
pub fn parse_size(text: &str) -> (r: Option<usize>)
    ensures
        r == size_in(text@),
{
    let v: Vec<char> = chars(text);
    let mut n: usize = 0;
    while n < v.len() && '0' <= v[n] && v[n] <= '9'
        invariant
            n <= v@.len(),
            forall|i: int| 0 <= i < n ==> '0' <= #[trigger] v@[i] <= '9',
        decreases v@.len() - n,
    {
        n = n + 1;
    }
    let head: Vec<char> = part(&v, 0, n);
    let tail: Vec<char> = part(&v, n, v.len());
    proof {
        lemma_digits_run(v@, n as nat);
        assert(head@ =~= text@.take(n as int));
        assert(tail@ =~= text@.skip(n as int));
    }
    let unit: usize = if tail.len() == 0 {
        1
    } else if is_text(&tail, "K") || is_text(&tail, "k") || is_text(&tail, "KiB") {
        0x400
    } else if is_text(&tail, "M") || is_text(&tail, "MiB") {
        0x10_0000
    } else if is_text(&tail, "G") || is_text(&tail, "GiB") {
        0x4000_0000
    } else {
        return None;
    };
    match parse_usize(&head) {
        Some(value) => value.checked_mul(unit),
        None => None,
    }
}

// The words.

/// The text that some bytes are, if they are one.
pub open spec fn text_of(b: Seq<u8>) -> Option<Seq<char>> {
    if valid_utf8(b) {
        Some(decode_utf8(b))
    } else {
        None
    }
}

fn bytes_are(b: &[u8], t: &str) -> (r: bool)
    ensures
        r == (text_of(b@) == Some(t@)),
{
    match from_utf8(b) {
        Some(s) => same(s, t),
        None => false,
    }
}

/// Where the first `=` is, or the length.
pub open spec fn equals_at(b: Seq<u8>) -> nat
    decreases b.len(),
{
    if b.len() == 0 || b[0] == 61 {
        0
    } else {
        1 + equals_at(b.skip(1))
    }
}

pub proof fn lemma_equals_at(b: Seq<u8>, n: nat)
    requires
        n <= b.len(),
        forall|i: int| 0 <= i < n ==> #[trigger] b[i] != 61,
        n < b.len() ==> b[n as int] == 61,
    ensures
        equals_at(b) == n,
    decreases b.len(),
{
    if n > 0 {
        assert(b[0] != 61);
        assert forall|i: int| 0 <= i < n - 1 implies #[trigger] b.skip(1)[i] != 61 by {
            assert(b.skip(1)[i] == b[i + 1]);
        }
        lemma_equals_at(b.skip(1), (n - 1) as nat);
    }
}

/// What is before the first `=`.
pub open spec fn name_of(word: Seq<u8>) -> Seq<u8> {
    word.take(equals_at(word) as int)
}

/// What is after the first `=`, if there is one. Paths may not be text.
pub open spec fn value_of(word: Seq<u8>) -> Option<Seq<u8>> {
    let eq = equals_at(word) as int;
    if eq < word.len() {
        Some(word.skip(eq + 1))
    } else {
        None
    }
}

/// The value as text: empty where there is none.
pub open spec fn value_text(word: Seq<u8>) -> Seq<char> {
    match value_of(word) {
        Some(v) => match text_of(v) {
            Some(t) => t,
            None => Seq::empty(),
        },
        None => Seq::empty(),
    }
}

/// "--ddgui-"
pub const PLUMBING: [u8; 8] = [45, 45, 100, 100, 103, 117, 105, 45];

pub open spec fn begins(b: Seq<u8>, p: Seq<u8>) -> bool {
    p.len() <= b.len() && b.take(p.len() as int) == p
}

pub open spec fn good_block(n: usize) -> bool {
    n % 4096 == 0 && ALIGN <= n <= BIGGEST
}

/// What one word adds, or what is wrong with it.
pub open spec fn taken(g: Gathered, word: Seq<u8>) -> Result<Gathered, Seq<char>> {
    let name = name_of(word);
    if text_of(name) == Some("--mode"@) {
        if value_text(word) == "smart"@ {
            Ok(Gathered { mode: Some(Mode::Smart), ..g })
        } else if value_text(word) == "restore"@ {
            Ok(Gathered { mode: Some(Mode::Restore), ..g })
        } else {
            Err("unknown mode \""@ + value_text(word) + "\" (use smart or restore)"@)
        }
    } else if text_of(name) == Some("--from"@) {
        Ok(Gathered { from: value_of(word), ..g })
    } else if text_of(name) == Some("--to"@) {
        Ok(Gathered { to: value_of(word), ..g })
    } else if text_of(name) == Some("--ask"@) {
        Ok(Gathered { ask: true, ..g })
    } else if text_of(name) == Some("--block-size"@) {
        match size_in(value_text(word)) {
            Some(n) if good_block(n) => Ok(Gathered { block_size: n, ..g }),
            _ => Err("--block-size has to be a multiple of 4096 between 4K and 256M"@),
        }
    } else if begins(name, PLUMBING@) {
        match text_of(word) {
            Some(t) => Ok(Gathered { plumbing: g.plumbing.push(t), ..g }),
            None => Err("invalid option"@),
        }
    } else {
        Err("unknown option "@ + lossy(name))
    }
}

/// What the words say together, up to a `--`.
pub open spec fn gathered(g: Gathered, words: Seq<Seq<u8>>) -> Result<Gathered, Seq<char>>
    decreases words.len(),
{
    if words.len() == 0 {
        Ok(g)
    } else if text_of(words[0]) == Some("--"@) {
        Ok(Gathered { dd: words.skip(1), ..g })
    } else {
        match taken(g, words[0]) {
            Ok(next) => gathered(next, words.skip(1)),
            Err(e) => Err(e),
        }
    }
}

pub open spec fn nothing() -> Gathered {
    Gathered {
        plumbing: Seq::empty(),
        mode: None,
        from: None,
        to: None,
        ask: false,
        block_size: DEFAULT_BLOCK,
        dd: Seq::empty(),
    }
}

/// Is there a path?
pub open spec fn given(path: Option<Seq<u8>>) -> bool {
    path matches Some(p) && p.len() > 0
}

/// A whole command line, or the first thing that is wrong with it.
pub open spec fn parsed(words: Seq<Seq<u8>>) -> Result<Said, Seq<char>> {
    match gathered(nothing(), words) {
        Err(e) => Err(e),
        Ok(g) => if g.mode is None {
            Err("--mode is missing"@)
        } else if !given(g.from) {
            Err("--from is missing"@)
        } else if !given(g.to) {
            Err("--to is missing"@)
        } else if g.ask && g.mode != Some(Mode::Smart) {
            Err("--ask only goes with --mode=smart"@)
        } else {
            Ok(
                Said {
                    plumbing: g.plumbing,
                    mode: g.mode->0,
                    from: g.from->0,
                    to: g.to->0,
                    ask: g.ask,
                    block_size: g.block_size,
                    dd: g.dd,
                },
            )
        },
    }
}

/// What a command line says so far.
struct Draft {
    plumbing: Vec<String>,
    mode: Option<Mode>,
    from: Option<Vec<u8>>,
    to: Option<Vec<u8>>,
    ask: bool,
    block_size: usize,
}

spec fn path_view(p: Option<Vec<u8>>) -> Option<Seq<u8>> {
    match p {
        Some(v) => Some(v@),
        None => None,
    }
}

impl Draft {
    spec fn so_far(self) -> Gathered {
        Gathered {
            plumbing: texts(self.plumbing@),
            mode: self.mode,
            from: path_view(self.from),
            to: path_view(self.to),
            ask: self.ask,
            block_size: self.block_size,
            dd: Seq::empty(),
        }
    }

    fn take(&mut self, word: &[u8]) -> (r: Result<(), String>)
        ensures
            match r {
                Ok(_) => taken(old(self).so_far(), word@) == Ok::<Gathered, Seq<char>>(final(self).so_far()),
                Err(e) => taken(old(self).so_far(), word@) == Err::<Gathered, Seq<char>>(e@),
            },
    {
        let mut eq: usize = 0;
        while eq < word.len() && word[eq] != 61
            invariant
                eq <= word@.len(),
                forall|i: int| 0 <= i < eq ==> #[trigger] word@[i] != 61,
            decreases word@.len() - eq,
        {
            eq = eq + 1;
        }
        proof {
            lemma_equals_at(word@, eq as nat);
        }
        let name: &[u8] = slice_subrange(word, 0, eq);
        assert(name@ =~= name_of(word@));
        let value: Option<&[u8]> = if eq < word.len() {
            Some(slice_subrange(word, eq + 1, word.len()))
        } else {
            None
        };
        proof {
            if eq < word@.len() {
                assert(value->0@ =~= word@.skip(eq + 1));
            }
        }
        let text: &str = match value {
            Some(v) => match from_utf8(v) {
                Some(t) => t,
                None => "",
            },
            None => "",
        };
        proof {
            reveal_strlit("");
            assert(""@ =~= Seq::<char>::empty());
            assert(text@ =~= value_text(word@));
        }
        if bytes_are(name, "--mode") {
            if same(text, "smart") {
                self.mode = Some(Mode::Smart);
            } else if same(text, "restore") {
                self.mode = Some(Mode::Restore);
            } else {
                let mut e: String = "unknown mode \"".to_owned();
                e.append(text);
                e.append("\" (use smart or restore)");
                return Err(e);
            }
            return Ok(());
        }
        if bytes_are(name, "--from") {
            self.from = match value {
                Some(v) => Some(slice_to_vec(v)),
                None => None,
            };
            return Ok(());
        }
        if bytes_are(name, "--to") {
            self.to = match value {
                Some(v) => Some(slice_to_vec(v)),
                None => None,
            };
            return Ok(());
        }
        if bytes_are(name, "--ask") {
            self.ask = true;
            return Ok(());
        }
        if bytes_are(name, "--block-size") {
            if let Some(n) = parse_size(text) {
                if n % 4096 == 0 && ALIGN <= n && n <= BIGGEST {
                    self.block_size = n;
                    return Ok(());
                }
            }
            return Err("--block-size has to be a multiple of 4096 between 4K and 256M".to_owned());
        }
        if is_plumbing(name) {
            match from_utf8(word) {
                Some(t) => {
                    let ghost was = self.plumbing@;
                    self.plumbing.push(t.to_owned());
                    assert(texts(self.plumbing@) =~= texts(was).push(t@));
                    return Ok(());
                },
                None => {
                    return Err("invalid option".to_owned());
                },
            }
        }
        let mut e: String = "unknown option ".to_owned();
        e.append(from_utf8_lossy(name).as_str());
        Err(e)
    }
}

fn slice_to_vec(b: &[u8]) -> (v: Vec<u8>)
    ensures
        v@ == b@,
{
    let mut v: Vec<u8> = Vec::new();
    let mut i: usize = 0;
    while i < b.len()
        invariant
            i <= b@.len(),
            v@ == b@.take(i as int),
        decreases b@.len() - i,
    {
        v.push(b[i]);
        i = i + 1;
    }
    assert(b@.take(b@.len() as int) =~= b@);
    v
}

fn is_plumbing(name: &[u8]) -> (r: bool)
    ensures
        r == begins(name@, PLUMBING@),
{
    if name.len() < 8 {
        return false;
    }
    let mut i: usize = 0;
    while i < 8
        invariant
            i <= 8 <= name@.len(),
            forall|k: int| 0 <= k < i ==> name@[k] == PLUMBING@[k],
        decreases 8 - i,
    {
        if name[i] != PLUMBING[i] {
            assert(name@.take(8)[i as int] != PLUMBING@[i as int]);
            return false;
        }
        i = i + 1;
    }
    assert(name@.take(8) =~= PLUMBING@);
    true
}

impl Args {
    /// The words after `copy`, or the first thing that is wrong with them.
    pub fn parse(words: &[Vec<u8>]) -> (r: Result<Args, String>)
        ensures
            match r {
                Ok(a) => parsed(raw(words@)) == Ok::<Said, Seq<char>>(a@),
                Err(e) => parsed(raw(words@)) == Err::<Said, Seq<char>>(e@),
            },
    {
        let mut draft: Draft = Draft {
            plumbing: Vec::new(),
            mode: None,
            from: None,
            to: None,
            ask: false,
            block_size: DEFAULT_BLOCK,
        };
        let mut dd: Vec<Vec<u8>> = Vec::new();
        let ghost all = raw(words@);
        let mut i: usize = 0;
        let mut more: bool = true;
        proof {
            assert(draft.so_far().plumbing =~= Seq::<Seq<char>>::empty());
            assert(all.skip(0) =~= all);
        }
        while more && i < words.len()
            invariant
                i <= words@.len(),
                all == raw(words@),
                more ==> gathered(nothing(), all) == gathered(draft.so_far(), all.skip(i as int)),
                more ==> dd@.len() == 0,
                !more ==> gathered(nothing(), all) == Ok::<Gathered, Seq<char>>(
                    Gathered { dd: raw(dd@), ..draft.so_far() },
                ),
            decreases words@.len() - i, more as int,
        {
            let rest = Ghost(all.skip(i as int));
            proof {
                assert(rest@[0] == words@[i as int]@);
                assert(rest@.skip(1) =~= all.skip(i + 1));
            }
            if bytes_are(&words[i], "--") {
                let mut k: usize = i + 1;
                proof {
                    assert(raw(dd@) =~= all.subrange(i + 1, i + 1));
                }
                while k < words.len()
                    invariant
                        i < k <= words@.len(),
                        all == raw(words@),
                        raw(dd@) == all.subrange(i + 1, k as int),
                    decreases words@.len() - k,
                {
                    let ghost was = dd@;
                    let w: Vec<u8> = slice_to_vec(&words[k]);
                    dd.push(w);
                    proof {
                        assert(raw(dd@) =~= raw(was).push(w@));
                        assert(all.subrange(i + 1, k + 1) =~= all.subrange(i + 1, k as int).push(all[k as int]));
                    }
                    k = k + 1;
                }
                proof {
                    assert(all.subrange(i + 1, all.len() as int) =~= rest@.skip(1));
                }
                more = false;
            } else {
                match draft.take(&words[i]) {
                    Ok(_) => {},
                    Err(e) => {
                        return Err(e);
                    },
                }
                i = i + 1;
            }
        }
        proof {
            if more {
                assert(all.skip(i as int) =~= Seq::<Seq<u8>>::empty());
                assert(raw(dd@) =~= Seq::<Seq<u8>>::empty());
                assert(gathered(nothing(), all) == Ok::<Gathered, Seq<char>>(draft.so_far()));
            }
            assert(gathered(nothing(), all) == Ok::<Gathered, Seq<char>>(
                Gathered { dd: raw(dd@), ..draft.so_far() },
            ));
        }
        let mode: Mode = match draft.mode {
            Some(m) => m,
            None => {
                return Err("--mode is missing".to_owned());
            },
        };
        let from: Vec<u8> = match draft.from {
            Some(p) => p,
            None => Vec::new(),
        };
        if from.len() == 0 {
            return Err("--from is missing".to_owned());
        }
        let to: Vec<u8> = match draft.to {
            Some(p) => p,
            None => Vec::new(),
        };
        if to.len() == 0 {
            return Err("--to is missing".to_owned());
        }
        if draft.ask && mode != Mode::Smart {
            return Err("--ask only goes with --mode=smart".to_owned());
        }
        Ok(Args { plumbing: draft.plumbing, mode, from, to, ask: draft.ask, block_size: draft.block_size, dd })
    }

    /// Does the window run it?
    pub open spec fn is_worker(self) -> bool {
        texts(self.plumbing@).contains("--ddgui-worker"@)
    }

    pub fn worker(&self) -> (r: bool)
        ensures
            r == self.is_worker(),
    {
        let mut i: usize = 0;
        while i < self.plumbing.len()
            invariant
                i <= self.plumbing@.len(),
                forall|k: int| 0 <= k < i ==> texts(self.plumbing@)[k] != "--ddgui-worker"@,
            decreases self.plumbing@.len() - i,
        {
            if same(self.plumbing[i].as_str(), "--ddgui-worker") {
                assert(texts(self.plumbing@)[i as int] == "--ddgui-worker"@);
                return true;
            }
            i = i + 1;
        }
        false
    }

    /// A status line, for the window only.
    pub fn say(&self, line: &str) -> (r: Option<String>)
        ensures
            match r {
                Some(s) => self.is_worker() && s@ == "@"@ + line@,
                None => !self.is_worker(),
            },
    {
        if self.worker() {
            let mut s: String = "@".to_owned();
            s.append(line);
            Some(s)
        } else {
            None
        }
    }
}

/// A command line that is accepted names both ends, copies in whole chunks, and only asks about
/// smart copies.
pub proof fn law_accepted_lines_are_sound(words: Seq<Seq<u8>>)
    requires
        parsed(words) is Ok,
    ensures
        parsed(words)->Ok_0.from.len() > 0,
        parsed(words)->Ok_0.to.len() > 0,
        good_block(parsed(words)->Ok_0.block_size),
        parsed(words)->Ok_0.ask ==> parsed(words)->Ok_0.mode == Mode::Smart,
{
    lemma_block_size(nothing(), words);
}

proof fn lemma_block_size(g: Gathered, words: Seq<Seq<u8>>)
    requires
        good_block(g.block_size),
    ensures
        gathered(g, words) matches Ok(r) ==> good_block(r.block_size),
    decreases words.len(),
{
    if words.len() > 0 && text_of(words[0]) != Some("--"@) {
        if let Ok(next) = taken(g, words[0]) {
            lemma_block_size(next, words.skip(1));
        }
    }
}

// The copy itself.

/// What to do about a copy that asked.
#[derive(Clone, Copy, Debug, PartialEq, Eq, Structural)]
pub enum Answer {
    /// Go on.
    Smart,
    /// Let dd copy everything.
    Full,
    Cancel,
}

pub open spec fn answer_of(line: Seq<char>) -> Answer {
    if lower(line) == "smart"@ {
        Answer::Smart
    } else if lower(line) == "full"@ {
        Answer::Full
    } else {
        Answer::Cancel
    }
}

/// What an answer means: anything but "smart" and "full" cancels, and so does no answer.
pub fn answered(line: Option<&str>) -> (r: Answer)
    ensures
        r == (match line {
            Some(l) => answer_of(l@),
            None => Answer::Cancel,
        }),
{
    match line {
        Some(l) => {
            let v: Vec<char> = chars(l);
            proof {
                reveal_strlit("smart");
                reveal_strlit("full");
                assert(lower("smart"@) =~= "smart"@);
                assert(lower("full"@) =~= "full"@);
            }
            if is_alike(&v, "smart") {
                Answer::Smart
            } else if is_alike(&v, "full") {
                Answer::Full
            } else {
                Answer::Cancel
            }
        },
        None => Answer::Cancel,
    }
}

/// What a smart copy takes from a drive whose analysis gave `extents`.
pub fn smart_map(extents: &[Extent], size: u64) -> (map: SpaceMap)
    ensures
        map.size == size,
        apart(map.extents@),
        none_empty(map.extents@),
        in_order(map.extents@, size as int),
        forall|pos: int| #[trigger] any_holds(map.extents@, pos) == (any_holds(extents@, pos) && pos < size),
{
    SpaceMap { size, extents: tidy(extents, size) }
}

/// Why a smart copy can't go onto a drive, if it can't: where its data ends, and what the drive
/// holds.
pub fn drive_too_small(end: u64, holds: u64, from: &str, to: &str) -> (r: Option<String>)
    ensures
        match r {
            Some(s) => holds < end && s@ == to@ + " is too small: the data on "@ + from@ + " reaches "@ + bytes_of(end)
                + ", but the drive holds "@ + bytes_of(holds) + "."@,
            None => holds >= end,
        },
{
    if holds >= end {
        return None;
    }
    let mut s: String = to.to_owned();
    s.append(" is too small: the data on ");
    s.append(from);
    s.append(" reaches ");
    s.append(fmt::bytes(end).as_str());
    s.append(", but the drive holds ");
    s.append(fmt::bytes(holds).as_str());
    s.append(".");
    Some(s)
}

/// Why an image can't be restored, if it can't. A file grows as needed; a drive doesn't.
pub fn image_too_big(needs: Option<u64>, is_drive: bool, holds: u64, to: &str) -> (r: Option<String>)
    ensures
        match r {
            Some(s) => is_drive && needs is Some && needs->0 > holds && s@ == "The image doesn't fit: it needs "@
                + bytes_of(needs->0) + ", but "@ + to@ + " holds "@ + bytes_of(holds) + "."@,
            None => !(is_drive && needs is Some && needs->0 > holds),
        },
{
    match needs {
        Some(n) => {
            if !is_drive || n <= holds {
                return None;
            }
            let mut s: String = "The image doesn't fit: it needs ".to_owned();
            s.append(fmt::bytes(n).as_str());
            s.append(", but ");
            s.append(to);
            s.append(" holds ");
            s.append(fmt::bytes(holds).as_str());
            s.append(".");
            Some(s)
        },
        None => None,
    }
}

/// dd's words for a full copy, after the executable. dd quits too if we're killed.
pub fn full_copy_words(args: &Args, pid: u32) -> (r: Result<Vec<Vec<u8>>, String>)
    ensures
        match r {
            Ok(words) => args.dd@.len() > 0 && raw(words@) == seq![dd_word(), parent_word(pid)] + raw(args.dd@),
            Err(e) => args.dd@.len() == 0 && e@ == "a full copy needs dd's operands after --"@,
        },
{
    if args.dd.len() == 0 {
        return Err("a full copy needs dd's operands after --".to_owned());
    }
    let mut parent: String = "--ddgui-parent=".to_owned();
    push_decimal(&mut parent, pid as u64);
    let first: Vec<u8> = utf8("dd");
    let second: Vec<u8> = utf8(parent.as_str());
    let mut words: Vec<Vec<u8>> = Vec::new();
    words.push(first);
    words.push(second);
    let mut i: usize = 0;
    proof {
        assert(raw(words@) =~= seq![dd_word(), parent_word(pid)] + raw(args.dd@).take(0));
    }
    while i < args.dd.len()
        invariant
            i <= args.dd@.len(),
            raw(words@) == seq![dd_word(), parent_word(pid)] + raw(args.dd@).take(i as int),
        decreases args.dd@.len() - i,
    {
        let ghost was = words@;
        let w: Vec<u8> = slice_to_vec(&args.dd[i]);
        words.push(w);
        proof {
            assert(raw(words@) =~= raw(was).push(w@));
            let d = raw(args.dd@);
            assert(d.take(i + 1) =~= d.take(i as int).push(d[i as int]));
            assert(seq![dd_word(), parent_word(pid)] + d.take(i + 1) =~= (seq![dd_word(), parent_word(pid)] + d.take(
                i as int,
            )).push(w@));
        }
        i = i + 1;
    }
    proof {
        assert(raw(args.dd@).take(args.dd@.len() as int) =~= raw(args.dd@));
    }
    Ok(words)
}

pub open spec fn dd_word() -> Seq<u8> {
    vstd::utf8::encode_utf8("dd"@)
}

pub open spec fn parent_word(pid: u32) -> Seq<u8> {
    vstd::utf8::encode_utf8("--ddgui-parent="@ + decimal(pid as nat))
}

fn utf8(s: &str) -> (b: Vec<u8>)
    ensures
        b@ == vstd::utf8::encode_utf8(s@),
{
    slice_to_vec(s.as_bytes())
}

proof fn lemma_size_text(n: nat, unit: Seq<char>, u: usize)
    requires
        n <= usize::MAX,
        unit.len() > 0 ==> !('0' <= unit[0] <= '9'),
        unit_in(unit) == Some(u),
        n * u <= usize::MAX,
    ensures
        size_in(decimal(n) + unit) == Some((n * u) as usize),
{
    let d = decimal(n);
    let s = d + unit;
    law_decimal_round_trip(n);
    assert forall|i: int| 0 <= i < d.len() implies '0' <= #[trigger] s[i] <= '9' by {
        assert(is_digit(d[i]));
    }
    lemma_digits_run(s, d.len());
    assert(s.take(d.len() as int) =~= d);
    assert(s.skip(d.len() as int) =~= unit);
    assert(usize_in(d) == Some(n as usize));
}

/// A size reads the same as it is shown.
pub proof fn law_block_sizes_read_back(n: usize)
    ensures
        size_in(block_size_of(n as u64)) == Some(n),
{
    reveal_strlit("K");
    reveal_strlit("k");
    reveal_strlit("KiB");
    reveal_strlit("M");
    reveal_strlit("MiB");
    reveal_strlit("G");
    reveal_strlit("GiB");
    let m = n as u64;
    assert(m == n);
    assert("G"@[0] == 'G' && "M"@[0] == 'M' && "K"@[0] == 'K' && "k"@[0] == 'k');
    assert("KiB"@[0] == 'K' && "MiB"@[0] == 'M' && "GiB"@[0] == 'G');
    assert(unit_in("G"@) == Some(0x4000_0000usize));
    assert(unit_in("M"@) == Some(0x10_0000usize));
    assert(unit_in("K"@) == Some(0x400usize));
    if m >= 0x4000_0000 && m % 0x4000_0000 == 0 {
        assert((m / 0x4000_0000) * 0x4000_0000 == n);
        lemma_size_text((m / 0x4000_0000) as nat, "G"@, 0x4000_0000);
    } else if m >= 0x10_0000 && m % 0x10_0000 == 0 {
        assert((m / 0x10_0000) * 0x10_0000 == n);
        lemma_size_text((m / 0x10_0000) as nat, "M"@, 0x10_0000);
    } else if m >= 0x400 && m % 0x400 == 0 {
        assert((m / 0x400) * 0x400 == n);
        lemma_size_text((m / 0x400) as nat, "K"@, 0x400);
    } else {
        lemma_size_text(m as nat, Seq::empty(), 1);
        assert(decimal(m as nat) + Seq::<char>::empty() =~= decimal(m as nat));
    }
}

/// The words after the first `--` are dd's, as they are.
pub proof fn law_words_after_dashes_are_kept(g: Gathered, before: Seq<Seq<u8>>, dashes: Seq<u8>, after: Seq<Seq<u8>>)
    requires
        text_of(dashes) == Some("--"@),
        forall|i: int| 0 <= i < before.len() ==> text_of(#[trigger] before[i]) != Some("--"@),
    ensures
        gathered(g, before.push(dashes) + after) matches Ok(r) ==> r.dd == after,
    decreases before.len(),
{
    let all = before.push(dashes) + after;
    if before.len() == 0 {
        assert(all[0] == dashes);
        assert(all.skip(1) =~= after);
    } else {
        let rest = before.skip(1);
        assert(all[0] == before[0]);
        assert(all.skip(1) =~= rest.push(dashes) + after);
        assert forall|i: int| 0 <= i < rest.len() implies text_of(#[trigger] rest[i]) != Some("--"@) by {
            assert(rest[i] == before[i + 1]);
        }
        if let Ok(next) = taken(g, all[0]) {
            law_words_after_dashes_are_kept(next, rest, dashes, after);
        }
    }
}

} // verus!
