//! A job in a worker process (elevated when needed), and what it reports.
//!
//! The worker is this same executable: `DD-GUI dd …` for dd itself, or `DD-GUI copy …` for smart
//! copies and image restores.

use vstd::prelude::*;
use vstd::string::*;
use vstd::utf8::{
    decode_utf8_encode_utf8, encode_utf8, encode_utf8_decode_utf8, encode_utf8_valid_utf8, is_ascii_chars,
    is_ascii_chars_encode_utf8,
};
use crate::engine::args::{
    equals_at, gathered, good_block, lemma_digits_run, lemma_equals_at, name_of, nothing, parsed, size_in, taken,
    text_of, unit_in, value_of, value_text, Gathered, Mode, Said, DEFAULT_BLOCK, PLUMBING,
};
use crate::plan::System;
use crate::text::{
    chars, contains, decimal, decimal_text, ends, ends_with, find_text, from_utf8_lossy, is_digit, is_text, join, joined,
    law_decimal_round_trip, lemma_encode_concat, lemma_replace_char_first, lossy, parse_u64, part, push_decimal, replace_char, replaced, same, split_at_first,
    split_once, split_words, starts, starts_with, string, texts, trim, trimmed, u64_in, usize_in, views, words,
};

verus! {

#[derive(Debug)]
pub enum Event {
    /// The worker is running, so any password prompt is done.
    Started,
    /// The drive's layout as JSON, sent before asking how to copy.
    Layout(String),
    /// Drives are unmounted and copying starts.
    Copying,
    /// What the progress counts toward (from DD-GUI's copier; dd doesn't say).
    Total(u64),
    /// How far along: `done` counts toward the total, `written` is bytes written when that
    /// differs (compressed images). dd's own lines only have `done`.
    Progress { done: u64, written: Option<u64> },
    /// Copying is done; the target is being flushed.
    Syncing,
    Finished(Outcome),
}

#[derive(Debug)]
pub enum Outcome {
    Success,
    Cancelled,
    /// The password prompt was dismissed, or authorization failed.
    NotAuthorized(String),
    Failed(String),
}

/// What an event says.
pub enum Told {
    Started,
    Layout(Seq<char>),
    Copying,
    Total(u64),
    Progress { done: u64, written: Option<u64> },
    Syncing,
    Finished(Ended),
}

/// How a job ended.
pub enum Ended {
    Success,
    Cancelled,
    NotAuthorized(Seq<char>),
    Failed(Seq<char>),
}

impl View for Outcome {
    type V = Ended;

    open spec fn view(&self) -> Ended {
        match self {
            Outcome::Success => Ended::Success,
            Outcome::Cancelled => Ended::Cancelled,
            Outcome::NotAuthorized(s) => Ended::NotAuthorized(s@),
            Outcome::Failed(s) => Ended::Failed(s@),
        }
    }
}

impl View for Event {
    type V = Told;

    open spec fn view(&self) -> Told {
        match self {
            Event::Started => Told::Started,
            Event::Layout(s) => Told::Layout(s@),
            Event::Copying => Told::Copying,
            Event::Total(n) => Told::Total(*n),
            Event::Progress { done, written } => Told::Progress { done: *done, written: *written },
            Event::Syncing => Told::Syncing,
            Event::Finished(o) => Told::Finished(o@),
        }
    }
}

pub open spec fn told(e: Option<Event>) -> Option<Told> {
    match e {
        Some(e) => Some(e@),
        None => None,
    }
}

#[derive(Clone, Copy, Debug, PartialEq, Eq, Structural)]
pub enum CopyMode {
    Smart,
    Restore,
    Zeros,
}

impl CopyMode {
    pub open spec fn spelled(self) -> Seq<char> {
        match self {
            CopyMode::Smart => "smart"@,
            CopyMode::Restore => "restore"@,
            CopyMode::Zeros => "zeros"@,
        }
    }

    pub fn name(self) -> (s: &'static str)
        ensures
            s@ == self.spelled(),
    {
        match self {
            CopyMode::Smart => "smart",
            CopyMode::Restore => "restore",
            CopyMode::Zeros => "zeros",
        }
    }
}

#[derive(Debug)]
pub enum Work {
    /// `dd-gui dd` with these operands.
    Dd(Vec<String>),
    /// `dd-gui copy`. With `ask`, the worker reports the layout and waits for an answer; "full"
    /// then runs dd with `dd_args`.
    Copy {
        mode: CopyMode,
        /// Empty for zeros.
        from: String,
        to: String,
        ask: bool,
        block_size: Option<u64>,
        /// Bytes to write, for zeros into a file.
        size: Option<u64>,
        dd_args: Vec<String>,
    },
}

/// One word, or none.
pub open spec fn word_if(b: bool, w: Seq<char>) -> Seq<Seq<char>> {
    if b {
        seq![w]
    } else {
        Seq::empty()
    }
}

/// A number as an option's value, if there is one.
pub open spec fn number_word(name: Seq<char>, n: Option<u64>) -> Seq<Seq<char>> {
    match n {
        Some(n) => seq![name + decimal(n as nat)],
        None => Seq::empty(),
    }
}

pub open spec fn args_of(work: Work, plumbing: Seq<Seq<char>>) -> Seq<Seq<char>> {
    match work {
        Work::Dd(args) => seq!["dd"@] + plumbing + texts(args@),
        Work::Copy { mode, from, to, ask, block_size, size, dd_args } => seq!["copy"@] + plumbing + seq![
            "--mode="@ + mode.spelled(),
        ] + word_if(from@.len() > 0, "--from="@ + from@) + seq!["--to="@ + to@] + number_word("--size="@, size)
            + word_if(ask, "--ask"@) + number_word("--block-size="@, block_size) + (if dd_args@.len() > 0 {
            seq!["--"@] + texts(dd_args@)
        } else {
            Seq::empty()
        }),
    }
}

fn push_copies(words: &mut Vec<String>, more: &[String], prefix: &str)
    ensures
        texts(final(words)@) == texts(old(words)@) + prefixed(prefix@, texts(more@)),
{
    let ghost before = texts(words@);
    let mut i: usize = 0;
    proof {
        assert(texts(words@) =~= before + prefixed(prefix@, texts(more@)).take(0));
    }
    while i < more.len()
        invariant
            i <= more@.len(),
            texts(words@) == before + prefixed(prefix@, texts(more@)).take(i as int),
        decreases more@.len() - i,
    {
        let ghost was = words@;
        let mut w: String = prefix.to_owned();
        w.append(more[i].as_str());
        words.push(w);
        proof {
            let p = prefixed(prefix@, texts(more@));
            assert(texts(words@) =~= texts(was).push(w@));
            assert(w@ == p[i as int]);
            assert(p.take(i + 1) =~= p.take(i as int).push(p[i as int]));
            assert(before + p.take(i + 1) =~= (before + p.take(i as int)).push(w@));
        }
        i = i + 1;
    }
    proof {
        let p = prefixed(prefix@, texts(more@));
        assert(p.take(more@.len() as int) =~= p);
    }
}

/// Every word with something before it.
pub open spec fn prefixed(prefix: Seq<char>, words: Seq<Seq<char>>) -> Seq<Seq<char>> {
    words.map_values(|w: Seq<char>| prefix + w)
}

proof fn lemma_no_prefix(words: Seq<Seq<char>>)
    ensures
        prefixed(""@, words) == words,
{
    reveal_strlit("");
    assert forall|i: int| 0 <= i < words.len() implies prefixed(""@, words)[i] == words[i] by {
        assert(""@ + words[i] =~= words[i]);
    }
    assert(prefixed(""@, words) =~= words);
}

fn push_word(words: &mut Vec<String>, name: &str, value: &str)
    ensures
        texts(final(words)@) == texts(old(words)@) + seq![name@ + value@],
{
    let ghost was = words@;
    let mut w: String = name.to_owned();
    w.append(value);
    words.push(w);
    assert(texts(words@) =~= texts(was) + seq![name@ + value@]);
}

fn push_one(words: &mut Vec<String>, word: &str)
    ensures
        texts(final(words)@) == texts(old(words)@) + seq![word@],
{
    let ghost was = words@;
    words.push(word.to_owned());
    assert(texts(words@) =~= texts(was) + seq![word@]);
}

impl Work {
    pub open spec fn asking(self) -> bool {
        self matches Work::Copy { ask, .. } && ask
    }

    pub fn asks(&self) -> (r: bool)
        ensures
            r == self.asking(),
    {
        match self {
            Work::Dd(_) => false,
            Work::Copy { ask, .. } => *ask,
        }
    }

    /// The worker's command line after the executable, plumbing options first.
    pub fn args(&self, plumbing: &[String]) -> (r: Vec<String>)
        ensures
            texts(r@) == args_of(*self, texts(plumbing@)),
    {
        let mut words: Vec<String> = Vec::new();
        let ghost p = texts(plumbing@);
        proof {
            assert(texts(words@) =~= Seq::<Seq<char>>::empty());
            lemma_no_prefix(p);
        }
        match self {
            Work::Dd(args) => {
                push_one(&mut words, "dd");
                push_copies(&mut words, plumbing, "");
                push_copies(&mut words, args, "");
                proof {
                    lemma_no_prefix(texts(args@));
                    assert(texts(words@) =~= args_of(*self, p));
                }
            },
            Work::Copy { mode, from, to, ask, block_size, size, dd_args } => {
                push_one(&mut words, "copy");
                push_copies(&mut words, plumbing, "");
                push_word(&mut words, "--mode=", mode.name());
                if !same(from.as_str(), "") {
                    push_word(&mut words, "--from=", from.as_str());
                }
                proof {
                    reveal_strlit("");
                    assert(from@.len() == 0 ==> from@ =~= ""@);
                }
                push_word(&mut words, "--to=", to.as_str());
                if let Some(n) = size {
                    push_word(&mut words, "--size=", decimal_text(*n).as_str());
                }
                if *ask {
                    push_one(&mut words, "--ask");
                }
                if let Some(n) = block_size {
                    push_word(&mut words, "--block-size=", decimal_text(*n).as_str());
                }
                if dd_args.len() > 0 {
                    push_one(&mut words, "--");
                    push_copies(&mut words, dd_args, "");
                    proof {
                        lemma_no_prefix(texts(dd_args@));
                    }
                }
                proof {
                    assert(texts(words@) =~= args_of(*self, p));
                }
            },
        }
        words
    }
}

#[derive(Debug)]
pub struct Spec {
    pub work: Work,
    pub elevate: bool,
    pub unmount: Vec<String>,
    pub lock: Vec<String>,
    /// Flush this drive after dd finishes.
    pub sync: Option<String>,
}

pub open spec fn plumbing_of(spec: Spec) -> Seq<Seq<char>> {
    seq!["--ddgui-worker"@] + prefixed("--ddgui-unmount="@, texts(spec.unmount@)) + prefixed(
        "--ddgui-lock="@,
        texts(spec.lock@),
    ) + (match spec.sync {
        Some(d) => seq!["--ddgui-sync="@ + d@],
        None => Seq::empty(),
    })
}

impl Spec {
    /// What the worker has to do besides copying.
    pub fn plumbing(&self) -> (r: Vec<String>)
        ensures
            texts(r@) == plumbing_of(*self),
    {
        let mut words: Vec<String> = Vec::new();
        proof {
            assert(texts(words@) =~= Seq::<Seq<char>>::empty());
        }
        push_one(&mut words, "--ddgui-worker");
        push_copies(&mut words, &self.unmount, "--ddgui-unmount=");
        push_copies(&mut words, &self.lock, "--ddgui-lock=");
        if let Some(d) = &self.sync {
            push_word(&mut words, "--ddgui-sync=", d.as_str());
        }
        proof {
            assert(texts(words@) =~= plumbing_of(*self));
        }
        words
    }

    /// The words after the executable for a worker that quits when its input closes.
    pub fn piped_words(&self) -> (r: Vec<String>)
        ensures
            texts(r@) == args_of(self.work, plumbing_of(*self) + seq!["--ddgui-watch-stdin"@]),
    {
        let mut plumbing: Vec<String> = self.plumbing();
        push_one(&mut plumbing, "--ddgui-watch-stdin");
        self.work.args(&plumbing)
    }

    /// The words after the executable for a worker that looks for files instead.
    pub fn followed_words(&self, cancel: &str, answer: &str, pid: u32) -> (r: Vec<String>)
        ensures
            texts(r@) == args_of(self.work, followed_plumbing(*self, cancel@, answer@, pid)),
    {
        let mut plumbing: Vec<String> = self.plumbing();
        push_word(&mut plumbing, "--ddgui-cancel-file=", cancel);
        if self.work.asks() {
            push_word(&mut plumbing, "--ddgui-answer-file=", answer);
        }
        push_word(&mut plumbing, "--ddgui-parent=", decimal_text(pid as u64).as_str());
        proof {
            assert(texts(plumbing@) =~= followed_plumbing(*self, cancel@, answer@, pid));
        }
        self.work.args(&plumbing)
    }
}

pub open spec fn followed_plumbing(spec: Spec, cancel: Seq<char>, answer: Seq<char>, pid: u32) -> Seq<Seq<char>> {
    plumbing_of(spec) + seq!["--ddgui-cancel-file="@ + cancel] + word_if(
        spec.work.asking(),
        "--ddgui-answer-file="@ + answer,
    ) + seq!["--ddgui-parent="@ + decimal(pid as nat)]
}

// The worker's command line, read again.

/// The words of a command line, as they reach the worker.
pub open spec fn encoded(words: Seq<Seq<char>>) -> Seq<Seq<u8>> {
    words.map_values(|w: Seq<char>| encode_utf8(w))
}

/// A plumbing option?
pub open spec fn is_plumbing(w: Seq<char>) -> bool {
    w.len() >= 8 && w.take(8) == "--ddgui-"@
}

proof fn lemma_encoding(w: Seq<char>)
    ensures
        text_of(encode_utf8(w)) == Some(w),
{
    encode_utf8_valid_utf8(w);
    encode_utf8_decode_utf8(w);
}

/// An option with a value falls apart into the two.
proof fn lemma_option(name: Seq<char>, value: Seq<char>)
    requires
        is_ascii_chars(name),
        forall|i: int| 0 <= i < name.len() ==> #[trigger] name[i] != '=',
    ensures
        ({
            let w = encode_utf8(name + seq!['='] + value);
            &&& text_of(name_of(w)) == Some(name)
            &&& value_of(w) == Some(encode_utf8(value))
            &&& value_text(w) == value
            &&& text_of(w) == Some(name + seq!['='] + value)
        }),
{
    let w = encode_utf8(name + seq!['='] + value);
    let n = encode_utf8(name);
    lemma_encode_concat(name + seq!['='], value);
    lemma_encode_concat(name, seq!['=']);
    is_ascii_chars_encode_utf8(name);
    assert(is_ascii_chars(seq!['=']));
    is_ascii_chars_encode_utf8(seq!['=']);
    assert(seq!['='][0] as u8 == encode_utf8(seq!['='])[0]);
    assert forall|i: int| 0 <= i < n.len() implies #[trigger] w[i] != 61 by {
        assert(name[i] as u8 == n[i]);
        assert(name[i] != '=');
    }
    assert(w[n.len() as int] == 61);
    lemma_equals_at(w, n.len());
    assert(name_of(w) =~= n);
    assert(w.skip(n.len() as int + 1) =~= encode_utf8(value));
    lemma_encoding(name);
    lemma_encoding(value);
    lemma_encoding(name + seq!['='] + value);
}

proof fn lemma_no_equals(b: Seq<u8>, n: nat)
    requires
        n <= b.len(),
        forall|i: int| 0 <= i < n ==> #[trigger] b[i] != 61,
    ensures
        n <= equals_at(b) <= b.len(),
    decreases b.len(),
{
    if b.len() > 0 && b[0] != 61 {
        assert forall|i: int| 0 <= i < n - 1 implies #[trigger] b.skip(1)[i] != 61 by {
            assert(b.skip(1)[i] == b[i + 1]);
        }
        lemma_no_equals(b.skip(1), if n > 0 { (n - 1) as nat } else { 0 });
    }
}

proof fn lemma_other_text(b: Seq<u8>, t: Seq<char>, k: int)
    requires
        is_ascii_chars(t),
        b.len() >= 8,
        t.len() < 8 || (0 <= k < 8 && t[k] as u8 != b[k]),
    ensures
        text_of(b) != Some(t),
{
    if text_of(b) == Some(t) {
        decode_utf8_encode_utf8(b);
        assert(encode_utf8(t) == b);
        is_ascii_chars_encode_utf8(t);
        if t.len() >= 8 {
            assert(t[k] as u8 == encode_utf8(t)[k]);
        }
    }
}

/// A plumbing option is taken as one.
proof fn lemma_plumbing_word(g: Gathered, w: Seq<char>)
    requires
        is_plumbing(w),
    ensures
        taken(g, encode_utf8(w)) == Ok::<Gathered, Seq<char>>(Gathered { plumbing: g.plumbing.push(w), ..g }),
        text_of(encode_utf8(w)) != Some("--"@),
{
    let b = encode_utf8(w);
    let p = "--ddgui-"@;
    reveal_strlit("--ddgui-");
    reveal_strlit("--mode");
    reveal_strlit("--from");
    reveal_strlit("--to");
    reveal_strlit("--ask");
    reveal_strlit("--block-size");
    reveal_strlit("--");
    assert(w =~= p + w.skip(8));
    lemma_encode_concat(p, w.skip(8));
    is_ascii_chars_encode_utf8(p);
    assert(encode_utf8(p) =~= PLUMBING@) by {
        assert forall|i: int| 0 <= i < 8 implies encode_utf8(p)[i] == #[trigger] PLUMBING@[i] by {
            assert(p[i] as u8 == encode_utf8(p)[i]);
        }
    }
    assert forall|i: int| 0 <= i < 8 implies #[trigger] b[i] == PLUMBING@[i] && b[i] != 61 by {}
    lemma_no_equals(b, 8);
    let name = name_of(b);
    assert(name.take(8) =~= PLUMBING@);
    assert(name[2] == b[2]);
    lemma_other_text(name, "--mode"@, 0);
    lemma_other_text(name, "--from"@, 0);
    lemma_other_text(name, "--to"@, 0);
    lemma_other_text(name, "--ask"@, 0);
    lemma_other_text(name, "--block-size"@, 2);
    lemma_other_text(b, "--"@, 0);
    lemma_encoding(w);
}

proof fn lemma_step(g: Gathered, w: Seq<u8>, next: Gathered, rest: Seq<Seq<u8>>)
    requires
        text_of(w) != Some("--"@),
        taken(g, w) == Ok::<Gathered, Seq<char>>(next),
    ensures
        gathered(g, seq![w] + rest) == gathered(next, rest),
{
    let words = seq![w] + rest;
    assert(words[0] == w);
    assert(words.skip(1) =~= rest);
}

/// Plumbing options are gathered in order.
proof fn lemma_plumbing(g: Gathered, plumbing: Seq<Seq<char>>, rest: Seq<Seq<u8>>)
    requires
        forall|i: int| 0 <= i < plumbing.len() ==> is_plumbing(#[trigger] plumbing[i]),
    ensures
        gathered(g, encoded(plumbing) + rest) == gathered(
            Gathered { plumbing: g.plumbing + plumbing, ..g },
            rest,
        ),
    decreases plumbing.len(),
{
    if plumbing.len() == 0 {
        assert(encoded(plumbing) + rest =~= rest);
        assert(g.plumbing + plumbing =~= g.plumbing);
    } else {
        let w = plumbing[0];
        let more = plumbing.skip(1);
        let next = Gathered { plumbing: g.plumbing.push(w), ..g };
        lemma_plumbing_word(g, w);
        assert(encoded(plumbing) + rest =~= seq![encode_utf8(w)] + (encoded(more) + rest));
        lemma_step(g, encode_utf8(w), next, encoded(more) + rest);
        assert forall|i: int| 0 <= i < more.len() implies is_plumbing(#[trigger] more[i]) by {
            assert(more[i] == plumbing[i + 1]);
        }
        lemma_plumbing(next, more, rest);
        assert(g.plumbing.push(w) + more =~= g.plumbing + plumbing);
    }
}

proof fn lemma_mode_word(g: Gathered, mode: CopyMode, rest: Seq<Seq<u8>>)
    requires
        mode != CopyMode::Zeros,
    ensures
        gathered(g, seq![encode_utf8("--mode="@ + mode.spelled())] + rest) == gathered(
            Gathered {
                mode: Some(
                    if mode == CopyMode::Smart {
                        Mode::Smart
                    } else {
                        Mode::Restore
                    },
                ),
                ..g
            },
            rest,
        ),
{
    let w = encode_utf8("--mode="@ + mode.spelled());
    reveal_strlit("--mode=");
    reveal_strlit("--mode");
    reveal_strlit("--");
    reveal_strlit("smart");
    reveal_strlit("restore");
    assert("--mode"@ + seq!['='] =~= "--mode="@);
    lemma_option("--mode"@, mode.spelled());
    assert("smart"@.len() != "restore"@.len());
    assert(("--mode="@ + mode.spelled()).len() != "--"@.len());
    let m = if mode == CopyMode::Smart {
        Mode::Smart
    } else {
        Mode::Restore
    };
    lemma_step(g, w, Gathered { mode: Some(m), ..g }, rest);
}

proof fn lemma_path_words(g: Gathered, from: Seq<char>, to: Seq<char>, rest: Seq<Seq<u8>>)
    ensures
        gathered(g, seq![encode_utf8("--from="@ + from)] + (seq![encode_utf8("--to="@ + to)] + rest)) == gathered(
            Gathered { from: Some(encode_utf8(from)), to: Some(encode_utf8(to)), ..g },
            rest,
        ),
{
    reveal_strlit("--from=");
    reveal_strlit("--from");
    reveal_strlit("--to=");
    reveal_strlit("--to");
    reveal_strlit("--mode");
    reveal_strlit("--");
    assert("--from"@ + seq!['='] =~= "--from="@);
    assert("--to"@ + seq!['='] =~= "--to="@);
    lemma_option("--from"@, from);
    lemma_option("--to"@, to);
    assert("--from"@[2] != "--mode"@[2]);
    assert("--to"@.len() != "--mode"@.len() && "--to"@.len() != "--from"@.len());
    assert(("--from="@ + from).len() > "--"@.len() && ("--to="@ + to).len() > "--"@.len());
    let next = Gathered { from: Some(encode_utf8(from)), ..g };
    lemma_step(g, encode_utf8("--from="@ + from), next, seq![encode_utf8("--to="@ + to)] + rest);
    lemma_step(next, encode_utf8("--to="@ + to), Gathered { to: Some(encode_utf8(to)), ..next }, rest);
}

proof fn lemma_ask_word(g: Gathered, ask: bool, rest: Seq<Seq<u8>>)
    requires
        !g.ask,
    ensures
        gathered(g, encoded(word_if(ask, "--ask"@)) + rest) == gathered(Gathered { ask, ..g }, rest),
{
    if ask {
        let w = encode_utf8("--ask"@);
        reveal_strlit("--ask");
        reveal_strlit("--mode");
        reveal_strlit("--from");
        reveal_strlit("--to");
        reveal_strlit("--");
        is_ascii_chars_encode_utf8("--ask"@);
        lemma_encoding("--ask"@);
        assert forall|i: int| 0 <= i < w.len() implies #[trigger] w[i] != 61 by {
            assert("--ask"@[i] as u8 == w[i]);
        }
        lemma_equals_at(w, w.len());
        assert(name_of(w) =~= w);
        assert(encoded(seq!["--ask"@]) =~= seq![w]);
        assert("--ask"@.len() != "--mode"@.len() && "--ask"@.len() != "--from"@.len() && "--ask"@.len()
            != "--to"@.len());
        lemma_step(g, w, Gathered { ask: true, ..g }, rest);
    } else {
        assert(encoded(word_if(ask, "--ask"@)) + rest =~= rest);
    }
}

proof fn lemma_size_of_number(n: nat)
    requires
        n <= usize::MAX,
    ensures
        size_in(decimal(n)) == Some(n as usize),
{
    let d = decimal(n);
    law_decimal_round_trip(n);
    assert forall|i: int| 0 <= i < d.len() implies '0' <= #[trigger] d[i] <= '9' by {
        assert(is_digit(d[i]));
    }
    lemma_digits_run(d, d.len());
    assert(d.take(d.len() as int) =~= d);
    assert(d.skip(d.len() as int).len() == 0);
    assert(usize_in(d) == Some(n as usize));
    assert(unit_in(d.skip(d.len() as int)) == Some(1usize));
    assert((n as usize) * 1usize == n);
}

/// The chunk size that a job asks for, or the usual one.
pub open spec fn block_asked(block_size: Option<u64>) -> usize {
    match block_size {
        Some(n) => n as usize,
        None => DEFAULT_BLOCK,
    }
}

proof fn lemma_block_word(g: Gathered, block_size: Option<u64>, rest: Seq<Seq<u8>>)
    requires
        g.block_size == DEFAULT_BLOCK,
        block_size matches Some(n) ==> n <= usize::MAX && good_block(n as usize),
    ensures
        gathered(g, encoded(number_word("--block-size="@, block_size)) + rest) == gathered(
            Gathered { block_size: block_asked(block_size), ..g },
            rest,
        ),
{
    match block_size {
        Some(n) => {
            let value = decimal(n as nat);
            let w = encode_utf8("--block-size="@ + value);
            reveal_strlit("--block-size=");
            reveal_strlit("--block-size");
            reveal_strlit("--mode");
            reveal_strlit("--from");
            reveal_strlit("--to");
            reveal_strlit("--ask");
            reveal_strlit("--");
            assert("--block-size"@ + seq!['='] =~= "--block-size="@);
            lemma_option("--block-size"@, value);
            lemma_size_of_number(n as nat);
            assert(encoded(seq!["--block-size="@ + value]) =~= seq![w]);
            assert("--block-size"@.len() == 12 && "--mode"@.len() == 6 && "--from"@.len() == 6 && "--to"@.len() == 4
                && "--ask"@.len() == 5);
            assert(("--block-size="@ + value).len() > "--"@.len());
            lemma_step(g, w, Gathered { block_size: n as usize, ..g }, rest);
        },
        None => {
            assert(encoded(number_word("--block-size="@, block_size)) + rest =~= rest);
        },
    }
}

proof fn lemma_dd_words(g: Gathered, dd: Seq<Seq<char>>)
    requires
        g.dd.len() == 0,
    ensures
        gathered(
            g,
            encoded(
                if dd.len() > 0 {
                    seq!["--"@] + dd
                } else {
                    Seq::empty()
                },
            ),
        ) == Ok::<Gathered, Seq<char>>(Gathered { dd: encoded(dd), ..g }),
{
    if dd.len() > 0 {
        let words = encoded(seq!["--"@] + dd);
        assert(words[0] == encode_utf8("--"@));
        lemma_encoding("--"@);
        assert(words.skip(1) =~= encoded(dd));
    } else {
        assert(encoded(Seq::<Seq<char>>::empty()) =~= Seq::<Seq<u8>>::empty());
        assert(encoded(dd) =~= g.dd);
    }
}

/// What the worker of a copy is told is what the job says: its words are accepted, and say the
/// same mode, paths, chunk size and dd operands, with the plumbing options in order.
pub proof fn law_command_lines_are_understood(work: Work, plumbing: Seq<Seq<char>>)
    requires
        work matches Work::Copy { mode, from, to, ask, block_size, size, dd_args } && mode != CopyMode::Zeros
            && from@.len() > 0 && to@.len() > 0 && (ask ==> mode == CopyMode::Smart) && size is None && (
        block_size matches Some(n) ==> n <= usize::MAX && good_block(n as usize)),
        forall|i: int| 0 <= i < plumbing.len() ==> is_plumbing(#[trigger] plumbing[i]),
    ensures
        work matches Work::Copy { mode, from, to, ask, block_size, size, dd_args} && parsed(
            encoded(args_of(work, plumbing).skip(1)),
        ) == Ok::<Said, Seq<char>>(
            Said {
                plumbing,
                mode: if mode == CopyMode::Smart {
                    Mode::Smart
                } else {
                    Mode::Restore
                },
                from: encode_utf8(from@),
                to: encode_utf8(to@),
                ask,
                block_size: block_asked(block_size),
                dd: encoded(texts(dd_args@)),
            },
        ),
{
    if let Work::Copy { mode, from, to, ask, block_size, size, dd_args } = work {
        let dd = texts(dd_args@);
        let tail = encoded(
            if dd.len() > 0 {
                seq!["--"@] + dd
            } else {
                Seq::empty()
            },
        );
        let after_ask = encoded(number_word("--block-size="@, block_size)) + tail;
        let after_to = encoded(word_if(ask, "--ask"@)) + after_ask;
        let paths = seq![encode_utf8("--from="@ + from@)] + (seq![encode_utf8("--to="@ + to@)] + after_to);
        let after_plumbing = seq![encode_utf8("--mode="@ + mode.spelled())] + paths;
        assert(encoded(args_of(work, plumbing).skip(1)) =~= encoded(plumbing) + after_plumbing);
        let g0 = nothing();
        lemma_plumbing(g0, plumbing, after_plumbing);
        assert(g0.plumbing + plumbing =~= plumbing);
        let g1 = Gathered { plumbing, ..g0 };
        lemma_mode_word(g1, mode, paths);
        let m = if mode == CopyMode::Smart {
            Mode::Smart
        } else {
            Mode::Restore
        };
        let g2 = Gathered { mode: Some(m), ..g1 };
        lemma_path_words(g2, from@, to@, after_to);
        let g3 = Gathered { from: Some(encode_utf8(from@)), to: Some(encode_utf8(to@)), ..g2 };
        lemma_ask_word(g3, ask, after_ask);
        let g4 = Gathered { ask, ..g3 };
        lemma_block_word(g4, block_size, tail);
        let g5 = Gathered { block_size: block_asked(block_size), ..g4 };
        lemma_dd_words(g5, dd);
        lemma_not_empty(from@);
        lemma_not_empty(to@);
    }
}

proof fn lemma_not_empty(s: Seq<char>)
    requires
        s.len() > 0,
    ensures
        encode_utf8(s).len() > 0,
{
    lemma_encoding(s);
    if encode_utf8(s).len() == 0 {
        assert(encode_utf8(s) =~= encode_utf8(Seq::<char>::empty()));
        lemma_encoding(Seq::<char>::empty());
        assert(s =~= Seq::<char>::empty());
    }
}

/// What a job adds to the worker's command line are plumbing options, whichever way the worker
/// is watched.
pub proof fn law_plumbing_is_plumbing(spec: Spec, cancel: Seq<char>, answer: Seq<char>, pid: u32)
    ensures
        forall|i: int|
            0 <= i < plumbing_of(spec).len() + 1 ==> is_plumbing(
                #[trigger] (plumbing_of(spec) + seq!["--ddgui-watch-stdin"@])[i],
            ),
        forall|i: int|
            0 <= i < followed_plumbing(spec, cancel, answer, pid).len() ==> is_plumbing(
                #[trigger] followed_plumbing(spec, cancel, answer, pid)[i],
            ),
{
    reveal_strlit("--ddgui-");
    reveal_strlit("--ddgui-worker");
    reveal_strlit("--ddgui-unmount=");
    reveal_strlit("--ddgui-lock=");
    reveal_strlit("--ddgui-sync=");
    reveal_strlit("--ddgui-watch-stdin");
    reveal_strlit("--ddgui-cancel-file=");
    reveal_strlit("--ddgui-answer-file=");
    reveal_strlit("--ddgui-parent=");
    assert("--ddgui-worker"@.take(8) =~= "--ddgui-"@);
    assert("--ddgui-unmount="@.take(8) =~= "--ddgui-"@);
    assert("--ddgui-lock="@.take(8) =~= "--ddgui-"@);
    assert("--ddgui-sync="@.take(8) =~= "--ddgui-"@);
    assert("--ddgui-watch-stdin"@.take(8) =~= "--ddgui-"@);
    assert("--ddgui-cancel-file="@.take(8) =~= "--ddgui-"@);
    assert("--ddgui-answer-file="@.take(8) =~= "--ddgui-"@);
    assert("--ddgui-parent="@.take(8) =~= "--ddgui-"@);
    lemma_starts_so("--ddgui-worker"@, Seq::empty());
    lemma_starts_so("--ddgui-watch-stdin"@, Seq::empty());
    lemma_starts_so("--ddgui-cancel-file="@, cancel);
    lemma_starts_so("--ddgui-answer-file="@, answer);
    lemma_starts_so("--ddgui-parent="@, decimal(pid as nat));
    let p = plumbing_of(spec);
    let unmount = texts(spec.unmount@);
    let lock = texts(spec.lock@);
    assert forall|i: int| 0 <= i < p.len() implies is_plumbing(#[trigger] p[i]) by {
        if 1 <= i <= unmount.len() {
            lemma_starts_so("--ddgui-unmount="@, unmount[i - 1]);
        } else if unmount.len() < i <= unmount.len() + lock.len() {
            lemma_starts_so("--ddgui-lock="@, lock[i - 1 - unmount.len()]);
        } else if i > 0 {
            lemma_starts_so("--ddgui-sync="@, spec.sync->0@);
        }
    }
}

proof fn lemma_starts_so(option: Seq<char>, value: Seq<char>)
    requires
        option.len() >= 8,
        option.take(8) == "--ddgui-"@,
    ensures
        is_plumbing(option + value),
        is_plumbing(option),
{
    assert((option + value).take(8) =~= option.take(8));
}

// Starting the worker.

/// The words that start our own executable, elevated if asked: `DD_GUI_ELEVATE`'s, if it has
/// any, else pkexec.
pub open spec fn launcher_of(exe: Seq<char>, elevate: bool, system: System, custom: Option<Seq<char>>) -> Seq<
    Seq<char>,
> {
    if !elevate || system == System::Windows {
        seq![exe]
    } else if custom matches Some(c) && words(c).len() > 0 {
        words(custom->0).push(exe)
    } else {
        seq!["pkexec"@, exe]
    }
}

/// The command that starts our own executable, elevated if asked. `custom` is for setups
/// without polkit: "sudo -A" or "doas", say.
pub fn launcher(exe: &str, elevate: bool, system: System, custom: Option<&str>) -> (r: Vec<String>)
    ensures
        texts(r@) == launcher_of(
            exe@,
            elevate,
            system,
            match custom {
                Some(c) => Some(c@),
                None => None,
            },
        ),
{
    let mut out: Vec<String> = Vec::new();
    proof {
        assert(texts(out@) =~= Seq::<Seq<char>>::empty());
    }
    if elevate && system != System::Windows {
        let mut any: bool = false;
        if let Some(c) = custom {
            let v: Vec<char> = chars(c);
            let ws: Vec<Vec<char>> = split_words(&v);
            let mut i: usize = 0;
            proof {
                assert(views(ws@).take(0) =~= Seq::<Seq<char>>::empty());
            }
            while i < ws.len()
                invariant
                    i <= ws@.len(),
                    texts(out@) == views(ws@).take(i as int),
                decreases ws@.len() - i,
            {
                let ghost was = out@;
                let w: String = string(&ws[i]);
                out.push(w);
                proof {
                    assert(texts(out@) =~= texts(was).push(w@));
                    assert(views(ws@).take(i + 1) =~= views(ws@).take(i as int).push(views(ws@)[i as int]));
                }
                i = i + 1;
            }
            proof {
                assert(views(ws@).take(ws@.len() as int) =~= views(ws@));
            }
            any = ws.len() > 0;
        }
        if !any {
            push_one(&mut out, "pkexec");
        }
    }
    push_one(&mut out, exe);
    out
}

/// Why the worker didn't start; `missing` if its command isn't there.
pub fn start_error(missing: bool, elevate: bool, why: &str) -> (s: String)
    ensures
        s@ == if missing && elevate {
            "Drives need administrator rights, but pkexec (polkit) isn't installed. Install polkit, or run dd-gui as root."@
        } else {
            "couldn't start the copy: "@ + why@
        },
{
    if missing && elevate {
        "Drives need administrator rights, but pkexec (polkit) isn't installed. Install polkit, or run dd-gui as root.".to_owned()
    } else {
        let mut s: String = "couldn't start the copy: ".to_owned();
        s.append(why);
        s
    }
}

pub open spec fn own_executable_of(exe: Seq<char>, there: bool, original_there: bool) -> Seq<char> {
    if !there && ends(exe, " (deleted)"@) && original_there {
        exe.take(exe.len() - 10)
    } else {
        exe
    }
}

/// The path to start, when the system gives `exe` as the one that runs. It ends in
/// " (deleted)" once the binary was replaced while running, e.g. by an upgrade; the new binary
/// at the same path, if it is there, works just as well.
pub fn own_executable(exe: String, there: bool, original_there: bool) -> (s: String)
    ensures
        s@ == own_executable_of(exe@, there, original_there),
{
    if there || !original_there {
        return exe;
    }
    let v: Vec<char> = chars(exe.as_str());
    proof {
        reveal_strlit(" (deleted)");
    }
    if ends_with(&v, " (deleted)") {
        let w: Vec<char> = part(&v, 0, v.len() - 10);
        assert(w@ =~= exe@.take(exe@.len() - 10));
        string(&w)
    } else {
        exe
    }
}

/// A word for the shell, in single quotes.
pub open spec fn quoted_word(s: Seq<char>) -> Seq<char> {
    "'"@ + replace_char(s, '\'', "'\\''"@) + "'"@
}

pub fn quote(s: &str) -> (r: String)
    ensures
        r@ == quoted_word(s@),
{
    let mut r: String = "'".to_owned();
    r.append(replaced(s, '\'', "'\\''").as_str());
    r.append("'");
    r
}

pub open spec fn quoted_words(words: Seq<Seq<char>>) -> Seq<Seq<char>> {
    words.map_values(|w: Seq<char>| quoted_word(w))
}

/// The command for the shell: what goes out is added to two files.
pub open spec fn shell_of(words: Seq<Seq<char>>, status: Seq<char>, output: Seq<char>) -> Seq<char> {
    join(quoted_words(words), " "@) + " </dev/null >>"@ + quoted_word(status) + " 2>>"@ + quoted_word(output)
}

/// A text between the quotes of AppleScript.
pub open spec fn script_text(s: Seq<char>) -> Seq<char> {
    replace_char(replace_char(s, '\\', "\\\\"@), '"', "\\\""@)
}

pub open spec fn script_of(words: Seq<Seq<char>>, status: Seq<char>, output: Seq<char>) -> Seq<char> {
    "do shell script \""@ + script_text(shell_of(words, status, output)) + "\" with administrator privileges"@
}

/// The AppleScript that runs the worker as an administrator, with what it says going to two
/// files: osascript only hands back output once the command ends.
pub fn administrator_script(words: &[String], status: &str, output: &str) -> (r: String)
    ensures
        r@ == script_of(texts(words@), status@, output@),
{
    let mut quoted: Vec<String> = Vec::new();
    let mut i: usize = 0;
    proof {
        assert(texts(quoted@) =~= quoted_words(texts(words@)).take(0));
    }
    while i < words.len()
        invariant
            i <= words@.len(),
            texts(quoted@) == quoted_words(texts(words@)).take(i as int),
        decreases words@.len() - i,
    {
        let ghost was = quoted@;
        let q: String = quote(words[i].as_str());
        quoted.push(q);
        proof {
            let all = quoted_words(texts(words@));
            assert(texts(quoted@) =~= texts(was).push(q@));
            assert(q@ == all[i as int]);
            assert(all.take(i + 1) =~= all.take(i as int).push(all[i as int]));
        }
        i = i + 1;
    }
    proof {
        let all = quoted_words(texts(words@));
        assert(all.take(words@.len() as int) =~= all);
    }
    let mut shell: String = joined(&quoted, " ");
    shell.append(" </dev/null >>");
    shell.append(quote(status).as_str());
    shell.append(" 2>>");
    shell.append(quote(output).as_str());
    let backslashes: String = replaced(shell.as_str(), '\\', "\\\\");
    let escaped: String = replaced(backslashes.as_str(), '"', "\\\"");
    let mut script: String = "do shell script \"".to_owned();
    script.append(escaped.as_str());
    script.append("\" with administrator privileges");
    script
}

/// What a shell makes of a word; `within` single quotes, where nothing but the next quote is
/// special.
pub open spec fn shell_reads(s: Seq<char>, within: bool) -> Seq<char>
    decreases s.len(),
{
    if s.len() == 0 {
        Seq::empty()
    } else if s[0] == '\'' {
        shell_reads(s.skip(1), !within)
    } else if !within && s[0] == '\\' && s.len() >= 2 {
        seq![s[1]] + shell_reads(s.skip(2), within)
    } else {
        seq![s[0]] + shell_reads(s.skip(1), within)
    }
}

/// What AppleScript makes of a text between quotes.
pub open spec fn script_reads(s: Seq<char>) -> Seq<char>
    decreases s.len(),
{
    if s.len() == 0 {
        Seq::empty()
    } else if s[0] == '\\' && s.len() >= 2 {
        seq![s[1]] + script_reads(s.skip(2))
    } else {
        seq![s[0]] + script_reads(s.skip(1))
    }
}

proof fn lemma_shell_reads(s: Seq<char>)
    ensures
        shell_reads(replace_char(s, '\'', "'\\''"@) + "'"@, true) == s,
    decreases s.len(),
{
    reveal_strlit("'\\''");
    reveal_strlit("'");
    let r = replace_char(s, '\'', "'\\''"@) + "'"@;
    if s.len() == 0 {
        assert(r =~= seq!['\'']);
        assert(r.skip(1) =~= Seq::<char>::empty());
        assert(shell_reads(Seq::<char>::empty(), false) =~= s);
        assert(shell_reads(r, true) == shell_reads(r.skip(1), false));
    } else {
        lemma_replace_char_first(s, '\'', "'\\''"@);
        lemma_shell_reads(s.skip(1));
        let rest = replace_char(s.skip(1), '\'', "'\\''"@) + "'"@;
        if s[0] == '\'' {
            assert(r =~= seq!['\'', '\\', '\'', '\''] + rest);
            let r1 = r.skip(1);
            assert(r1[0] == '\\' && r1[1] == '\'');
            let r3 = r1.skip(2);
            assert(r3[0] == '\'');
            assert(r3.skip(1) =~= rest);
            assert(shell_reads(r, true) == shell_reads(r1, false));
            assert(shell_reads(r1, false) == seq!['\''] + shell_reads(r3, false));
            assert(shell_reads(r3, false) == shell_reads(rest, true));
        } else {
            assert(r =~= seq![s[0]] + rest);
            assert(r.skip(1) =~= rest);
        }
        assert(seq![s[0]] + s.skip(1) =~= s);
    }
}

/// A shell gets a quoted word as it is, whatever is in it.
pub proof fn law_quoted_words_are_kept(word: Seq<char>)
    ensures
        shell_reads(quoted_word(word), false) == word,
{
    reveal_strlit("'");
    let q = quoted_word(word);
    lemma_shell_reads(word);
    assert(q.skip(1) =~= replace_char(word, '\'', "'\\''"@) + "'"@);
}

/// AppleScript hands the shell the command as it is, whatever is in it.
pub proof fn law_scripts_keep_the_command(command: Seq<char>)
    ensures
        script_reads(script_text(command)) == command,
    decreases command.len(),
{
    reveal_strlit("\\\\");
    reveal_strlit("\\\"");
    let once = replace_char(command, '\\', "\\\\"@);
    let r = script_text(command);
    if command.len() == 0 {
        assert(once =~= command);
        assert(r =~= command);
    } else {
        let c = command[0];
        let rest = command.skip(1);
        law_scripts_keep_the_command(rest);
        lemma_replace_char_first(command, '\\', "\\\\"@);
        let once_rest = replace_char(rest, '\\', "\\\\"@);
        lemma_replace_char_first(once, '"', "\\\""@);
        if c == '\\' {
            assert(once =~= seq!['\\', '\\'] + once_rest);
            assert(once.skip(1) =~= seq!['\\'] + once_rest);
            lemma_replace_char_first(once.skip(1), '"', "\\\""@);
            assert(once.skip(1).skip(1) =~= once_rest);
            assert(r =~= seq!['\\', '\\'] + script_text(rest));
            assert(r.skip(2) =~= script_text(rest));
        } else if c == '"' {
            assert(once.skip(1) =~= once_rest);
            assert(r =~= seq!['\\', '"'] + script_text(rest));
            assert(r.skip(2) =~= script_text(rest));
        } else {
            assert(once.skip(1) =~= once_rest);
            assert(r =~= seq![c] + script_text(rest));
            assert(r.skip(1) =~= script_text(rest));
        }
        assert(seq![c] + rest =~= command);
    }
}

// What the worker says.

/// What a line of the worker's status means.
pub open spec fn status_event(line: Seq<char>) -> Option<Told> {
    let l = trim(line);
    let (word, rest) = match split_once(l, ' ') {
        Some(p) => p,
        None => (l, Seq::empty()),
    };
    let n = words(rest);
    if word == "@ready"@ {
        Some(Told::Started)
    } else if word == "@layout"@ {
        Some(Told::Layout(rest))
    } else if word == "@copy"@ {
        Some(Told::Copying)
    } else if word == "@total"@ {
        if n.len() > 0 && u64_in(n[0]) is Some {
            Some(Told::Total(u64_in(n[0])->0))
        } else {
            None
        }
    } else if word == "@progress"@ {
        if n.len() > 0 && u64_in(n[0]) is Some {
            Some(
                Told::Progress {
                    done: u64_in(n[0])->0,
                    written: if n.len() > 1 {
                        u64_in(n[1])
                    } else {
                        None
                    },
                },
            )
        } else {
            None
        }
    } else if word == "@sync"@ {
        Some(Told::Syncing)
    } else {
        None
    }
}

pub open spec fn progress_in(line: Seq<char>) -> Option<u64> {
    match split_once(line, ' ') {
        Some((n, rest)) => if starts(rest, "byte"@) {
            u64_in(n)
        } else {
            None
        },
        None => None,
    }
}

/// "5000000000 bytes (5.0 GB, 4.7 GiB) copied, 120 s, 41.7 MB/s" → 5000000000
pub fn progress_bytes(line: &str) -> (r: Option<u64>)
    ensures
        r == progress_in(line@),
{
    let v: Vec<char> = chars(line);
    match split_at_first(&v, ' ') {
        Some((n, rest)) => {
            if starts_with(&rest, "byte") {
                parse_u64(&n)
            } else {
                None
            }
        },
        None => None,
    }
}

/// A count of whole and partial records.
pub open spec fn is_count(n: Seq<char>) -> bool {
    n.contains('+') && forall|i: int| 0 <= i < n.len() ==> '0' <= #[trigger] n[i] <= '9' || n[i] == '+'
}

pub open spec fn counts_records(line: Seq<char>) -> bool {
    split_once(line, ' ') matches Some(p) && is_count(p.0) && starts(p.1, "records"@)
}

/// "1192+1 records in"
pub fn is_record_count(line: &str) -> (r: bool)
    ensures
        r == counts_records(line@),
{
    let v: Vec<char> = chars(line);
    match split_at_first(&v, ' ') {
        Some((n, rest)) => {
            let mut i: usize = 0;
            let mut plus: bool = false;
            while i < n.len()
                invariant
                    i <= n@.len(),
                    split_once(line@, ' ') == Some((n@, rest@)),
                    plus == exists|k: int| 0 <= k < i && #[trigger] n@[k] == '+',
                    forall|k: int| 0 <= k < i ==> '0' <= #[trigger] n@[k] <= '9' || n@[k] == '+',
                decreases n@.len() - i,
            {
                let c: char = n[i];
                if c == '+' {
                    plus = true;
                    assert(n@[i as int] == '+');
                } else if !('0' <= c && c <= '9') {
                    assert(!('0' <= n@[i as int] <= '9' || n@[i as int] == '+'));
                    return false;
                }
                i = i + 1;
            }
            proof {
                if n@.contains('+') {
                    let k = choose|k: int| 0 <= k < n@.len() && n@[k] == '+';
                    assert(n@[k] == '+');
                }
            }
            plus && starts_with(&rest, "records")
        },
        None => false,
    }
}

/// The most messages that are kept.
pub const MESSAGES: usize = 20;

/// What is known of a worker while it runs.
#[derive(Debug)]
pub struct Shared {
    pub cancelled: bool,
    pub started: bool,
    /// dd's last few non-progress lines, for error messages.
    pub messages: Vec<String>,
}

impl Default for Shared {
    fn default() -> (s: Shared)
        ensures
            !s.cancelled && !s.started && s.messages@.len() == 0,
    {
        Shared { cancelled: false, started: false, messages: Vec::new() }
    }
}

/// The messages after one more.
pub open spec fn kept(messages: Seq<Seq<char>>, line: Seq<char>) -> Seq<Seq<char>> {
    let all = messages.push(line);
    if all.len() > MESSAGES {
        all.skip(1)
    } else {
        all
    }
}

/// Does a trimmed line say something else than how far dd is?
pub open spec fn is_message(line: Seq<char>) -> bool {
    line.len() > 0 && !counts_records(line) && progress_in(line) is None
}

impl Shared {
    /// Asks the worker to stop. Whether its launcher has to be stopped directly: it is still at
    /// the password prompt.
    pub fn cancel(&mut self) -> (r: bool)
        ensures
            r == !old(self).started,
            *final(self) == (Shared { cancelled: true, ..*old(self) }),
    {
        self.cancelled = true;
        !self.started
    }

    /// A line of the worker's status.
    pub fn on_status_line(&mut self, line: &str) -> (r: Option<Event>)
        ensures
            told(r) == status_event(line@),
            *final(self) == (Shared {
                started: old(self).started || status_event(line@) == Some(Told::Started),
                ..*old(self)
            }),
    {
        let v: Vec<char> = chars(line);
        let l: Vec<char> = trimmed(&v);
        let (word, rest) = match split_at_first(&l, ' ') {
            Some(p) => p,
            None => (l, Vec::new()),
        };
        proof {
            assert(split_once(trim(line@), ' ') is None ==> rest@ =~= Seq::<char>::empty());
        }
        if is_text(&word, "@ready") {
            self.started = true;
            return Some(Event::Started);
        }
        if is_text(&word, "@layout") {
            return Some(Event::Layout(string(&rest)));
        }
        if is_text(&word, "@copy") {
            return Some(Event::Copying);
        }
        if is_text(&word, "@total") {
            let n: Vec<Vec<char>> = split_words(&rest);
            proof {
                assert(n@.len() > 0 ==> views(n@)[0] == n@[0]@);
                assert(views(n@).len() == n@.len());
            }
            if n.len() > 0 {
                if let Some(total) = parse_u64(&n[0]) {
                    return Some(Event::Total(total));
                }
            }
            return None;
        }
        if is_text(&word, "@progress") {
            let n: Vec<Vec<char>> = split_words(&rest);
            proof {
                assert(n@.len() > 0 ==> views(n@)[0] == n@[0]@);
                assert(n@.len() > 1 ==> views(n@)[1] == n@[1]@);
                assert(views(n@).len() == n@.len());
            }
            if n.len() > 0 {
                if let Some(done) = parse_u64(&n[0]) {
                    let written: Option<u64> = if n.len() > 1 {
                        parse_u64(&n[1])
                    } else {
                        None
                    };
                    return Some(Event::Progress { done, written });
                }
            }
            return None;
        }
        if is_text(&word, "@sync") {
            return Some(Event::Syncing);
        }
        None
    }

    /// A line of dd's own output: how far it is, or a message to keep.
    pub fn on_dd_line(&mut self, line: &str) -> (r: Option<Event>)
        ensures
            told(r) == (match progress_in(trim(line@)) {
                Some(done) if !counts_records(trim(line@)) => Some(
                    Told::Progress { done, written: None },
                ),
                _ => None,
            }),
            final(self).cancelled == old(self).cancelled,
            final(self).started == old(self).started,
            texts(final(self).messages@) == (if is_message(trim(line@)) {
                kept(texts(old(self).messages@), trim(line@))
            } else {
                texts(old(self).messages@)
            }),
            old(self).messages@.len() <= MESSAGES ==> final(self).messages@.len() <= MESSAGES,
    {
        let v: Vec<char> = chars(line);
        let l: Vec<char> = trimmed(&v);
        if l.len() == 0 {
            assert(split_once(trim(line@), ' ') is None);
            return None;
        }
        let text: String = string(&l);
        if is_record_count(text.as_str()) {
            return None;
        }
        if let Some(done) = progress_bytes(text.as_str()) {
            return Some(Event::Progress { done, written: None });
        }
        let ghost was = self.messages@;
        self.messages.push(text);
        assert(texts(self.messages@) =~= texts(was).push(text@));
        if self.messages.len() > MESSAGES {
            let ghost all = self.messages@;
            self.messages.remove(0);
            assert(texts(self.messages@) =~= texts(all).skip(1));
        }
        None
    }
}

/// The messages but those that only say it was cancelled.
pub open spec fn reasons(messages: Seq<Seq<char>>) -> Seq<Seq<char>>
    decreases messages.len(),
{
    if messages.len() == 0 {
        Seq::empty()
    } else if ends(messages.last(), ": cancelled"@) {
        reasons(messages.drop_last())
    } else {
        reasons(messages.drop_last()).push(messages.last())
    }
}

/// The last three, or all of them.
pub open spec fn last_three(s: Seq<Seq<char>>) -> Seq<Seq<char>> {
    if s.len() > 3 {
        s.skip(s.len() - 3)
    } else {
        s
    }
}

/// A text without what it starts with, however often.
pub open spec fn strip_prefixes(s: Seq<char>, p: Seq<char>) -> Seq<char>
    decreases s.len(),
{
    if p.len() > 0 && starts(s, p) {
        strip_prefixes(s.skip(p.len() as int), p)
    } else {
        s
    }
}

fn prefixes_stripped(s: &[char], p: &str) -> (v: Vec<char>)
    ensures
        v@ == strip_prefixes(s@, p@),
{
    let n: usize = chars(p).len();
    let mut v: Vec<char> = part(s, 0, s.len());
    assert(v@ =~= s@);
    if n == 0 {
        return v;
    }
    while starts_with(&v, p)
        invariant
            n == p@.len(),
            n > 0,
            strip_prefixes(s@, p@) == strip_prefixes(v@, p@),
        decreases v@.len(),
    {
        let w: Vec<char> = part(&v, n, v.len());
        assert(w@ =~= v@.skip(n as int));
        v = w;
    }
    v
}

/// A whole number, with its sign.
pub open spec fn signed(n: int) -> Seq<char> {
    if n < 0 {
        "-"@ + decimal((-n) as nat)
    } else {
        decimal(n as nat)
    }
}

pub const DISMISSED: &'static str = "The password prompt was dismissed.";

pub open spec fn not_authorized(code: Option<i32>, messages: Seq<Seq<char>>) -> Seq<char> {
    let text = strip_prefixes(messages.last(), "Error executing command as another user: "@);
    if code == Some(126i32) || (messages.len() > 0 && contains(text, "dismissed"@)) {
        DISMISSED@
    } else if messages.len() > 0 && text.len() > 0 {
        "Authorization failed: "@ + text
    } else {
        "Authorization failed."@
    }
}

pub open spec fn failure(code: Option<i32>, messages: Seq<Seq<char>>) -> Seq<char> {
    let detail = join(last_three(reasons(messages)), "\n"@);
    if detail.len() > 0 {
        detail
    } else {
        match code {
            Some(c) => "dd stopped with exit code "@ + signed(c as int) + "."@,
            None => "dd was stopped by a signal."@,
        }
    }
}

pub open spec fn outcome_of(code: Option<i32>, shared: Shared, elevated: bool) -> Ended {
    let messages = texts(shared.messages@);
    if shared.cancelled {
        Ended::Cancelled
    } else if code == Some(0i32) {
        Ended::Success
    } else if elevated && !shared.started {
        Ended::NotAuthorized(not_authorized(code, messages))
    } else {
        Ended::Failed(failure(code, messages))
    }
}

fn exit_text(code: Option<i32>) -> (s: String)
    ensures
        s@ == (match code {
            Some(c) => "dd stopped with exit code "@ + signed(c as int) + "."@,
            None => "dd was stopped by a signal."@,
        }),
{
    match code {
        Some(c) => {
            let mut s: String = "dd stopped with exit code ".to_owned();
            if c < 0 {
                s.append("-");
                push_decimal(&mut s, (-(c as i64)) as u64);
            } else {
                push_decimal(&mut s, c as u64);
            }
            s.append(".");
            assert(s@ =~= "dd stopped with exit code "@ + signed(c as int) + "."@);
            s
        },
        None => "dd was stopped by a signal.".to_owned(),
    }
}

/// How a worker ended that exited with `code` (None: by a signal). `elevated` if a launcher had
/// to ask for a password first: pkexec exits with 126 when the prompt is dismissed, 127 when
/// authorization fails.
pub fn outcome(code: Option<i32>, shared: &Shared, elevated: bool) -> (r: Outcome)
    ensures
        r@ == outcome_of(code, *shared, elevated),
{
    if shared.cancelled {
        return Outcome::Cancelled;
    }
    if let Some(c) = code {
        if c == 0 {
            return Outcome::Success;
        }
    }
    let n: usize = shared.messages.len();
    let ghost messages = texts(shared.messages@);
    if elevated && !shared.started {
        if let Some(c) = code {
            if c == 126 {
                return Outcome::NotAuthorized(DISMISSED.to_owned());
            }
        }
        if n > 0 {
            assert(messages.last() == shared.messages@[n - 1]@);
            let v: Vec<char> = chars(shared.messages[n - 1].as_str());
            let text: Vec<char> = prefixes_stripped(&v, "Error executing command as another user: ");
            if find_text(&text, "dismissed").is_some() {
                return Outcome::NotAuthorized(DISMISSED.to_owned());
            }
            if text.len() > 0 {
                let mut s: String = "Authorization failed: ".to_owned();
                s.append(string(&text).as_str());
                return Outcome::NotAuthorized(s);
            }
        }
        return Outcome::NotAuthorized("Authorization failed.".to_owned());
    }
    let mut reason: Vec<String> = Vec::new();
    let mut i: usize = 0;
    proof {
        assert(messages.take(0) =~= Seq::<Seq<char>>::empty());
        assert(texts(reason@) =~= Seq::<Seq<char>>::empty());
    }
    while i < n
        invariant
            i <= n,
            n == shared.messages@.len(),
            messages == texts(shared.messages@),
            texts(reason@) == reasons(messages.take(i as int)),
        decreases n - i,
    {
        let v: Vec<char> = chars(shared.messages[i].as_str());
        proof {
            assert(messages.take(i + 1).drop_last() =~= messages.take(i as int));
            assert(messages.take(i + 1).last() == shared.messages@[i as int]@);
        }
        if !ends_with(&v, ": cancelled") {
            let ghost was = reason@;
            let s: String = string(&v);
            reason.push(s);
            assert(texts(reason@) =~= texts(was).push(s@));
        }
        i = i + 1;
    }
    proof {
        assert(messages.take(n as int) =~= messages);
    }
    let mut last: Vec<String> = Vec::new();
    let first: usize = if reason.len() > 3 {
        reason.len() - 3
    } else {
        0
    };
    let mut k: usize = first;
    proof {
        assert(texts(last@) =~= texts(reason@).subrange(first as int, first as int));
    }
    while k < reason.len()
        invariant
            first <= k <= reason@.len(),
            texts(last@) == texts(reason@).subrange(first as int, k as int),
        decreases reason@.len() - k,
    {
        let ghost was = last@;
        push_one(&mut last, reason[k].as_str());
        proof {
            let t = texts(reason@);
            assert(t.subrange(first as int, k + 1) =~= t.subrange(first as int, k as int) + seq![reason@[k as int]@]);
        }
        k = k + 1;
    }
    proof {
        assert(texts(reason@).subrange(first as int, reason@.len() as int) =~= last_three(texts(reason@)));
    }
    let detail: String = joined(&last, "\n");
    proof {
        reveal_strlit("");
        assert(detail@.len() == 0 ==> detail@ =~= ""@);
    }
    if same(detail.as_str(), "") {
        Outcome::Failed(exit_text(code))
    } else {
        Outcome::Failed(detail)
    }
}

pub open spec fn script_outcome_of(code: Option<i32>, shared: Shared, error: Seq<char>) -> Ended {
    if !shared.cancelled && code != Some(0i32) && !shared.started {
        Ended::NotAuthorized(
            if contains(error, "(-128)"@) {
                DISMISSED@
            } else {
                "Authorization failed: "@ + trim(error)
            },
        )
    } else {
        outcome_of(code, shared, false)
    }
}

/// How a worker ended that osascript ran, which said `error`. (-128 is "User canceled.")
pub fn script_outcome(code: Option<i32>, shared: &Shared, error: &str) -> (r: Outcome)
    ensures
        r@ == script_outcome_of(code, *shared, error@),
{
    let zero: bool = match code {
        Some(c) => c == 0,
        None => false,
    };
    if !shared.cancelled && !zero && !shared.started {
        let v: Vec<char> = chars(error);
        if find_text(&v, "(-128)").is_some() {
            return Outcome::NotAuthorized(DISMISSED.to_owned());
        }
        let mut s: String = "Authorization failed: ".to_owned();
        s.append(string(&trimmed(&v)).as_str());
        return Outcome::NotAuthorized(s);
    }
    outcome(code, shared, false)
}

/// A job that was cancelled is never reported as anything else, and one that wasn't only
/// succeeds when its worker did.
pub proof fn law_cancelled_jobs_end_cancelled(code: Option<i32>, shared: Shared, elevated: bool, error: Seq<char>)
    ensures
        outcome_of(code, shared, elevated) is Cancelled <==> shared.cancelled,
        script_outcome_of(code, shared, error) is Cancelled <==> shared.cancelled,
        outcome_of(code, shared, elevated) is Success <==> !shared.cancelled && code == Some(0i32),
        script_outcome_of(code, shared, error) is Success <==> !shared.cancelled && code == Some(0i32),
{
}

// Lines.

/// The lines that `data` ends after `buf`, and what is left. Empty lines are no lines.
pub open spec fn cut(buf: Seq<u8>, data: Seq<u8>) -> (Seq<Seq<char>>, Seq<u8>)
    decreases data.len(),
{
    if data.len() == 0 {
        (Seq::empty(), buf)
    } else {
        let (lines, rest) = cut(buf, data.drop_last());
        let b = data.last();
        if b == 13 || b == 10 {
            if rest.len() == 0 {
                (lines, rest)
            } else {
                (lines.push(lossy(rest)), Seq::empty())
            }
        } else {
            (lines, rest.push(b))
        }
    }
}

/// Bytes that come in pieces, as lines. dd rewrites its progress line with `\r`, so both `\r`
/// and `\n` end a line.
#[derive(Debug)]
pub struct Splitter(pub Vec<u8>);

impl Default for Splitter {
    fn default() -> (s: Splitter)
        ensures
            s.0@.len() == 0,
    {
        Splitter(Vec::new())
    }
}

impl Splitter {
    /// The lines that `data` ends.
    pub fn feed(&mut self, data: &[u8]) -> (r: Vec<String>)
        ensures
            (texts(r@), final(self).0@) == cut(old(self).0@, data@),
    {
        let mut lines: Vec<String> = Vec::new();
        let ghost start = self.0@;
        let mut i: usize = 0;
        proof {
            assert(data@.take(0) =~= Seq::<u8>::empty());
            assert(texts(lines@) =~= Seq::<Seq<char>>::empty());
        }
        while i < data.len()
            invariant
                i <= data@.len(),
                (texts(lines@), self.0@) == cut(start, data@.take(i as int)),
            decreases data@.len() - i,
        {
            let b: u8 = data[i];
            proof {
                assert(data@.take(i + 1).drop_last() =~= data@.take(i as int));
                assert(data@.take(i + 1).last() == b);
            }
            let ghost was = lines@;
            if b == 13 || b == 10 {
                if let Some(line) = self.flush() {
                    lines.push(line);
                    assert(texts(lines@) =~= texts(was).push(line@));
                }
            } else {
                self.0.push(b);
            }
            i = i + 1;
        }
        proof {
            assert(data@.take(data@.len() as int) =~= data@);
        }
        lines
    }

    /// The line that is not ended yet, if there is any of it.
    pub fn flush(&mut self) -> (r: Option<String>)
        ensures
            match r {
                Some(line) => old(self).0@.len() > 0 && line@ == lossy(old(self).0@),
                None => old(self).0@.len() == 0,
            },
            final(self).0@.len() == 0,
            final(self).0@ == Seq::<u8>::empty(),
    {
        if self.0.len() == 0 {
            assert(self.0@ =~= Seq::<u8>::empty());
            return None;
        }
        let line: String = from_utf8_lossy(&self.0);
        self.0.clear();
        assert(self.0@ =~= Seq::<u8>::empty());
        Some(line)
    }
}

/// How the bytes come in pieces makes no difference to the lines.
pub proof fn law_pieces_make_no_difference(buf: Seq<u8>, a: Seq<u8>, b: Seq<u8>)
    ensures
        cut(buf, a + b).0 == cut(buf, a).0 + cut(cut(buf, a).1, b).0,
        cut(buf, a + b).1 == cut(cut(buf, a).1, b).1,
    decreases b.len(),
{
    if b.len() == 0 {
        assert(a + b =~= a);
        assert(cut(buf, a).0 + Seq::<Seq<char>>::empty() =~= cut(buf, a).0);
    } else {
        law_pieces_make_no_difference(buf, a, b.drop_last());
        assert((a + b).drop_last() =~= a + b.drop_last());
        assert((a + b).last() == b.last());
        let l = cut(buf, a).0;
        let (m, rest) = cut(cut(buf, a).1, b.drop_last());
        let line = lossy(rest);
        assert((l + m).push(line) =~= l + m.push(line));
    }
}

} // verus!
