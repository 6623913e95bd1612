//! Progress: `@progress DONE WRITTEN` lines for the window about every half second, or a plain
//! line when run from a terminal.

use vstd::prelude::*;
use vstd::string::*;
use crate::job::{status_event, Told};
use crate::text::{
    all_digits, decimal, decimal_text, is_digit, is_space, law_decimal_round_trip, lemma_find_is, lemma_run_is,
    lemma_words_one, lemma_words_push, push_decimal, split_once, trim, trim_end, u64_in, words,
};

verus! {

#[derive(Clone, Copy, Debug, PartialEq, Eq, Structural)]
pub struct Progress {
    /// In the units of `@total`.
    pub done: u64,
    /// Bytes written to the target.
    pub written: u64,
}

impl Default for Progress {
    fn default() -> (p: Progress)
        ensures
            p == (Progress { done: 0, written: 0 }),
    {
        Progress { done: 0, written: 0 }
    }
}

impl Progress {
    /// Counts more. (Past the biggest number, the counts start over.)
    pub fn add(&mut self, done: u64, written: u64)
        ensures
            final(self).done == (old(self).done + done) % 0x1_0000_0000_0000_0000,
            final(self).written == (old(self).written + written) % 0x1_0000_0000_0000_0000,
    {
        self.done = self.done.wrapping_add(done);
        self.written = self.written.wrapping_add(written);
    }

    /// What is done, but never past the total.
    pub open spec fn shown(self, total: Option<u64>) -> u64 {
        match total {
            Some(t) if t < self.done => t,
            _ => self.done,
        }
    }

    pub fn done_of(&self, total: Option<u64>) -> (r: u64)
        ensures
            r == self.shown(total),
    {
        match total {
            Some(t) => if t < self.done {
                t
            } else {
                self.done
            },
            None => self.done,
        }
    }

    /// The line for the window.
    pub fn line(&self, total: Option<u64>) -> (s: String)
        ensures
            s@ == progress_line(self.shown(total), self.written),
    {
        let mut s: String = "@progress ".to_owned();
        push_decimal(&mut s, self.done_of(total));
        s.append(" ");
        push_decimal(&mut s, self.written);
        s
    }

    /// How far it is, for the terminal: "  7% · ".
    pub fn percent(&self, total: Option<u64>) -> (s: String)
        requires
            self.shown(total) * 100 <= u64::MAX,
        ensures
            s@ == percent_text(self.shown(total), total),
    {
        match total {
            Some(t) => {
                let n: u64 = if t == 0 {
                    100
                } else {
                    self.done_of(total) * 100 / t
                };
                let digits: String = decimal_text(n);
                let mut s: String = String::new();
                if n < 10 {
                    s.append("  ");
                } else if n < 100 {
                    s.append(" ");
                }
                s.append(digits.as_str());
                s.append("% · ");
                proof {
                    if n >= 100 {
                        assert(s@ =~= decimal(n as nat) + "% · "@);
                    }
                }
                s
            },
            None => String::new(),
        }
    }
}

pub open spec fn progress_line(done: u64, written: u64) -> Seq<char> {
    "@progress "@ + decimal(done as nat) + " "@ + decimal(written as nat)
}

pub open spec fn total_line(total: u64) -> Seq<char> {
    "@total "@ + decimal(total as nat)
}

/// What the progress counts toward, as a line for the window.
pub fn total_said(total: u64) -> (s: String)
    ensures
        s@ == total_line(total),
{
    let mut s: String = "@total ".to_owned();
    push_decimal(&mut s, total);
    s
}

/// A number of percent, at least three wide.
pub open spec fn percent_text(done: u64, total: Option<u64>) -> Seq<char> {
    match total {
        Some(t) => {
            let n: nat = if t == 0 {
                100
            } else {
                (done * 100 / t as int) as nat
            };
            if n < 10 {
                "  "@ + decimal(n) + "% · "@
            } else if n < 100 {
                " "@ + decimal(n) + "% · "@
            } else {
                decimal(n) + "% · "@
            }
        },
        None => Seq::empty(),
    }
}

proof fn lemma_digits_no_space(s: Seq<char>)
    requires
        all_digits(s),
    ensures
        forall|i: int| 0 <= i < s.len() ==> !is_space(#[trigger] s[i]),
{
    assert forall|i: int| 0 <= i < s.len() implies !is_space(#[trigger] s[i]) by {
        assert(is_digit(s[i]));
    }
}

/// A line of a word without spaces, a space and more that ends in no space.
proof fn lemma_line(word: Seq<char>, rest: Seq<char>)
    requires
        word.len() > 0,
        forall|i: int| 0 <= i < word.len() ==> !is_space(#[trigger] word[i]),
        rest.len() > 0,
        !is_space(rest.last()),
    ensures
        ({
            let l = word.push(' ') + rest;
            &&& trim(l) == l
            &&& split_once(l, ' ') == Some((word, rest))
        }),
{
    let l = word.push(' ') + rest;
    assert(l[0] == word[0]);
    lemma_run_is(l, true, 0);
    assert(l.skip(0) =~= l);
    assert(l.last() == rest.last());
    assert(trim_end(l) == l);
    assert forall|i: int| 0 <= i < word.len() implies #[trigger] l[i] != ' ' by {
        assert(l[i] == word[i]);
        assert(!is_space(word[i]));
    }
    lemma_find_is(l, ' ', word.len());
    assert(l.take(word.len() as int) =~= word);
    assert(l.skip(word.len() as int + 1) =~= rest);
}

/// The window understands the progress that the copier reports.
pub proof fn law_progress_is_understood(done: u64, written: u64)
    ensures
        status_event(progress_line(done, written)) == Some(Told::Progress { done, written: Some(written) }),
{
    reveal_strlit("@progress ");
    reveal_strlit("@progress");
    reveal_strlit(" ");
    reveal_strlit("@ready");
    reveal_strlit("@layout");
    reveal_strlit("@copy");
    reveal_strlit("@total");
    let (d, w) = (decimal(done as nat), decimal(written as nat));
    law_decimal_round_trip(done as nat);
    law_decimal_round_trip(written as nat);
    lemma_digits_no_space(d);
    lemma_digits_no_space(w);
    let word = "@progress"@;
    let rest = d.push(' ') + w;
    assert(progress_line(done, written) =~= word.push(' ') + rest);
    assert(rest.last() == w.last());
    lemma_line(word, rest);
    lemma_words_push(d, ' ', w);
    lemma_words_one(w);
    assert(words(rest) =~= seq![d, w]);
    assert(word.len() == 9);
    assert("@ready"@.len() == 6 && "@layout"@.len() == 7 && "@copy"@.len() == 5 && "@total"@.len() == 6);
    assert(u64_in(d) == Some(done));
    assert(u64_in(w) == Some(written));
}

/// The window understands what the copier counts toward.
pub proof fn law_totals_are_understood(total: u64)
    ensures
        status_event(total_line(total)) == Some(Told::Total(total)),
{
    reveal_strlit("@total ");
    reveal_strlit("@ready");
    reveal_strlit("@layout");
    reveal_strlit("@copy");
    reveal_strlit("@total");
    let d = decimal(total as nat);
    law_decimal_round_trip(total as nat);
    lemma_digits_no_space(d);
    let word = "@total"@;
    assert(total_line(total) =~= word.push(' ') + d);
    lemma_line(word, d);
    lemma_words_one(d);
    assert(words(d) =~= seq![d]);
    assert(word[1] == 't' && "@ready"@[1] == 'r');
    assert("@layout"@.len() == 7 && "@copy"@.len() == 5 && word.len() == 6);
    assert(u64_in(d) == Some(total));
}

} // verus!
