//! Text as sequences of characters: the small vocabulary that the formats, the command
//! lines and the messages are written in.

use vstd::prelude::*;
use vstd::string::*;
use vstd::utf8::*;

verus! {

/// `String::push` appends one character.
pub assume_specification[ String::push ](s: &mut String, c: char)
    ensures
        final(s)@ == old(s)@.push(c),
;

/// The characters of `s`.
pub fn chars(s: &str) -> (v: Vec<char>)
    ensures
        v@ == s@,
{
    let mut v: Vec<char> = Vec::new();
    for c in it: s.chars()
        invariant
            v@ == it.seq().take(it.index()),
            it.seq() == s@,
    {
        v.push(c);
    }
    v
}

/// The text made of `v`.
pub fn string(v: &[char]) -> (s: String)
    ensures
        s@ == v@,
{
    let mut s: String = String::new();
    let mut i: usize = 0;
    while i < v.len()
        invariant
            i <= v.len(),
            s@ == v@.take(i as int),
        decreases v.len() - i,
    {
        s.push(v[i]);
        i = i + 1;
    }
    proof {
        assert(v@.take(v@.len() as int) == v@);
    }
    s
}

/// `std::str::from_utf8`: the text that `bytes` encode, and none when they are not UTF-8.
#[verifier::external_body]
pub(crate) fn from_utf8(bytes: &[u8]) -> (r: Option<&str>)
    ensures
        match r {
            Some(s) => valid_utf8(bytes@) && s@ == decode_utf8(bytes@),
            None => !valid_utf8(bytes@),
        },
{
    std::str::from_utf8(bytes).ok()
}

/// Is `s` the text `t`?
pub fn is_text(s: &[char], t: &str) -> (r: bool)
    ensures
        r == (s@ == t@),
{
    let t: Vec<char> = chars(t);
    same_chars(s, &t)
}

/// Are the two the same text?
pub fn same(a: &str, b: &str) -> (r: bool)
    ensures
        r == (a@ == b@),
{
    let a: Vec<char> = chars(a);
    let b: Vec<char> = chars(b);
    same_chars(&a, &b)
}

pub fn same_chars(a: &[char], b: &[char]) -> (r: bool)
    ensures
        r == (a@ == b@),
{
    if a.len() != b.len() {
        return false;
    }
    let mut i: usize = 0;
    while i < a.len()
        invariant
            a.len() == b.len(),
            i <= a.len(),
            a@.take(i as int) == b@.take(i as int),
        decreases a.len() - i,
    {
        if a[i] != b[i] {
            proof { assert(a@[i as int] != b@[i as int]); }
            return false;
        }
        proof {
            assert(a@.take(i + 1) == a@.take(i as int).push(a@[i as int]));
            assert(b@.take(i + 1) == b@.take(i as int).push(b@[i as int]));
        }
        i = i + 1;
    }
    proof {
        assert(a@ == a@.take(a@.len() as int));
        assert(b@ == b@.take(b@.len() as int));
    }
    true
}

/// A decimal digit's value.
pub open spec fn digit(c: char) -> nat {
    (c as u32 - 48) as nat
}

pub open spec fn is_digit(c: char) -> bool {
    '0' <= c <= '9'
}

/// The digit for a value below ten.
pub open spec fn digit_char(d: nat) -> char {
    (48 + d) as char
}

/// `n` in decimal, without leading zeros.
pub open spec fn decimal(n: nat) -> Seq<char>
    decreases n,
{
    if n < 10 {
        seq![digit_char(n)]
    } else {
        decimal(n / 10).push(digit_char(n % 10))
    }
}

fn digit_of(d: u64) -> (c: char)
    requires
        d < 10,
    ensures
        c == digit_char(d as nat),
{
    (48 + d as u8) as char
}

/// Appends `n` in decimal.
pub fn push_decimal(s: &mut String, n: u64)
    ensures
        final(s)@ == old(s)@ + decimal(n as nat),
    decreases n,
{
    if n >= 10 {
        push_decimal(s, n / 10);
    }
    s.push(digit_of(n % 10));
    proof {
        if n >= 10 {
            assert(old(s)@ + decimal((n / 10) as nat).push(digit_char((n % 10) as nat))
                == (old(s)@ + decimal((n / 10) as nat)).push(digit_char((n % 10) as nat)));
        } else {
            assert(old(s)@ + seq![digit_char(n as nat)] == old(s)@.push(digit_char(n as nat)));
        }
    }
}

/// `n` in decimal.
pub fn decimal_text(n: u64) -> (s: String)
    ensures
        s@ == decimal(n as nat),
{
    let mut s: String = String::new();
    push_decimal(&mut s, n);
    s
}

/// The number that a run of decimal digits stands for.
pub open spec fn value(s: Seq<char>) -> nat
    decreases s.len(),
{
    if s.len() == 0 {
        0
    } else {
        value(s.drop_last()) * 10 + digit(s.last())
    }
}

pub open spec fn all_digits(s: Seq<char>) -> bool {
    forall|i: int| 0 <= i < s.len() ==> is_digit(#[trigger] s[i])
}

/// The digits of a number that may start with a plus sign.
pub open spec fn unsigned_digits(s: Seq<char>) -> Seq<char> {
    if s.len() > 0 && s[0] == '+' {
        s.skip(1)
    } else {
        s
    }
}

/// The number written in `s`: decimal digits, and maybe a plus sign before them.
pub open spec fn number(s: Seq<char>) -> Option<nat> {
    let d = unsigned_digits(s);
    if d.len() > 0 && all_digits(d) {
        Some(value(d))
    } else {
        None
    }
}

/// The number written in `s`, if it is one that is no more than `max`.
pub open spec fn number_upto(s: Seq<char>, max: nat) -> Option<nat> {
    match number(s) {
        Some(n) => if n <= max {
            Some(n)
        } else {
            None
        },
        None => None,
    }
}

/// The number in `s` as a `u64`.
pub open spec fn u64_in(s: Seq<char>) -> Option<u64> {
    match number_upto(s, u64::MAX as nat) {
        Some(n) => Some(n as u64),
        None => None,
    }
}

/// The number in `s` as a `usize`.
pub open spec fn usize_in(s: Seq<char>) -> Option<usize> {
    match number_upto(s, usize::MAX as nat) {
        Some(n) => Some(n as usize),
        None => None,
    }
}

/// More digits never make a smaller number.
proof fn lemma_value_grows(s: Seq<char>, i: int)
    requires
        0 <= i <= s.len(),
    ensures
        value(s.take(i)) <= value(s),
    decreases s.len() - i,
{
    if i < s.len() {
        lemma_value_grows(s, i + 1);
        assert(s.take(i + 1).drop_last() == s.take(i));
    } else {
        assert(s.take(i) == s);
    }
}

/// Writing a number and reading it back gives the number.
pub proof fn law_decimal_round_trip(n: nat)
    ensures
        decimal(n).len() > 0,
        all_digits(decimal(n)),
        value(decimal(n)) == n,
        number(decimal(n)) == Some(n),
    decreases n,
{
    if n >= 10 {
        law_decimal_round_trip(n / 10);
        assert(decimal(n).drop_last() == decimal(n / 10));
        assert(decimal(n).last() == digit_char(n % 10));
        assert forall|i: int| 0 <= i < decimal(n).len() implies is_digit(#[trigger] decimal(n)[i]) by {
            if i < decimal(n / 10).len() {
                assert(decimal(n)[i] == decimal(n / 10)[i]);
            }
        }
    } else {
        assert(decimal(n).drop_last() == Seq::<char>::empty());
        assert(value(Seq::<char>::empty()) == 0);
    }
    assert(is_digit(decimal(n)[0]));
    assert(unsigned_digits(decimal(n)) == decimal(n));
}

/// The number in `s`, as a `u64`.
pub fn parse_u64(s: &[char]) -> (r: Option<u64>)
    ensures
        r == u64_in(s@),
{
    let start: usize = if s.len() > 0 && s[0] == '+' {
        1
    } else {
        0
    };
    let ghost d = unsigned_digits(s@);
    assert(d == s@.skip(start as int));
    if s.len() == start {
        return None;
    }
    let mut i: usize = start;
    let mut v: u64 = 0;
    while i < s.len()
        invariant
            start <= i <= s.len(),
            start <= 1,
            d == s@.skip(start as int),
            all_digits(d.take(i - start)),
            v == value(d.take(i - start)),
            d == unsigned_digits(s@),
        decreases s.len() - i,
    {
        let c: char = s[i];
        assert(d[i - start] == c);
        if c < '0' || c > '9' {
            assert(!is_digit(d[i - start]));
            return None;
        }
        let x: u64 = c as u64 - 48;
        proof {
            assert(d.take(i - start + 1).drop_last() == d.take(i - start));
            lemma_value_grows(d, i - start + 1);
        }
        if v > (u64::MAX - x) / 10 {
            return None;
        }
        v = v * 10 + x;
        i = i + 1;
        proof {
            assert forall|k: int| 0 <= k < d.take(i - start).len() implies is_digit(#[trigger] d.take(i - start)[k]) by {
                if k < i - start - 1 {
                    assert(d.take(i - start)[k] == d.take(i - start - 1)[k]);
                }
            }
        }
    }
    proof { assert(d.take(d.len() as int) == d); }
    Some(v)
}

/// The number in `s`, as a `usize`.
pub fn parse_usize(s: &[char]) -> (r: Option<usize>)
    ensures
        r == usize_in(s@),
{
    match parse_u64(s) {
        Some(v) => if v <= usize::MAX as u64 {
            Some(v as usize)
        } else {
            None
        },
        None => None,
    }
}

/// White space, as Unicode has it.
pub open spec fn is_space(c: char) -> bool {
    ||| '\u{9}' <= c <= '\u{d}'
    ||| c == ' '
    ||| c == '\u{85}'
    ||| c == '\u{a0}'
    ||| c == '\u{1680}'
    ||| '\u{2000}' <= c <= '\u{200a}'
    ||| c == '\u{2028}'
    ||| c == '\u{2029}'
    ||| c == '\u{202f}'
    ||| c == '\u{205f}'
    ||| c == '\u{3000}'
}

pub fn space(c: char) -> (r: bool)
    ensures
        r == is_space(c),
{
    ('\u{9}' <= c && c <= '\u{d}') || c == ' ' || c == '\u{85}' || c == '\u{a0}' || c == '\u{1680}'
        || ('\u{2000}' <= c && c <= '\u{200a}') || c == '\u{2028}' || c == '\u{2029}' || c
        == '\u{202f}' || c == '\u{205f}' || c == '\u{3000}'
}

/// How many characters at the start of `s` are spaces (or, with `spaces` false, are not).
pub open spec fn run_of(s: Seq<char>, spaces: bool) -> nat
    decreases s.len(),
{
    if s.len() > 0 && is_space(s[0]) == spaces {
        1 + run_of(s.skip(1), spaces)
    } else {
        0
    }
}

pub proof fn lemma_run_of(s: Seq<char>, spaces: bool)
    ensures
        run_of(s, spaces) <= s.len(),
        forall|i: int| 0 <= i < run_of(s, spaces) ==> is_space(#[trigger] s[i]) == spaces,
        run_of(s, spaces) < s.len() ==> is_space(s[run_of(s, spaces) as int]) != spaces,
    decreases s.len(),
{
    if s.len() > 0 && is_space(s[0]) == spaces {
        lemma_run_of(s.skip(1), spaces);
        assert forall|i: int| 0 <= i < run_of(s, spaces) implies is_space(#[trigger] s[i]) == spaces by {
            if i > 0 {
                assert(s[i] == s.skip(1)[i - 1]);
            }
        }
    }
}

/// What fixes a run: its length, what it is made of and what ends it.
pub proof fn lemma_run_is(s: Seq<char>, spaces: bool, n: nat)
    requires
        n <= s.len(),
        forall|i: int| 0 <= i < n ==> is_space(#[trigger] s[i]) == spaces,
        n < s.len() ==> is_space(s[n as int]) != spaces,
    ensures
        run_of(s, spaces) == n,
    decreases s.len(),
{
    if n > 0 {
        assert(is_space(s[0]) == spaces);
        assert forall|i: int| 0 <= i < n - 1 implies is_space(#[trigger] s.skip(1)[i]) == spaces by {
            assert(s.skip(1)[i] == s[i + 1]);
        }
        lemma_run_is(s.skip(1), spaces, (n - 1) as nat);
    }
}

/// The words of `s`: what stands between its spaces.
pub open spec fn words(s: Seq<char>) -> Seq<Seq<char>>
    decreases s.len(),
    via words_shrink
{
    let t = s.skip(run_of(s, true) as int);
    if t.len() == 0 {
        Seq::empty()
    } else {
        let n = run_of(t, false) as int;
        seq![t.take(n)] + words(t.skip(n))
    }
}

#[via_fn]
proof fn words_shrink(s: Seq<char>) {
    lemma_run_of(s, true);
    let t = s.skip(run_of(s, true) as int);
    if t.len() > 0 {
        lemma_run_of(t, false);
        assert(is_space(t[0]) == false);
        assert(run_of(t, false) > 0);
    }
}

/// A word, a space and more text.
pub proof fn lemma_words_push(a: Seq<char>, space: char, rest: Seq<char>)
    requires
        a.len() > 0,
        forall|i: int| 0 <= i < a.len() ==> !is_space(#[trigger] a[i]),
        is_space(space),
    ensures
        words(a.push(space) + rest) == seq![a] + words(rest),
{
    let s = a.push(space) + rest;
    lemma_run_is(s, true, 0);
    assert(s.skip(0) == s);
    assert forall|i: int| 0 <= i < a.len() implies is_space(#[trigger] s[i]) == false by {
        assert(s[i] == a[i]);
    }
    lemma_run_is(s, false, a.len());
    assert(s.take(a.len() as int) == a);
    let u = s.skip(a.len() as int);
    assert(u == seq![space] + rest);
    assert(words(s) == seq![a] + words(u));
    lemma_words_skip(space, rest);
}

/// A space at the start changes no word.
pub proof fn lemma_words_skip(space: char, rest: Seq<char>)
    requires
        is_space(space),
    ensures
        words(seq![space] + rest) == words(rest),
{
    let u = seq![space] + rest;
    lemma_run_of(rest, true);
    assert(u.skip(1) == rest);
    assert(run_of(u, true) == 1 + run_of(rest, true));
    assert(u.skip(1 + run_of(rest, true) as int) == rest.skip(run_of(rest, true) as int));
}

/// One word and nothing else.
pub proof fn lemma_words_one(a: Seq<char>)
    requires
        a.len() > 0,
        forall|i: int| 0 <= i < a.len() ==> !is_space(#[trigger] a[i]),
    ensures
        words(a) == seq![a],
{
    lemma_run_is(a, true, 0);
    assert(a.skip(0) == a);
    lemma_run_is(a, false, a.len());
    assert(a.take(a.len() as int) == a);
    assert(a.skip(a.len() as int) == Seq::<char>::empty());
    assert(words(Seq::<char>::empty()) == Seq::<Seq<char>>::empty()) by {
        lemma_run_is(Seq::<char>::empty(), true, 0);
        assert(Seq::<char>::empty().skip(0) == Seq::<char>::empty());
    }
    assert(words(a) == seq![a] + Seq::<Seq<char>>::empty());
}

fn run_end(s: &[char], from: usize, spaces: bool) -> (end: usize)
    requires
        from <= s.len(),
    ensures
        from <= end <= s.len(),
        end - from == run_of(s@.skip(from as int), spaces),
{
    let mut i: usize = from;
    let ghost t = s@.skip(from as int);
    while i < s.len() && space(s[i]) == spaces
        invariant
            from <= i <= s.len(),
            t == s@.skip(from as int),
            forall|k: int| 0 <= k < i - from ==> is_space(#[trigger] t[k]) == spaces,
        decreases s.len() - i,
    {
        assert(t[i - from] == s@[i as int]);
        i = i + 1;
    }
    proof {
        if i < s.len() {
            assert(t[i - from] == s@[i as int]);
        }
        lemma_run_is(t, spaces, (i - from) as nat);
    }
    i
}

/// The views of some texts.
pub open spec fn views(v: Seq<Vec<char>>) -> Seq<Seq<char>> {
    v.map_values(|s: Vec<char>| s@)
}

pub open spec fn texts(v: Seq<String>) -> Seq<Seq<char>> {
    v.map_values(|s: String| s@)
}

/// A copy of part of a text.
pub fn part(s: &[char], from: usize, to: usize) -> (v: Vec<char>)
    requires
        from <= to <= s.len(),
    ensures
        v@ == s@.subrange(from as int, to as int),
{
    let mut v: Vec<char> = Vec::new();
    let mut i: usize = from;
    while i < to
        invariant
            from <= i <= to <= s.len(),
            v@ == s@.subrange(from as int, i as int),
        decreases to - i,
    {
        v.push(s[i]);
        i = i + 1;
    }
    v
}

/// The words of `s`.
pub fn split_words(s: &[char]) -> (v: Vec<Vec<char>>)
    ensures
        views(v@) == words(s@),
{
    let mut v: Vec<Vec<char>> = Vec::new();
    let mut i: usize = 0;
    proof { assert(s@.skip(0) == s@); }
    loop
        invariant
            i <= s.len(),
            words(s@) == views(v@) + words(s@.skip(i as int)),
        decreases s.len() - i,
    {
        let ghost u = s@.skip(i as int);
        let a: usize = run_end(s, i, true);
        let ghost t = u.skip(run_of(u, true) as int);
        assert(t == s@.skip(a as int));
        if a == s.len() {
            assert(t.len() == 0);
            assert(words(u) == Seq::<Seq<char>>::empty());
            assert(words(s@) == views(v@));
            return v;
        }
        let b: usize = run_end(s, a, false);
        let w: Vec<char> = part(s, a, b);
        proof {
            lemma_run_of(u, true);
            lemma_run_of(t, false);
            assert(is_space(t[0]) == false);
            assert(b > a);
            assert(w@ == t.take(b - a));
            assert(t.skip(b - a) == s@.skip(b as int));
            assert(words(u) == seq![w@] + words(s@.skip(b as int)));
        }
        let ghost before = v@;
        v.push(w);
        proof {
            assert(views(v@) == views(before).push(w@));
            assert(views(before) + (seq![w@] + words(s@.skip(b as int))) == views(v@) + words(s@.skip(b as int)));
        }
        i = b;
    }
}

/// Where `c` first stands in `s`; its length when it does not.
pub open spec fn find(s: Seq<char>, c: char) -> nat
    decreases s.len(),
{
    if s.len() == 0 || s[0] == c {
        0
    } else {
        1 + find(s.skip(1), c)
    }
}

pub proof fn lemma_find_is(s: Seq<char>, c: char, n: nat)
    requires
        n <= s.len(),
        forall|i: int| 0 <= i < n ==> #[trigger] s[i] != c,
        n < s.len() ==> s[n as int] == c,
    ensures
        find(s, c) == n,
    decreases s.len(),
{
    if n > 0 {
        assert(s[0] != c);
        assert forall|i: int| 0 <= i < n - 1 implies #[trigger] s.skip(1)[i] != c by {
            assert(s.skip(1)[i] == s[i + 1]);
        }
        lemma_find_is(s.skip(1), c, (n - 1) as nat);
    }
}

pub proof fn lemma_find(s: Seq<char>, c: char)
    ensures
        find(s, c) <= s.len(),
        forall|i: int| 0 <= i < find(s, c) ==> #[trigger] s[i] != c,
        find(s, c) < s.len() ==> s[find(s, c) as int] == c,
    decreases s.len(),
{
    if s.len() > 0 && s[0] != c {
        lemma_find(s.skip(1), c);
        assert forall|i: int| 0 <= i < find(s, c) implies #[trigger] s[i] != c by {
            if i > 0 {
                assert(s[i] == s.skip(1)[i - 1]);
            }
        }
    }
}

/// Where `c` first stands in `s` from `from` on; the length when it does not.
pub fn find_from(s: &[char], from: usize, c: char) -> (at: usize)
    requires
        from <= s.len(),
    ensures
        from <= at <= s.len(),
        at - from == find(s@.skip(from as int), c),
{
    let mut i: usize = from;
    let ghost t = s@.skip(from as int);
    while i < s.len() && s[i] != c
        invariant
            from <= i <= s.len(),
            t == s@.skip(from as int),
            forall|k: int| 0 <= k < i - from ==> #[trigger] t[k] != c,
        decreases s.len() - i,
    {
        assert(t[i - from] == s@[i as int]);
        i = i + 1;
    }
    proof {
        if i < s.len() {
            assert(t[i - from] == s@[i as int]);
        }
        lemma_find_is(t, c, (i - from) as nat);
    }
    i
}

/// The text before the first `c` and the text after it.
pub open spec fn split_once(s: Seq<char>, c: char) -> Option<(Seq<char>, Seq<char>)> {
    let k = find(s, c) as int;
    if k < s.len() {
        Some((s.take(k), s.skip(k + 1)))
    } else {
        None
    }
}

pub fn split_at_first(s: &[char], c: char) -> (r: Option<(Vec<char>, Vec<char>)>)
    ensures
        match r {
            Some((a, b)) => split_once(s@, c) == Some((a@, b@)),
            None => split_once(s@, c) is None,
        },
{
    let k: usize = find_from(s, 0, c);
    proof { assert(s@.skip(0) == s@); }
    if k < s.len() {
        let a: Vec<char> = part(s, 0, k);
        let b: Vec<char> = part(s, k + 1, s.len());
        proof {
            assert(a@ == s@.take(k as int));
            assert(b@ == s@.skip(k + 1));
        }
        Some((a, b))
    } else {
        None
    }
}

/// `s` without one carriage return at its end.
pub open spec fn chomp(s: Seq<char>) -> Seq<char> {
    if s.len() > 0 && s.last() == '\r' {
        s.drop_last()
    } else {
        s
    }
}

/// The lines of `s`. A line ends with a line feed, or a carriage return and one; the last
/// line need not.
pub open spec fn lines(s: Seq<char>) -> Seq<Seq<char>>
    decreases s.len(),
{
    if s.len() == 0 {
        Seq::empty()
    } else {
        let k = find(s, '\n') as int;
        if k < s.len() {
            seq![chomp(s.take(k))] + lines(s.skip(k + 1))
        } else {
            seq![s]
        }
    }
}

pub fn split_lines(s: &[char]) -> (v: Vec<Vec<char>>)
    ensures
        views(v@) == lines(s@),
{
    let mut v: Vec<Vec<char>> = Vec::new();
    let mut i: usize = 0;
    proof { assert(s@.skip(0) == s@); }
    while i < s.len()
        invariant
            i <= s.len(),
            lines(s@) == views(v@) + lines(s@.skip(i as int)),
        decreases s.len() - i,
    {
        let ghost u = s@.skip(i as int);
        let ghost before = v@;
        let k: usize = find_from(s, i, '\n');
        if k == s.len() {
            let w: Vec<char> = part(s, i, k);
            assert(w@ == u);
            v.push(w);
            proof {
                assert(views(v@) == views(before).push(u));
                assert(views(v@) == views(before) + seq![u]);
                assert(lines(s@) == views(v@));
                assert(s@.skip(s@.len() as int) == Seq::<char>::empty());
                assert(views(v@) + lines(s@.skip(s@.len() as int)) == views(v@));
            }
            i = s.len();
        } else {
            let e: usize = if k > i && s[k - 1] == '\r' {
                k - 1
            } else {
                k
            };
            let w: Vec<char> = part(s, i, e);
            proof {
                assert(u.take(k - i).len() == k - i);
                assert(k > i ==> u.take(k - i).last() == s@[k - 1]);
                assert(w@ == chomp(u.take(k - i)));
                assert(u.skip(k - i + 1) == s@.skip(k + 1));
            }
            v.push(w);
            proof {
                assert(views(v@) == views(before).push(w@));
                assert(views(before) + (seq![w@] + lines(s@.skip(k + 1))) == views(v@) + lines(s@.skip(k + 1)));
            }
            i = k + 1;
        }
    }
    proof {
        assert(s@.skip(s@.len() as int) == Seq::<char>::empty());
        assert(views(v@) + Seq::<Seq<char>>::empty() == views(v@));
    }
    v
}

/// A line, its line feed and more text.
pub proof fn lemma_lines_push(a: Seq<char>, rest: Seq<char>)
    requires
        forall|i: int| 0 <= i < a.len() ==> #[trigger] a[i] != '\n' && a[i] != '\r',
    ensures
        lines(a.push('\n') + rest) == seq![a] + lines(rest),
{
    let s = a.push('\n') + rest;
    assert forall|i: int| 0 <= i < a.len() implies #[trigger] s[i] != '\n' by {
        assert(s[i] == a[i]);
    }
    lemma_find_is(s, '\n', a.len());
    assert(s.take(a.len() as int) == a);
    assert(s.skip(a.len() as int + 1) == rest);
    assert(chomp(a) == a);
}

/// The encoding of two texts, one after the other.
pub proof fn lemma_encode_concat(a: Seq<char>, b: Seq<char>)
    ensures
        encode_utf8(a + b) == encode_utf8(a) + encode_utf8(b),
    decreases a.len(),
{
    if a.len() == 0 {
        assert(a + b == b);
        assert(encode_utf8(a) + encode_utf8(b) == encode_utf8(b));
    } else {
        lemma_encode_concat(a.drop_first(), b);
        assert((a + b).drop_first() == a.drop_first() + b);
        assert((a + b)[0] == a[0]);
        let x = encode_scalar(a[0] as u32);
        assert(x + (encode_utf8(a.drop_first()) + encode_utf8(b)) == (x + encode_utf8(a.drop_first())) + encode_utf8(b));
    }
}

/// `s` without the spaces at its start.
pub open spec fn trim_start(s: Seq<char>) -> Seq<char> {
    s.skip(run_of(s, true) as int)
}

/// `s` without the spaces at its end.
pub open spec fn trim_end(s: Seq<char>) -> Seq<char>
    decreases s.len(),
{
    if s.len() > 0 && is_space(s.last()) {
        trim_end(s.drop_last())
    } else {
        s
    }
}

/// `s` without the spaces around it.
pub open spec fn trim(s: Seq<char>) -> Seq<char> {
    trim_end(trim_start(s))
}

pub fn trimmed(s: &[char]) -> (v: Vec<char>)
    ensures
        v@ == trim(s@),
{
    let a: usize = run_end(s, 0, true);
    proof { assert(s@.skip(0) == s@); }
    let ghost t = trim_start(s@);
    let mut e: usize = s.len();
    assert(t == s@.subrange(a as int, e as int));
    while e > a && space(s[e - 1])
        invariant
            a <= e <= s.len(),
            trim_end(t) == trim_end(s@.subrange(a as int, e as int)),
        decreases e,
    {
        proof {
            let x = s@.subrange(a as int, e as int);
            assert(x.last() == s@[e - 1]);
            assert(x.drop_last() == s@.subrange(a as int, e - 1));
        }
        e = e - 1;
    }
    proof {
        let x = s@.subrange(a as int, e as int);
        if e > a {
            assert(x.last() == s@[e - 1]);
        }
        assert(trim_end(x) == x);
    }
    part(s, a, e)
}

/// Does `s` start with `p`?
pub open spec fn starts(s: Seq<char>, p: Seq<char>) -> bool {
    p.len() <= s.len() && s.take(p.len() as int) == p
}

/// Does `s` end with `p`?
pub open spec fn ends(s: Seq<char>, p: Seq<char>) -> bool {
    p.len() <= s.len() && s.skip(s.len() - p.len()) == p
}

/// Does `p` stand in `s` at `at`?
pub open spec fn holds_at(s: Seq<char>, p: Seq<char>, at: int) -> bool {
    0 <= at && at + p.len() <= s.len() && s.subrange(at, at + p.len()) == p
}

/// Does `p` stand somewhere in `s`?
pub open spec fn contains(s: Seq<char>, p: Seq<char>) -> bool {
    exists|at: int| holds_at(s, p, at)
}

fn at_place(s: &[char], p: &[char], at: usize) -> (r: bool)
    requires
        at + p.len() <= s.len(),
    ensures
        r == holds_at(s@, p@, at as int),
{
    let mut i: usize = 0;
    while i < p.len()
        invariant
            i <= p.len(),
            at + p.len() <= s.len(),
            forall|k: int| 0 <= k < i ==> s@[at + k] == #[trigger] p@[k],
        decreases p.len() - i,
    {
        if s[at + i] != p[i] {
            proof {
                assert(s@.subrange(at as int, at + p@.len())[i as int] == s@[at + i]);
            }
            return false;
        }
        i = i + 1;
    }
    proof { assert(s@.subrange(at as int, at + p@.len()) == p@); }
    true
}

pub fn starts_with(s: &[char], p: &str) -> (r: bool)
    ensures
        r == starts(s@, p@),
{
    let p: Vec<char> = chars(p);
    proof {
        if p@.len() <= s@.len() {
            assert(s@.subrange(0, p@.len() as int) == s@.take(p@.len() as int));
        }
    }
    p.len() <= s.len() && at_place(s, &p, 0)
}

pub fn ends_with(s: &[char], p: &str) -> (r: bool)
    ensures
        r == ends(s@, p@),
{
    let p: Vec<char> = chars(p);
    proof {
        if p@.len() <= s@.len() {
            assert(s@.subrange(s@.len() - p@.len(), s@.len() as int) == s@.skip(s@.len() - p@.len()));
        }
    }
    p.len() <= s.len() && at_place(s, &p, s.len() - p.len())
}

/// Where `p` first stands in `s`, if it does.
pub fn find_text(s: &[char], p: &str) -> (r: Option<usize>)
    ensures
        match r {
            Some(at) => holds_at(s@, p@, at as int) && forall|k: int| 0 <= k < at ==> !holds_at(s@, p@, k),
            None => !contains(s@, p@),
        },
{
    let q: Vec<char> = chars(p);
    if q.len() > s.len() {
        return None;
    }
    let mut i: usize = 0;
    while i <= s.len() - q.len()
        invariant
            q@ == p@,
            q.len() <= s.len(),
            i <= s.len() - q.len() + 1,
            forall|k: int| 0 <= k < i ==> !holds_at(s@, p@, k),
        decreases s.len() - i + 1,
    {
        if at_place(s, &q, i) {
            return Some(i);
        }
        if i == s.len() - q.len() {
            return None;
        }
        i = i + 1;
    }
    None
}

/// Where `p` last stands in `s`, at `at` or before.
pub open spec fn rfind_at(s: Seq<char>, p: Seq<char>, at: int) -> Option<int>
    decreases at + 1,
{
    if at < 0 {
        None
    } else if holds_at(s, p, at) {
        Some(at)
    } else {
        rfind_at(s, p, at - 1)
    }
}

/// Where `p` last stands in `s`, if it does.
pub open spec fn rfind(s: Seq<char>, p: Seq<char>) -> Option<int> {
    rfind_at(s, p, s.len() - p.len())
}

pub fn rfind_text(s: &[char], p: &str) -> (r: Option<usize>)
    ensures
        match (r, rfind(s@, p@)) {
            (Some(at), Some(k)) => at == k && at <= s@.len(),
            (None, None) => true,
            _ => false,
        },
{
    let q: Vec<char> = chars(p);
    if q.len() > s.len() {
        return None;
    }
    let mut i: usize = s.len() - q.len();
    loop
        invariant
            q@ == p@,
            q.len() <= s.len(),
            i <= s.len() - q.len(),
            rfind(s@, p@) == rfind_at(s@, p@, i as int),
        decreases i,
    {
        if at_place(s, &q, i) {
            return Some(i);
        }
        if i == 0 {
            assert(rfind_at(s@, p@, -1) is None);
            return None;
        }
        i = i - 1;
    }
}

/// `parts` one after another, with `sep` between them.
pub open spec fn join(parts: Seq<Seq<char>>, sep: Seq<char>) -> Seq<char>
    decreases parts.len(),
{
    if parts.len() == 0 {
        Seq::empty()
    } else if parts.len() == 1 {
        parts[0]
    } else {
        join(parts.drop_last(), sep) + sep + parts.last()
    }
}

pub fn joined(parts: &[String], sep: &str) -> (s: String)
    ensures
        s@ == join(texts(parts@), sep@),
{
    let mut s: String = String::new();
    let mut i: usize = 0;
    while i < parts.len()
        invariant
            i <= parts.len(),
            s@ == join(texts(parts@).take(i as int), sep@),
        decreases parts.len() - i,
    {
        if i > 0 {
            s.append(sep);
        }
        s.append(parts[i].as_str());
        proof {
            let t = texts(parts@).take(i + 1);
            assert(t.drop_last() == texts(parts@).take(i as int));
            assert(t.last() == parts@[i as int]@);
        }
        i = i + 1;
    }
    proof { assert(texts(parts@).take(parts@.len() as int) == texts(parts@)); }
    s
}

/// `s` with every `c` replaced by `by`.
pub open spec fn replace_char(s: Seq<char>, c: char, by: Seq<char>) -> Seq<char>
    decreases s.len(),
{
    if s.len() == 0 {
        Seq::empty()
    } else {
        replace_char(s.drop_last(), c, by) + (if s.last() == c {
            by
        } else {
            seq![s.last()]
        })
    }
}

pub fn replaced(s: &str, c: char, by: &str) -> (r: String)
    ensures
        r@ == replace_char(s@, c, by@),
{
    let v: Vec<char> = chars(s);
    let mut r: String = String::new();
    let mut i: usize = 0;
    while i < v.len()
        invariant
            v@ == s@,
            i <= v.len(),
            r@ == replace_char(s@.take(i as int), c, by@),
        decreases v.len() - i,
    {
        proof {
            assert(s@.take(i + 1).drop_last() == s@.take(i as int));
        }
        if v[i] == c {
            r.append(by);
        } else {
            r.push(v[i]);
        }
        i = i + 1;
    }
    proof { assert(s@.take(s@.len() as int) == s@); }
    r
}

/// The first character, and the rest.
pub proof fn lemma_replace_char_first(s: Seq<char>, c: char, by: Seq<char>)
    requires
        s.len() > 0,
    ensures
        replace_char(s, c, by) == (if s[0] == c {
            by
        } else {
            seq![s[0]]
        }) + replace_char(s.skip(1), c, by),
    decreases s.len(),
{
    let f = if s[0] == c {
        by
    } else {
        seq![s[0]]
    };
    if s.len() == 1 {
        assert(s.drop_last() =~= Seq::<char>::empty());
        assert(s.skip(1) =~= Seq::<char>::empty());
        assert(Seq::<char>::empty() + f =~= f + Seq::<char>::empty());
    } else {
        lemma_replace_char_first(s.drop_last(), c, by);
        assert(s.drop_last().skip(1) =~= s.skip(1).drop_last());
        let l = if s.last() == c {
            by
        } else {
            seq![s.last()]
        };
        let m = replace_char(s.skip(1).drop_last(), c, by);
        assert(f + m + l =~= f + (m + l));
    }
}

/// The digit for a value below sixteen.
pub open spec fn hex_char(d: nat) -> char {
    if d < 10 {
        digit_char(d)
    } else {
        (97 + d - 10) as char
    }
}

/// `n` in hexadecimal, without leading zeros.
pub open spec fn hex(n: nat) -> Seq<char>
    decreases n,
{
    if n < 16 {
        seq![hex_char(n)]
    } else {
        hex(n / 16).push(hex_char(n % 16))
    }
}

/// `n` in hexadecimal, with leading zeros to `width` digits.
pub open spec fn hex_wide(n: nat, width: nat) -> Seq<char>
    decreases width,
{
    if width <= 1 {
        hex(n)
    } else {
        hex_wide(n / 16, (width - 1) as nat).push(hex_char(n % 16))
    }
}

fn hex_digit(d: u64) -> (c: char)
    requires
        d < 16,
    ensures
        c == hex_char(d as nat),
{
    if d < 10 {
        digit_of(d)
    } else {
        (97 + (d - 10) as u8) as char
    }
}

/// Appends `n` in hexadecimal.
pub fn push_hex(s: &mut String, n: u64)
    ensures
        final(s)@ == old(s)@ + hex(n as nat),
    decreases n,
{
    if n >= 16 {
        push_hex(s, n / 16);
    }
    s.push(hex_digit(n % 16));
    proof {
        if n >= 16 {
            assert(old(s)@ + hex((n / 16) as nat).push(hex_char((n % 16) as nat)) == (old(s)@ + hex((n / 16) as nat)).push(
                hex_char((n % 16) as nat),
            ));
        } else {
            assert(old(s)@ + seq![hex_char(n as nat)] == old(s)@.push(hex_char(n as nat)));
        }
    }
}

/// Appends `n` in hexadecimal, with leading zeros to `width` digits.
pub fn push_hex_wide(s: &mut String, n: u64, width: u32)
    ensures
        final(s)@ == old(s)@ + hex_wide(n as nat, width as nat),
    decreases width,
{
    if width <= 1 {
        push_hex(s, n);
    } else {
        push_hex_wide(s, n / 16, width - 1);
        s.push(hex_digit(n % 16));
        proof {
            let h = hex_wide((n / 16) as nat, (width - 1) as nat);
            assert(old(s)@ + h.push(hex_char((n % 16) as nat)) == (old(s)@ + h).push(hex_char((n % 16) as nat)));
        }
    }
}

/// What `String::from_utf8_lossy` makes of some bytes.
pub uninterp spec fn lossy(bytes: Seq<u8>) -> Seq<char>;

/// `String::from_utf8_lossy`: the text that `bytes` encode; what is not UTF-8 in them becomes
/// U+FFFD, and text that is UTF-8 stays as it is.
#[verifier::external_body]
pub(crate) fn from_utf8_lossy(bytes: &[u8]) -> (s: String)
    ensures
        s@ == lossy(bytes@),
        valid_utf8(bytes@) ==> s@ == decode_utf8(bytes@),
{
    String::from_utf8_lossy(bytes).into_owned()
}

/// An ASCII letter in lower case; any other character as it is.
pub open spec fn lower_char(c: char) -> char {
    if 'A' <= c <= 'Z' {
        (c as u32 + 32) as char
    } else {
        c
    }
}

/// An ASCII letter in upper case; any other character as it is.
pub open spec fn upper_char(c: char) -> char {
    if 'a' <= c <= 'z' {
        (c as u32 - 32) as char
    } else {
        c
    }
}

/// `s` with its ASCII letters in lower case.
pub open spec fn lower(s: Seq<char>) -> Seq<char> {
    s.map_values(|c: char| lower_char(c))
}

/// `s` with its ASCII letters in upper case.
pub open spec fn upper(s: Seq<char>) -> Seq<char> {
    s.map_values(|c: char| upper_char(c))
}

pub fn to_lower(c: char) -> (r: char)
    ensures
        r == lower_char(c),
{
    if 'A' <= c && c <= 'Z' {
        (c as u8 + 32) as char
    } else {
        c
    }
}

pub fn to_upper(c: char) -> (r: char)
    ensures
        r == upper_char(c),
{
    if 'a' <= c && c <= 'z' {
        (c as u8 - 32) as char
    } else {
        c
    }
}

pub fn lowered(s: &[char]) -> (v: Vec<char>)
    ensures
        v@ == lower(s@),
{
    let mut v: Vec<char> = Vec::new();
    let mut i: usize = 0;
    while i < s.len()
        invariant
            i <= s.len(),
            v@.len() == i,
            forall|k: int| 0 <= k < i ==> v@[k] == lower_char(s@[k]),
        decreases s.len() - i,
    {
        v.push(to_lower(s[i]));
        i = i + 1;
    }
    assert(v@ == lower(s@));
    v
}

pub fn uppered(s: &[char]) -> (v: Vec<char>)
    ensures
        v@ == upper(s@),
{
    let mut v: Vec<char> = Vec::new();
    let mut i: usize = 0;
    while i < s.len()
        invariant
            i <= s.len(),
            v@.len() == i,
            forall|k: int| 0 <= k < i ==> v@[k] == upper_char(s@[k]),
        decreases s.len() - i,
    {
        v.push(to_upper(s[i]));
        i = i + 1;
    }
    assert(v@ == upper(s@));
    v
}

/// Are the two the same but for the case of ASCII letters?
pub open spec fn alike(a: Seq<char>, b: Seq<char>) -> bool {
    lower(a) == lower(b)
}

pub fn is_alike(s: &[char], t: &str) -> (r: bool)
    ensures
        r == alike(s@, t@),
{
    let v: Vec<char> = chars(t);
    let a: Vec<char> = lowered(s);
    let b: Vec<char> = lowered(&v);
    same_chars(&a, &b)
}

/// `s` without every `c` at its start.
pub open spec fn strip_start(s: Seq<char>, c: char) -> Seq<char>
    decreases s.len(),
{
    if s.len() > 0 && s[0] == c {
        strip_start(s.skip(1), c)
    } else {
        s
    }
}

/// `s` without every `c` at its end.
pub open spec fn strip_end(s: Seq<char>, c: char) -> Seq<char>
    decreases s.len(),
{
    if s.len() > 0 && s.last() == c {
        strip_end(s.drop_last(), c)
    } else {
        s
    }
}

/// `s` without every `c` around it.
pub fn stripped(s: &[char], c: char) -> (v: Vec<char>)
    ensures
        v@ == strip_end(strip_start(s@, c), c),
{
    let mut a: usize = 0;
    proof { assert(s@.skip(0) == s@); }
    while a < s.len() && s[a] == c
        invariant
            a <= s.len(),
            strip_start(s@, c) == strip_start(s@.skip(a as int), c),
        decreases s.len() - a,
    {
        proof { assert(s@.skip(a as int).skip(1) == s@.skip(a + 1)); }
        a = a + 1;
    }
    let rest: Vec<char> = part(s, a, s.len());
    proof {
        assert(rest@ == s@.skip(a as int));
        assert(strip_start(s@, c) == rest@);
    }
    stripped_end(&rest, c)
}

/// `s` without every `c` at its end.
pub fn stripped_end(s: &[char], c: char) -> (v: Vec<char>)
    ensures
        v@ == strip_end(s@, c),
{
    let mut e: usize = s.len();
    proof { assert(s@.take(s@.len() as int) == s@); }
    while e > 0 && s[e - 1] == c
        invariant
            e <= s.len(),
            strip_end(s@, c) == strip_end(s@.take(e as int), c),
        decreases e,
    {
        proof {
            assert(s@.take(e as int).last() == s@[e - 1]);
            assert(s@.take(e as int).drop_last() == s@.take(e - 1));
        }
        e = e - 1;
    }
    proof {
        if e > 0 {
            assert(s@.take(e as int).last() == s@[e - 1]);
        }
        assert(s@.subrange(0, e as int) == s@.take(e as int));
    }
    part(s, 0, e)
}

/// What `String::from_utf16_lossy` makes of some UTF-16 units.
pub uninterp spec fn lossy_utf16(units: Seq<u16>) -> Seq<char>;

/// `String::from_utf16_lossy`: the text that UTF-16 units encode; what is not UTF-16 in them
/// becomes U+FFFD.
#[verifier::external_body]
pub(crate) fn from_utf16_lossy(units: &[u16]) -> (s: String)
    ensures
        s@ == lossy_utf16(units@),
{
    String::from_utf16_lossy(units)
}

pub open spec fn all_ascii(s: Seq<char>) -> bool {
    forall|i: int| 0 <= i < s.len() ==> ((#[trigger] s[i]) as u32) < 128
}

/// What `str::to_lowercase` makes of a text.
pub uninterp spec fn lowercased(s: Seq<char>) -> Seq<char>;

/// `str::to_lowercase`: a text in lower case, by Unicode's rules. That text of ASCII has its
/// letters `A` to `Z` become `a` to `z` and nothing else changed is stated, too.
#[verifier::external_body]
pub(crate) fn lowercase(s: &str) -> (r: String)
    ensures
        r@ == lowercased(s@),
        all_ascii(s@) ==> r@ == lower(s@),
{
    s.to_lowercase()
}

/// `s` with every `p` in it, from the left, replaced by `by`.
pub open spec fn replace_text(s: Seq<char>, p: Seq<char>, by: Seq<char>) -> Seq<char>
    decreases s.len(),
{
    if s.len() == 0 {
        Seq::empty()
    } else if p.len() > 0 && starts(s, p) {
        by + replace_text(s.skip(p.len() as int), p, by)
    } else {
        seq![s[0]] + replace_text(s.skip(1), p, by)
    }
}

pub fn text_replaced(s: &[char], p: &str, by: &str) -> (r: Vec<char>)
    ensures
        r@ == replace_text(s@, p@, by@),
{
    let q: Vec<char> = chars(p);
    let b: Vec<char> = chars(by);
    let mut r: Vec<char> = Vec::new();
    let mut i: usize = 0;
    proof {
        assert(s@.skip(0) =~= s@);
        assert(r@ + replace_text(s@, p@, by@) =~= replace_text(s@, p@, by@));
    }
    while i < s.len()
        invariant
            i <= s@.len(),
            q@ == p@,
            b@ == by@,
            replace_text(s@, p@, by@) == r@ + replace_text(s@.skip(i as int), p@, by@),
        decreases s@.len() - i,
    {
        let ghost here = s@.skip(i as int);
        let ghost done = r@;
        proof {
            if q@.len() <= here.len() {
                assert(s@.subrange(i as int, i + q@.len()) =~= here.take(q@.len() as int));
            }
        }
        if q.len() > 0 && q.len() <= s.len() - i && at_place(s, &q, i) {
            push_all(&mut r, &b);
            proof {
                assert(here.skip(p@.len() as int) =~= s@.skip(i + p@.len()));
                let rest = replace_text(s@.skip(i + p@.len()), p@, by@);
                assert(done + (by@ + rest) =~= (done + by@) + rest);
            }
            i = i + q.len();
        } else {
            r.push(s[i]);
            proof {
                assert(here.skip(1) =~= s@.skip(i + 1));
                let rest = replace_text(s@.skip(i + 1), p@, by@);
                assert(done + (seq![here[0]] + rest) =~= done.push(here[0]) + rest);
            }
            i = i + 1;
        }
    }
    proof {
        assert(s@.skip(s@.len() as int) =~= Seq::<char>::empty());
        assert(r@ + Seq::<char>::empty() =~= r@);
    }
    r
}

fn push_all(out: &mut Vec<char>, more: &[char])
    ensures
        final(out)@ == old(out)@ + more@,
{
    let mut i: usize = 0;
    proof {
        assert(out@ + more@.take(0) =~= out@);
    }
    while i < more.len()
        invariant
            i <= more@.len(),
            out@ == old(out)@ + more@.take(i as int),
        decreases more@.len() - i,
    {
        proof {
            assert(old(out)@ + more@.take(i + 1) =~= (old(out)@ + more@.take(i as int)).push(more@[i as int]));
        }
        out.push(more[i]);
        i = i + 1;
    }
    proof {
        assert(more@.take(more@.len() as int) =~= more@);
    }
}

/// `s` without every `p` at its end.
pub open spec fn strip_suffixes(s: Seq<char>, p: Seq<char>) -> Seq<char>
    decreases s.len(),
{
    if p.len() > 0 && ends(s, p) {
        strip_suffixes(s.take(s.len() - p.len()), p)
    } else {
        s
    }
}

pub fn suffixes_stripped(s: &[char], p: &str) -> (v: Vec<char>)
    ensures
        v@ == strip_suffixes(s@, p@),
{
    let q: Vec<char> = chars(p);
    let mut e: usize = s.len();
    proof {
        assert(s@.take(s@.len() as int) =~= s@);
    }
    while q.len() > 0 && q.len() <= e && at_place(s, &q, e - q.len())
        invariant
            e <= s@.len(),
            q@ == p@,
            strip_suffixes(s@, p@) == strip_suffixes(s@.take(e as int), p@),
        decreases e,
    {
        proof {
            let t = s@.take(e as int);
            assert(s@.subrange(e - q@.len(), e as int) =~= t.skip(t.len() - q@.len()));
            assert(t.take(t.len() - q@.len()) =~= s@.take(e - q@.len()));
        }
        e = e - q.len();
    }
    proof {
        let t = s@.take(e as int);
        if q@.len() <= e {
            assert(s@.subrange(e - q@.len(), e as int) =~= t.skip(t.len() - q@.len()));
        }
        assert(s@.subrange(0, e as int) =~= t);
    }
    part(s, 0, e)
}

/// Does `a` sort before `b`: at the first difference, or because it ends sooner?
pub open spec fn text_before(a: Seq<char>, b: Seq<char>) -> bool
    decreases a.len(),
{
    if b.len() == 0 {
        false
    } else if a.len() == 0 {
        true
    } else if a[0] != b[0] {
        a[0] < b[0]
    } else {
        text_before(a.skip(1), b.skip(1))
    }
}

pub fn sorts_before(a: &str, b: &str) -> (r: bool)
    ensures
        r == text_before(a@, b@),
{
    let v: Vec<char> = chars(a);
    let w: Vec<char> = chars(b);
    let mut i: usize = 0;
    proof {
        assert(v@.skip(0) =~= v@);
        assert(w@.skip(0) =~= w@);
    }
    while i < v.len() && i < w.len()
        invariant
            i <= v@.len(),
            i <= w@.len(),
            v@ == a@,
            w@ == b@,
            text_before(a@, b@) == text_before(v@.skip(i as int), w@.skip(i as int)),
        decreases v@.len() - i,
    {
        if v[i] != w[i] {
            return v[i] < w[i];
        }
        proof {
            assert(v@.skip(i as int).skip(1) =~= v@.skip(i + 1));
            assert(w@.skip(i as int).skip(1) =~= w@.skip(i + 1));
        }
        i = i + 1;
    }
    i < w.len()
}

pub proof fn lemma_text_before(a: Seq<char>, b: Seq<char>, c: Seq<char>)
    ensures
        !(text_before(a, b) && text_before(b, a)),
        text_before(a, b) || text_before(b, a) || a == b,
        text_before(a, b) && text_before(b, c) ==> text_before(a, c),
    decreases a.len(),
{
    if a.len() > 0 && b.len() > 0 && a[0] == b[0] {
        let d = if c.len() > 0 {
            c.skip(1)
        } else {
            c
        };
        lemma_text_before(a.skip(1), b.skip(1), d);
        if a.skip(1) == b.skip(1) {
            assert(a =~= seq![a[0]] + a.skip(1));
            assert(b =~= seq![b[0]] + b.skip(1));
        }
    } else if a.len() == 0 && b.len() == 0 {
        assert(a =~= b);
    }
}

} // verus!
