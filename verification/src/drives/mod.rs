//! The drives dd can read from or write to, as each system's own tool lists them: lsblk on
//! Linux, diskutil on macOS, the Storage cmdlets of PowerShell on Windows.

pub mod linux;
pub mod macos;
pub mod windows;

use vstd::prelude::*;
use vstd::string::*;
use crate::text::{
    chars, decimal, from_utf8_lossy, is_digit, join, joined, law_decimal_round_trip, lines, lossy, part, parse_u64,
    replace_char, replaced, same, sorts_before, split_lines, split_words, string, text_before, texts, trim, trimmed, u64_in, views, words,
};
use crate::values::{last_member, lemma_parts, values, Node, Tree};

verus! {

broadcast use lemma_parts;

#[derive(Clone, Copy, Debug, PartialEq, Eq, Structural)]
pub enum DriveKind {
    Usb,
    Sd,
    Ssd,
    Hdd,
    Virtual,
}

#[derive(Clone, Debug, PartialEq)]
pub struct Drive {
    /// The name people know it by: /dev/sdb, /dev/disk4, \\.\PhysicalDrive2.
    pub path: String,
    /// What dd reads or writes. Differs on macOS (/dev/rdiskN is much faster).
    pub io_path: String,
    pub name: String,
    pub size: u64,
    /// "USB", "SD", "NVMe", "SATA"… (may be empty)
    pub bus: String,
    pub kind: DriveKind,
    pub removable: bool,
    /// Holds the running OS. Never offered as a target.
    pub system: bool,
    pub read_only: bool,
    pub mountpoints: Vec<String>,
    /// Volume labels and file systems, shown before erasing.
    pub volumes: Vec<String>,
    /// What the worker unmounts before copying: the mounted partitions on Linux; on macOS the
    /// disk itself.
    pub unmount: Vec<String>,
    /// Volumes the worker locks and dismounts before copying (Windows): `E:` for volumes with
    /// a letter, `\\?\Volume{GUID}` for the others.
    pub lock: Vec<String>,
}

/// What a `Drive` says.
#[verifier::ext_equal]
pub ghost struct Described {
    pub path: Seq<char>,
    pub io_path: Seq<char>,
    pub name: Seq<char>,
    pub size: u64,
    pub bus: Seq<char>,
    pub kind: DriveKind,
    pub removable: bool,
    pub system: bool,
    pub read_only: bool,
    pub mountpoints: Seq<Seq<char>>,
    pub volumes: Seq<Seq<char>>,
    pub unmount: Seq<Seq<char>>,
    pub lock: Seq<Seq<char>>,
}

impl View for Drive {
    type V = Described;

    open spec fn view(&self) -> Described {
        Described {
            path: self.path@,
            io_path: self.io_path@,
            name: self.name@,
            size: self.size,
            bus: self.bus@,
            kind: self.kind,
            removable: self.removable,
            system: self.system,
            read_only: self.read_only,
            mountpoints: texts(self.mountpoints@),
            volumes: texts(self.volumes@),
            unmount: texts(self.unmount@),
            lock: texts(self.lock@),
        }
    }
}

pub open spec fn described(drives: Seq<Drive>) -> Seq<Described> {
    drives.map_values(|d: Drive| d@)
}

// Their order.

/// Where the digits at the end of `s` start.
pub open spec fn tail_start(s: Seq<char>) -> nat
    decreases s.len(),
{
    if s.len() > 0 && is_digit(s.last()) {
        tail_start(s.drop_last())
    } else {
        s.len()
    }
}

/// A name without the number at its end, and that number (0 if there is none).
pub open spec fn natural_key_of(s: Seq<char>) -> (Seq<char>, u64) {
    let n = tail_start(s) as int;
    (
        s.take(n),
        match u64_in(s.skip(n)) {
            Some(v) => v,
            None => 0,
        },
    )
}

/// Sorts "disk10" after "disk2".
pub fn natural_key(s: &str) -> (r: (String, u64))
    ensures
        (r.0@, r.1) == natural_key_of(s@),
{
    let v: Vec<char> = chars(s);
    let mut n: usize = v.len();
    proof {
        assert(v@.take(v@.len() as int) =~= v@);
    }
    while n > 0 && v[n - 1] >= '0' && v[n - 1] <= '9'
        invariant
            n <= v@.len(),
            v@ == s@,
            tail_start(s@) == tail_start(v@.take(n as int)),
        decreases n,
    {
        proof {
            assert(v@.take(n as int).last() == v@[n - 1]);
            assert(v@.take(n as int).drop_last() =~= v@.take(n - 1));
        }
        n = n - 1;
    }
    proof {
        if n > 0 {
            assert(v@.take(n as int).last() == v@[n - 1]);
        }
        assert(tail_start(s@) == n);
    }
    let head: Vec<char> = part(&v, 0, n);
    let tail: Vec<char> = part(&v, n, v.len());
    proof {
        assert(head@ =~= s@.take(n as int));
        assert(tail@ =~= s@.skip(n as int));
    }
    let number: u64 = match parse_u64(&tail) {
        Some(v) => v,
        None => 0,
    };
    (string(&head), number)
}

/// Is `a` listed before `b`: drives that can be taken out first, then by name, then by number?
pub open spec fn before(a: Described, b: Described) -> bool {
    let (x, m) = natural_key_of(a.path);
    let (y, n) = natural_key_of(b.path);
    if a.removable != b.removable {
        a.removable
    } else {
        text_before(x, y) || (x == y && m < n)
    }
}

/// `sorted` and one more drive, behind all that are not to be listed after it.
pub open spec fn with_drive(sorted: Seq<Described>, d: Described) -> Seq<Described>
    decreases sorted.len(),
{
    if sorted.len() > 0 && before(d, sorted.last()) {
        with_drive(sorted.drop_last(), d).push(sorted.last())
    } else {
        sorted.push(d)
    }
}

/// The drives in the order in which they are listed; drives of the same rank stay in theirs.
pub open spec fn listed(drives: Seq<Described>) -> Seq<Described>
    decreases drives.len(),
{
    if drives.len() == 0 {
        Seq::empty()
    } else {
        with_drive(listed(drives.drop_last()), drives.last())
    }
}

fn goes_before(a: &Drive, b: &Drive) -> (r: bool)
    ensures
        r == before(a@, b@),
{
    if a.removable != b.removable {
        return a.removable;
    }
    let (x, m) = natural_key(a.path.as_str());
    let (y, n) = natural_key(b.path.as_str());
    sorts_before(x.as_str(), y.as_str()) || (same(x.as_str(), y.as_str()) && m < n)
}

fn insert_drive(sorted: &mut Vec<Drive>, d: Drive)
    ensures
        described(final(sorted)@) == with_drive(described(old(sorted)@), d@),
{
    let mut at: usize = sorted.len();
    let ghost all = described(sorted@);
    proof {
        assert(all.take(all.len() as int) =~= all);
        assert(with_drive(all, d@) + Seq::<Described>::empty() =~= with_drive(all, d@));
        assert(all.skip(all.len() as int) =~= Seq::<Described>::empty());
    }
    while at > 0 && goes_before(&d, &sorted[at - 1])
        invariant
            at <= sorted@.len(),
            sorted@ == old(sorted)@,
            all == described(sorted@),
            with_drive(all, d@) == with_drive(all.take(at as int), d@) + all.skip(at as int),
        decreases at,
    {
        proof {
            let t = all.take(at as int);
            assert(t.last() == all[at - 1]);
            assert(t.drop_last() =~= all.take(at - 1));
            assert(with_drive(all.take(at - 1), d@).push(all[at - 1]) + all.skip(at as int) =~= with_drive(
                all.take(at - 1),
                d@,
            ) + all.skip(at - 1));
        }
        at = at - 1;
    }
    proof {
        let t = all.take(at as int);
        if at > 0 {
            assert(t.last() == all[at - 1]);
        }
        assert(with_drive(t, d@) == t.push(d@));
    }
    let ghost drive = d@;
    sorted.insert(at, d);
    proof {
        assert(described(sorted@) =~= all.take(at as int).push(drive) + all.skip(at as int));
    }
}

/// Sorts drives as they are listed.
pub fn list(drives: Vec<Drive>) -> (r: Vec<Drive>)
    ensures
        described(r@) == listed(described(drives@)),
{
    let mut rest: Vec<Drive> = drives;
    let mut back: Vec<Drive> = Vec::new();
    let ghost all = described(drives@);
    let ghost n = drives@.len() as int;
    // Turned round, so that the first can be taken off the end.
    while rest.len() > 0
        invariant
            rest@.len() + back@.len() == n,
            n == all.len(),
            forall|i: int| 0 <= i < rest@.len() ==> (#[trigger] rest@[i])@ == all[i],
            forall|i: int| 0 <= i < back@.len() ==> (#[trigger] back@[i])@ == all[n - 1 - i],
        decreases rest@.len(),
    {
        match rest.pop() {
            Some(d) => {
                back.push(d);
            },
            None => {},
        }
    }
    let mut sorted: Vec<Drive> = Vec::new();
    proof {
        assert(described(sorted@) =~= Seq::<Described>::empty());
        assert(all.take(0) =~= Seq::<Described>::empty());
    }
    while back.len() > 0
        invariant
            n == all.len(),
            back@.len() <= n,
            forall|i: int| 0 <= i < back@.len() ==> (#[trigger] back@[i])@ == all[n - 1 - i],
            described(sorted@) == listed(all.take(n - back@.len())),
        decreases back@.len(),
    {
        let ghost k = n - back@.len();
        match back.pop() {
            Some(d) => {
                proof {
                    assert(d@ == all[k]);
                    assert(all.take(k + 1).drop_last() =~= all.take(k));
                }
                insert_drive(&mut sorted, d);
            },
            None => {},
        }
    }
    proof {
        assert(all.take(n) =~= all);
    }
    sorted
}

proof fn lemma_before(a: Described, b: Described, c: Described)
    ensures
        !(before(a, b) && before(b, a)),
        before(a, b) && before(b, c) ==> before(a, c),
        !before(b, a) && !before(c, b) ==> !before(c, a),
{
    let x = natural_key_of(a.path).0;
    let y = natural_key_of(b.path).0;
    let z = natural_key_of(c.path).0;
    crate::text::lemma_text_before(x, y, z);
    crate::text::lemma_text_before(y, z, x);
    crate::text::lemma_text_before(z, x, y);
    crate::text::lemma_text_before(z, y, x);
    crate::text::lemma_text_before(y, x, z);
    crate::text::lemma_text_before(x, z, y);
}

/// No drive is listed after one that comes before it.
pub open spec fn in_listing_order(drives: Seq<Described>) -> bool {
    forall|i: int, j: int| 0 <= i < j < drives.len() ==> !before(#[trigger] drives[j], #[trigger] drives[i])
}

proof fn lemma_with_drive(sorted: Seq<Described>, d: Described)
    requires
        in_listing_order(sorted),
    ensures
        in_listing_order(with_drive(sorted, d)),
        with_drive(sorted, d).to_multiset() == sorted.to_multiset().insert(d),
        with_drive(sorted, d).len() == sorted.len() + 1,
        forall|i: int|
            0 <= i < with_drive(sorted, d).len() ==> #[trigger] with_drive(sorted, d)[i] == d || sorted.contains(
                with_drive(sorted, d)[i],
            ),
    decreases sorted.len(),
{
    broadcast use vstd::seq_lib::group_to_multiset_ensures;

    let all = with_drive(sorted, d);
    if sorted.len() > 0 && before(d, sorted.last()) {
        let rest = sorted.drop_last();
        let part = with_drive(rest, d);
        lemma_with_drive(rest, d);
        assert(sorted =~= rest.push(sorted.last()));
        assert forall|i: int, j: int| 0 <= i < j < all.len() implies !before(
            #[trigger] all[j],
            #[trigger] all[i],
        ) by {
            assert(all[i] == part[i]);
            if j < part.len() {
                assert(all[j] == part[j]);
            } else if part[i] == d {
                lemma_before(d, sorted.last(), d);
            } else {
                let k = choose|k: int| 0 <= k < rest.len() && rest[k] == part[i];
                assert(sorted[k] == rest[k]);
                assert(!before(sorted[sorted.len() - 1], sorted[k]));
            }
        }
        assert forall|i: int| 0 <= i < all.len() implies #[trigger] all[i] == d || sorted.contains(all[i]) by {
            if i < part.len() {
                assert(all[i] == part[i]);
                if part[i] != d {
                    let k = choose|k: int| 0 <= k < rest.len() && rest[k] == part[i];
                    assert(sorted[k] == part[i]);
                }
            } else {
                assert(sorted[sorted.len() - 1] == all[i]);
            }
        }
        assert(all.to_multiset() =~= sorted.to_multiset().insert(d));
    } else {
        assert forall|i: int, j: int| 0 <= i < j < all.len() implies !before(
            #[trigger] all[j],
            #[trigger] all[i],
        ) by {
            assert(all[i] == sorted[i]);
            if j < sorted.len() {
                assert(all[j] == sorted[j]);
            } else if i < sorted.len() - 1 {
                lemma_before(sorted[i], sorted.last(), d);
                assert(!before(sorted[sorted.len() - 1], sorted[i]));
            }
        }
        assert forall|i: int| 0 <= i < all.len() implies #[trigger] all[i] == d || sorted.contains(all[i]) by {
            if i < sorted.len() {
                assert(all[i] == sorted[i]);
            }
        }
    }
}

/// The list has every drive once, and is in order: drives that can be taken out first, then by
/// name and number.
pub proof fn law_list_is_sorted(drives: Seq<Described>)
    ensures
        in_listing_order(listed(drives)),
        listed(drives).to_multiset() == drives.to_multiset(),
    decreases drives.len(),
{
    broadcast use vstd::seq_lib::group_to_multiset_ensures;

    if drives.len() > 0 {
        law_list_is_sorted(drives.drop_last());
        lemma_with_drive(listed(drives.drop_last()), drives.last());
        assert(drives =~= drives.drop_last().push(drives.last()));
    }
}

// What tools print.

/// "SanDisk  Cruzer_Blade" → "SanDisk Cruzer Blade"
pub open spec fn tidied(s: Seq<char>) -> Seq<char> {
    join(words(replace_char(s, '_', " "@)), " "@)
}

/// "SanDisk  Cruzer_Blade" → "SanDisk Cruzer Blade"
pub fn tidy(s: &str) -> (r: String)
    ensures
        r@ == tidied(s@),
{
    let t: String = replaced(s, '_', " ");
    let v: Vec<char> = chars(t.as_str());
    let w: Vec<Vec<char>> = split_words(&v);
    let mut parts: Vec<String> = Vec::new();
    let mut i: usize = 0;
    while i < w.len()
        invariant
            i <= w@.len(),
            texts(parts@) == views(w@).take(i as int),
        decreases w@.len() - i,
    {
        let ghost old_parts = parts@;
        parts.push(string(&w[i]));
        proof {
            assert(texts(parts@) =~= texts(old_parts).push(views(w@)[i as int]));
            assert(views(w@).take(i + 1) =~= views(w@).take(i as int).push(views(w@)[i as int]));
        }
        i = i + 1;
    }
    proof {
        assert(views(w@).take(w@.len() as int) =~= views(w@));
    }
    joined(&parts, " ")
}

/// The first of some lines that says something, without the spaces around it.
pub open spec fn first_of(ls: Seq<Seq<char>>) -> Seq<char>
    decreases ls.len(),
{
    if ls.len() == 0 {
        Seq::empty()
    } else if trim(ls[0]).len() > 0 {
        trim(ls[0])
    } else {
        first_of(ls.skip(1))
    }
}

/// The first line of a tool's output that says something.
pub fn first_line(text: &[u8]) -> (r: String)
    ensures
        r@ == first_of(lines(lossy(text@))),
{
    let s: String = from_utf8_lossy(text);
    let v: Vec<char> = chars(s.as_str());
    let ls: Vec<Vec<char>> = split_lines(&v);
    let mut i: usize = 0;
    proof {
        assert(views(ls@).skip(0) =~= views(ls@));
    }
    while i < ls.len()
        invariant
            i <= ls@.len(),
            views(ls@) == lines(lossy(text@)),
            first_of(views(ls@)) == first_of(views(ls@).skip(i as int)),
        decreases ls@.len() - i,
    {
        let t: Vec<char> = trimmed(&ls[i]);
        proof {
            let rest = views(ls@).skip(i as int);
            assert(rest[0] == ls@[i as int]@);
            assert(rest.skip(1) =~= views(ls@).skip(i + 1));
        }
        if t.len() > 0 {
            return string(&t);
        }
        i = i + 1;
    }
    String::new()
}

// The tools' JSON is loose about types (lsblk changed them over the years; PowerShell writes
// whatever the object held), so these accept every spelling seen.

/// A text without the spaces around it, unless nothing is left of it.
pub open spec fn said(v: Option<Tree>) -> Option<Seq<char>> {
    match v {
        Some(Tree::Text(s)) => if trim(s).len() > 0 {
            Some(trim(s))
        } else {
            None
        },
        _ => None,
    }
}

/// A non-empty string.
pub fn text(v: &Node, key: &str) -> (r: Option<String>)
    ensures
        match r {
            Some(s) => said(v@.member(key@)) == Some(s@),
            None => said(v@.member(key@)) is None,
        },
{
    match v.get(key) {
        Some(Node::Text(s)) => {
            let c: Vec<char> = chars(s.as_str());
            let t: Vec<char> = trimmed(&c);
            if t.len() > 0 {
                Some(string(&t))
            } else {
                None
            }
        },
        _ => None,
    }
}

pub open spec fn number_in(v: Option<Tree>) -> u64 {
    match v {
        Some(Tree::Number(Some(n))) => n,
        Some(Tree::Text(s)) => match u64_in(trim(s)) {
            Some(n) => n,
            None => 0,
        },
        _ => 0,
    }
}

/// A number, possibly written as a string. 0 when missing.
pub fn number(v: &Node, key: &str) -> (r: u64)
    ensures
        r == number_in(v@.member(key@)),
{
    match v.get(key) {
        Some(Node::Number(Some(n))) => *n,
        Some(Node::Text(s)) => {
            let c: Vec<char> = chars(s.as_str());
            let t: Vec<char> = trimmed(&c);
            match parse_u64(&t) {
                Some(n) => n,
                None => 0,
            }
        },
        _ => 0,
    }
}

pub open spec fn flag_in(v: Option<Tree>) -> bool {
    match v {
        Some(Tree::Bool(b)) => b,
        Some(Tree::Number(n)) => n == Some(1u64),
        Some(Tree::Text(s)) => trim(s) == "1"@ || trim(s) == "true"@ || trim(s) == "True"@,
        _ => false,
    }
}

/// A flag: true, 1 or "1" (also "true").
pub fn flag(v: &Node, key: &str) -> (r: bool)
    ensures
        r == flag_in(v@.member(key@)),
{
    match v.get(key) {
        Some(Node::Bool(b)) => *b,
        Some(Node::Number(n)) => match *n {
            Some(n) => n == 1,
            None => false,
        },
        Some(Node::Text(s)) => {
            let c: Vec<char> = chars(s.as_str());
            let t: Vec<char> = trimmed(&c);
            crate::text::is_text(&t, "1") || crate::text::is_text(&t, "true") || crate::text::is_text(&t, "True")
        },
        _ => false,
    }
}

/// Those that are not null.
pub open spec fn not_null(list: Seq<Tree>) -> Seq<Tree>
    decreases list.len(),
{
    if list.len() == 0 {
        Seq::empty()
    } else if list.last() is Null {
        not_null(list.drop_last())
    } else {
        not_null(list.drop_last()).push(list.last())
    }
}

/// A member is part of its table.
pub proof fn lemma_member_is_part(v: Tree, key: Seq<char>)
    ensures
        v.member(key) matches Some(m) ==> decreases_to!(v => m),
{
    if let Tree::Table(members) = v {
        lemma_last_member(members, key, members.len());
        if let Some(m) = last_member(members, key, members.len()) {
            let i = choose|i: int| 0 <= i < members.len() && m == (#[trigger] members[i]).1;
            assert(decreases_to!(v => members));
            assert(decreases_to!(members => members[i]));
            assert(decreases_to!(members[i] => members[i].1));
        }
    }
}

proof fn lemma_last_member(members: Seq<(Seq<char>, Tree)>, key: Seq<char>, n: nat)
    ensures
        last_member(members, key, n) matches Some(m) ==> exists|k: int|
            0 <= k < members.len() && m == (#[trigger] members[k]).1,
    decreases n,
{
    if 0 < n <= members.len() && members[n - 1].0 != key {
        lemma_last_member(members, key, (n - 1) as nat);
    }
}

/// Is it an array as PowerShell sometimes writes one, `{"value": [...], "Count": n}`?
pub open spec fn is_wrapped(v: Tree) -> bool {
    v.member("value"@) is Some && v.member("Count"@) is Some
}

/// The items of a list that may come as an array, a single value, nothing at all, or (Windows
/// PowerShell 5.1 does this to some arrays) an object `{"value": [...], "Count": n}`.
pub open spec fn items_of_node(v: Tree) -> Seq<Tree>
    decreases v,
    via items_end
{
    match v {
        Tree::Null => Seq::empty(),
        Tree::List(list) => not_null(list),
        other => if is_wrapped(other) {
            items_of_node(other.member("value"@)->0)
        } else {
            seq![other]
        },
    }
}

#[via_fn]
proof fn items_end(v: Tree) {
    lemma_member_is_part(v, "value"@);
}

pub open spec fn items_in(v: Option<Tree>) -> Seq<Tree> {
    match v {
        None => Seq::empty(),
        Some(n) => items_of_node(n),
    }
}

/// Those of `list` that are not null, by reference.
fn nodes<'a>(list: &'a Vec<Node>) -> (r: Vec<&'a Node>)
    ensures
        refs(r@) == not_null(values(list@)),
{
    let mut r: Vec<&Node> = Vec::new();
    let mut i: usize = 0;
    let ghost all = values(list@);
    proof {
        assert(refs(r@) =~= Seq::<Tree>::empty());
        assert(all.take(0) =~= Seq::<Tree>::empty());
    }
    while i < list.len()
        invariant
            i <= list@.len(),
            all == values(list@),
            refs(r@) == not_null(all.take(i as int)),
        decreases list@.len() - i,
    {
        let ghost before = r@;
        proof {
            assert(all.take(i + 1).drop_last() =~= all.take(i as int));
            assert(all.take(i + 1).last() == list@[i as int]@);
        }
        let null: bool = match &list[i] {
            Node::Null => true,
            _ => false,
        };
        if !null {
            r.push(&list[i]);
            proof {
                assert(refs(r@) =~= refs(before).push(list@[i as int]@));
            }
        }
        i = i + 1;
    }
    proof {
        assert(all.take(list@.len() as int) =~= all);
    }
    r
}

/// What references refer to.
pub open spec fn refs(v: Seq<&Node>) -> Seq<Tree> {
    v.map_values(|n: &Node| n@)
}

fn items_of<'a>(v: &'a Node) -> (r: Vec<&'a Node>)
    ensures
        refs(r@) == items_of_node(v@),
    decreases v,
{
    match v {
        Node::Null => {
            let r: Vec<&Node> = Vec::new();
            assert(refs(r@) =~= Seq::<Tree>::empty());
            r
        },
        Node::List(list) => nodes(list),
        other => {
            if let Some(inner) = other.get("value") {
                if other.get("Count").is_some() {
                    return items_of(inner);
                }
            }
            let mut r: Vec<&Node> = Vec::new();
            r.push(other);
            assert(refs(r@) =~= seq![other@]);
            r
        },
    }
}

/// A list that may come as an array, a single value, nothing at all, or (Windows PowerShell
/// 5.1 does this to some arrays) an object `{"value": [...], "Count": n}`.
pub fn items<'a>(v: &'a Node, key: &str) -> (r: Vec<&'a Node>)
    ensures
        refs(r@) == items_in(v@.member(key@)),
{
    match v.get(key) {
        None => {
            let r: Vec<&Node> = Vec::new();
            assert(refs(r@) =~= Seq::<Tree>::empty());
            r
        },
        Some(n) => items_of(n),
    }
}

proof fn lemma_tail_start(name: Seq<char>, digits: Seq<char>)
    requires
        name.len() > 0 ==> !is_digit(name.last()),
        forall|i: int| 0 <= i < digits.len() ==> is_digit(#[trigger] digits[i]),
    ensures
        tail_start(name + digits) == name.len(),
    decreases digits.len(),
{
    let s = name + digits;
    if digits.len() > 0 {
        assert(s.last() == digits.last());
        assert(is_digit(digits[digits.len() - 1]));
        assert(s.drop_last() =~= name + digits.drop_last());
        assert forall|i: int| 0 <= i < digits.drop_last().len() implies is_digit(#[trigger] digits.drop_last()[i]) by {
            assert(is_digit(digits[i]));
        }
        lemma_tail_start(name, digits.drop_last());
    } else {
        assert(s =~= name);
    }
}

/// A name with a number behind it is taken apart into these, so drives of one name are listed by
/// their numbers.
pub proof fn law_numbers_are_counted(name: Seq<char>, m: u64, n: u64, a: Described, b: Described)
    requires
        name.len() > 0 ==> !is_digit(name.last()),
        a.path == name + decimal(m as nat),
        b.path == name + decimal(n as nat),
        a.removable == b.removable,
        m < n,
    ensures
        natural_key_of(a.path) == (name, m),
        natural_key_of(b.path) == (name, n),
        before(a, b),
{
    law_decimal_round_trip(m as nat);
    law_decimal_round_trip(n as nat);
    assert forall|i: int| 0 <= i < decimal(m as nat).len() implies is_digit(#[trigger] decimal(m as nat)[i]) by {}
    assert forall|i: int| 0 <= i < decimal(n as nat).len() implies is_digit(#[trigger] decimal(n as nat)[i]) by {}
    lemma_tail_start(name, decimal(m as nat));
    lemma_tail_start(name, decimal(n as nat));
    assert(a.path.take(name.len() as int) =~= name);
    assert(b.path.take(name.len() as int) =~= name);
    assert(a.path.skip(name.len() as int) =~= decimal(m as nat));
    assert(b.path.skip(name.len() as int) =~= decimal(n as nat));
}

/// Drives that can be taken out are listed before those that can't.
pub proof fn law_removable_drives_come_first(a: Described, b: Described)
    requires
        a.removable,
        !b.removable,
    ensures
        before(a, b),
        !before(b, a),
{
}

} // verus!
