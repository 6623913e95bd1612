//! The drive picker, and keeping the chosen drives current: sticks get swapped, and /dev/sdb
//! may be a different drive now than when it was picked.

use vstd::prelude::*;
use vstd::string::*;
use crate::drives::{described, Described, Drive};
use crate::fmt;
use crate::fmt::bytes_of;
use crate::plan::{Source, Target};
use crate::text::{join, joined, same, texts};
use crate::window::{drive_glyph, filled, glyph_of};

verus! {

/// A line of the picker.
#[derive(Debug)]
pub struct DriveItem {
    pub key: String,
    pub name: String,
    pub detail: String,
    pub size: String,
    pub kind: i32,
    pub note: &'static str,
    pub disabled: bool,
    pub selected: bool,
}

/// What a line of the picker says.
#[verifier::ext_equal]
pub ghost struct Line {
    pub key: Seq<char>,
    pub name: Seq<char>,
    pub detail: Seq<char>,
    pub size: Seq<char>,
    pub kind: i32,
    pub note: Seq<char>,
    pub disabled: bool,
    pub selected: bool,
}

impl View for DriveItem {
    type V = Line;

    open spec fn view(&self) -> Line {
        Line {
            key: self.key@,
            name: self.name@,
            detail: self.detail@,
            size: self.size@,
            kind: self.kind,
            note: self.note@,
            disabled: self.disabled,
            selected: self.selected,
        }
    }
}

pub open spec fn item_lines(items: Seq<DriveItem>) -> Seq<Line> {
    items.map_values(|i: DriveItem| i@)
}

/// What the picker is asked for.
pub ghost struct Asked {
    pub show_all: bool,
    pub for_source: bool,
    /// Bytes a target has to hold, if that is known.
    pub needed: Option<u64>,
    /// The drive that is chosen on this side.
    pub chosen: Option<Seq<char>>,
    /// The drive in use on the other side.
    pub other: Option<Seq<char>>,
}

/// Bytes the target has to hold, when known.
pub open spec fn needed_of(source: Source) -> Option<u64> {
    match source {
        Source::File { path, info } => match info.smart {
            Some(s) => Some(s.disk_size),
            None => info.uncompressed,
        },
        Source::Drive(d) => Some(d.size),
        _ => None,
    }
}

/// The drive in use on the other side. One that is remembered on another tab doesn't count.
pub open spec fn other_of(source: Source, target: Target, for_source: bool) -> Option<Seq<char>> {
    if for_source {
        match target {
            Target::Drive(d) => Some(d.path@),
            _ => None,
        }
    } else {
        match source {
            Source::Drive(d) => Some(d.path@),
            _ => None,
        }
    }
}

/// What is noted beside a drive, and whether it can't be picked.
pub open spec fn note_of(d: Described, a: Asked) -> (Seq<char>, bool) {
    if a.other == Some(d.path) {
        (
            if a.for_source {
                "TARGET"@
            } else {
                "SOURCE"@
            },
            true,
        )
    } else if d.system {
        ("SYSTEM"@, !a.for_source)
    } else if d.read_only && !a.for_source {
        ("READ-ONLY"@, true)
    } else if !a.for_source && a.needed is Some && a.needed->0 > d.size {
        ("TOO SMALL"@, true)
    } else if d.mountpoints.len() > 0 && !a.for_source {
        ("MOUNTED"@, false)
    } else {
        (""@, false)
    }
}

pub open spec fn detail_of(d: Described) -> Seq<char> {
    join(
        filled(seq![d.bus, d.path]) + (if d.mountpoints.len() > 0 {
            seq![d.mountpoints[0]]
        } else {
            Seq::empty()
        }),
        " · "@,
    )
}

pub open spec fn line_of(d: Described, a: Asked) -> Line {
    Line {
        key: d.path,
        name: d.name,
        detail: detail_of(d),
        size: bytes_of(d.size),
        kind: glyph_of(d.kind),
        note: note_of(d, a).0,
        disabled: note_of(d, a).1,
        selected: a.chosen == Some(d.path),
    }
}

/// The lines of the picker: the removable drives, or all.
pub open spec fn lines_of(drives: Seq<Described>, a: Asked) -> Seq<Line>
    decreases drives.len(),
{
    if drives.len() == 0 {
        Seq::empty()
    } else {
        let rest = lines_of(drives.drop_last(), a);
        if a.show_all || drives.last().removable {
            rest.push(line_of(drives.last(), a))
        } else {
            rest
        }
    }
}

pub open spec fn path_of(s: Option<&str>) -> Option<Seq<char>> {
    match s {
        Some(p) => Some(p@),
        None => None,
    }
}

fn is_path(a: Option<&str>, b: &str) -> (r: bool)
    ensures
        r == (path_of(a) == Some(b@)),
{
    match a {
        Some(p) => same(p, b),
        None => false,
    }
}

fn detail(d: &Drive) -> (s: String)
    ensures
        s@ == detail_of(d@),
{
    let mut parts: Vec<String> = Vec::new();
    let bus: bool = !same(d.bus.as_str(), "");
    let path: bool = !same(d.path.as_str(), "");
    if bus {
        parts.push(d.bus.as_str().to_owned());
    }
    if path {
        parts.push(d.path.as_str().to_owned());
    }
    proof {
        reveal_strlit("");
        assert(d.bus@.len() == 0 ==> d.bus@ =~= ""@);
        assert(d.path@.len() == 0 ==> d.path@ =~= ""@);
        let two = seq![d.bus@, d.path@];
        assert(two.drop_last() =~= seq![d.bus@]);
        assert(two.drop_last().drop_last() =~= Seq::<Seq<char>>::empty());
        assert(filled(two.drop_last().drop_last()) =~= Seq::<Seq<char>>::empty());
        assert(filled(two.drop_last()) =~= if bus {
            seq![d.bus@]
        } else {
            Seq::empty()
        });
        assert(texts(parts@) =~= filled(two));
    }
    if d.mountpoints.len() > 0 {
        let ghost was = parts@;
        parts.push(d.mountpoints[0].as_str().to_owned());
        assert(texts(parts@) =~= texts(was) + seq![texts(d.mountpoints@)[0]]);
    } else {
        assert(texts(parts@) =~= texts(parts@) + Seq::<Seq<char>>::empty());
    }
    joined(&parts, " · ")
}

/// Fills the picker from the last scan. `chosen` is the path of the drive that is chosen on
/// this side.
pub fn show_drives(
    drives: &[Drive],
    show_all: bool,
    for_source: bool,
    source: &Source,
    target: &Target,
    chosen: Option<&str>,
) -> (r: Vec<DriveItem>)
    ensures
        item_lines(r@) == lines_of(
            described(drives@),
            Asked {
                show_all,
                for_source,
                needed: needed_of(*source),
                chosen: path_of(chosen),
                other: other_of(*source, *target, for_source),
            },
        ),
{
    let needed: Option<u64> = match source {
        Source::File { path, info } => match info.smart {
            Some(s) => Some(s.disk_size),
            None => info.uncompressed,
        },
        Source::Drive(d) => Some(d.size),
        _ => None,
    };
    let other: Option<&str> = if for_source {
        match target {
            Target::Drive(d) => Some(d.path.as_str()),
            _ => None,
        }
    } else {
        match source {
            Source::Drive(d) => Some(d.path.as_str()),
            _ => None,
        }
    };
    let ghost a = Asked {
        show_all,
        for_source,
        needed: needed_of(*source),
        chosen: path_of(chosen),
        other: other_of(*source, *target, for_source),
    };
    let ghost all = described(drives@);
    let mut items: Vec<DriveItem> = Vec::new();
    let mut i: usize = 0;
    proof {
        assert(all.take(0) =~= Seq::<Described>::empty());
        assert(item_lines(items@) =~= Seq::<Line>::empty());
    }
    while i < drives.len()
        invariant
            i <= drives@.len(),
            all == described(drives@),
            a == (Asked { show_all, for_source, needed, chosen: path_of(chosen), other: path_of(other) }),
            item_lines(items@) == lines_of(all.take(i as int), a),
        decreases drives@.len() - i,
    {
        let d: &Drive = &drives[i];
        proof {
            assert(all.take(i + 1).drop_last() =~= all.take(i as int));
            assert(all.take(i + 1).last() == d@);
        }
        if show_all || d.removable {
            let small: bool = match needed {
                Some(n) => n > d.size,
                None => false,
            };
            let (note, disabled): (&'static str, bool) = if is_path(other, d.path.as_str()) {
                if for_source {
                    ("TARGET", true)
                } else {
                    ("SOURCE", true)
                }
            } else if d.system {
                ("SYSTEM", !for_source)
            } else if d.read_only && !for_source {
                ("READ-ONLY", true)
            } else if !for_source && small {
                ("TOO SMALL", true)
            } else if d.mountpoints.len() > 0 && !for_source {
                ("MOUNTED", false)
            } else {
                ("", false)
            };
            let item: DriveItem = DriveItem {
                key: d.path.as_str().to_owned(),
                name: d.name.as_str().to_owned(),
                detail: detail(d),
                size: fmt::bytes(d.size),
                kind: drive_glyph(d),
                note,
                disabled,
                selected: is_path(chosen, d.path.as_str()),
            };
            let ghost was = items@;
            proof {
                assert(item@ == line_of(d@, a));
            }
            items.push(item);
            assert(item_lines(items@) =~= item_lines(was).push(item@));
        }
        i = i + 1;
    }
    proof {
        assert(all.take(all.len() as int) =~= all);
    }
    items
}

/// A drive that can be picked as a target is not the source, doesn't hold the operating system,
/// isn't read-only, and is big enough, as far as that is known.
pub proof fn law_picked_targets_are_safe(d: Described, a: Asked)
    requires
        !a.for_source,
        !line_of(d, a).disabled,
    ensures
        a.other != Some(d.path),
        !d.system,
        !d.read_only,
        a.needed matches Some(n) ==> n <= d.size,
{
}

/// The picker only shows drives that there are, in their order, and leaves out only those that
/// can't be taken out.
pub proof fn law_picker_leaves_out_nothing_else(drives: Seq<Described>, a: Asked, i: int)
    requires
        0 <= i < drives.len(),
        a.show_all || drives[i].removable,
    ensures
        lines_of(drives, a).contains(line_of(drives[i], a)),
    decreases drives.len(),
{
    let rest = lines_of(drives.drop_last(), a);
    if i < drives.len() - 1 {
        law_picker_leaves_out_nothing_else(drives.drop_last(), a, i);
        assert(drives.drop_last()[i] == drives[i]);
        let k = choose|k: int| 0 <= k < rest.len() && rest[k] == line_of(drives[i], a);
        assert(lines_of(drives, a)[k] == rest[k]);
    } else {
        assert(lines_of(drives, a).last() == line_of(drives[i], a));
    }
}

// Keeping up with what is plugged in.

/// The first drive at a path.
pub open spec fn at_path(list: Seq<Described>, path: Seq<char>) -> Option<Described>
    decreases list.len(),
{
    if list.len() == 0 {
        None
    } else if list[0].path == path {
        Some(list[0])
    } else {
        at_path(list.skip(1), path)
    }
}

/// Which drive of a list is the first at a path.
pub fn find_drive(list: &[Drive], path: &str) -> (r: Option<usize>)
    ensures
        match r {
            Some(i) => i < list@.len() && at_path(described(list@), path@) == Some(list@[i as int]@),
            None => at_path(described(list@), path@) is None,
        },
{
    let ghost all = described(list@);
    let mut i: usize = 0;
    proof {
        assert(all.skip(0) =~= all);
    }
    while i < list.len()
        invariant
            i <= list@.len(),
            all == described(list@),
            at_path(all, path@) == at_path(all.skip(i as int), path@),
        decreases list@.len() - i,
    {
        proof {
            assert(all.skip(i as int)[0] == list@[i as int]@);
            assert(all.skip(i as int).skip(1) =~= all.skip(i + 1));
        }
        if same(list[i].path.as_str(), path) {
            return Some(i);
        }
        i = i + 1;
    }
    None
}

fn copy_texts(v: &[String]) -> (r: Vec<String>)
    ensures
        texts(r@) == texts(v@),
{
    let mut r: Vec<String> = Vec::new();
    let mut i: usize = 0;
    proof {
        assert(texts(r@) =~= texts(v@).take(0));
    }
    while i < v.len()
        invariant
            i <= v@.len(),
            texts(r@) == texts(v@).take(i as int),
        decreases v@.len() - i,
    {
        let ghost was = r@;
        let s: String = v[i].as_str().to_owned();
        r.push(s);
        proof {
            assert(texts(r@) =~= texts(was).push(s@));
            assert(texts(v@).take(i + 1) =~= texts(v@).take(i as int).push(texts(v@)[i as int]));
        }
        i = i + 1;
    }
    assert(texts(v@).take(v@.len() as int) =~= texts(v@));
    r
}

/// A copy of what is known of a drive.
pub fn copy_drive(d: &Drive) -> (r: Drive)
    ensures
        r@ == d@,
{
    Drive {
        path: d.path.as_str().to_owned(),
        io_path: d.io_path.as_str().to_owned(),
        name: d.name.as_str().to_owned(),
        size: d.size,
        bus: d.bus.as_str().to_owned(),
        kind: d.kind,
        removable: d.removable,
        system: d.system,
        read_only: d.read_only,
        mountpoints: copy_texts(&d.mountpoints),
        volumes: copy_texts(&d.volumes),
        unmount: copy_texts(&d.unmount),
        lock: copy_texts(&d.lock),
    }
}

/// Is it still the same drive?
pub open spec fn recheck_of(drive: Described, list: Seq<Described>) -> Result<Described, Seq<char>> {
    match at_path(list, drive.path) {
        Some(d) => if d.size == drive.size && d.name == drive.name {
            Ok(d)
        } else {
            Err(drive.path + " changed since you picked it. Choose the drive again."@)
        },
        None => Err(drive.name + " is no longer connected."@),
    }
}

/// Makes sure a chosen drive is still the same one, and gives what it holds now.
pub fn recheck(drive: &Drive, list: &[Drive]) -> (r: Result<Drive, String>)
    ensures
        match r {
            Ok(d) => recheck_of(drive@, described(list@)) == Ok::<Described, Seq<char>>(d@),
            Err(e) => recheck_of(drive@, described(list@)) == Err::<Described, Seq<char>>(e@),
        },
{
    match find_drive(list, drive.path.as_str()) {
        Some(i) => {
            let d: &Drive = &list[i];
            if d.size == drive.size && same(d.name.as_str(), drive.name.as_str()) {
                Ok(copy_drive(d))
            } else {
                let mut e: String = drive.path.as_str().to_owned();
                e.append(" changed since you picked it. Choose the drive again.");
                Err(e)
            }
        },
        None => {
            let mut e: String = drive.name.as_str().to_owned();
            e.append(" is no longer connected.");
            Err(e)
        },
    }
}

/// The drives that are remembered for each side.
#[derive(Debug)]
pub struct Chosen {
    pub source: Option<Drive>,
    pub target: Option<Drive>,
}

#[verifier::ext_equal]
pub ghost struct Picked {
    pub source: Option<Described>,
    pub target: Option<Described>,
}

pub open spec fn known(d: Option<Drive>) -> Option<Described> {
    match d {
        Some(d) => Some(d@),
        None => None,
    }
}

impl View for Chosen {
    type V = Picked;

    open spec fn view(&self) -> Picked {
        Picked { source: known(self.source), target: known(self.target) }
    }
}

/// A remembered drive after a scan: what it is now, or gone, unless a job is running.
pub open spec fn kept_of(chosen: Option<Described>, list: Seq<Described>, busy: bool) -> Option<Described> {
    match chosen {
        Some(d) => match at_path(list, d.path) {
            Some(fresh) => Some(fresh),
            None => if busy {
                chosen
            } else {
                None
            },
        },
        None => None,
    }
}

/// The name of a remembered drive that a scan didn't find.
pub open spec fn gone_of(chosen: Option<Described>, list: Seq<Described>, busy: bool) -> Option<Seq<char>> {
    match chosen {
        Some(d) => if at_path(list, d.path) is None && !busy {
            Some(d.name)
        } else {
            None
        },
        None => None,
    }
}

fn kept(chosen: Option<Drive>, list: &[Drive], busy: bool) -> (r: (Option<Drive>, Option<String>))
    ensures
        known(r.0) == kept_of(known(chosen), described(list@), busy),
        match r.1 {
            Some(s) => gone_of(known(chosen), described(list@), busy) == Some(s@),
            None => gone_of(known(chosen), described(list@), busy) is None,
        },
{
    match chosen {
        Some(d) => match find_drive(list, d.path.as_str()) {
            Some(i) => (Some(copy_drive(&list[i])), None),
            None => {
                if busy {
                    (Some(d), None)
                } else {
                    (None, Some(d.name))
                }
            },
        },
        None => (None, None),
    }
}

/// What to say of a drive that is gone: of the target, if both are.
pub open spec fn lost_of(picked: Picked, list: Seq<Described>, busy: bool) -> Option<Seq<char>> {
    match (gone_of(picked.source, list, busy), gone_of(picked.target, list, busy)) {
        (_, Some(name)) => Some(name + " was disconnected."@),
        (Some(name), None) => Some(name + " was disconnected."@),
        (None, None) => None,
    }
}

impl Chosen {
    /// Keeps the chosen drives current after a scan, and lets go of unplugged ones. What to say
    /// about that.
    pub fn drives_loaded(&mut self, list: &[Drive], busy: bool) -> (r: Option<String>)
        ensures
            final(self)@ == (Picked {
                source: kept_of(old(self)@.source, described(list@), busy),
                target: kept_of(old(self)@.target, described(list@), busy),
            }),
            match r {
                Some(s) => lost_of(old(self)@, described(list@), busy) == Some(s@),
                None => lost_of(old(self)@, described(list@), busy) is None,
            },
    {
        let (source, lost_source) = kept(self.source.take(), list, busy);
        let (target, lost_target) = kept(self.target.take(), list, busy);
        self.source = source;
        self.target = target;
        let lost: Option<String> = match lost_target {
            Some(name) => Some(name),
            None => lost_source,
        };
        match lost {
            Some(name) => {
                let mut s: String = name;
                s.append(" was disconnected.");
                Some(s)
            },
            None => None,
        }
    }

    /// Remembers a drive that was picked.
    pub fn pick_drive(&mut self, list: &[Drive], key: &str, for_source: bool) -> (r: bool)
        ensures
            r == (at_path(described(list@), key@) is Some),
            final(self)@ == (match at_path(described(list@), key@) {
                Some(d) => if for_source {
                    Picked { source: Some(d), ..old(self)@ }
                } else {
                    Picked { target: Some(d), ..old(self)@ }
                },
                None => old(self)@,
            }),
    {
        match find_drive(list, key) {
            Some(i) => {
                let d: Drive = copy_drive(&list[i]);
                if for_source {
                    self.source = Some(d);
                } else {
                    self.target = Some(d);
                }
                true
            },
            None => false,
        }
    }

    /// One drive checked again: the sides that remember it go on with what it holds now, or
    /// let go of it.
    fn set_path(&mut self, path: &str, fresh: &Result<Drive, String>)
        ensures
            final(self)@ == put(
                old(self)@,
                path@,
                match *fresh {
                    Ok(d) => Some(d@),
                    Err(_) => None,
                },
            ),
    {
        let in_source: bool = match &self.source {
            Some(d) => same(d.path.as_str(), path),
            None => false,
        };
        if in_source {
            self.source = match fresh {
                Ok(d) => Some(copy_drive(d)),
                Err(_) => None,
            };
        }
        let in_target: bool = match &self.target {
            Some(d) => same(d.path.as_str(), path),
            None => false,
        };
        if in_target {
            self.target = match fresh {
                Ok(d) => Some(copy_drive(d)),
                Err(_) => None,
            };
        }
    }

    /// Start, continued with a fresh list of drives: goes on with what the chosen drives hold
    /// now, since a partition mounted (or a volume given a letter) since then must be unmounted
    /// (locked) too. What to say instead of starting, if one isn't the same any more.
    pub fn rechecked(&mut self, chosen: &[Drive], list: &[Drive]) -> (r: Option<String>)
        ensures
            (final(self)@, match r {
                Some(s) => Some(s@),
                None => None,
            }) == rechecked_of(old(self)@, described(chosen@), described(list@)),
    {
        let ghost all = described(chosen@);
        let ghost start = self@;
        let mut i: usize = 0;
        proof {
            assert(all.skip(0) =~= all);
        }
        while i < chosen.len()
            invariant
                i <= chosen@.len(),
                all == described(chosen@),
                start == old(self)@,
                rechecked_of(start, all, described(list@)) == rechecked_of(
                    self@,
                    all.skip(i as int),
                    described(list@),
                ),
            decreases chosen@.len() - i,
        {
            proof {
                assert(all.skip(i as int)[0] == chosen@[i as int]@);
                assert(all.skip(i as int).skip(1) =~= all.skip(i + 1));
            }
            let fresh: Result<Drive, String> = recheck(&chosen[i], list);
            self.set_path(chosen[i].path.as_str(), &fresh);
            if let Err(e) = fresh {
                return Some(e);
            }
            i = i + 1;
        }
        None
    }
}

pub open spec fn put(p: Picked, path: Seq<char>, fresh: Option<Described>) -> Picked {
    Picked {
        source: if p.source matches Some(d) && d.path == path {
            fresh
        } else {
            p.source
        },
        target: if p.target matches Some(d) && d.path == path {
            fresh
        } else {
            p.target
        },
    }
}

pub open spec fn rechecked_of(p: Picked, chosen: Seq<Described>, list: Seq<Described>) -> (Picked, Option<Seq<char>>)
    decreases chosen.len(),
{
    if chosen.len() == 0 {
        (p, None)
    } else {
        match recheck_of(chosen[0], list) {
            Ok(d) => rechecked_of(put(p, chosen[0].path, Some(d)), chosen.skip(1), list),
            Err(e) => (put(p, chosen[0].path, None), Some(e)),
        }
    }
}

proof fn lemma_at_path(list: Seq<Described>, path: Seq<char>)
    ensures
        at_path(list, path) matches Some(d) ==> d.path == path && list.contains(d),
    decreases list.len(),
{
    if list.len() > 0 && list[0].path != path {
        lemma_at_path(list.skip(1), path);
        if let Some(d) = at_path(list, path) {
            let k = choose|k: int| 0 <= k < list.skip(1).len() && list.skip(1)[k] == d;
            assert(list[k + 1] == d);
        }
    } else if list.len() > 0 {
        assert(list[0].path == path);
        assert(list.contains(list[0]));
    }
}

/// A copy only starts when every chosen drive is plugged in, at its path, with the size and the
/// name it had when it was picked.
pub proof fn law_swapped_drives_stop_a_start(p: Picked, chosen: Seq<Described>, list: Seq<Described>)
    requires
        rechecked_of(p, chosen, list).1 is None,
    ensures
        forall|i: int|
            0 <= i < chosen.len() ==> exists|d: Described|
                #[trigger] list.contains(d) && d.path == (#[trigger] chosen[i]).path && d.size == chosen[i].size
                    && d.name == chosen[i].name,
    decreases chosen.len(),
{
    if chosen.len() > 0 {
        let d = recheck_of(chosen[0], list)->Ok_0;
        lemma_at_path(list, chosen[0].path);
        assert(list.contains(d));
        law_swapped_drives_stop_a_start(put(p, chosen[0].path, Some(d)), chosen.skip(1), list);
        assert forall|i: int| 0 <= i < chosen.len() implies exists|d: Described|
            #[trigger] list.contains(d) && d.path == (#[trigger] chosen[i]).path && d.size == chosen[i].size && d.name
                == chosen[i].name by {
            if i > 0 {
                assert(chosen.skip(1)[i - 1] == chosen[i]);
            }
        }
    }
}

/// The drives among a source and a target, in that order.
pub open spec fn chosen_of(source: Source, target: Target) -> Seq<Described> {
    (match source {
        Source::Drive(d) => seq![d@],
        _ => Seq::empty(),
    }) + (match target {
        Target::Drive(d) => seq![d@],
        _ => Seq::empty(),
    })
}

pub fn chosen_drives(source: &Source, target: &Target) -> (r: Vec<Drive>)
    ensures
        described(r@) == chosen_of(*source, *target),
{
    let mut r: Vec<Drive> = Vec::new();
    if let Source::Drive(d) = source {
        r.push(copy_drive(d));
    }
    if let Target::Drive(d) = target {
        r.push(copy_drive(d));
    }
    assert(described(r@) =~= chosen_of(*source, *target));
    r
}

/// Are these still the drives that were chosen when Start was clicked?
pub fn same_choice(now: &[Drive], before: &[Drive]) -> (r: bool)
    ensures
        r == (now@.len() == before@.len() && forall|i: int|
            0 <= i < now@.len() ==> (#[trigger] now@[i]).path@ == before@[i].path@),
{
    if now.len() != before.len() {
        return false;
    }
    let mut i: usize = 0;
    while i < now.len()
        invariant
            i <= now@.len(),
            now@.len() == before@.len(),
            forall|k: int| 0 <= k < i ==> (#[trigger] now@[k]).path@ == before@[k].path@,
        decreases now@.len() - i,
    {
        if !same(now[i].path.as_str(), before[i].path.as_str()) {
            assert(now@[i as int].path@ != before@[i as int].path@);
            return false;
        }
        i = i + 1;
    }
    true
}

} // verus!
