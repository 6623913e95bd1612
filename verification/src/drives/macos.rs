//! macOS: what diskutil lists.

use vstd::prelude::*;
use vstd::string::*;
use crate::drives::linux::or_empty;
use crate::drives::{described, said, text, tidied, tidy, Described, Drive, DriveKind};
use crate::text::{chars, same, strip_suffixes, string, suffixes_stripped, texts};
use crate::properties::{
    kept, kept_list, kept_of, kept_some, law_members_are_kept, lemma_kept_list, plist_in, property_list, NESTING,
};
use crate::values::{lemma_parts, values, Node, Tree};

verus! {

broadcast use lemma_parts;

/// A whole number.
pub open spec fn whole(v: Option<Tree>) -> Option<u64> {
    match v {
        Some(Tree::Number(n)) => n,
        _ => None,
    }
}

fn number(v: &Node, key: &str) -> (r: Option<u64>)
    ensures
        r == whole(v@.member(key@)),
{
    match v.get(key) {
        Some(Node::Number(n)) => *n,
        _ => None,
    }
}

/// A yes or no.
pub open spec fn yes_no(v: Option<Tree>) -> Option<bool> {
    match v {
        Some(Tree::Bool(b)) => Some(b),
        _ => None,
    }
}

fn boolean(v: &Node, key: &str) -> (r: Option<bool>)
    ensures
        r == yes_no(v@.member(key@)),
{
    match v.get(key) {
        Some(Node::Bool(b)) => Some(*b),
        _ => None,
    }
}

fn is_yes(v: &Node, key: &str) -> (r: bool)
    ensures
        r == (yes_no(v@.member(key@)) == Some(true)),
{
    match boolean(v, key) {
        Some(b) => b,
        None => false,
    }
}

/// The size of a disk: what is known of it, else what the list says.
pub open spec fn size_of(disk: Tree, info: Tree) -> Option<u64> {
    if whole(info.member("TotalSize"@)) is Some {
        whole(info.member("TotalSize"@))
    } else if whole(info.member("Size"@)) is Some {
        whole(info.member("Size"@))
    } else {
        whole(disk.member("Size"@))
    }
}

/// What kind of drive it is, and its bus.
pub open spec fn kind_of(bus: Seq<char>, virtual_disk: bool, solid: bool) -> (DriveKind, Seq<char>) {
    if virtual_disk {
        (DriveKind::Virtual, "Virtual"@)
    } else if bus == "USB"@ {
        (DriveKind::Usb, bus)
    } else if bus == "Secure Digital"@ || bus == "SD"@ {
        (DriveKind::Sd, "SD"@)
    } else if bus == "PCI-Express"@ || bus == "PCI"@ || bus == "NVMe"@ || bus == "Apple Fabric"@ || solid {
        (DriveKind::Ssd, bus)
    } else {
        (DriveKind::Hdd, bus)
    }
}

fn kind(bus: String, virtual_disk: bool, solid: bool) -> (r: (DriveKind, String))
    ensures
        (r.0, r.1@) == kind_of(bus@, virtual_disk, solid),
{
    let b: &str = bus.as_str();
    if virtual_disk {
        (DriveKind::Virtual, "Virtual".to_owned())
    } else if same(b, "USB") {
        (DriveKind::Usb, bus)
    } else if same(b, "Secure Digital") || same(b, "SD") {
        (DriveKind::Sd, "SD".to_owned())
    } else if same(b, "PCI-Express") || same(b, "PCI") || same(b, "NVMe") || same(b, "Apple Fabric") || solid {
        (DriveKind::Ssd, bus)
    } else {
        (DriveKind::Hdd, bus)
    }
}

/// A disk and its partitions.
pub open spec fn parts_of(disk: Tree) -> Seq<Tree> {
    match disk.member("Partitions"@) {
        Some(Tree::List(list)) => seq![disk] + list,
        _ => seq![disk],
    }
}

/// Where they are mounted.
pub open spec fn mounts_of(parts: Seq<Tree>) -> Seq<Seq<char>>
    decreases parts.len(),
{
    if parts.len() == 0 {
        Seq::empty()
    } else {
        match said(parts.last().member("MountPoint"@)) {
            Some(m) => mounts_of(parts.drop_last()).push(m),
            None => mounts_of(parts.drop_last()),
        }
    }
}

/// The volumes on them: their names, and what they hold.
pub open spec fn volumes_of(parts: Seq<Tree>) -> Seq<Seq<char>>
    decreases parts.len(),
{
    if parts.len() == 0 {
        Seq::empty()
    } else {
        let before = volumes_of(parts.drop_last());
        let content = or_empty(said(parts.last().member("Content"@)));
        match said(parts.last().member("VolumeName"@)) {
            Some(name) => before.push(
                if content.len() > 0 {
                    name + " ("@ + content + ")"@
                } else {
                    name
                },
            ),
            None => before,
        }
    }
}

fn collect(part: &Node, mounts: &mut Vec<String>, volumes: &mut Vec<String>)
    ensures
        texts(final(mounts)@) == (match said(part@.member("MountPoint"@)) {
            Some(m) => texts(old(mounts)@).push(m),
            None => texts(old(mounts)@),
        }),
        texts(final(volumes)@) == (match said(part@.member("VolumeName"@)) {
            Some(name) => texts(old(volumes)@).push({
                let content = or_empty(said(part@.member("Content"@)));
                if content.len() > 0 {
                    name + " ("@ + content + ")"@
                } else {
                    name
                }
            }),
            None => texts(old(volumes)@),
        }),
{
    if let Some(m) = text(part, "MountPoint") {
        mounts.push(m);
        proof {
            assert(texts(mounts@) =~= texts(old(mounts)@).push(said(part@.member("MountPoint"@))->0));
        }
    }
    let content: Option<String> = text(part, "Content");
    if let Some(name) = text(part, "VolumeName") {
        let mut s: String = name;
        if let Some(c) = content {
            s.append(" (");
            s.append(c.as_str());
            s.append(")");
        }
        let ghost made = s@;
        volumes.push(s);
        proof {
            assert(texts(volumes@) =~= texts(old(volumes)@).push(made));
        }
    }
}

/// What a disk is called: without the word "Media" that the system puts behind it.
pub open spec fn name_of(info: Tree, id: Seq<char>) -> Seq<char> {
    let name = if said(info.member("MediaName"@)) is Some {
        said(info.member("MediaName"@))
    } else {
        said(info.member("IORegistryEntryName"@))
    };
    match name {
        None => id,
        Some(n) => if tidied(strip_suffixes(n, " Media"@)).len() > 0 {
            tidied(strip_suffixes(n, " Media"@))
        } else {
            id
        },
    }
}

fn name(info: &Node, id: &str) -> (s: String)
    ensures
        s@ == name_of(info@, id@),
{
    let found: Option<String> = match text(info, "MediaName") {
        Some(n) => Some(n),
        None => text(info, "IORegistryEntryName"),
    };
    match found {
        None => id.to_owned(),
        Some(n) => {
            let v: Vec<char> = chars(n.as_str());
            let w: Vec<char> = suffixes_stripped(&v, " Media");
            let t: String = tidy(string(&w).as_str());
            if chars(t.as_str()).len() > 0 {
                t
            } else {
                id.to_owned()
            }
        },
    }
}

/// A listed disk as a drive, with what is known of it (None if the system would not say).
pub open spec fn drive_of(disk: Tree, info: Option<Tree>) -> Option<Described> {
    match (said(disk.member("DeviceIdentifier"@)), info) {
        (Some(id), Some(info)) => match (info, size_of(disk, info)) {
            (Tree::Table(_), Some(size)) => if size == 0 {
                None
            } else {
                let bus = or_empty(said(info.member("BusProtocol"@)));
                let virtual_disk = said(info.member("VirtualOrPhysical"@)) == Some("Virtual"@) || bus
                    == "Disk Image"@;
                let (kind, bus) = kind_of(bus, virtual_disk, yes_no(info.member("SolidState"@)) == Some(true));
                let internal = yes_no(info.member("Internal"@)) == Some(true);
                let mounts = mounts_of(parts_of(disk));
                Some(
                    Described {
                        path: "/dev/"@ + id,
                        // The raw device skips the buffer cache and is many times faster.
                        io_path: "/dev/r"@ + id,
                        name: name_of(info, id),
                        size,
                        bus,
                        kind,
                        removable: !internal || yes_no(info.member("RemovableMedia"@)) == Some(true) || yes_no(
                            info.member("Ejectable"@),
                        ) == Some(true),
                        // Internal disks hold macOS on nearly every Mac; they are off-limits.
                        system: internal || exists|i: int| 0 <= i < mounts.len() && #[trigger] mounts[i] == "/"@,
                        read_only: yes_no(info.member("WritableMedia"@)) == Some(false),
                        mountpoints: mounts,
                        volumes: volumes_of(parts_of(disk)),
                        unmount: seq!["/dev/"@ + id],
                        lock: Seq::empty(),
                    },
                )
            },
            _ => None,
        },
        _ => None,
    }
}

fn any_root(mounts: &Vec<String>) -> (r: bool)
    ensures
        r == exists|i: int| 0 <= i < mounts@.len() && #[trigger] texts(mounts@)[i] == "/"@,
{
    let mut i: usize = 0;
    while i < mounts.len()
        invariant
            i <= mounts@.len(),
            forall|k: int| 0 <= k < i ==> #[trigger] texts(mounts@)[k] != "/"@,
        decreases mounts@.len() - i,
    {
        assert(texts(mounts@)[i as int] == mounts@[i as int]@);
        if same(mounts[i].as_str(), "/") {
            return true;
        }
        i = i + 1;
    }
    false
}

fn collected(disk: &Node) -> (r: (Vec<String>, Vec<String>))
    ensures
        texts(r.0@) == mounts_of(parts_of(disk@)),
        texts(r.1@) == volumes_of(parts_of(disk@)),
{
    let mut mounts: Vec<String> = Vec::new();
    let mut volumes: Vec<String> = Vec::new();
    let ghost parts = parts_of(disk@);
    proof {
        assert(texts(mounts@) =~= Seq::<Seq<char>>::empty());
        assert(texts(volumes@) =~= Seq::<Seq<char>>::empty());
        assert(parts.take(1).drop_last() =~= Seq::<Tree>::empty());
        assert(parts.take(1).last() == disk@);
        assert(mounts_of(Seq::empty()) =~= Seq::<Seq<char>>::empty());
        assert(volumes_of(Seq::empty()) =~= Seq::<Seq<char>>::empty());
    }
    collect(disk, &mut mounts, &mut volumes);
    proof {
        assert(texts(mounts@) == mounts_of(parts.take(1)));
        assert(texts(volumes@) == volumes_of(parts.take(1)));
    }
    if let Some(Node::List(list)) = disk.get("Partitions") {
        let mut i: usize = 0;
        while i < list.len()
            invariant
                i <= list@.len(),
                parts == seq![disk@] + values(list@),
                texts(mounts@) == mounts_of(parts.take(1 + i)),
                texts(volumes@) == volumes_of(parts.take(1 + i)),
            decreases list@.len() - i,
        {
            proof {
                assert(parts.take(2 + i).drop_last() =~= parts.take(1 + i));
                assert(parts.take(2 + i).last() == list@[i as int]@);
            }
            collect(&list[i], &mut mounts, &mut volumes);
            i = i + 1;
        }
    }
    proof {
        assert(parts.take(parts.len() as int) =~= parts);
    }
    (mounts, volumes)
}

/// What is known of a disk.
pub open spec fn told(info: Option<&Node>) -> Option<Tree> {
    match info {
        Some(i) => Some(i@),
        None => None,
    }
}

/// What is known of each disk.
pub open spec fn all_told(infos: Seq<Option<Node>>) -> Seq<Option<Tree>> {
    infos.map_values(
        |i: Option<Node>|
            match i {
                Some(v) => Some(v@),
                None => None,
            },
    )
}

/// A listed disk as a drive, with what is known of it (None if the system would not say).
pub fn drive(disk: &Node, info: Option<&Node>) -> (r: Option<Drive>)
    ensures
        match r {
            Some(d) => drive_of(disk@, told(info)) == Some(d@),
            None => drive_of(disk@, told(info)) is None,
        },
{
    let id: String = match text(disk, "DeviceIdentifier") {
        Some(id) => id,
        None => {
            return None;
        },
    };
    let info: &Node = match info {
        Some(Node::Table(t)) => info.unwrap(),
        _ => {
            return None;
        },
    };
    let size: u64 = match number(info, "TotalSize") {
        Some(n) => n,
        None => match number(info, "Size") {
            Some(n) => n,
            None => match number(disk, "Size") {
                Some(n) => n,
                None => {
                    return None;
                },
            },
        },
    };
    if size == 0 {
        return None;
    }
    let internal: bool = is_yes(info, "Internal");
    let bus: String = match text(info, "BusProtocol") {
        Some(b) => b,
        None => {
            let s: String = String::new();
            assert(s@ =~= Seq::<char>::empty());
            s
        },
    };
    let named_virtual: bool = match text(info, "VirtualOrPhysical") {
        Some(v) => same(v.as_str(), "Virtual"),
        None => false,
    };
    let virtual_disk: bool = named_virtual || same(bus.as_str(), "Disk Image");
    let (kind, bus) = kind(bus, virtual_disk, is_yes(info, "SolidState"));
    let (mountpoints, volumes) = collected(disk);
    let name: String = name(info, id.as_str());
    let mut path: String = "/dev/".to_owned();
    path.append(id.as_str());
    let mut io_path: String = "/dev/r".to_owned();
    io_path.append(id.as_str());
    let mut whole: String = "/dev/".to_owned();
    whole.append(id.as_str());
    let ghost whole_disk = whole@;
    let mut unmount: Vec<String> = Vec::new();
    unmount.push(whole);
    let lock: Vec<String> = Vec::new();
    let writable: Option<bool> = boolean(info, "WritableMedia");
    let d: Drive = Drive {
        path,
        io_path,
        name,
        size,
        bus,
        kind,
        removable: !internal || is_yes(info, "RemovableMedia") || is_yes(info, "Ejectable"),
        system: internal || any_root(&mountpoints),
        read_only: match writable {
            Some(b) => !b,
            None => false,
        },
        mountpoints,
        volumes,
        unmount,
        lock,
    };
    proof {
        assert(texts(lock@) =~= Seq::<Seq<char>>::empty());
        assert(texts(unmount@) =~= seq![whole_disk]);
    }
    Some(d)
}

/// The disks that diskutil listed.
pub open spec fn disks_of(listing: Tree) -> Seq<Tree> {
    match listing.member("AllDisksAndPartitions"@) {
        Some(Tree::List(list)) => list,
        _ => Seq::empty(),
    }
}

/// The identifiers of the disks that diskutil listed, in order (None where there is none).
pub open spec fn ids_of(disks: Seq<Tree>) -> Seq<Option<Seq<char>>> {
    disks.map_values(|d: Tree| said(d.member("DeviceIdentifier"@)))
}

/// The drives among disks, with what is known of each.
pub open spec fn drives_in(disks: Seq<Tree>, infos: Seq<Option<Tree>>) -> Seq<Described>
    decreases disks.len(),
{
    if disks.len() == 0 || infos.len() < disks.len() {
        Seq::empty()
    } else {
        let before = drives_in(disks.drop_last(), infos);
        match drive_of(disks.last(), infos[disks.len() - 1]) {
            Some(d) => before.push(d),
            None => before,
        }
    }
}

/// The disks to ask diskutil about: the identifiers in its list.
pub fn ids(listing: &Node) -> (r: Vec<Option<String>>)
    ensures
        r@.len() == disks_of(listing@).len(),
        forall|i: int|
            0 <= i < r@.len() ==> match #[trigger] r@[i] {
                Some(s) => ids_of(disks_of(listing@))[i] == Some(s@),
                None => ids_of(disks_of(listing@))[i] is None,
            },
{
    let mut r: Vec<Option<String>> = Vec::new();
    if let Some(Node::List(list)) = listing.get("AllDisksAndPartitions") {
        let mut i: usize = 0;
        while i < list.len()
            invariant
                i <= list@.len(),
                values(list@) == disks_of(listing@),
                r@.len() == i,
                forall|k: int|
                    0 <= k < i ==> match #[trigger] r@[k] {
                        Some(s) => ids_of(disks_of(listing@))[k] == Some(s@),
                        None => ids_of(disks_of(listing@))[k] is None,
                    },
            decreases list@.len() - i,
        {
            r.push(text(&list[i], "DeviceIdentifier"));
            i = i + 1;
        }
    }
    r
}

/// The drives in diskutil's list; `infos` is what it said of each disk in it, None where it
/// would not say.
pub fn list(listing: &Node, infos: &Vec<Option<Node>>) -> (r: Vec<Drive>)
    requires
        infos@.len() == disks_of(listing@).len(),
    ensures
        described(r@) == drives_in(disks_of(listing@), all_told(infos@)),
{
    let mut r: Vec<Drive> = Vec::new();
    proof {
        assert(described(r@) =~= Seq::<Described>::empty());
    }
    if let Some(Node::List(list)) = listing.get("AllDisksAndPartitions") {
        let mut i: usize = 0;
        proof {
            assert(values(list@).take(0) =~= Seq::<Tree>::empty());
        }
        while i < list.len()
            invariant
                i <= list@.len(),
                infos@.len() == list@.len(),
                described(r@) == drives_in(values(list@).take(i as int), all_told(infos@)),
            decreases list@.len() - i,
        {
            proof {
                assert(values(list@).take(i + 1).drop_last() =~= values(list@).take(i as int));
                assert(values(list@).take(i + 1).last() == list@[i as int]@);
            }
            let ghost before = r@;
            let info: Option<&Node> = match &infos[i] {
                Some(n) => Some(n),
                None => None,
            };
            match drive(&list[i], info) {
                Some(d) => {
                    r.push(d);
                    proof {
                        assert(described(r@) =~= described(before).push(
                            drive_of(list@[i as int]@, all_told(infos@)[i as int])->0,
                        ));
                    }
                },
                None => {},
            }
            i = i + 1;
        }
        proof {
            assert(values(list@).take(list@.len() as int) =~= values(list@));
        }
    }
    r
}

/// What diskutil printed: a property list.
pub fn printed(bytes: &[u8]) -> (r: Result<Node, String>)
    ensures
        match (r, kept_of(plist_in(bytes@))) {
            (Ok(v), Ok(n)) => v@ == n,
            (Err(e), Err(why)) => e@ == "couldn't read diskutil output: "@ + why,
            _ => false,
        },
{
    match property_list(bytes) {
        Ok(v) => Ok(v),
        Err(e) => {
            let mut s: String = "couldn't read diskutil output: ".to_owned();
            s.append(e.as_str());
            Err(s)
        },
    }
}

/// What the system said of disks, as far as that is kept.
pub open spec fn kept_infos(infos: Seq<Option<Tree>>) -> Seq<Option<Tree>> {
    infos.map_values(|v: Option<Tree>| kept_some(v, NESTING as nat))
}

/// What is said of a disk or a partition is kept.
proof fn lemma_kept_words(v: Tree, key: Seq<char>, depth: nat)
    ensures
        said(kept(v, depth + 1).member(key)) == said(v.member(key)),
        whole(kept(v, depth + 1).member(key)) == whole(v.member(key)),
        yes_no(kept(v, depth + 1).member(key)) == yes_no(v.member(key)),
{
    law_members_are_kept(v, key, depth);
}

proof fn lemma_kept_mounts(parts: Seq<Tree>, depth: nat)
    ensures
        mounts_of(kept_list(parts, depth + 1)) == mounts_of(parts),
        volumes_of(kept_list(parts, depth + 1)) == volumes_of(parts),
    decreases parts.len(),
{
    if parts.len() > 0 {
        let k = kept_list(parts, depth + 1);
        assert(k.drop_last() =~= kept_list(parts.drop_last(), depth + 1));
        assert(k.last() == kept(parts.last(), depth + 1));
        lemma_kept_mounts(parts.drop_last(), depth);
        lemma_kept_words(parts.last(), "MountPoint"@, depth);
        lemma_kept_words(parts.last(), "Content"@, depth);
        lemma_kept_words(parts.last(), "VolumeName"@, depth);
    }
}

proof fn lemma_mounts_concat(a: Tree, list: Seq<Tree>, b: Tree, other: Seq<Tree>)
    requires
        mounts_of(list) == mounts_of(other),
        volumes_of(list) == volumes_of(other),
        said(a.member("MountPoint"@)) == said(b.member("MountPoint"@)),
        said(a.member("Content"@)) == said(b.member("Content"@)),
        said(a.member("VolumeName"@)) == said(b.member("VolumeName"@)),
    ensures
        mounts_of(seq![a] + list) == mounts_of(seq![b] + other),
        volumes_of(seq![a] + list) == volumes_of(seq![b] + other),
{
    lemma_mounts_first(a, list);
    lemma_mounts_first(b, other);
    lemma_mounts_one(a, b);
}

proof fn lemma_mounts_one(a: Tree, b: Tree)
    requires
        said(a.member("MountPoint"@)) == said(b.member("MountPoint"@)),
        said(a.member("Content"@)) == said(b.member("Content"@)),
        said(a.member("VolumeName"@)) == said(b.member("VolumeName"@)),
    ensures
        mounts_of(seq![a]) == mounts_of(seq![b]),
        volumes_of(seq![a]) == volumes_of(seq![b]),
{
    assert(seq![a].drop_last() =~= seq![b].drop_last());
}

proof fn lemma_mounts_first(a: Tree, list: Seq<Tree>)
    ensures
        mounts_of(seq![a] + list) == mounts_of(seq![a]) + mounts_of(list),
        volumes_of(seq![a] + list) == volumes_of(seq![a]) + volumes_of(list),
    decreases list.len(),
{
    if list.len() == 0 {
        assert(seq![a] + list =~= seq![a]);
        assert(mounts_of(seq![a]) + mounts_of(list) =~= mounts_of(seq![a]));
        assert(volumes_of(seq![a]) + volumes_of(list) =~= volumes_of(seq![a]));
    } else {
        lemma_mounts_first(a, list.drop_last());
        assert((seq![a] + list).drop_last() =~= seq![a] + list.drop_last());
        assert(mounts_of(seq![a] + list) =~= mounts_of(seq![a]) + mounts_of(list));
        assert(volumes_of(seq![a] + list) =~= volumes_of(seq![a]) + volumes_of(list));
    }
}

proof fn lemma_kept_drive(disk: Tree, info: Option<Tree>)
    ensures
        drive_of(kept(disk, (NESTING - 2) as nat), kept_some(info, NESTING as nat)) == drive_of(disk, info),
{
    let d = (NESTING - 3) as nat;
    let k = kept(disk, d + 1);
    lemma_kept_words(disk, "DeviceIdentifier"@, d);
    lemma_kept_words(disk, "Size"@, d);
    lemma_kept_words(disk, "MountPoint"@, d);
    lemma_kept_words(disk, "Content"@, d);
    lemma_kept_words(disk, "VolumeName"@, d);
    law_members_are_kept(disk, "Partitions"@, d);
    assert(mounts_of(parts_of(k)) == mounts_of(parts_of(disk)) && volumes_of(parts_of(k)) == volumes_of(
        parts_of(disk),
    )) by {
        match disk.member("Partitions"@) {
            Some(Tree::List(list)) => {
                lemma_kept_list(list, (d - 1) as nat);
                lemma_kept_mounts(list, (d - 2) as nat);
                lemma_mounts_concat(k, kept_list(list, (d - 1) as nat), disk, list);
            },
            _ => {
                lemma_mounts_one(k, disk);
            },
        }
    }
    if let Some(i) = info {
        let n = (NESTING - 1) as nat;
        lemma_kept_words(i, "TotalSize"@, n);
        lemma_kept_words(i, "Size"@, n);
        lemma_kept_words(i, "BusProtocol"@, n);
        lemma_kept_words(i, "VirtualOrPhysical"@, n);
        lemma_kept_words(i, "SolidState"@, n);
        lemma_kept_words(i, "Internal"@, n);
        lemma_kept_words(i, "RemovableMedia"@, n);
        lemma_kept_words(i, "Ejectable"@, n);
        lemma_kept_words(i, "WritableMedia"@, n);
        lemma_kept_words(i, "MediaName"@, n);
        lemma_kept_words(i, "IORegistryEntryName"@, n);
    }
}

proof fn lemma_kept_drives(disks: Seq<Tree>, infos: Seq<Option<Tree>>)
    requires
        disks.len() <= infos.len(),
    ensures
        drives_in(kept_list(disks, (NESTING - 2) as nat), kept_infos(infos)) == drives_in(disks, infos),
    decreases disks.len(),
{
    if disks.len() > 0 {
        let k = kept_list(disks, (NESTING - 2) as nat);
        assert(k.drop_last() =~= kept_list(disks.drop_last(), (NESTING - 2) as nat));
        lemma_kept_drives(disks.drop_last(), infos);
        lemma_kept_drive(disks.last(), infos[disks.len() - 1]);
    }
}

/// How deep property lists are kept makes no difference to the drives in them.
pub proof fn law_depth_makes_no_difference(listing: Tree, infos: Seq<Option<Tree>>)
    requires
        disks_of(listing).len() <= infos.len(),
    ensures
        drives_in(disks_of(kept(listing, NESTING as nat)), kept_infos(infos)) == drives_in(disks_of(listing), infos),
        ids_of(disks_of(kept(listing, NESTING as nat))) == ids_of(disks_of(listing)),
{
    let n = (NESTING - 1) as nat;
    law_members_are_kept(listing, "AllDisksAndPartitions"@, n);
    let disks = disks_of(listing);
    let k = disks_of(kept(listing, NESTING as nat));
    if let Some(Tree::List(list)) = listing.member("AllDisksAndPartitions"@) {
        lemma_kept_list(list, (n - 1) as nat);
        assert(k == kept_list(list, (n - 1) as nat));
        lemma_kept_drives(list, infos);
    }
    assert forall|i: int| 0 <= i < disks.len() implies ids_of(k)[i] == ids_of(disks)[i] by {
        lemma_kept_words(disks[i], "DeviceIdentifier"@, (n - 2) as nat);
    }
    assert(ids_of(k) =~= ids_of(disks));
}

/// Is that the disk, or one of its partitions?
pub open spec fn is_on(part: Tree, disk: Tree) -> bool {
    part == disk || (disk.member("Partitions"@) matches Some(Tree::List(list)) && list.contains(part))
}

proof fn lemma_pushed<T>(s: Seq<T>, a: T, x: T)
    ensures
        s.push(a).contains(x) <==> s.contains(x) || a == x,
{
    if s.contains(x) {
        let k = s.index_of(x);
        assert(s.push(a)[k] == x);
    }
    assert(s.push(a)[s.len() as int] == a);
    if s.push(a).contains(x) && a != x {
        let k = s.push(a).index_of(x);
        assert(s[k] == x);
    }
}

proof fn lemma_part(disk: Tree, part: Tree)
    ensures
        is_on(part, disk) <==> parts_of(disk).contains(part),
{
    let parts = parts_of(disk);
    assert(parts[0] == disk);
    if let Some(Tree::List(list)) = disk.member("Partitions"@) {
        if list.contains(part) {
            assert(parts[list.index_of(part) + 1] == part);
        }
        if parts.contains(part) && part != disk {
            assert(list[parts.index_of(part) - 1] == part);
        }
    }
}

proof fn lemma_mounts(parts: Seq<Tree>, m: Seq<char>)
    ensures
        mounts_of(parts).contains(m) <==> exists|p: Tree| #[trigger]
            parts.contains(p) && said(p.member("MountPoint"@)) == Some(m),
    decreases parts.len(),
{
    if parts.len() > 0 {
        let rest = parts.drop_last();
        lemma_mounts(rest, m);
        assert(parts =~= rest.push(parts.last()));
        assert forall|p: Tree| #[trigger] parts.contains(p) <==> rest.contains(p) || p == parts.last() by {
            lemma_pushed(rest, parts.last(), p);
        }
        if let Some(x) = said(parts.last().member("MountPoint"@)) {
            lemma_pushed(mounts_of(rest), x, m);
        }
        if mounts_of(rest).contains(m) {
            let p = choose|p: Tree| #[trigger] rest.contains(p) && said(p.member("MountPoint"@)) == Some(m);
            assert(parts.contains(p));
        }
        assert(parts.contains(parts.last()));
    }
}

proof fn lemma_volumes(parts: Seq<Tree>, p: Tree)
    requires
        parts.contains(p),
        said(p.member("VolumeName"@)) is Some,
    ensures
        volumes_of(parts).contains(match said(p.member("Content"@)) {
            Some(c) => said(p.member("VolumeName"@))->0 + " ("@ + c + ")"@,
            None => said(p.member("VolumeName"@))->0,
        }),
    decreases parts.len(),
{
    let rest = parts.drop_last();
    assert(parts =~= rest.push(parts.last()));
    lemma_pushed(rest, parts.last(), p);
    let v = match said(p.member("Content"@)) {
        Some(c) => said(p.member("VolumeName"@))->0 + " ("@ + c + ")"@,
        None => said(p.member("VolumeName"@))->0,
    };
    if said(parts.last().member("VolumeName"@)) is Some {
        lemma_pushed(volumes_of(rest), volumes_of(parts).last(), v);
        assert(volumes_of(parts) =~= volumes_of(rest).push(volumes_of(parts).last()));
    }
    if p != parts.last() {
        lemma_volumes(rest, p);
    }
}

/// A drive's mount points are those of its disk and of the disk's partitions: none is missed,
/// and no other is among them.
pub proof fn law_no_mount_is_missed(disk: Tree, info: Option<Tree>, m: Seq<char>)
    ensures
        drive_of(disk, info) matches Some(d) ==> (d.mountpoints.contains(m) <==> exists|p: Tree| #[trigger]
            is_on(p, disk) && said(p.member("MountPoint"@)) == Some(m)),
{
    let parts = parts_of(disk);
    lemma_mounts(parts, m);
    assert forall|p: Tree| #[trigger] is_on(p, disk) <==> parts.contains(p) by {
        lemma_part(disk, p);
    }
    if mounts_of(parts).contains(m) {
        let p = choose|p: Tree| #[trigger] parts.contains(p) && said(p.member("MountPoint"@)) == Some(m);
        assert(is_on(p, disk));
    }
}

/// Every volume on a disk that has a name is among the drive's.
pub proof fn law_no_volume_is_missed(disk: Tree, info: Option<Tree>, p: Tree)
    requires
        is_on(p, disk),
        said(p.member("VolumeName"@)) is Some,
    ensures
        drive_of(disk, info) matches Some(d) ==> d.volumes.contains(match said(p.member("Content"@)) {
            Some(c) => said(p.member("VolumeName"@))->0 + " ("@ + c + ")"@,
            None => said(p.member("VolumeName"@))->0,
        }),
{
    lemma_part(disk, p);
    lemma_volumes(parts_of(disk), p);
}

/// A disk is off-limits exactly if it is internal or the system runs from it, can't be written
/// exactly if its media can't, and is the device that the system calls by its identifier.
pub proof fn law_disks_are_what_the_system_says(disk: Tree, info: Tree)
    ensures
        drive_of(disk, Some(info)) matches Some(d) ==> {
            &&& d.system <==> info.member("Internal"@) == Some(Tree::Bool(true)) || exists|p: Tree| #[trigger]
                is_on(p, disk) && said(p.member("MountPoint"@)) == Some("/"@)
            &&& d.read_only <==> info.member("WritableMedia"@) == Some(Tree::Bool(false))
            &&& d.removable <==> info.member("Internal"@) != Some(Tree::Bool(true)) || info.member("RemovableMedia"@)
                == Some(Tree::Bool(true)) || info.member("Ejectable"@) == Some(Tree::Bool(true))
            &&& said(disk.member("DeviceIdentifier"@)) matches Some(id) && d.path == "/dev/"@ + id && d.io_path
                == "/dev/r"@ + id
            &&& d.unmount.contains(d.path)
            &&& d.size > 0
            &&& info.member("TotalSize"@) matches Some(Tree::Number(Some(n))) ==> d.size == n
        },
{
    if let Some(d) = drive_of(disk, Some(info)) {
        law_no_mount_is_missed(disk, Some(info), "/"@);
        if d.mountpoints.contains("/"@) {
            let k = d.mountpoints.index_of("/"@);
            assert(d.mountpoints[k] == "/"@);
        }
        assert(d.unmount[0] == d.path);
    }
}

/// Every disk in the list is looked at, with what the system said of that disk.
pub proof fn law_every_disk_is_looked_at(disks: Seq<Tree>, infos: Seq<Option<Tree>>, d: Described)
    requires
        disks.len() <= infos.len(),
    ensures
        drives_in(disks, infos).contains(d) <==> exists|i: int|
            0 <= i < disks.len() && drive_of(#[trigger] disks[i], infos[i]) == Some(d),
    decreases disks.len(),
{
    if disks.len() > 0 {
        let rest = disks.drop_last();
        let last = disks.len() - 1;
        law_every_disk_is_looked_at(rest, infos, d);
        if let Some(x) = drive_of(disks.last(), infos[last]) {
            lemma_pushed(drives_in(rest, infos), x, d);
        }
        if drives_in(rest, infos).contains(d) {
            let i = choose|i: int| 0 <= i < rest.len() && drive_of(#[trigger] rest[i], infos[i]) == Some(d);
            assert(drive_of(disks[i], infos[i]) == Some(d));
        }
        assert(forall|i: int| 0 <= i < rest.len() ==> rest[i] == #[trigger] disks[i]);
        if exists|i: int| 0 <= i < disks.len() && drive_of(#[trigger] disks[i], infos[i]) == Some(d) {
            let i = choose|i: int| 0 <= i < disks.len() && drive_of(#[trigger] disks[i], infos[i]) == Some(d);
            if i < last {
                assert(drive_of(rest[i], infos[i]) == Some(d));
            }
        }
    }
}

} // verus!
