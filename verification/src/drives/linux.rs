//! Linux: what lsblk lists.

use vstd::prelude::*;
use vstd::string::*;
use crate::drives::{
    described, lemma_member_is_part, number, number_in, refs, said, text, tidied, tidy, Described, Drive,
    DriveKind,
};
use crate::text::{
    chars, is_text, lowercase, lowercased, same, starts, starts_with, texts, trim, trimmed,
};
use crate::values::{json, json_in, lemma_listed, lemma_parts, values, Node, Tree};

verus! {

broadcast use lemma_parts;

/// What lsblk is asked for.
pub const COLUMNS: &'static str =
    "NAME,PATH,TYPE,SIZE,TRAN,RM,HOTPLUG,RO,ROTA,MODEL,VENDOR,LABEL,PARTLABEL,FSTYPE";

/// Mounts that mean "this disk runs the system".
pub open spec fn is_system_mount(m: Seq<char>) -> bool {
    m == "/"@ || m == "/boot"@ || m == "/boot/efi"@ || m == "/efi"@ || m == "/usr"@ || m == "/var"@ || m
        == "/home"@ || m == "[SWAP]"@
}

fn system_mount(m: &str) -> (r: bool)
    ensures
        r == is_system_mount(m@),
{
    same(m, "/") || same(m, "/boot") || same(m, "/boot/efi") || same(m, "/efi") || same(m, "/usr") || same(
        m,
        "/var",
    ) || same(m, "/home") || same(m, "[SWAP]")
}

/// A flag: true, 1 or "1".
pub open spec fn set_in(v: Option<Tree>) -> bool {
    match v {
        Some(Tree::Bool(b)) => b,
        Some(Tree::Number(n)) => n == Some(1u64),
        Some(Tree::Text(s)) => trim(s) == "1"@,
        _ => false,
    }
}

fn set(v: &Node, key: &str) -> (r: bool)
    ensures
        r == set_in(v@.member(key@)),
{
    match v.get(key) {
        Some(Node::Bool(b)) => *b,
        Some(Node::Number(n)) => match *n {
            Some(n) => n == 1,
            None => false,
        },
        Some(Node::Text(s)) => {
            let c: Vec<char> = chars(s.as_str());
            let t: Vec<char> = trimmed(&c);
            is_text(&t, "1")
        },
        _ => false,
    }
}

/// A text that may be missing.
pub open spec fn or_empty(v: Option<Seq<char>>) -> Seq<char> {
    match v {
        Some(s) => s,
        None => Seq::empty(),
    }
}

fn text_or_empty(v: &Node, key: &str) -> (s: String)
    ensures
        s@ == or_empty(said(v@.member(key@))),
{
    match text(v, key) {
        Some(s) => s,
        None => {
            let s: String = String::new();
            assert(s@ =~= Seq::<char>::empty());
            s
        },
    }
}

/// Where a device is.
pub open spec fn path_of(v: Tree) -> Seq<char> {
    match said(v.member("path"@)) {
        Some(p) => p,
        None => "/dev/"@ + or_empty(said(v.member("name"@))),
    }
}

fn device_path(v: &Node) -> (s: String)
    ensures
        s@ == path_of(v@),
{
    match text(v, "path") {
        Some(p) => p,
        None => {
            let mut s: String = "/dev/".to_owned();
            let n: String = text_or_empty(v, "name");
            s.append(n.as_str());
            s
        },
    }
}

// The tree of a device: itself, its partitions, and what is on them.

/// A device and everything on it, each before what it holds.
pub open spec fn nodes_of(v: Tree) -> Seq<Tree>
    decreases v, 1int,
    via nodes_of_ends
{
    match v.member("children"@) {
        Some(Tree::List(list)) => seq![v] + nodes_in(list),
        _ => seq![v],
    }
}

#[via_fn]
proof fn nodes_of_ends(v: Tree) {
    lemma_member_is_part(v, "children"@);
    if let Some(Tree::List(list)) = v.member("children"@) {
        assert(decreases_to!(v => v.member("children"@)->0));
        assert(decreases_to!(Tree::List(list) => list));
        assert(decreases_to!(v => list));
    }
}

pub open spec fn nodes_in(list: Seq<Tree>) -> Seq<Tree>
    decreases list, 0int,
{
    if list.len() == 0 {
        Seq::empty()
    } else {
        nodes_in(list.drop_last()) + nodes_of(list.last())
    }
}

fn walk<'a>(v: &'a Node, out: &mut Vec<&'a Node>)
    ensures
        refs(final(out)@) == refs(old(out)@) + nodes_of(v@),
    decreases v,
{
    let ghost before = refs(out@);
    out.push(v);
    proof {
        assert(refs(out@) =~= before + seq![v@]);
    }
    if let Some(Node::List(list)) = v.get("children") {
        let mut i: usize = 0;
        proof {
            assert(values(list@).take(0) =~= Seq::<Tree>::empty());
            assert(before + seq![v@] + nodes_in(values(list@).take(0)) =~= before + seq![v@]);
        }
        while i < list.len()
            invariant
                i <= list@.len(),
                v@.member("children"@) == Some(Tree::List(values(list@))),
                decreases_to!(v => Node::List(*list)),
                refs(out@) == before + seq![v@] + nodes_in(values(list@).take(i as int)),
            decreases list@.len() - i,
        {
            proof {
                lemma_listed(*list, i as int);
                assert(values(list@).take(i + 1).drop_last() =~= values(list@).take(i as int));
                assert(values(list@).take(i + 1).last() == list@[i as int]@);
                let a = before + seq![v@];
                assert(a + nodes_in(values(list@).take(i as int)) + nodes_of(list@[i as int]@) =~= a + (nodes_in(
                    values(list@).take(i as int),
                ) + nodes_of(list@[i as int]@)));
            }
            walk(&list[i], out);
            i = i + 1;
        }
        proof {
            assert(values(list@).take(list@.len() as int) =~= values(list@));
            assert(before + seq![v@] + nodes_in(values(list@)) =~= before + (seq![v@] + nodes_in(values(list@))));
        }
    }
}

/// The texts in a list.
pub open spec fn texts_in(list: Seq<Tree>) -> Seq<Seq<char>>
    decreases list.len(),
{
    if list.len() == 0 {
        Seq::empty()
    } else {
        match list.last() {
            Tree::Text(s) => texts_in(list.drop_last()).push(s),
            _ => texts_in(list.drop_last()),
        }
    }
}

/// Where a device is mounted.
pub open spec fn mounts_of(v: Tree) -> Seq<Seq<char>> {
    match (v.member("mountpoints"@), v.member("mountpoint"@)) {
        (Some(Tree::List(list)), _) => texts_in(list),
        (_, Some(Tree::Text(m))) => seq![m],
        _ => Seq::empty(),
    }
}

pub fn mountpoints(v: &Node) -> (r: Vec<String>)
    ensures
        texts(r@) == mounts_of(v@),
{
    let mut r: Vec<String> = Vec::new();
    proof {
        assert(texts(r@) =~= Seq::<Seq<char>>::empty());
    }
    match (v.get("mountpoints"), v.get("mountpoint")) {
        (Some(Node::List(list)), _) => {
            let mut i: usize = 0;
            proof {
                assert(values(list@).take(0) =~= Seq::<Tree>::empty());
            }
            while i < list.len()
                invariant
                    i <= list@.len(),
                    texts(r@) == texts_in(values(list@).take(i as int)),
                decreases list@.len() - i,
            {
                proof {
                    assert(values(list@).take(i + 1).drop_last() =~= values(list@).take(i as int));
                    assert(values(list@).take(i + 1).last() == list@[i as int]@);
                }
                let ghost before = r@;
                match &list[i] {
                    Node::Text(s) => {
                        r.push(s.as_str().to_owned());
                        proof {
                            assert(texts(r@) =~= texts(before).push(s@));
                        }
                    },
                    _ => {},
                }
                i = i + 1;
            }
            proof {
                assert(values(list@).take(list@.len() as int) =~= values(list@));
            }
        },
        (_, Some(Node::Text(m))) => {
            r.push(m.as_str().to_owned());
            proof {
                assert(texts(r@) =~= seq![m@]);
            }
        },
        _ => {},
    }
    r
}

/// What is mounted of a device and all on it.
pub open spec fn all_mounts(nodes: Seq<Tree>) -> Seq<Seq<char>>
    decreases nodes.len(),
{
    if nodes.len() == 0 {
        Seq::empty()
    } else {
        all_mounts(nodes.drop_last()) + mounts_of(nodes.last())
    }
}

/// Those that are not swap space.
pub open spec fn not_swap(mounts: Seq<Seq<char>>) -> Seq<Seq<char>>
    decreases mounts.len(),
{
    if mounts.len() == 0 {
        Seq::empty()
    } else if mounts.last() == "[SWAP]"@ {
        not_swap(mounts.drop_last())
    } else {
        not_swap(mounts.drop_last()).push(mounts.last())
    }
}

/// What has to be unmounted: everything that is mounted somewhere.
pub open spec fn to_unmount(nodes: Seq<Tree>) -> Seq<Seq<char>>
    decreases nodes.len(),
{
    if nodes.len() == 0 {
        Seq::empty()
    } else if not_swap(mounts_of(nodes.last())).len() > 0 {
        to_unmount(nodes.drop_last()).push(path_of(nodes.last()))
    } else {
        to_unmount(nodes.drop_last())
    }
}

/// A volume in words: its label and file system.
pub open spec fn volume_of(v: Tree) -> Option<Seq<char>> {
    let label = if said(v.member("label"@)) is Some {
        said(v.member("label"@))
    } else {
        said(v.member("partlabel"@))
    };
    match said(v.member("fstype"@)) {
        None => None,
        Some(fs) => Some(
            match label {
                Some(l) => l + " ("@ + fs + ")"@,
                None => fs,
            },
        ),
    }
}

pub open spec fn all_volumes(nodes: Seq<Tree>) -> Seq<Seq<char>>
    decreases nodes.len(),
{
    if nodes.len() == 0 {
        Seq::empty()
    } else {
        match volume_of(nodes.last()) {
            Some(v) => all_volumes(nodes.drop_last()).push(v),
            None => all_volumes(nodes.drop_last()),
        }
    }
}

fn volume(v: &Node) -> (r: Option<String>)
    ensures
        match r {
            Some(s) => volume_of(v@) == Some(s@),
            None => volume_of(v@) is None,
        },
{
    let label: Option<String> = match text(v, "label") {
        Some(l) => Some(l),
        None => text(v, "partlabel"),
    };
    match text(v, "fstype") {
        None => None,
        Some(fs) => match label {
            Some(l) => {
                let mut s: String = l;
                s.append(" (");
                s.append(fs.as_str());
                s.append(")");
                Some(s)
            },
            None => Some(fs),
        },
    }
}

proof fn lemma_not_swap(mounts: Seq<Seq<char>>, n: int)
    requires
        0 <= n <= mounts.len(),
        forall|i: int| n <= i < mounts.len() ==> #[trigger] mounts[i] == "[SWAP]"@,
    ensures
        not_swap(mounts) == not_swap(mounts.take(n)),
    decreases mounts.len() - n,
{
    if n < mounts.len() {
        assert(mounts[mounts.len() - 1] == "[SWAP]"@);
        lemma_not_swap(mounts.drop_last(), n);
        assert(mounts.drop_last().take(n) =~= mounts.take(n));
    } else {
        assert(mounts.take(n) =~= mounts);
    }
}

/// Takes swap space out.
fn without_swap(mounts: Vec<String>) -> (r: Vec<String>)
    ensures
        texts(r@) == not_swap(texts(mounts@)),
{
    let mut r: Vec<String> = Vec::new();
    let mut i: usize = 0;
    let ghost all = texts(mounts@);
    proof {
        assert(texts(r@) =~= Seq::<Seq<char>>::empty());
        assert(all.take(0) =~= Seq::<Seq<char>>::empty());
    }
    while i < mounts.len()
        invariant
            i <= mounts@.len(),
            all == texts(mounts@),
            texts(r@) == not_swap(all.take(i as int)),
        decreases mounts@.len() - i,
    {
        proof {
            assert(all.take(i + 1).drop_last() =~= all.take(i as int));
            assert(all.take(i + 1).last() == mounts@[i as int]@);
        }
        let ghost before = r@;
        if !same(mounts[i].as_str(), "[SWAP]") {
            r.push(mounts[i].as_str().to_owned());
            proof {
                assert(texts(r@) =~= texts(before).push(mounts@[i as int]@));
            }
        }
        i = i + 1;
    }
    proof {
        assert(all.take(mounts@.len() as int) =~= all);
    }
    r
}

fn any_system(mounts: &Vec<String>) -> (r: bool)
    ensures
        r == exists|i: int| 0 <= i < mounts@.len() && is_system_mount(#[trigger] texts(mounts@)[i]),
{
    let mut i: usize = 0;
    while i < mounts.len()
        invariant
            i <= mounts@.len(),
            forall|k: int| 0 <= k < i ==> !is_system_mount(#[trigger] texts(mounts@)[k]),
        decreases mounts@.len() - i,
    {
        assert(texts(mounts@)[i as int] == mounts@[i as int]@);
        if system_mount(mounts[i].as_str()) {
            return true;
        }
        i = i + 1;
    }
    false
}

fn push_texts(out: &mut Vec<String>, more: Vec<String>)
    ensures
        texts(final(out)@) == texts(old(out)@) + texts(more@),
{
    let mut i: usize = 0;
    let ghost all = texts(more@);
    proof {
        assert(texts(out@) + all.take(0) =~= texts(out@));
    }
    while i < more.len()
        invariant
            i <= more@.len(),
            all == texts(more@),
            texts(out@) == texts(old(out)@) + all.take(i as int),
        decreases more@.len() - i,
    {
        let ghost before = out@;
        out.push(more[i].as_str().to_owned());
        proof {
            assert(texts(out@) =~= texts(before).push(all[i as int]));
            assert(texts(old(out)@) + all.take(i + 1) =~= (texts(old(out)@) + all.take(i as int)).push(
                all[i as int],
            ));
        }
        i = i + 1;
    }
    proof {
        assert(all.take(more@.len() as int) =~= all);
    }
}

// Drives.

/// What kind of drive it is, and its bus.
pub open spec fn kind_of(name: Seq<char>, tran: Seq<char>, is_loop: bool, rotates: bool) -> (DriveKind, Seq<char>) {
    if is_loop {
        (DriveKind::Virtual, "Loop"@)
    } else if tran == "usb"@ {
        (DriveKind::Usb, "USB"@)
    } else if starts(name, "mmcblk"@) || tran == "mmc"@ {
        (DriveKind::Sd, "SD"@)
    } else if tran == "nvme"@ || starts(name, "nvme"@) {
        (DriveKind::Ssd, "NVMe"@)
    } else if starts(name, "vd"@) || tran == "virtio"@ {
        (DriveKind::Virtual, "Virtual"@)
    } else {
        (
            if rotates {
                DriveKind::Hdd
            } else {
                DriveKind::Ssd
            },
            if tran == "sata"@ || tran == "ata"@ {
                "SATA"@
            } else if tran == "sas"@ {
                "SAS"@
            } else if tran == "scsi"@ || tran == "iscsi"@ {
                "SCSI"@
            } else {
                ""@
            },
        )
    }
}

fn kind(name: &str, tran: &str, is_loop: bool, rotates: bool) -> (r: (DriveKind, &'static str))
    ensures
        (r.0, r.1@) == kind_of(name@, tran@, is_loop, rotates),
{
    let n: Vec<char> = chars(name);
    if is_loop {
        (DriveKind::Virtual, "Loop")
    } else if same(tran, "usb") {
        (DriveKind::Usb, "USB")
    } else if starts_with(&n, "mmcblk") || same(tran, "mmc") {
        (DriveKind::Sd, "SD")
    } else if same(tran, "nvme") || starts_with(&n, "nvme") {
        (DriveKind::Ssd, "NVMe")
    } else if starts_with(&n, "vd") || same(tran, "virtio") {
        (DriveKind::Virtual, "Virtual")
    } else {
        let bus: &'static str = if same(tran, "sata") || same(tran, "ata") {
            "SATA"
        } else if same(tran, "sas") {
            "SAS"
        } else if same(tran, "scsi") || same(tran, "iscsi") {
            "SCSI"
        } else {
            ""
        };
        (
            if rotates {
                DriveKind::Hdd
            } else {
                DriveKind::Ssd
            },
            bus,
        )
    }
}

/// What a drive is called.
pub open spec fn name_of(name: Seq<char>, vendor: Seq<char>, model: Seq<char>, is_loop: bool, is_sd: bool) -> Seq<char> {
    if is_loop {
        "Loop device"@
    } else if model.len() == 0 {
        if is_sd {
            "SD card"@
        } else {
            name
        }
    } else if vendor.len() == 0 || vendor == "ATA"@ || starts(lowercased(model), lowercased(vendor)) {
        model
    } else {
        vendor + " "@ + model
    }
}

fn drive_name(name: &str, vendor: String, model: String, is_loop: bool, is_sd: bool) -> (s: String)
    ensures
        s@ == name_of(name@, vendor@, model@, is_loop, is_sd),
{
    if is_loop {
        return "Loop device".to_owned();
    }
    let v: Vec<char> = chars(vendor.as_str());
    let m: Vec<char> = chars(model.as_str());
    if m.len() == 0 {
        return if is_sd {
            "SD card".to_owned()
        } else {
            name.to_owned()
        };
    }
    let low: String = lowercase(model.as_str());
    let low_model: Vec<char> = chars(low.as_str());
    let low_vendor: String = lowercase(vendor.as_str());
    if v.len() == 0 || same(vendor.as_str(), "ATA") || starts_with(&low_model, low_vendor.as_str()) {
        model
    } else {
        let mut s: String = vendor;
        s.append(" ");
        s.append(model.as_str());
        s
    }
}

/// The name of a maker or a model, tidied; nothing if it is missing.
pub open spec fn tidy_or_empty(v: Option<Seq<char>>) -> Seq<char> {
    match v {
        Some(s) => tidied(s),
        None => Seq::empty(),
    }
}

fn tidy_text(v: &Node, key: &str) -> (s: String)
    ensures
        s@ == tidy_or_empty(said(v@.member(key@))),
{
    match text(v, key) {
        Some(s) => tidy(s.as_str()),
        None => {
            let s: String = String::new();
            assert(s@ =~= Seq::<char>::empty());
            s
        },
    }
}

/// Is a device one to list? Loop devices (image files attached as disks) are handy for
/// testing; the read-only ones are typically snaps and the like.
pub open spec fn is_listed(dev: Tree) -> bool {
    match said(dev.member("name"@)) {
        None => false,
        Some(name) => {
            let kind = or_empty(said(dev.member("type"@)));
            number_in(dev.member("size"@)) != 0 && (kind == "disk"@ || (kind == "loop"@ && !set_in(
                dev.member("ro"@),
            ))) && !starts(name, "zram"@)
        },
    }
}

/// A device as a drive.
pub open spec fn drive_of(dev: Tree) -> Option<Described> {
    if !is_listed(dev) {
        None
    } else {
        let name = said(dev.member("name"@))->0;
        let tran = lowercased(or_empty(said(dev.member("tran"@))));
        let is_loop = or_empty(said(dev.member("type"@))) == "loop"@;
        let is_sd = starts(name, "mmcblk"@) || tran == "mmc"@;
        let (kind, bus) = kind_of(name, tran, is_loop, set_in(dev.member("rota"@)));
        let nodes = nodes_of(dev);
        let mounts = all_mounts(nodes);
        Some(
            Described {
                path: path_of(dev),
                io_path: path_of(dev),
                name: name_of(
                    name,
                    tidy_or_empty(said(dev.member("vendor"@))),
                    tidy_or_empty(said(dev.member("model"@))),
                    is_loop,
                    is_sd,
                ),
                size: number_in(dev.member("size"@)),
                bus,
                kind,
                removable: set_in(dev.member("rm"@)) || set_in(dev.member("hotplug"@)) || tran == "usb"@ || is_sd,
                system: exists|i: int| 0 <= i < mounts.len() && is_system_mount(#[trigger] mounts[i]),
                read_only: set_in(dev.member("ro"@)),
                mountpoints: not_swap(mounts),
                volumes: all_volumes(nodes),
                unmount: to_unmount(nodes),
                lock: Seq::empty(),
            },
        )
    }
}

/// What a device and everything on it says: mounts, volumes, what to unmount.
struct Contents {
    mounts: Vec<String>,
    volumes: Vec<String>,
    unmount: Vec<String>,
}

#[verifier::spinoff_prover]
#[verifier::rlimit(60)]
fn contents(dev: &Node) -> (c: Contents)
    ensures
        texts(c.mounts@) == all_mounts(nodes_of(dev@)),
        texts(c.volumes@) == all_volumes(nodes_of(dev@)),
        texts(c.unmount@) == to_unmount(nodes_of(dev@)),
{
    let mut nodes: Vec<&Node> = Vec::new();
    walk(dev, &mut nodes);
    let ghost all = refs(nodes@);
    let mut c: Contents = Contents { mounts: Vec::new(), volumes: Vec::new(), unmount: Vec::new() };
    let mut i: usize = 0;
    proof {
        assert(Seq::<Tree>::empty() + nodes_of(dev@) =~= nodes_of(dev@));
        assert(all =~= nodes_of(dev@));
        assert(all.take(0) =~= Seq::<Tree>::empty());
        assert(texts(c.mounts@) =~= Seq::<Seq<char>>::empty());
        assert(texts(c.volumes@) =~= Seq::<Seq<char>>::empty());
        assert(texts(c.unmount@) =~= Seq::<Seq<char>>::empty());
    }
    while i < nodes.len()
        invariant
            i <= nodes@.len(),
            all == refs(nodes@),
            texts(c.mounts@) == all_mounts(all.take(i as int)),
            texts(c.volumes@) == all_volumes(all.take(i as int)),
            texts(c.unmount@) == to_unmount(all.take(i as int)),
        decreases nodes@.len() - i,
    {
        let node: &Node = nodes[i];
        proof {
            assert(all.take(i + 1).drop_last() =~= all.take(i as int));
            assert(all.take(i + 1).last() == node@);
        }
        let mounts: Vec<String> = mountpoints(node);
        let ghost said_mounts = texts(mounts@);
        let ghost unmount = c.unmount@;
        let ghost volumes = c.volumes@;
        push_texts(&mut c.mounts, mounts);
        let used: Vec<String> = without_swap(mountpoints(node));
        if used.len() > 0 {
            c.unmount.push(device_path(node));
            proof {
                assert(texts(used@).len() > 0);
                assert(texts(c.unmount@) =~= texts(unmount).push(path_of(node@)));
            }
        } else {
            assert(texts(used@).len() == 0);
        }
        match volume(node) {
            Some(v) => {
                c.volumes.push(v);
                proof {
                    assert(texts(c.volumes@) =~= texts(volumes).push(volume_of(node@)->0));
                }
            },
            None => {},
        }
        i = i + 1;
    }
    proof {
        assert(all.take(nodes@.len() as int) =~= all);
    }
    c
}

/// A device as a drive, if it is one to list.
pub fn drive(dev: &Node) -> (r: Option<Drive>)
    ensures
        match r {
            Some(d) => drive_of(dev@) == Some(d@),
            None => drive_of(dev@) is None,
        },
{
    let name: String = match text(dev, "name") {
        Some(n) => n,
        None => {
            return None;
        },
    };
    let size: u64 = number(dev, "size");
    let kind_name: String = text_or_empty(dev, "type");
    let read_only: bool = set(dev, "ro");
    let is_loop: bool = same(kind_name.as_str(), "loop");
    let name_chars: Vec<char> = chars(name.as_str());
    if size == 0 || !(same(kind_name.as_str(), "disk") || (is_loop && !read_only)) || starts_with(
        &name_chars,
        "zram",
    ) {
        return None;
    }
    let tran: String = lowercase(text_or_empty(dev, "tran").as_str());
    let is_sd: bool = starts_with(&name_chars, "mmcblk") || same(tran.as_str(), "mmc");
    let (kind, bus) = kind(name.as_str(), tran.as_str(), is_loop, set(dev, "rota"));
    let c: Contents = contents(dev);
    let system: bool = any_system(&c.mounts);
    let drive_name: String = drive_name(
        name.as_str(),
        tidy_text(dev, "vendor"),
        tidy_text(dev, "model"),
        is_loop,
        is_sd,
    );
    let removable: bool = set(dev, "rm") || set(dev, "hotplug") || same(tran.as_str(), "usb") || is_sd;
    let lock: Vec<String> = Vec::new();
    let ghost mounts = texts(c.mounts@);
    let d: Drive = Drive {
        path: device_path(dev),
        io_path: device_path(dev),
        name: drive_name,
        size,
        bus: bus.to_owned(),
        kind,
        removable,
        system,
        read_only,
        mountpoints: without_swap(c.mounts),
        volumes: c.volumes,
        unmount: c.unmount,
        lock,
    };
    proof {
        assert(texts(lock@) =~= Seq::<Seq<char>>::empty());
        assert(mounts == all_mounts(nodes_of(dev@)));
        assert(d@ =~= drive_of(dev@)->0);
    }
    Some(d)
}

/// The drives among devices.
pub open spec fn drives_in(devices: Seq<Tree>) -> Seq<Described>
    decreases devices.len(),
{
    if devices.len() == 0 {
        Seq::empty()
    } else {
        match drive_of(devices.last()) {
            Some(d) => drives_in(devices.drop_last()).push(d),
            None => drives_in(devices.drop_last()),
        }
    }
}

/// The drives that lsblk's output tells of.
pub open spec fn drives_of(root: Tree) -> Seq<Described> {
    match root.member("blockdevices"@) {
        Some(Tree::List(list)) => drives_in(list),
        _ => Seq::empty(),
    }
}

/// The drives in lsblk's parsed output.
pub fn drives(root: &Node) -> (r: Vec<Drive>)
    ensures
        described(r@) == drives_of(root@),
{
    let mut r: Vec<Drive> = Vec::new();
    proof {
        assert(described(r@) =~= Seq::<Described>::empty());
    }
    if let Some(Node::List(list)) = root.get("blockdevices") {
        let mut i: usize = 0;
        proof {
            assert(values(list@).take(0) =~= Seq::<Tree>::empty());
        }
        while i < list.len()
            invariant
                i <= list@.len(),
                described(r@) == drives_in(values(list@).take(i as int)),
            decreases list@.len() - i,
        {
            proof {
                assert(values(list@).take(i + 1).drop_last() =~= values(list@).take(i as int));
                assert(values(list@).take(i + 1).last() == list@[i as int]@);
            }
            let ghost before = r@;
            match drive(&list[i]) {
                Some(d) => {
                    r.push(d);
                    proof {
                        assert(described(r@) =~= described(before).push(drive_of(list@[i as int]@)->0));
                    }
                },
                None => {},
            }
            i = i + 1;
        }
        proof {
            assert(values(list@).take(list@.len() as int) =~= values(list@));
        }
    }
    r
}

/// The drives that lsblk printed.
pub fn list(printed: &[u8]) -> (r: Result<Vec<Drive>, String>)
    ensures
        match (r, json_in(printed@)) {
            (Ok(v), Ok(root)) => described(v@) == drives_of(root),
            (Err(e), Err(why)) => e@ == "couldn't read lsblk output: "@ + why,
            _ => false,
        },
{
    match json(printed) {
        Ok(root) => Ok(drives(&root)),
        Err(e) => {
            let mut s: String = "couldn't read lsblk output: ".to_owned();
            s.append(e.as_str());
            Err(s)
        },
    }
}

// What holds of every list.

/// The device at the end of a way down from `v`: at each step, the child of that number.
pub open spec fn descendant(v: Tree, way: Seq<int>) -> Option<Tree>
    decreases way.len(),
{
    if way.len() == 0 {
        Some(v)
    } else {
        match v.member("children"@) {
            Some(Tree::List(list)) => if 0 <= way[0] < list.len() {
                descendant(list[way[0]], way.skip(1))
            } else {
                None
            },
            _ => None,
        }
    }
}

/// Does lsblk say that a device is mounted at `m`?
pub open spec fn is_mounted(v: Tree, m: Seq<char>) -> bool {
    match v.member("mountpoints"@) {
        Some(Tree::List(list)) => list.contains(Tree::Text(m)),
        _ => v.member("mountpoint"@) == Some(Tree::Text(m)),
    }
}

proof fn lemma_nodes_in_list(list: Seq<Tree>, k: int, w: Tree)
    requires
        0 <= k < list.len(),
        nodes_of(list[k]).contains(w),
    ensures
        nodes_in(list).contains(w),
    decreases list.len(),
{
    let before = nodes_in(list.drop_last());
    let last = nodes_of(list.last());
    if k == list.len() - 1 {
        let j = choose|j: int| 0 <= j < last.len() && last[j] == w;
        assert((before + last)[before.len() + j] == w);
    } else {
        lemma_nodes_in_list(list.drop_last(), k, w);
        let j = choose|j: int| 0 <= j < before.len() && before[j] == w;
        assert((before + last)[j] == w);
    }
}

proof fn lemma_descendants_are_nodes(v: Tree, way: Seq<int>)
    ensures
        descendant(v, way) matches Some(w) ==> nodes_of(v).contains(w),
    decreases way.len(),
{
    if way.len() == 0 {
        assert(nodes_of(v)[0] == v);
    } else if let Some(Tree::List(list)) = v.member("children"@) {
        if 0 <= way[0] < list.len() {
            lemma_descendants_are_nodes(list[way[0]], way.skip(1));
            if let Some(w) = descendant(v, way) {
                lemma_nodes_in_list(list, way[0], w);
                let all = nodes_in(list);
                let j = choose|j: int| 0 <= j < all.len() && all[j] == w;
                assert((seq![v] + all)[1 + j] == w);
            }
        }
    }
}

proof fn lemma_nodes_are_descendants(v: Tree, i: int) -> (way: Seq<int>)
    requires
        0 <= i < nodes_of(v).len(),
    ensures
        descendant(v, way) == Some(nodes_of(v)[i]),
    decreases v, 1int,
{
    if i == 0 {
        Seq::empty()
    } else {
        lemma_member_is_part(v, "children"@);
        match v.member("children"@) {
            Some(Tree::List(list)) => {
                assert(decreases_to!(v => v.member("children"@)->0));
                assert(decreases_to!(Tree::List(list) => list));
                let (k, rest) = lemma_listed_are_descendants(list, i - 1);
                let way = seq![k] + rest;
                assert(way.skip(1) =~= rest);
                way
            },
            _ => Seq::empty(),
        }
    }
}

proof fn lemma_listed_are_descendants(list: Seq<Tree>, i: int) -> (r: (int, Seq<int>))
    requires
        0 <= i < nodes_in(list).len(),
    ensures
        0 <= r.0 < list.len(),
        descendant(list[r.0], r.1) == Some(nodes_in(list)[i]),
    decreases list, 0int,
{
    let n = nodes_in(list.drop_last()).len();
    if i < n {
        let (k, way) = lemma_listed_are_descendants(list.drop_last(), i);
        (k, way)
    } else {
        assert(decreases_to!(list => list[list.len() - 1]));
        let way = lemma_nodes_are_descendants(list[list.len() - 1], i - n);
        (list.len() - 1, way)
    }
}

proof fn lemma_texts_in(list: Seq<Tree>, m: Seq<char>)
    ensures
        texts_in(list).contains(m) == list.contains(Tree::Text(m)),
    decreases list.len(),
{
    if list.len() > 0 {
        let before = list.drop_last();
        lemma_texts_in(before, m);
        let t = texts_in(list);
        if t.contains(m) {
            let j = choose|j: int| 0 <= j < t.len() && t[j] == m;
            if j < texts_in(before).len() {
                assert(texts_in(before)[j] == m);
                let k = choose|k: int| 0 <= k < before.len() && before[k] == Tree::Text(m);
                assert(list[k] == Tree::Text(m));
            } else {
                assert(list[list.len() - 1] == Tree::Text(m));
            }
        }
        if list.contains(Tree::Text(m)) {
            let k = choose|k: int| 0 <= k < list.len() && list[k] == Tree::Text(m);
            if k < before.len() {
                assert(before[k] == Tree::Text(m));
                let j = choose|j: int| 0 <= j < texts_in(before).len() && texts_in(before)[j] == m;
                assert(t[j] == m);
            } else {
                assert(t[t.len() - 1] == m);
            }
        }
    }
}

proof fn lemma_mounts(v: Tree, m: Seq<char>)
    ensures
        mounts_of(v).contains(m) == is_mounted(v, m),
{
    match (v.member("mountpoints"@), v.member("mountpoint"@)) {
        (Some(Tree::List(list)), _) => lemma_texts_in(list, m),
        (_, Some(Tree::Text(t))) => {
            assert(seq![t][0] == t);
        },
        _ => {},
    }
}

proof fn lemma_all_mounts(nodes: Seq<Tree>, m: Seq<char>)
    ensures
        all_mounts(nodes).contains(m) <==> exists|i: int| 0 <= i < nodes.len() && is_mounted(#[trigger] nodes[i], m),
    decreases nodes.len(),
{
    if nodes.len() > 0 {
        let before = nodes.drop_last();
        lemma_all_mounts(before, m);
        lemma_mounts(nodes.last(), m);
        let a = all_mounts(before);
        let b = mounts_of(nodes.last());
        if all_mounts(nodes).contains(m) {
            let j = choose|j: int| 0 <= j < (a + b).len() && (a + b)[j] == m;
            if j < a.len() {
                assert(a[j] == m);
                let i = choose|i: int| 0 <= i < before.len() && is_mounted(#[trigger] before[i], m);
                assert(is_mounted(nodes[i], m));
            } else {
                assert(b[j - a.len()] == m);
                assert(is_mounted(nodes[nodes.len() - 1], m));
            }
        }
        if exists|i: int| 0 <= i < nodes.len() && is_mounted(#[trigger] nodes[i], m) {
            let i = choose|i: int| 0 <= i < nodes.len() && is_mounted(#[trigger] nodes[i], m);
            if i < before.len() {
                assert(is_mounted(before[i], m));
                let j = choose|j: int| 0 <= j < a.len() && a[j] == m;
                assert((a + b)[j] == m);
            } else {
                let j = choose|j: int| 0 <= j < b.len() && b[j] == m;
                assert((a + b)[a.len() + j] == m);
            }
        }
    }
}

proof fn lemma_not_swap_holds(mounts: Seq<Seq<char>>, m: Seq<char>)
    ensures
        not_swap(mounts).contains(m) == (mounts.contains(m) && m != "[SWAP]"@),
    decreases mounts.len(),
{
    if mounts.len() > 0 {
        let before = mounts.drop_last();
        lemma_not_swap_holds(before, m);
        let t = not_swap(mounts);
        let u = not_swap(before);
        if t.contains(m) {
            let j = choose|j: int| 0 <= j < t.len() && t[j] == m;
            if j < u.len() {
                assert(u[j] == m);
                let k = choose|k: int| 0 <= k < before.len() && before[k] == m;
                assert(mounts[k] == m);
            } else {
                assert(mounts[mounts.len() - 1] == m);
            }
        }
        if mounts.contains(m) && m != "[SWAP]"@ {
            let k = choose|k: int| 0 <= k < mounts.len() && mounts[k] == m;
            if k < before.len() {
                assert(before[k] == m);
                let j = choose|j: int| 0 <= j < u.len() && u[j] == m;
                assert(t[j] == m);
            } else {
                assert(t[t.len() - 1] == m);
            }
        }
    }
}

proof fn lemma_to_unmount(nodes: Seq<Tree>, i: int, m: Seq<char>)
    requires
        0 <= i < nodes.len(),
        is_mounted(nodes[i], m),
        m != "[SWAP]"@,
    ensures
        to_unmount(nodes).contains(path_of(nodes[i])),
    decreases nodes.len(),
{
    let before = nodes.drop_last();
    let t = to_unmount(nodes);
    if i < before.len() {
        lemma_to_unmount(before, i, m);
        let u = to_unmount(before);
        let j = choose|j: int| 0 <= j < u.len() && u[j] == path_of(nodes[i]);
        assert(t[j] == path_of(nodes[i]));
    } else {
        lemma_mounts(nodes[i], m);
        lemma_not_swap_holds(mounts_of(nodes[i]), m);
        assert(not_swap(mounts_of(nodes.last())).contains(m));
        assert(not_swap(mounts_of(nodes.last())).len() > 0);
        assert(t[t.len() - 1] == path_of(nodes[i]));
    }
}

proof fn lemma_all_volumes(nodes: Seq<Tree>, i: int)
    requires
        0 <= i < nodes.len(),
        volume_of(nodes[i]) is Some,
    ensures
        all_volumes(nodes).contains(volume_of(nodes[i])->0),
    decreases nodes.len(),
{
    let before = nodes.drop_last();
    let t = all_volumes(nodes);
    let v = volume_of(nodes[i])->0;
    if i < before.len() {
        lemma_all_volumes(before, i);
        let u = all_volumes(before);
        let j = choose|j: int| 0 <= j < u.len() && u[j] == v;
        assert(t[j] == v);
    } else {
        assert(t[t.len() - 1] == v);
    }
}

/// Whatever is mounted of a device that is listed, or of anything on it, however deep down, is
/// among the drive's mount points (swap space aside) and is unmounted before the drive is
/// written; and the drive is the system's if it is one of the places that the system runs from.
pub proof fn law_no_mount_is_missed(dev: Tree, way: Seq<int>, w: Tree, m: Seq<char>)
    requires
        drive_of(dev) is Some,
        descendant(dev, way) == Some(w),
        is_mounted(w, m),
    ensures
        m != "[SWAP]"@ ==> drive_of(dev)->0.mountpoints.contains(m),
        m != "[SWAP]"@ ==> drive_of(dev)->0.unmount.contains(
            match said(w.member("path"@)) {
                Some(p) => p,
                None => match said(w.member("name"@)) {
                    Some(n) => "/dev/"@ + n,
                    None => "/dev/"@,
                },
            },
        ),
        m == "/"@ || m == "/boot"@ || m == "/boot/efi"@ || m == "/efi"@ || m == "/usr"@ || m == "/var"@ || m
            == "/home"@ || m == "[SWAP]"@ ==> drive_of(dev)->0.system,
{
    lemma_descendants_are_nodes(dev, way);
    let nodes = nodes_of(dev);
    let i = choose|i: int| 0 <= i < nodes.len() && nodes[i] == w;
    assert(is_mounted(nodes[i], m));
    let mounts = all_mounts(nodes);
    lemma_all_mounts(nodes, m);
    lemma_not_swap_holds(mounts, m);
    let k = choose|k: int| 0 <= k < mounts.len() && mounts[k] == m;
    assert(is_system_mount(m) ==> is_system_mount(mounts[k]));
    if m != "[SWAP]"@ {
        lemma_to_unmount(nodes, i, m);
        assert("/dev/"@ + Seq::<char>::empty() =~= "/dev/"@);
    }
}

/// Nothing is made up: a mount point of a drive is one of the device or of something on it, and
/// a drive is the system's only if one of those is a place that the system runs from.
pub proof fn law_mounts_are_there(dev: Tree, m: Seq<char>)
    requires
        drive_of(dev) is Some,
    ensures
        drive_of(dev)->0.mountpoints.contains(m) ==> m != "[SWAP]"@ && exists|way: Seq<int>|
            (#[trigger] descendant(dev, way)) matches Some(w) && is_mounted(w, m),
        drive_of(dev)->0.system ==> exists|way: Seq<int>, n: Seq<char>|
            {
                &&& #[trigger] descendant(dev, way) is Some
                &&& #[trigger] is_mounted(descendant(dev, way)->0, n)
                &&& n == "/"@ || n == "/boot"@ || n == "/boot/efi"@ || n == "/efi"@ || n == "/usr"@ || n == "/var"@
                    || n == "/home"@ || n == "[SWAP]"@
            },
{
    let nodes = nodes_of(dev);
    let mounts = all_mounts(nodes);
    lemma_all_mounts(nodes, m);
    lemma_not_swap_holds(mounts, m);
    if drive_of(dev)->0.mountpoints.contains(m) {
        let i = choose|i: int| 0 <= i < nodes.len() && is_mounted(#[trigger] nodes[i], m);
        let way = lemma_nodes_are_descendants(dev, i);
        assert(descendant(dev, way) == Some(nodes[i]));
    }
    if drive_of(dev)->0.system {
        let k = choose|k: int| 0 <= k < mounts.len() && is_system_mount(#[trigger] mounts[k]);
        let n = mounts[k];
        lemma_all_mounts(nodes, n);
        assert(mounts.contains(n));
        let i = choose|i: int| 0 <= i < nodes.len() && is_mounted(#[trigger] nodes[i], n);
        let way = lemma_nodes_are_descendants(dev, i);
        assert(is_mounted(descendant(dev, way)->0, n));
    }
}

/// Every file system on a device, however deep down, is among the drive's volumes: by its label
/// (or that of its partition) and its kind.
pub proof fn law_no_volume_is_missed(dev: Tree, way: Seq<int>, w: Tree, fs: Seq<char>)
    requires
        drive_of(dev) is Some,
        descendant(dev, way) == Some(w),
        said(w.member("fstype"@)) == Some(fs),
    ensures
        drive_of(dev)->0.volumes.contains(
            match (said(w.member("label"@)), said(w.member("partlabel"@))) {
                (Some(l), _) => l + " ("@ + fs + ")"@,
                (None, Some(l)) => l + " ("@ + fs + ")"@,
                (None, None) => fs,
            },
        ),
{
    lemma_descendants_are_nodes(dev, way);
    let nodes = nodes_of(dev);
    let i = choose|i: int| 0 <= i < nodes.len() && nodes[i] == w;
    lemma_all_volumes(nodes, i);
}

/// Which devices are drives: disks, and loop devices that can be written, if they have a name
/// and a size and aren't compressed memory. A drive is where its device is, and as big.
pub proof fn law_disks_are_drives(dev: Tree, name: Seq<char>, kind: Seq<char>)
    requires
        said(dev.member("name"@)) == Some(name),
        said(dev.member("type"@)) == Some(kind),
    ensures
        drive_of(dev) is Some <==> {
            &&& number_in(dev.member("size"@)) > 0
            &&& !("zram"@.len() <= name.len() && name.take("zram"@.len() as int) == "zram"@)
            &&& kind == "disk"@ || (kind == "loop"@ && !(match dev.member("ro"@) {
                Some(Tree::Bool(b)) => b,
                Some(Tree::Number(n)) => n == Some(1u64),
                Some(Tree::Text(s)) => trim(s) == "1"@,
                _ => false,
            }))
        },
        drive_of(dev) matches Some(d) ==> {
            &&& d.size == number_in(dev.member("size"@))
            &&& said(dev.member("path"@)) matches Some(p) ==> d.path == p && d.io_path == p
            &&& said(dev.member("path"@)) is None ==> d.path == "/dev/"@ + name && d.io_path == d.path
            &&& d.read_only == (match dev.member("ro"@) {
                Some(Tree::Bool(b)) => b,
                Some(Tree::Number(n)) => n == Some(1u64),
                Some(Tree::Text(s)) => trim(s) == "1"@,
                _ => false,
            })
        },
{
    assert(starts(name, "zram"@) == ("zram"@.len() <= name.len() && name.take("zram"@.len() as int) == "zram"@));
}

/// Each device that lsblk names at the top and that is a drive is listed, and nothing else is.
pub proof fn law_every_device_is_looked_at(root: Tree, list: Seq<Tree>, d: Described)
    requires
        root.member("blockdevices"@) == Some(Tree::List(list)),
    ensures
        drives_of(root).contains(d) <==> exists|i: int| 0 <= i < list.len() && drive_of(#[trigger] list[i]) == Some(d),
{
    lemma_drives_in(list, d);
}

proof fn lemma_drives_in(list: Seq<Tree>, d: Described)
    ensures
        drives_in(list).contains(d) <==> exists|i: int| 0 <= i < list.len() && drive_of(#[trigger] list[i]) == Some(d),
    decreases list.len(),
{
    if list.len() > 0 {
        let before = list.drop_last();
        lemma_drives_in(before, d);
        let t = drives_in(list);
        let u = drives_in(before);
        if t.contains(d) {
            let j = choose|j: int| 0 <= j < t.len() && t[j] == d;
            if j < u.len() {
                assert(u[j] == d);
                let i = choose|i: int| 0 <= i < before.len() && drive_of(#[trigger] before[i]) == Some(d);
                assert(drive_of(list[i]) == Some(d));
            } else {
                assert(drive_of(list[list.len() - 1]) == Some(d));
            }
        }
        if exists|i: int| 0 <= i < list.len() && drive_of(#[trigger] list[i]) == Some(d) {
            let i = choose|i: int| 0 <= i < list.len() && drive_of(#[trigger] list[i]) == Some(d);
            if i < before.len() {
                assert(drive_of(before[i]) == Some(d));
                let j = choose|j: int| 0 <= j < u.len() && u[j] == d;
                assert(t[j] == d);
            } else {
                assert(t[t.len() - 1] == d);
            }
        }
    }
}

} // verus!
