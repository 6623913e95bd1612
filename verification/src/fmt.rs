//! Human-friendly numbers and names. Sizes use SI units, like drive labels and dd itself.

use vstd::prelude::*;
use vstd::string::*;
use crate::engine::formats::source::{nearest, precision, shown, shown_bytes};
use crate::text::{decimal, decimal_text, push_decimal, same};

verus! {

// Sizes.

/// A number to 53 leading bits.
#[verifier::ext_equal]
pub ghost struct Rounded {
    /// The number is `top / bottom`; `bottom` is a power of two.
    pub top: nat,
    pub bottom: nat,
}

/// The power of two, `from` or more, by which `num / den` gets at least 53 leading bits.
pub open spec fn scale(num: nat, den: nat, from: nat, left: nat) -> nat
    decreases left,
{
    if left == 0 || num * from >= den * 0x10_0000_0000_0000 {
        from
    } else {
        scale(num, den, from * 2, (left - 1) as nat)
    }
}

/// `num / den` to the nearest number of 53 leading bits.
pub open spec fn rounded(num: nat, den: nat) -> Rounded {
    if num >= den * 0x20_0000_0000_0000 {
        let p = precision(num / den);
        Rounded { top: nearest(num, den * p) * p, bottom: 1 }
    } else {
        let b = scale(num, den, 1, 64);
        Rounded { top: nearest(num * b, den), bottom: b }
    }
}

/// A size in the unit it is shown in, and which unit that is: the next one as long as it is
/// 999.5 or more.
pub open spec fn in_unit(v: Rounded, unit: nat) -> (Rounded, nat)
    decreases 5 - unit,
{
    if unit >= 5 || v.top * 2 < v.bottom * 1999 {
        (v, unit)
    } else {
        in_unit(rounded(v.top, v.bottom * 1000), unit + 1)
    }
}

pub open spec fn unit_name(unit: nat) -> Seq<char> {
    if unit == 0 {
        "B"@
    } else if unit == 1 {
        "kB"@
    } else if unit == 2 {
        "MB"@
    } else if unit == 3 {
        "GB"@
    } else if unit == 4 {
        "TB"@
    } else {
        "PB"@
    }
}

/// Three digits of a number: two, one or none of them after the point. (The bounds are 9.995
/// and 99.95, to 53 leading bits.)
pub open spec fn digits_of(v: Rounded) -> Seq<char> {
    if v.top * 0x2_0000_0000_0000 < v.bottom * 0x13_fd70_a3d7_0a3d {
        let n = nearest(v.top * 100, v.bottom);
        decimal(n / 100) + "."@ + decimal(n / 10 % 10) + decimal(n % 10)
    } else if v.top * 0x4000_0000_0000 < v.bottom * 0x18_fccc_cccc_cccd {
        let n = nearest(v.top * 10, v.bottom);
        decimal(n / 10) + "."@ + decimal(n % 10)
    } else {
        decimal(nearest(v.top, v.bottom))
    }
}

/// A number of bytes in words: "512 B", "31.9 GB".
pub open spec fn bytes_of(n: u64) -> Seq<char> {
    if n < 1000 {
        decimal(n as nat) + " B"@
    } else {
        let (v, unit) = in_unit(Rounded { top: shown(n as nat), bottom: 1 }, 0);
        digits_of(v) + " "@ + unit_name(unit)
    }
}

fn to_nearest(n: u128, d: u128) -> (r: u128)
    requires
        0 < d < 0x4000_0000_0000_0000_0000_0000_0000_0000,
        n < 0x8000_0000_0000_0000_0000_0000_0000_0000,
    ensures
        r == nearest(n as nat, d as nat),
        r <= n / d + 1,
        r * d <= n + d,
{
    let low: u128 = n % d;
    let q: u128 = n / d;
    proof {
        assert(q <= n && q * d <= n && (q + 1) * d <= n + d) by (nonlinear_arith)
            requires
                q == n / d,
                d > 0,
        ;
    }
    if low * 2 > d || (low * 2 == d && q % 2 == 1) {
        q + 1
    } else {
        q
    }
}

proof fn lemma_precision(n: nat)
    requires
        n < 0x100_0000_0000_0000,
    ensures
        1 <= precision(n) <= 8,
{
    reveal_with_fuel(precision, 5);
}

fn precision_of(n: u128) -> (p: u128)
    requires
        n < 0x100_0000_0000_0000,
    ensures
        p == precision(n as nat),
        1 <= p <= 8,
{
    proof {
        lemma_precision(n as nat);
        reveal_with_fuel(precision, 5);
    }
    if n < 0x20_0000_0000_0000 {
        1
    } else if n < 0x40_0000_0000_0000 {
        2
    } else if n < 0x80_0000_0000_0000 {
        4
    } else {
        8
    }
}

/// `num / den` to 53 leading bits, as a fraction.
fn round53(num: u128, den: u128) -> (r: (u128, u128))
    requires
        0 < den <= 0x3e8_0000_0000_0000_0000,
        num <= 0x2_0000_0000_0000_0000,
        den >= 1000,
    ensures
        rounded(num as nat, den as nat) == (Rounded { top: r.0 as nat, bottom: r.1 as nat }),
        0 < r.1 <= 0x1_0000_0000_0000_0000,
        r.0 <= 0x2_0000_0000_0000_0000,
        r.0 * den <= num * r.1 + 8 * den,
{
    if num >= den * 0x20_0000_0000_0000 {
        let q: u128 = num / den;
        proof {
            assert(q <= num / 1000) by (nonlinear_arith)
                requires
                    q == num / den,
                    den >= 1000,
            ;
        }
        let p: u128 = precision_of(q);
        proof {
            assert(0 < den * p <= 8 * den) by (nonlinear_arith)
                requires
                    1 <= p <= 8,
                    den > 0,
            ;
        }
        let n: u128 = to_nearest(num, den * p);
        proof {
            assert(n * p * den <= num + 8 * den && n * p <= 0x2_0000_0000_0000_0000) by (nonlinear_arith)
                requires
                    n * (den * p) <= num + den * p,
                    1 <= p <= 8,
                    den >= 1000,
                    num <= 0x2_0000_0000_0000_0000,
                    n >= 0,
            ;
        }
        return (n * p, 1);
    }
    let mut b: u128 = 1;
    let mut left: u32 = 64;
    proof {
        lemma_power64();
        lemma_power(64);
    }
    while left > 0 && num * b < den * 0x10_0000_0000_0000
        invariant
            left <= 64,
            1 <= b,
            b * power(left as nat) == 0x1_0000_0000_0000_0000,
            power(left as nat) >= 1,
            b <= 0x1_0000_0000_0000_0000,
            1000 <= den <= 0x3e8_0000_0000_0000_0000,
            num * b < den * 0x20_0000_0000_0000,
            scale(num as nat, den as nat, 1, 64) == scale(num as nat, den as nat, b as nat, left as nat),
        decreases left,
    {
        proof {
            let p = power((left - 1) as nat);
            lemma_power((left - 1) as nat);
            assert(b * (2 * p) == (b * 2) * p) by (nonlinear_arith);
            assert(b * 2 <= (b * 2) * p) by (nonlinear_arith)
                requires
                    p >= 1,
                    b >= 1,
            ;
            assert(num * (b * 2) == 2 * (num * b)) by (nonlinear_arith);
        }
        b = b * 2;
        left = left - 1;
    }
    let top: u128 = to_nearest(num * b, den);
    proof {
        assert((num * b) / (den as int) <= 0x20_0000_0000_0000) by (nonlinear_arith)
            requires
                num * b < den * 0x20_0000_0000_0000,
                den > 0,
        ;
    }
    (top, b)
}

pub open spec fn power(n: nat) -> nat
    decreases n,
{
    if n == 0 {
        1
    } else {
        2 * power((n - 1) as nat)
    }
}

proof fn lemma_power(n: nat)
    ensures
        power(n) >= 1,
    decreases n,
{
    if n > 0 {
        lemma_power((n - 1) as nat);
    }
}

proof fn lemma_power64()
    ensures
        power(64) == 0x1_0000_0000_0000_0000,
{
    reveal_with_fuel(power, 65);
}

fn push_digits(s: &mut String, top: u128, bottom: u128)
    requires
        0 < bottom <= 0x1_0000_0000_0000_0000,
        top <= 0x2_0000_0000_0000_0000,
        top <= bottom * 0x200_0000_0000_0000,
    ensures
        final(s)@ == old(s)@ + digits_of(Rounded { top: top as nat, bottom: bottom as nat }),
{
    if top * 0x2_0000_0000_0000 < bottom * 0x13_fd70_a3d7_0a3d {
        let n: u128 = to_nearest(top * 100, bottom);
        proof {
            assert((top * 100) / (bottom as int) <= 1600) by (nonlinear_arith)
                requires
                    top * 0x2_0000_0000_0000 < bottom * 0x13_fd70_a3d7_0a3d,
                    bottom > 0,
            ;
        }
        push_decimal(s, (n / 100) as u64);
        s.append(".");
        push_decimal(s, (n / 10 % 10) as u64);
        push_decimal(s, (n % 10) as u64);
        proof {
            let m = n as nat;
            assert(final(s)@ =~= old(s)@ + (decimal(m / 100) + "."@ + decimal(m / 10 % 10) + decimal(m % 10)));
        }
    } else if top * 0x4000_0000_0000 < bottom * 0x18_fccc_cccc_cccd {
        let n: u128 = to_nearest(top * 10, bottom);
        proof {
            assert((top * 10) / (bottom as int) <= 1280) by (nonlinear_arith)
                requires
                    top * 0x4000_0000_0000 < bottom * 0x18_fccc_cccc_cccd,
                    bottom > 0,
            ;
        }
        push_decimal(s, (n / 10) as u64);
        s.append(".");
        push_decimal(s, (n % 10) as u64);
        proof {
            let m = n as nat;
            assert(final(s)@ =~= old(s)@ + (decimal(m / 10) + "."@ + decimal(m % 10)));
        }
    } else {
        let n: u128 = to_nearest(top, bottom);
        proof {
            assert(top / bottom <= 0x200_0000_0000_0000) by (nonlinear_arith)
                requires
                    top <= bottom * 0x200_0000_0000_0000,
                    bottom > 0,
            ;
        }
        push_decimal(s, n as u64);
    }
}

/// A number of bytes in words: "512 B", "31.9 GB".
pub fn bytes(n: u64) -> (s: String)
    ensures
        s@ == bytes_of(n),
{
    if n < 1000 {
        let mut s: String = decimal_text(n);
        s.append(" B");
        return s;
    }
    let mut top: u128 = shown_bytes(n);
    let mut bottom: u128 = 1;
    let mut unit: u32 = 0;
    let ghost first = Rounded { top: top as nat, bottom: 1 };
    while unit < 5 && !(top * 2 < bottom * 1999)
        invariant
            unit <= 5,
            0 < bottom <= 0x1_0000_0000_0000_0000,
            top <= 0x2_0000_0000_0000_0000,
            unit == 0 ==> top >= 1000 && bottom == 1,
            top <= bottom * 0x2_0000_0000_0000_0000,
            unit > 0 ==> top <= bottom * 0x200_0000_0000_0000,
            in_unit(first, 0) == in_unit(Rounded { top: top as nat, bottom: bottom as nat }, unit as nat),
        decreases 5 - unit,
    {
        let (t, b) = round53(top, bottom * 1000);
        proof {
            assert(t <= b * 0x200_0000_0000_0000) by (nonlinear_arith)
                requires
                    t * (bottom * 1000) <= top * b + 8 * (bottom * 1000),
                    top <= bottom * 0x2_0000_0000_0000_0000,
                    bottom >= 1,
                    b >= 1,
            ;
            assert(b * 0x200_0000_0000_0000 <= b * 0x2_0000_0000_0000_0000);
        }
        top = t;
        bottom = b;
        unit = unit + 1;
    }
    let mut s: String = String::new();
    push_digits(&mut s, top, bottom);
    s.append(" ");
    s.append(if unit == 0 {
        "B"
    } else if unit == 1 {
        "kB"
    } else if unit == 2 {
        "MB"
    } else if unit == 3 {
        "GB"
    } else if unit == 4 {
        "TB"
    } else {
        "PB"
    });
    proof {
        let d = digits_of(Rounded { top: top as nat, bottom: bottom as nat });
        assert(Seq::<char>::empty() + d =~= d);
    }
    s
}

// File systems.

/// A file system's name as people know it, where it has one that differs.
pub open spec fn known_name(name: Seq<char>) -> Option<Seq<char>> {
    if name == "vfat"@ || name == "msdos"@ || name == "fat"@ {
        Some("FAT"@)
    } else if name == "exfat"@ {
        Some("exFAT"@)
    } else if name == "ntfs"@ || name == "ntfs3"@ {
        Some("NTFS"@)
    } else if name == "refs"@ || name == "ReFS"@ {
        Some("ReFS"@)
    } else if name == "btrfs"@ {
        Some("Btrfs"@)
    } else if name == "xfs"@ {
        Some("XFS"@)
    } else if name == "f2fs"@ {
        Some("F2FS"@)
    } else if name == "LVM2_member"@ || name == "lvm2"@ {
        Some("LVM"@)
    } else if name == "swap"@ {
        Some("swap"@)
    } else if name == "swsuspend"@ {
        Some("hibernation"@)
    } else if name == "iso9660"@ {
        Some("ISO 9660"@)
    } else if name == "udf"@ {
        Some("UDF"@)
    } else if name == "apfs"@ {
        Some("APFS"@)
    } else if name == "hfsplus"@ {
        Some("HFS+"@)
    } else if name == "hfs"@ {
        Some("HFS"@)
    } else if name == "crypto_LUKS"@ {
        Some("LUKS"@)
    } else if name == "BitLocker"@ {
        Some("BitLocker"@)
    } else if name == "squashfs"@ || name == "squashfs3"@ {
        Some("SquashFS"@)
    } else if name == "linux_raid_member"@ {
        Some("Linux RAID"@)
    } else if name == "zfs_member"@ {
        Some("ZFS"@)
    } else if name == "jfs"@ {
        Some("JFS"@)
    } else if name == "reiserfs"@ {
        Some("ReiserFS"@)
    } else if name == "reiser4"@ {
        Some("Reiser4"@)
    } else if name == "nilfs2"@ {
        Some("NILFS2"@)
    } else if name == "erofs"@ {
        Some("EROFS"@)
    } else if name == "cramfs"@ {
        Some("cramfs"@)
    } else if name == "romfs"@ {
        Some("romfs"@)
    } else if name == "minix"@ {
        Some("Minix"@)
    } else if name == "ufs"@ {
        Some("UFS"@)
    } else if name == "vxfs"@ {
        Some("VxFS"@)
    } else if name == "gfs"@ {
        Some("GFS"@)
    } else if name == "gfs2"@ {
        Some("GFS2"@)
    } else if name == "ocfs2"@ {
        Some("OCFS2"@)
    } else if name == "VMFS"@ || name == "vmfs"@ || name == "VMFS_volume_member"@ {
        Some("VMFS"@)
    } else if name == "bcache"@ {
        Some("bcache"@)
    } else if name == "bcachefs"@ {
        Some("bcachefs"@)
    } else if name == "oracleasm"@ {
        Some("Oracle ASM"@)
    } else if name == "hpfs"@ {
        Some("HPFS"@)
    } else if name == "ubifs"@ {
        Some("UBIFS"@)
    } else if name == "ubi"@ {
        Some("UBI"@)
    } else if name == "bfs"@ {
        Some("BFS"@)
    } else if name == "zonefs"@ {
        Some("zonefs"@)
    } else if name == "LVM1_member"@ {
        Some("LVM1"@)
    } else if name == "DM_integrity"@ {
        Some("dm-integrity"@)
    } else if name == "DM_verity_hash"@ {
        Some("dm-verity"@)
    } else if name == "DM_snapshot_cow"@ {
        Some("LVM snapshot"@)
    } else if name == "vdo"@ {
        Some("VDO"@)
    } else if name == "stratis"@ {
        Some("Stratis"@)
    } else if name == "ceph_bluestore"@ {
        Some("Ceph BlueStore"@)
    } else {
        None
    }
}

fn known(name: &str) -> (r: Option<&'static str>)
    ensures
        match r {
            Some(s) => known_name(name@) == Some(s@),
            None => known_name(name@) is None,
        },
{
    if same(name, "vfat") || same(name, "msdos") || same(name, "fat") {
        Some("FAT")
    } else if same(name, "exfat") {
        Some("exFAT")
    } else if same(name, "ntfs") || same(name, "ntfs3") {
        Some("NTFS")
    } else if same(name, "refs") || same(name, "ReFS") {
        Some("ReFS")
    } else if same(name, "btrfs") {
        Some("Btrfs")
    } else if same(name, "xfs") {
        Some("XFS")
    } else if same(name, "f2fs") {
        Some("F2FS")
    } else if same(name, "LVM2_member") || same(name, "lvm2") {
        Some("LVM")
    } else if same(name, "swap") {
        Some("swap")
    } else if same(name, "swsuspend") {
        Some("hibernation")
    } else if same(name, "iso9660") {
        Some("ISO 9660")
    } else if same(name, "udf") {
        Some("UDF")
    } else if same(name, "apfs") {
        Some("APFS")
    } else if same(name, "hfsplus") {
        Some("HFS+")
    } else if same(name, "hfs") {
        Some("HFS")
    } else if same(name, "crypto_LUKS") {
        Some("LUKS")
    } else if same(name, "BitLocker") {
        Some("BitLocker")
    } else if same(name, "squashfs") || same(name, "squashfs3") {
        Some("SquashFS")
    } else if same(name, "linux_raid_member") {
        Some("Linux RAID")
    } else if same(name, "zfs_member") {
        Some("ZFS")
    } else if same(name, "jfs") {
        Some("JFS")
    } else if same(name, "reiserfs") {
        Some("ReiserFS")
    } else if same(name, "reiser4") {
        Some("Reiser4")
    } else if same(name, "nilfs2") {
        Some("NILFS2")
    } else if same(name, "erofs") {
        Some("EROFS")
    } else if same(name, "cramfs") {
        Some("cramfs")
    } else if same(name, "romfs") {
        Some("romfs")
    } else if same(name, "minix") {
        Some("Minix")
    } else if same(name, "ufs") {
        Some("UFS")
    } else if same(name, "vxfs") {
        Some("VxFS")
    } else if same(name, "gfs") {
        Some("GFS")
    } else if same(name, "gfs2") {
        Some("GFS2")
    } else if same(name, "ocfs2") {
        Some("OCFS2")
    } else if same(name, "VMFS") || same(name, "vmfs") || same(name, "VMFS_volume_member") {
        Some("VMFS")
    } else if same(name, "bcache") {
        Some("bcache")
    } else if same(name, "bcachefs") {
        Some("bcachefs")
    } else if same(name, "oracleasm") {
        Some("Oracle ASM")
    } else if same(name, "hpfs") {
        Some("HPFS")
    } else if same(name, "ubifs") {
        Some("UBIFS")
    } else if same(name, "ubi") {
        Some("UBI")
    } else if same(name, "bfs") {
        Some("BFS")
    } else if same(name, "zonefs") {
        Some("zonefs")
    } else if same(name, "LVM1_member") {
        Some("LVM1")
    } else if same(name, "DM_integrity") {
        Some("dm-integrity")
    } else if same(name, "DM_verity_hash") {
        Some("dm-verity")
    } else if same(name, "DM_snapshot_cow") {
        Some("LVM snapshot")
    } else if same(name, "vdo") {
        Some("VDO")
    } else if same(name, "stratis") {
        Some("Stratis")
    } else if same(name, "ceph_bluestore") {
        Some("Ceph BlueStore")
    } else {
        None
    }
}

/// A file system's name as people know it, from the blkid-style names the smart analysis and
/// lsblk use: "vfat" → "FAT", "crypto_LUKS" → "LUKS". Unknown names pass through.
pub fn fs_name(name: &str) -> (s: String)
    ensures
        s@ == (match known_name(name@) {
            Some(k) => k,
            None => name@,
        }),
{
    match known(name) {
        Some(k) => k.to_owned(),
        None => name.to_owned(),
    }
}

/// dd's notation: 4194304 → "4M".
pub open spec fn block_size_of(n: u64) -> Seq<char> {
    if n >= 0x4000_0000 && n % 0x4000_0000 == 0 {
        decimal((n / 0x4000_0000) as nat) + "G"@
    } else if n >= 0x10_0000 && n % 0x10_0000 == 0 {
        decimal((n / 0x10_0000) as nat) + "M"@
    } else if n >= 0x400 && n % 0x400 == 0 {
        decimal((n / 0x400) as nat) + "K"@
    } else {
        decimal(n as nat)
    }
}

/// dd's notation: 4194304 → "4M".
pub fn block_size(n: u64) -> (s: String)
    ensures
        s@ == block_size_of(n),
{
    if n >= 0x4000_0000 && n % 0x4000_0000 == 0 {
        let mut s: String = decimal_text(n / 0x4000_0000);
        s.append("G");
        s
    } else if n >= 0x10_0000 && n % 0x10_0000 == 0 {
        let mut s: String = decimal_text(n / 0x10_0000);
        s.append("M");
        s
    } else if n >= 0x400 && n % 0x400 == 0 {
        let mut s: String = decimal_text(n / 0x400);
        s.append("K");
        s
    } else {
        decimal_text(n)
    }
}

/// Two digits.
pub open spec fn two_digits(n: nat) -> Seq<char> {
    if n < 10 {
        "0"@ + decimal(n)
    } else {
        decimal(n)
    }
}

/// How long something takes, in words.
pub open spec fn duration_of(nanos: u64) -> Seq<char> {
    let secs = ((nanos + 500_000_000) / 1_000_000_000) as nat;
    if 0 < nanos < 500_000_000 {
        "<1s"@
    } else if secs < 60 {
        decimal(secs) + "s"@
    } else if secs < 3600 {
        decimal(secs / 60) + "m "@ + two_digits(secs % 60) + "s"@
    } else {
        decimal(secs / 3600) + "h "@ + two_digits(secs / 60 % 60) + "m"@
    }
}

fn push_two(s: &mut String, n: u64)
    ensures
        final(s)@ == old(s)@ + two_digits(n as nat),
{
    let ghost before = s@;
    if n < 10 {
        s.append("0");
    }
    push_decimal(s, n);
    assert(s@ =~= before + two_digits(n as nat));
}

/// How long something takes: "42s", "1m 18s", "1h 05m".
pub fn duration(nanos: u64) -> (s: String)
    ensures
        s@ == duration_of(nanos),
{
    if 0 < nanos && nanos < 500_000_000 {
        return "<1s".to_owned();
    }
    let rest: u64 = nanos % 1_000_000_000;
    let secs: u64 = nanos / 1_000_000_000 + if rest >= 500_000_000 {
        1
    } else {
        0
    };
    assert(secs == (nanos + 500_000_000) / 1_000_000_000);
    if secs < 60 {
        let mut s: String = decimal_text(secs);
        s.append("s");
        s
    } else if secs < 3600 {
        let mut s: String = decimal_text(secs / 60);
        s.append("m ");
        push_two(&mut s, secs % 60);
        s.append("s");
        s
    } else {
        let mut s: String = decimal_text(secs / 3600);
        s.append("h ");
        push_two(&mut s, secs / 60 % 60);
        s.append("m");
        s
    }
}

} // verus!
