//! Windows: PowerShell's Storage cmdlets (Get-Disk, Get-Partition, Get-Volume) list the
//! drives.
//!
//! The script's output is JSON made of plain ASCII (other characters as `\uXXXX`), so the
//! console's code page can't garble names and labels.

use vstd::prelude::*;
use vstd::string::*;
use crate::drives::linux::or_empty;
use crate::drives::{
    described, first_line, first_of, flag, flag_in, items, items_in, number, number_in, refs, said, text, tidied,
    tidy, Described, Drive, DriveKind,
};
use crate::engine::image::{base64_text, push_base64};
use crate::text::{
    chars, contains, decimal, ends, ends_with, find, find_from, find_text, from_utf8_lossy, holds_at, lines,
    lossy, parse_u64, parse_usize, part, push_decimal, replace_text, same, starts, starts_with, string,
    strip_end, strip_suffixes, stripped_end, suffixes_stripped, text_replaced, texts, to_upper, trim, trimmed,
    u64_in, upper_char, usize_in,
};
use crate::values::{json_at_start, json_start, lemma_parts, values, Node, Tree};

verus! {

broadcast use lemma_parts;

/// Per disk: what it is, whether it runs Windows (it holds the Windows, boot or system
/// partition, or a page file), and every volume on it, with or without a drive letter.
/// Volumes without one still get locked before writing: Windows refuses raw writes over any
/// mounted file system, and Get-Volume itself mounts them all. Dynamic disks (LDM) are told
/// apart: their volumes can't be found (or locked) this way.
pub const SCRIPT: &'static str = r#"
$ErrorActionPreference = 'Stop'
$ProgressPreference = 'SilentlyContinue'
$WarningPreference = 'SilentlyContinue'
try {
  $volumes = @{}
  foreach ($v in @(Get-Volume -ErrorAction SilentlyContinue)) {
    if ($v.Path) { $volumes[[string]$v.Path] = $v }
  }
  $systemLetters = @{}
  $windowsDrive = [string]$env:SystemDrive
  if ($windowsDrive -match '^[A-Za-z]:') { $systemLetters[$windowsDrive.Substring(0, 1).ToUpper()] = $true }
  foreach ($f in @(Get-CimInstance -ClassName Win32_PageFileUsage -ErrorAction SilentlyContinue)) {
    $name = [string]$f.Name
    if ($name -match '^[A-Za-z]:') { $systemLetters[$name.Substring(0, 1).ToUpper()] = $true }
  }
  $external = @{}
  foreach ($d in @(Get-CimInstance -ClassName Win32_DiskDrive -ErrorAction SilentlyContinue)) {
    if ([string]$d.MediaType -match 'External|Removable') { $external[[string]$d.Index] = $true }
  }
  $partitions = @(Get-Partition -ErrorAction SilentlyContinue)
  $disks = @(foreach ($d in @(Get-Disk)) {
    if ($null -eq $d.Number) { continue }
    $n = [int]$d.Number
    $system = [bool]$d.IsBoot -or [bool]$d.IsSystem
    $dynamic = $false
    $found = @(foreach ($p in @($partitions | Where-Object { $_.DiskNumber -eq $n })) {
      if ([bool]$p.IsBoot -or [bool]$p.IsSystem) { $system = $true }
      if ($p.MbrType -eq 0x42 -or [string]$p.GptType -in '{5808c8aa-7e8f-42e0-85d2-e1e90434cfb3}', '{af9b60a0-1431-4f62-bc68-3311714a69ad}') {
        $dynamic = $true
      }
      $letter = [string]$p.DriveLetter
      if ($letter -notmatch '^[A-Za-z]$') { $letter = '' }
      if ($letter -and $systemLetters.ContainsKey($letter.ToUpper())) { $system = $true }
      $guid = ''
      $folders = @()
      foreach ($a in @($p.AccessPaths)) {
        $a = [string]$a
        if ($a -like '\\?\Volume{*') { $guid = $a }
        elseif ($a -and $a -notmatch '^[A-Za-z]:\\?$') { $folders += $a }
      }
      if (-not $letter -and -not $guid) { continue }
      $label = ''
      $fs = ''
      if ($guid -and $volumes.ContainsKey($guid)) {
        $label = [string]$volumes[$guid].FileSystemLabel
        $fs = [string]$volumes[$guid].FileSystem
      }
      [pscustomobject]@{ Letter = $letter; Guid = $guid; Folders = @($folders); Label = $label; FileSystem = $fs }
    })
    [pscustomobject]@{
      Number = $n; Name = [string]$d.FriendlyName; Size = [uint64]$d.Size; Bus = [string]$d.BusType
      External = $external.ContainsKey([string]$n); System = $system
      ReadOnly = [bool]$d.IsReadOnly; Offline = [bool]$d.IsOffline; Dynamic = $dynamic; Volumes = @($found)
    }
  })
  $json = ConvertTo-Json -InputObject $disks -Depth 8 -Compress
  try { $json = [regex]::Replace($json, '[^\x20-\x7e]', { param($m) '\u{0:x4}' -f [int][char]$m.Value }) } catch { }
  $json
} catch {
  [Console]::Error.WriteLine($_.Exception.Message)
  exit 2
}
"#;

// Commands.

/// A character as UTF-16 units.
pub open spec fn units_of(c: char) -> Seq<u16> {
    let n = c as u32;
    if n < 0x1_0000 {
        seq![n as u16]
    } else {
        seq![(0xd800 + (n - 0x1_0000) / 0x400) as u16, (0xdc00 + (n - 0x1_0000) % 0x400) as u16]
    }
}

/// UTF-16 units as bytes, the less significant first.
pub open spec fn unit_bytes(units: Seq<u16>) -> Seq<u8>
    decreases units.len(),
{
    if units.len() == 0 {
        Seq::empty()
    } else {
        unit_bytes(units.drop_last()) + seq![(units.last() % 256) as u8, (units.last() / 256) as u8]
    }
}

/// A text as the bytes of UTF-16.
pub open spec fn utf16_bytes(s: Seq<char>) -> Seq<u8>
    decreases s.len(),
{
    if s.len() == 0 {
        Seq::empty()
    } else {
        utf16_bytes(s.drop_last()) + unit_bytes(units_of(s.last()))
    }
}

/// The signs that fill the last group of four.
pub open spec fn padding(n: nat) -> Seq<char> {
    if n % 3 == 1 {
        "=="@
    } else if n % 3 == 2 {
        "="@
    } else {
        ""@
    }
}

/// A script for `powershell -EncodedCommand`: base64 of its UTF-16LE text.
pub open spec fn encoded(script: Seq<char>) -> Seq<char> {
    base64_text(utf16_bytes(script)) + padding(utf16_bytes(script).len())
}

fn push_unit(out: &mut Vec<u8>, u: u16)
    ensures
        final(out)@ == old(out)@ + unit_bytes(seq![u]),
{
    proof {
        reveal_with_fuel(unit_bytes, 2);
        assert(seq![u].drop_last() =~= Seq::<u16>::empty());
        assert(unit_bytes(seq![u]) =~= seq![(u % 256) as u8, (u / 256) as u8]);
    }
    out.push((u % 256) as u8);
    out.push((u / 256) as u8);
}

/// A script for `powershell -EncodedCommand`: base64 of its UTF-16LE text, which nothing on
/// the way can misquote.
pub fn encoded_command(script: &str) -> (s: String)
    ensures
        s@ == encoded(script@),
{
    let v: Vec<char> = chars(script);
    let mut bytes: Vec<u8> = Vec::new();
    let mut i: usize = 0;
    proof {
        assert(v@.take(0) =~= Seq::<char>::empty());
    }
    while i < v.len()
        invariant
            i <= v@.len(),
            v@ == script@,
            bytes@ == utf16_bytes(v@.take(i as int)),
        decreases v@.len() - i,
    {
        let c: char = v[i];
        let n: u32 = c as u32;
        let ghost before = bytes@;
        proof {
            assert(v@.take(i + 1).drop_last() =~= v@.take(i as int));
            reveal_with_fuel(unit_bytes, 3);
        }
        if n < 0x1_0000 {
            push_unit(&mut bytes, n as u16);
        } else {
            let m: u32 = n - 0x1_0000;
            let high: u16 = (0xd800 + m / 0x400) as u16;
            let low: u16 = (0xdc00 + m % 0x400) as u16;
            push_unit(&mut bytes, high);
            push_unit(&mut bytes, low);
            proof {
                assert(seq![high, low].drop_last() =~= seq![high]);
                assert(seq![high].drop_last() =~= Seq::<u16>::empty());
                assert(seq![low].drop_last() =~= Seq::<u16>::empty());
                assert(bytes@ =~= before + unit_bytes(seq![high, low]));
            }
        }
        i = i + 1;
    }
    proof {
        assert(v@.take(v@.len() as int) =~= v@);
    }
    let mut s: String = String::new();
    push_base64(&mut s, &bytes);
    s.append(if bytes.len() % 3 == 1 {
        "=="
    } else if bytes.len() % 3 == 2 {
        "="
    } else {
        ""
    });
    proof {
        assert(Seq::<char>::empty() + base64_text(bytes@) =~= base64_text(bytes@));
    }
    s
}

// What PowerShell says.

pub open spec fn error_mark() -> Seq<char> {
    "<S S=\"Error\">"@
}

/// A message out of CLIXML: up to its end, on one line, with its entities as they are meant.
pub open spec fn clixml_message(rest: Seq<char>) -> Seq<char> {
    let message = if contains(rest, "</S>"@) {
        rest.take(first_place(rest, "</S>"@, 0))
    } else {
        rest
    };
    let a = replace_text(message, "_x000D__x000A_"@, " "@);
    let b = replace_text(a, "&lt;"@, "<"@);
    let c = replace_text(b, "&gt;"@, ">"@);
    let d = replace_text(c, "&quot;"@, "\""@);
    trim(replace_text(d, "&amp;"@, "&"@))
}

/// Where `p` first stands in `s`, from `at` on.
pub open spec fn first_place(s: Seq<char>, p: Seq<char>, at: int) -> int
    decreases s.len() - at,
{
    if at >= s.len() || holds_at(s, p, at) {
        at
    } else {
        first_place(s, p, at + 1)
    }
}

proof fn lemma_first_place(s: Seq<char>, p: Seq<char>, at: int, found: int)
    requires
        0 <= at <= found <= s.len(),
        holds_at(s, p, found),
        forall|k: int| at <= k < found ==> !holds_at(s, p, k),
    ensures
        first_place(s, p, at) == found,
    decreases found - at,
{
    if at < found {
        assert(!holds_at(s, p, at));
        lemma_first_place(s, p, at + 1, found);
    }
}

/// PowerShell's error output in a line.
pub open spec fn error_of(stderr: Seq<u8>) -> Seq<char> {
    let text = lossy(stderr);
    if contains(text, error_mark()) {
        clixml_message(text.skip(first_place(text, error_mark(), 0) + 13))
    } else {
        let line = first_of(lines(text));
        if line.len() == 0 {
            "it stopped without saying why"@
        } else {
            line
        }
    }
}

fn message(rest: &[char]) -> (s: String)
    ensures
        s@ == clixml_message(rest@),
{
    let end: usize = match find_text(rest, "</S>") {
        Some(at) => {
            proof {
                assert(contains(rest@, "</S>"@));
                lemma_first_place(rest@, "</S>"@, 0, at as int);
            }
            at
        },
        None => rest.len(),
    };
    let m: Vec<char> = part(rest, 0, end);
    proof {
        assert(m@ =~= rest@.take(end as int));
        assert(rest@.take(rest@.len() as int) =~= rest@);
    }
    let a: Vec<char> = text_replaced(&m, "_x000D__x000A_", " ");
    let b: Vec<char> = text_replaced(&a, "&lt;", "<");
    let c: Vec<char> = text_replaced(&b, "&gt;", ">");
    let d: Vec<char> = text_replaced(&c, "&quot;", "\"");
    let e: Vec<char> = text_replaced(&d, "&amp;", "&");
    string(&trimmed(&e))
}

/// PowerShell's error output in a line. Errors it doesn't handle itself may come as CLIXML
/// (`#< CLIXML <Objs …><S S="Error">…</S>`).
pub fn error_text(stderr: &[u8]) -> (s: String)
    ensures
        s@ == error_of(stderr@),
{
    let text: String = from_utf8_lossy(stderr);
    let v: Vec<char> = chars(text.as_str());
    if let Some(start) = find_text(&v, "<S S=\"Error\">") {
        proof {
            reveal_strlit("<S S=\"Error\">");
            assert(contains(v@, error_mark()));
            lemma_first_place(v@, error_mark(), 0, start as int);
        }
        assert(start + 13 <= v.len());
        let rest: Vec<char> = part(&v, start + 13, v.len());
        assert(rest@ =~= v@.skip(start + 13));
        return message(&rest);
    }
    let line: String = first_line(stderr);
    if chars(line.as_str()).len() == 0 {
        "it stopped without saying why".to_owned()
    } else {
        line
    }
}

/// Is it one of the characters that may stand before the JSON in its line?
pub open spec fn is_lead(c: char) -> bool {
    c == '\u{feff}' || c == ' ' || c == '\t' || c == '\r'
}

/// `s` without those at its start.
pub open spec fn without_lead(s: Seq<char>) -> Seq<char>
    decreases s.len(),
{
    if s.len() > 0 && is_lead(s[0]) {
        without_lead(s.skip(1))
    } else {
        s
    }
}

/// The JSON that starts the line at `at`, or a later one.
pub open spec fn json_from(text: Seq<char>, at: int) -> Option<Tree>
    decreases text.len() - at + 1,
    via json_from_ends
{
    if at < 0 || at > text.len() {
        None
    } else {
        let rest = without_lead(text.skip(at));
        let next = at + find(text.skip(at), '\n') + 1;
        if rest.len() > 0 && (rest[0] == '[' || rest[0] == '{') && json_at_start(rest) is Some {
            json_at_start(rest)
        } else if next > text.len() {
            None
        } else {
            json_from(text, next)
        }
    }
}

#[via_fn]
proof fn json_from_ends(text: Seq<char>, at: int) {
}

fn lead_end(s: &[char], at: usize) -> (r: usize)
    requires
        at <= s@.len(),
    ensures
        at <= r <= s@.len(),
        without_lead(s@.skip(at as int)) == s@.skip(r as int),
{
    let mut i: usize = at;
    while i < s.len() && (s[i] == '\u{feff}' || s[i] == ' ' || s[i] == '\t' || s[i] == '\r')
        invariant
            at <= i <= s@.len(),
            without_lead(s@.skip(at as int)) == without_lead(s@.skip(i as int)),
        decreases s@.len() - i,
    {
        proof {
            assert(s@.skip(i as int).skip(1) =~= s@.skip(i + 1));
        }
        i = i + 1;
    }
    i
}

/// The JSON in PowerShell's output: it starts a line; anything else that may be printed
/// around it is ignored.
fn find_json(text: &[char]) -> (r: Option<Node>)
    ensures
        match r {
            Some(v) => json_from(text@, 0) == Some(v@),
            None => json_from(text@, 0) is None,
        },
{
    let mut at: usize = 0;
    loop
        invariant
            at <= text@.len(),
            json_from(text@, 0) == json_from(text@, at as int),
        decreases text@.len() - at,
    {
        let start: usize = lead_end(text, at);
        if start < text.len() && (text[start] == '[' || text[start] == '{') {
            let rest: Vec<char> = part(text, start, text.len());
            assert(rest@ =~= text@.skip(start as int));
            let s: String = string(&rest);
            match json_start(s.as_str()) {
                Some(v) => {
                    return Some(v);
                },
                None => {},
            }
        }
        let end: usize = find_from(text, at, '\n');
        if end >= text.len() {
            return None;
        }
        at = end + 1;
    }
}

/// The disks in the JSON: an array, or a lone disk without it.
pub open spec fn disks_of(json: Tree) -> Seq<Tree> {
    match json {
        Tree::List(list) => list,
        Tree::Table(_) => if json.member("value"@) is Some && json.member("Count"@) is Some {
            items_in(json.member("value"@))
        } else {
            seq![json]
        },
        _ => Seq::empty(),
    }
}

pub open spec fn drives_in(disks: Seq<Tree>) -> Seq<Described>
    decreases disks.len(),
{
    if disks.len() == 0 {
        Seq::empty()
    } else {
        match drive_of(disks.last()) {
            Some(d) => drives_in(disks.drop_last()).push(d),
            None => drives_in(disks.drop_last()),
        }
    }
}

fn disks<'a>(json: &'a Node) -> (r: Vec<&'a Node>)
    ensures
        refs(r@) == disks_of(json@),
{
    let mut r: Vec<&Node> = Vec::new();
    proof {
        assert(refs(r@) =~= Seq::<Tree>::empty());
    }
    match json {
        Node::List(list) => {
            let mut i: usize = 0;
            while i < list.len()
                invariant
                    i <= list@.len(),
                    refs(r@) == values(list@).take(i as int),
                decreases list@.len() - i,
            {
                let ghost before = r@;
                r.push(&list[i]);
                proof {
                    assert(refs(r@) =~= refs(before).push(list@[i as int]@));
                    assert(values(list@).take(i + 1) =~= values(list@).take(i as int).push(list@[i as int]@));
                }
                i = i + 1;
            }
            proof {
                assert(values(list@).take(list@.len() as int) =~= values(list@));
            }
            r
        },
        Node::Table(_) => {
            if json.get("value").is_some() && json.get("Count").is_some() {
                items(json, "value")
            } else {
                r.push(json);
                assert(refs(r@) =~= seq![json@]);
                r
            }
        },
        _ => r,
    }
}

/// The drives in what the script printed.
pub fn parse(stdout: &[u8]) -> (r: Result<Vec<Drive>, String>)
    ensures
        match (r, json_from(lossy(stdout@), 0)) {
            (Ok(v), Some(json)) => described(v@) == drives_in(disks_of(json)),
            (Err(e), None) => {
                let what = first_of(lines(lossy(stdout@)));
                e@ == (if what.len() == 0 {
                    "PowerShell listed no drives (is PowerShell working on this system?)"@
                } else {
                    "couldn't read PowerShell's list of drives: "@ + what
                })
            },
            _ => false,
        },
{
    let text: String = from_utf8_lossy(stdout);
    let v: Vec<char> = chars(text.as_str());
    match find_json(&v) {
        None => {
            let what: String = first_line(stdout);
            if chars(what.as_str()).len() == 0 {
                Err("PowerShell listed no drives (is PowerShell working on this system?)".to_owned())
            } else {
                let mut s: String = "couldn't read PowerShell's list of drives: ".to_owned();
                s.append(what.as_str());
                Err(s)
            }
        },
        Some(json) => {
            let list: Vec<&Node> = disks(&json);
            let mut r: Vec<Drive> = Vec::new();
            let mut i: usize = 0;
            let ghost all = refs(list@);
            proof {
                assert(described(r@) =~= Seq::<Described>::empty());
                assert(all.take(0) =~= Seq::<Tree>::empty());
            }
            while i < list.len()
                invariant
                    i <= list@.len(),
                    all == refs(list@),
                    described(r@) == drives_in(all.take(i as int)),
                decreases list@.len() - i,
            {
                proof {
                    assert(all.take(i + 1).drop_last() =~= all.take(i as int));
                    assert(all.take(i + 1).last() == list@[i as int]@);
                }
                let ghost before = r@;
                match drive(list[i]) {
                    Some(d) => {
                        r.push(d);
                        proof {
                            assert(described(r@) =~= described(before).push(drive_of(list@[i as int]@)->0));
                        }
                    },
                    None => {},
                }
                i = i + 1;
            }
            proof {
                assert(all.take(list@.len() as int) =~= all);
            }
            Ok(r)
        },
    }
}

// Drives.

/// The number of a disk.
pub open spec fn number_of(v: Option<Tree>) -> Option<u64> {
    match v {
        Some(Tree::Number(n)) => n,
        Some(Tree::Text(s)) => u64_in(trim(s)),
        _ => None,
    }
}

fn disk_number(d: &Node) -> (r: Option<u64>)
    ensures
        r == number_of(d@.member("Number"@)),
{
    match d.get("Number") {
        Some(Node::Number(n)) => *n,
        Some(Node::Text(s)) => {
            let c: Vec<char> = chars(s.as_str());
            let t: Vec<char> = trimmed(&c);
            parse_u64(&t)
        },
        _ => None,
    }
}

/// Get-Disk's BusType names, by number (STORAGE_BUS_TYPE), in case it comes as a number.
pub open spec fn bus_type(n: usize) -> Seq<char> {
    if n == 0 {
        "Unknown"@
    } else if n == 1 {
        "SCSI"@
    } else if n == 2 {
        "ATAPI"@
    } else if n == 3 {
        "ATA"@
    } else if n == 4 {
        "1394"@
    } else if n == 5 {
        "SSA"@
    } else if n == 6 {
        "Fibre Channel"@
    } else if n == 7 {
        "USB"@
    } else if n == 8 {
        "RAID"@
    } else if n == 9 {
        "iSCSI"@
    } else if n == 10 {
        "SAS"@
    } else if n == 11 {
        "SATA"@
    } else if n == 12 {
        "SD"@
    } else if n == 13 {
        "MMC"@
    } else if n == 14 {
        "Virtual"@
    } else if n == 15 {
        "File Backed Virtual"@
    } else if n == 16 {
        "Storage Spaces"@
    } else if n == 17 {
        "NVMe"@
    } else if n == 18 {
        "SCM"@
    } else if n == 19 {
        "UFS"@
    } else {
        "Unknown"@
    }
}

fn bus_name(n: usize) -> (s: &'static str)
    ensures
        s@ == bus_type(n),
{
    if n == 0 {
        "Unknown"
    } else if n == 1 {
        "SCSI"
    } else if n == 2 {
        "ATAPI"
    } else if n == 3 {
        "ATA"
    } else if n == 4 {
        "1394"
    } else if n == 5 {
        "SSA"
    } else if n == 6 {
        "Fibre Channel"
    } else if n == 7 {
        "USB"
    } else if n == 8 {
        "RAID"
    } else if n == 9 {
        "iSCSI"
    } else if n == 10 {
        "SAS"
    } else if n == 11 {
        "SATA"
    } else if n == 12 {
        "SD"
    } else if n == 13 {
        "MMC"
    } else if n == 14 {
        "Virtual"
    } else if n == 15 {
        "File Backed Virtual"
    } else if n == 16 {
        "Storage Spaces"
    } else if n == 17 {
        "NVMe"
    } else if n == 18 {
        "SCM"
    } else if n == 19 {
        "UFS"
    } else {
        "Unknown"
    }
}

pub open spec fn bus_of(v: Seq<char>) -> Seq<char> {
    match usize_in(v) {
        Some(n) => bus_type(n),
        None => v,
    }
}

/// What kind of drive it is, its bus, and whether it can be taken out.
pub open spec fn kind_of(bus: Seq<char>) -> (DriveKind, Seq<char>, bool) {
    if bus == "USB"@ {
        (DriveKind::Usb, bus, true)
    } else if bus == "SD"@ || bus == "MMC"@ {
        (DriveKind::Sd, "SD"@, true)
    } else if bus == "NVMe"@ || bus == "SCM"@ || bus == "UFS"@ {
        (DriveKind::Ssd, bus, false)
    } else if bus == "File Backed Virtual"@ {
        (DriveKind::Virtual, "VHD"@, false)
    } else if bus == "Virtual"@ {
        (DriveKind::Virtual, bus, false)
    } else if bus == "Unknown"@ || bus.len() == 0 {
        (DriveKind::Hdd, ""@, false)
    } else {
        (DriveKind::Hdd, bus, false)
    }
}

fn kind(bus: String) -> (r: (DriveKind, String, bool))
    ensures
        (r.0, r.1@, r.2) == kind_of(bus@),
{
    let b: &str = bus.as_str();
    if same(b, "USB") {
        (DriveKind::Usb, bus, true)
    } else if same(b, "SD") || same(b, "MMC") {
        (DriveKind::Sd, "SD".to_owned(), true)
    } else if same(b, "NVMe") || same(b, "SCM") || same(b, "UFS") {
        (DriveKind::Ssd, bus, false)
    } else if same(b, "File Backed Virtual") {
        (DriveKind::Virtual, "VHD".to_owned(), false)
    } else if same(b, "Virtual") {
        (DriveKind::Virtual, bus, false)
    } else if same(b, "Unknown") || chars(b).len() == 0 {
        (DriveKind::Hdd, "".to_owned(), false)
    } else {
        (DriveKind::Hdd, bus, false)
    }
}

/// The letter of a volume, in upper case.
pub open spec fn letter_of(v: Tree) -> Option<char> {
    match said(v.member("Letter"@)) {
        Some(l) => if l.len() == 1 && ('a' <= l[0] <= 'z' || 'A' <= l[0] <= 'Z') {
            Some(upper_char(l[0]))
        } else {
            None
        },
        None => None,
    }
}

fn letter(v: &Node) -> (r: Option<char>)
    ensures
        r == letter_of(v@),
{
    match text(v, "Letter") {
        Some(l) => {
            let c: Vec<char> = chars(l.as_str());
            if c.len() == 1 && (('a' <= c[0] && c[0] <= 'z') || ('A' <= c[0] && c[0] <= 'Z')) {
                Some(to_upper(c[0]))
            } else {
                None
            }
        },
        None => None,
    }
}

/// `\\?\Volume{…}\` → `\\?\Volume{…}`: the volume itself (with the backslash, it would be its
/// root folder).
pub open spec fn volume_of(path: Seq<char>) -> Option<Seq<char>> {
    if !starts(path, "\\\\?\\"@) {
        None
    } else {
        let guid = strip_end(path.skip(4), '\\');
        if starts(guid, "Volume{"@) && ends(guid, "}"@) && !guid.contains('\\') && !guid.contains('/') {
            Some("\\\\?\\"@ + guid)
        } else {
            None
        }
    }
}

fn has_char(s: &[char], c: char) -> (r: bool)
    ensures
        r == s@.contains(c),
{
    let mut i: usize = 0;
    while i < s.len()
        invariant
            i <= s@.len(),
            forall|k: int| 0 <= k < i ==> s@[k] != c,
        decreases s@.len() - i,
    {
        if s[i] == c {
            assert(s@[i as int] == c);
            return true;
        }
        i = i + 1;
    }
    false
}

/// `\\?\Volume{…}\` → `\\?\Volume{…}`: the volume itself (with the backslash, it would be its
/// root folder), as the worker's lock takes it.
pub fn volume_name(path: &str) -> (r: Option<String>)
    ensures
        match r {
            Some(s) => volume_of(path@) == Some(s@),
            None => volume_of(path@) is None,
        },
{
    let v: Vec<char> = chars(path);
    proof {
        reveal_strlit("\\\\?\\");
    }
    if !starts_with(&v, "\\\\?\\") {
        return None;
    }
    let rest: Vec<char> = part(&v, 4, v.len());
    assert(rest@ =~= path@.skip(4));
    let guid: Vec<char> = stripped_end(&rest, '\\');
    if starts_with(&guid, "Volume{") && ends_with(&guid, "}") && !has_char(&guid, '\\') && !has_char(&guid, '/') {
        let mut s: String = "\\\\?\\".to_owned();
        s.append(string(&guid).as_str());
        Some(s)
    } else {
        None
    }
}

/// What the worker locks of a volume: its letter, else its name.
pub open spec fn lock_of(v: Tree) -> Option<Seq<char>> {
    match letter_of(v) {
        Some(l) => Some(seq![l, ':']),
        None => match said(v.member("Guid"@)) {
            Some(g) => volume_of(g),
            None => None,
        },
    }
}

/// The texts in a list, as they are.
pub open spec fn folders_of(list: Seq<Tree>) -> Seq<Seq<char>>
    decreases list.len(),
{
    if list.len() == 0 {
        Seq::empty()
    } else {
        match list.last() {
            Tree::Text(s) => folders_of(list.drop_last()).push(s),
            _ => folders_of(list.drop_last()),
        }
    }
}

/// Where a volume is mounted: its letter, and folders.
pub open spec fn mounts_of(v: Tree) -> Seq<Seq<char>> {
    (match letter_of(v) {
        Some(l) => seq![seq![l, ':', '\\']],
        None => Seq::empty(),
    }) + folders_of(items_in(v.member("Folders"@)))
}

/// A volume in words: its label and file system.
pub open spec fn volume_text(v: Tree) -> Option<Seq<char>> {
    match (said(v.member("Label"@)), said(v.member("FileSystem"@))) {
        (Some(label), Some(fs)) => Some(label + " ("@ + fs + ")"@),
        (Some(label), None) => Some(label),
        (None, fs) => fs,
    }
}

/// Those that can be locked; the others are not looked at.
pub open spec fn all_locks(volumes: Seq<Tree>) -> Seq<Seq<char>>
    decreases volumes.len(),
{
    if volumes.len() == 0 {
        Seq::empty()
    } else {
        match lock_of(volumes.last()) {
            Some(l) => all_locks(volumes.drop_last()).push(l),
            None => all_locks(volumes.drop_last()),
        }
    }
}

pub open spec fn all_mounts(volumes: Seq<Tree>) -> Seq<Seq<char>>
    decreases volumes.len(),
{
    if volumes.len() == 0 {
        Seq::empty()
    } else if lock_of(volumes.last()) is Some {
        all_mounts(volumes.drop_last()) + mounts_of(volumes.last())
    } else {
        all_mounts(volumes.drop_last())
    }
}

pub open spec fn all_texts(volumes: Seq<Tree>) -> Seq<Seq<char>>
    decreases volumes.len(),
{
    if volumes.len() == 0 {
        Seq::empty()
    } else if lock_of(volumes.last()) is Some && volume_text(volumes.last()) is Some {
        all_texts(volumes.drop_last()).push(volume_text(volumes.last())->0)
    } else {
        all_texts(volumes.drop_last())
    }
}

struct Found {
    mounts: Vec<String>,
    volumes: Vec<String>,
    lock: Vec<String>,
}

fn push_folders(out: &mut Vec<String>, list: &Vec<&Node>)
    ensures
        texts(final(out)@) == texts(old(out)@) + folders_of(refs(list@)),
{
    let mut i: usize = 0;
    let ghost all = refs(list@);
    proof {
        assert(all.take(0) =~= Seq::<Tree>::empty());
        assert(texts(out@) + folders_of(all.take(0)) =~= texts(out@));
    }
    while i < list.len()
        invariant
            i <= list@.len(),
            all == refs(list@),
            texts(out@) == texts(old(out)@) + folders_of(all.take(i as int)),
        decreases list@.len() - i,
    {
        proof {
            assert(all.take(i + 1).drop_last() =~= all.take(i as int));
            assert(all.take(i + 1).last() == list@[i as int]@);
        }
        let ghost before = out@;
        match list[i] {
            Node::Text(s) => {
                out.push(s.as_str().to_owned());
                proof {
                    assert(texts(out@) =~= texts(before).push(s@));
                    let f = folders_of(all.take(i as int));
                    assert((texts(old(out)@) + f).push(s@) =~= texts(old(out)@) + f.push(s@));
                }
            },
            _ => {},
        }
        i = i + 1;
    }
    proof {
        assert(all.take(list@.len() as int) =~= all);
    }
}

fn lock_name(v: &Node) -> (r: Option<String>)
    ensures
        match r {
            Some(s) => lock_of(v@) == Some(s@),
            None => lock_of(v@) is None,
        },
{
    match letter(v) {
        Some(l) => {
            let mut c: Vec<char> = Vec::new();
            c.push(l);
            c.push(':');
            assert(c@ =~= seq![l, ':']);
            Some(string(&c))
        },
        None => match text(v, "Guid") {
            Some(g) => volume_name(g.as_str()),
            None => None,
        },
    }
}

fn volume_words(v: &Node) -> (r: Option<String>)
    ensures
        match r {
            Some(s) => volume_text(v@) == Some(s@),
            None => volume_text(v@) is None,
        },
{
    match (text(v, "Label"), text(v, "FileSystem")) {
        (Some(label), Some(fs)) => {
            let mut s: String = label;
            s.append(" (");
            s.append(fs.as_str());
            s.append(")");
            Some(s)
        },
        (Some(label), None) => Some(label),
        (None, fs) => fs,
    }
}

fn add_volume(v: &Node, f: &mut Found)
    ensures
        texts(final(f).lock@) == (match lock_of(v@) {
            Some(l) => texts(old(f).lock@).push(l),
            None => texts(old(f).lock@),
        }),
        texts(final(f).mounts@) == (if lock_of(v@) is Some {
            texts(old(f).mounts@) + mounts_of(v@)
        } else {
            texts(old(f).mounts@)
        }),
        texts(final(f).volumes@) == (if lock_of(v@) is Some && volume_text(v@) is Some {
            texts(old(f).volumes@).push(volume_text(v@)->0)
        } else {
            texts(old(f).volumes@)
        }),
{
    match lock_name(v) {
        None => {
            return;
        },
        Some(l) => {
            f.lock.push(l);
            proof {
                assert(texts(f.lock@) =~= texts(old(f).lock@).push(lock_of(v@)->0));
            }
        },
    }
    if let Some(l) = letter(v) {
        let mut c: Vec<char> = Vec::new();
        c.push(l);
        c.push(':');
        c.push('\\');
        let ghost made = c@;
        f.mounts.push(string(&c));
        proof {
            assert(made =~= seq![l, ':', '\\']);
            assert(texts(f.mounts@) =~= texts(old(f).mounts@) + seq![made]);
        }
    }
    let ghost so_far = texts(f.mounts@);
    let folders: Vec<&Node> = items(v, "Folders");
    push_folders(&mut f.mounts, &folders);
    proof {
        let rest = folders_of(items_in(v@.member("Folders"@)));
        assert(so_far + rest =~= texts(old(f).mounts@) + mounts_of(v@));
    }
    if let Some(t) = volume_words(v) {
        f.volumes.push(t);
        proof {
            assert(texts(f.volumes@) =~= texts(old(f).volumes@).push(volume_text(v@)->0));
        }
    }
}

fn found(d: &Node) -> (f: Found)
    ensures
        texts(f.lock@) == all_locks(items_in(d@.member("Volumes"@))),
        texts(f.mounts@) == all_mounts(items_in(d@.member("Volumes"@))),
        texts(f.volumes@) == all_texts(items_in(d@.member("Volumes"@))),
{
    let list: Vec<&Node> = items(d, "Volumes");
    let ghost all = refs(list@);
    let mut f: Found = Found { mounts: Vec::new(), volumes: Vec::new(), lock: Vec::new() };
    let mut i: usize = 0;
    proof {
        assert(all.take(0) =~= Seq::<Tree>::empty());
        assert(texts(f.lock@) =~= Seq::<Seq<char>>::empty());
        assert(texts(f.mounts@) =~= Seq::<Seq<char>>::empty());
        assert(texts(f.volumes@) =~= Seq::<Seq<char>>::empty());
    }
    while i < list.len()
        invariant
            i <= list@.len(),
            all == refs(list@),
            texts(f.lock@) == all_locks(all.take(i as int)),
            texts(f.mounts@) == all_mounts(all.take(i as int)),
            texts(f.volumes@) == all_texts(all.take(i as int)),
        decreases list@.len() - i,
    {
        proof {
            assert(all.take(i + 1).drop_last() =~= all.take(i as int));
            assert(all.take(i + 1).last() == list@[i as int]@);
        }
        add_volume(list[i], &mut f);
        i = i + 1;
    }
    proof {
        assert(all.take(list@.len() as int) =~= all);
    }
    f
}

/// What a disk is called: without what Windows puts behind it.
pub open spec fn name_of(d: Tree, number: u64) -> Seq<char> {
    let name = tidied(
        strip_suffixes(
            strip_suffixes(or_empty(said(d.member("Name"@))), " USB Device"@),
            " SCSI Disk Device"@,
        ),
    );
    if name.len() == 0 {
        "Disk "@ + decimal(number as nat)
    } else {
        name
    }
}

fn name(d: &Node, number: u64) -> (s: String)
    ensures
        s@ == name_of(d@, number),
{
    let v: Vec<char> = match text(d, "Name") {
        Some(n) => chars(n.as_str()),
        None => Vec::new(),
    };
    assert(v@ =~= or_empty(said(d@.member("Name"@))));
    let a: Vec<char> = suffixes_stripped(&v, " USB Device");
    let b: Vec<char> = suffixes_stripped(&a, " SCSI Disk Device");
    let t: String = tidy(string(&b).as_str());
    if chars(t.as_str()).len() == 0 {
        let mut s: String = "Disk ".to_owned();
        push_decimal(&mut s, number);
        s
    } else {
        t
    }
}

/// A listed disk as a drive.
pub open spec fn drive_of(d: Tree) -> Option<Described> {
    match number_of(d.member("Number"@)) {
        None => None,
        Some(number) => {
            let size = number_in(d.member("Size"@));
            let (kind, bus, removable) = kind_of(bus_of(or_empty(said(d.member("Bus"@)))));
            let volumes = items_in(d.member("Volumes"@));
            let path = "\\\\.\\PhysicalDrive"@ + decimal(number as nat);
            if size == 0 {
                None
            } else {
                Some(
                    Described {
                        path,
                        io_path: path,
                        name: name_of(d, number),
                        size,
                        bus,
                        kind,
                        // eSATA, Thunderbolt and some USB enclosures (UAS) report SATA, NVMe or
                        // SCSI; Windows still calls their media external.
                        removable: removable || (flag_in(d.member("External"@)) && kind != DriveKind::Virtual),
                        system: flag_in(d.member("System"@)),
                        // A dynamic disk's volumes can span disks and aren't locked here: it is
                        // only read.
                        read_only: flag_in(d.member("ReadOnly"@)) || flag_in(d.member("Dynamic"@)),
                        mountpoints: all_mounts(volumes),
                        volumes: all_texts(volumes),
                        unmount: Seq::empty(),
                        lock: all_locks(volumes),
                    },
                )
            }
        },
    }
}

/// A listed disk as a drive.
pub fn drive(d: &Node) -> (r: Option<Drive>)
    ensures
        match r {
            Some(v) => drive_of(d@) == Some(v@),
            None => drive_of(d@) is None,
        },
{
    let number: u64 = match disk_number(d) {
        Some(n) => n,
        None => {
            return None;
        },
    };
    let size: u64 = crate::drives::number(d, "Size");
    if size == 0 {
        return None;
    }
    let bus: String = match text(d, "Bus") {
        Some(b) => b,
        None => {
            let s: String = String::new();
            assert(s@ =~= Seq::<char>::empty());
            s
        },
    };
    let c: Vec<char> = chars(bus.as_str());
    let bus: String = match parse_usize(&c) {
        Some(n) => bus_name(n).to_owned(),
        None => bus,
    };
    let (kind, bus, removable) = kind(bus);
    let external: bool = flag(d, "External");
    let is_virtual: bool = kind == DriveKind::Virtual;
    let f: Found = found(d);
    let mut path: String = "\\\\.\\PhysicalDrive".to_owned();
    push_decimal(&mut path, number);
    let mut io_path: String = "\\\\.\\PhysicalDrive".to_owned();
    push_decimal(&mut io_path, number);
    let unmount: Vec<String> = Vec::new();
    let v: Drive = Drive {
        path,
        io_path,
        name: name(d, number),
        size,
        bus,
        kind,
        removable: removable || (external && !is_virtual),
        system: flag(d, "System"),
        read_only: flag(d, "ReadOnly") || flag(d, "Dynamic"),
        mountpoints: f.mounts,
        volumes: f.volumes,
        unmount,
        lock: f.lock,
    };
    proof {
        assert(texts(unmount@) =~= Seq::<Seq<char>>::empty());
    }
    Some(v)
}

proof fn lemma_pushed<T>(s: Seq<T>, a: T, x: T)
    ensures
        s.push(a).contains(x) <==> s.contains(x) || a == x,
{
    if s.contains(x) {
        let k = s.index_of(x);
        assert(s.push(a)[k] == x);
    }
    assert(s.push(a)[s.len() as int] == a);
    if s.push(a).contains(x) && a != x {
        let k = s.push(a).index_of(x);
        assert(s[k] == x);
    }
}

proof fn lemma_folders(list: Seq<Tree>, m: Seq<char>)
    ensures
        folders_of(list).contains(m) <==> list.contains(Tree::Text(m)),
    decreases list.len(),
{
    if list.len() > 0 {
        let rest = list.drop_last();
        lemma_folders(rest, m);
        assert(list =~= rest.push(list.last()));
        lemma_pushed(rest, list.last(), Tree::Text(m));
        if let Tree::Text(s) = list.last() {
            lemma_pushed(folders_of(rest), s, m);
        }
    }
}

/// Is a volume mounted there: by its letter, or in a folder?
pub open spec fn is_mounted(v: Tree, m: Seq<char>) -> bool {
    ||| letter_of(v) matches Some(l) && m == seq![l, ':', '\\']
    ||| items_in(v.member("Folders"@)).contains(Tree::Text(m))
}

proof fn lemma_mounted(v: Tree, m: Seq<char>)
    ensures
        mounts_of(v).contains(m) <==> is_mounted(v, m),
{
    let folders = folders_of(items_in(v.member("Folders"@)));
    lemma_folders(items_in(v.member("Folders"@)), m);
    match letter_of(v) {
        Some(l) => {
            let first = seq![seq![l, ':', '\\']];
            let all = first + folders;
            assert(all[0] == seq![l, ':', '\\']);
            if folders.contains(m) {
                assert(all[folders.index_of(m) + 1] == m);
            }
            if all.contains(m) {
                let k = all.index_of(m);
                if k > 0 {
                    assert(folders[k - 1] == m);
                }
            }
        },
        None => {
            assert(mounts_of(v) =~= folders);
        },
    }
}

proof fn lemma_volumes(volumes: Seq<Tree>, m: Seq<char>)
    ensures
        all_mounts(volumes).contains(m) <==> exists|v: Tree| #[trigger]
            volumes.contains(v) && lock_of(v) is Some && is_mounted(v, m),
        all_locks(volumes).contains(m) <==> exists|v: Tree| #[trigger] volumes.contains(v) && lock_of(v) == Some(m),
        all_texts(volumes).contains(m) <==> exists|v: Tree| #[trigger]
            volumes.contains(v) && lock_of(v) is Some && volume_text(v) == Some(m),
    decreases volumes.len(),
{
    if volumes.len() > 0 {
        let rest = volumes.drop_last();
        let last = volumes.last();
        lemma_volumes(rest, m);
        assert(volumes =~= rest.push(last));
        assert forall|v: Tree| #[trigger] volumes.contains(v) <==> rest.contains(v) || v == last by {
            lemma_pushed(rest, last, v);
        }
        assert(volumes.contains(last));
        assert(forall|v: Tree| #[trigger] rest.contains(v) ==> volumes.contains(v));
        lemma_mounted(last, m);
        if let Some(l) = lock_of(last) {
            lemma_pushed(all_locks(rest), l, m);
            let (a, b) = (all_mounts(rest), mounts_of(last));
            if a.contains(m) {
                assert((a + b)[a.index_of(m)] == m);
            }
            if b.contains(m) {
                assert((a + b)[a.len() + b.index_of(m)] == m);
            }
            if (a + b).contains(m) {
                let k = (a + b).index_of(m);
                if k < a.len() {
                    assert(a[k] == m);
                } else {
                    assert(b[k - a.len()] == m);
                }
            }
            if let Some(t) = volume_text(last) {
                lemma_pushed(all_texts(rest), t, m);
            }
        }
    }
}

/// A drive's mount points, what is locked of it and its volumes in words are those of its
/// volumes that can be locked: none is missed, and no other is among them.
pub proof fn law_no_volume_is_missed(d: Tree, m: Seq<char>)
    ensures
        drive_of(d) matches Some(r) ==> {
            let volumes = items_in(d.member("Volumes"@));
            &&& r.mountpoints.contains(m) <==> exists|v: Tree| #[trigger]
                volumes.contains(v) && lock_of(v) is Some && is_mounted(v, m)
            &&& r.lock.contains(m) <==> exists|v: Tree| #[trigger] volumes.contains(v) && lock_of(v) == Some(m)
            &&& r.volumes.contains(m) <==> exists|v: Tree| #[trigger]
                volumes.contains(v) && lock_of(v) is Some && volume_text(v) == Some(m)
        },
{
    lemma_volumes(items_in(d.member("Volumes"@)), m);
}

/// A disk that runs Windows is marked; one that is read-only or dynamic is only read; a drive is
/// the physical drive of the disk's number.
pub proof fn law_disks_are_what_the_system_says(d: Tree)
    ensures
        drive_of(d) matches Some(r) ==> {
            &&& r.system <==> flag_in(d.member("System"@))
            &&& r.read_only <==> flag_in(d.member("ReadOnly"@)) || flag_in(d.member("Dynamic"@))
            &&& flag_in(d.member("External"@)) && r.kind != DriveKind::Virtual ==> r.removable
            &&& r.size > 0 && r.size == number_in(d.member("Size"@))
            &&& number_of(d.member("Number"@)) matches Some(n) && r.path == "\\\\.\\PhysicalDrive"@ + decimal(n as nat)
            &&& r.io_path == r.path
        },
{
}

/// Every disk in the list is looked at.
pub proof fn law_every_disk_is_looked_at(disks: Seq<Tree>, r: Described)
    ensures
        drives_in(disks).contains(r) <==> exists|d: Tree| #[trigger] disks.contains(d) && drive_of(d) == Some(r),
    decreases disks.len(),
{
    if disks.len() > 0 {
        let rest = disks.drop_last();
        law_every_disk_is_looked_at(rest, r);
        assert(disks =~= rest.push(disks.last()));
        assert forall|d: Tree| #[trigger] disks.contains(d) <==> rest.contains(d) || d == disks.last() by {
            lemma_pushed(rest, disks.last(), d);
        }
        assert(disks.contains(disks.last()));
        assert(forall|d: Tree| #[trigger] rest.contains(d) ==> disks.contains(d));
        if let Some(x) = drive_of(disks.last()) {
            lemma_pushed(drives_in(rest), x, r);
        }
    }
}

} // verus!
