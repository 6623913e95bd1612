//! Desktop integration on Linux, with no installer: each time the program starts, it puts its
//! icons and a desktop entry in the user's data directory (`$XDG_DATA_HOME`, usually
//! `~/.local/share`). The entry's `Exec` is the running binary, so a moved binary is picked up
//! on its next start.

use vstd::prelude::*;
use vstd::string::*;
use crate::text::{
    chars, decimal, ends, ends_with, lemma_replace_char_first, lines, part, push_decimal, replace_char, replaced,
    split_lines, starts, starts_with, string, views,
};

verus! {

/// Set to anything, the data directory is left alone.
pub const OPT_OUT: &'static str = "DD_GUI_NO_DESKTOP_INTEGRATION";

pub const HEADER: &'static str =
    "# Written by DD-GUI each time it starts, with Exec pointing at the program, so menus,\n# docks and taskbars find it and its icon. To have this file (and the dd-gui icons)\n# left alone, set DD_GUI_NO_DESKTOP_INTEGRATION=1.\n";

/// The entry; `Exec` and `TryExec` become the running binary's path.
pub const TEMPLATE: &'static str = r#"[Desktop Entry]
Type=Application
Name=DD-GUI
GenericName=Disk Imager
Comment=Flash, back up, clone and wipe drives
Exec=dd-gui %f
TryExec=dd-gui
Icon=dd-gui
StartupWMClass=dd-gui
Terminal=false
Categories=System;Utility;
MimeType=application/vnd.efi.iso;application/x-cd-image;application/vnd.efi.img;application/x-raw-disk-image;application/x-raw-disk-image-xz-compressed;application/gzip;application/x-xz;application/zstd;application/zip;application/x-apple-diskimage;application/x-vhd-disk;application/x-vhdx-disk;application/x-vmdk-disk;application/x-qemu-disk;
"#;

/// Does a path start at the root?
pub open spec fn is_absolute(path: Seq<char>) -> bool {
    path.len() > 0 && path[0] == '/'
}

fn absolute(path: &str) -> (r: bool)
    ensures
        r == is_absolute(path@),
{
    let v: Vec<char> = chars(path);
    v.len() > 0 && v[0] == '/'
}

/// A folder and what is below it, as one path.
pub open spec fn joined_path(dir: Seq<char>, below: Seq<char>) -> Seq<char> {
    if dir.len() > 0 && dir.last() != '/' {
        dir + "/"@ + below
    } else {
        dir + below
    }
}

pub open spec fn data_home_of(xdg: Option<Seq<char>>, home: Option<Seq<char>>) -> Option<Seq<char>> {
    if xdg matches Some(dir) && is_absolute(dir) {
        xdg
    } else {
        match home {
            Some(h) => if is_absolute(h) {
                Some(joined_path(h, ".local/share"@))
            } else {
                None
            },
            None => None,
        }
    }
}

/// `$XDG_DATA_HOME`, or `$HOME/.local/share` when that's unset, empty or relative (the XDG
/// Base Directory rules). None without a usable home.
pub fn data_home(xdg_data_home: Option<String>, home: Option<String>) -> (r: Option<String>)
    ensures
        match r {
            Some(s) => data_home_of(shown(xdg_data_home), shown(home)) == Some(s@),
            None => data_home_of(shown(xdg_data_home), shown(home)) is None,
        },
{
    if let Some(dir) = xdg_data_home {
        if absolute(dir.as_str()) {
            return Some(dir);
        }
    }
    match home {
        Some(h) => {
            if !absolute(h.as_str()) {
                return None;
            }
            let v: Vec<char> = chars(h.as_str());
            let mut s: String = h;
            if v[v.len() - 1] != '/' {
                s.append("/");
            }
            s.append(".local/share");
            Some(s)
        },
        None => None,
    }
}

pub open spec fn shown(s: Option<String>) -> Option<Seq<char>> {
    match s {
        Some(t) => Some(t@),
        None => None,
    }
}

/// The path of a binary that was replaced or deleted while it ran ends in " (deleted)". The
/// file at the original path, if any, is the one to start next time.
pub open spec fn binary_of(exe: Seq<char>, exists: bool) -> Seq<char> {
    if !exists && ends(exe, " (deleted)"@) {
        exe.take(exe.len() - 10)
    } else {
        exe
    }
}

/// The path of the running binary, which the system gives as `exe`; `exists` if there is a
/// file there.
pub fn running_binary(exe: String, exists: bool) -> (s: String)
    ensures
        s@ == binary_of(exe@, exists),
{
    if exists {
        return exe;
    }
    let v: Vec<char> = chars(exe.as_str());
    proof {
        reveal_strlit(" (deleted)");
    }
    if ends_with(&v, " (deleted)") {
        let w: Vec<char> = part(&v, 0, v.len() - 10);
        assert(w@ =~= exe@.take(exe@.len() - 10));
        string(&w)
    } else {
        exe
    }
}

/// Is the data directory left alone: for root, or when asked to?
pub fn leaves_alone(root: bool, opted_out: bool) -> (r: bool)
    ensures
        r == (root || opted_out),
{
    root || opted_out
}

/// Where an icon goes below the data directory.
pub fn icon_path(size: u64) -> (s: String)
    ensures
        s@ == "icons/hicolor/"@ + decimal(size as nat) + "x"@ + decimal(size as nat) + "/apps/dd-gui.png"@,
{
    let mut s: String = "icons/hicolor/".to_owned();
    push_decimal(&mut s, size);
    s.append("x");
    push_decimal(&mut s, size);
    s.append("/apps/dd-gui.png");
    s
}

/// Does a file have to be written: is it not there, or does it hold something else?
pub fn outdated(before: &Option<Vec<u8>>, data: &[u8]) -> (r: bool)
    ensures
        r == !(before matches Some(o) && o@ == data@),
{
    match before {
        Some(o) => {
            if o.len() != data.len() {
                return true;
            }
            let mut i: usize = 0;
            while i < data.len()
                invariant
                    i <= data@.len(),
                    *before == Some(*o),
                    o@.len() == data@.len(),
                    forall|k: int| 0 <= k < i ==> o@[k] == data@[k],
                decreases data@.len() - i,
            {
                if o[i] != data[i] {
                    assert(o@[i as int] != data@[i as int]);
                    return true;
                }
                i = i + 1;
            }
            assert(o@ =~= data@);
            false
        },
        None => true,
    }
}

/// The name of the temporary file that becomes `name`: hidden and without the .desktop or .png
/// extension, so no menu or icon theme picks it up.
pub fn temporary_name(name: &str, pid: u32) -> (s: String)
    ensures
        s@ == "."@ + name@ + "."@ + decimal(pid as nat) + ".tmp"@,
{
    let mut s: String = ".".to_owned();
    s.append(name);
    s.append(".");
    push_decimal(&mut s, pid as u64);
    s.append(".tmp");
    s
}

/// What an installation wrote.
#[derive(Clone, Copy, Debug, PartialEq, Eq, Structural)]
pub struct Changes {
    pub icons: bool,
    pub entry: bool,
}

/// The caches to bring up to date: that of the entries, and that of the icons. Only a cache of
/// icons that is already there: a new one would hide icons that other programs add later without
/// updating it.
pub fn stale_caches(changes: Changes, icon_cache: bool) -> (r: (bool, bool))
    ensures
        r == (changes.entry, changes.icons && icon_cache),
{
    (changes.entry, changes.icons && icon_cache)
}

// The Exec line.

/// A character that an argument of an Exec line has to be quoted for.
pub open spec fn is_reserved(c: char) -> bool {
    c == ' ' || c == '\t' || c == '\n' || c == '"' || c == '\'' || c == '\\' || c == '>' || c == '<' || c == '~' || c
        == '|' || c == '&' || c == ';' || c == '$' || c == '*' || c == '?' || c == '#' || c == '`' || c == '=' || c
        == '(' || c == ')'
}

fn reserved(c: char) -> (r: bool)
    ensures
        r == is_reserved(c),
{
    c == ' ' || c == '\t' || c == '\n' || c == '"' || c == '\'' || c == '\\' || c == '>' || c == '<' || c == '~' || c
        == '|' || c == '&' || c == ';' || c == '$' || c == '*' || c == '?' || c == '#' || c == '`' || c == '=' || c
        == '(' || c == ')'
}

pub open spec fn any_reserved(s: Seq<char>) -> bool {
    exists|i: int| 0 <= i < s.len() && is_reserved(#[trigger] s[i])
}

/// A character that gets a backslash inside quotes.
pub open spec fn is_special(c: char) -> bool {
    c == '"' || c == '`' || c == '$' || c == '\\'
}

/// `s` with a backslash before every special character.
pub open spec fn backslashed(s: Seq<char>) -> Seq<char>
    decreases s.len(),
{
    if s.len() == 0 {
        Seq::empty()
    } else {
        backslashed(s.drop_last()) + (if is_special(s.last()) {
            seq!['\\', s.last()]
        } else {
            seq![s.last()]
        })
    }
}

/// `%` doubled, and quoted when it has a reserved character.
pub open spec fn exec_arg_of(arg: Seq<char>) -> Seq<char> {
    let doubled = replace_char(arg, '%', "%%"@);
    if any_reserved(doubled) {
        seq!['"'] + backslashed(doubled) + seq!['"']
    } else {
        doubled
    }
}

/// `arg` as one argument of an Exec line ("The Exec key" of desktop entries): `%` doubled, and
/// quoted when it has a reserved character. (GNOME won't load an entry whose program path has
/// a `%` in it at all, but other desktops will.)
pub fn exec_arg(arg: &str) -> (r: String)
    ensures
        r@ == exec_arg_of(arg@),
{
    let doubled: String = replaced(arg, '%', "%%");
    let v: Vec<char> = chars(doubled.as_str());
    let mut any: bool = false;
    let mut i: usize = 0;
    let mut out: Vec<char> = Vec::new();
    out.push('"');
    proof {
        assert(v@.take(0) =~= Seq::<char>::empty());
        assert(out@ =~= seq!['"'] + backslashed(v@.take(0)));
    }
    while i < v.len()
        invariant
            i <= v@.len(),
            any == exists|k: int| 0 <= k < i && is_reserved(#[trigger] v@[k]),
            out@ == seq!['"'] + backslashed(v@.take(i as int)),
        decreases v@.len() - i,
    {
        let c: char = v[i];
        let ghost before = out@;
        proof {
            assert(v@.take(i + 1).drop_last() =~= v@.take(i as int));
        }
        if reserved(c) {
            any = true;
            assert(is_reserved(v@[i as int]));
        }
        if c == '"' || c == '`' || c == '$' || c == '\\' {
            out.push('\\');
        }
        out.push(c);
        proof {
            let b = backslashed(v@.take(i as int));
            if is_special(c) {
                assert(out@ =~= seq!['"'] + (b + seq!['\\', c]));
            } else {
                assert(out@ =~= seq!['"'] + (b + seq![c]));
            }
        }
        i = i + 1;
    }
    proof {
        assert(v@.take(v@.len() as int) =~= v@);
    }
    if !any {
        return doubled;
    }
    out.push('"');
    proof {
        assert(out@ =~= seq!['"'] + backslashed(v@) + seq!['"']);
    }
    string(&out)
}

/// A string value in the desktop file's own escaping, which readers undo first. Only `\` needs
/// it here: values never hold control characters, and no value written here starts with a
/// space.
pub fn escape(value: &str) -> (r: String)
    ensures
        r@ == replace_char(value@, '\\', "\\\\"@),
{
    replaced(value, '\\', "\\\\")
}

// How desktops read a value back.

/// A value without the file's escaping.
pub open spec fn unescaped(s: Seq<char>) -> Seq<char>
    decreases s.len(),
{
    if s.len() == 0 {
        Seq::empty()
    } else if s.len() >= 2 && s[0] == '\\' && s[1] == '\\' {
        seq!['\\'] + unescaped(s.skip(2))
    } else {
        seq![s[0]] + unescaped(s.skip(1))
    }
}

/// `%%` as the `%` it stands for.
pub open spec fn expanded(s: Seq<char>) -> Seq<char>
    decreases s.len(),
{
    if s.len() == 0 {
        Seq::empty()
    } else if s.len() >= 2 && s[0] == '%' && s[1] == '%' {
        seq!['%'] + expanded(s.skip(2))
    } else {
        seq![s[0]] + expanded(s.skip(1))
    }
}

/// What is inside quotes, up to the closing one.
pub open spec fn unquoted_from(s: Seq<char>) -> Seq<char>
    decreases s.len(),
{
    if s.len() == 0 || s[0] == '"' {
        Seq::empty()
    } else if s.len() >= 2 && s[0] == '\\' {
        seq![s[1]] + unquoted_from(s.skip(2))
    } else {
        seq![s[0]] + unquoted_from(s.skip(1))
    }
}

/// An argument without its quotes, if it has them.
pub open spec fn unquoted(s: Seq<char>) -> Seq<char> {
    if s.len() > 0 && s[0] == '"' {
        unquoted_from(s.skip(1))
    } else {
        s
    }
}

proof fn lemma_unescaped(s: Seq<char>)
    ensures
        unescaped(replace_char(s, '\\', "\\\\"@)) == s,
    decreases s.len(),
{
    reveal_strlit("\\\\");
    let r = replace_char(s, '\\', "\\\\"@);
    if s.len() == 0 {
        assert(r =~= s);
    } else {
        lemma_replace_char_first(s, '\\', "\\\\"@);
        lemma_unescaped(s.skip(1));
        let rest = replace_char(s.skip(1), '\\', "\\\\"@);
        if s[0] == '\\' {
            assert(r.skip(2) =~= rest);
        } else {
            assert(r.skip(1) =~= rest);
        }
        assert(seq![s[0]] + s.skip(1) =~= s);
    }
}

proof fn lemma_expanded(s: Seq<char>)
    ensures
        expanded(replace_char(s, '%', "%%"@)) == s,
    decreases s.len(),
{
    reveal_strlit("%%");
    let r = replace_char(s, '%', "%%"@);
    if s.len() == 0 {
        assert(r =~= s);
    } else {
        lemma_replace_char_first(s, '%', "%%"@);
        lemma_expanded(s.skip(1));
        let rest = replace_char(s.skip(1), '%', "%%"@);
        if s[0] == '%' {
            assert(r.skip(2) =~= rest);
        } else {
            assert(r.skip(1) =~= rest);
        }
        assert(seq![s[0]] + s.skip(1) =~= s);
    }
}

proof fn lemma_backslashed_first(s: Seq<char>)
    requires
        s.len() > 0,
    ensures
        backslashed(s) == (if is_special(s[0]) {
            seq!['\\', s[0]]
        } else {
            seq![s[0]]
        }) + backslashed(s.skip(1)),
    decreases s.len(),
{
    let f = if is_special(s[0]) {
        seq!['\\', s[0]]
    } else {
        seq![s[0]]
    };
    if s.len() == 1 {
        assert(s.drop_last() =~= Seq::<char>::empty());
        assert(s.skip(1) =~= Seq::<char>::empty());
        assert(Seq::<char>::empty() + f =~= f + Seq::<char>::empty());
    } else {
        lemma_backslashed_first(s.drop_last());
        assert(s.drop_last().skip(1) =~= s.skip(1).drop_last());
        let l = if is_special(s.last()) {
            seq!['\\', s.last()]
        } else {
            seq![s.last()]
        };
        let m = backslashed(s.skip(1).drop_last());
        assert(f + m + l =~= f + (m + l));
    }
}

/// Doubled signs inside quotes are expanded as they are outside of them.
proof fn lemma_expanded_backslashed(s: Seq<char>, tail: Seq<char>)
    requires
        tail == seq!['"'],
    ensures
        expanded(backslashed(replace_char(s, '%', "%%"@)) + tail) == backslashed(s) + tail,
    decreases s.len(),
{
    reveal_strlit("%%");
    let d = replace_char(s, '%', "%%"@);
    if s.len() == 0 {
        assert(d =~= s);
        assert(backslashed(d) + tail =~= tail);
        assert(tail.skip(1) =~= Seq::<char>::empty());
        assert(expanded(Seq::<char>::empty()) =~= Seq::<char>::empty());
        assert(expanded(tail) == seq!['"'] + expanded(tail.skip(1)));
        assert(seq!['"'] + Seq::<char>::empty() =~= tail);
        assert(backslashed(s) + tail =~= tail);
    } else {
        lemma_replace_char_first(s, '%', "%%"@);
        lemma_expanded_backslashed(s.skip(1), tail);
        lemma_backslashed_first(s);
        let rest = replace_char(s.skip(1), '%', "%%"@);
        let b = backslashed(rest) + tail;
        let all = backslashed(d) + tail;
        let e = backslashed(s.skip(1)) + tail;
        if s[0] == '%' {
            lemma_backslashed_first(d);
            assert(d.skip(1) =~= seq!['%'] + rest);
            lemma_backslashed_first(d.skip(1));
            assert(d.skip(1).skip(1) =~= rest);
            assert(all =~= seq!['%', '%'] + b);
            assert(all.skip(2) =~= b);
            assert(seq!['%'] + e =~= backslashed(s) + tail);
        } else {
            lemma_backslashed_first(d);
            assert(d.skip(1) =~= rest);
            if is_special(s[0]) {
                assert(all =~= seq!['\\', s[0]] + b);
                assert(all.skip(1) =~= seq![s[0]] + b);
                assert(all.skip(1).skip(1) =~= b);
                assert(expanded(all.skip(1)) == seq![s[0]] + expanded(b));
                assert(expanded(all) == seq!['\\'] + expanded(all.skip(1)));
                assert(seq!['\\'] + (seq![s[0]] + e) =~= backslashed(s) + tail);
            } else {
                assert(all =~= seq![s[0]] + b);
                assert(all.skip(1) =~= b);
                assert(seq![s[0]] + e =~= backslashed(s) + tail);
            }
        }
    }
}

proof fn lemma_unquoted(s: Seq<char>, tail: Seq<char>)
    requires
        tail == seq!['"'],
    ensures
        unquoted_from(backslashed(s) + tail) == s,
    decreases s.len(),
{
    if s.len() == 0 {
        assert(backslashed(s) + tail =~= tail);
    } else {
        lemma_backslashed_first(s);
        lemma_unquoted(s.skip(1), tail);
        let all = backslashed(s) + tail;
        let rest = backslashed(s.skip(1)) + tail;
        if is_special(s[0]) {
            assert(all =~= seq!['\\', s[0]] + rest);
            assert(all.skip(2) =~= rest);
        } else {
            assert(all =~= seq![s[0]] + rest);
            assert(all.skip(1) =~= rest);
        }
        assert(seq![s[0]] + s.skip(1) =~= s);
    }
}

proof fn lemma_doubling_keeps_reserved(s: Seq<char>)
    ensures
        any_reserved(replace_char(s, '%', "%%"@)) == any_reserved(s),
    decreases s.len(),
{
    reveal_strlit("%%");
    let d = replace_char(s, '%', "%%"@);
    if s.len() == 0 {
        assert(d =~= s);
    } else {
        let rest = s.drop_last();
        let before = replace_char(rest, '%', "%%"@);
        lemma_doubling_keeps_reserved(rest);
        if any_reserved(d) {
            let i = choose|i: int| 0 <= i < d.len() && is_reserved(#[trigger] d[i]);
            if i < before.len() {
                assert(before[i] == d[i]);
                let k = choose|k: int| 0 <= k < rest.len() && is_reserved(#[trigger] rest[k]);
                assert(s[k] == rest[k]);
            } else {
                assert(s[s.len() - 1] == d[i]);
            }
        }
        if any_reserved(s) {
            let i = choose|i: int| 0 <= i < s.len() && is_reserved(#[trigger] s[i]);
            if i < rest.len() {
                assert(rest[i] == s[i]);
                let k = choose|k: int| 0 <= k < before.len() && is_reserved(#[trigger] before[k]);
                assert(d[k] == before[k]);
            } else {
                assert(d[before.len() as int] == s[i]);
            }
        }
    }
}

/// A path in an Exec line is read back as it was: without the file's escapes, then the field
/// codes, then the quotes.
pub proof fn law_exec_reads_back(path: Seq<char>)
    ensures
        unquoted(expanded(unescaped(replace_char(exec_arg_of(path), '\\', "\\\\"@)))) == path,
{
    let arg = exec_arg_of(path);
    let d = replace_char(path, '%', "%%"@);
    lemma_unescaped(arg);
    lemma_doubling_keeps_reserved(path);
    if any_reserved(d) {
        let tail = seq!['"'];
        lemma_expanded_backslashed(path, tail);
        let inner = backslashed(d) + tail;
        assert(arg =~= seq!['"'] + inner);
        assert(arg.skip(1) =~= inner);
        assert(expanded(arg) == seq!['"'] + expanded(inner));
        assert(expanded(arg).skip(1) =~= backslashed(path) + tail);
        lemma_unquoted(path, tail);
    } else {
        lemma_expanded(path);
        if path.len() > 0 && path[0] == '"' {
            assert(is_reserved(path[0]));
        }
    }
}

/// A path in a TryExec line is read back as it was: without the file's escapes.
pub proof fn law_try_exec_reads_back(path: Seq<char>)
    ensures
        unescaped(replace_char(path, '\\', "\\\\"@)) == path,
{
    lemma_unescaped(path);
}

// The entry.

pub open spec fn is_control(c: char) -> bool {
    c <= '\u{1f}' || '\u{7f}' <= c <= '\u{9f}'
}

pub open spec fn any_control(s: Seq<char>) -> bool {
    exists|i: int| 0 <= i < s.len() && is_control(#[trigger] s[i])
}

/// A line of the packaged entry as it is written, with a line feed.
pub open spec fn entry_line(line: Seq<char>, exe: Seq<char>) -> Seq<char> {
    (if starts(line, "Exec="@) {
        "Exec="@ + replace_char(exec_arg_of(exe), '\\', "\\\\"@) + " %f"@
    } else if starts(line, "TryExec="@) {
        "TryExec="@ + replace_char(exe, '\\', "\\\\"@)
    } else {
        line
    }) + "\n"@
}

pub open spec fn entry_lines(ls: Seq<Seq<char>>, exe: Seq<char>) -> Seq<char>
    decreases ls.len(),
{
    if ls.len() == 0 {
        Seq::empty()
    } else {
        entry_lines(ls.drop_last(), exe) + entry_line(ls.last(), exe)
    }
}

/// The desktop entry for the binary at `exe`: the packaged one, with `Exec` and `TryExec` for
/// that path. None when the path can't go in one: with control characters.
pub fn desktop_entry(exe: &str, template: &str) -> (r: Option<String>)
    ensures
        match r {
            Some(s) => !any_control(exe@) && s@ == HEADER@ + entry_lines(lines(template@), exe@),
            None => any_control(exe@),
        },
{
    let v: Vec<char> = chars(exe);
    let mut i: usize = 0;
    while i < v.len()
        invariant
            i <= v@.len(),
            v@ == exe@,
            forall|k: int| 0 <= k < i ==> !is_control(#[trigger] v@[k]),
        decreases v@.len() - i,
    {
        let c: char = v[i];
        if c <= '\u{1f}' || ('\u{7f}' <= c && c <= '\u{9f}') {
            assert(is_control(exe@[i as int]));
            return None;
        }
        i = i + 1;
    }
    let t: Vec<char> = chars(template);
    let ls: Vec<Vec<char>> = split_lines(&t);
    let mut entry: String = HEADER.to_owned();
    let mut k: usize = 0;
    proof {
        assert(views(ls@).take(0) =~= Seq::<Seq<char>>::empty());
        assert(HEADER@ + Seq::<char>::empty() =~= HEADER@);
    }
    while k < ls.len()
        invariant
            k <= ls@.len(),
            views(ls@) == lines(template@),
            entry@ == HEADER@ + entry_lines(views(ls@).take(k as int), exe@),
        decreases ls@.len() - k,
    {
        let ghost before = entry@;
        let line: &Vec<char> = &ls[k];
        proof {
            assert(views(ls@).take(k + 1).drop_last() =~= views(ls@).take(k as int));
            assert(views(ls@).take(k + 1).last() == line@);
        }
        if starts_with(line, "Exec=") {
            entry.append("Exec=");
            entry.append(escape(exec_arg(exe).as_str()).as_str());
            entry.append(" %f");
        } else if starts_with(line, "TryExec=") {
            entry.append("TryExec=");
            entry.append(escape(exe).as_str());
        } else {
            entry.append(string(line).as_str());
        }
        entry.append("\n");
        proof {
            assert(entry@ =~= before + entry_line(line@, exe@));
            let e = entry_lines(views(ls@).take(k as int), exe@);
            assert((HEADER@ + e) + entry_line(line@, exe@) =~= HEADER@ + (e + entry_line(line@, exe@)));
        }
        k = k + 1;
    }
    proof {
        assert(views(ls@).take(ls@.len() as int) =~= views(ls@));
    }
    Some(entry)
}

} // verus!
