//! Starting a copy: what Start does, the choice between a smart copy and sector by sector, and
//! what the worker is told.

use vstd::prelude::*;
use vstd::string::*;
use crate::drives::Drive;
use crate::engine::ImageFormat;
use crate::fmt;
use crate::fmt::{bytes_of, known_name};
use crate::job::{CopyMode, Spec, Work};
use crate::plan::{Options, Plan, Source, System, Target};
use crate::text::{
    chars, decimal, decimal_text, ends, ends_with, join, joined, part, same, string, texts, trim, trimmed,
};
use crate::window::run::{less, Run, READING};
use crate::window::{
    drive_summary, endpoint_name, erase_detail, erase_of, same_names, source_name_of, summary_of, target_name,
    target_name_of, told_apart,
};

verus! {

/// Is a job running, waiting for a choice or about to start?
pub fn busy(job: bool, pending: bool, rechecking: bool) -> (r: bool)
    ensures
        r == (job || pending || rechecking),
{
    job || pending || rechecking
}

// Start.

/// What a click on Start leads to, once the chosen drives are known to be the ones picked.
#[derive(Debug)]
pub enum Click {
    Nothing,
    /// Let the worker read the drive's layout first.
    CopyDrive,
    Launch,
    /// Ask before erasing a drive.
    Confirm { title: String, body: String, detail: String, action: &'static str },
}

pub open spec fn confirms(c: Click, d: Drive, zeros: bool) -> bool {
    match c {
        Click::Confirm { title, body, detail, action } => {
            &&& title@ == "Erase "@ + d.name@ + "?"@
            &&& body@ == "Everything on this "@ + bytes_of(d.size) + " drive will be overwritten"@ + (if zeros {
                " with zeros"@
            } else {
                ""@
            }) + ". This can't be undone."@
            &&& detail@ == erase_of(d@)
            &&& action@ == (if zeros {
                "Wipe drive"@
            } else {
                "Erase and write"@
            })
        },
        _ => false,
    }
}

/// Is this what a click on Start leads to?
pub open spec fn clicked<'a>(plan: Plan<'a>, c: Click) -> bool {
    &&& c is Nothing <==> plan.problem_of() is Some
    &&& c is CopyDrive <==> plan.problem_of() is None && plan.source is Drive
    &&& c is Launch <==> plan.problem_of() is None && !(plan.source is Drive) && !(plan.target is Drive)
    &&& plan.problem_of() is None && !(plan.source is Drive) ==> (plan.target matches Target::Drive(d) ==> confirms(
        c,
        *d,
        plan.source is Zeros,
    ))
}

/// What a click on Start leads to.
pub fn start_checked<'a>(plan: &Plan<'a>) -> (r: Click)
    requires
        plan.block_size_of() > 0,
    ensures
        clicked(*plan, r),
{
    if plan.problem().is_some() {
        return Click::Nothing;
    }
    let zeros: bool = match plan.source {
        Source::Drive(_) => {
            return Click::CopyDrive;
        },
        Source::Zeros => true,
        _ => false,
    };
    match plan.target {
        Target::Drive(d) => {
            let mut title: String = "Erase ".to_owned();
            title.append(d.name.as_str());
            title.append("?");
            let mut body: String = "Everything on this ".to_owned();
            body.append(fmt::bytes(d.size).as_str());
            body.append(" drive will be overwritten");
            if zeros {
                body.append(" with zeros");
            } else {
                body.append("");
            }
            body.append(". This can't be undone.");
            Click::Confirm {
                title,
                body,
                detail: erase_detail(d),
                action: if zeros {
                    "Wipe drive"
                } else {
                    "Erase and write"
                },
            }
        },
        _ => Click::Launch,
    }
}

// What the worker is told.

pub open spec fn dd_words<'a>(plan: Plan<'a>) -> Seq<Seq<char>> {
    plan.operands_of().map_values(|p: (Seq<char>, Seq<char>)| p.0 + "="@ + p.1)
}

/// Does this work do what the plan says?
pub open spec fn works<'a>(plan: Plan<'a>, w: Work) -> bool {
    match (*plan.source, *plan.target) {
        (Source::File { path, info }, Target::Drive(d)) => if plan.unpacks() {
            w matches Work::Copy { mode, from, to, ask, block_size, size, dd_args } && mode == CopyMode::Restore
                && from@ == path@ && to@ == d.io_path@ && !ask && block_size == plan.opts.block_size && size is None
                && dd_args@.len() == 0
        } else {
            w matches Work::Dd(args) && texts(args@) == dd_words(plan)
        },
        (Source::Zeros, target) => if plan.system == System::Windows && !(target is Unset) {
            w matches Work::Copy { mode, from, to, ask, block_size, size, dd_args } && mode == CopyMode::Zeros
                && from@.len() == 0 && to@ == (match target {
                Target::Drive(d) => d.io_path@,
                Target::File(p) => p@,
                Target::Unset => Seq::empty(),
            }) && !ask && block_size == plan.opts.block_size && size == plan.total_of() && dd_args@.len() == 0
        } else {
            w matches Work::Dd(args) && texts(args@) == dd_words(plan)
        },
        _ => w matches Work::Dd(args) && texts(args@) == dd_words(plan),
    }
}

fn work<'a>(plan: &Plan<'a>) -> (w: Work)
    ensures
        works(*plan, w),
{
    match (plan.source, plan.target) {
        (Source::File { path, info }, Target::Drive(d)) => {
            if plan.restores_image() {
                return Work::Copy {
                    mode: CopyMode::Restore,
                    from: path.as_str().to_owned(),
                    to: d.io_path.as_str().to_owned(),
                    ask: false,
                    block_size: plan.opts.block_size,
                    size: None,
                    dd_args: Vec::new(),
                };
            }
        },
        (Source::Zeros, target) => {
            // Windows has no /dev/zero: the copier writes the zeros there.
            if plan.system == System::Windows {
                let to: Option<String> = match target {
                    Target::Drive(d) => Some(d.io_path.as_str().to_owned()),
                    Target::File(p) => Some(p.as_str().to_owned()),
                    Target::Unset => None,
                };
                if let Some(to) = to {
                    let from: String = String::new();
                    assert(from@.len() == 0);
                    return Work::Copy {
                        mode: CopyMode::Zeros,
                        from,
                        to,
                        ask: false,
                        block_size: plan.opts.block_size,
                        size: plan.total_bytes(),
                        dd_args: Vec::new(),
                    };
                }
            }
        },
        _ => {},
    }
    Work::Dd(plan.args())
}

fn copies(v: &[String]) -> (r: Vec<String>)
    ensures
        texts(r@) == texts(v@),
{
    let mut r: Vec<String> = Vec::new();
    push_all(&mut r, v);
    assert(texts(r@) =~= texts(v@));
    r
}

fn push_all(r: &mut Vec<String>, v: &[String])
    ensures
        texts(final(r)@) == texts(old(r)@) + texts(v@),
{
    let ghost start = texts(r@);
    let mut i: usize = 0;
    proof {
        assert(start + texts(v@).take(0) =~= start);
    }
    while i < v.len()
        invariant
            i <= v@.len(),
            texts(r@) == start + texts(v@).take(i as int),
        decreases v@.len() - i,
    {
        let ghost was = r@;
        let s: String = v[i].as_str().to_owned();
        r.push(s);
        proof {
            assert(texts(r@) =~= texts(was).push(s@));
            assert(texts(v@).take(i + 1) =~= texts(v@).take(i as int).push(s@));
            assert(start + texts(v@).take(i + 1) =~= (start + texts(v@).take(i as int)).push(s@));
        }
        i = i + 1;
    }
    assert(texts(v@).take(v@.len() as int) =~= texts(v@));
}

/// The drive that a target is.
pub open spec fn target_drive(t: Target) -> Option<Drive> {
    match t {
        Target::Drive(d) => Some(d),
        _ => None,
    }
}

/// Are the parts of the target drive unmounted and locked, and is it flushed in the end?
pub open spec fn frees<'a>(plan: Plan<'a>, spec: Spec) -> bool {
    match target_drive(*plan.target) {
        Some(d) => texts(spec.unmount@) == texts(d.unmount@) && texts(spec.lock@) == texts(d.lock@) && (
        spec.sync matches Some(s) && s@ == d.io_path@),
        None => spec.unmount@.len() == 0 && spec.lock@.len() == 0 && spec.sync is None,
    }
}

pub open spec fn verb_of<'a>(plan: Plan<'a>) -> Seq<char> {
    if plan.source is Zeros {
        "Wiping"@
    } else if plan.target is Drive {
        "Writing"@
    } else {
        "Copying"@
    }
}

/// Does progress count compressed bytes read? The copier does so for the stream formats it
/// unpacks itself; virtual disks, archives and the other formats count bytes written.
pub open spec fn counts_input<'a>(plan: Plan<'a>) -> bool {
    match *plan.source {
        Source::File { path, info } => plan.unpacks() && info.smart is None && (info.format == ImageFormat::Gzip
            || info.format == ImageFormat::Xz || info.format == ImageFormat::Zstd || info.format == ImageFormat::Zip),
        _ => false,
    }
}

/// A copy about to start.
#[derive(Debug)]
pub struct Launch {
    pub spec: Spec,
    pub run: Run,
    pub route: String,
}

/// The name of a file that is written.
pub open spec fn file_of(t: Target) -> Option<Seq<char>> {
    match t {
        Target::File(p) => Some(p@),
        _ => None,
    }
}

pub open spec fn text_of(s: Option<String>) -> Option<Seq<char>> {
    match s {
        Some(s) => Some(s@),
        None => None,
    }
}

pub open spec fn arrow(from: Seq<char>, to: Seq<char>) -> Seq<char> {
    from + "  →  "@ + to
}

/// What starts for a plan from anything but a drive, if nothing stops it; `from` and `to` are
/// the names of its files.
pub fn launch<'a>(plan: &Plan<'a>, root: bool, from: &str, to: &str) -> (r: Option<Launch>)
    requires
        plan.block_size_of() > 0,
    ensures
        r is None <==> plan.problem_of() is Some,
        r matches Some(l) ==> {
            &&& works(*plan, l.spec.work)
            &&& l.spec.elevate == (plan.system != System::Windows && !root && (plan.source is Drive
                || plan.target is Drive))
            &&& frees(*plan, l.spec)
            &&& l.route@ == arrow(source_name_of(*plan.source, from@), target_name_of(*plan.target, to@))
            &&& l.run.fresh()
            &&& !l.run.started
            &&& l.run.total == (if plan.unpacks() {
                None
            } else {
                plan.total_of()
            })
            &&& l.run.elevated == l.spec.elevate
            &&& l.run.verb@ == verb_of(*plan)
            &&& l.run.action@ == plan.action_of()
            &&& text_of(l.run.target_file) == file_of(*plan.target)
            &&& l.run.compressed_units == counts_input(*plan)
            &&& !l.run.output_is_compressed
            &&& l.run.skipped is None
            &&& l.run.unmounted_source is None
        },
{
    if plan.problem().is_some() {
        return None;
    }
    let elevate: bool = plan.needs_elevation(root);
    let mut unmount: Vec<String> = Vec::new();
    let mut lock: Vec<String> = Vec::new();
    if let Target::Drive(d) = plan.target {
        unmount = copies(&d.unmount);
        lock = copies(&d.lock);
    }
    let restore: bool = plan.restores_image();
    let compressed_units: bool = match plan.source {
        Source::File { path, info } => restore && info.smart.is_none() && (info.format == ImageFormat::Gzip
            || info.format == ImageFormat::Xz || info.format == ImageFormat::Zstd || info.format == ImageFormat::Zip),
        _ => false,
    };
    let verb: &'static str = match (plan.source, plan.target) {
        (Source::Zeros, _) => "Wiping",
        (_, Target::Drive(_)) => "Writing",
        _ => "Copying",
    };
    let mut route: String = endpoint_name(plan.source, from);
    route.append("  →  ");
    route.append(target_name(plan.target, to).as_str());
    let total: Option<u64> = if restore {
        None
    } else {
        plan.total_bytes()
    };
    let target_file: Option<String> = match plan.target {
        Target::File(p) => Some(p.as_str().to_owned()),
        _ => None,
    };
    let run: Run = Run {
        total,
        elevated: elevate,
        started: false,
        syncing: false,
        copying_since: None,
        done: 0,
        written: None,
        samples: Vec::new(),
        mark: None,
        history: Vec::new(),
        verb,
        action: plan.action(),
        target_file,
        compressed_units,
        output_is_compressed: false,
        skipped: None,
        unmounted_source: None,
    };
    let spec: Spec = Spec { work: work(plan), elevate, unmount, lock, sync: plan.sync_after() };
    Some(Launch { spec, run, route })
}

// Copies from a drive.

/// Where each mode saves: a smart copy as a zstd image next to the name the user picked, sector
/// by sector into the raw image name.
pub open spec fn files_of(path: Seq<char>) -> (Seq<char>, Seq<char>) {
    if ends(path, ".zst"@) {
        (path, path.take(path.len() - 4))
    } else {
        (path + ".zst"@, path)
    }
}

/// Where a smart copy saves, and where one sector by sector does.
pub fn copy_files(path: &str) -> (r: (String, String))
    ensures
        (r.0@, r.1@) == files_of(path@),
{
    let v: Vec<char> = chars(path);
    proof {
        reveal_strlit(".zst");
    }
    if ends_with(&v, ".zst") {
        let raw: Vec<char> = part(&v, 0, v.len() - 4);
        assert(raw@ =~= path@.take(path@.len() - 4));
        (path.to_owned(), string(&raw))
    } else {
        let mut s: String = path.to_owned();
        s.append(".zst");
        (s, path.to_owned())
    }
}

/// The two modes never save to the same file, and the one that the user picked is one of them.
pub proof fn law_modes_save_apart(path: Seq<char>)
    ensures
        files_of(path).0 != files_of(path).1,
        files_of(path).0 == path || files_of(path).1 == path,
        ends(files_of(path).0, ".zst"@),
        files_of(path).0 == files_of(path).1 + ".zst"@,
{
    reveal_strlit(".zst");
    if ends(path, ".zst"@) {
        assert(path.take(path.len() - 4) + path.skip(path.len() - 4) =~= path);
    } else {
        assert((path + ".zst"@).skip(path.len() as int) =~= ".zst"@);
    }
    assert(files_of(path).0.len() == files_of(path).1.len() + 4);
}

/// A copy from a drive that waits for its worker to read the drive's layout.
#[derive(Debug)]
pub struct DriveCopy {
    pub spec: Spec,
    pub title: String,
    pub action: &'static str,
    pub subtitle: String,
    pub status: &'static str,
    pub smart_available: bool,
    /// What dd will copy sector by sector.
    pub full_total: Option<u64>,
    pub elevated: bool,
}

/// Smart copies read whole file systems, so dd's count/skip/seek can't apply to them.
pub open spec fn smart_fits(opts: Options) -> bool {
    opts.count is None && opts.skip is None && opts.seek is None
}

pub open spec fn drive_of<'a>(plan: Plan<'a>) -> Drive
    recommends
        plan.source is Drive,
{
    match *plan.source {
        Source::Drive(d) => d,
        _ => arbitrary(),
    }
}

/// What is unmounted (or locked): the source, unless it runs the system, and the target.
pub open spec fn freed(source: Seq<Seq<char>>, system: bool, target: Option<Seq<Seq<char>>>) -> Seq<Seq<char>> {
    (if system {
        Seq::empty()
    } else {
        source
    }) + (match target {
        Some(t) => t,
        None => Seq::empty(),
    })
}

pub open spec fn target_unmounts(t: Target) -> Option<Seq<Seq<char>>> {
    match t {
        Target::Drive(d) => Some(texts(d.unmount@)),
        _ => None,
    }
}

pub open spec fn target_locks(t: Target) -> Option<Seq<Seq<char>>> {
    match t {
        Target::Drive(d) => Some(texts(d.lock@)),
        _ => None,
    }
}

/// Where a smart copy goes.
pub open spec fn smart_to(target: Target, smart_file: Option<Seq<char>>) -> Option<Seq<char>> {
    match target {
        Target::Drive(d) => Some(d.io_path@),
        _ => smart_file,
    }
}

/// Is this how a copy from a drive begins?
pub open spec fn begins<'a>(plan: Plan<'a>, smart_file: Option<Seq<char>>, root: bool, r: Option<DriveCopy>) -> bool {
    let to = smart_to(*plan.target, smart_file);
    let d = drive_of(plan);
    match r {
        None => to is None,
        Some(c) => {
            &&& to is Some
            &&& c.spec.work matches Work::Copy { mode, from, to: t, ask, block_size, size, dd_args }
            &&& mode == CopyMode::Smart
            &&& from@ == d.io_path@
            &&& to == Some(t@)
            &&& ask
            &&& block_size == plan.opts.block_size
            &&& size is None
            &&& texts(dd_args@) == dd_words(plan)
            &&& c.spec.elevate == (plan.system != System::Windows && !root)
            &&& texts(c.spec.unmount@) == freed(texts(d.unmount@), d.system, target_unmounts(*plan.target))
            &&& texts(c.spec.lock@) == freed(texts(d.lock@), d.system, target_locks(*plan.target))
            &&& text_of(c.spec.sync) == (match *plan.target {
                Target::Drive(t) => Some(t.io_path@),
                _ => None,
            })
            &&& c.title@ == "Copy "@ + d.name@
            &&& c.action@ == (if plan.target is Drive {
                "Erase and copy"@
            } else {
                "Start copy"@
            })
            &&& c.subtitle@ == summary_of(d@)
            &&& c.status@ == (if c.spec.elevate {
                "Waiting for permission…"@
            } else {
                READING@
            })
            &&& c.smart_available == smart_fits(*plan.opts)
            &&& c.full_total == plan.total_of()
            &&& c.elevated == c.spec.elevate
        },
    }
}

/// Copies from a drive start with the worker reading the drive's layout, so the choice between
/// a smart copy and sector by sector shows real numbers. `plan` is the one sector by sector;
/// `smart_file` is where a smart copy saves, when the target is a file.
pub fn begin_drive_copy<'a>(plan: &Plan<'a>, smart_file: Option<&str>, root: bool) -> (r: Option<DriveCopy>)
    requires
        plan.source is Drive,
    ensures
        begins(
            *plan,
            match smart_file {
                Some(f) => Some(f@),
                None => None,
            },
            root,
            r,
        ),
{
    let elevated: bool = plan.needs_elevation(root);
    match plan.source {
        Source::Drive(drive) => {
            let to: String = match plan.target {
                Target::Drive(d) => d.io_path.as_str().to_owned(),
                _ => match smart_file {
                    Some(f) => f.to_owned(),
                    None => {
                        return None;
                    },
                },
            };
            let mut unmount: Vec<String> = Vec::new();
            let mut lock: Vec<String> = Vec::new();
            proof {
                assert(texts(unmount@) =~= Seq::<Seq<char>>::empty());
                assert(texts(lock@) =~= Seq::<Seq<char>>::empty());
            }
            // Unmounting keeps the copy consistent, but the running system's drive can't be.
            if !drive.system {
                push_all(&mut unmount, &drive.unmount);
                push_all(&mut lock, &drive.lock);
            }
            let mut sync: Option<String> = None;
            let mut action: &'static str = "Start copy";
            if let Target::Drive(d) = plan.target {
                push_all(&mut unmount, &d.unmount);
                push_all(&mut lock, &d.lock);
                sync = Some(d.io_path.as_str().to_owned());
                action = "Erase and copy";
            }
            proof {
                assert(texts(unmount@) =~= freed(
                    texts(drive.unmount@),
                    drive.system,
                    target_unmounts(*plan.target),
                ));
                assert(texts(lock@) =~= freed(texts(drive.lock@), drive.system, target_locks(*plan.target)));
            }
            let mut title: String = "Copy ".to_owned();
            title.append(drive.name.as_str());
            let spec: Spec = Spec {
                work: Work::Copy {
                    mode: CopyMode::Smart,
                    from: drive.io_path.as_str().to_owned(),
                    to,
                    ask: true,
                    block_size: plan.opts.block_size,
                    size: None,
                    dd_args: plan.args(),
                },
                elevate: elevated,
                unmount,
                lock,
                sync,
            };
            Some(
                DriveCopy {
                    spec,
                    title,
                    action,
                    subtitle: drive_summary(drive),
                    status: if elevated {
                        "Waiting for permission…"
                    } else {
                        READING
                    },
                    smart_available: plan.opts.count.is_none() && plan.opts.skip.is_none()
                        && plan.opts.seek.is_none(),
                    full_total: plan.total_bytes(),
                    elevated,
                },
            )
        },
        _ => None,
    }
}

/// Every erase needs confirmation: a click on Start with a drive as the target starts no job
/// that writes. It leads to a question that names the drive or, where the source is a drive
/// too, to a worker that asks before it copies, under a button that speaks of erasing.
pub proof fn law_erases_are_confirmed<'a>(
    plan: Plan<'a>,
    c: Click,
    smart_file: Option<Seq<char>>,
    root: bool,
    begun: Option<DriveCopy>,
)
    requires
        plan.target is Drive,
        clicked(plan, c),
        begins(plan, smart_file, root, begun),
    ensures
        !(c is Launch),
        c is Confirm ==> (plan.target matches Target::Drive(d) && confirms(c, *d, plan.source is Zeros)),
        c is CopyDrive ==> plan.source is Drive && begun is Some && begun->0.spec.work.asking() && begun->0.action@
            == "Erase and copy"@,
        c is Nothing ==> plan.problem_of() is Some,
{
}

// The choice.

/// The drive layout a worker reports before a copy from a drive.
#[derive(Debug)]
pub struct LayoutInfo {
    pub size: u64,
    pub partitions: Vec<PartInfo>,
    /// How long each used part is.
    pub extents: Vec<u64>,
}

#[derive(Debug)]
pub struct PartInfo {
    pub index: u32,
    pub fs: Option<String>,
    pub label: Option<String>,
    /// Can a smart copy tell what is in use?
    pub understood: bool,
}

pub open spec fn sum(lens: Seq<u64>) -> int
    decreases lens.len(),
{
    if lens.len() == 0 {
        0
    } else {
        sum(lens.drop_last()) + lens.last()
    }
}

proof fn lemma_sum_grows(lens: Seq<u64>, i: int)
    requires
        0 <= i <= lens.len(),
    ensures
        0 <= sum(lens.take(i)) <= sum(lens),
    decreases lens.len() - i,
{
    if i < lens.len() {
        lemma_sum_grows(lens, i + 1);
        assert(lens.take(i + 1).drop_last() =~= lens.take(i));
    } else {
        assert(lens.take(i) =~= lens);
    }
    lemma_sum_positive(lens.take(i));
}

proof fn lemma_sum_positive(lens: Seq<u64>)
    ensures
        sum(lens) >= 0,
    decreases lens.len(),
{
    if lens.len() > 0 {
        lemma_sum_positive(lens.drop_last());
    }
}

impl LayoutInfo {
    /// Are its numbers ones that can be?
    pub open spec fn wf(self) -> bool {
        sum(self.extents@) <= u64::MAX
    }

    pub fn used(&self) -> (r: u64)
        requires
            self.wf(),
        ensures
            r == sum(self.extents@),
    {
        let mut r: u64 = 0;
        let mut i: usize = 0;
        assert(self.extents@.take(0) =~= Seq::<u64>::empty());
        while i < self.extents.len()
            invariant
                i <= self.extents@.len(),
                self.wf(),
                r == sum(self.extents@.take(i as int)),
            decreases self.extents@.len() - i,
        {
            proof {
                lemma_sum_grows(self.extents@, i + 1);
                assert(self.extents@.take(i + 1).drop_last() =~= self.extents@.take(i as int));
            }
            r = r + self.extents[i];
            i = i + 1;
        }
        assert(self.extents@.take(self.extents@.len() as int) =~= self.extents@);
        r
    }

    /// The bytes in use, if they are a number that can be.
    pub fn used_checked(&self) -> (r: Option<u64>)
        ensures
            r is Some <==> self.wf(),
            r matches Some(n) ==> n == sum(self.extents@),
    {
        let mut r: u64 = 0;
        let mut i: usize = 0;
        assert(self.extents@.take(0) =~= Seq::<u64>::empty());
        while i < self.extents.len()
            invariant
                i <= self.extents@.len(),
                r == sum(self.extents@.take(i as int)),
            decreases self.extents@.len() - i,
        {
            proof {
                lemma_sum_grows(self.extents@, i + 1);
                assert(self.extents@.take(i + 1).drop_last() =~= self.extents@.take(i as int));
            }
            if self.extents[i] > u64::MAX - r {
                return None;
            }
            r = r + self.extents[i];
            i = i + 1;
        }
        assert(self.extents@.take(self.extents@.len() as int) =~= self.extents@);
        Some(r)
    }
}

/// A copy from a drive whose worker is running, waiting for "smart" or "sector by sector".
#[derive(Debug)]
pub struct Pending {
    pub source: Drive,
    pub target: Target,
    /// The file name the user picked in the save dialog.
    pub chosen_file: Option<String>,
    /// Where each mode saves, when the target is a file.
    pub smart_file: Option<String>,
    pub full_file: Option<String>,
    /// What dd will copy sector by sector.
    pub full_total: Option<u64>,
    pub elevated: bool,
    pub layout: Option<LayoutInfo>,
}

/// What the dialog shows.
#[derive(Debug)]
pub struct Modes {
    pub subtitle: String,
    pub smart_figure: String,
    pub full_figure: String,
    pub smart_body: &'static str,
    pub full_body: &'static str,
    pub smart_foot: String,
    pub full_foot: &'static str,
    pub note: String,
    pub smart_output: String,
    pub full_output: String,
    pub erase: String,
    pub action: &'static str,
}

pub open spec fn table_of(parts: nat) -> Seq<char> {
    if parts == 0 {
        "no partitions"@
    } else if parts == 1 {
        "1 partition"@
    } else {
        decimal(parts) + " partitions"@
    }
}

/// `list` with `name`, if it isn't in it yet.
pub open spec fn with_new(list: Seq<Seq<char>>, name: Seq<char>) -> Seq<Seq<char>> {
    if list.contains(name) {
        list
    } else {
        list.push(name)
    }
}

/// The file systems a smart copy reads, each once.
pub open spec fn read_of(parts: Seq<PartInfo>) -> Seq<Seq<char>>
    decreases parts.len(),
{
    if parts.len() == 0 {
        Seq::empty()
    } else {
        let before = read_of(parts.drop_last());
        let p = parts.last();
        if p.understood && p.fs is Some {
            with_new(before, fs_of(p.fs->0@))
        } else {
            before
        }
    }
}

/// A file system's name, as people know it.
pub open spec fn fs_of(name: Seq<char>) -> Seq<char> {
    match known_name(name) {
        Some(k) => k,
        None => name,
    }
}

/// What a partition is called that is copied in full.
pub open spec fn skipped_name(p: PartInfo) -> Seq<char> {
    let name = match p.label {
        Some(l) => l@,
        None => "partition "@ + decimal(p.index as nat),
    };
    match p.fs {
        Some(fs) => name + " ("@ + fs_of(fs@) + ")"@,
        None => name,
    }
}

/// The partitions that a smart copy can't read.
pub open spec fn skipped_of(parts: Seq<PartInfo>) -> Seq<Seq<char>>
    decreases parts.len(),
{
    if parts.len() == 0 {
        Seq::empty()
    } else {
        let before = skipped_of(parts.drop_last());
        if parts.last().understood {
            before
        } else {
            before.push(skipped_name(parts.last()))
        }
    }
}

pub const SYSTEM_NOTE: &'static str = "This drive runs your system, so files may change while it's copied. ";

pub const SMART_OFF: &'static str = " Smart copy is off while count, skip or seek are set in Advanced.";

pub open spec fn mode_note_of(system: bool, skipped: Seq<Seq<char>>, smart_available: bool) -> Seq<char> {
    trim(
        (if system {
            SYSTEM_NOTE@
        } else {
            Seq::empty()
        }) + (if skipped.len() > 0 {
            "Copied in full either way: "@ + join(skipped, ", "@) + "."@
        } else {
            Seq::empty()
        }) + (if smart_available {
            Seq::empty()
        } else {
            SMART_OFF@
        }),
    )
}

/// A file that a mode saves: the save dialog only asked about the name the user typed, so say so
/// before replacing the other one.
pub open spec fn output_of(
    file: Option<Seq<char>>,
    name: Seq<char>,
    there: bool,
    chosen: Option<Seq<char>>,
) -> Seq<char> {
    match file {
        Some(path) => if there && chosen != Some(path) {
            name + "  (replaces the existing file)"@
        } else {
            name
        },
        None => ""@,
    }
}

fn output(file: &Option<String>, name: &str, there: bool, chosen: &Option<String>) -> (s: String)
    ensures
        s@ == output_of(text_of(*file), name@, there, text_of(*chosen)),
{
    match file {
        Some(path) => {
            let asked: bool = match chosen {
                Some(c) => same(c.as_str(), path.as_str()),
                None => false,
            };
            let mut s: String = name.to_owned();
            if there && !asked {
                s.append("  (replaces the existing file)");
            }
            s
        },
        None => "".to_owned(),
    }
}

fn among(list: &[String], name: &str) -> (r: bool)
    ensures
        r == texts(list@).contains(name@),
{
    let mut i: usize = 0;
    while i < list.len()
        invariant
            i <= list@.len(),
            forall|k: int| 0 <= k < i ==> texts(list@)[k] != name@,
        decreases list@.len() - i,
    {
        if same(list[i].as_str(), name) {
            assert(texts(list@)[i as int] == name@);
            return true;
        }
        i = i + 1;
    }
    false
}

fn read(parts: &[PartInfo]) -> (r: Vec<String>)
    ensures
        texts(r@) == read_of(parts@),
{
    let mut r: Vec<String> = Vec::new();
    let mut i: usize = 0;
    proof {
        assert(parts@.take(0) =~= Seq::<PartInfo>::empty());
        assert(texts(r@) =~= Seq::<Seq<char>>::empty());
    }
    while i < parts.len()
        invariant
            i <= parts@.len(),
            texts(r@) == read_of(parts@.take(i as int)),
        decreases parts@.len() - i,
    {
        proof {
            assert(parts@.take(i + 1).drop_last() =~= parts@.take(i as int));
            assert(parts@.take(i + 1).last() == parts@[i as int]);
        }
        if parts[i].understood {
            if let Some(fs) = &parts[i].fs {
                let name: String = fmt::fs_name(fs.as_str());
                if !among(&r, name.as_str()) {
                    let ghost was = r@;
                    r.push(name);
                    assert(texts(r@) =~= texts(was).push(name@));
                }
            }
        }
        i = i + 1;
    }
    assert(parts@.take(parts@.len() as int) =~= parts@);
    r
}

fn skipped(parts: &[PartInfo]) -> (r: Vec<String>)
    ensures
        texts(r@) == skipped_of(parts@),
{
    let mut r: Vec<String> = Vec::new();
    let mut i: usize = 0;
    proof {
        assert(parts@.take(0) =~= Seq::<PartInfo>::empty());
        assert(texts(r@) =~= Seq::<Seq<char>>::empty());
    }
    while i < parts.len()
        invariant
            i <= parts@.len(),
            texts(r@) == skipped_of(parts@.take(i as int)),
        decreases parts@.len() - i,
    {
        proof {
            assert(parts@.take(i + 1).drop_last() =~= parts@.take(i as int));
            assert(parts@.take(i + 1).last() == parts@[i as int]);
        }
        if !parts[i].understood {
            let mut name: String = match &parts[i].label {
                Some(l) => l.as_str().to_owned(),
                None => {
                    let mut s: String = "partition ".to_owned();
                    s.append(decimal_text(parts[i].index as u64).as_str());
                    s
                },
            };
            if let Some(fs) = &parts[i].fs {
                name.append(" (");
                name.append(fmt::fs_name(fs.as_str()).as_str());
                name.append(")");
            }
            let ghost was = r@;
            assert(name@ == skipped_name(parts@[i as int]));
            r.push(name);
            assert(texts(r@) =~= texts(was).push(name@));
        }
        i = i + 1;
    }
    assert(parts@.take(parts@.len() as int) =~= parts@);
    r
}

pub open spec fn shows(
    m: Modes,
    pending: Pending,
    layout: LayoutInfo,
    smart_available: bool,
    smart: (Seq<char>, bool),
    full: (Seq<char>, bool),
) -> bool {
    let to_file = pending.target is File;
    let read = read_of(layout.partitions@);
    &&& m.subtitle@ == summary_of(pending.source@) + " · "@ + table_of(layout.partitions@.len())
    &&& m.smart_figure@ == bytes_of(sum(layout.extents@) as u64)
    &&& m.full_figure@ == bytes_of(layout.size)
    &&& m.smart_body@ == (if to_file {
        "Only the space your files use. Saved compressed, and written back quickly by DD-GUI."@
    } else {
        "Only the space your files use, so it's much faster. The target's free space is left alone."@
    })
    &&& m.full_body@ == (if to_file {
        "Every byte, including free space and deleted files. Works with any file system. As big as the drive."@
    } else {
        "Every byte, including free space and deleted files. Works with any file system or encryption."@
    })
    &&& m.smart_foot@ == (if read.len() == 0 {
        "nothing it can read"@
    } else {
        "reads "@ + join(read, " · "@)
    })
    &&& m.full_foot@ == "dd · every sector"@
    &&& m.note@ == mode_note_of(pending.source.system, skipped_of(layout.partitions@), smart_available)
    &&& m.smart_output@ == output_of(text_of(pending.smart_file), smart.0, smart.1, text_of(pending.chosen_file))
    &&& m.full_output@ == output_of(text_of(pending.full_file), full.0, full.1, text_of(pending.chosen_file))
    &&& m.erase@ == (match pending.target {
        Target::Drive(d) => "Everything on "@ + d.name@ + " ("@ + d.path@ + ") will be erased."@,
        _ => ""@,
    })
    &&& m.action@ == (if pending.target is Drive {
        "Erase and copy"@
    } else {
        "Start copy"@
    })
}

/// Fills the copy-mode dialog once the worker has read the drive. The names of the files that
/// the modes save come with whether there is a file there already.
pub fn show_modes(
    pending: &Pending,
    layout: &LayoutInfo,
    smart_available: bool,
    smart_file: (&str, bool),
    full_file: (&str, bool),
) -> (m: Modes)
    requires
        layout.wf(),
    ensures
        shows(
            m,
            *pending,
            *layout,
            smart_available,
            (smart_file.0@, smart_file.1),
            (full_file.0@, full_file.1),
        ),
{
    let used: u64 = layout.used();
    proof {
        lemma_sum_positive(layout.extents@);
    }
    let to_file: bool = match &pending.target {
        Target::File(_) => true,
        _ => false,
    };
    let mut subtitle: String = drive_summary(&pending.source);
    subtitle.append(" · ");
    let parts: usize = layout.partitions.len();
    let ghost head = subtitle@;
    if parts == 0 {
        subtitle.append("no partitions");
    } else if parts == 1 {
        subtitle.append("1 partition");
    } else {
        subtitle.append(decimal_text(parts as u64).as_str());
        subtitle.append(" partitions");
    }
    assert(subtitle@ =~= head + table_of(parts as nat));
    let names: Vec<String> = read(&layout.partitions);
    let smart_foot: String = if names.len() == 0 {
        "nothing it can read".to_owned()
    } else {
        let mut s: String = "reads ".to_owned();
        s.append(joined(&names, " · ").as_str());
        s
    };
    let rest: Vec<String> = skipped(&layout.partitions);
    let mut note: String = String::new();
    let ghost system_part = if pending.source.system {
        SYSTEM_NOTE@
    } else {
        Seq::empty()
    };
    if pending.source.system {
        note.append(SYSTEM_NOTE);
    }
    assert(note@ =~= system_part);
    let ghost skipped_part = if texts(rest@).len() > 0 {
        "Copied in full either way: "@ + join(texts(rest@), ", "@) + "."@
    } else {
        Seq::empty()
    };
    if rest.len() > 0 {
        note.append("Copied in full either way: ");
        note.append(joined(&rest, ", ").as_str());
        note.append(".");
    }
    assert(note@ =~= system_part + skipped_part);
    if !smart_available {
        note.append(SMART_OFF);
    }
    assert(note@ =~= system_part + skipped_part + (if smart_available {
        Seq::empty()
    } else {
        SMART_OFF@
    }));
    let erase: String = match &pending.target {
        Target::Drive(d) => {
            let mut s: String = "Everything on ".to_owned();
            s.append(d.name.as_str());
            s.append(" (");
            s.append(d.path.as_str());
            s.append(") will be erased.");
            s
        },
        _ => "".to_owned(),
    };
    let action: &'static str = match &pending.target {
        Target::Drive(_) => "Erase and copy",
        _ => "Start copy",
    };
    Modes {
        subtitle,
        smart_figure: fmt::bytes(used),
        full_figure: fmt::bytes(layout.size),
        smart_body: if to_file {
            "Only the space your files use. Saved compressed, and written back quickly by DD-GUI."
        } else {
            "Only the space your files use, so it's much faster. The target's free space is left alone."
        },
        full_body: if to_file {
            "Every byte, including free space and deleted files. Works with any file system. As big as the drive."
        } else {
            "Every byte, including free space and deleted files. Works with any file system or encryption."
        },
        smart_foot,
        full_foot: "dd · every sector",
        note: string(&trimmed(&chars(note.as_str()))),
        smart_output: output(&pending.smart_file, smart_file.0, smart_file.1, &pending.chosen_file),
        full_output: output(&pending.full_file, full_file.0, full_file.1, &pending.chosen_file),
        erase,
        action,
    }
}

/// A copy whose mode was chosen.
#[derive(Debug)]
pub struct Begun {
    pub run: Run,
    /// What the worker is told.
    pub answer: &'static str,
    pub route: String,
}

/// The file that a mode saves.
pub open spec fn saves(pending: Pending, smart: bool) -> Option<Seq<char>> {
    if smart {
        text_of(pending.smart_file)
    } else {
        text_of(pending.full_file)
    }
}

/// What is written, in words: `file` is the name of the file that the mode saves.
pub open spec fn written_name(pending: Pending, smart: bool, file: Seq<char>) -> Seq<char> {
    match pending.target {
        Target::Drive(d) => d.name@,
        _ => if saves(pending, smart) is Some {
            file
        } else {
            ""@
        },
    }
}

/// Was anything of the source drive unmounted, to be mounted again?
pub open spec fn remounts(d: Drive) -> bool {
    !d.system && !(d.unmount@.len() == 0 && d.lock@.len() == 0)
}

/// Starts the copy in the mode that was chosen; None if the drive wasn't read yet. `file` is the
/// name of the file that the mode saves, if it does.
pub fn mode_start(pending: Pending, smart: bool, file: &str) -> (r: Option<Begun>)
    requires
        pending.layout matches Some(l) ==> l.wf(),
    ensures
        r is None <==> pending.layout is None,
        r matches Some(b) ==> {
            let layout = pending.layout->0;
            let used = sum(layout.extents@) as u64;
            let saved = saves(pending, smart);
            let names = told_apart(
                pending.source.name@,
                written_name(pending, smart, file@),
                pending.source@,
                pending.target,
            );
            &&& b.answer@ == (if smart {
                "smart"@
            } else {
                "full"@
            })
            &&& b.route@ == arrow(names.0, names.1)
            &&& b.run.fresh()
            &&& b.run.started
            &&& b.run.total == (if smart {
                Some(used)
            } else {
                pending.full_total
            })
            &&& b.run.elevated == pending.elevated
            &&& b.run.verb@ == (if smart {
                "Copying used space"@
            } else if saved is Some {
                "Reading"@
            } else {
                "Cloning"@
            })
            &&& b.run.action@ == (if saved is Some {
                "Create image"@
            } else {
                "Clone drive"@
            })
            &&& text_of(b.run.target_file) == saved
            &&& !b.run.compressed_units
            &&& b.run.output_is_compressed == (smart && pending.smart_file is Some)
            &&& b.run.skipped == (if smart {
                Some(less(layout.size, used))
            } else {
                None
            })
            &&& match b.run.unmounted_source {
                Some(d) => remounts(pending.source) && d == pending.source,
                None => !remounts(pending.source),
            }
        },
{
    let Pending { source, target, chosen_file: _, smart_file, full_file, full_total, elevated, layout } = pending;
    let layout: LayoutInfo = match layout {
        Some(l) => l,
        None => {
            return None;
        },
    };
    let used: u64 = layout.used();
    proof {
        lemma_sum_positive(layout.extents@);
    }
    let compressed: bool = smart && smart_file.is_some();
    let saved: Option<String> = if smart {
        smart_file
    } else {
        full_file
    };
    let to: String = match &target {
        Target::Drive(d) => d.name.as_str().to_owned(),
        _ => {
            if saved.is_some() {
                file.to_owned()
            } else {
                "".to_owned()
            }
        },
    };
    let (from, to) = same_names(source.name.as_str().to_owned(), to, &source, &target);
    let mut route: String = from;
    route.append("  →  ");
    route.append(to.as_str());
    let verb: &'static str = if smart {
        "Copying used space"
    } else if saved.is_some() {
        "Reading"
    } else {
        "Cloning"
    };
    let action: &'static str = if saved.is_some() {
        "Create image"
    } else {
        "Clone drive"
    };
    let skipped: Option<u64> = if smart {
        Some(layout.size.saturating_sub(used))
    } else {
        None
    };
    let remount: bool = !source.system && !(source.unmount.len() == 0 && source.lock.len() == 0);
    let run: Run = Run {
        total: if smart {
            Some(used)
        } else {
            full_total
        },
        elevated,
        started: true,
        syncing: false,
        copying_since: None,
        done: 0,
        written: None,
        samples: Vec::new(),
        mark: None,
        history: Vec::new(),
        verb,
        action,
        target_file: saved,
        compressed_units: false,
        output_is_compressed: compressed,
        skipped,
        unmounted_source: if remount {
            Some(source)
        } else {
            None
        },
    };
    Some(
        Begun {
            run,
            answer: if smart {
                "smart"
            } else {
                "full"
            },
            route,
        },
    )
}

/// What closing the dialog that asks for a mode does: nothing once a mode was chosen (a click while
/// the dialog fades out must not stop the copy); else the question is dropped, and so is the job,
/// if there is one.
#[derive(Clone, Copy, Debug, PartialEq, Eq, Structural)]
pub enum Dismissed {
    Ignored,
    Closed { stops_job: bool },
}

pub fn mode_cancel(pending: bool, job: bool) -> (r: Dismissed)
    ensures
        r is Ignored <==> !pending,
        pending ==> r == (Dismissed::Closed { stops_job: job }),
{
    if pending {
        Dismissed::Closed { stops_job: job }
    } else {
        Dismissed::Ignored
    }
}

} // verus!
