//! Naming files by their capture time, and bringing backups back.

use little_exif::metadata::Metadata;
use vstd::prelude::*;
use vstd::string::*;
use crate::exif;
use crate::namedate;
use crate::outcome;
use crate::outcome::{Outcome, OutcomeView, Stats};
use crate::stamp;
use crate::stamp::Stamp;
use crate::tags;
use crate::text;
use crate::timecmd;

verus! {

// ---- naming -----------------------------------------------------------------------------

/// The name that a file gets: a stem, a number if the name without it is taken, and the
/// extension.
pub open spec fn target_name(stem: Seq<char>, extension: Seq<char>, counter: Option<u32>) -> Seq<char> {
    stem + (match counter {
        Some(c) => "_"@ + text::dec(c as nat),
        None => Seq::empty(),
    }) + text::when(extension.len() > 0, "."@ + extension)
}

/// The name that a file gets.
pub fn build_target(stem: &str, extension: &str, counter: Option<u32>) -> (s: String)
    ensures
        s@ == target_name(stem@, extension@, counter),
{
    let mut s: String = text::copy_text(stem);
    if let Some(c) = counter {
        s.append("_");
        text::push_dec(&mut s, c as u64);
    }
    assert(s@ =~= stem@ + (match counter {
        Some(c) => "_"@ + text::dec(c as nat),
        None => Seq::empty(),
    }));
    if !text::is_blank(extension) {
        s.append(".");
        s.append(extension);
    }
    assert(s@ =~= target_name(stem@, extension@, counter));
    s
}

proof fn lemma_dec_tells_apart(a: nat, b: nat)
    requires
        text::dec(a) == text::dec(b),
    ensures
        a == b,
    decreases a,
{
    let (x, y) = (text::dec(a), text::dec(b));
    assert(x.last() == text::digit((a % 10) as int)) by {
        if a < 10 {
            assert(a % 10 == a);
        }
    }
    assert(y.last() == text::digit((b % 10) as int)) by {
        if b < 10 {
            assert(b % 10 == b);
        }
    }
    assert(a % 10 == b % 10);
    if a < 10 && b < 10 {
    } else if a < 10 {
        lemma_dec_filled(b / 10);
        assert(x.len() == 1 && y.len() > 1);
    } else if b < 10 {
        lemma_dec_filled(a / 10);
        assert(y.len() == 1 && x.len() > 1);
    } else {
        assert(x.drop_last() =~= text::dec(a / 10));
        assert(y.drop_last() =~= text::dec(b / 10));
        lemma_dec_tells_apart(a / 10, b / 10);
    }
}

proof fn lemma_dec_filled(n: nat)
    ensures
        text::dec(n).len() > 0,
{
}

/// Different numbers give different names, and none of them is the name without a number: the
/// search for a free name never tries one twice.
pub proof fn numbers_tell_names_apart(stem: Seq<char>, extension: Seq<char>, a: Option<u32>, b: Option<u32>)
    requires
        a != b,
    ensures
        target_name(stem, extension, a) != target_name(stem, extension, b),
{
    if target_name(stem, extension, a) == target_name(stem, extension, b) {
        let end = text::when(extension.len() > 0, "."@ + extension);
        let (x, y) = (middle(a), middle(b));
        let (s, t) = (stem + x + end, stem + y + end);
        assert(s == t);
        assert(x.len() == y.len());
        assert(x =~= s.subrange(stem.len() as int, (stem.len() + x.len()) as int));
        assert(y =~= t.subrange(stem.len() as int, (stem.len() + y.len()) as int));
        assert(x == y);
        reveal_strlit("_");
        match (a, b) {
            (Some(m), Some(n)) => {
                assert(text::dec(m as nat) =~= x.skip(1));
                assert(text::dec(n as nat) =~= y.skip(1));
                lemma_dec_tells_apart(m as nat, n as nat);
            },
            _ => {},
        }
    }
}

spec fn middle(counter: Option<u32>) -> Seq<char> {
    match counter {
        Some(c) => "_"@ + text::dec(c as nat),
        None => Seq::empty(),
    }
}

/// The stem that a formatted time gives, or why the file keeps its name: a stem has at least one
/// character. Without a formatted time, the pattern was not understood.
pub open spec fn chosen_stem(written: Option<Seq<char>>) -> Result<Option<Seq<char>>, OutcomeView> {
    match written {
        Some(s) => if s.len() == 0 {
            Err(OutcomeView::Failed("模板生成的文件名为空"@))
        } else {
            Ok(Some(s))
        },
        None => Ok(None),
    }
}

/// Checks the stem that a formatted time gives.
pub fn check_stem(written: Option<String>) -> (r: Result<Option<String>, Outcome>)
    ensures
        stem_view(r) == chosen_stem(text::opt(written)),
{
    match written {
        Some(s) => {
            if text::is_blank(s.as_str()) {
                Err(Outcome::Failed(text::copy_text("模板生成的文件名为空")))
            } else {
                Ok(Some(s))
            }
        },
        None => Ok(None),
    }
}

/// What the choice of a stem says.
pub open spec fn stem_view(r: Result<Option<String>, Outcome>) -> Result<Option<Seq<char>>, OutcomeView> {
    match r {
        Ok(s) => Ok(text::opt(s)),
        Err(o) => Err(o@),
    }
}

/// The stem of the new name of a file with these directories.
pub open spec fn stem_for(s: Seq<tags::IfdInfo>, pattern: Seq<char>) -> Result<Option<Seq<char>>, OutcomeView> {
    match timecmd::readable(exif::capture_time(s)) {
        Some(t) => chosen_stem(stamp::formatted(t, pattern)),
        None => Err(OutcomeView::Skipped("无可解析的拍摄时间"@)),
    }
}

/// Writes the capture time by a pattern, as the stem of the new name; `None` where the pattern is
/// not understood. A time of the years 0 to 9999 is written by `%Y%m%d_%H%M%S` in full.
pub fn name_stem(metadata: &Metadata, pattern: &str) -> (r: Result<Option<String>, Outcome>)
    ensures
        stem_view(r) == stem_for(tags::ifds_of(*metadata), pattern@),
        match timecmd::readable(exif::capture_time(tags::ifds_of(*metadata))) {
            Some(t) => stamp::exif_exact(t) && pattern@ == "%Y%m%d_%H%M%S"@ ==> stem_view(r) == Ok::<
                Option<Seq<char>>,
                OutcomeView,
            >(Some(stamp::name_text(t))),
            None => true,
        },
{
    let capture: Option<String> = exif::read_capture_time(metadata);
    assert(text::opt(capture) == exif::capture_time(tags::ifds_of(*metadata)));
    match timecmd::read_time(&capture) {
        Some(t) => {
            let written: Option<String> = stamp::format_stamp(t, pattern);
            proof {
                if stamp::exif_exact(t) && pattern@ == "%Y%m%d_%H%M%S"@ {
                    reveal_strlit("_");
                    assert(stamp::name_text(t).len() > 0);
                }
            }
            check_stem(written)
        },
        None => Err(Outcome::Skipped(text::copy_text("无可解析的拍摄时间"))),
    }
}

/// A file that was named by its time, with or without a number, is read by its name as that time
/// again, for the years that names are searched for.
pub proof fn naming_undoes_reading(t: Stamp, counter: Option<u32>)
    requires
        stamp::exif_exact(t),
        1970 <= t.year <= 2099,
    ensures
        namedate::first_stamp(namedate::digits_of(target_name(stamp::name_text(t), Seq::empty(), counter)), 0)
            == Some(t),
{
    namedate::named_time_reads_back(t, middle(counter));
    assert(target_name(stamp::name_text(t), Seq::empty(), counter) =~= stamp::name_text(t) + middle(counter));
}

/// What to do with a name that was thought of.
#[derive(Debug, Clone, Copy, PartialEq, Eq, Structural)]
pub enum NameStep {
    /// It is the name that the file has.
    Keep,
    /// It is free.
    Take,
    /// It is taken: try this number.
    Next(u32),
}

/// What to do with a name that was thought of.
pub open spec fn name_step(
    target: Seq<char>,
    own: Seq<char>,
    claimed: Seq<Seq<char>>,
    on_disk: bool,
    counter: Option<u32>,
) -> NameStep {
    if target == own {
        NameStep::Keep
    } else if claimed.contains(target) || on_disk {
        NameStep::Next(
            match counter {
                Some(c) => (c + 1) as u32,
                None => 1,
            },
        )
    } else {
        NameStep::Take
    }
}

/// Decides what to do with a name that was thought of, given the file's own, those that files of
/// this run have got, and whether there is a file with that name.
pub fn judge_name(target: &str, own: &str, claimed: &Vec<String>, on_disk: bool, counter: Option<u32>) -> (r:
    NameStep)
    requires
        counter is Some ==> counter->0 < u32::MAX,
    ensures
        r == name_step(target@, own@, text::views(claimed@), on_disk, counter),
{
    if text::same_text(target, own) {
        NameStep::Keep
    } else if on_disk || text::has_text(claimed.as_slice(), target) {
        match counter {
            Some(c) => NameStep::Next(c + 1),
            None => NameStep::Next(1),
        }
    } else {
        NameStep::Take
    }
}

/// No two files of a run get the same name, and none gets that of a file that is there.
pub proof fn names_stay_apart(
    target: Seq<char>,
    own: Seq<char>,
    claimed: Seq<Seq<char>>,
    on_disk: bool,
    counter: Option<u32>,
)
    requires
        claimed.no_duplicates(),
        name_step(target, own, claimed, on_disk, counter) is Take,
    ensures
        claimed.push(target).no_duplicates(),
        !on_disk,
        target != own,
{
}

/// What became of a file that was to get a new name.
pub open spec fn naming_outcome(name: Seq<char>, error: Option<Seq<char>>) -> OutcomeView {
    match error {
        Some(e) => OutcomeView::Failed("重命名失败："@ + e),
        None => OutcomeView::Changed("-> "@ + name),
    }
}

/// Tells what became of a file that was to get a new name.
pub fn renamed(name: &str, error: Option<&str>) -> (r: Outcome)
    ensures
        r@ == naming_outcome(
            name@,
            match error {
                Some(e) => Some(e@),
                None => None,
            },
        ),
{
    match error {
        Some(e) => Outcome::Failed(text::copy_text("重命名失败：").concat(e)),
        None => Outcome::Changed(text::copy_text("-> ").concat(name)),
    }
}

/// What is told before files are renamed.
pub open spec fn rename_lines(pattern: Seq<char>, files: nat, dry_run: bool) -> Seq<char> {
    "PIC-Killer · 按拍摄时间重命名\n  模板："@ + pattern + "\n  文件："@ + text::dec(files) + " 个\n"@ + text::when(
        dry_run,
        "  模式：预览（不重命名）\n"@,
    )
}

/// Tells what is about to be done before files are renamed.
pub fn rename_header(pattern: &str, files: usize, dry_run: bool) -> (s: String)
    ensures
        s@ == rename_lines(pattern@, files as nat, dry_run),
{
    let mut s: String = text::copy_text("PIC-Killer · 按拍摄时间重命名\n  模板：").concat(pattern).concat(
        "\n  文件：",
    );
    text::push_dec(&mut s, files as u64);
    s.append(" 个\n");
    text::push_when(&mut s, dry_run, "  模式：预览（不重命名）\n");
    s
}

// ---- bringing backups back --------------------------------------------------------------

/// What to do about a file's backup.
#[derive(Debug)]
pub enum RestoreStep {
    /// Nothing: this is what there is to tell.
    Tell(Outcome),
    /// Copy it over the file.
    Copy,
    /// Move it over the file.
    Move,
}

/// What to do about a file's backup.
pub enum RestoreView {
    Tell(OutcomeView),
    Copy,
    Move,
}

impl View for RestoreStep {
    type V = RestoreView;

    open spec fn view(&self) -> RestoreView {
        match *self {
            RestoreStep::Tell(o) => RestoreView::Tell(o@),
            RestoreStep::Copy => RestoreView::Copy,
            RestoreStep::Move => RestoreView::Move,
        }
    }
}

/// What to do about a file's backup.
pub open spec fn restore_step(has_backup: bool, keep_backup: bool, dry_run: bool) -> RestoreView {
    if !has_backup {
        RestoreView::Tell(OutcomeView::Skipped("无 .bak 备份"@))
    } else if dry_run {
        RestoreView::Tell(OutcomeView::Changed("将从 .bak 还原"@))
    } else if keep_backup {
        RestoreView::Copy
    } else {
        RestoreView::Move
    }
}

/// Decides what to do about a file's backup.
pub fn plan_restore(has_backup: bool, keep_backup: bool, dry_run: bool) -> (r: RestoreStep)
    ensures
        r@ == restore_step(has_backup, keep_backup, dry_run),
{
    if !has_backup {
        RestoreStep::Tell(Outcome::Skipped(text::copy_text("无 .bak 备份")))
    } else if dry_run {
        RestoreStep::Tell(Outcome::Changed(text::copy_text("将从 .bak 还原")))
    } else if keep_backup {
        RestoreStep::Copy
    } else {
        RestoreStep::Move
    }
}

/// What became of a file whose backup was to be brought back.
pub open spec fn restore_outcome(keep_backup: bool, error: Option<Seq<char>>) -> OutcomeView {
    match error {
        Some(e) => OutcomeView::Failed("还原失败："@ + e),
        None => OutcomeView::Changed(
            if keep_backup {
                "已从备份还原（保留 .bak）"@
            } else {
                "已从备份还原（移除 .bak）"@
            },
        ),
    }
}

/// Tells what became of a file whose backup was to be brought back.
pub fn restored(keep_backup: bool, error: Option<&str>) -> (r: Outcome)
    ensures
        r@ == restore_outcome(
            keep_backup,
            match error {
                Some(e) => Some(e@),
                None => None,
            },
        ),
{
    match error {
        Some(e) => Outcome::Failed(text::copy_text("还原失败：").concat(e)),
        None => Outcome::Changed(
            if keep_backup {
                text::copy_text("已从备份还原（保留 .bak）")
            } else {
                text::copy_text("已从备份还原（移除 .bak）")
            },
        ),
    }
}

/// What is told before backups are brought back.
pub open spec fn restore_lines(backups: nat, files: nat, keep_backup: bool, dry_run: bool) -> Seq<char> {
    "PIC-Killer · 从备份还原\n  找到 .bak："@ + text::dec(backups) + " / "@ + text::dec(files)
        + " 个文件\n  备份处理："@ + (if keep_backup {
        "还原后保留 .bak"@
    } else {
        "还原后移除 .bak"@
    }) + "\n"@ + text::when(dry_run, "  模式：预览（不操作）\n"@) + text::when(
        backups == 0,
        "没有找到任何 .bak 备份，无需还原。\n"@,
    )
}

/// Tells what is about to be done before backups are brought back.
pub fn restore_header(backups: usize, files: usize, keep_backup: bool, dry_run: bool) -> (s: String)
    ensures
        s@ == restore_lines(backups as nat, files as nat, keep_backup, dry_run),
{
    let mut s: String = text::copy_text("PIC-Killer · 从备份还原\n  找到 .bak：");
    text::push_dec(&mut s, backups as u64);
    s.append(" / ");
    text::push_dec(&mut s, files as u64);
    s.append(" 个文件\n  备份处理：");
    if keep_backup {
        s.append("还原后保留 .bak");
    } else {
        s.append("还原后移除 .bak");
    }
    s.append("\n");
    text::push_when(&mut s, dry_run, "  模式：预览（不操作）\n");
    text::push_when(&mut s, backups == 0, "没有找到任何 .bak 备份，无需还原。\n");
    s
}

/// What is told after backups were brought back.
pub fn restore_summary(stats: &Stats, total: usize, dry_run: bool) -> (s: String)
    ensures
        s@ == outcome::count_line(
            if dry_run {
                "将还原"@
            } else {
                "已还原"@
            },
            *stats,
            total as int,
        ),
{
    if dry_run {
        outcome::counts_text("将还原", stats, total)
    } else {
        outcome::counts_text("已还原", stats, total)
    }
}

} // verus!
