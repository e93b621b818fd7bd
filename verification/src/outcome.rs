//! What became of files, and what is told about it.

use vstd::prelude::*;
use vstd::string::*;
use crate::text;

verus! {

/// What became of one file.
#[derive(Debug)]
pub enum Outcome {
    /// It was changed, with what there is to tell about it.
    Changed(String),
    /// It was left as it is, and why.
    Skipped(String),
    /// It could not be handled, and why.
    Failed(String),
}

/// What an outcome says.
pub enum OutcomeView {
    Changed(Seq<char>),
    Skipped(Seq<char>),
    Failed(Seq<char>),
}

impl View for Outcome {
    type V = OutcomeView;

    open spec fn view(&self) -> OutcomeView {
        match *self {
            Outcome::Changed(s) => OutcomeView::Changed(s@),
            Outcome::Skipped(s) => OutcomeView::Skipped(s@),
            Outcome::Failed(s) => OutcomeView::Failed(s@),
        }
    }
}

/// The views of a list of outcomes.
pub open spec fn outcomes_view(v: Seq<Outcome>) -> Seq<OutcomeView> {
    v.map_values(|o: Outcome| o@)
}

/// How many files came out which way.
#[derive(Debug, Clone, Copy, PartialEq, Eq, Structural)]
pub struct Stats {
    pub changed: usize,
    pub skipped: usize,
    pub failed: usize,
}

/// How many outcomes are changes.
pub open spec fn changes(v: Seq<OutcomeView>) -> int
    decreases v.len(),
{
    if v.len() == 0 {
        0
    } else {
        changes(v.drop_last()) + if v.last() is Changed {
            1int
        } else {
            0
        }
    }
}

/// How many outcomes are skips.
pub open spec fn skips(v: Seq<OutcomeView>) -> int
    decreases v.len(),
{
    if v.len() == 0 {
        0
    } else {
        skips(v.drop_last()) + if v.last() is Skipped {
            1int
        } else {
            0
        }
    }
}

/// How many outcomes are failures.
pub open spec fn failures(v: Seq<OutcomeView>) -> int
    decreases v.len(),
{
    if v.len() == 0 {
        0
    } else {
        failures(v.drop_last()) + if v.last() is Failed {
            1int
        } else {
            0
        }
    }
}

/// Every outcome is a change, a skip or a failure.
pub proof fn outcomes_add_up(v: Seq<OutcomeView>)
    ensures
        changes(v) + skips(v) + failures(v) == v.len(),
        changes(v) >= 0,
        skips(v) >= 0,
        failures(v) >= 0,
    decreases v.len(),
{
    if v.len() > 0 {
        outcomes_add_up(v.drop_last());
    }
}

/// What outcomes add up to.
pub open spec fn counted(v: Seq<OutcomeView>, s: Stats) -> bool {
    s.changed == changes(v) && s.skipped == skips(v) && s.failed == failures(v)
}

/// Counts outcomes.
pub fn tally(outcomes: &Vec<Outcome>) -> (s: Stats)
    ensures
        counted(outcomes_view(outcomes@), s),
{
    let ghost all = outcomes_view(outcomes@);
    let mut s: Stats = Stats { changed: 0, skipped: 0, failed: 0 };
    let mut i: usize = 0;
    assert(all.take(0) =~= Seq::empty());
    while i < outcomes.len()
        invariant
            i <= outcomes.len(),
            all == outcomes_view(outcomes@),
            counted(all.take(i as int), s),
        decreases outcomes.len() - i,
    {
        proof {
            outcomes_add_up(all.take(i as int));
            assert(all.take(i + 1).drop_last() =~= all.take(i as int));
            assert(all.take(i + 1).last() == outcomes@[i as int]@);
        }
        match &outcomes[i] {
            Outcome::Changed(_) => {
                s.changed += 1;
            },
            Outcome::Skipped(_) => {
                s.skipped += 1;
            },
            Outcome::Failed(_) => {
                s.failed += 1;
            },
        }
        i += 1;
    }
    assert(all.take(all.len() as int) =~= all);
    s
}

/// What is told about one file.
pub open spec fn outcome_lines(name: Seq<char>, o: OutcomeView) -> Seq<char> {
    match o {
        OutcomeView::Changed(detail) => "[OK]   "@ + name + "\n"@ + text::when(
            detail.len() > 0,
            "         "@ + detail + "\n"@,
        ),
        OutcomeView::Skipped(reason) => "[跳过] "@ + name + "  ("@ + reason + ")\n"@,
        OutcomeView::Failed(error) => "[失败] "@ + name + "  ("@ + error + ")\n"@,
    }
}

/// What is told about one file.
pub fn outcome_text(name: &str, outcome: &Outcome) -> (s: String)
    ensures
        s@ == outcome_lines(name@, outcome@),
{
    match outcome {
        Outcome::Changed(detail) => {
            let mut s: String = text::copy_text("[OK]   ").concat(name).concat("\n");
            if !text::is_blank(detail.as_str()) {
                s.append(text::copy_text("         ").concat(detail.as_str()).concat("\n").as_str());
            }
            assert(s@ =~= outcome_lines(name@, outcome@));
            s
        },
        Outcome::Skipped(reason) => text::copy_text("[跳过] ").concat(name).concat("  (").concat(
            reason.as_str(),
        ).concat(")\n"),
        Outcome::Failed(error) => text::copy_text("[失败] ").concat(name).concat("  (").concat(
            error.as_str(),
        ).concat(")\n"),
    }
}

/// The counts of a summary.
pub open spec fn count_line(verb: Seq<char>, s: Stats, total: int) -> Seq<char> {
    "\n"@ + verb + " "@ + text::dec(s.changed as nat) + text::when(
        s.skipped > 0,
        "，跳过 "@ + text::dec(s.skipped as nat),
    ) + text::when(s.failed > 0, "，失败 "@ + text::dec(s.failed as nat)) + "，共 "@ + text::dec(total as nat)
        + " 个文件。\n"@
}

/// Tells the counts, after a verb that says what was done.
pub fn counts_text(verb: &str, stats: &Stats, total: usize) -> (s: String)
    ensures
        s@ == count_line(verb@, *stats, total as int),
{
    let mut s: String = text::copy_text("\n").concat(verb).concat(" ");
    text::push_dec(&mut s, stats.changed as u64);
    let ghost a = s@;
    if stats.skipped > 0 {
        s.append("，跳过 ");
        text::push_dec(&mut s, stats.skipped as u64);
    }
    assert(s@ =~= a + text::when(stats.skipped > 0, "，跳过 "@ + text::dec(stats.skipped as nat)));
    let ghost b = s@;
    if stats.failed > 0 {
        s.append("，失败 ");
        text::push_dec(&mut s, stats.failed as u64);
    }
    assert(s@ =~= b + text::when(stats.failed > 0, "，失败 "@ + text::dec(stats.failed as nat)));
    s.append("，共 ");
    text::push_dec(&mut s, total as u64);
    s.append(" 个文件。\n");
    s
}

/// What is told at the end.
pub open spec fn summary(s: Stats, total: int, dry_run: bool) -> Seq<char> {
    count_line(
        if dry_run {
            "将修改"@
        } else {
            "已修改"@
        },
        s,
        total,
    ) + text::when(dry_run, "（预览模式，未写入任何文件；去掉 -n/--dry-run 即可执行）\n"@)
}

/// What is told at the end.
pub fn summary_text(stats: &Stats, total: usize, dry_run: bool) -> (s: String)
    ensures
        s@ == summary(*stats, total as int, dry_run),
{
    let verb: &str = if dry_run {
        "将修改"
    } else {
        "已修改"
    };
    let mut s: String = counts_text(verb, stats, total);
    if dry_run {
        s.append("（预览模式，未写入任何文件；去掉 -n/--dry-run 即可执行）\n");
    }
    assert(s@ =~= summary(*stats, total as int, dry_run));
    s
}

/// What is told about the first `n` files, one after the other.
pub open spec fn told(names: Seq<Seq<char>>, v: Seq<OutcomeView>, n: int) -> Seq<char>
    decreases n,
{
    if n <= 0 {
        Seq::empty()
    } else {
        told(names, v, n - 1) + outcome_lines(names[n - 1], v[n - 1])
    }
}

/// What is told about all files, in their order, without the summary; and the counts.
pub fn batch_text(names: &Vec<String>, outcomes: &Vec<Outcome>) -> (r: (String, Stats))
    requires
        names.len() == outcomes.len(),
    ensures
        r.0@ == told(text::views(names@), outcomes_view(outcomes@), names@.len() as int),
        counted(outcomes_view(outcomes@), r.1),
{
    let ghost all = outcomes_view(outcomes@);
    let ghost called = text::views(names@);
    let mut s: String = String::new();
    let mut i: usize = 0;
    assert(s@ =~= Seq::empty());
    while i < outcomes.len()
        invariant
            i <= outcomes.len(),
            names.len() == outcomes.len(),
            all == outcomes_view(outcomes@),
            called == text::views(names@),
            s@ == told(called, all, i as int),
        decreases outcomes.len() - i,
    {
        assert(all[i as int] == outcomes@[i as int]@ && called[i as int] == names@[i as int]@);
        s.append(outcome_text(names[i].as_str(), &outcomes[i]).as_str());
        i += 1;
    }
    (s, tally(outcomes))
}

/// Whether the user has to be asked before files are written.
pub fn must_confirm(dry_run: bool, yes: bool) -> (r: bool)
    ensures
        r == !(dry_run || yes),
{
    !(dry_run || yes)
}

/// Whether an answer means yes.
pub open spec fn means_yes(line: Seq<char>) -> bool {
    let a = text::lowered(text::trimmed(line));
    a == "y"@ || a == "yes"@
}

/// Whether an answer means yes.
pub fn is_yes(line: &str) -> (r: bool)
    ensures
        r == means_yes(line@),
{
    let cs: Vec<char> = text::chars_of(line);
    let a: Vec<char> = text::lower_chars(text::trim_chars(cs.as_slice()));
    text::is_text(a.as_slice(), "y") || text::is_text(a.as_slice(), "yes")
}

} // verus!
