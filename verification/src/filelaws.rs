//! What becomes of files, and what is told of it.

use vstd::prelude::*;
use vstd::string::*;
use crate::filecmd;
use crate::filecmd::{NameStep, RestoreView};
use crate::outcome;
use crate::outcome::{OutcomeView, Stats};
use crate::reportlaws;
use crate::showlaws;
use crate::text;
use crate::textlaws;
use crate::wherelaws;

verus! {

/// A name is made of the stem, an underscore and a number where there is one, and a dot and the
/// extension where there is one.
pub proof fn names_are_made_of_parts(stem: Seq<char>, extension: Seq<char>, c: u32)
    requires
        extension.len() > 0,
    ensures
        filecmd::target_name(stem, extension, None) == stem + "."@ + extension,
        filecmd::target_name(stem, extension, Some(c)) == stem + "_"@ + text::dec(c as nat) + "."@ + extension,
        filecmd::target_name(stem, Seq::empty(), None) == stem,
        filecmd::target_name(stem, Seq::empty(), Some(c)) == stem + "_"@ + text::dec(c as nat),
{
    let e = Seq::<char>::empty();
    assert(filecmd::target_name(stem, extension, None) =~= stem + "."@ + extension);
    assert(filecmd::target_name(stem, extension, Some(c)) =~= stem + "_"@ + text::dec(c as nat) + "."@ + extension);
    assert(filecmd::target_name(stem, e, None) =~= stem);
    assert(filecmd::target_name(stem, e, Some(c)) =~= stem + "_"@ + text::dec(c as nat));
}

/// A name is taken exactly if it is another than the file's own and nobody has it; the numbers are
/// tried from 1 on, one after the other.
pub proof fn free_names_are_taken(target: Seq<char>, own: Seq<char>, claimed: Seq<Seq<char>>, on_disk: bool, c: u32)
    requires
        c < u32::MAX,
    ensures
        filecmd::name_step(target, own, claimed, on_disk, Some(c)) == NameStep::Take <==> target != own && !on_disk
            && !claimed.contains(target),
        filecmd::name_step(target, own, claimed, on_disk, Some(c)) == NameStep::Keep <==> target == own,
        target != own && (on_disk || claimed.contains(target)) ==> {
            &&& filecmd::name_step(target, own, claimed, on_disk, None) == NameStep::Next(1)
            &&& filecmd::name_step(target, own, claimed, on_disk, Some(c)) == NameStep::Next((c + 1) as u32)
        },
{
}

/// A backup is brought back exactly if there is one and this is no preview; it is copied if it is to
/// stay, and moved if not.
pub proof fn backups_are_brought_back(has_backup: bool, keep_backup: bool, dry_run: bool)
    ensures
        filecmd::restore_step(has_backup, keep_backup, dry_run) is Copy <==> has_backup && !dry_run && keep_backup,
        filecmd::restore_step(has_backup, keep_backup, dry_run) is Move <==> has_backup && !dry_run && !keep_backup,
        !has_backup ==> filecmd::restore_step(has_backup, keep_backup, dry_run) == RestoreView::Tell(
            OutcomeView::Skipped("无 .bak 备份"@),
        ),
        has_backup && dry_run ==> filecmd::restore_step(has_backup, keep_backup, dry_run) == RestoreView::Tell(
            OutcomeView::Changed("将从 .bak 还原"@),
        ),
{
}

/// What failed is told as a failure, with the reason, and nothing else is.
pub proof fn failures_are_told(name: Seq<char>, keep_backup: bool, error: Option<Seq<char>>)
    ensures
        filecmd::naming_outcome(name, error) is Failed <==> error is Some,
        filecmd::naming_outcome(name, error) is Changed <==> error is None,
        filecmd::restore_outcome(keep_backup, error) is Failed <==> error is Some,
        filecmd::restore_outcome(keep_backup, error) is Changed <==> error is None,
        error is Some ==> wherelaws::stands_in(error->0, filecmd::naming_outcome(name, error)->Failed_0),
        error is Some ==> wherelaws::stands_in(error->0, filecmd::restore_outcome(keep_backup, error)->Failed_0),
        error is None ==> wherelaws::stands_in(name, filecmd::naming_outcome(name, error)->Changed_0),
{
    let e = Seq::<char>::empty();
    if let Some(why) = error {
        assert("重命名失败："@ + why + e =~= "重命名失败："@ + why);
        assert("还原失败："@ + why + e =~= "还原失败："@ + why);
    } else {
        assert("-> "@ + name + e =~= "-> "@ + name);
    }
}

proof fn lemma_front<A>(v: Seq<A>, kind: spec_fn(A) -> bool, n: int)
    requires
        0 <= n < v.len(),
    ensures
        reportlaws::how_many(v.drop_last(), kind, n) == reportlaws::how_many(v, kind, n),
    decreases n,
{
    if n > 0 {
        lemma_front(v, kind, n - 1);
    }
}

/// Each sort of outcome is counted as often as there is one.
pub proof fn outcomes_are_counted(v: Seq<OutcomeView>)
    ensures
        outcome::changes(v) == reportlaws::how_many(v, |o: OutcomeView| o is Changed, v.len() as int),
        outcome::skips(v) == reportlaws::how_many(v, |o: OutcomeView| o is Skipped, v.len() as int),
        outcome::failures(v) == reportlaws::how_many(v, |o: OutcomeView| o is Failed, v.len() as int),
    decreases v.len(),
{
    let a = |o: OutcomeView| o is Changed;
    let b = |o: OutcomeView| o is Skipped;
    let c = |o: OutcomeView| o is Failed;
    if v.len() > 0 {
        outcomes_are_counted(v.drop_last());
        lemma_front(v, a, v.len() - 1);
        lemma_front(v, b, v.len() - 1);
        lemma_front(v, c, v.len() - 1);
    }
}

/// What is told of a file says its name, what became of it, and the detail or the reason.
pub proof fn outcomes_are_told(name: Seq<char>, o: OutcomeView)
    ensures
        match o {
            OutcomeView::Changed(d) => {
                &&& text::has_prefix(outcome::outcome_lines(name, o), "[OK]   "@ + name + "\n"@)
                &&& wherelaws::stands_in(d, outcome::outcome_lines(name, o))
            },
            OutcomeView::Skipped(d) => outcome::outcome_lines(name, o) == "[跳过] "@ + name + "  ("@ + d + ")\n"@,
            OutcomeView::Failed(d) => outcome::outcome_lines(name, o) == "[失败] "@ + name + "  ("@ + d + ")\n"@,
        },
{
    let e = Seq::<char>::empty();
    if let OutcomeView::Changed(d) = o {
        let head = "[OK]   "@ + name + "\n"@;
        let s = outcome::outcome_lines(name, o);
        assert(s.subrange(0, head.len() as int) =~= head);
        if d.len() > 0 {
            assert(s =~= (head + "         "@) + d + "\n"@);
        } else {
            assert(s =~= s + d + e);
        }
    }
}

/// Files are told of in order, each with what became of it.
pub proof fn files_are_told_in_order(names: Seq<Seq<char>>, v: Seq<OutcomeView>, n: int, k: int)
    requires
        0 <= k < n,
    ensures
        wherelaws::stands_in(outcome::outcome_lines(names[k], v[k]), outcome::told(names, v, n)),
        outcome::told(names, v, n).len() >= outcome::told(names, v, k).len(),
        outcome::told(names, v, n).take(outcome::told(names, v, k).len() as int) == outcome::told(names, v, k),
    decreases n,
{
    let e = Seq::<char>::empty();
    let before = outcome::told(names, v, n - 1);
    let last = outcome::outcome_lines(names[n - 1], v[n - 1]);
    let all = outcome::told(names, v, n);
    assert(all =~= before + last + e);
    assert(all.take(before.len() as int) =~= before);
    if k < n - 1 {
        files_are_told_in_order(names, v, n - 1, k);
        showlaws::lemma_behind(e, outcome::outcome_lines(names[k], v[k]), before, last);
        assert(e + before + last =~= all);
        let part = outcome::told(names, v, k);
        assert(all.take(part.len() as int) =~= before.take(part.len() as int));
    }
}

/// A summary says how many files were changed, how many were skipped and how many failed, if any, and
/// how many there are.
pub proof fn summaries_say_the_counts(verb: Seq<char>, s: Stats, total: int)
    ensures
        wherelaws::stands_in(verb + " "@ + text::dec(s.changed as nat), outcome::count_line(verb, s, total)),
        s.skipped > 0 ==> wherelaws::stands_in(
            "跳过 "@ + text::dec(s.skipped as nat),
            outcome::count_line(verb, s, total),
        ),
        s.failed > 0 ==> wherelaws::stands_in(
            "失败 "@ + text::dec(s.failed as nat),
            outcome::count_line(verb, s, total),
        ),
        wherelaws::stands_in("共 "@ + text::dec(total as nat) + " 个文件"@, outcome::count_line(verb, s, total)),
{
    let head = "\n"@ + verb + " "@ + text::dec(s.changed as nat);
    let skipped = text::when(s.skipped > 0, "，跳过 "@ + text::dec(s.skipped as nat));
    let failed = text::when(s.failed > 0, "，失败 "@ + text::dec(s.failed as nat));
    let end = "，共 "@ + text::dec(total as nat) + " 个文件。\n"@;
    lemma_grouped(head, skipped, failed, "，共 "@, text::dec(total as nat), " 个文件。\n"@);
    lemma_head(verb, text::dec(s.changed as nat));
    lemma_words(text::dec(s.skipped as nat), text::dec(s.failed as nat), text::dec(total as nat));
    let e = Seq::<char>::empty();
    showlaws::lemma_behind(e, verb + " "@ + text::dec(s.changed as nat), head, skipped + failed + end);
    if s.skipped > 0 {
        showlaws::lemma_behind(head, "跳过 "@ + text::dec(s.skipped as nat), skipped, failed + end);
    }
    if s.failed > 0 {
        showlaws::lemma_behind(head + skipped, "失败 "@ + text::dec(s.failed as nat), failed, end);
    }
    showlaws::lemma_behind(head + skipped + failed, "共 "@ + text::dec(total as nat) + " 个文件"@, end, e);
}

proof fn lemma_grouped(a: Seq<char>, b: Seq<char>, c: Seq<char>, x: Seq<char>, y: Seq<char>, z: Seq<char>)
    ensures
        a + b + c + x + y + z == Seq::<char>::empty() + a + (b + c + (x + y + z)),
        a + b + c + x + y + z == a + b + (c + (x + y + z)),
        a + b + c + x + y + z == (a + b) + c + (x + y + z),
        a + b + c + x + y + z == (a + b + c) + (x + y + z) + Seq::<char>::empty(),
{
    assert(a + b + c + x + y + z =~= Seq::<char>::empty() + a + (b + c + (x + y + z)));
    assert(a + b + c + x + y + z =~= a + b + (c + (x + y + z)));
    assert(a + b + c + x + y + z =~= (a + b) + c + (x + y + z));
    assert(a + b + c + x + y + z =~= (a + b + c) + (x + y + z) + Seq::<char>::empty());
}

proof fn lemma_head(verb: Seq<char>, n: Seq<char>)
    ensures
        wherelaws::stands_in(verb + " "@ + n, "\n"@ + verb + " "@ + n),
{
    assert("\n"@ + (verb + " "@ + n) + Seq::<char>::empty() =~= "\n"@ + verb + " "@ + n);
}

proof fn lemma_words(a: Seq<char>, b: Seq<char>, c: Seq<char>)
    ensures
        wherelaws::stands_in("跳过 "@ + a, "，跳过 "@ + a),
        wherelaws::stands_in("失败 "@ + b, "，失败 "@ + b),
        wherelaws::stands_in("共 "@ + c + " 个文件"@, "，共 "@ + c + " 个文件。\n"@),
{
    reveal_strlit("，跳过 ");
    reveal_strlit("跳过 ");
    reveal_strlit("，失败 ");
    reveal_strlit("失败 ");
    reveal_strlit("，共 ");
    reveal_strlit("共 ");
    reveal_strlit(" 个文件。\n");
    reveal_strlit(" 个文件");
    let comma = seq!['，'];
    let e = Seq::<char>::empty();
    assert(comma + ("跳过 "@ + a) + e =~= "，跳过 "@ + a);
    assert(comma + ("失败 "@ + b) + e =~= "，失败 "@ + b);
    assert(comma + ("共 "@ + c + " 个文件"@) + seq!['。', '\n'] =~= "，共 "@ + c + " 个文件。\n"@);
}

/// Only `y` and `yes` mean yes, in any case and with space around them.
pub proof fn answers_are_understood(before: Seq<char>, line: Seq<char>, behind: Seq<char>)
    requires
        textlaws::all_space(before),
        textlaws::all_space(behind),
        textlaws::is_trimmed(line),
    ensures
        outcome::means_yes(before + line + behind) <==> line == seq!['y'] || line == seq!['Y'] || text::lowered(line)
            == seq!['y', 'e', 's'],
{
    reveal_strlit("y");
    reveal_strlit("yes");
    textlaws::lemma_trimmed_around(before, line, behind);
    textlaws::lemma_trimmed_same(line);
    assert("y"@ =~= seq!['y'] && "yes"@ =~= seq!['y', 'e', 's']);
    let l = text::lowered(line);
    if l == seq!['y'] {
        assert(l.len() == line.len());
        assert(l[0] == text::lower(line[0]));
        assert(line[0] == 'y' || line[0] == 'Y');
        assert(line =~= seq![line[0]]);
    }
    if line == seq!['y'] || line == seq!['Y'] {
        assert(l =~= seq!['y']);
    }
}

} // verus!
