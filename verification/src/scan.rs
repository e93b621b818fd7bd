//! Which files are worked on: wildcards, extensions, and each file once.

use vstd::prelude::*;
use vstd::string::*;
use crate::text;
use crate::textlaws;

verus! {

/// Whether a pattern stands for a name: `*` for any characters, `?` for one, anything else for
/// itself.
pub open spec fn globs(pattern: Seq<char>, name: Seq<char>) -> bool
    decreases pattern.len() + name.len(),
{
    if pattern.len() == 0 {
        name.len() == 0
    } else if pattern[0] == '*' {
        globs(pattern.drop_first(), name) || (name.len() > 0 && globs(pattern, name.drop_first()))
    } else {
        name.len() > 0 && (pattern[0] == '?' || pattern[0] == name[0]) && globs(
            pattern.drop_first(),
            name.drop_first(),
        )
    }
}

/// Whether `n` pattern characters from `p` on, none of them a star, stand for as many from `t`.
pub open spec fn segment_fits(pattern: Seq<char>, p: int, name: Seq<char>, t: int, n: int) -> bool {
    &&& 0 <= p && p + n <= pattern.len()
    &&& 0 <= t && t + n <= name.len()
    &&& forall|k: int|
        0 <= k < n ==> pattern[p + k] != '*' && (pattern[p + k] == '?' || #[trigger] pattern[p + k] == name[t
            + k])
}

/// A segment that fits can be taken off both sides.
proof fn lemma_segment(pattern: Seq<char>, p: int, name: Seq<char>, t: int, n: int)
    requires
        0 <= n,
        segment_fits(pattern, p, name, t, n),
    ensures
        globs(pattern.skip(p), name.skip(t)) == globs(pattern.skip(p + n), name.skip(t + n)),
    decreases n,
{
    if n > 0 {
        assert(pattern[p + 0] != '*');
        assert(pattern.skip(p)[0] == pattern[p]);
        assert(name.skip(t)[0] == name[t]);
        assert(pattern.skip(p).drop_first() =~= pattern.skip(p + 1));
        assert(name.skip(t).drop_first() =~= name.skip(t + 1));
        assert forall|k: int| 0 <= k < n - 1 implies pattern[p + 1 + k] != '*' && (pattern[p + 1 + k] == '?'
            || #[trigger] pattern[p + 1 + k] == name[t + 1 + k]) by {
            assert(pattern[p + (k + 1)] != '*');
        }
        lemma_segment(pattern, p + 1, name, t + 1, n - 1);
    }
}

/// A star that can stand for the rest from `t` on can stand for the rest from any earlier place.
proof fn lemma_star_absorbs(pattern: Seq<char>, name: Seq<char>, from: int, to: int)
    requires
        pattern.len() > 0,
        pattern[0] == '*',
        0 <= from <= to <= name.len(),
        globs(pattern, name.skip(to)),
    ensures
        globs(pattern, name.skip(from)),
    decreases to - from,
{
    if from < to {
        lemma_star_absorbs(pattern, name, from + 1, to);
        assert(name.skip(from).drop_first() =~= name.skip(from + 1));
    }
}

/// What a star stands for ends somewhere.
proof fn lemma_star_ends(pattern: Seq<char>, name: Seq<char>, from: int) -> (end: int)
    requires
        pattern.len() > 0,
        pattern[0] == '*',
        0 <= from <= name.len(),
        globs(pattern, name.skip(from)),
    ensures
        from <= end <= name.len(),
        globs(pattern.drop_first(), name.skip(end)),
    decreases name.len() - from,
{
    if globs(pattern.drop_first(), name.skip(from)) {
        from
    } else {
        assert(name.skip(from).drop_first() =~= name.skip(from + 1));
        lemma_star_ends(pattern, name, from + 1)
    }
}

/// A segment between two stars may be matched at the first place where it fits.
proof fn lemma_next_star(pattern: Seq<char>, star: int, p: int, name: Seq<char>, mark: int, t: int)
    requires
        0 <= star < p < pattern.len(),
        pattern[star] == '*',
        pattern[p] == '*',
        0 <= mark <= t <= name.len(),
        p - star - 1 == t - mark,
        segment_fits(pattern, star + 1, name, mark, p - star - 1),
    ensures
        globs(pattern.skip(star), name.skip(mark)) == globs(pattern.skip(p), name.skip(t)),
{
    let n = p - star - 1;
    assert(pattern.skip(star)[0] == '*');
    assert(pattern.skip(p)[0] == '*');
    assert(pattern.skip(star).drop_first() =~= pattern.skip(star + 1));
    lemma_segment(pattern, star + 1, name, mark, n);
    if globs(pattern.skip(star), name.skip(mark)) {
        let k = lemma_star_ends(pattern.skip(star), name, mark);
        lemma_fits_somewhere(pattern, star + 1, name, k, n);
        lemma_star_absorbs(pattern.skip(p), name, t, k + n);
    }
}

/// If a pattern that begins with `n` characters other than stars stands for a text, the text is
/// long enough for them, and what is behind them stands for what is behind.
proof fn lemma_fits_somewhere(pattern: Seq<char>, p: int, name: Seq<char>, k: int, n: int)
    requires
        0 <= n,
        0 <= p && p + n <= pattern.len(),
        0 <= k <= name.len(),
        forall|j: int| 0 <= j < n ==> #[trigger] pattern[p + j] != '*',
        globs(pattern.skip(p), name.skip(k)),
    ensures
        k + n <= name.len(),
        globs(pattern.skip(p + n), name.skip(k + n)),
    decreases n,
{
    if n > 0 {
        assert(pattern[p + 0] != '*');
        assert(pattern.skip(p)[0] == pattern[p]);
        assert(pattern.skip(p).drop_first() =~= pattern.skip(p + 1));
        assert(name.skip(k).drop_first() =~= name.skip(k + 1));
        assert forall|j: int| 0 <= j < n - 1 implies #[trigger] pattern[p + 1 + j] != '*' by {
            assert(pattern[p + (j + 1)] != '*');
        }
        lemma_fits_somewhere(pattern, p + 1, name, k + 1, n - 1);
    }
}

/// Whether a pattern stands for a name. Only the last star met is ever gone back to.
pub fn glob_chars(pattern: &[char], name: &[char]) -> (r: bool)
    ensures
        r == globs(pattern@, name@),
{
    let mut p: usize = 0;
    let mut t: usize = 0;
    let mut starred: bool = false;
    let mut star: usize = 0;
    let mut mark: usize = 0;
    proof {
        assert(pattern@.skip(0) =~= pattern@);
        assert(name@.skip(0) =~= name@);
    }
    while t < name.len()
        invariant
            p <= pattern.len(),
            t <= name.len(),
            mark <= t,
            starred ==> star < p && pattern@[star as int] == '*' && p - star - 1 == t - mark && segment_fits(
                pattern@,
                star + 1,
                name@,
                mark as int,
                p - star - 1,
            ) && globs(pattern@, name@) == globs(pattern@.skip(star as int), name@.skip(mark as int)),
            !starred ==> mark == 0 && star == 0 && globs(pattern@, name@) == globs(
                pattern@.skip(p as int),
                name@.skip(t as int),
            ),
        decreases
                pattern.len() - (if starred {
                    star + 1
                } else {
                    0
                }),
                name.len() - mark,
                name.len() - t,
    {
        proof {
            if p < pattern.len() {
                assert(pattern@.skip(p as int)[0] == pattern@[p as int]);
                assert(pattern@.skip(p as int).drop_first() =~= pattern@.skip(p + 1));
            }
            assert(name@.skip(t as int)[0] == name@[t as int]);
            assert(name@.skip(t as int).drop_first() =~= name@.skip(t + 1));
        }
        if p < pattern.len() && pattern[p] == '*' {
            proof {
                if starred {
                    lemma_next_star(pattern@, star as int, p as int, name@, mark as int, t as int);
                }
            }
            starred = true;
            star = p;
            mark = t;
            p += 1;
        } else if p < pattern.len() && (pattern[p] == '?' || pattern[p] == name[t]) {
            proof {
                if starred {
                    let n = p - star - 1;
                    assert forall|k: int| 0 <= k < n + 1 implies pattern@[star + 1 + k] != '*' && (pattern@[star
                        + 1 + k] == '?' || #[trigger] pattern@[star + 1 + k] == name@[mark + k]) by {
                        if k == n {
                            assert(star + 1 + k == p);
                            assert(mark + k == t);
                        }
                    }
                }
            }
            p += 1;
            t += 1;
        } else if starred {
            proof {
                let rest = pattern@.skip(star as int);
                assert(rest[0] == '*');
                assert(rest.drop_first() =~= pattern@.skip(star + 1));
                lemma_segment(pattern@, star + 1, name@, mark as int, p - star - 1);
                assert(!globs(pattern@.skip(p as int), name@.skip(t as int)));
                assert(name@.skip(mark as int).drop_first() =~= name@.skip(mark + 1));
            }
            p = star + 1;
            mark += 1;
            t = mark;
        } else {
            return false;
        }
    }
    proof {
        if starred {
            let rest = pattern@.skip(star as int);
            assert(rest[0] == '*');
            assert(rest.drop_first() =~= pattern@.skip(star + 1));
            lemma_segment(pattern@, star + 1, name@, mark as int, p - star - 1);
            if globs(rest, name@.skip(mark as int)) {
                let k = lemma_star_ends(rest, name@, mark as int);
                lemma_fits_somewhere(pattern@, star + 1, name@, k, p - star - 1);
            }
        }
        assert(name@.skip(t as int) =~= Seq::<char>::empty());
        assert(globs(pattern@, name@) == globs(pattern@.skip(p as int), Seq::<char>::empty()));
    }
    while p < pattern.len() && pattern[p] == '*'
        invariant
            p <= pattern.len(),
            globs(pattern@, name@) == globs(pattern@.skip(p as int), Seq::<char>::empty()),
        decreases pattern.len() - p,
    {
        proof {
            assert(pattern@.skip(p as int)[0] == '*');
            assert(pattern@.skip(p as int).drop_first() =~= pattern@.skip(p + 1));
        }
        p += 1;
    }
    proof {
        if p < pattern.len() {
            assert(pattern@.skip(p as int)[0] == pattern@[p as int]);
        }
    }
    p == pattern.len()
}

/// Whether a pattern stands for a file name, in any case.
pub fn glob_match(pattern: &str, name: &str) -> (r: bool)
    ensures
        r == globs(text::lowercase_text(pattern@), text::lowercase_text(name@)),
        text::ascii_only(pattern@) && text::ascii_only(name@) ==> r == globs(
            text::lowered(pattern@),
            text::lowered(name@),
        ),
{
    let p: Vec<char> = text::chars_of(text::unicode_lowercase(pattern).as_str());
    let n: Vec<char> = text::chars_of(text::unicode_lowercase(name).as_str());
    glob_chars(p.as_slice(), n.as_slice())
}

/// A lone star stands for every name.
pub proof fn star_matches_all(name: Seq<char>)
    ensures
        globs(seq!['*'], name),
    decreases name.len(),
{
    let star = seq!['*'];
    reveal_with_fuel(globs, 2);
    assert(star.drop_first() =~= Seq::<char>::empty());
    if name.len() > 0 {
        star_matches_all(name.drop_first());
    }
}

/// A pattern without wildcards stands for itself alone.
pub proof fn plain_pattern_is_itself(pattern: Seq<char>, name: Seq<char>)
    requires
        !pattern.contains('*'),
        !pattern.contains('?'),
    ensures
        globs(pattern, name) == (pattern == name),
    decreases pattern.len(),
{
    if pattern.len() > 0 {
        assert(pattern[0] != '*' && pattern[0] != '?');
        let rest = pattern.drop_first();
        assert forall|c: char| c == '*' || c == '?' implies !rest.contains(c) by {
            if rest.contains(c) {
                let i = choose|i: int| 0 <= i < rest.len() && rest[i] == c;
                assert(pattern[i + 1] == c);
            }
        }
        if name.len() > 0 {
            plain_pattern_is_itself(rest, name.drop_first());
            if pattern[0] == name[0] && rest == name.drop_first() {
                assert(pattern =~= seq![pattern[0]] + rest);
                assert(name =~= seq![name[0]] + name.drop_first());
            }
        }
    } else if name.len() == 0 {
        assert(pattern =~= name);
    }
}

/// Whether a pattern stands for what is left of a name behind some of its characters.
pub open spec fn globs_behind(pattern: Seq<char>, name: Seq<char>, k: int) -> bool {
    0 <= k <= name.len() && globs(pattern, name.skip(k))
}

/// A star stands for any characters, as many as there are or none, and a question mark for any one.
pub proof fn wildcards_stand_for_characters(pattern: Seq<char>, name: Seq<char>)
    ensures
        globs(seq!['*'] + pattern, name) <==> exists|k: int| globs_behind(pattern, name, k),
        globs(seq!['?'] + pattern, name) <==> name.len() > 0 && globs(pattern, name.drop_first()),
    decreases name.len(),
{
    let star = seq!['*'] + pattern;
    let one = seq!['?'] + pattern;
    assert(star.drop_first() =~= pattern && star[0] == '*');
    assert(one.drop_first() =~= pattern && one[0] == '?');
    assert(name.skip(0) =~= name);
    if globs(pattern, name) {
        assert(globs_behind(pattern, name, 0));
    }
    if name.len() > 0 {
        let rest = name.drop_first();
        wildcards_stand_for_characters(pattern, rest);
        if globs(star, rest) {
            let k = choose|k: int| globs_behind(pattern, rest, k);
            assert(rest.skip(k) =~= name.skip(k + 1));
            assert(globs_behind(pattern, name, k + 1));
        }
        if exists|k: int| globs_behind(pattern, name, k) {
            let k = choose|k: int| globs_behind(pattern, name, k);
            if k > 0 {
                assert(rest.skip(k - 1) =~= name.skip(k));
                assert(globs_behind(pattern, rest, k - 1));
            }
        }
    } else if exists|k: int| globs_behind(pattern, name, k) {
        let k = choose|k: int| globs_behind(pattern, name, k);
        assert(k == 0);
    }
}

/// Whether a path holds a wildcard.
pub fn has_wildcard(path: &str) -> (r: bool)
    ensures
        r == (path@.contains('*') || path@.contains('?')),
{
    let cs: Vec<char> = text::chars_of(path);
    text::has_char(cs.as_slice(), '*') || text::has_char(cs.as_slice(), '?')
}

/// `s` without dots in front.
pub open spec fn without_dots(s: Seq<char>) -> Seq<char>
    decreases s.len(),
{
    if s.len() > 0 && s[0] == '.' {
        without_dots(s.drop_first())
    } else {
        s
    }
}

/// An extension as it is compared: trimmed, without dots in front, in lower case.
pub open spec fn plain_ext(part: Seq<char>) -> Seq<char> {
    text::lowered(without_dots(text::trimmed(part)))
}

/// Whether a list of extensions names this one.
pub open spec fn names_ext(list: Seq<char>, ext: Seq<char>) -> bool {
    ext.len() > 0 && exists|i: int|
        0 <= i < text::split_any(list, seq![',']).len() && plain_ext(
            #[trigger] text::split_any(list, seq![','])[i],
        ) == ext
}

/// Whether no text occurs twice.
pub open spec fn all_different(v: Seq<Seq<char>>) -> bool {
    forall|i: int, j: int| 0 <= i < j < v.len() ==> #[trigger] v[i] != #[trigger] v[j]
}

/// One extension as it is compared.
fn clean_ext(part: &[char]) -> (v: Vec<char>)
    ensures
        v@ == plain_ext(part@),
{
    let t: &[char] = text::trim_chars(part);
    let mut start: usize = 0;
    assert(t@.skip(0) =~= t@);
    while start < t.len() && t[start] == '.'
        invariant
            start <= t.len(),
            without_dots(t@) == without_dots(t@.skip(start as int)),
        decreases t.len() - start,
    {
        assert(t@.skip(start as int).drop_first() =~= t@.skip(start + 1));
        start += 1;
    }
    assert(t@.subrange(start as int, t@.len() as int) =~= t@.skip(start as int));
    text::lower_chars(&t[start..t.len()])
}

/// Reads a list of extensions with commas between them: each once, in lower case, without dots
/// in front. The list stands for a set.
pub fn parse_ext_set(s: &str) -> (out: Vec<String>)
    ensures
        forall|ext: Seq<char>| text::views(out@).contains(ext) <==> names_ext(s@, ext),
        all_different(text::views(out@)),
{
    let cs: Vec<char> = text::chars_of(s);
    let comma: [char; 1] = [','];
    assert(comma@ =~= seq![',']);
    let parts: Vec<Vec<char>> = text::split_chars(cs.as_slice(), &comma);
    let ghost all = text::split_any(s@, seq![',']);
    let mut out: Vec<String> = Vec::new();
    let mut i: usize = 0;
    while i < parts.len()
        invariant
            i <= parts.len(),
            parts@.map_values(|p: Vec<char>| p@) == all,
            all_different(text::views(out@)),
            forall|ext: Seq<char>|
                text::views(out@).contains(ext) <==> ext.len() > 0 && exists|k: int|
                    0 <= k < i && plain_ext(#[trigger] all[k]) == ext,
        decreases parts.len() - i,
    {
        assert(all[i as int] == parts@[i as int]@);
        let ghost before = text::views(out@);
        let ext: Vec<char> = clean_ext(parts[i].as_slice());
        let t: String = text::text_of(ext.as_slice());
        let ghost one = t@;
        if ext.len() > 0 && !text::has_text(out.as_slice(), t.as_str()) {
            out.push(t);
            assert(text::views(out@) =~= before.push(one));
            assert forall|e: Seq<char>| text::views(out@).contains(e) <==> before.contains(e) || e == one by {
                let after = before.push(one);
                assert(after[before.len() as int] == one);
                if before.contains(e) {
                    let j = choose|j: int| 0 <= j < before.len() && before[j] == e;
                    assert(after[j] == e);
                }
            }
            assert(all_different(before.push(one)));
        }
        proof {
            assert forall|e: Seq<char>| text::views(out@).contains(e) <==> e.len() > 0 && exists|k: int|
                0 <= k < i + 1 && plain_ext(#[trigger] all[k]) == e by {
                assert(text::views(out@).contains(e) <==> before.contains(e) || (e == one && one.len() > 0));
                if before.contains(e) {
                    let k = choose|k: int| 0 <= k < i && plain_ext(#[trigger] all[k]) == e;
                    assert(plain_ext(all[k]) == e);
                }
                if e.len() > 0 && exists|k: int| 0 <= k < i + 1 && plain_ext(#[trigger] all[k]) == e {
                    let k = choose|k: int| 0 <= k < i + 1 && plain_ext(#[trigger] all[k]) == e;
                    if k < i {
                        assert(before.contains(e));
                    } else {
                        assert(e == one);
                    }
                }
                if e == one {
                    assert(plain_ext(all[i as int]) == e);
                }
            }
        }
        i += 1;
    }
    out
}

/// Whether a file with this extension is among those asked for.
pub fn ext_matches(ext: Option<&str>, exts: &[String]) -> (r: bool)
    ensures
        r == match ext {
            Some(e) => text::views(exts@).contains(text::lowered(e@)),
            None => false,
        },
{
    match ext {
        Some(e) => {
            let cs: Vec<char> = text::chars_of(e);
            let low: String = text::text_of(text::lower_chars(cs.as_slice()).as_slice());
            text::has_text(exts, low.as_str())
        },
        None => false,
    }
}

/// Whether `i` is the first place where its text stands.
pub open spec fn is_first(keys: Seq<Seq<char>>, i: int) -> bool {
    0 <= i < keys.len() && forall|j: int| 0 <= j < i ==> #[trigger] keys[j] != keys[i]
}

/// The places at which a text stands for the first time, among the first `n`.
pub open spec fn first_places(keys: Seq<Seq<char>>, n: int) -> Seq<int>
    decreases n,
{
    if n <= 0 {
        Seq::empty()
    } else if is_first(keys, n - 1) {
        first_places(keys, n - 1).push(n - 1)
    } else {
        first_places(keys, n - 1)
    }
}

/// Which files to take so that each is taken once, by the keys that tell files apart.
pub fn keep_first(keys: &[String]) -> (out: Vec<usize>)
    ensures
        out@.map_values(|i: usize| i as int) == first_places(text::views(keys@), keys@.len() as int),
{
    let ghost all = text::views(keys@);
    let mut out: Vec<usize> = Vec::new();
    let mut i: usize = 0;
    assert(out@.map_values(|i: usize| i as int) =~= first_places(all, 0));
    while i < keys.len()
        invariant
            i <= keys.len(),
            all == text::views(keys@),
            out@.map_values(|i: usize| i as int) == first_places(all, i as int),
        decreases keys.len() - i,
    {
        let ghost before = out@.map_values(|i: usize| i as int);
        let seen: bool = text::has_text(&keys[0..i], keys[i].as_str());
        proof {
            let earlier = text::views(keys@.subrange(0, i as int));
            assert(all[i as int] == keys@[i as int]@);
            if seen {
                let j = choose|j: int| 0 <= j < earlier.len() && earlier[j] == all[i as int];
                assert(all[j] == earlier[j]);
            } else {
                assert forall|j: int| 0 <= j < i implies #[trigger] all[j] != all[i as int] by {
                    assert(earlier[j] == all[j]);
                    assert(earlier.contains(earlier[j]));
                }
            }
        }
        if !seen {
            out.push(i);
            assert(out@.map_values(|i: usize| i as int) =~= before.push(i as int));
        }
        i += 1;
    }
    out
}

/// Whether place `i` or an earlier one of those taken holds the text that stands at `i`.
pub open spec fn taken_by(keys: Seq<Seq<char>>, places: Seq<int>, i: int) -> bool {
    exists|a: int| 0 <= a < places.len() && (#[trigger] places[a]) <= i && keys[places[a]] == keys[i]
}

proof fn lemma_taken_once(keys: Seq<Seq<char>>, n: int)
    requires
        0 <= n <= keys.len(),
    ensures
        ({
            let places = first_places(keys, n);
            &&& forall|a: int| 0 <= a < places.len() ==> 0 <= (#[trigger] places[a]) < n
            &&& forall|a: int, b: int|
                0 <= a < b < places.len() ==> #[trigger] places[a] < #[trigger] places[b] && keys[places[a]]
                    != keys[places[b]]
            &&& forall|i: int| 0 <= i < n ==> #[trigger] taken_by(keys, places, i)
        }),
    decreases n,
{
    if n > 0 {
        lemma_taken_once(keys, n - 1);
        let before = first_places(keys, n - 1);
        let places = first_places(keys, n);
        assert forall|i: int| 0 <= i < n implies #[trigger] taken_by(keys, places, i) by {
            if i < n - 1 {
                assert(taken_by(keys, before, i));
                let a = choose|a: int| 0 <= a < before.len() && (#[trigger] before[a]) <= i && keys[before[a]] == keys[i];
                assert(places[a] == before[a]);
            } else if is_first(keys, n - 1) {
                assert(places[before.len() as int] == n - 1);
            } else {
                let j = choose|j: int| 0 <= j < n - 1 && #[trigger] keys[j] == keys[n - 1];
                assert(taken_by(keys, before, j));
                let a = choose|a: int| 0 <= a < before.len() && (#[trigger] before[a]) <= j && keys[before[a]] == keys[j];
                assert(places[a] == before[a]);
            }
        }
    }
}

/// Every file is taken once, at the first place where it stands, and the order stays.
pub proof fn files_are_taken_once(keys: Seq<Seq<char>>)
    ensures
        ({
            let places = first_places(keys, keys.len() as int);
            &&& forall|a: int| 0 <= a < places.len() ==> 0 <= (#[trigger] places[a]) < keys.len()
            &&& forall|a: int, b: int|
                0 <= a < b < places.len() ==> #[trigger] places[a] < #[trigger] places[b] && keys[places[a]]
                    != keys[places[b]]
            &&& forall|i: int| 0 <= i < keys.len() ==> #[trigger] taken_by(keys, places, i)
        }),
{
    lemma_taken_once(keys, keys.len() as int);
}

proof fn lemma_dots(dots: Seq<char>, ext: Seq<char>)
    requires
        forall|i: int| 0 <= i < dots.len() ==> #[trigger] dots[i] == '.',
        ext.len() > 0,
        ext[0] != '.',
    ensures
        without_dots(dots + ext) == ext,
    decreases dots.len(),
{
    let s = dots + ext;
    if dots.len() == 0 {
        assert(s =~= ext);
    } else {
        assert(s[0] == dots[0]);
        let rest = dots.drop_first();
        assert forall|i: int| 0 <= i < rest.len() implies #[trigger] rest[i] == '.' by {
            assert(rest[i] == dots[i + 1]);
        }
        lemma_dots(rest, ext);
        assert(s.drop_first() =~= rest + ext);
    }
}

/// An extension is the same in any case, with space around it and with dots in front.
pub proof fn extensions_are_plain(before: Seq<char>, dots: Seq<char>, ext: Seq<char>, behind: Seq<char>)
    requires
        textlaws::all_space(before),
        textlaws::all_space(behind),
        forall|i: int| 0 <= i < dots.len() ==> #[trigger] dots[i] == '.',
        ext.len() > 0,
        ext[0] != '.',
        textlaws::is_trimmed(ext),
    ensures
        plain_ext(before + (dots + ext) + behind) == text::lowered(ext),
{
    let s = dots + ext;
    assert(s.last() == ext.last());
    assert(s[0] == '.' || s[0] == ext[0]) by {
        if dots.len() > 0 {
            assert(s[0] == dots[0]);
        }
    }
    textlaws::lemma_trimmed_around(before, s, behind);
    textlaws::lemma_trimmed_same(s);
    lemma_dots(dots, ext);
}

proof fn lemma_part_kept(a: Seq<char>, b: Seq<char>)
    requires
        !b.contains(','),
    ensures
        ({
            let s = text::split_any(a + b, seq![',']);
            &&& s.len() > 0
            &&& s.last() == text::split_any(a, seq![',']).last() + b
        }),
    decreases b.len(),
{
    let seps = seq![','];
    lemma_some_part(a);
    if b.len() == 0 {
        assert(a + b =~= a);
        assert(text::split_any(a, seps).last() + b =~= text::split_any(a, seps).last());
    } else {
        let c = b.drop_last();
        assert(!c.contains(',')) by {
            if c.contains(',') {
                let i = choose|i: int| 0 <= i < c.len() && c[i] == ',';
                assert(b[i] == ',');
            }
        }
        lemma_part_kept(a, c);
        assert((a + b).drop_last() =~= a + c);
        assert((a + b).last() == b.last());
        assert(b.contains(b.last()));
        assert(!seps.contains(b.last()));
        assert(text::split_any(a, seps).last() + b =~= (text::split_any(a, seps).last() + c).push(b.last()));
    }
}

proof fn lemma_some_part(a: Seq<char>)
    ensures
        text::split_any(a, seq![',']).len() > 0,
    decreases a.len(),
{
    if a.len() > 0 {
        lemma_some_part(a.drop_last());
    }
}

/// An extension that is put behind a list, with a comma between, is named by it.
pub proof fn listed_extension_is_named(list: Seq<char>, ext: Seq<char>)
    requires
        ext.len() > 0,
        ext[0] != '.',
        textlaws::is_trimmed(ext),
        !ext.contains(','),
    ensures
        names_ext(list + ","@ + ext, text::lowered(ext)),
        names_ext(ext, text::lowered(ext)),
{
    reveal_strlit(",");
    assert(","@ =~= seq![',']);
    let e = Seq::<char>::empty();
    let seps = seq![','];
    extensions_are_plain(e, e, ext, e);
    assert(e + (e + ext) + e =~= ext);
    let head = list.push(',');
    assert(list + ","@ + ext =~= head + ext);
    assert(head.drop_last() =~= list);
    assert(seps.contains(',')) by {
        assert(seps[0] == ',');
    }
    assert(text::split_any(head, seps).last() =~= e);
    lemma_part_kept(head, ext);
    assert(e + ext =~= ext);
    let s = text::split_any(list + ","@ + ext, seps);
    assert(s[s.len() - 1] == ext);
    lemma_part_kept(e, ext);
    assert(text::split_any(e, seps) =~= seq![e]);
    let t = text::split_any(ext, seps);
    assert(t[t.len() - 1] == ext);
    assert(text::lowered(ext).len() == ext.len());
}

} // verus!
