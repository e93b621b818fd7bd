//! Conditions on a file's metadata.
//!
//! A condition is one of `has-gps`, `no-gps`, `has-date`, `no-date`, `has-xmp`, `no-xmp`;
//! `has:NAME` or `no:NAME`, by a part of a tag's name in any case; or a comparison `NAME=VALUE`,
//! `NAME!=VALUE`, `NAME~VALUE` (contains), `NAME!~VALUE` (does not contain).
//!
//! Conditions joined by `&&` must all hold; of such groups joined by `||`, one must hold.

use little_exif::metadata::Metadata;
use vstd::prelude::*;
use vstd::string::*;
use crate::exif;
use crate::iptc;
use crate::showcmd;
use crate::tags;
use crate::tagtext::TagView;
use crate::text;
use crate::textlaws;
use crate::xmp;

verus! {

/// How a tag is compared with a value.
#[derive(Debug, Clone, Copy, PartialEq, Eq, Structural)]
pub enum Op {
    Eq,
    Ne,
    Contains,
    NotContains,
}

/// A condition.
#[derive(Debug, PartialEq)]
pub enum Condition {
    HasGps,
    NoGps,
    HasDate,
    NoDate,
    HasXmp,
    NoXmp,
    TagPresence { name: String, present: bool },
    Tag { name: String, op: Op, value: String },
}

/// What a condition says.
pub enum ConditionView {
    HasGps,
    NoGps,
    HasDate,
    NoDate,
    HasXmp,
    NoXmp,
    TagPresence(Seq<char>, bool),
    Tag(Seq<char>, Op, Seq<char>),
}

impl View for Condition {
    type V = ConditionView;

    open spec fn view(&self) -> ConditionView {
        match *self {
            Condition::HasGps => ConditionView::HasGps,
            Condition::NoGps => ConditionView::NoGps,
            Condition::HasDate => ConditionView::HasDate,
            Condition::NoDate => ConditionView::NoDate,
            Condition::HasXmp => ConditionView::HasXmp,
            Condition::NoXmp => ConditionView::NoXmp,
            Condition::TagPresence { name, present } => ConditionView::TagPresence(name@, present),
            Condition::Tag { name, op, value } => ConditionView::Tag(name@, op, value@),
        }
    }
}

/// Why a condition could not be read.
#[derive(Debug, Clone, Copy, PartialEq, Eq, Structural)]
pub enum WhereError {
    /// There is nothing to read.
    Empty,
    /// A comparison without a field name.
    MissingName,
    /// No condition.
    Unknown,
}

/// What is told the user about an error in `expr`.
pub open spec fn where_message(e: WhereError, expr: Seq<char>) -> Seq<char> {
    match e {
        WhereError::Empty => "--where 条件为空"@,
        WhereError::MissingName => "--where 条件缺少字段名：`"@ + expr + "`"@,
        WhereError::Unknown => "无法解析 --where 条件 `"@ + expr
            + "`，示例：no-gps、has-date、make=Canon、artist~张、has:rating"@,
    }
}

impl WhereError {
    /// The message shown to the user for this error in `expr`.
    pub fn message(&self, expr: &str) -> (s: String)
        ensures
            s@ == where_message(*self, expr@),
    {
        match *self {
            WhereError::Empty => text::copy_text("--where 条件为空"),
            WhereError::MissingName => text::copy_text("--where 条件缺少字段名：`").concat(expr).concat(
                "`",
            ),
            WhereError::Unknown => text::copy_text("无法解析 --where 条件 `").concat(expr).concat(
                "`，示例：no-gps、has-date、make=Canon、artist~张、has:rating",
            ),
        }
    }
}

/// The condition that a word is, in lower case.
pub open spec fn word_condition(word: Seq<char>) -> Option<ConditionView> {
    if word == "has-gps"@ || word == "gps"@ {
        Some(ConditionView::HasGps)
    } else if word == "no-gps"@ {
        Some(ConditionView::NoGps)
    } else if word == "has-date"@ || word == "date"@ {
        Some(ConditionView::HasDate)
    } else if word == "no-date"@ {
        Some(ConditionView::NoDate)
    } else if word == "has-xmp"@ || word == "xmp"@ {
        Some(ConditionView::HasXmp)
    } else if word == "no-xmp"@ {
        Some(ConditionView::NoXmp)
    } else {
        None
    }
}

/// Which comparison stands at `i`, and how many characters it takes.
pub open spec fn op_at(e: Seq<char>, i: int) -> Option<(Op, int)> {
    if e[i] == '=' {
        Some((Op::Eq, 1))
    } else if e[i] == '~' {
        Some((Op::Contains, 1))
    } else if e[i] == '!' && i + 1 < e.len() && e[i + 1] == '=' {
        Some((Op::Ne, 2))
    } else if e[i] == '!' && i + 1 < e.len() && e[i + 1] == '~' {
        Some((Op::NotContains, 2))
    } else {
        None
    }
}

/// The first place at or after `i` where a comparison stands.
pub open spec fn op_from(e: Seq<char>, i: int) -> Option<int>
    decreases e.len() - i,
{
    if i < 0 || i >= e.len() {
        None
    } else if op_at(e, i) is Some {
        Some(i)
    } else {
        op_from(e, i + 1)
    }
}

/// What follows `prefix`, in any case, trimmed.
pub open spec fn after_prefix(e: Seq<char>, prefix: Seq<char>) -> Option<Seq<char>> {
    if text::has_prefix(text::lowered(e), prefix) {
        Some(text::trimmed(e.skip(prefix.len() as int)))
    } else {
        None
    }
}

/// The condition that a text says.
pub open spec fn condition_of(expr: Seq<char>) -> Result<ConditionView, WhereError> {
    let e = text::trimmed(expr);
    if e.len() == 0 {
        Err(WhereError::Empty)
    } else if word_condition(text::lowered(e)) is Some {
        Ok(word_condition(text::lowered(e))->0)
    } else if after_prefix(e, "has:"@) is Some {
        Ok(ConditionView::TagPresence(after_prefix(e, "has:"@)->0, true))
    } else if after_prefix(e, "no:"@) is Some {
        Ok(ConditionView::TagPresence(after_prefix(e, "no:"@)->0, false))
    } else {
        match op_from(e, 0) {
            None => Err(WhereError::Unknown),
            Some(i) => {
                let (op, len) = op_at(e, i)->0;
                let name = text::trimmed(e.take(i));
                if name.len() == 0 {
                    Err(WhereError::MissingName)
                } else {
                    Ok(ConditionView::Tag(name, op, text::trimmed(e.skip(i + len))))
                }
            },
        }
    }
}

/// The condition that a word is.
fn read_word(low: &[char]) -> (r: Option<Condition>)
    ensures
        match r {
            Some(c) => word_condition(low@) == Some(c@),
            None => word_condition(low@) is None,
        },
{
    if text::is_text(low, "has-gps") || text::is_text(low, "gps") {
        Some(Condition::HasGps)
    } else if text::is_text(low, "no-gps") {
        Some(Condition::NoGps)
    } else if text::is_text(low, "has-date") || text::is_text(low, "date") {
        Some(Condition::HasDate)
    } else if text::is_text(low, "no-date") {
        Some(Condition::NoDate)
    } else if text::is_text(low, "has-xmp") || text::is_text(low, "xmp") {
        Some(Condition::HasXmp)
    } else if text::is_text(low, "no-xmp") {
        Some(Condition::NoXmp)
    } else {
        None
    }
}

/// What follows `prefix`, in any case, trimmed.
fn strip_prefix_ci(e: &[char], prefix: &str) -> (r: Option<String>)
    ensures
        match r {
            Some(s) => after_prefix(e@, prefix@) == Some(s@),
            None => after_prefix(e@, prefix@) is None,
        },
{
    let low: Vec<char> = text::lower_chars(e);
    let p: Vec<char> = text::chars_of(prefix);
    if text::stands_at(low.as_slice(), 0, p.as_slice()) {
        assert(e@.subrange(p@.len() as int, e@.len() as int) =~= e@.skip(p@.len() as int));
        Some(text::text_of(text::trim_chars(&e[p.len()..e.len()])))
    } else {
        None
    }
}

/// Finds the first comparison: where it stands, what it is and how many characters it takes.
fn find_op(e: &[char]) -> (r: Option<(usize, Op, usize)>)
    ensures
        match r {
            Some((i, op, len)) => op_from(e@, 0) == Some(i as int) && op_at(e@, i as int) == Some(
                (op, len as int),
            ) && i + len <= e.len(),
            None => op_from(e@, 0) is None,
        },
{
    let mut i: usize = 0;
    while i < e.len()
        invariant
            i <= e.len(),
            op_from(e@, 0) == op_from(e@, i as int),
        decreases e.len() - i,
    {
        if e[i] == '=' {
            return Some((i, Op::Eq, 1));
        }
        if e[i] == '~' {
            return Some((i, Op::Contains, 1));
        }
        if e[i] == '!' && e.len() - i > 1 {
            if e[i + 1] == '=' {
                return Some((i, Op::Ne, 2));
            }
            if e[i + 1] == '~' {
                return Some((i, Op::NotContains, 2));
            }
        }
        i += 1;
    }
    None
}

/// Reads a condition.
pub fn parse(expr: &str) -> (r: Result<Condition, WhereError>)
    ensures
        match r {
            Ok(c) => condition_of(expr@) == Ok::<ConditionView, WhereError>(c@),
            Err(e) => condition_of(expr@) == Err::<ConditionView, WhereError>(e),
        },
{
    let cs: Vec<char> = text::chars_of(expr);
    let e: &[char] = text::trim_chars(cs.as_slice());
    if e.len() == 0 {
        return Err(WhereError::Empty);
    }
    let low: Vec<char> = text::lower_chars(e);
    match read_word(low.as_slice()) {
        Some(c) => {
            return Ok(c);
        },
        None => {},
    }
    match strip_prefix_ci(e, "has:") {
        Some(name) => {
            return Ok(Condition::TagPresence { name, present: true });
        },
        None => {},
    }
    match strip_prefix_ci(e, "no:") {
        Some(name) => {
            return Ok(Condition::TagPresence { name, present: false });
        },
        None => {},
    }
    match find_op(e) {
        None => Err(WhereError::Unknown),
        Some((i, op, len)) => {
            proof {
                assert(e@.subrange(0, i as int) =~= e@.take(i as int));
                assert(e@.subrange(i + len, e@.len() as int) =~= e@.skip(i + len));
            }
            let name: &[char] = text::trim_chars(&e[0..i]);
            if name.len() == 0 {
                return Err(WhereError::MissingName);
            }
            let value: &[char] = text::trim_chars(&e[i + len..e.len()]);
            Ok(Condition::Tag { name: text::text_of(name), op, value: text::text_of(value) })
        },
    }
}

/// Whether a property's name contains `name`, in any case.
pub open spec fn named_like(p: (Seq<char>, Seq<char>), name: Seq<char>) -> bool {
    text::contains_text(text::lowered(p.0), text::lowered(name))
}

/// Whether some property has a name that contains `name`.
pub open spec fn some_named(props: iptc::Properties, name: Seq<char>) -> bool {
    exists|i: int| 0 <= i < props.len() && named_like(#[trigger] props[i], name)
}

/// Whether some property of such a name has exactly this value, in any case.
pub open spec fn some_equal(props: iptc::Properties, name: Seq<char>, value: Seq<char>) -> bool {
    exists|i: int|
        0 <= i < props.len() && named_like(#[trigger] props[i], name) && text::lowered(props[i].1)
            == text::lowered(value)
}

/// Whether some property of such a name has a value that contains this one, in any case.
pub open spec fn some_containing(props: iptc::Properties, name: Seq<char>, value: Seq<char>) -> bool {
    exists|i: int|
        0 <= i < props.len() && named_like(#[trigger] props[i], name) && text::contains_text(
            text::lowered(props[i].1),
            text::lowered(value),
        )
}

/// What is known of a file.
#[derive(Debug)]
pub struct FileFacts {
    pub gps: bool,
    pub date: bool,
    pub xmp: bool,
    /// Names and values of its EXIF, XMP and IPTC properties.
    pub props: Vec<(String, String)>,
}

/// Whether a file meets a condition.
pub open spec fn holds(c: ConditionView, f: FileFacts) -> bool {
    let props = iptc::properties_view(f.props@);
    match c {
        ConditionView::HasGps => f.gps,
        ConditionView::NoGps => !f.gps,
        ConditionView::HasDate => f.date,
        ConditionView::NoDate => !f.date,
        ConditionView::HasXmp => f.xmp,
        ConditionView::NoXmp => !f.xmp,
        ConditionView::TagPresence(name, present) => some_named(props, name) == present,
        ConditionView::Tag(name, op, value) => match op {
            Op::Eq => some_equal(props, name, value),
            Op::Ne => !some_equal(props, name, value),
            Op::Contains => some_containing(props, name, value),
            Op::NotContains => !some_containing(props, name, value),
        },
    }
}

fn lower_of(s: &str) -> (v: Vec<char>)
    ensures
        v@ == text::lowered(s@),
{
    let cs: Vec<char> = text::chars_of(s);
    text::lower_chars(cs.as_slice())
}

fn tag_present(props: &Vec<(String, String)>, name: &str) -> (r: bool)
    ensures
        r == some_named(iptc::properties_view(props@), name@),
{
    let ghost all = iptc::properties_view(props@);
    let wanted: Vec<char> = lower_of(name);
    let mut i: usize = 0;
    while i < props.len()
        invariant
            i <= props.len(),
            all == iptc::properties_view(props@),
            wanted@ == text::lowered(name@),
            forall|k: int| 0 <= k < i ==> !named_like(#[trigger] all[k], name@),
        decreases props.len() - i,
    {
        assert(all[i as int] == (props@[i as int].0@, props@[i as int].1@));
        let n: Vec<char> = lower_of(props[i].0.as_str());
        if text::find_chars(n.as_slice(), 0, wanted.as_slice()).is_some() {
            assert(named_like(all[i as int], name@));
            return true;
        }
        i += 1;
    }
    false
}

/// Whether some property of such a name has this value (`whole`) or one that contains it.
fn value_present(props: &Vec<(String, String)>, name: &str, value: &str, whole: bool) -> (r: bool)
    ensures
        r == if whole {
            some_equal(iptc::properties_view(props@), name@, value@)
        } else {
            some_containing(iptc::properties_view(props@), name@, value@)
        },
{
    let ghost all = iptc::properties_view(props@);
    let wanted: Vec<char> = lower_of(name);
    let sought: Vec<char> = lower_of(value);
    let mut i: usize = 0;
    while i < props.len()
        invariant
            i <= props.len(),
            all == iptc::properties_view(props@),
            wanted@ == text::lowered(name@),
            sought@ == text::lowered(value@),
            forall|k: int|
                0 <= k < i ==> !(named_like(#[trigger] all[k], name@) && if whole {
                    text::lowered(all[k].1) == text::lowered(value@)
                } else {
                    text::contains_text(text::lowered(all[k].1), text::lowered(value@))
                }),
        decreases props.len() - i,
    {
        assert(all[i as int] == (props@[i as int].0@, props@[i as int].1@));
        let n: Vec<char> = lower_of(props[i].0.as_str());
        if text::find_chars(n.as_slice(), 0, wanted.as_slice()).is_some() {
            let v: Vec<char> = lower_of(props[i].1.as_str());
            let found: bool = if whole {
                text::same_chars(v.as_slice(), sought.as_slice())
            } else {
                text::find_chars(v.as_slice(), 0, sought.as_slice()).is_some()
            };
            if found {
                assert(named_like(all[i as int], name@));
                return true;
            }
        }
        i += 1;
    }
    false
}

impl Condition {
    /// Whether a file of which this is known meets the condition.
    pub fn matches(&self, facts: &FileFacts) -> (r: bool)
        ensures
            r == holds(self@, *facts),
    {
        match self {
            Condition::HasGps => facts.gps,
            Condition::NoGps => !facts.gps,
            Condition::HasDate => facts.date,
            Condition::NoDate => !facts.date,
            Condition::HasXmp => facts.xmp,
            Condition::NoXmp => !facts.xmp,
            Condition::TagPresence { name, present } => tag_present(&facts.props, name.as_str()) == *present,
            Condition::Tag { name, op, value } => match *op {
                Op::Eq => value_present(&facts.props, name.as_str(), value.as_str(), true),
                Op::Ne => !value_present(&facts.props, name.as_str(), value.as_str(), true),
                Op::Contains => value_present(&facts.props, name.as_str(), value.as_str(), false),
                Op::NotContains => !value_present(&facts.props, name.as_str(), value.as_str(), false),
            },
        }
    }
}

/// A condition and its negation never hold of the same file, and one of them always does.
pub proof fn negations_exclude(name: Seq<char>, value: Seq<char>, f: FileFacts)
    ensures
        holds(ConditionView::HasGps, f) != holds(ConditionView::NoGps, f),
        holds(ConditionView::HasDate, f) != holds(ConditionView::NoDate, f),
        holds(ConditionView::HasXmp, f) != holds(ConditionView::NoXmp, f),
        holds(ConditionView::TagPresence(name, true), f) != holds(ConditionView::TagPresence(name, false), f),
        holds(ConditionView::Tag(name, Op::Eq, value), f) != holds(
            ConditionView::Tag(name, Op::Ne, value),
            f,
        ),
        holds(ConditionView::Tag(name, Op::Contains, value), f) != holds(
            ConditionView::Tag(name, Op::NotContains, value),
            f,
        ),
{
}

/// A comparison for equality implies the one for containment.
pub proof fn equal_is_contained(name: Seq<char>, value: Seq<char>, f: FileFacts)
    requires
        holds(ConditionView::Tag(name, Op::Eq, value), f),
    ensures
        holds(ConditionView::Tag(name, Op::Contains, value), f),
{
    let props = iptc::properties_view(f.props@);
    let v = text::lowered(value);
    let i = choose|i: int|
        0 <= i < props.len() && named_like(#[trigger] props[i], name) && text::lowered(props[i].1) == v;
    assert(v.subrange(0, v.len() as int) =~= v);
    assert(text::contains_text(text::lowered(props[i].1), v));
}

/// Whether two properties differ at most in the case of ASCII letters.
pub open spec fn same_property(p: (Seq<char>, Seq<char>), q: (Seq<char>, Seq<char>)) -> bool {
    text::lowered(p.0) == text::lowered(q.0) && text::lowered(p.1) == text::lowered(q.1)
}

/// Whether the same is known of two files, up to the case of names and values.
pub open spec fn same_facts(f: FileFacts, g: FileFacts) -> bool {
    let p = iptc::properties_view(f.props@);
    let q = iptc::properties_view(g.props@);
    &&& f.gps == g.gps && f.date == g.date && f.xmp == g.xmp
    &&& p.len() == q.len()
    &&& forall|i: int| 0 <= i < p.len() ==> same_property(#[trigger] p[i], q[i])
}

/// Whether two conditions differ at most in the case of a name or a value.
pub open spec fn same_condition(c: ConditionView, d: ConditionView) -> bool {
    match (c, d) {
        (ConditionView::TagPresence(n, p), ConditionView::TagPresence(m, q)) => text::lowered(n) == text::lowered(m)
            && p == q,
        (ConditionView::Tag(n, o, v), ConditionView::Tag(m, p, w)) => text::lowered(n) == text::lowered(m) && o == p
            && text::lowered(v) == text::lowered(w),
        _ => c == d,
    }
}

proof fn lemma_case_implies(name: Seq<char>, value: Seq<char>, m: Seq<char>, w: Seq<char>, f: FileFacts, g: FileFacts)
    requires
        text::lowered(name) == text::lowered(m),
        text::lowered(value) == text::lowered(w),
        same_facts(f, g),
    ensures
        ({
            let p = iptc::properties_view(f.props@);
            let q = iptc::properties_view(g.props@);
            &&& some_named(p, name) ==> some_named(q, m)
            &&& some_equal(p, name, value) ==> some_equal(q, m, w)
            &&& some_containing(p, name, value) ==> some_containing(q, m, w)
        }),
{
    let p = iptc::properties_view(f.props@);
    let q = iptc::properties_view(g.props@);
    assert forall|i: int| 0 <= i < p.len() implies same_property(#[trigger] p[i], q[i]) && (named_like(p[i], name)
        == named_like(q[i], m)) by {}
    if some_named(p, name) {
        let i = choose|i: int| 0 <= i < p.len() && named_like(#[trigger] p[i], name);
        assert(named_like(q[i], m));
    }
    if some_equal(p, name, value) {
        let i = choose|i: int|
            0 <= i < p.len() && named_like(#[trigger] p[i], name) && text::lowered(p[i].1) == text::lowered(value);
        assert(named_like(q[i], m));
    }
    if some_containing(p, name, value) {
        let i = choose|i: int|
            0 <= i < p.len() && named_like(#[trigger] p[i], name) && text::contains_text(
                text::lowered(p[i].1),
                text::lowered(value),
            );
        assert(named_like(q[i], m));
    }
}

/// The case of names and values does not matter, neither in a condition nor in a file.
pub proof fn case_does_not_matter(c: ConditionView, d: ConditionView, f: FileFacts, g: FileFacts)
    requires
        same_condition(c, d),
        same_facts(f, g),
    ensures
        holds(c, f) == holds(d, g),
{
    assert(same_facts(g, f)) by {
        let p = iptc::properties_view(f.props@);
        let q = iptc::properties_view(g.props@);
        assert forall|i: int| 0 <= i < q.len() implies same_property(#[trigger] q[i], p[i]) by {
            assert(same_property(p[i], q[i]));
        }
    }
    match (c, d) {
        (ConditionView::TagPresence(n, _), ConditionView::TagPresence(m, _)) => {
            lemma_case_implies(n, n, m, m, f, g);
            lemma_case_implies(m, m, n, n, g, f);
        },
        (ConditionView::Tag(n, _, v), ConditionView::Tag(m, _, w)) => {
            lemma_case_implies(n, v, m, w, f, g);
            lemma_case_implies(m, w, n, v, g, f);
        },
        _ => {},
    }
}

proof fn lemma_case_part(a: Seq<char>, b: Seq<char>, i: int, j: int)
    requires
        text::lowered(a) == text::lowered(b),
        0 <= i <= j <= a.len(),
    ensures
        a.len() == b.len(),
        text::lowered(text::trimmed(a.subrange(i, j))) == text::lowered(text::trimmed(b.subrange(i, j))),
{
    assert(text::lowered(a).len() == a.len() && text::lowered(b).len() == b.len());
    let p = a.subrange(i, j);
    let q = b.subrange(i, j);
    assert(text::lowered(p) =~= text::lowered(a).subrange(i, j));
    assert(text::lowered(q) =~= text::lowered(b).subrange(i, j));
    textlaws::lemma_trimmed_lowered(p);
    textlaws::lemma_trimmed_lowered(q);
}

proof fn lemma_case_op(a: Seq<char>, b: Seq<char>, i: int)
    requires
        text::lowered(a) == text::lowered(b),
        0 <= i,
    ensures
        a.len() == b.len(),
        i < a.len() ==> op_at(a, i) == op_at(b, i),
        op_from(a, i) == op_from(b, i),
    decreases a.len() - i,
{
    assert(text::lowered(a).len() == a.len() && text::lowered(b).len() == b.len());
    if i < a.len() {
        assert(text::lowered(a)[i] == text::lower(a[i]) && text::lowered(b)[i] == text::lower(b[i]));
        if i + 1 < a.len() {
            assert(text::lowered(a)[i + 1] == text::lower(a[i + 1]) && text::lowered(b)[i + 1] == text::lower(
                b[i + 1],
            ));
        }
        lemma_case_op(a, b, i + 1);
    }
}

proof fn lemma_op_within(e: Seq<char>, i: int)
    requires
        0 <= i,
    ensures
        op_from(e, i) matches Some(k) ==> i <= k < e.len() && op_at(e, k) is Some && k + (op_at(e, k)->0).1 <= e.len(),
    decreases e.len() - i,
{
    if i < e.len() && op_at(e, i) is None {
        lemma_op_within(e, i + 1);
    }
}

/// Conditions that are written with other case are read as the same, up to case, and refused for the
/// same reason.
pub proof fn case_of_conditions(a: Seq<char>, b: Seq<char>)
    requires
        text::lowered(a) == text::lowered(b),
    ensures
        match (condition_of(a), condition_of(b)) {
            (Ok(c), Ok(d)) => same_condition(c, d),
            (Err(x), Err(y)) => x == y,
            _ => false,
        },
{
    let e = text::trimmed(a);
    let g = text::trimmed(b);
    textlaws::lemma_trimmed_lowered(a);
    textlaws::lemma_trimmed_lowered(b);
    assert(text::lowered(e) == text::lowered(g));
    assert(text::lowered(e).len() == e.len() && text::lowered(g).len() == g.len());
    lemma_case_op(e, g, 0);
    lemma_op_within(e, 0);
    let n = e.len() as int;
    reveal_strlit("has:");
    reveal_strlit("no:");
    if n >= 4 {
        lemma_case_part(e, g, 4, n);
        assert(e.skip(4) =~= e.subrange(4, n) && g.skip(4) =~= g.subrange(4, n));
    }
    if n >= 3 {
        lemma_case_part(e, g, 3, n);
        assert(e.skip(3) =~= e.subrange(3, n) && g.skip(3) =~= g.subrange(3, n));
    }
    match op_from(e, 0) {
        Some(i) => {
            let len = (op_at(e, i)->0).1;
            lemma_case_op(e, g, i);
            lemma_case_part(e, g, 0, i);
            lemma_case_part(e, g, i + len, n);
            assert(e.take(i) =~= e.subrange(0, i) && g.take(i) =~= g.subrange(0, i));
            assert(e.skip(i + len) =~= e.subrange(i + len, n) && g.skip(i + len) =~= g.subrange(i + len, n));
            assert(text::lowered(text::trimmed(e.take(i))).len() == text::trimmed(e.take(i)).len());
            assert(text::lowered(text::trimmed(g.take(i))).len() == text::trimmed(g.take(i)).len());
        },
        None => {},
    }
}

/// Whether nothing is known of a file, as of one that cannot be read.
pub open spec fn nothing_known(f: FileFacts) -> bool {
    !f.gps && !f.date && !f.xmp && f.props@.len() == 0
}

/// A file that cannot be read meets no condition that asks for something, and all that ask for its
/// absence.
pub proof fn unread_file_has_nothing(name: Seq<char>, value: Seq<char>, f: FileFacts)
    requires
        nothing_known(f),
    ensures
        !holds(ConditionView::HasGps, f),
        !holds(ConditionView::HasDate, f),
        !holds(ConditionView::HasXmp, f),
        !holds(ConditionView::TagPresence(name, true), f),
        !holds(ConditionView::Tag(name, Op::Eq, value), f),
        !holds(ConditionView::Tag(name, Op::Contains, value), f),
        holds(ConditionView::NoGps, f),
        holds(ConditionView::NoDate, f),
        holds(ConditionView::NoXmp, f),
        holds(ConditionView::TagPresence(name, false), f),
        holds(ConditionView::Tag(name, Op::Ne, value), f),
        holds(ConditionView::Tag(name, Op::NotContains, value), f),
{
    assert(iptc::properties_view(f.props@).len() == 0);
}

// ---- conditions joined ------------------------------------------------------------------

/// The parts of a text between the places where `mark` stands.
pub open spec fn parts_from(s: Seq<char>, mark: Seq<char>, from: int) -> Seq<Seq<char>>
    decreases s.len() - from,
{
    match text::find_from(s, from, mark) {
        Some(i) => if mark.len() > 0 && from <= i && i + mark.len() <= s.len() {
            seq![s.subrange(from, i)] + parts_from(s, mark, (i + mark.len()) as int)
        } else {
            seq![s.skip(from)]
        },
        None => seq![s.skip(from)],
    }
}

fn split_at_mark(s: &[char], mark: &[char]) -> (out: Vec<String>)
    requires
        mark@.len() > 0,
    ensures
        text::views(out@) == parts_from(s@, mark@, 0),
{
    let mut out: Vec<String> = Vec::new();
    let mut from: usize = 0;
    assert(text::views(out@) + parts_from(s@, mark@, 0) =~= parts_from(s@, mark@, 0));
    loop
        invariant
            from <= s.len(),
            mark@.len() > 0,
            text::views(out@) + parts_from(s@, mark@, from as int) == parts_from(s@, mark@, 0),
        decreases s.len() - from,
    {
        let ghost before = text::views(out@);
        match text::find_chars(s, from, mark) {
            Some(i) => {
                let part: String = text::text_of(&s[from..i]);
                let ghost rest = parts_from(s@, mark@, (i + mark@.len()) as int);
                out.push(part);
                proof {
                    assert(text::views(out@) =~= before.push(s@.subrange(from as int, i as int)));
                    assert(text::views(out@) + rest =~= before + (seq![s@.subrange(from as int, i as int)]
                        + rest));
                }
                from = i + mark.len();
            },
            None => {
                let part: String = text::text_of(&s[from..s.len()]);
                out.push(part);
                proof {
                    assert(s@.subrange(from as int, s@.len() as int) =~= s@.skip(from as int));
                    assert(text::views(out@) =~= before + seq![s@.skip(from as int)]);
                }
                return out;
            },
        }
    }
}

/// Groups of conditions, one of which must hold as a whole.
#[derive(Debug, PartialEq)]
pub struct Expr {
    pub groups: Vec<Vec<Condition>>,
}

/// The views of conditions.
pub open spec fn conditions_view(v: Seq<Condition>) -> Seq<ConditionView> {
    v.map_values(|c: Condition| c@)
}

impl View for Expr {
    type V = Seq<Seq<ConditionView>>;

    open spec fn view(&self) -> Seq<Seq<ConditionView>> {
        self.groups@.map_values(|g: Vec<Condition>| conditions_view(g@))
    }
}

/// The conditions that the first `n` parts say, or what is wrong with the first that says none.
pub open spec fn group_of(parts: Seq<Seq<char>>, n: int) -> Result<Seq<ConditionView>, Seq<char>>
    decreases n,
{
    if n <= 0 {
        Ok(Seq::empty())
    } else {
        match group_of(parts, n - 1) {
            Ok(v) => match condition_of(parts[n - 1]) {
                Ok(c) => Ok(v.push(c)),
                Err(e) => Err(where_message(e, parts[n - 1])),
            },
            Err(e) => Err(e),
        }
    }
}

/// The groups that the first `n` parts say, or what is wrong with the first that says none.
pub open spec fn groups_of(parts: Seq<Seq<char>>, n: int) -> Result<Seq<Seq<ConditionView>>, Seq<char>>
    decreases n,
{
    if n <= 0 {
        Ok(Seq::empty())
    } else {
        match groups_of(parts, n - 1) {
            Ok(v) => {
                let inner = parts_from(parts[n - 1], "&&"@, 0);
                match group_of(inner, inner.len() as int) {
                    Ok(g) => Ok(v.push(g)),
                    Err(e) => Err(e),
                }
            },
            Err(e) => Err(e),
        }
    }
}

/// The groups of conditions that a text says.
pub open spec fn expr_of(expr: Seq<char>) -> Result<Seq<Seq<ConditionView>>, Seq<char>> {
    let parts = parts_from(expr, "||"@, 0);
    groups_of(parts, parts.len() as int)
}

proof fn lemma_group_fails(parts: Seq<Seq<char>>, i: int, n: int)
    requires
        0 <= i <= n,
        group_of(parts, i) is Err,
    ensures
        group_of(parts, n) == group_of(parts, i),
    decreases n - i,
{
    if i < n {
        lemma_group_fails(parts, i + 1, n);
    }
}

proof fn lemma_groups_fail(parts: Seq<Seq<char>>, i: int, n: int)
    requires
        0 <= i <= n,
        groups_of(parts, i) is Err,
    ensures
        groups_of(parts, n) == groups_of(parts, i),
    decreases n - i,
{
    if i < n {
        lemma_groups_fail(parts, i + 1, n);
    }
}

fn parse_group(s: &str) -> (r: Result<Vec<Condition>, String>)
    ensures
        match r {
            Ok(v) => group_of(parts_from(s@, "&&"@, 0), parts_from(s@, "&&"@, 0).len() as int) == Ok::<
                Seq<ConditionView>,
                Seq<char>,
            >(conditions_view(v@)),
            Err(e) => group_of(parts_from(s@, "&&"@, 0), parts_from(s@, "&&"@, 0).len() as int) == Err::<
                Seq<ConditionView>,
                Seq<char>,
            >(e@),
        },
{
    proof {
        reveal_strlit("&&");
    }
    let cs: Vec<char> = text::chars_of(s);
    let mark: Vec<char> = text::chars_of("&&");
    let parts: Vec<String> = split_at_mark(cs.as_slice(), mark.as_slice());
    let ghost all = text::views(parts@);
    let mut out: Vec<Condition> = Vec::new();
    let mut i: usize = 0;
    assert(conditions_view(out@) =~= Seq::empty());
    while i < parts.len()
        invariant
            i <= parts.len(),
            all == text::views(parts@),
            all == parts_from(s@, "&&"@, 0),
            group_of(all, i as int) == Ok::<Seq<ConditionView>, Seq<char>>(conditions_view(out@)),
        decreases parts.len() - i,
    {
        assert(all[i as int] == parts@[i as int]@);
        let ghost before = conditions_view(out@);
        match parse(parts[i].as_str()) {
            Ok(c) => {
                let ghost one = c@;
                out.push(c);
                assert(conditions_view(out@) =~= before.push(one));
            },
            Err(e) => {
                proof {
                    lemma_group_fails(all, i + 1, all.len() as int);
                }
                return Err(e.message(parts[i].as_str()));
            },
        }
        i += 1;
    }
    Ok(out)
}

/// Reads conditions joined by `&&` and `||`.
pub fn parse_expr(expr: &str) -> (r: Result<Expr, String>)
    ensures
        match r {
            Ok(x) => expr_of(expr@) == Ok::<Seq<Seq<ConditionView>>, Seq<char>>(x@),
            Err(e) => expr_of(expr@) == Err::<Seq<Seq<ConditionView>>, Seq<char>>(e@),
        },
{
    proof {
        reveal_strlit("||");
    }
    let cs: Vec<char> = text::chars_of(expr);
    let mark: Vec<char> = text::chars_of("||");
    let parts: Vec<String> = split_at_mark(cs.as_slice(), mark.as_slice());
    let ghost all = text::views(parts@);
    let mut x: Expr = Expr { groups: Vec::new() };
    let mut i: usize = 0;
    assert(x@ =~= Seq::empty());
    while i < parts.len()
        invariant
            i <= parts.len(),
            all == text::views(parts@),
            all == parts_from(expr@, "||"@, 0),
            groups_of(all, i as int) == Ok::<Seq<Seq<ConditionView>>, Seq<char>>(x@),
        decreases parts.len() - i,
    {
        assert(all[i as int] == parts@[i as int]@);
        let ghost before = x@;
        match parse_group(parts[i].as_str()) {
            Ok(g) => {
                let ghost one = conditions_view(g@);
                x.groups.push(g);
                assert(x@ =~= before.push(one));
            },
            Err(e) => {
                proof {
                    lemma_groups_fail(all, i + 1, all.len() as int);
                }
                return Err(e);
            },
        }
        i += 1;
    }
    Ok(x)
}

/// Whether a file meets all conditions of a group.
pub open spec fn all_hold(g: Seq<ConditionView>, f: FileFacts) -> bool {
    forall|i: int| 0 <= i < g.len() ==> holds(#[trigger] g[i], f)
}

/// Whether a file meets all conditions of one of the groups.
pub open spec fn expr_holds(x: Seq<Seq<ConditionView>>, f: FileFacts) -> bool {
    exists|i: int| 0 <= i < x.len() && all_hold(#[trigger] x[i], f)
}

fn all_match(g: &Vec<Condition>, facts: &FileFacts) -> (r: bool)
    ensures
        r == all_hold(conditions_view(g@), *facts),
{
    let ghost all = conditions_view(g@);
    let mut i: usize = 0;
    while i < g.len()
        invariant
            i <= g.len(),
            all == conditions_view(g@),
            forall|k: int| 0 <= k < i ==> holds(#[trigger] all[k], *facts),
        decreases g.len() - i,
    {
        assert(all[i as int] == g@[i as int]@);
        if !g[i].matches(facts) {
            return false;
        }
        i += 1;
    }
    true
}

impl Expr {
    /// Whether a file of which this is known meets all conditions of one of the groups.
    pub fn matches(&self, facts: &FileFacts) -> (r: bool)
        ensures
            r == expr_holds(self@, *facts),
    {
        let ghost all = self@;
        let mut i: usize = 0;
        while i < self.groups.len()
            invariant
                i <= self.groups.len(),
                all == self@,
                forall|k: int| 0 <= k < i ==> !all_hold(#[trigger] all[k], *facts),
            decreases self.groups.len() - i,
        {
            assert(all[i as int] == conditions_view(self.groups@[i as int]@));
            if all_match(&self.groups[i], facts) {
                return true;
            }
            i += 1;
        }
        false
    }
}

/// A text without `&&` and `||` is a condition: it is read, refused and met as one.
pub proof fn single_condition_is_itself(expr: Seq<char>, f: FileFacts)
    requires
        text::find_from(expr, 0, "&&"@) is None,
        text::find_from(expr, 0, "||"@) is None,
    ensures
        match condition_of(expr) {
            Ok(c) => expr_of(expr) matches Ok(x) && expr_holds(x, f) == holds(c, f),
            Err(e) => expr_of(expr) == Err::<Seq<Seq<ConditionView>>, Seq<char>>(where_message(e, expr)),
        },
{
    assert(expr.skip(0) =~= expr);
    let parts = parts_from(expr, "||"@, 0);
    let inner = parts_from(expr, "&&"@, 0);
    assert(parts =~= seq![expr]);
    assert(inner =~= seq![expr]);
    assert(group_of(inner, 0) is Ok);
    assert(groups_of(parts, 0) is Ok);
    match condition_of(expr) {
        Ok(c) => {
            assert(group_of(inner, 1) == Ok::<Seq<ConditionView>, Seq<char>>(Seq::empty().push(c)));
            let g = Seq::<ConditionView>::empty().push(c);
            let x = Seq::<Seq<ConditionView>>::empty().push(g);
            assert(expr_of(expr) == Ok::<Seq<Seq<ConditionView>>, Seq<char>>(x));
            assert(x[0] == g && g[0] == c);
            assert(all_hold(g, f) == holds(c, f));
            assert(expr_holds(x, f) == all_hold(x[0], f));
        },
        Err(e) => {
            assert(group_of(inner, 1) is Err);
        },
    }
}

// ---- what is known of a file ------------------------------------------------------------

/// Names and values of the XMP and IPTC properties in a file's bytes.
pub open spec fn byte_properties(bytes: Option<Seq<u8>>) -> iptc::Properties {
    match bytes {
        Some(b) => xmp::stored_properties(b) + iptc::shown(
            iptc::datasets_of(b),
            iptc::marked_utf8(iptc::datasets_of(b)),
        ),
        None => Seq::empty(),
    }
}

/// The bytes of a file, if it could be read.
pub open spec fn bytes_of(bytes: Option<&Vec<u8>>) -> Option<Seq<u8>> {
    match bytes {
        Some(b) => Some(b@),
        None => None,
    }
}

/// Gathers what is known of a file: from its EXIF, if that could be read, with its tags in words,
/// and from its bytes, if they could.
pub fn gather_facts(metadata: Option<&Metadata>, tag_list: &Vec<TagView>, bytes: Option<&Vec<u8>>) -> (f:
    FileFacts)
    ensures
        f.gps == (metadata is Some && exif::position_of(tags::ifds_of(*metadata->0)) is Some),
        f.date == (metadata is Some && exif::capture_time(tags::ifds_of(*metadata->0)) is Some),
        f.xmp == (bytes is Some && xmp::packet_of((bytes->0)@) is Some),
        iptc::properties_view(f.props@) == showcmd::as_properties(showcmd::words_view(tag_list@)) + byte_properties(
            bytes_of(bytes),
        ),
        metadata is None && tag_list@.len() == 0 && bytes is None ==> nothing_known(f),
{
    let mut gps: bool = false;
    let mut date: bool = false;
    if let Some(m) = metadata {
        gps = exif::read_gps(m).is_some();
        date = exif::read_capture_time(m).is_some();
    }
    let mut props: Vec<(String, String)> = showcmd::tag_properties(tag_list);
    let ghost all = iptc::properties_view(props@);
    let mut has_xmp: bool = false;
    if let Some(b) = bytes {
        has_xmp = xmp::extract_packet_bytes(b.as_slice()).is_some();
        let mut from_xmp: Vec<(String, String)> = xmp::read_stored(b.as_slice());
        let mut from_iptc: Vec<(String, String)> = iptc::read_properties(b.as_slice());
        let ghost x = iptc::properties_view(from_xmp@);
        let ghost p = iptc::properties_view(from_iptc@);
        props.append(&mut from_xmp);
        assert(iptc::properties_view(props@) =~= all + x);
        props.append(&mut from_iptc);
        assert(iptc::properties_view(props@) =~= all + (x + p));
    }
    assert(iptc::properties_view(props@) =~= all + byte_properties(bytes_of(bytes)));
    FileFacts { gps, date, xmp: has_xmp, props }
}

} // verus!
