//! Changing XMP and IPTC.

use vstd::prelude::*;
use vstd::string::*;
use vstd::utf8::{decode_utf8, encode_utf8, valid_utf8};
use crate::cli::{IptcArgs, XmpArgs};
use crate::iptc;
use crate::iptc::{Dataset, IptcEdit};
use crate::jpeg;
use crate::outcome::{Outcome, OutcomeView};
use crate::png;
use crate::text;
use crate::xmp;
use crate::xmp::{XmpEdit, XmpValue};

verus! {

// ---- XMP: what is asked for -------------------------------------------------------------

/// Properties and their values.
pub type Sets = Seq<(Seq<char>, xmp::ValueView)>;

/// The views of properties and their values.
pub open spec fn sets_view(v: Seq<(String, XmpValue)>) -> Sets {
    v.map_values(|p: (String, XmpValue)| (p.0@, p.1@))
}

/// A property with text by language, if there is one.
pub open spec fn lang_set(name: Seq<char>, value: Option<String>) -> Sets {
    match value {
        Some(s) => seq![(name, xmp::ValueView::LangAlt(s@))],
        None => Seq::empty(),
    }
}

/// A property with plain text, if there is one.
pub open spec fn plain_set(name: Seq<char>, value: Option<String>) -> Sets {
    match value {
        Some(s) => seq![(name, xmp::ValueView::Simple(s@))],
        None => Seq::empty(),
    }
}

/// The parts of a list that are separated by commas.
pub open spec fn listed(s: Seq<char>) -> Seq<Seq<char>> {
    text::filled(text::split_any(s, seq![',']))
}

/// The properties that a request names by options of their own.
pub open spec fn named_sets(a: XmpArgs) -> Sets {
    lang_set("dc:title"@, a.title) + lang_set("dc:description"@, a.description) + (if a.creator@.len() > 0 {
        seq![("dc:creator"@, xmp::ValueView::Ordered(text::views(a.creator@)))]
    } else {
        Seq::empty()
    }) + lang_set("dc:rights"@, a.rights) + (match a.rating {
        Some(r) => seq![("xmp:Rating"@, xmp::ValueView::Simple(text::dec(r as nat)))],
        None => Seq::empty(),
    }) + plain_set("xmp:Label"@, a.label) + (match a.keywords {
        Some(s) => seq![("dc:subject"@, xmp::ValueView::Bag(listed(s@)))],
        None => Seq::empty(),
    }) + plain_set("photoshop:City"@, a.city) + plain_set("photoshop:Country"@, a.country)
}

/// The properties together with those that the pairs from `i` on set, or the message for the
/// user.
pub open spec fn paired_sets(pairs: Seq<Seq<char>>, i: int, sets: Sets) -> Result<Sets, Seq<char>>
    decreases pairs.len() - i,
{
    if i < 0 || i >= pairs.len() {
        Ok(sets)
    } else {
        match text::cut_at(pairs[i], '=') {
            None => Err("--set 格式应为 前缀:名称=值，收到 `"@ + pairs[i] + "`"@),
            Some((left, value)) => {
                let name = text::trimmed(left);
                if xmp::namespace(xmp::prefix_of(name)) is None {
                    Err(
                        "未知的命名空间前缀 `"@ + xmp::prefix_of(name)
                            + "`（支持 dc/xmp/photoshop/lr 等）"@,
                    )
                } else {
                    paired_sets(pairs, i + 1, sets.push((name, xmp::ValueView::Simple(value))))
                }
            },
        }
    }
}

/// The texts without white space around them.
pub open spec fn all_trimmed(v: Seq<Seq<char>>) -> Seq<Seq<char>> {
    v.map_values(|s: Seq<char>| text::trimmed(s))
}

/// The edit that a request asks for, or the message for the user.
pub open spec fn xmp_edit_of(a: XmpArgs) -> Result<xmp::EditView, Seq<char>> {
    if a.rating is Some && !(0 <= a.rating->0 <= 5) {
        Err("--rating 需在 0-5 之间"@)
    } else {
        match paired_sets(text::views(a.set@), 0, named_sets(a)) {
            Ok(sets) => Ok(xmp::EditView { sets, removes: all_trimmed(text::views(a.remove@)) }),
            Err(e) => Err(e),
        }
    }
}

fn push_set(sets: &mut Vec<(String, XmpValue)>, name: &str, value: XmpValue)
    ensures
        sets_view(final(sets)@) == sets_view(old(sets)@) + seq![(name@, value@)],
{
    let ghost before = sets_view(sets@);
    let ghost v = value@;
    sets.push((text::copy_text(name), value));
    assert(sets_view(sets@) =~= before + seq![(name@, v)]);
}

fn push_lang(sets: &mut Vec<(String, XmpValue)>, name: &str, value: &Option<String>)
    ensures
        sets_view(final(sets)@) == sets_view(old(sets)@) + lang_set(name@, *value),
{
    let ghost before = sets_view(sets@);
    if let Some(s) = value {
        push_set(sets, name, XmpValue::LangAlt(text::copy_text(s.as_str())));
    }
    assert(sets_view(sets@) =~= before + lang_set(name@, *value));
}

fn push_plain(sets: &mut Vec<(String, XmpValue)>, name: &str, value: &Option<String>)
    ensures
        sets_view(final(sets)@) == sets_view(old(sets)@) + plain_set(name@, *value),
{
    let ghost before = sets_view(sets@);
    if let Some(s) = value {
        push_set(sets, name, XmpValue::Simple(text::copy_text(s.as_str())));
    }
    assert(sets_view(sets@) =~= before + plain_set(name@, *value));
}

fn split_list(s: &str) -> (v: Vec<String>)
    ensures
        text::views(v@) == listed(s@),
{
    let comma: [char; 1] = [','];
    assert(comma@ =~= seq![',']);
    text::split_filled(s, &comma)
}

fn collect_named(a: &XmpArgs) -> (sets: Vec<(String, XmpValue)>)
    requires
        a.rating is Some ==> 0 <= a.rating->0 <= 5,
    ensures
        sets_view(sets@) == named_sets(*a),
{
    let mut sets: Vec<(String, XmpValue)> = Vec::new();
    assert(sets_view(sets@) =~= Seq::empty());
    push_lang(&mut sets, "dc:title", &a.title);
    assert(sets_view(sets@) =~= lang_set("dc:title"@, a.title));
    push_lang(&mut sets, "dc:description", &a.description);
    let ghost before = sets_view(sets@);
    if a.creator.len() > 0 {
        push_set(&mut sets, "dc:creator", XmpValue::Ordered(text::copy_texts(a.creator.as_slice())));
    }
    assert(sets_view(sets@) =~= before + (if a.creator@.len() > 0 {
        seq![("dc:creator"@, xmp::ValueView::Ordered(text::views(a.creator@)))]
    } else {
        Seq::empty()
    }));
    push_lang(&mut sets, "dc:rights", &a.rights);
    let ghost before = sets_view(sets@);
    if let Some(r) = a.rating {
        push_set(&mut sets, "xmp:Rating", XmpValue::Simple(text::dec_text(r as u64)));
    }
    assert(sets_view(sets@) =~= before + (match a.rating {
        Some(r) => seq![("xmp:Rating"@, xmp::ValueView::Simple(text::dec(r as nat)))],
        None => Seq::empty(),
    }));
    push_plain(&mut sets, "xmp:Label", &a.label);
    let ghost before = sets_view(sets@);
    if let Some(s) = &a.keywords {
        push_set(&mut sets, "dc:subject", XmpValue::Bag(split_list(s.as_str())));
    }
    assert(sets_view(sets@) =~= before + (match a.keywords {
        Some(s) => seq![("dc:subject"@, xmp::ValueView::Bag(listed(s@)))],
        None => Seq::empty(),
    }));
    push_plain(&mut sets, "photoshop:City", &a.city);
    push_plain(&mut sets, "photoshop:Country", &a.country);
    sets
}

fn trim_all(v: &Vec<String>) -> (out: Vec<String>)
    ensures
        text::views(out@) == all_trimmed(text::views(v@)),
{
    let mut out: Vec<String> = Vec::new();
    let mut i: usize = 0;
    while i < v.len()
        invariant
            i <= v.len(),
            out.len() == i,
            forall|k: int| 0 <= k < i ==> (#[trigger] out@[k])@ == text::trimmed(v@[k]@),
        decreases v.len() - i,
    {
        out.push(text::trim_text(v[i].as_str()));
        i += 1;
    }
    assert(text::views(out@) =~= all_trimmed(text::views(v@)));
    out
}

/// The part of a qualified name before the colon.
fn name_prefix(name: &str) -> (s: String)
    ensures
        s@ == xmp::prefix_of(name@),
{
    let cs: Vec<char> = text::chars_of(name);
    match text::find_char(cs.as_slice(), 0, ':') {
        Some(i) => {
            assert(cs@.subrange(0, i as int) =~= name@.take(i as int));
            text::text_of(&cs.as_slice()[0..i])
        },
        None => text::copy_text(name),
    }
}

/// Makes the edit that a request asks for. The error is the message for the user.
pub fn build_xmp_edit(a: &XmpArgs) -> (r: Result<XmpEdit, String>)
    ensures
        match r {
            Ok(edit) => xmp_edit_of(*a) == Ok::<xmp::EditView, Seq<char>>(edit@),
            Err(e) => xmp_edit_of(*a) == Err::<xmp::EditView, Seq<char>>(e@),
        },
{
    if let Some(r) = a.rating {
        if r < 0 || r > 5 {
            return Err(text::copy_text("--rating 需在 0-5 之间"));
        }
    }
    let mut sets: Vec<(String, XmpValue)> = collect_named(a);
    let ghost pairs = text::views(a.set@);
    let mut i: usize = 0;
    while i < a.set.len()
        invariant
            i <= a.set.len(),
            pairs == text::views(a.set@),
            !(a.rating is Some && !(0 <= a.rating->0 <= 5)),
            paired_sets(pairs, 0, named_sets(*a)) == paired_sets(pairs, i as int, sets_view(sets@)),
        decreases a.set.len() - i,
    {
        let kv: &str = a.set[i].as_str();
        assert(pairs[i as int] == kv@);
        match text::split_once(kv, '=') {
            None => {
                return Err(
                    text::copy_text("--set 格式应为 前缀:名称=值，收到 `").concat(kv).concat("`"),
                );
            },
            Some((left, value)) => {
                let name: String = text::trim_text(left.as_str());
                let prefix: String = name_prefix(name.as_str());
                if xmp::namespace_uri(prefix.as_str()).is_none() {
                    return Err(
                        text::copy_text("未知的命名空间前缀 `").concat(prefix.as_str()).concat(
                            "`（支持 dc/xmp/photoshop/lr 等）",
                        ),
                    );
                }
                let ghost before = sets_view(sets@);
                let ghost entry = (name@, xmp::ValueView::Simple(value@));
                push_set(&mut sets, name.as_str(), XmpValue::Simple(value));
                assert(sets_view(sets@) =~= before.push(entry));
            },
        }
        i += 1;
    }
    let edit: XmpEdit = XmpEdit { sets, removes: trim_all(&a.remove) };
    assert(edit@.sets =~= sets_view(edit.sets@));
    Ok(edit)
}

/// Whether a request changes single properties.
pub open spec fn names_properties(a: XmpArgs) -> bool {
    a.title is Some || a.description is Some || a.creator@.len() > 0 || a.rights is Some || a.rating is Some
        || a.label is Some || a.keywords is Some || a.city is Some || a.country is Some || a.set@.len() > 0
        || a.remove@.len() > 0
}

/// The edit of a request that makes sense, or the message for the user: the whole packet is not
/// removed together with other changes, and something is asked for.
pub open spec fn xmp_request_of(a: XmpArgs) -> Result<xmp::EditView, Seq<char>> {
    if a.clear && names_properties(a) {
        Err("--clear 不能与其它设置/删除同时使用"@)
    } else {
        match xmp_edit_of(a) {
            Err(e) => Err(e),
            Ok(edit) => if !a.clear && edit.sets.len() == 0 && edit.removes.len() == 0 {
                Err("未指定任何 XMP 操作，用 `pic-killer xmp --help` 查看可用选项"@)
            } else {
                Ok(edit)
            },
        }
    }
}

/// Makes the edit that a request asks for, if it makes sense. The error is the message for the
/// user.
pub fn xmp_request(a: &XmpArgs) -> (r: Result<XmpEdit, String>)
    ensures
        match r {
            Ok(edit) => xmp_request_of(*a) == Ok::<xmp::EditView, Seq<char>>(edit@),
            Err(e) => xmp_request_of(*a) == Err::<xmp::EditView, Seq<char>>(e@),
        },
{
    if a.clear && (a.title.is_some() || a.description.is_some() || a.creator.len() > 0 || a.rights.is_some()
        || a.rating.is_some() || a.label.is_some() || a.keywords.is_some() || a.city.is_some()
        || a.country.is_some() || a.set.len() > 0 || a.remove.len() > 0) {
        return Err(text::copy_text("--clear 不能与其它设置/删除同时使用"));
    }
    let edit: XmpEdit = match build_xmp_edit(a) {
        Ok(edit) => edit,
        Err(e) => {
            return Err(e);
        },
    };
    if !a.clear && edit.is_empty() {
        return Err(
            text::copy_text("未指定任何 XMP 操作，用 `pic-killer xmp --help` 查看可用选项"),
        );
    }
    Ok(edit)
}

// ---- XMP: one file ----------------------------------------------------------------------

/// What there is to tell about an edit.
pub open spec fn edit_detail(sets: nat, removes: nat) -> Seq<char> {
    "设置 "@ + text::dec(sets) + " 项，删除 "@ + text::dec(removes) + " 项"@
}

fn detail_text(sets: usize, removes: usize) -> (s: String)
    ensures
        s@ == edit_detail(sets as nat, removes as nat),
{
    let mut s: String = text::copy_text("设置 ");
    text::push_dec(&mut s, sets as u64);
    s.append(" 项，删除 ");
    text::push_dec(&mut s, removes as u64);
    s.append(" 项");
    s
}

/// A file with its XMP edited, or why it cannot be.
pub open spec fn xmp_edited(b: Seq<u8>, edit: xmp::EditView) -> Result<Seq<u8>, Seq<char>> {
    let existing = xmp::packet_of(b);
    if existing is Some && !valid_utf8(existing->0) {
        Err("现有 XMP 非 UTF-8"@)
    } else {
        match xmp::applied(
            match existing {
                Some(p) => Some(decode_utf8(p)),
                None => None,
            },
            edit,
        ) {
            Err(e) => Err(xmp::error_message(e)),
            Ok(packet) => match xmp::stored(b, encode_utf8(packet)) {
                Ok(c) => Ok(c),
                Err(e) => Err(xmp::error_message(e)),
            },
        }
    }
}

/// Edits the XMP of a JPEG or PNG. The error is the message for the user; the file then stays as
/// it is.
pub fn edit_xmp(bytes: &mut Vec<u8>, edit: &XmpEdit) -> (r: Result<(), String>)
    ensures
        match (r, xmp_edited(old(bytes)@, edit@)) {
            (Ok(()), Ok(c)) => final(bytes)@ == c,
            (Err(e), Err(why)) => e@ == why && final(bytes)@ == old(bytes)@,
            _ => false,
        },
{
    let existing: Option<String> = match xmp::extract_packet_bytes(bytes) {
        Some(p) => match text::utf8_text(p.as_slice()) {
            Some(s) => Some(s),
            None => {
                return Err(text::copy_text("现有 XMP 非 UTF-8"));
            },
        },
        None => None,
    };
    let applied: Result<String, xmp::XmpError> = match &existing {
        Some(s) => xmp::apply(Some(s.as_str()), edit),
        None => xmp::apply(None, edit),
    };
    match applied {
        Err(e) => Err(e.message()),
        Ok(packet) => match xmp::write_packet(bytes, packet.as_str()) {
            Ok(()) => Ok(()),
            Err(e) => Err(e.message()),
        },
    }
}

/// A file after a change of its XMP and what there is to tell about it, or what becomes of it.
pub open spec fn xmp_change(b: Seq<u8>, edit: xmp::EditView, clear: bool) -> Result<
    (Seq<u8>, Seq<char>),
    OutcomeView,
> {
    if !jpeg::is_jpeg_bytes(b) && !png::is_png_bytes(b) {
        Err(OutcomeView::Skipped("XMP 目前仅支持 JPEG 与 PNG"@))
    } else if clear {
        if xmp::packet_of(b) is None {
            Err(OutcomeView::Skipped("本就没有 XMP"@))
        } else {
            Ok((xmp::cleared(b), "已清除 XMP"@))
        }
    } else if xmp::packet_of(b) is Some && !valid_utf8(xmp::packet_of(b)->0) {
        Err(OutcomeView::Failed("现有 XMP 非 UTF-8，为安全起见跳过"@))
    } else {
        match xmp_edited(b, edit) {
            Ok(c) => Ok((c, edit_detail(edit.sets.len(), edit.removes.len()))),
            Err(e) => Err(OutcomeView::Failed(e)),
        }
    }
}

/// Changes the XMP of a file: edits it, or removes it. Tells what was done, or what becomes of
/// the file where nothing is done; it then stays as it is.
pub fn change_xmp(bytes: &mut Vec<u8>, edit: &XmpEdit, clear: bool) -> (r: Result<String, Outcome>)
    ensures
        match (r, xmp_change(old(bytes)@, edit@, clear)) {
            (Ok(detail), Ok((c, told))) => final(bytes)@ == c && detail@ == told,
            (Err(o), Err(why)) => o@ == why && final(bytes)@ == old(bytes)@,
            _ => false,
        },
{
    if !xmp::supports_xmp(bytes) {
        return Err(Outcome::Skipped(text::copy_text("XMP 目前仅支持 JPEG 与 PNG")));
    }
    if clear {
        let ghost before = bytes@;
        if !xmp::remove_packet(bytes) {
            proof {
                xmp::removal_of_nothing(before);
            }
            return Err(Outcome::Skipped(text::copy_text("本就没有 XMP")));
        }
        return Ok(text::copy_text("已清除 XMP"));
    }
    if let Some(p) = xmp::extract_packet_bytes(bytes) {
        if text::utf8_text(p.as_slice()).is_none() {
            return Err(
                Outcome::Failed(text::copy_text("现有 XMP 非 UTF-8，为安全起见跳过")),
            );
        }
    }
    assert(edit@.sets.len() == edit.sets@.len() && edit@.removes.len() == edit.removes@.len());
    match edit_xmp(bytes, edit) {
        Ok(()) => Ok(detail_text(edit.sets.len(), edit.removes.len())),
        Err(e) => Err(Outcome::Failed(e)),
    }
}

/// Edits the XMP of a JPEG or PNG as part of a larger change. The error is the message for the
/// user; the file then stays as it is.
pub fn apply_xmp_edit(bytes: &mut Vec<u8>, edit: &XmpEdit) -> (r: Result<(), String>)
    ensures
        ({
            let b = old(bytes)@;
            if !jpeg::is_jpeg_bytes(b) && !png::is_png_bytes(b) {
                r is Err && (r->Err_0)@ == "XMP 仅支持 JPEG/PNG"@ && final(bytes)@ == b
            } else {
                match (r, xmp_edited(b, edit@)) {
                    (Ok(()), Ok(c)) => final(bytes)@ == c,
                    (Err(e), Err(why)) => e@ == why && final(bytes)@ == b,
                    _ => false,
                }
            }
        }),
{
    if !xmp::supports_xmp(bytes) {
        return Err(text::copy_text("XMP 仅支持 JPEG/PNG"));
    }
    edit_xmp(bytes, edit)
}

// ---- XMP: a file beside the image -------------------------------------------------------

/// What is to be done with the file beside an image.
#[derive(Debug)]
pub enum SidecarStep {
    /// Nothing more.
    Done(Outcome),
    /// It is removed.
    Remove,
    /// It is written with this text.
    Write(String),
}

/// What is to be done.
pub enum StepView {
    Done(OutcomeView),
    Remove,
    Write(Seq<char>),
}

impl View for SidecarStep {
    type V = StepView;

    open spec fn view(&self) -> StepView {
        match *self {
            SidecarStep::Done(o) => StepView::Done(o@),
            SidecarStep::Remove => StepView::Remove,
            SidecarStep::Write(s) => StepView::Write(s@),
        }
    }
}

/// What is to be done with the file of this name beside an image, given whether it is there and
/// the text in it.
pub open spec fn sidecar_step(
    name: Seq<char>,
    there: bool,
    existing: Option<Seq<char>>,
    edit: xmp::EditView,
    clear: bool,
    dry_run: bool,
) -> StepView {
    if clear {
        if !there {
            StepView::Done(OutcomeView::Skipped("无 sidecar 可清除"@))
        } else if dry_run {
            StepView::Done(OutcomeView::Changed("将删除 "@ + name))
        } else {
            StepView::Remove
        }
    } else {
        match xmp::applied(existing, edit) {
            Err(e) => StepView::Done(OutcomeView::Failed(xmp::error_message(e))),
            Ok(packet) => if dry_run {
                StepView::Done(OutcomeView::Changed("将写入 sidecar "@ + name))
            } else {
                StepView::Write(packet)
            },
        }
    }
}

/// Decides what is to be done with the file of this name beside an image, given whether it is
/// there and the text in it.
pub fn plan_sidecar(
    name: &str,
    there: bool,
    existing: Option<&str>,
    edit: &XmpEdit,
    clear: bool,
    dry_run: bool,
) -> (step: SidecarStep)
    ensures
        step@ == sidecar_step(
            name@,
            there,
            match existing {
                Some(s) => Some(s@),
                None => None,
            },
            edit@,
            clear,
            dry_run,
        ),
{
    if clear {
        return if !there {
            SidecarStep::Done(Outcome::Skipped(text::copy_text("无 sidecar 可清除")))
        } else if dry_run {
            SidecarStep::Done(Outcome::Changed(text::copy_text("将删除 ").concat(name)))
        } else {
            SidecarStep::Remove
        };
    }
    match xmp::apply(existing, edit) {
        Err(e) => SidecarStep::Done(Outcome::Failed(e.message())),
        Ok(packet) => if dry_run {
            SidecarStep::Done(Outcome::Changed(text::copy_text("将写入 sidecar ").concat(name)))
        } else {
            SidecarStep::Write(packet)
        },
    }
}

/// What becomes of an image whose file beside it was to be removed or written, given why that
/// failed if it did.
pub fn sidecar_outcome(name: &str, clear: bool, failure: Option<&str>) -> (o: Outcome)
    ensures
        o@ == match failure {
            None => OutcomeView::Changed(
                (if clear {
                    "已删除 sidecar "@
                } else {
                    "已写入 sidecar "@
                }) + name@,
            ),
            Some(why) => OutcomeView::Failed(
                (if clear {
                    "删除 sidecar 失败："@
                } else {
                    "写入 sidecar 失败："@
                }) + why@,
            ),
        },
{
    match failure {
        None => {
            let done: &str = if clear {
                "已删除 sidecar "
            } else {
                "已写入 sidecar "
            };
            Outcome::Changed(text::copy_text(done).concat(name))
        },
        Some(why) => {
            let failed: &str = if clear {
                "删除 sidecar 失败："
            } else {
                "写入 sidecar 失败："
            };
            Outcome::Failed(text::copy_text(failed).concat(why))
        },
    }
}

// ---- IPTC: what is asked for ------------------------------------------------------------

/// Fields and their values.
pub type Fields = Seq<(u8, u8, Seq<Seq<char>>)>;

/// The views of fields and their values.
pub open spec fn fields_view(v: Seq<(u8, u8, Vec<String>)>) -> Fields {
    v.map_values(|p: (u8, u8, Vec<String>)| (p.0, p.1, text::views(p.2@)))
}

/// A field with one value, if there is one.
pub open spec fn one_field(number: u8, value: Option<String>) -> Fields {
    match value {
        Some(s) => seq![(2u8, number, seq![s@])],
        None => Seq::empty(),
    }
}

/// The fields that a request names by options of their own.
pub open spec fn named_fields(a: IptcArgs) -> Fields {
    one_field(5, a.title) + one_field(120, a.description) + one_field(105, a.headline) + one_field(90, a.city)
        + one_field(95, a.state) + one_field(101, a.country) + one_field(116, a.copyright) + one_field(
        110,
        a.credit,
    ) + one_field(115, a.source) + one_field(40, a.instructions) + (match a.keywords {
        Some(s) => seq![(2u8, 25u8, listed(s@))],
        None => Seq::empty(),
    }) + (if a.creator@.len() > 0 {
        seq![(2u8, 80u8, text::views(a.creator@))]
    } else {
        Seq::empty()
    })
}

/// The message for a field that is not known.
pub open spec fn unknown_field(name: Seq<char>) -> Seq<char> {
    "未知的 IPTC 字段 `"@ + name + "`"@
}

/// The fields together with those that the pairs from `i` on set, or the message for the user.
pub open spec fn paired_fields(pairs: Seq<Seq<char>>, i: int, fields: Fields) -> Result<Fields, Seq<char>>
    decreases pairs.len() - i,
{
    if i < 0 || i >= pairs.len() {
        Ok(fields)
    } else {
        match text::cut_at(pairs[i], '=') {
            None => Err("--set 格式应为 字段=值，收到 `"@ + pairs[i] + "`"@),
            Some((name, value)) => match iptc::field_of(name) {
                None => Err(unknown_field(name)),
                Some((r, n)) => paired_fields(pairs, i + 1, fields.push((r, n, seq![value]))),
            },
        }
    }
}

/// The fields to remove from the names from `i` on, or the message for the user.
pub open spec fn removed_fields(names: Seq<Seq<char>>, i: int, v: Seq<(u8, u8)>) -> Result<
    Seq<(u8, u8)>,
    Seq<char>,
>
    decreases names.len() - i,
{
    if i < 0 || i >= names.len() {
        Ok(v)
    } else {
        match iptc::field_of(names[i]) {
            None => Err(unknown_field(names[i])),
            Some(f) => removed_fields(names, i + 1, v.push(f)),
        }
    }
}

/// The edit that a request asks for: fields to set and fields to remove; or the message for the
/// user.
pub open spec fn iptc_edit_of(a: IptcArgs) -> Result<(Fields, Seq<(u8, u8)>), Seq<char>> {
    match paired_fields(text::views(a.set@), 0, named_fields(a)) {
        Err(e) => Err(e),
        Ok(fields) => match removed_fields(text::views(a.remove@), 0, Seq::empty()) {
            Err(e) => Err(e),
            Ok(removes) => Ok((fields, removes)),
        },
    }
}

/// What an edit says.
pub open spec fn iptc_edit_view(e: IptcEdit) -> (Fields, Seq<(u8, u8)>) {
    (fields_view(e.sets@), e.removes@)
}

fn push_field(fields: &mut Vec<(u8, u8, Vec<String>)>, record: u8, number: u8, values: Vec<String>)
    ensures
        fields_view(final(fields)@) == fields_view(old(fields)@) + seq![(record, number, text::views(values@))],
{
    let ghost before = fields_view(fields@);
    let ghost v = text::views(values@);
    fields.push((record, number, values));
    assert(fields_view(fields@) =~= before + seq![(record, number, v)]);
}

fn one_text(s: &str) -> (v: Vec<String>)
    ensures
        text::views(v@) == seq![s@],
{
    let mut v: Vec<String> = Vec::new();
    v.push(text::copy_text(s));
    assert(text::views(v@) =~= seq![s@]);
    v
}

fn push_one(fields: &mut Vec<(u8, u8, Vec<String>)>, number: u8, value: &Option<String>)
    ensures
        fields_view(final(fields)@) == fields_view(old(fields)@) + one_field(number, *value),
{
    let ghost before = fields_view(fields@);
    if let Some(s) = value {
        push_field(fields, 2, number, one_text(s.as_str()));
    }
    assert(fields_view(fields@) =~= before + one_field(number, *value));
}

fn collect_fields(a: &IptcArgs) -> (fields: Vec<(u8, u8, Vec<String>)>)
    ensures
        fields_view(fields@) == named_fields(*a),
{
    let mut fields: Vec<(u8, u8, Vec<String>)> = Vec::new();
    assert(fields_view(fields@) =~= Seq::empty());
    push_one(&mut fields, 5, &a.title);
    assert(fields_view(fields@) =~= one_field(5, a.title));
    push_one(&mut fields, 120, &a.description);
    push_one(&mut fields, 105, &a.headline);
    push_one(&mut fields, 90, &a.city);
    push_one(&mut fields, 95, &a.state);
    push_one(&mut fields, 101, &a.country);
    push_one(&mut fields, 116, &a.copyright);
    push_one(&mut fields, 110, &a.credit);
    push_one(&mut fields, 115, &a.source);
    push_one(&mut fields, 40, &a.instructions);
    let ghost before = fields_view(fields@);
    if let Some(s) = &a.keywords {
        push_field(&mut fields, 2, 25, split_list(s.as_str()));
    }
    assert(fields_view(fields@) =~= before + (match a.keywords {
        Some(s) => seq![(2u8, 25u8, listed(s@))],
        None => Seq::empty(),
    }));
    let ghost before = fields_view(fields@);
    if a.creator.len() > 0 {
        push_field(&mut fields, 2, 80, text::copy_texts(a.creator.as_slice()));
    }
    assert(fields_view(fields@) =~= before + (if a.creator@.len() > 0 {
        seq![(2u8, 80u8, text::views(a.creator@))]
    } else {
        Seq::empty()
    }));
    fields
}

fn unknown_field_text(name: &str) -> (s: String)
    ensures
        s@ == unknown_field(name@),
{
    text::copy_text("未知的 IPTC 字段 `").concat(name).concat("`")
}

/// Makes the edit that a request asks for. The error is the message for the user.
pub fn build_iptc_edit(a: &IptcArgs) -> (r: Result<IptcEdit, String>)
    ensures
        match r {
            Ok(edit) => iptc_edit_of(*a) == Ok::<(Fields, Seq<(u8, u8)>), Seq<char>>(iptc_edit_view(edit)),
            Err(e) => iptc_edit_of(*a) == Err::<(Fields, Seq<(u8, u8)>), Seq<char>>(e@),
        },
{
    let mut sets: Vec<(u8, u8, Vec<String>)> = collect_fields(a);
    let ghost pairs = text::views(a.set@);
    let mut i: usize = 0;
    while i < a.set.len()
        invariant
            i <= a.set.len(),
            pairs == text::views(a.set@),
            paired_fields(pairs, 0, named_fields(*a)) == paired_fields(pairs, i as int, fields_view(sets@)),
        decreases a.set.len() - i,
    {
        let kv: &str = a.set[i].as_str();
        assert(pairs[i as int] == kv@);
        match text::split_once(kv, '=') {
            None => {
                return Err(text::copy_text("--set 格式应为 字段=值，收到 `").concat(kv).concat("`"));
            },
            Some((name, value)) => match iptc::resolve_field(name.as_str()) {
                None => {
                    return Err(unknown_field_text(name.as_str()));
                },
                Some((r, n)) => {
                    let ghost before = fields_view(sets@);
                    push_field(&mut sets, r, n, one_text(value.as_str()));
                    assert(fields_view(sets@) =~= before.push((r, n, seq![value@])));
                },
            },
        }
        i += 1;
    }
    let mut removes: Vec<(u8, u8)> = Vec::new();
    let ghost names = text::views(a.remove@);
    let mut j: usize = 0;
    while j < a.remove.len()
        invariant
            j <= a.remove.len(),
            pairs == text::views(a.set@),
            names == text::views(a.remove@),
            paired_fields(pairs, 0, named_fields(*a)) == Ok::<Fields, Seq<char>>(fields_view(sets@)),
            removed_fields(names, 0, Seq::empty()) == removed_fields(names, j as int, removes@),
        decreases a.remove.len() - j,
    {
        let name: &str = a.remove[j].as_str();
        assert(names[j as int] == name@);
        match iptc::resolve_field(name) {
            None => {
                return Err(unknown_field_text(name));
            },
            Some(f) => {
                removes.push(f);
            },
        }
        j += 1;
    }
    Ok(IptcEdit { sets, removes })
}

/// Whether a request changes single fields.
pub open spec fn names_fields(a: IptcArgs) -> bool {
    a.title is Some || a.description is Some || a.keywords is Some || a.creator@.len() > 0 || a.headline is Some
        || a.city is Some || a.state is Some || a.country is Some || a.copyright is Some || a.credit is Some
        || a.source is Some || a.instructions is Some || a.set@.len() > 0 || a.remove@.len() > 0
}

/// The edit of a request that makes sense, or the message for the user: the whole block is not
/// removed together with other changes, and something is asked for.
pub open spec fn iptc_request_of(a: IptcArgs) -> Result<(Fields, Seq<(u8, u8)>), Seq<char>> {
    if a.clear && names_fields(a) {
        Err("--clear 不能与其它设置/删除同时使用"@)
    } else {
        match iptc_edit_of(a) {
            Err(e) => Err(e),
            Ok(edit) => if !a.clear && edit.0.len() == 0 && edit.1.len() == 0 {
                Err("未指定任何 IPTC 操作，用 `pic-killer iptc --help` 查看可用选项"@)
            } else {
                Ok(edit)
            },
        }
    }
}

/// Makes the edit that a request asks for, if it makes sense. The error is the message for the
/// user.
pub fn iptc_request(a: &IptcArgs) -> (r: Result<IptcEdit, String>)
    ensures
        match r {
            Ok(edit) => iptc_request_of(*a) == Ok::<(Fields, Seq<(u8, u8)>), Seq<char>>(iptc_edit_view(edit)),
            Err(e) => iptc_request_of(*a) == Err::<(Fields, Seq<(u8, u8)>), Seq<char>>(e@),
        },
{
    if a.clear && (a.title.is_some() || a.description.is_some() || a.keywords.is_some() || a.creator.len() > 0
        || a.headline.is_some() || a.city.is_some() || a.state.is_some() || a.country.is_some()
        || a.copyright.is_some() || a.credit.is_some() || a.source.is_some() || a.instructions.is_some()
        || a.set.len() > 0 || a.remove.len() > 0) {
        return Err(text::copy_text("--clear 不能与其它设置/删除同时使用"));
    }
    let edit: IptcEdit = match build_iptc_edit(a) {
        Ok(edit) => edit,
        Err(e) => {
            return Err(e);
        },
    };
    if !a.clear && edit.is_empty() {
        return Err(
            text::copy_text("未指定任何 IPTC 操作，用 `pic-killer iptc --help` 查看可用选项"),
        );
    }
    Ok(edit)
}

// ---- IPTC: one file ---------------------------------------------------------------------

/// The blocks of a JPEG after an edit of its IPTC.
pub open spec fn edited_blocks(b: Seq<u8>, edit: &IptcEdit) -> Seq<iptc::IrbView> {
    iptc::blocks_with(iptc::blocks_of(b), iptc::edited(iptc::datasets_of(b), edit))
}

/// The message for IPTC data that is too large, of this size.
pub open spec fn too_large(n: nat) -> Seq<char> {
    "IPTC/APP13 数据过大（"@ + text::dec(n) + " 字节），暂不支持分段写入"@
}

/// Edits the IPTC of a JPEG. The error is the message for the user; the file then stays as it is.
pub fn edit_iptc(bytes: &mut Vec<u8>, edit: &IptcEdit) -> (r: Result<(), String>)
    ensures
        ({
            let blocks = edited_blocks(old(bytes)@, edit);
            match r {
                Ok(()) => iptc::blocks_fit(blocks) && final(bytes)@ == iptc::with_blocks(old(bytes)@, blocks),
                Err(e) => !iptc::blocks_fit(blocks) && final(bytes)@ == old(bytes)@ && (iptc::irb_stream(
                    blocks,
                ).len() + 14 <= usize::MAX ==> e@ == too_large(iptc::irb_stream(blocks).len() + 14)),
            }
        }),
{
    let existing: Vec<Dataset> = iptc::read_datasets(bytes);
    let datasets: Vec<Dataset> = iptc::apply(existing.as_slice(), edit);
    match iptc::set_jpeg_iptc(bytes, datasets.as_slice()) {
        Ok(()) => Ok(()),
        Err(e) => Err(e.message()),
    }
}

/// Changes the IPTC of a file: edits it, or removes it. Tells what was done, or what becomes of
/// the file where nothing is done; it then stays as it is.
pub fn change_iptc(bytes: &mut Vec<u8>, edit: &IptcEdit, clear: bool) -> (r: Result<String, Outcome>)
    ensures
        ({
            let b = old(bytes)@;
            let c = final(bytes)@;
            let blocks = edited_blocks(b, edit);
            if !jpeg::is_jpeg_bytes(b) {
                r is Err && (r->Err_0)@ == OutcomeView::Skipped("IPTC-IIM 仅支持 JPEG"@) && c == b
            } else if clear {
                if iptc::iptc_block_from(iptc::blocks_of(b), 0) is Some {
                    r is Ok && (r->Ok_0)@ == "已清除 IPTC"@ && c == iptc::without_iptc(b)
                } else {
                    r is Err && (r->Err_0)@ == OutcomeView::Skipped("本就没有 IPTC"@) && c == b
                }
            } else {
                match r {
                    Ok(detail) => iptc::blocks_fit(blocks) && c == iptc::with_blocks(b, blocks) && detail@
                        == edit_detail(edit.sets@.len(), edit.removes@.len()),
                    Err(o) => !iptc::blocks_fit(blocks) && c == b && o is Failed && (iptc::irb_stream(
                        blocks,
                    ).len() + 14 <= usize::MAX ==> o@ == OutcomeView::Failed(
                        too_large(iptc::irb_stream(blocks).len() + 14),
                    )),
                }
            }
        }),
{
    if !jpeg::is_jpeg(bytes) {
        return Err(Outcome::Skipped(text::copy_text("IPTC-IIM 仅支持 JPEG")));
    }
    if clear {
        if !iptc::remove_jpeg_iptc(bytes) {
            return Err(Outcome::Skipped(text::copy_text("本就没有 IPTC")));
        }
        return Ok(text::copy_text("已清除 IPTC"));
    }
    match edit_iptc(bytes, edit) {
        Ok(()) => Ok(detail_text(edit.sets.len(), edit.removes.len())),
        Err(e) => Err(Outcome::Failed(e)),
    }
}

/// Edits the IPTC of a JPEG as part of a larger change. The error is the message for the user;
/// the file then stays as it is.
pub fn apply_iptc_edit(bytes: &mut Vec<u8>, edit: &IptcEdit) -> (r: Result<(), String>)
    ensures
        ({
            let b = old(bytes)@;
            let blocks = edited_blocks(b, edit);
            match r {
                Ok(()) => jpeg::is_jpeg_bytes(b) && iptc::blocks_fit(blocks) && final(bytes)@
                    == iptc::with_blocks(b, blocks),
                Err(e) => final(bytes)@ == b && if !jpeg::is_jpeg_bytes(b) {
                    e@ == "IPTC 仅支持 JPEG"@
                } else {
                    !iptc::blocks_fit(blocks) && (iptc::irb_stream(blocks).len() + 14 <= usize::MAX ==> e@
                        == too_large(iptc::irb_stream(blocks).len() + 14))
                },
            }
        }),
{
    if !jpeg::is_jpeg(bytes) {
        return Err(text::copy_text("IPTC 仅支持 JPEG"));
    }
    edit_iptc(bytes, edit)
}

// ---- what is announced ------------------------------------------------------------------

/// The names of properties.
pub open spec fn set_names(sets: Sets) -> Seq<Seq<char>> {
    sets.map_values(|p: (Seq<char>, xmp::ValueView)| p.0)
}

/// A line with a list of names, if there are any.
pub open spec fn names_line(label: Seq<char>, names: Seq<Seq<char>>) -> Seq<char> {
    text::when(names.len() > 0, label + text::joined(names, "、"@) + "\n"@)
}

pub(crate) fn push_names(out: &mut String, label: &str, names: &Vec<String>)
    ensures
        final(out)@ == old(out)@ + names_line(label@, text::views(names@)),
{
    let ghost before = out@;
    if names.len() > 0 {
        out.append(label);
        out.append(text::join_texts(names.as_slice(), "、").as_str());
        out.append("\n");
    }
    assert(out@ =~= before + names_line(label@, text::views(names@)));
}

/// What is announced before XMP is changed.
pub open spec fn xmp_banner(edit: xmp::EditView, clear: bool, files: nat, dry_run: bool) -> Seq<char> {
    "PIC-Killer · XMP 元数据\n"@ + (if clear {
        "  操作：清除整个 XMP 包\n"@
    } else {
        names_line("  设置："@, set_names(edit.sets)) + names_line("  删除："@, edit.removes)
    }) + "  文件："@ + text::dec(files) + " 个（仅处理 JPEG/PNG）\n"@ + text::when(
        dry_run,
        "  模式：预览（不写入）\n"@,
    )
}

/// What is announced before XMP is changed.
pub fn xmp_header(edit: &XmpEdit, clear: bool, files: usize, dry_run: bool) -> (s: String)
    ensures
        s@ == xmp_banner(edit@, clear, files as nat, dry_run),
{
    let mut s: String = text::copy_text("PIC-Killer · XMP 元数据\n");
    let ghost before = s@;
    if clear {
        s.append("  操作：清除整个 XMP 包\n");
    } else {
        let mut names: Vec<String> = Vec::new();
        let mut i: usize = 0;
        while i < edit.sets.len()
            invariant
                i <= edit.sets.len(),
                names.len() == i,
                forall|k: int| 0 <= k < i ==> (#[trigger] names@[k])@ == edit.sets@[k].0@,
            decreases edit.sets.len() - i,
        {
            names.push(text::copy_text(edit.sets[i].0.as_str()));
            i += 1;
        }
        assert(text::views(names@) =~= set_names(edit@.sets));
        push_names(&mut s, "  设置：", &names);
        push_names(&mut s, "  删除：", &edit.removes);
    }
    assert(s@ =~= before + (if clear {
        "  操作：清除整个 XMP 包\n"@
    } else {
        names_line("  设置："@, set_names(edit@.sets)) + names_line("  删除："@, edit@.removes)
    }));
    s.append("  文件：");
    text::push_dec(&mut s, files as u64);
    s.append(" 个（仅处理 JPEG/PNG）\n");
    text::push_when(&mut s, dry_run, "  模式：预览（不写入）\n");
    s
}

/// The names of fields that are set.
pub open spec fn set_field_names(v: Fields) -> Seq<Seq<char>> {
    v.map_values(|p: (u8, u8, Seq<Seq<char>>)| iptc::display_name(p.0, p.1))
}

/// The names of fields that are removed.
pub open spec fn removed_field_names(v: Seq<(u8, u8)>) -> Seq<Seq<char>> {
    v.map_values(|p: (u8, u8)| iptc::display_name(p.0, p.1))
}

/// What is announced before IPTC is changed.
pub open spec fn iptc_banner(
    edit: (Fields, Seq<(u8, u8)>),
    clear: bool,
    files: nat,
    dry_run: bool,
) -> Seq<char> {
    "PIC-Killer · IPTC-IIM 元数据\n"@ + (if clear {
        "  操作：清除整个 IPTC 块\n"@
    } else {
        names_line("  设置："@, set_field_names(edit.0)) + names_line("  删除："@, removed_field_names(edit.1))
    }) + "  文件："@ + text::dec(files) + " 个（仅处理 JPEG）\n"@ + text::when(
        dry_run,
        "  模式：预览（不写入）\n"@,
    )
}

/// What is announced before IPTC is changed.
pub fn iptc_header(edit: &IptcEdit, clear: bool, files: usize, dry_run: bool) -> (s: String)
    ensures
        s@ == iptc_banner(iptc_edit_view(*edit), clear, files as nat, dry_run),
{
    let mut s: String = text::copy_text("PIC-Killer · IPTC-IIM 元数据\n");
    let ghost before = s@;
    let ghost view = iptc_edit_view(*edit);
    if clear {
        s.append("  操作：清除整个 IPTC 块\n");
    } else {
        let mut names: Vec<String> = Vec::new();
        let mut i: usize = 0;
        while i < edit.sets.len()
            invariant
                i <= edit.sets.len(),
                names.len() == i,
                forall|k: int|
                    0 <= k < i ==> (#[trigger] names@[k])@ == iptc::display_name(
                        edit.sets@[k].0,
                        edit.sets@[k].1,
                    ),
            decreases edit.sets.len() - i,
        {
            names.push(iptc::field_name(edit.sets[i].0, edit.sets[i].1));
            i += 1;
        }
        assert(text::views(names@) =~= set_field_names(view.0));
        let mut gone: Vec<String> = Vec::new();
        let mut j: usize = 0;
        while j < edit.removes.len()
            invariant
                j <= edit.removes.len(),
                gone.len() == j,
                forall|k: int|
                    0 <= k < j ==> (#[trigger] gone@[k])@ == iptc::display_name(
                        edit.removes@[k].0,
                        edit.removes@[k].1,
                    ),
            decreases edit.removes.len() - j,
        {
            gone.push(iptc::field_name(edit.removes[j].0, edit.removes[j].1));
            j += 1;
        }
        assert(text::views(gone@) =~= removed_field_names(view.1));
        push_names(&mut s, "  设置：", &names);
        push_names(&mut s, "  删除：", &gone);
    }
    assert(s@ =~= before + (if clear {
        "  操作：清除整个 IPTC 块\n"@
    } else {
        names_line("  设置："@, set_field_names(view.0)) + names_line("  删除："@, removed_field_names(view.1))
    }));
    s.append("  文件：");
    text::push_dec(&mut s, files as u64);
    s.append(" 个（仅处理 JPEG）\n");
    text::push_when(&mut s, dry_run, "  模式：预览（不写入）\n");
    s
}

} // verus!
