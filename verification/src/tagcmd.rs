//! Changing EXIF tags: setting, removing, turning, copying, and the position.

use little_exif::metadata::Metadata;
use vstd::prelude::*;
use vstd::string::*;
use crate::cli::{CopyArgs, RotateArgs, SetArgs};
use crate::exif;
use crate::exif::{Position, RotateOp};
use crate::outcome::{Outcome, OutcomeView};
use crate::tags;
use crate::tags::Tag;
use crate::tagtext;
use crate::text;

verus! {

// ---- setting and removing ---------------------------------------------------------------

/// A text tag, if there is a value.
pub open spec fn text_option(group: u8, hex: u16, value: Option<String>) -> Seq<tags::TagInfo> {
    match value {
        Some(s) => seq![exif::text_info(group, hex, s@)],
        None => Seq::empty(),
    }
}

/// The text tags that a request names by options of their own.
pub open spec fn named_tags(a: SetArgs) -> Seq<tags::TagInfo> {
    text_option(0, 0x013b, a.artist) + text_option(0, 0x8298, a.copyright) + text_option(
        0,
        0x010e,
        a.description,
    ) + text_option(0, 0x0131, a.software) + text_option(0, 0x010f, a.make) + text_option(0, 0x0110, a.model)
        + text_option(1, 0xa434, a.lens_model) + text_option(1, 0xa430, a.owner) + (match a.user_comment {
        Some(s) => seq![exif::comment_info(s@)],
        None => Seq::empty(),
    })
}

/// The tags together with the orientation that a request names, or the message for the user.
pub open spec fn with_orientation(a: SetArgs) -> Result<Seq<tags::TagInfo>, Seq<char>> {
    match a.orientation {
        Some(s) => {
            let w = text::lowered(text::trimmed(s@));
            match exif::orientation_code(w) {
                Some(code) => Ok(named_tags(a) + seq![exif::orientation_info(code)]),
                None => Err(exif::orientation_message(w)),
            }
        },
        None => Ok(named_tags(a)),
    }
}

/// The tags together with those that the pairs from `i` on set, or the message for the user.
pub open spec fn paired_tags(pairs: Seq<Seq<char>>, i: int, v: Seq<tags::TagInfo>) -> Result<
    Seq<tags::TagInfo>,
    Seq<char>,
>
    decreases pairs.len() - i,
{
    if i < 0 || i >= pairs.len() {
        Ok(v)
    } else {
        match text::cut_at(pairs[i], '=') {
            None => Err("--set-string 格式应为 名称=值，收到 `"@ + pairs[i] + "`"@),
            Some((left, value)) => {
                let name = text::trimmed(left);
                match exif::text_place(name) {
                    Some((group, hex)) => paired_tags(
                        pairs,
                        i + 1,
                        v.push(exif::text_info(group, hex, value)),
                    ),
                    None => Err("`"@ + name + "` 不是受支持的可写标签（字符串或数值）"@),
                }
            },
        }
    }
}

/// The tags that a request sets, or the message for the user.
pub open spec fn set_tags_of(a: SetArgs) -> Result<Seq<tags::TagInfo>, Seq<char>> {
    match with_orientation(a) {
        Ok(v) => paired_tags(text::views(a.set_string@), 0, v),
        Err(e) => Err(e),
    }
}

fn push_tag(v: &mut Vec<Tag>, t: Tag)
    requires
        tags::settable(t@),
        exif::all_settable(tags::tags_view(old(v)@)),
    ensures
        tags::tags_view(final(v)@) == tags::tags_view(old(v)@) + seq![t@],
        exif::all_settable(tags::tags_view(final(v)@)),
{
    let ghost before = tags::tags_view(v@);
    let ghost info = t@;
    v.push(t);
    assert(tags::tags_view(v@) =~= before + seq![info]);
}

fn push_text(v: &mut Vec<Tag>, group: u8, hex: u16, value: &Option<String>)
    requires
        tags::holds_text(group, hex),
        exif::all_settable(tags::tags_view(old(v)@)),
    ensures
        tags::tags_view(final(v)@) == tags::tags_view(old(v)@) + text_option(group, hex, *value),
        exif::all_settable(tags::tags_view(final(v)@)),
{
    let ghost before = tags::tags_view(v@);
    if let Some(s) = value {
        push_tag(v, exif::text_tag(group, hex, s.as_str()));
    }
    assert(tags::tags_view(v@) =~= before + text_option(group, hex, *value));
}

fn collect_tags(a: &SetArgs) -> (v: Vec<Tag>)
    ensures
        tags::tags_view(v@) == named_tags(*a),
        exif::all_settable(tags::tags_view(v@)),
{
    let mut v: Vec<Tag> = Vec::new();
    assert(tags::tags_view(v@) =~= Seq::empty());
    push_text(&mut v, 0, 0x013b, &a.artist);
    assert(tags::tags_view(v@) =~= text_option(0, 0x013b, a.artist));
    push_text(&mut v, 0, 0x8298, &a.copyright);
    push_text(&mut v, 0, 0x010e, &a.description);
    push_text(&mut v, 0, 0x0131, &a.software);
    push_text(&mut v, 0, 0x010f, &a.make);
    push_text(&mut v, 0, 0x0110, &a.model);
    push_text(&mut v, 1, 0xa434, &a.lens_model);
    push_text(&mut v, 1, 0xa430, &a.owner);
    let ghost before = tags::tags_view(v@);
    if let Some(s) = &a.user_comment {
        push_tag(&mut v, exif::user_comment_tag(s.as_str()));
    }
    assert(tags::tags_view(v@) =~= before + (match a.user_comment {
        Some(s) => seq![exif::comment_info(s@)],
        None => Seq::empty(),
    }));
    v
}

/// Makes the tags that a request sets. The error is the message for the user.
pub fn build_set_tags(a: &SetArgs) -> (r: Result<Vec<Tag>, String>)
    ensures
        match r {
            Ok(v) => set_tags_of(*a) == Ok::<Seq<tags::TagInfo>, Seq<char>>(tags::tags_view(v@))
                && exif::all_settable(tags::tags_view(v@)),
            Err(e) => set_tags_of(*a) == Err::<Seq<tags::TagInfo>, Seq<char>>(e@),
        },
{
    let mut v: Vec<Tag> = collect_tags(a);
    if let Some(s) = &a.orientation {
        match exif::orientation_tag(s.as_str()) {
            Ok(t) => {
                push_tag(&mut v, t);
            },
            Err(e) => {
                return Err(e);
            },
        }
    }
    let ghost pairs = text::views(a.set_string@);
    let mut i: usize = 0;
    while i < a.set_string.len()
        invariant
            i <= a.set_string.len(),
            pairs == text::views(a.set_string@),
            with_orientation(*a) is Ok,
            exif::all_settable(tags::tags_view(v@)),
            paired_tags(pairs, 0, with_orientation(*a)->Ok_0) == paired_tags(
                pairs,
                i as int,
                tags::tags_view(v@),
            ),
        decreases a.set_string.len() - i,
    {
        let kv: &str = a.set_string[i].as_str();
        assert(pairs[i as int] == kv@);
        match text::split_once(kv, '=') {
            None => {
                return Err(
                    text::copy_text("--set-string 格式应为 名称=值，收到 `").concat(kv).concat("`"),
                );
            },
            Some((left, value)) => {
                let name: String = text::trim_text(left.as_str());
                match exif::string_tag(name.as_str(), value.as_str()) {
                    Some(t) => {
                        let ghost before = tags::tags_view(v@);
                        let ghost info = t@;
                        push_tag(&mut v, t);
                        assert(tags::tags_view(v@) =~= before.push(info));
                    },
                    None => {
                        return Err(
                            text::copy_text("`").concat(name.as_str()).concat(
                                "` 不是受支持的可写标签（字符串或数值）",
                            ),
                        );
                    },
                }
            },
        }
        i += 1;
    }
    Ok(v)
}

/// The tags of a request that asks for something, or the message for the user.
pub open spec fn set_request_of(a: SetArgs) -> Result<Seq<tags::TagInfo>, Seq<char>> {
    match set_tags_of(a) {
        Err(e) => Err(e),
        Ok(v) => if v.len() == 0 && a.remove@.len() == 0 {
            Err("未指定任何要设置或删除的标签，用 `pic-killer set --help` 查看可用选项"@)
        } else {
            Ok(v)
        },
    }
}

/// Makes the tags that a request sets, if it asks for something. The error is the message for the
/// user.
pub fn set_request(a: &SetArgs) -> (r: Result<Vec<Tag>, String>)
    ensures
        match r {
            Ok(v) => set_request_of(*a) == Ok::<Seq<tags::TagInfo>, Seq<char>>(tags::tags_view(v@))
                && exif::all_settable(tags::tags_view(v@)),
            Err(e) => set_request_of(*a) == Err::<Seq<tags::TagInfo>, Seq<char>>(e@),
        },
{
    match build_set_tags(a) {
        Err(e) => Err(e),
        Ok(v) => if v.len() == 0 && a.remove.len() == 0 {
            Err(
                text::copy_text(
                    "未指定任何要设置或删除的标签，用 `pic-killer set --help` 查看可用选项",
                ),
            )
        } else {
            Ok(v)
        },
    }
}

/// The directories without the tags of the names from `i` on, or the message for the user.
pub open spec fn without_named(s: Seq<tags::IfdInfo>, names: Seq<Seq<char>>, i: int) -> Result<
    Seq<tags::IfdInfo>,
    Seq<char>,
>
    decreases names.len() - i,
{
    if i < 0 || i >= names.len() {
        Ok(s)
    } else {
        match exif::tag_place(names[i]) {
            Some((group, hex)) => without_named(tags::without_tag(s, hex, group), names, i + 1),
            None => Err(exif::removal_message(names[i])),
        }
    }
}

/// Sets tags and then removes others by their names. Where a name is not known, what becomes of
/// the file is told, and the metadata is not to be written.
pub fn change_tags(metadata: &mut Metadata, sets: &Vec<Tag>, removes: &Vec<String>) -> (r: Result<(), Outcome>)
    requires
        tags::sound(*old(metadata)),
        exif::all_settable(tags::tags_view(sets@)),
    ensures
        tags::sound(*final(metadata)),
        ({
            let s = exif::with_tags(tags::ifds_of(*old(metadata)), tags::tags_view(sets@));
            match (r, without_named(s, text::views(removes@), 0)) {
                (Ok(()), Ok(c)) => tags::ifds_of(*final(metadata)) == c,
                (Err(o), Err(e)) => o@ == OutcomeView::Failed(e),
                _ => false,
            }
        }),
        tags::carried(*final(metadata)) == tags::carried(*old(metadata)),
{
    exif::set_tags(metadata, sets);
    let ghost s = tags::ifds_of(*metadata);
    let ghost names = text::views(removes@);
    let mut i: usize = 0;
    while i < removes.len()
        invariant
            tags::sound(*metadata),
            i <= removes.len(),
            names == text::views(removes@),
            s == exif::with_tags(tags::ifds_of(*old(metadata)), tags::tags_view(sets@)),
            tags::carried(*metadata) == tags::carried(*old(metadata)),
            without_named(s, names, 0) == without_named(tags::ifds_of(*metadata), names, i as int),
        decreases removes.len() - i,
    {
        assert(names[i as int] == removes@[i as int]@);
        if let Err(e) = exif::remove_named(metadata, removes[i].as_str()) {
            return Err(Outcome::Failed(e));
        }
        i += 1;
    }
    Ok(())
}

/// The names of tags.
pub open spec fn tag_names(v: Seq<tags::TagInfo>) -> Seq<Seq<char>> {
    v.map_values(|t: tags::TagInfo| tagtext::name_of_tag(t, tagtext::label_for(t)))
}

/// What is announced before tags are set.
pub open spec fn set_banner(names: Seq<Seq<char>>, removes: Seq<Seq<char>>, files: nat, dry_run: bool) -> Seq<char> {
    "PIC-Killer · 设置标签\n"@ + crate::editcmd::names_line("  设置："@, names) + crate::editcmd::names_line(
        "  删除："@,
        removes,
    ) + "  文件："@ + text::dec(files) + " 个\n"@ + text::when(dry_run, "  模式：预览（不写入）\n"@)
}

/// What is announced before tags are set.
pub fn set_header(sets: &Vec<Tag>, removes: &Vec<String>, files: usize, dry_run: bool) -> (s: String)
    ensures
        s@ == set_banner(tag_names(tags::tags_view(sets@)), text::views(removes@), files as nat, dry_run),
{
    let mut names: Vec<String> = Vec::new();
    let mut i: usize = 0;
    while i < sets.len()
        invariant
            i <= sets.len(),
            names.len() == i,
            forall|k: int|
                0 <= k < i ==> (#[trigger] names@[k])@ == tagtext::name_of_tag(
                    sets@[k]@,
                    tagtext::label_for(sets@[k]@),
                ),
        decreases sets.len() - i,
    {
        names.push(tagtext::tag_name(&sets[i]));
        i += 1;
    }
    assert(text::views(names@) =~= tag_names(tags::tags_view(sets@)));
    let mut s: String = text::copy_text("PIC-Killer · 设置标签\n");
    crate::editcmd::push_names(&mut s, "  设置：", &names);
    crate::editcmd::push_names(&mut s, "  删除：", removes);
    s.append("  文件：");
    text::push_dec(&mut s, files as u64);
    s.append(" 个\n");
    text::push_when(&mut s, dry_run, "  模式：预览（不写入）\n");
    s
}

// ---- turning ----------------------------------------------------------------------------

/// The operation that a request asks for.
pub open spec fn operation_of(a: RotateArgs) -> RotateOp {
    if a.cw {
        RotateOp::Cw
    } else if a.ccw {
        RotateOp::Ccw
    } else if a.r180 {
        RotateOp::Rot180
    } else if a.flip_h {
        RotateOp::FlipH
    } else if a.flip_v {
        RotateOp::FlipV
    } else {
        RotateOp::Reset
    }
}

/// The operation that a request asks for.
pub fn choose_operation(a: &RotateArgs) -> (op: RotateOp)
    ensures
        op == operation_of(*a),
{
    if a.cw {
        RotateOp::Cw
    } else if a.ccw {
        RotateOp::Ccw
    } else if a.r180 {
        RotateOp::Rot180
    } else if a.flip_h {
        RotateOp::FlipH
    } else if a.flip_v {
        RotateOp::FlipV
    } else {
        RotateOp::Reset
    }
}

/// An operation in words.
pub open spec fn operation_text(op: RotateOp) -> Seq<char> {
    match op {
        RotateOp::Cw => "顺时针 90°"@,
        RotateOp::Ccw => "逆时针 90°"@,
        RotateOp::Rot180 => "旋转 180°"@,
        RotateOp::FlipH => "水平镜像"@,
        RotateOp::FlipV => "垂直镜像"@,
        RotateOp::Reset => "重置为正常"@,
    }
}

/// An operation in words.
pub fn describe_rotate(op: RotateOp) -> (s: &'static str)
    ensures
        s@ == operation_text(op),
{
    match op {
        RotateOp::Cw => "顺时针 90°",
        RotateOp::Ccw => "逆时针 90°",
        RotateOp::Rot180 => "旋转 180°",
        RotateOp::FlipH => "水平镜像",
        RotateOp::FlipV => "垂直镜像",
        RotateOp::Reset => "重置为正常",
    }
}

/// What is announced before pictures are turned.
pub fn rotate_header(op: RotateOp, files: usize, dry_run: bool) -> (s: String)
    ensures
        s@ == "PIC-Killer · 无损旋转标记\n  操作："@ + operation_text(op) + "\n  文件："@ + text::dec(
            files as nat,
        ) + " 个\n"@ + text::when(dry_run, "  模式：预览（不写入）\n"@),
{
    let mut s: String = text::copy_text("PIC-Killer · 无损旋转标记\n  操作：").concat(
        describe_rotate(op),
    ).concat("\n  文件：");
    text::push_dec(&mut s, files as u64);
    s.append(" 个\n");
    text::push_when(&mut s, dry_run, "  模式：预览（不写入）\n");
    s
}

/// What there is to tell about a turn.
pub open spec fn turn_detail(current: u16, next: u16) -> Seq<char> {
    exif::orientation_text(current) + "("@ + text::dec(current as nat) + ") -> "@ + exif::orientation_text(next)
        + "("@ + text::dec(next as nat) + ")"@
}

/// Adds an operation to the orientation of a picture. Tells what was done; where the orientation
/// stays the same, the metadata stays as it is.
pub fn change_orientation(metadata: &mut Metadata, op: RotateOp) -> (r: Result<String, Outcome>)
    requires
        tags::sound(*old(metadata)),
    ensures
        tags::sound(*final(metadata)),
        ({
            let s = tags::ifds_of(*old(metadata));
            let current = exif::orientation_of(s);
            let next = exif::turned(current, op);
            if next == current {
                r is Err && (r->Err_0)@ == OutcomeView::Skipped(
                    "方向已是「"@ + exif::orientation_text(current) + "」，无需修改"@,
                ) && *final(metadata) == *old(metadata)
            } else {
                r is Ok && (r->Ok_0)@ == turn_detail(current, next) && tags::ifds_of(*final(metadata))
                    == tags::with_tag(s, exif::orientation_info(next))
            }
        }),
        tags::carried(*final(metadata)) == tags::carried(*old(metadata)),
{
    let current: u16 = exif::read_orientation(metadata);
    let next: u16 = exif::compose_orientation(current, op);
    if next == current {
        return Err(
            Outcome::Skipped(
                text::copy_text("方向已是「").concat(exif::orientation_desc(current)).concat(
                    "」，无需修改",
                ),
            ),
        );
    }
    tags::put_tag(metadata, &exif::orientation_code_tag(next));
    let mut s: String = text::copy_text(exif::orientation_desc(current)).concat("(");
    text::push_dec(&mut s, current as u64);
    s.append(") -> ");
    s.append(exif::orientation_desc(next));
    s.append("(");
    text::push_dec(&mut s, next as u64);
    s.append(")");
    Ok(s)
}

/// Turning one way and then the other gives the orientation back.
pub proof fn opposite_turns_restore(s: Seq<tags::IfdInfo>)
    requires
        tags::ifds_ok(s),
    ensures
        ({
            let there = tags::with_tag(
                s,
                exif::orientation_info(exif::turned(exif::orientation_of(s), RotateOp::Cw)),
            );
            let back = tags::with_tag(
                there,
                exif::orientation_info(exif::turned(exif::orientation_of(there), RotateOp::Ccw)),
            );
            exif::orientation_of(back) == exif::orientation_of(s)
        }),
{
    let code = exif::orientation_of(s);
    let next = exif::turned(code, RotateOp::Cw);
    exif::turns_are_products(code, RotateOp::Cw);
    exif::turns_are_products(next, RotateOp::Ccw);
    exif::opposite_turns_cancel(code);
    exif::written_orientation_reads_back(s, next);
    let there = tags::with_tag(s, exif::orientation_info(next));
    tags::set_tag_is_found(s, exif::orientation_info(next));
    exif::written_orientation_reads_back(there, code);
}

// ---- copying ----------------------------------------------------------------------------

/// What a request copies: all, times, positions. Without a choice, all.
pub open spec fn scope_of(a: CopyArgs) -> (bool, bool, bool) {
    if !a.all && !a.time && !a.gps {
        (true, false, false)
    } else {
        (a.all, a.time, a.gps)
    }
}

/// What a request copies: all, times, positions.
pub fn choose_scope(a: &CopyArgs) -> (r: (bool, bool, bool))
    ensures
        r == scope_of(*a),
{
    if !a.all && !a.time && !a.gps {
        (true, false, false)
    } else {
        (a.all, a.time, a.gps)
    }
}

/// A scope in words.
pub open spec fn scope_text(all: bool, time: bool, gps: bool) -> Seq<char> {
    if all {
        "全部可复制的元数据"@
    } else {
        text::joined(text::when_listed(time, "拍摄时间"@) + text::when_listed(gps, "GPS"@), "、"@)
    }
}

/// A scope in words.
pub fn describe_scope(all: bool, time: bool, gps: bool) -> (s: String)
    ensures
        s@ == scope_text(all, time, gps),
{
    if all {
        return text::copy_text("全部可复制的元数据");
    }
    let mut v: Vec<String> = Vec::new();
    if time {
        v.push(text::copy_text("拍摄时间"));
    }
    assert(text::views(v@) =~= text::when_listed(time, "拍摄时间"@));
    let ghost a = text::views(v@);
    if gps {
        v.push(text::copy_text("GPS"));
    }
    assert(text::views(v@) =~= a + text::when_listed(gps, "GPS"@));
    text::join_texts(v.as_slice(), "、")
}

/// What is announced before metadata is copied.
pub fn copy_header(source: &str, all: bool, time: bool, gps: bool, files: usize, dry_run: bool) -> (s: String)
    ensures
        s@ == "PIC-Killer · 复制元数据\n  来源："@ + source@ + "\n  内容："@ + scope_text(all, time, gps)
            + "\n  文件："@ + text::dec(files as nat) + " 个\n"@ + text::when(
            dry_run,
            "  模式：预览（不写入）\n"@,
        ),
{
    let mut s: String = text::copy_text("PIC-Killer · 复制元数据\n  来源：").concat(source).concat(
        "\n  内容：",
    ).concat(describe_scope(all, time, gps).as_str()).concat("\n  文件：");
    text::push_dec(&mut s, files as u64);
    s.append(" 个\n");
    text::push_when(&mut s, dry_run, "  模式：预览（不写入）\n");
    s
}

/// Copies metadata from one picture to another. Tells how much; where there is nothing to copy,
/// what becomes of the file.
pub fn copy_metadata(source: &Metadata, metadata: &mut Metadata, all: bool, time: bool, gps: bool) -> (r: Result<
    String,
    Outcome,
>)
    requires
        tags::sound(*old(metadata)),
    ensures
        tags::sound(*final(metadata)),
        ({
            let v = exif::copied(tags::ifds_of(*source), all, time, gps);
            &&& tags::ifds_of(*final(metadata)) == exif::with_tags(tags::ifds_of(*old(metadata)), v)
            &&& exif::without_image(v) ==> tags::carried(*final(metadata)) == tags::carried(*old(metadata))
            &&& if v.len() == 0 {
                r is Err && (r->Err_0)@ == OutcomeView::Skipped("参考照片没有可复制的对应元数据"@)
            } else {
                r is Ok && (r->Ok_0)@ == "复制了 "@ + text::dec(exif::counted(v.len()) as nat) + " 个标签"@
            }
        }),
{
    let n: usize = exif::copy_tags(source, metadata, all, time, gps);
    if n == 0 {
        return Err(Outcome::Skipped(text::copy_text("参考照片没有可复制的对应元数据")));
    }
    let mut s: String = text::copy_text("复制了 ");
    text::push_dec(&mut s, n as u64);
    s.append(" 个标签");
    Ok(s)
}

// ---- the position -----------------------------------------------------------------------

/// The directories after a change of the position: removed first, then set, each where asked for.
pub open spec fn with_position(s: Seq<tags::IfdInfo>, clear: bool, at: Option<Position>) -> Seq<tags::IfdInfo> {
    let a = if clear {
        exif::without_gps(s)
    } else {
        s
    };
    match at {
        Some(p) => exif::with_tags(a, exif::position_tags(p)),
        None => a,
    }
}

/// Changes the position of a picture: removes it, then sets it, each where asked for.
pub fn change_position(metadata: &mut Metadata, clear: bool, at: Option<Position>)
    requires
        tags::sound(*old(metadata)),
    ensures
        tags::sound(*final(metadata)),
        tags::ifds_of(*final(metadata)) == with_position(tags::ifds_of(*old(metadata)), clear, at),
        tags::carried(*final(metadata)) == tags::carried(*old(metadata)),
{
    if clear {
        let _: usize = exif::remove_gps(metadata);
    }
    if let Some(p) = at {
        let v: Vec<Tag> = exif::gps_tags(p);
        exif::set_tags(metadata, &v);
    }
}

/// What is announced before positions are changed. The position is given in words.
pub fn gps_header(position: Option<&str>, clear: bool, files: usize, dry_run: bool) -> (s: String)
    ensures
        s@ == "PIC-Killer · GPS 定位\n"@ + (match position {
            Some(p) => "  设置："@ + p@ + "\n"@,
            None => Seq::empty(),
        }) + text::when(clear, "  删除：清除现有 GPS\n"@) + "  文件："@ + text::dec(files as nat) + " 个\n"@
            + text::when(dry_run, "  模式：预览（不写入）\n"@),
{
    let mut s: String = text::copy_text("PIC-Killer · GPS 定位\n");
    let ghost before = s@;
    if let Some(p) = position {
        s.append(text::copy_text("  设置：").concat(p).concat("\n").as_str());
    }
    assert(s@ =~= before + (match position {
        Some(p) => "  设置："@ + p@ + "\n"@,
        None => Seq::empty(),
    }));
    text::push_when(&mut s, clear, "  删除：清除现有 GPS\n");
    s.append("  文件：");
    text::push_dec(&mut s, files as u64);
    s.append(" 个\n");
    text::push_when(&mut s, dry_run, "  模式：预览（不写入）\n");
    s
}

/// Removes the position of a picture, where there is a directory that could hold one.
pub fn strip_position(metadata: &mut Metadata) -> (r: Result<(), Outcome>)
    requires
        tags::sound(*old(metadata)),
    ensures
        tags::sound(*final(metadata)),
        ({
            let s = tags::ifds_of(*old(metadata));
            &&& tags::ifds_of(*final(metadata)) == exif::without_gps(s)
            &&& match r {
                Ok(()) => exif::gps_removals(s) != 0,
                Err(o) => exif::gps_removals(s) == 0 && o@ == OutcomeView::Skipped("本就没有 GPS 信息"@),
            }
        }),
        tags::carried(*final(metadata)) == tags::carried(*old(metadata)),
{
    let n: usize = exif::remove_gps(metadata);
    if n == 0 {
        return Err(Outcome::Skipped(text::copy_text("本就没有 GPS 信息")));
    }
    Ok(())
}

/// What is announced before metadata is removed.
pub fn strip_header(gps: bool, files: usize, dry_run: bool) -> (s: String)
    ensures
        s@ == "PIC-Killer · 清除元数据\n  范围："@ + (if gps {
            "仅 GPS 定位"@
        } else {
            "全部元数据"@
        }) + "\n  文件："@ + text::dec(files as nat) + " 个\n"@ + text::when(
            dry_run,
            "  模式：预览（不写入）\n"@,
        ),
{
    let scope: &str = if gps {
        "仅 GPS 定位"
    } else {
        "全部元数据"
    };
    let mut s: String = text::copy_text("PIC-Killer · 清除元数据\n  范围：").concat(scope).concat(
        "\n  文件：",
    );
    text::push_dec(&mut s, files as u64);
    s.append(" 个\n");
    text::push_when(&mut s, dry_run, "  模式：预览（不写入）\n");
    s
}

} // verus!
