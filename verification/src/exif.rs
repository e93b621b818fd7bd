//! EXIF: time fields, named tags, GPS, orientation, copying, and display.

use little_exif::metadata::Metadata;
use vstd::prelude::*;
use vstd::string::*;
use vstd::utf8::{encode_utf8, valid_utf8};
use crate::bytes;
use crate::intake;
use crate::iptc;
use crate::jpeg;
use crate::jxl;
use crate::png;
use crate::stamp;
use crate::stamp::Stamp;
use crate::tags;
use crate::tags::{Ifd, Ratio, Tag};
use crate::text;
use crate::timeop;
use crate::webp;
use crate::xmp;

verus! {

/// How files are written.
#[derive(Debug, Clone, Copy, PartialEq, Eq, Structural)]
pub struct WriteOpts {
    pub dry_run: bool,
    pub backup: bool,
    /// Whether the file keeps its times.
    pub preserve_fs_time: bool,
}

/// Which time fields are written.
#[derive(Debug, Clone, Copy, PartialEq, Eq, Structural)]
pub struct TagSelection {
    pub original: bool,
    pub digitized: bool,
    pub modify: bool,
}

impl TagSelection {
    /// Whether any field is written.
    pub fn any(&self) -> (r: bool)
        ensures
            r == (self.original || self.digitized || self.modify),
    {
        self.original || self.digitized || self.modify
    }
}

// ---- orientation ------------------------------------------------------------------------

/// A turn or a mirroring without loss.
#[derive(Debug, Clone, Copy, PartialEq, Eq, Structural)]
pub enum RotateOp {
    Cw,
    Ccw,
    Rot180,
    FlipH,
    FlipV,
    Reset,
}

/// Minus one.
pub const MINUS: i32 = -1;

/// A 2 by 2 matrix, by rows: from the stored picture to the shown one, x to the right and y down.
#[derive(Debug, Clone, Copy, PartialEq, Eq, Structural)]
pub struct Mat {
    pub a: i32,
    pub b: i32,
    pub c: i32,
    pub d: i32,
}

/// The matrix of an orientation code; of any other number, that of the normal orientation.
pub open spec fn code_matrix(code: u16) -> Mat {
    if code == 2 {
        Mat { a: MINUS, b: 0, c: 0, d: 1 }
    } else if code == 3 {
        Mat { a: MINUS, b: 0, c: 0, d: MINUS }
    } else if code == 4 {
        Mat { a: 1, b: 0, c: 0, d: MINUS }
    } else if code == 5 {
        Mat { a: 0, b: 1, c: 1, d: 0 }
    } else if code == 6 {
        Mat { a: 0, b: MINUS, c: 1, d: 0 }
    } else if code == 7 {
        Mat { a: 0, b: MINUS, c: MINUS, d: 0 }
    } else if code == 8 {
        Mat { a: 0, b: 1, c: MINUS, d: 0 }
    } else {
        Mat { a: 1, b: 0, c: 0, d: 1 }
    }
}

/// The matrix of an operation.
pub open spec fn turn_matrix(op: RotateOp) -> Mat {
    match op {
        RotateOp::Cw => Mat { a: 0, b: MINUS, c: 1, d: 0 },
        RotateOp::Ccw => Mat { a: 0, b: 1, c: MINUS, d: 0 },
        RotateOp::Rot180 => Mat { a: MINUS, b: 0, c: 0, d: MINUS },
        RotateOp::FlipH => Mat { a: MINUS, b: 0, c: 0, d: 1 },
        RotateOp::FlipV => Mat { a: 1, b: 0, c: 0, d: MINUS },
        RotateOp::Reset => Mat { a: 1, b: 0, c: 0, d: 1 },
    }
}

/// The product of two matrices.
pub open spec fn product(m: Mat, n: Mat) -> Mat {
    Mat {
        a: (m.a * n.a + m.b * n.c) as i32,
        b: (m.a * n.b + m.b * n.d) as i32,
        c: (m.c * n.a + m.d * n.c) as i32,
        d: (m.c * n.b + m.d * n.d) as i32,
    }
}

/// Whether all entries are -1, 0 or 1.
pub open spec fn small(m: Mat) -> bool {
    -1 <= m.a <= 1 && -1 <= m.b <= 1 && -1 <= m.c <= 1 && -1 <= m.d <= 1
}

/// The matrix of an orientation code.
pub fn orient_matrix(o: u16) -> (m: Mat)
    ensures
        m == code_matrix(o),
        small(m),
{
    match o {
        2 => Mat { a: -1, b: 0, c: 0, d: 1 },
        3 => Mat { a: -1, b: 0, c: 0, d: -1 },
        4 => Mat { a: 1, b: 0, c: 0, d: -1 },
        5 => Mat { a: 0, b: 1, c: 1, d: 0 },
        6 => Mat { a: 0, b: -1, c: 1, d: 0 },
        7 => Mat { a: 0, b: -1, c: -1, d: 0 },
        8 => Mat { a: 0, b: 1, c: -1, d: 0 },
        _ => Mat { a: 1, b: 0, c: 0, d: 1 },
    }
}

fn op_matrix(op: RotateOp) -> (m: Mat)
    ensures
        m == turn_matrix(op),
        small(m),
{
    match op {
        RotateOp::Cw => Mat { a: 0, b: -1, c: 1, d: 0 },
        RotateOp::Ccw => Mat { a: 0, b: 1, c: -1, d: 0 },
        RotateOp::Rot180 => Mat { a: -1, b: 0, c: 0, d: -1 },
        RotateOp::FlipH => Mat { a: -1, b: 0, c: 0, d: 1 },
        RotateOp::FlipV => Mat { a: 1, b: 0, c: 0, d: -1 },
        RotateOp::Reset => Mat { a: 1, b: 0, c: 0, d: 1 },
    }
}

fn mat_mul(m: Mat, n: Mat) -> (r: Mat)
    requires
        small(m),
        small(n),
    ensures
        r == product(m, n),
{
    assert(forall|x: i32, y: i32| -1 <= x <= 1 && -1 <= y <= 1 ==> -1 <= #[trigger] (x * y) <= 1) by (
        nonlinear_arith);
    Mat {
        a: m.a * n.a + m.b * n.c,
        b: m.a * n.b + m.b * n.d,
        c: m.c * n.a + m.d * n.c,
        d: m.c * n.b + m.d * n.d,
    }
}

/// The orientation code of a matrix; 1 for a matrix that no code has.
pub open spec fn matrix_code(m: Mat) -> u16 {
    if m == code_matrix(2) {
        2
    } else if m == code_matrix(3) {
        3
    } else if m == code_matrix(4) {
        4
    } else if m == code_matrix(5) {
        5
    } else if m == code_matrix(6) {
        6
    } else if m == code_matrix(7) {
        7
    } else if m == code_matrix(8) {
        8
    } else {
        1
    }
}

fn matrix_to_orient(m: Mat) -> (code: u16)
    ensures
        code == matrix_code(m),
{
    let mut code: u16 = 2;
    while code <= 8
        invariant
            2 <= code <= 9,
            forall|k: u16| 2 <= k < code ==> m != #[trigger] code_matrix(k),
        decreases 9 - code,
    {
        if orient_matrix(code) == m {
            assert(forall|k: u16| 2 <= k < code ==> m != #[trigger] code_matrix(k));
            assert(code == matrix_code(m)) by {
                assert(code_matrix(2) == code_matrix(2) && code_matrix(3) == code_matrix(3)
                    && code_matrix(4) == code_matrix(4) && code_matrix(5) == code_matrix(5)
                    && code_matrix(6) == code_matrix(6) && code_matrix(7) == code_matrix(7));
            }
            return code;
        }
        code += 1;
    }
    1
}

/// The orientation code after an operation on a picture of this orientation.
pub open spec fn turned(current: u16, op: RotateOp) -> u16 {
    if op == RotateOp::Reset {
        1
    } else {
        matrix_code(product(turn_matrix(op), code_matrix(current)))
    }
}

/// Adds an operation to an orientation. Orientations are the symmetries of the square; the new
/// one is the product of the operation and the old one.
pub fn compose_orientation(current: u16, op: RotateOp) -> (code: u16)
    ensures
        code == turned(current, op),
{
    if op == RotateOp::Reset {
        return 1;
    }
    matrix_to_orient(mat_mul(op_matrix(op), orient_matrix(current)))
}

/// Where each operation leads from each code.
pub open spec fn turn_table(code: u16, op: RotateOp) -> u16 {
    match op {
        RotateOp::Cw => seq![6u16, 7, 8, 5, 2, 3, 4, 1][code as int - 1],
        RotateOp::Ccw => seq![8u16, 5, 6, 7, 4, 1, 2, 3][code as int - 1],
        RotateOp::Rot180 => seq![3u16, 4, 1, 2, 7, 8, 5, 6][code as int - 1],
        RotateOp::FlipH => seq![2u16, 1, 4, 3, 6, 5, 8, 7][code as int - 1],
        RotateOp::FlipV => seq![4u16, 3, 2, 1, 8, 7, 6, 5][code as int - 1],
        RotateOp::Reset => 1,
    }
}

/// The product of the matrices leads where the table says.
pub proof fn turns_follow_table(code: u16, op: RotateOp)
    requires
        1 <= code <= 8,
    ensures
        turned(code, op) == turn_table(code, op),
        1 <= turn_table(code, op) <= 8,
{
    let m = code_matrix(code);
    assert(1 * m.a == m.a && 1 * m.b == m.b && 1 * m.c == m.c && 1 * m.d == m.d);
    assert((-1) * m.a == -m.a && (-1) * m.b == -m.b && (-1) * m.c == -m.c && (-1) * m.d == -m.d);
    assert(0 * m.a == 0 && 0 * m.b == 0 && 0 * m.c == 0 && 0 * m.d == 0);
}

/// Codes and their matrices belong to each other one to one.
pub proof fn codes_are_matrices(code: u16)
    requires
        1 <= code <= 8,
    ensures
        matrix_code(code_matrix(code)) == code,
{
}

/// Every operation leads from a code to a code, and its matrix is the product.
pub proof fn turns_are_products(current: u16, op: RotateOp)
    requires
        op != RotateOp::Reset,
    ensures
        1 <= turned(current, op) <= 8,
        code_matrix(turned(current, op)) == product(turn_matrix(op), code_matrix(current)),
{
    let m = code_matrix(current);
    assert(1 * m.a == m.a && 1 * m.b == m.b && 1 * m.c == m.c && 1 * m.d == m.d);
    assert((-1) * m.a == -m.a && (-1) * m.b == -m.b && (-1) * m.c == -m.c && (-1) * m.d == -m.d);
    assert(0 * m.a == 0 && 0 * m.b == 0 && 0 * m.c == 0 && 0 * m.d == 0);
}

/// A turn one way and then the other way changes nothing.
pub proof fn opposite_turns_cancel(code: u16)
    requires
        1 <= code <= 8,
    ensures
        turned(turned(code, RotateOp::Cw), RotateOp::Ccw) == code,
        turned(turned(code, RotateOp::Ccw), RotateOp::Cw) == code,
{
    turns_follow_table(code, RotateOp::Cw);
    turns_follow_table(turn_table(code, RotateOp::Cw), RotateOp::Ccw);
    turns_follow_table(code, RotateOp::Ccw);
    turns_follow_table(turn_table(code, RotateOp::Ccw), RotateOp::Cw);
}

/// Two quarter turns are a half turn.
pub proof fn two_quarter_turns(code: u16)
    requires
        1 <= code <= 8,
    ensures
        turned(turned(code, RotateOp::Cw), RotateOp::Cw) == turned(code, RotateOp::Rot180),
        turned(turned(code, RotateOp::Ccw), RotateOp::Ccw) == turned(code, RotateOp::Rot180),
{
    turns_follow_table(code, RotateOp::Rot180);
    turns_follow_table(code, RotateOp::Cw);
    turns_follow_table(turn_table(code, RotateOp::Cw), RotateOp::Cw);
    turns_follow_table(code, RotateOp::Ccw);
    turns_follow_table(turn_table(code, RotateOp::Ccw), RotateOp::Ccw);
}

/// A half turn or a mirroring, done twice, changes nothing.
pub proof fn half_turns_and_flips_cancel(code: u16)
    requires
        1 <= code <= 8,
    ensures
        turned(turned(code, RotateOp::Rot180), RotateOp::Rot180) == code,
        turned(turned(code, RotateOp::FlipH), RotateOp::FlipH) == code,
        turned(turned(code, RotateOp::FlipV), RotateOp::FlipV) == code,
{
    turns_follow_table(code, RotateOp::Rot180);
    turns_follow_table(turn_table(code, RotateOp::Rot180), RotateOp::Rot180);
    turns_follow_table(code, RotateOp::FlipH);
    turns_follow_table(turn_table(code, RotateOp::FlipH), RotateOp::FlipH);
    turns_follow_table(code, RotateOp::FlipV);
    turns_follow_table(turn_table(code, RotateOp::FlipV), RotateOp::FlipV);
}

/// Four quarter turns change nothing.
pub proof fn four_quarter_turns(code: u16)
    requires
        1 <= code <= 8,
    ensures
        turned(turned(turned(turned(code, RotateOp::Cw), RotateOp::Cw), RotateOp::Cw), RotateOp::Cw) == code,
        turned(turned(turned(turned(code, RotateOp::Ccw), RotateOp::Ccw), RotateOp::Ccw), RotateOp::Ccw) == code,
{
    let half = turned(code, RotateOp::Rot180);
    turns_follow_table(code, RotateOp::Rot180);
    two_quarter_turns(code);
    two_quarter_turns(half);
    half_turns_and_flips_cancel(code);
}

/// A reset leads to the normal orientation from anywhere.
pub proof fn reset_is_normal(code: u16)
    ensures
        turned(code, RotateOp::Reset) == 1,
{
}

/// What an orientation code means.
pub open spec fn orientation_text(code: u16) -> Seq<char> {
    if code == 1 {
        "正常"@
    } else if code == 2 {
        "水平镜像"@
    } else if code == 3 {
        "旋转180°"@
    } else if code == 4 {
        "垂直镜像"@
    } else if code == 5 {
        "转置"@
    } else if code == 6 {
        "顺时针90°"@
    } else if code == 7 {
        "反对角镜像"@
    } else if code == 8 {
        "逆时针90°"@
    } else {
        "未知"@
    }
}

/// What an orientation code means.
pub fn orientation_desc(code: u16) -> (s: &'static str)
    ensures
        s@ == orientation_text(code),
{
    match code {
        1 => "正常",
        2 => "水平镜像",
        3 => "旋转180°",
        4 => "垂直镜像",
        5 => "转置",
        6 => "顺时针90°",
        7 => "反对角镜像",
        8 => "逆时针90°",
        _ => "未知",
    }
}

/// The code that a user's word for an orientation says.
pub open spec fn orientation_code(word: Seq<char>) -> Option<u16> {
    if word == "1"@ || word == "normal"@ || word == "top-left"@ || word == "tl"@ {
        Some(1)
    } else if word == "2"@ || word == "mirror-h"@ || word == "flip-h"@ {
        Some(2)
    } else if word == "3"@ || word == "180"@ || word == "rotate-180"@ || word == "bottom-right"@ || word
        == "br"@ {
        Some(3)
    } else if word == "4"@ || word == "mirror-v"@ || word == "flip-v"@ {
        Some(4)
    } else if word == "5"@ || word == "mirror-h-cw"@ {
        Some(5)
    } else if word == "6"@ || word == "cw"@ || word == "cw90"@ || word == "90"@ || word == "rotate-cw"@ {
        Some(6)
    } else if word == "7"@ || word == "mirror-h-ccw"@ {
        Some(7)
    } else if word == "8"@ || word == "ccw"@ || word == "ccw90"@ || word == "270"@ || word == "rotate-ccw"@ {
        Some(8)
    } else {
        None
    }
}

fn read_orientation_word(w: &[char]) -> (r: Option<u16>)
    ensures
        r == orientation_code(w@),
{
    if text::is_text(w, "1") || text::is_text(w, "normal") || text::is_text(w, "top-left") || text::is_text(
        w,
        "tl",
    ) {
        Some(1)
    } else if text::is_text(w, "2") || text::is_text(w, "mirror-h") || text::is_text(w, "flip-h") {
        Some(2)
    } else if text::is_text(w, "3") || text::is_text(w, "180") || text::is_text(w, "rotate-180")
        || text::is_text(w, "bottom-right") || text::is_text(w, "br") {
        Some(3)
    } else if text::is_text(w, "4") || text::is_text(w, "mirror-v") || text::is_text(w, "flip-v") {
        Some(4)
    } else if text::is_text(w, "5") || text::is_text(w, "mirror-h-cw") {
        Some(5)
    } else if text::is_text(w, "6") || text::is_text(w, "cw") || text::is_text(w, "cw90") || text::is_text(
        w,
        "90",
    ) || text::is_text(w, "rotate-cw") {
        Some(6)
    } else if text::is_text(w, "7") || text::is_text(w, "mirror-h-ccw") {
        Some(7)
    } else if text::is_text(w, "8") || text::is_text(w, "ccw") || text::is_text(w, "ccw90") || text::is_text(
        w,
        "270",
    ) || text::is_text(w, "rotate-ccw") {
        Some(8)
    } else {
        None
    }
}

// ---- named tags -------------------------------------------------------------------------

/// A text tag.
pub open spec fn text_info(group: u8, hex: u16, value: Seq<char>) -> tags::TagInfo {
    tags::TagInfo {
        group,
        hex,
        format: tags::TEXT,
        unknown: false,
        data: encode_utf8(text::without_zeros(value)) + seq![0u8],
    }
}

/// The group and number of a tag that holds text, by one of its names.
pub open spec fn text_place(name: Seq<char>) -> Option<(u8, u16)> {
    let n = iptc::canonical(name);
    if n == "artist"@ {
        Some((0, 0x013b))
    } else if n == "copyright"@ {
        Some((0, 0x8298))
    } else if n == "description"@ || n == "imagedescription"@ {
        Some((0, 0x010e))
    } else if n == "software"@ {
        Some((0, 0x0131))
    } else if n == "make"@ {
        Some((0, 0x010f))
    } else if n == "model"@ {
        Some((0, 0x0110))
    } else if n == "lensmake"@ {
        Some((1, 0xa433))
    } else if n == "lensmodel"@ {
        Some((1, 0xa434))
    } else if n == "owner"@ || n == "ownername"@ {
        Some((1, 0xa430))
    } else if n == "serial"@ || n == "serialnumber"@ {
        Some((1, 0xa431))
    } else if n == "imageid"@ || n == "imageuniqueid"@ {
        Some((1, 0xa420))
    } else {
        None
    }
}

/// The group and number of a tag that can be removed, by one of its names.
pub open spec fn tag_place(name: Seq<char>) -> Option<(u8, u16)> {
    let n = iptc::canonical(name);
    if text_place(name) is Some {
        text_place(name)
    } else if n == "orientation"@ {
        Some((0, 0x0112))
    } else if n == "usercomment"@ {
        Some((1, 0x9286))
    } else if n == "datetimeoriginal"@ || n == "original"@ {
        Some((1, 0x9003))
    } else if n == "createdate"@ || n == "digitized"@ || n == "datetimedigitized"@ {
        Some((1, 0x9004))
    } else if n == "modifydate"@ || n == "modify"@ || n == "datetime"@ {
        Some((0, 0x0132))
    } else {
        None
    }
}

/// A tag without a value that stands for its group and number.
pub open spec fn bare_info(group: u8, hex: u16) -> tags::TagInfo {
    if group == 0 && hex == 0x0112 {
        tags::TagInfo { group, hex, format: tags::INT16U, unknown: false, data: Seq::empty() }
    } else if group == 1 && hex == 0x9286 {
        tags::TagInfo { group, hex, format: tags::UNDEF, unknown: false, data: Seq::empty() }
    } else {
        text_info(group, hex, Seq::empty())
    }
}

/// A name without white space around it, letter case, and the marks `-`, `_` and space.
pub(crate) fn canonical(name: &str) -> (r: Vec<char>)
    ensures
        r@ == iptc::canonical(name@),
{
    let cs: Vec<char> = text::chars_of(name);
    let low: Vec<char> = text::lower_chars(text::trim_chars(cs.as_slice()));
    let marks: [char; 3] = ['-', '_', ' '];
    assert(marks@ =~= seq!['-', '_', ' ']);
    text::drop_chars(low.as_slice(), &marks)
}

/// The group and number of a text tag by its name.
fn find_text_place(name: &str) -> (r: Option<(u8, u16)>)
    ensures
        r == text_place(name@),
{
    let n: Vec<char> = canonical(name);
    let n: &[char] = n.as_slice();
    if text::is_text(n, "artist") {
        Some((0, 0x013b))
    } else if text::is_text(n, "copyright") {
        Some((0, 0x8298))
    } else if text::is_text(n, "description") || text::is_text(n, "imagedescription") {
        Some((0, 0x010e))
    } else if text::is_text(n, "software") {
        Some((0, 0x0131))
    } else if text::is_text(n, "make") {
        Some((0, 0x010f))
    } else if text::is_text(n, "model") {
        Some((0, 0x0110))
    } else if text::is_text(n, "lensmake") {
        Some((1, 0xa433))
    } else if text::is_text(n, "lensmodel") {
        Some((1, 0xa434))
    } else if text::is_text(n, "owner") || text::is_text(n, "ownername") {
        Some((1, 0xa430))
    } else if text::is_text(n, "serial") || text::is_text(n, "serialnumber") {
        Some((1, 0xa431))
    } else if text::is_text(n, "imageid") || text::is_text(n, "imageuniqueid") {
        Some((1, 0xa420))
    } else {
        None
    }
}

/// The group and number of a removable tag by its name.
fn find_tag_place(name: &str) -> (r: Option<(u8, u16)>)
    ensures
        r == tag_place(name@),
{
    let place: Option<(u8, u16)> = find_text_place(name);
    if place.is_some() {
        return place;
    }
    let n: Vec<char> = canonical(name);
    let n: &[char] = n.as_slice();
    if text::is_text(n, "orientation") {
        Some((0, 0x0112))
    } else if text::is_text(n, "usercomment") {
        Some((1, 0x9286))
    } else if text::is_text(n, "datetimeoriginal") || text::is_text(n, "original") {
        Some((1, 0x9003))
    } else if text::is_text(n, "createdate") || text::is_text(n, "digitized") || text::is_text(
        n,
        "datetimedigitized",
    ) {
        Some((1, 0x9004))
    } else if text::is_text(n, "modifydate") || text::is_text(n, "modify") || text::is_text(n, "datetime") {
        Some((0, 0x0132))
    } else {
        None
    }
}

/// A text tag; its value ends with one zero.
pub(crate) fn text_tag(group: u8, hex: u16, value: &str) -> (t: Tag)
    ensures
        t@ == text_info(group, hex, value@),
        tags::holds_text(group, hex) ==> tags::settable(t@),
{
    proof {
        lemma_text_info(group, hex, value@);
    }
    let cs: Vec<char> = text::chars_of(value);
    let body: String = text::text_of(text::drop_zeros(cs.as_slice()));
    let mut data: Vec<u8> = bytes::copy_bytes(body.as_str().as_bytes());
    let ghost before = data@;
    data.push(0);
    assert(data@ =~= before + seq![0u8]);
    Tag { group, hex, format: tags::TEXT, unknown: false, data }
}

/// The value of a text tag is well-formed: one zero at its end, and no other before it.
pub proof fn lemma_text_info(group: u8, hex: u16, value: Seq<char>)
    ensures
        ({
            let d = text_info(group, hex, value).data;
            &&& d.len() > 0
            &&& d.last() == 0
            &&& valid_utf8(d)
            &&& (d.len() > 1 ==> d[d.len() - 2] != 0)
        }),
{
    let v = text::without_zeros(value);
    text::lemma_without_zeros(value);
    text::lemma_zero_ended(v);
    text::lemma_last_zero(v);
}

/// Makes a text tag by one of its names: the tags of author, copyright, description, software,
/// camera, lens, owner, serial number and image id.
pub fn string_tag(name: &str, value: &str) -> (r: Option<Tag>)
    ensures
        match r {
            Some(t) => text_place(name@) is Some && t@ == text_info(
                (text_place(name@)->0).0,
                (text_place(name@)->0).1,
                value@,
            ) && tags::settable(t@),
            None => text_place(name@) is None,
        },
{
    match find_text_place(name) {
        Some((group, hex)) => {
            Some(text_tag(group, hex, value))
        },
        None => None,
    }
}

/// Makes a tag without a value by one of its names.
pub fn tag_template(name: &str) -> (r: Option<Tag>)
    ensures
        match r {
            Some(t) => tag_place(name@) is Some && t@ == bare_info(
                (tag_place(name@)->0).0,
                (tag_place(name@)->0).1,
            ),
            None => tag_place(name@) is None,
        },
{
    match find_tag_place(name) {
        None => None,
        Some((group, hex)) => {
            proof {
                reveal_strlit("");
                assert(""@ =~= Seq::<char>::empty());
            }
            if group == 0 && hex == 0x0112 {
                Some(Tag { group, hex, format: tags::INT16U, unknown: false, data: Vec::new() })
            } else if group == 1 && hex == 0x9286 {
                Some(Tag { group, hex, format: tags::UNDEF, unknown: false, data: Vec::new() })
            } else {
                Some(text_tag(group, hex, ""))
            }
        },
    }
}

/// The mark of ASCII in front of a user comment.
pub open spec fn ascii_mark() -> Seq<u8> {
    seq![0x41u8, 0x53, 0x43, 0x49, 0x49, 0, 0, 0]
}

/// A user comment: the mark of its character set, then the text.
pub open spec fn comment_info(comment: Seq<char>) -> tags::TagInfo {
    tags::TagInfo {
        group: 1,
        hex: 0x9286,
        format: tags::UNDEF,
        unknown: false,
        data: ascii_mark() + encode_utf8(comment),
    }
}

/// Makes a user comment.
pub fn user_comment_tag(comment: &str) -> (t: Tag)
    ensures
        t@ == comment_info(comment@),
        tags::settable(t@),
{
    let mut data: Vec<u8> = vec![0x41, 0x53, 0x43, 0x49, 0x49, 0, 0, 0];
    assert(data@ =~= ascii_mark());
    bytes::append_bytes(&mut data, comment.as_bytes());
    Tag { group: 1, hex: 0x9286, format: tags::UNDEF, unknown: false, data }
}

/// An orientation.
pub open spec fn orientation_info(code: u16) -> tags::TagInfo {
    tags::TagInfo {
        group: 0,
        hex: 0x0112,
        format: tags::INT16U,
        unknown: false,
        data: seq![(code % 256) as u8, (code / 256) as u8],
    }
}

/// Makes the tag of an orientation code.
pub fn orientation_code_tag(code: u16) -> (t: Tag)
    ensures
        t@ == orientation_info(code),
        tags::settable(t@),
{
    let data: Vec<u8> = vec![(code % 256) as u8, (code / 256) as u8];
    assert(data@ =~= orientation_info(code).data);
    Tag { group: 0, hex: 0x0112, format: tags::INT16U, unknown: false, data }
}

/// The message for an orientation that is not known.
pub open spec fn orientation_message(word: Seq<char>) -> Seq<char> {
    "未知方向 `"@ + word + "`，可用：normal/cw90/ccw90/180/mirror-h/mirror-v 或 1-8"@
}

/// Makes an orientation tag from a word or a code. The error is the message for the user.
pub fn orientation_tag(word: &str) -> (r: Result<Tag, String>)
    ensures
        ({
            let w = text::lowered(text::trimmed(word@));
            match r {
                Ok(t) => orientation_code(w) is Some && t@ == orientation_info(orientation_code(w)->0)
                    && tags::settable(t@),
                Err(e) => orientation_code(w) is None && e@ == orientation_message(w),
            }
        }),
{
    let cs: Vec<char> = text::chars_of(word);
    let w: Vec<char> = text::lower_chars(text::trim_chars(cs.as_slice()));
    match read_orientation_word(w.as_slice()) {
        Some(code) => Ok(orientation_code_tag(code)),
        None => {
            let mut e: String = text::copy_text("未知方向 `");
            let shown: String = text::text_of(w.as_slice());
            e.append(shown.as_str());
            e.append("`，可用：normal/cw90/ccw90/180/mirror-h/mirror-v 或 1-8");
            Err(e)
        },
    }
}

/// The message for a tag that cannot be removed.
pub open spec fn removal_message(name: Seq<char>) -> Seq<char> {
    "不支持删除的标签名 `"@ + name + "`"@
}

/// Removes a tag by one of its names, and tells whether there was a directory to remove it from.
/// The error is the message for the user.
pub fn remove_named(metadata: &mut Metadata, name: &str) -> (r: Result<bool, String>)
    requires
        tags::sound(*old(metadata)),
    ensures
        tags::sound(*final(metadata)),
        ({
            let s = tags::ifds_of(*old(metadata));
            match (tag_place(name@), r) {
                (Some((group, hex)), Ok(removed)) => tags::ifds_of(*final(metadata)) == tags::without_tag(
                    s,
                    hex,
                    group,
                ) && removed == (tags::looked_into(s, group, s.len() as int) > 0),
                (None, Err(e)) => *final(metadata) == *old(metadata) && e@ == removal_message(name@),
                _ => false,
            }
        }),
        tags::carried(*final(metadata)) == tags::carried(*old(metadata)),
{
    match tag_template(name) {
        Some(t) => {
            let n: usize = tags::drop_tag(metadata, t.hex, t.group);
            Ok(n > 0)
        },
        None => {
            let mut e: String = text::copy_text("不支持删除的标签名 `");
            e.append(name);
            e.append("`");
            Err(e)
        },
    }
}

// ---- time fields ------------------------------------------------------------------------

/// The directories with the selected time fields set to a text.
pub open spec fn with_times(s: Seq<tags::IfdInfo>, value: Seq<char>, sel: TagSelection) -> Seq<tags::IfdInfo> {
    let a = if sel.original {
        tags::with_tag(s, text_info(1, 0x9003, value))
    } else {
        s
    };
    let b = if sel.digitized {
        tags::with_tag(a, text_info(1, 0x9004, value))
    } else {
        a
    };
    if sel.modify {
        tags::with_tag(b, text_info(0, 0x0132, value))
    } else {
        b
    }
}

/// Writes a point in time into the selected time fields.
pub fn apply_datetime(metadata: &mut Metadata, target: Stamp, sel: TagSelection)
    requires
        tags::sound(*old(metadata)),
        target.valid(),
    ensures
        tags::sound(*final(metadata)),
        stamp::formatted(target, timeop::EXIF_FMT@) is Some,
        tags::ifds_of(*final(metadata)) == with_times(
            tags::ifds_of(*old(metadata)),
            stamp::formatted(target, timeop::EXIF_FMT@)->0,
            sel,
        ),
        stamp::exif_exact(target) ==> tags::ifds_of(*final(metadata)) == with_times(
            tags::ifds_of(*old(metadata)),
            stamp::exif_text(target),
            sel,
        ),
        tags::carried(*final(metadata)) == tags::carried(*old(metadata)),
{
    let value: String = timeop::format_exif(&target);
    if sel.original {
        tags::put_tag(metadata, &text_tag(1, 0x9003, value.as_str()));
    }
    if sel.digitized {
        tags::put_tag(metadata, &text_tag(1, 0x9004, value.as_str()));
    }
    if sel.modify {
        tags::put_tag(metadata, &text_tag(0, 0x0132, value.as_str()));
    }
}

/// The directories with the offsets from UTC of the selected time fields set.
pub open spec fn with_offsets(s: Seq<tags::IfdInfo>, value: Seq<char>, sel: TagSelection) -> Seq<
    tags::IfdInfo,
> {
    let a = if sel.original {
        tags::with_tag(s, text_info(1, 0x9011, value))
    } else {
        s
    };
    let b = if sel.digitized {
        tags::with_tag(a, text_info(1, 0x9012, value))
    } else {
        a
    };
    if sel.modify {
        tags::with_tag(b, text_info(1, 0x9010, value))
    } else {
        b
    }
}

/// Writes an offset from UTC beside the selected time fields.
pub fn apply_offset_time(metadata: &mut Metadata, offset: &str, sel: TagSelection)
    requires
        tags::sound(*old(metadata)),
    ensures
        tags::sound(*final(metadata)),
        tags::ifds_of(*final(metadata)) == with_offsets(tags::ifds_of(*old(metadata)), offset@, sel),
        tags::carried(*final(metadata)) == tags::carried(*old(metadata)),
{
    if sel.original {
        tags::put_tag(metadata, &text_tag(1, 0x9011, offset));
    }
    if sel.digitized {
        tags::put_tag(metadata, &text_tag(1, 0x9012, offset));
    }
    if sel.modify {
        tags::put_tag(metadata, &text_tag(1, 0x9010, offset));
    }
}

/// What the bytes of a text say, without zeros at the end and white space around.
pub open spec fn clean(data: Seq<u8>) -> Seq<char> {
    text::trimmed(text::without_zeros(text::any_text(data)))
}

pub(crate) fn clean_text(data: &[u8]) -> (s: String)
    ensures
        s@ == clean(data@),
{
    let raw: String = text::utf8_lossy_text(data);
    let cs: Vec<char> = text::chars_of(raw.as_str());
    text::text_of(text::trim_chars(text::drop_zeros(cs.as_slice())))
}

/// The text of a tag, if it is there and not empty.
pub open spec fn field_text(s: Seq<tags::IfdInfo>, group: u8, hex: u16) -> Option<Seq<char>> {
    match tags::first_tag(s, group, hex) {
        Some(t) => if clean(t.data).len() > 0 {
            Some(clean(t.data))
        } else {
            None
        },
        None => None,
    }
}

/// When the picture was taken: the original time, else that of digitising, else that of the last
/// change.
pub open spec fn capture_time(s: Seq<tags::IfdInfo>) -> Option<Seq<char>> {
    if field_text(s, 1, 0x9003) is Some {
        field_text(s, 1, 0x9003)
    } else if field_text(s, 1, 0x9004) is Some {
        field_text(s, 1, 0x9004)
    } else {
        field_text(s, 0, 0x0132)
    }
}

fn read_field(ifds: &Vec<Ifd>, group: u8, hex: u16) -> (r: Option<String>)
    ensures
        match r {
            Some(s) => field_text(tags::ifds_view(ifds@), group, hex) == Some(s@),
            None => field_text(tags::ifds_view(ifds@), group, hex) is None,
        },
{
    match tags::find_tag(ifds, group, hex) {
        Some(t) => {
            let s: String = clean_text(t.data.as_slice());
            let empty: bool = text::same_text(s.as_str(), "");
            proof {
                reveal_strlit("");
                assert(empty == (s@.len() == 0)) by {
                    assert(s@.len() == 0 ==> s@ =~= ""@);
                }
            }
            if empty {
                None
            } else {
                Some(s)
            }
        },
        None => None,
    }
}

/// Reads when the picture was taken.
pub fn read_capture_time(metadata: &Metadata) -> (r: Option<String>)
    ensures
        match r {
            Some(s) => capture_time(tags::ifds_of(*metadata)) == Some(s@),
            None => capture_time(tags::ifds_of(*metadata)) is None,
        },
{
    let ifds: Vec<Ifd> = tags::list_ifds(metadata);
    let original: Option<String> = read_field(&ifds, 1, 0x9003);
    if original.is_some() {
        return original;
    }
    let digitized: Option<String> = read_field(&ifds, 1, 0x9004);
    if digitized.is_some() {
        return digitized;
    }
    read_field(&ifds, 0, 0x0132)
}

/// Whether a text survives being stored in a tag and read again: it is not empty and has neither
/// white space around it nor zeros at its end.
pub open spec fn storable(value: Seq<char>) -> bool {
    value.len() > 0 && text::trimmed(value) == value && value.last() != '\0'
}

/// What a text tag holds can be read again.
pub proof fn text_tag_reads_back(group: u8, hex: u16, value: Seq<char>)
    requires
        storable(value),
    ensures
        clean(text_info(group, hex, value).data) == value,
{
    text::lemma_zero_ended(value);
    assert(text::without_zeros(value) == value);
    let z = value.push('\0');
    assert(z.drop_last() =~= value);
    assert(text::without_zeros(z) == value);
}

/// A capture time that was written is the one that is read.
pub proof fn written_time_reads_back(s: Seq<tags::IfdInfo>, value: Seq<char>, sel: TagSelection)
    requires
        tags::ifds_ok(s),
        storable(value),
        sel.original || (sel.digitized && field_text(s, 1, 0x9003) is None) || (sel.modify && field_text(
            s,
            1,
            0x9003,
        ) is None && field_text(s, 1, 0x9004) is None),
    ensures
        capture_time(with_times(s, value, sel)) == Some(value),
{
    let o = text_info(1, 0x9003, value);
    let d = text_info(1, 0x9004, value);
    let m = text_info(0, 0x0132, value);
    text_tag_reads_back(1, 0x9003, value);
    let a = if sel.original {
        tags::with_tag(s, o)
    } else {
        s
    };
    let b = if sel.digitized {
        tags::with_tag(a, d)
    } else {
        a
    };
    if sel.original {
        tags::set_tag_is_found(s, o);
        tags::set_tag_keeps_others(s, o, 1, 0x9004);
    }
    if sel.digitized {
        tags::set_tag_is_found(a, d);
        tags::set_tag_keeps_others(a, d, 1, 0x9003);
    }
    if sel.modify {
        tags::set_tag_is_found(b, m);
        tags::set_tag_keeps_others(b, m, 1, 0x9003);
        tags::set_tag_keeps_others(b, m, 1, 0x9004);
    }
}

/// Fields that were not selected, and all other tags, keep their values.
pub proof fn time_write_keeps_others(
    s: Seq<tags::IfdInfo>,
    value: Seq<char>,
    sel: TagSelection,
    group: u8,
    hex: u16,
)
    requires
        tags::ifds_ok(s),
        !(sel.original && group == 1 && hex == 0x9003),
        !(sel.digitized && group == 1 && hex == 0x9004),
        !(sel.modify && group == 0 && hex == 0x0132),
    ensures
        tags::first_tag(with_times(s, value, sel), group, hex) == tags::first_tag(s, group, hex),
{
    let o = text_info(1, 0x9003, value);
    let d = text_info(1, 0x9004, value);
    let m = text_info(0, 0x0132, value);
    let a = if sel.original {
        tags::with_tag(s, o)
    } else {
        s
    };
    let b = if sel.digitized {
        tags::with_tag(a, d)
    } else {
        a
    };
    if sel.original {
        tags::set_tag_is_found(s, o);
        tags::set_tag_keeps_others(s, o, group, hex);
    }
    if sel.digitized {
        tags::set_tag_is_found(a, d);
        tags::set_tag_keeps_others(a, d, group, hex);
    }
    if sel.modify {
        tags::set_tag_keeps_others(b, m, group, hex);
    }
}

/// The orientation code of a picture: 1 where none of 1 to 8 is given.
pub open spec fn orientation_of(s: Seq<tags::IfdInfo>) -> u16 {
    match tags::first_tag(s, 0, 0x0112) {
        Some(t) => if t.data.len() >= 2 && 1 <= bytes::le16_at(t.data, 0) <= 8 {
            bytes::le16_at(t.data, 0) as u16
        } else {
            1
        },
        None => 1,
    }
}

/// Reads the orientation code.
pub fn read_orientation(metadata: &Metadata) -> (code: u16)
    ensures
        code == orientation_of(tags::ifds_of(*metadata)),
        1 <= code <= 8,
{
    let ifds: Vec<Ifd> = tags::list_ifds(metadata);
    match tags::find_tag(&ifds, 0, 0x0112) {
        Some(t) => {
            if t.data.len() >= 2 {
                let code: u16 = bytes::read_le16(t.data.as_slice(), 0);
                if 1 <= code && code <= 8 {
                    return code;
                }
            }
            1
        },
        None => 1,
    }
}

/// An orientation that was written is the one that is read.
pub proof fn written_orientation_reads_back(s: Seq<tags::IfdInfo>, code: u16)
    requires
        tags::ifds_ok(s),
        1 <= code <= 8,
    ensures
        orientation_of(tags::with_tag(s, orientation_info(code))) == code,
{
    tags::set_tag_is_found(s, orientation_info(code));
}

// ---- GPS --------------------------------------------------------------------------------

/// An angle as degrees, minutes and seconds.
#[derive(Debug, Clone, Copy, PartialEq, Eq, Structural)]
pub struct Angle {
    pub degrees: Ratio,
    pub minutes: Ratio,
    pub seconds: Ratio,
}

/// A position on the earth.
#[derive(Debug, Clone, Copy, PartialEq, Eq, Structural)]
pub struct Position {
    pub south: bool,
    pub lat: Angle,
    pub west: bool,
    pub lon: Angle,
    pub alt: Option<Altitude>,
}

/// A height over the sea, or a depth under it.
#[derive(Debug, Clone, Copy, PartialEq, Eq, Structural)]
pub struct Altitude {
    pub below: bool,
    pub metres: Ratio,
}

/// A whole number as a fraction.
pub open spec fn whole(n: int) -> Ratio {
    Ratio { num: if n == u32::MAX { 0x7FFF_FFFF } else { n as u32 }, den: 1 }
}

/// An angle given in hundredths of an arc second.
pub open spec fn dms(total: u64) -> Angle {
    Angle {
        degrees: whole(total as int / 360_000 % 0x1_0000_0000),
        minutes: whole(total as int % 360_000 / 6_000),
        seconds: Ratio { num: (total as int % 6_000) as u32, den: 100 },
    }
}

/// Parts an angle, given in hundredths of an arc second, into degrees, minutes and seconds.
pub fn to_dms(total: u64) -> (a: Angle)
    ensures
        a == dms(total),
{
    let d: u32 = (total / 360_000 % 0x1_0000_0000) as u32;
    let m: u32 = (total % 360_000 / 6_000) as u32;
    let cs: u32 = (total % 6_000) as u32;
    Angle { degrees: tags::whole_ratio(d), minutes: tags::whole_ratio(m), seconds: Ratio { num: cs, den: 100 } }
}

/// The parts of an angle make up the angle, and minutes and seconds stay under sixty.
pub proof fn angle_is_its_parts(total: u64)
    requires
        total / 360_000 < u32::MAX,
    ensures
        ({
            let a = dms(total);
            &&& a.degrees.num * 360_000 + a.minutes.num * 6_000 + a.seconds.num == total
            &&& a.minutes.num < 60
            &&& a.seconds.num < 60 * a.seconds.den
            &&& a.degrees.den == 1 && a.minutes.den == 1 && a.seconds.den == 100
        }),
{
    let t = total as int;
    assert(t == t / 360_000 * 360_000 + t % 360_000);
    let r = t % 360_000;
    assert(r == r / 6_000 * 6_000 + r % 6_000);
    assert(r % 6_000 == t % 6_000) by (nonlinear_arith)
        requires
            r == t - t / 360_000 * 360_000,
    {
        let q = t / 360_000;
        assert(t == r + (q * 60) * 6_000);
    }
}

/// The bytes of a fraction.
pub open spec fn ratio_bytes(r: Ratio) -> Seq<u8> {
    bytes::le32_bytes(r.num as int) + bytes::le32_bytes(r.den as int)
}

/// The bytes of an angle.
pub open spec fn angle_bytes(a: Angle) -> Seq<u8> {
    ratio_bytes(a.degrees) + ratio_bytes(a.minutes) + ratio_bytes(a.seconds)
}

/// A GPS tag that is not text.
pub open spec fn gps_info(hex: u16, format: u16, data: Seq<u8>) -> tags::TagInfo {
    tags::TagInfo { group: 3, hex, format, unknown: false, data }
}

/// The letter of a latitude.
pub open spec fn lat_letter(p: Position) -> Seq<char> {
    if p.south {
        "S"@
    } else {
        "N"@
    }
}

/// The letter of a longitude.
pub open spec fn lon_letter(p: Position) -> Seq<char> {
    if p.west {
        "W"@
    } else {
        "E"@
    }
}

/// The GPS tags of a position, in the order in which they are set.
pub open spec fn position_tags(p: Position) -> Seq<tags::TagInfo> {
    seq![
        gps_info(0, tags::INT8U, seq![2u8, 3, 0, 0]),
        text_info(3, 1, lat_letter(p)),
        gps_info(2, tags::RATIONAL64U, angle_bytes(p.lat)),
        text_info(3, 3, lon_letter(p)),
        gps_info(4, tags::RATIONAL64U, angle_bytes(p.lon)),
    ] + match p.alt {
        Some(a) => seq![
            gps_info(5, tags::INT8U, seq![if a.below { 1u8 } else { 0u8 }]),
            gps_info(6, tags::RATIONAL64U, ratio_bytes(a.metres)),
        ],
        None => Seq::empty(),
    }
}

fn append_ratio(v: &mut Vec<u8>, r: Ratio)
    ensures
        final(v)@ == old(v)@ + ratio_bytes(r),
{
    bytes::append_le32(v, r.num);
    bytes::append_le32(v, r.den);
    assert(v@ =~= old(v)@ + ratio_bytes(r));
}

fn angle_tag(hex: u16, a: Angle) -> (t: Tag)
    ensures
        t@ == gps_info(hex, tags::RATIONAL64U, angle_bytes(a)),
        t@.data.len() == 24,
{
    let mut data: Vec<u8> = Vec::new();
    append_ratio(&mut data, a.degrees);
    append_ratio(&mut data, a.minutes);
    append_ratio(&mut data, a.seconds);
    assert(data@ =~= angle_bytes(a));
    Tag { group: 3, hex, format: tags::RATIONAL64U, unknown: false, data }
}

/// Whether all these tags can be set.
pub open spec fn all_settable(v: Seq<tags::TagInfo>) -> bool {
    forall|i: int| 0 <= i < v.len() ==> tags::settable(#[trigger] v[i])
}

/// Makes the GPS tags of a position.
pub fn gps_tags(p: Position) -> (v: Vec<Tag>)
    ensures
        tags::tags_view(v@) == position_tags(p),
        all_settable(tags::tags_view(v@)),
{
    let mut v: Vec<Tag> = Vec::new();
    let version: Vec<u8> = vec![2, 3, 0, 0];
    assert(version@ =~= seq![2u8, 3, 0, 0]);
    let north: &str = if p.south {
        "S"
    } else {
        "N"
    };
    let east: &str = if p.west {
        "W"
    } else {
        "E"
    };
    v.push(Tag { group: 3, hex: 0, format: tags::INT8U, unknown: false, data: version });
    v.push(text_tag(3, 1, north));
    v.push(angle_tag(2, p.lat));
    v.push(text_tag(3, 3, east));
    v.push(angle_tag(4, p.lon));
    if let Some(a) = p.alt {
        let side: Vec<u8> = vec![
            if a.below {
                1u8
            } else {
                0u8
            },
        ];
        assert(side@ =~= seq![if a.below { 1u8 } else { 0u8 }]);
        v.push(Tag { group: 3, hex: 5, format: tags::INT8U, unknown: false, data: side });
        let mut metres: Vec<u8> = Vec::new();
        append_ratio(&mut metres, a.metres);
        assert(metres@ =~= ratio_bytes(a.metres));
        v.push(Tag { group: 3, hex: 6, format: tags::RATIONAL64U, unknown: false, data: metres });
    }
    assert(tags::tags_view(v@) =~= position_tags(p));
    v
}

/// The directories with tags set one after the other.
pub open spec fn with_tags(s: Seq<tags::IfdInfo>, v: Seq<tags::TagInfo>) -> Seq<tags::IfdInfo>
    decreases v.len(),
{
    if v.len() == 0 {
        s
    } else {
        tags::with_tag(with_tags(s, v.drop_last()), v.last())
    }
}

/// Sets tags one after the other.
pub fn set_tags(metadata: &mut Metadata, v: &Vec<Tag>)
    requires
        tags::sound(*old(metadata)),
        all_settable(tags::tags_view(v@)),
    ensures
        tags::sound(*final(metadata)),
        tags::ifds_of(*final(metadata)) == with_tags(tags::ifds_of(*old(metadata)), tags::tags_view(v@)),
        tags::carried(*final(metadata)) == tags::carried(*old(metadata)),
{
    let ghost all = tags::tags_view(v@);
    let ghost s = tags::ifds_of(*metadata);
    let mut i: usize = 0;
    assert(all.take(0) =~= Seq::empty());
    while i < v.len()
        invariant
            i <= v.len(),
            all == tags::tags_view(v@),
            all_settable(all),
            tags::sound(*metadata),
            tags::ifds_of(*metadata) == with_tags(s, all.take(i as int)),
            tags::carried(*metadata) == tags::carried(*old(metadata)),
        decreases v.len() - i,
    {
        assert(all[i as int] == v@[i as int]@);
        tags::put_tag(metadata, &v[i]);
        assert(all.take(i + 1).drop_last() =~= all.take(i as int));
        i += 1;
    }
    assert(all.take(i as int) =~= all);
}

/// The fraction at `i` in the bytes of a tag.
pub open spec fn ratio_at(data: Seq<u8>, i: int) -> Ratio {
    Ratio { num: bytes::le32_at(data, 8 * i) as u32, den: bytes::le32_at(data, 8 * i + 4) as u32 }
}

/// The angle in the bytes of a tag, if there are three fractions.
pub open spec fn angle_of(t: Option<tags::TagInfo>) -> Option<Angle> {
    match t {
        Some(t) => if t.data.len() >= 24 {
            Some(
                Angle {
                    degrees: ratio_at(t.data, 0),
                    minutes: ratio_at(t.data, 1),
                    seconds: ratio_at(t.data, 2),
                },
            )
        } else {
            None
        },
        None => None,
    }
}

/// Whether the text of a tag begins with a letter.
pub open spec fn begins(t: Option<tags::TagInfo>, c: char) -> bool {
    t is Some && clean((t->0).data).len() > 0 && clean((t->0).data)[0] == c
}

/// The position that the GPS tags give.
pub open spec fn position_of(s: Seq<tags::IfdInfo>) -> Option<Position> {
    match (angle_of(tags::first_tag(s, 3, 2)), angle_of(tags::first_tag(s, 3, 4))) {
        (Some(lat), Some(lon)) => Some(
            Position {
                south: begins(tags::first_tag(s, 3, 1), 'S'),
                lat,
                west: begins(tags::first_tag(s, 3, 3), 'W'),
                lon,
                alt: match tags::first_tag(s, 3, 6) {
                    Some(t) => if t.data.len() >= 8 {
                        Some(
                            Altitude {
                                below: match tags::first_tag(s, 3, 5) {
                                    Some(side) => side.data.len() > 0 && side.data[0] == 1,
                                    None => false,
                                },
                                metres: ratio_at(t.data, 0),
                            },
                        )
                    } else {
                        None
                    },
                    None => None,
                },
            },
        ),
        _ => None,
    }
}

fn read_ratio(data: &Vec<u8>, i: usize) -> (r: Ratio)
    requires
        i <= 2,
        8 * i + 8 <= data.len(),
    ensures
        r == ratio_at(data@, i as int),
{
    Ratio { num: bytes::read_le32(data.as_slice(), 8 * i), den: bytes::read_le32(data.as_slice(), 8 * i + 4) }
}

fn read_angle(ifds: &Vec<Ifd>, hex: u16) -> (r: Option<Angle>)
    ensures
        r == angle_of(tags::first_tag(tags::ifds_view(ifds@), 3, hex)),
{
    match tags::find_tag(ifds, 3, hex) {
        Some(t) => if t.data.len() >= 24 {
            Some(
                Angle {
                    degrees: read_ratio(&t.data, 0),
                    minutes: read_ratio(&t.data, 1),
                    seconds: read_ratio(&t.data, 2),
                },
            )
        } else {
            None
        },
        None => None,
    }
}

fn tag_begins(ifds: &Vec<Ifd>, hex: u16, c: char) -> (r: bool)
    ensures
        r == begins(tags::first_tag(tags::ifds_view(ifds@), 3, hex), c),
{
    match tags::find_tag(ifds, 3, hex) {
        Some(t) => {
            let s: String = clean_text(t.data.as_slice());
            let cs: Vec<char> = text::chars_of(s.as_str());
            cs.len() > 0 && cs[0] == c
        },
        None => false,
    }
}

/// Reads the position that the GPS tags give.
pub fn read_gps(metadata: &Metadata) -> (r: Option<Position>)
    ensures
        r == position_of(tags::ifds_of(*metadata)),
{
    let ifds: Vec<Ifd> = tags::list_ifds(metadata);
    match (read_angle(&ifds, 2), read_angle(&ifds, 4)) {
        (Some(lat), Some(lon)) => {
            let alt: Option<Altitude> = match tags::find_tag(&ifds, 3, 6) {
                Some(t) => if t.data.len() >= 8 {
                    let below: bool = match tags::find_tag(&ifds, 3, 5) {
                        Some(side) => side.data.len() > 0 && side.data[0] == 1,
                        None => false,
                    };
                    Some(Altitude { below, metres: read_ratio(&t.data, 0) })
                } else {
                    None
                },
                None => None,
            };
            Some(
                Position {
                    south: tag_begins(&ifds, 1, 'S'),
                    lat,
                    west: tag_begins(&ifds, 3, 'W'),
                    lon,
                    alt,
                },
            )
        },
        _ => None,
    }
}

/// The last of these tags with this group and number.
pub open spec fn last_set(v: Seq<tags::TagInfo>, group: u8, hex: u16) -> Option<tags::TagInfo>
    decreases v.len(),
{
    if v.len() == 0 {
        None
    } else if v.last().group == group && v.last().hex == hex {
        Some(v.last())
    } else {
        last_set(v.drop_last(), group, hex)
    }
}

/// After tags were set, each is found as it was set last, and all others are as they were.
pub proof fn set_tags_are_found(s: Seq<tags::IfdInfo>, v: Seq<tags::TagInfo>, group: u8, hex: u16)
    requires
        tags::ifds_ok(s),
        forall|i: int| 0 <= i < v.len() ==> (#[trigger] v[i]).group <= 3,
    ensures
        tags::ifds_ok(with_tags(s, v)),
        tags::first_tag(with_tags(s, v), group, hex) == (if last_set(v, group, hex) is Some {
            last_set(v, group, hex)
        } else {
            tags::first_tag(s, group, hex)
        }),
    decreases v.len(),
{
    if v.len() > 0 {
        assert forall|i: int| 0 <= i < v.drop_last().len() implies (#[trigger] v.drop_last()[i]).group
            <= 3 by {
            assert(v.drop_last()[i] == v[i]);
        }
        assert(v[v.len() - 1].group <= 3);
        set_tags_are_found(s, v.drop_last(), group, hex);
        let before = with_tags(s, v.drop_last());
        tags::set_tag_is_found(before, v.last());
        if v.last().group != group || v.last().hex != hex {
            tags::set_tag_keeps_others(before, v.last(), group, hex);
        }
    }
}

proof fn lemma_ratio_reads_back(r: Ratio, before: Seq<u8>, after: Seq<u8>)
    requires
        before.len() % 8 == 0,
    ensures
        ratio_at(before + ratio_bytes(r) + after, before.len() as int / 8) == r,
{
    let all = before + ratio_bytes(r) + after;
    let n = before.len() as int;
    bytes::lemma_le32_round_trip(r.num as int);
    bytes::lemma_le32_round_trip(r.den as int);
    assert(8 * (n / 8) == n);
    let a = bytes::le32_bytes(r.num as int);
    let b = bytes::le32_bytes(r.den as int);
    assert(all[n] == a[0] && all[n + 1] == a[1] && all[n + 2] == a[2] && all[n + 3] == a[3]);
    assert(all[n + 4] == b[0] && all[n + 5] == b[1] && all[n + 6] == b[2] && all[n + 7] == b[3]);
}

proof fn lemma_angle_reads_back(a: Angle, hex: u16)
    ensures
        angle_of(Some(gps_info(hex, tags::RATIONAL64U, angle_bytes(a)))) == Some(a),
{
    let d = angle_bytes(a);
    let none = Seq::<u8>::empty();
    lemma_ratio_reads_back(a.degrees, none, ratio_bytes(a.minutes) + ratio_bytes(a.seconds));
    assert(none + ratio_bytes(a.degrees) + (ratio_bytes(a.minutes) + ratio_bytes(a.seconds)) =~= d);
    lemma_ratio_reads_back(a.minutes, ratio_bytes(a.degrees), ratio_bytes(a.seconds));
    let two = ratio_bytes(a.degrees) + ratio_bytes(a.minutes);
    lemma_ratio_reads_back(a.seconds, two, none);
    assert(two + ratio_bytes(a.seconds) + none =~= d);
}

proof fn lemma_letter_reads_back(letter: Seq<char>)
    requires
        letter.len() == 1,
        !text::is_space(letter[0]),
        letter[0] != '\0',
    ensures
        storable(letter),
{
    reveal_with_fuel(text::trimmed_front, 2);
    reveal_with_fuel(text::trimmed_back, 2);
}

#[verifier::spinoff_prover]
#[verifier::rlimit(40)]
proof fn lemma_position_set(p: Position)
    ensures
        ({
            let v = position_tags(p);
            &&& last_set(v, 3, 1) == Some(text_info(3, 1, lat_letter(p)))
            &&& last_set(v, 3, 2) == Some(gps_info(2, tags::RATIONAL64U, angle_bytes(p.lat)))
            &&& last_set(v, 3, 3) == Some(text_info(3, 3, lon_letter(p)))
            &&& last_set(v, 3, 4) == Some(gps_info(4, tags::RATIONAL64U, angle_bytes(p.lon)))
            &&& match p.alt {
                Some(a) => last_set(v, 3, 5) == Some(
                    gps_info(5, tags::INT8U, seq![if a.below { 1u8 } else { 0u8 }]),
                ) && last_set(v, 3, 6) == Some(gps_info(6, tags::RATIONAL64U, ratio_bytes(a.metres))),
                None => last_set(v, 3, 6) is None,
            }
            &&& forall|i: int| 0 <= i < v.len() ==> (#[trigger] v[i]).group <= 3
        }),
{
    let v = position_tags(p);
    let first = seq![
        gps_info(0, tags::INT8U, seq![2u8, 3, 0, 0]),
        text_info(3, 1, lat_letter(p)),
        gps_info(2, tags::RATIONAL64U, angle_bytes(p.lat)),
        text_info(3, 3, lon_letter(p)),
        gps_info(4, tags::RATIONAL64U, angle_bytes(p.lon)),
    ];
    lemma_last_of_five(first);
    match p.alt {
        Some(a) => {
            let side = gps_info(5, tags::INT8U, seq![if a.below { 1u8 } else { 0u8 }]);
            let metres = gps_info(6, tags::RATIONAL64U, ratio_bytes(a.metres));
            assert(v =~= first.push(side).push(metres));
            assert(v.drop_last() =~= first.push(side));
            assert(first.push(side).drop_last() =~= first);
            assert forall|hex: u16| hex < 5 implies #[trigger] last_set(v, 3, hex) == last_set(first, 3, hex) by {
                assert(last_set(v, 3, hex) == last_set(v.drop_last(), 3, hex));
            }
            assert(last_set(v, 3, 5) == last_set(v.drop_last(), 3, 5));
        },
        None => {
            assert(v =~= first);
        },
    }
}

proof fn lemma_last_of_five(v: Seq<tags::TagInfo>)
    requires
        v.len() == 5,
        forall|i: int| 0 <= i < 5 ==> (#[trigger] v[i]).group == 3 && v[i].hex == i,
    ensures
        forall|hex: u16| hex < 5 ==> #[trigger] last_set(v, 3, hex) == Some(v[hex as int]),
        last_set(v, 3, 6) is None,
{
    let a = v.drop_last();
    let b = a.drop_last();
    let c = b.drop_last();
    let d = c.drop_last();
    assert(d.drop_last() =~= Seq::empty());
    assert(v[0].hex == 0 && v[1].hex == 1 && v[2].hex == 2 && v[3].hex == 3 && v[4].hex == 4);
    assert forall|hex: u16| hex < 5 || hex == 6 implies #[trigger] last_set(v, 3, hex) == (if hex < 5 {
        Some(v[hex as int])
    } else {
        None
    }) by {
        assert(last_set(d.drop_last(), 3, hex) is None);
        assert(last_set(d, 3, hex) == (if hex == 0 {
            Some(v[0])
        } else {
            None
        }));
        assert(last_set(c, 3, hex) == (if hex == 1 {
            Some(v[1])
        } else {
            last_set(d, 3, hex)
        }));
        assert(last_set(b, 3, hex) == (if hex == 2 {
            Some(v[2])
        } else {
            last_set(c, 3, hex)
        }));
        assert(last_set(a, 3, hex) == (if hex == 3 {
            Some(v[3])
        } else {
            last_set(b, 3, hex)
        }));
    }
}

proof fn lemma_letters(p: Position)
    ensures
        begins(Some(text_info(3, 1, lat_letter(p))), 'S') == p.south,
        begins(Some(text_info(3, 3, lon_letter(p))), 'W') == p.west,
{
    reveal_strlit("S");
    reveal_strlit("N");
    reveal_strlit("W");
    reveal_strlit("E");
    lemma_letter_reads_back(lat_letter(p));
    lemma_letter_reads_back(lon_letter(p));
    text_tag_reads_back(3, 1, lat_letter(p));
    text_tag_reads_back(3, 3, lon_letter(p));
}

proof fn lemma_altitude(a: Altitude)
    ensures
        ({
            let t = gps_info(6, tags::RATIONAL64U, ratio_bytes(a.metres));
            t.data.len() == 8 && ratio_at(t.data, 0) == a.metres
        }),
{
    let none = Seq::<u8>::empty();
    lemma_ratio_reads_back(a.metres, none, none);
    assert(none + ratio_bytes(a.metres) + none =~= ratio_bytes(a.metres));
}

proof fn lemma_position_found(t: Seq<tags::IfdInfo>, p: Position)
    requires
        tags::first_tag(t, 3, 1) == Some(text_info(3, 1, lat_letter(p))),
        tags::first_tag(t, 3, 2) == Some(gps_info(2, tags::RATIONAL64U, angle_bytes(p.lat))),
        tags::first_tag(t, 3, 3) == Some(text_info(3, 3, lon_letter(p))),
        tags::first_tag(t, 3, 4) == Some(gps_info(4, tags::RATIONAL64U, angle_bytes(p.lon))),
        match p.alt {
            Some(a) => tags::first_tag(t, 3, 5) == Some(
                gps_info(5, tags::INT8U, seq![if a.below { 1u8 } else { 0u8 }]),
            ) && tags::first_tag(t, 3, 6) == Some(gps_info(6, tags::RATIONAL64U, ratio_bytes(a.metres))),
            None => tags::first_tag(t, 3, 6) is None,
        },
    ensures
        position_of(t) == Some(p),
{
    lemma_letters(p);
    lemma_angle_reads_back(p.lat, 2);
    lemma_angle_reads_back(p.lon, 4);
    if let Some(a) = p.alt {
        lemma_altitude(a);
    }
}

/// A position that was written is the one that is read. A position without a height leaves the
/// height that was there.
pub proof fn written_position_reads_back(s: Seq<tags::IfdInfo>, p: Position)
    requires
        tags::ifds_ok(s),
        p.alt is Some || tags::first_tag(s, 3, 6) is None,
    ensures
        position_of(with_tags(s, position_tags(p))) == Some(p),
{
    let v = position_tags(p);
    lemma_position_set(p);
    set_tags_are_found(s, v, 3, 1);
    set_tags_are_found(s, v, 3, 2);
    set_tags_are_found(s, v, 3, 3);
    set_tags_are_found(s, v, 3, 4);
    set_tags_are_found(s, v, 3, 5);
    set_tags_are_found(s, v, 3, 6);
    lemma_position_found(with_tags(s, v), p);
}

/// The directories after the first `n` numbers were taken out of the GPS directories.
pub open spec fn without_gps_numbers(s: Seq<tags::IfdInfo>, n: int) -> Seq<tags::IfdInfo>
    decreases n,
{
    if n <= 0 {
        s
    } else {
        tags::without_tag(without_gps_numbers(s, n - 1), (n - 1) as u16, 3)
    }
}

/// The directories without GPS tags and without the link to them.
pub open spec fn without_gps(s: Seq<tags::IfdInfo>) -> Seq<tags::IfdInfo> {
    tags::without_tag(without_gps_numbers(s, 32), 0x8825, 0)
}

/// How many removals that takes.
pub open spec fn gps_removals(s: Seq<tags::IfdInfo>) -> int {
    32 * tags::looked_into(s, 3, s.len() as int) + tags::looked_into(s, 0, s.len() as int)
}

proof fn lemma_without_gps_numbers(s: Seq<tags::IfdInfo>, n: int)
    requires
        0 <= n <= 32,
    ensures
        ({
            let c = without_gps_numbers(s, n);
            &&& c.len() == s.len()
            &&& forall|group: u8|
                tags::looked_into(c, group, c.len() as int) == #[trigger] tags::looked_into(
                    s,
                    group,
                    s.len() as int,
                )
            &&& forall|group: u8| tags::within_images(c, group) == #[trigger] tags::within_images(s, group)
        }),
    decreases n,
{
    if n > 0 {
        lemma_without_gps_numbers(s, n - 1);
        let before = without_gps_numbers(s, n - 1);
        tags::removal_keeps_ifds(before, (n - 1) as u16, 3);
        let c = without_gps_numbers(s, n);
        assert forall|group: u8| tags::looked_into(c, group, c.len() as int) == #[trigger] tags::looked_into(
            s,
            group,
            s.len() as int,
        ) by {
            assert(tags::looked_into(before, group, before.len() as int) == tags::looked_into(
                s,
                group,
                s.len() as int,
            ));
        }
        assert forall|group: u8| tags::within_images(c, group) == #[trigger] tags::within_images(s, group) by {
            assert(tags::within_images(before, group) == tags::within_images(s, group));
        }
    }
}

/// Removes all GPS tags, and counts the removals.
pub fn remove_gps(metadata: &mut Metadata) -> (removed: usize)
    requires
        tags::sound(*old(metadata)),
    ensures
        tags::sound(*final(metadata)),
        tags::ifds_of(*final(metadata)) == without_gps(tags::ifds_of(*old(metadata))),
        tags::carried(*final(metadata)) == tags::carried(*old(metadata)),
        removed == (if gps_removals(tags::ifds_of(*old(metadata))) <= usize::MAX {
            gps_removals(tags::ifds_of(*old(metadata)))
        } else {
            usize::MAX as int
        }),
{
    let ghost s = tags::ifds_of(*metadata);
    let ghost each = tags::looked_into(s, 3, s.len() as int);
    proof {
        tags::lemma_looked_into(s, 3, s.len() as int);
    }
    let mut removed: usize = 0;
    let mut hex: u16 = 0;
    while hex <= 0x1f
        invariant
            0 <= hex <= 32,
            tags::sound(*metadata),
            tags::ifds_of(*metadata) == without_gps_numbers(s, hex as int),
            tags::carried(*metadata) == tags::carried(*old(metadata)),
            each == tags::looked_into(s, 3, s.len() as int),
            each >= 0,
            removed == (if hex * each <= usize::MAX {
                hex * each
            } else {
                usize::MAX as int
            }),
        decreases 32 - hex,
    {
        proof {
            lemma_without_gps_numbers(s, hex as int);
            assert((hex + 1) * each == hex * each + each) by (nonlinear_arith);
            assert(hex * each >= 0) by (nonlinear_arith)
                requires
                    each >= 0,
            ;
        }
        let n: usize = tags::drop_tag(metadata, hex, tags::GPS);
        assert(n == each);
        removed = removed.saturating_add(n);
        hex += 1;
    }
    proof {
        lemma_without_gps_numbers(s, 32);
    }
    removed.saturating_add(tags::drop_tag(metadata, 0x8825, tags::GENERIC))
}

proof fn lemma_gps_number_gone(s: Seq<tags::IfdInfo>, n: int, hex: u16)
    requires
        0 <= n <= 32,
        tags::within_images(s, 3),
    ensures
        hex < n ==> tags::first_tag(without_gps_numbers(s, n), 3, hex) is None,
    decreases n,
{
    if n > 0 {
        let before = without_gps_numbers(s, n - 1);
        lemma_without_gps_numbers(s, n - 1);
        assert(tags::within_images(s, 3));
        if hex == n - 1 {
            tags::removed_tag_is_gone(before, hex, 3);
        } else {
            lemma_gps_number_gone(s, n - 1, hex);
            tags::removal_keeps_others(before, (n - 1) as u16, 3, 3, hex);
        }
    }
}

proof fn lemma_gps_numbers_ok(s: Seq<tags::IfdInfo>, n: int)
    requires
        tags::ifds_ok(s),
    ensures
        tags::ifds_ok(without_gps_numbers(s, n)),
    decreases n,
{
    if n > 0 {
        lemma_gps_numbers_ok(s, n - 1);
        tags::removal_keeps_ifds(without_gps_numbers(s, n - 1), (n - 1) as u16, 3);
    }
}

/// Directories stay in order without GPS tags.
pub(crate) proof fn lemma_without_gps(s: Seq<tags::IfdInfo>)
    requires
        tags::ifds_ok(s),
    ensures
        tags::ifds_ok(without_gps(s)),
{
    lemma_gps_numbers_ok(s, 32);
    tags::removal_keeps_ifds(without_gps_numbers(s, 32), 0x8825, 0);
}

/// The tags of a position are GPS tags.
pub(crate) proof fn lemma_position_groups(p: Position)
    ensures
        forall|i: int| 0 <= i < position_tags(p).len() ==> (#[trigger] position_tags(p)[i]).group == 3,
{
}

/// After GPS tags were removed, none of them is found, and there is no position.
pub proof fn removed_gps_is_gone(s: Seq<tags::IfdInfo>, hex: u16)
    requires
        tags::within_images(s, 3),
        hex < 32,
    ensures
        tags::first_tag(without_gps(s), 3, hex) is None,
        position_of(without_gps(s)) is None,
{
    lemma_gps_number_gone(s, 32, hex);
    lemma_gps_number_gone(s, 32, 2);
    tags::removal_keeps_others(without_gps_numbers(s, 32), 0x8825, 0, 3, hex);
    tags::removal_keeps_others(without_gps_numbers(s, 32), 0x8825, 0, 3, 2);
}

proof fn lemma_gps_numbers_keep(s: Seq<tags::IfdInfo>, n: int, group: u8, hex: u16)
    requires
        0 <= n <= 32,
        group != 3 || hex >= 32,
    ensures
        tags::first_tag(without_gps_numbers(s, n), group, hex) == tags::first_tag(s, group, hex),
    decreases n,
{
    if n > 0 {
        lemma_gps_numbers_keep(s, n - 1, group, hex);
        tags::removal_keeps_others(without_gps_numbers(s, n - 1), (n - 1) as u16, 3, group, hex);
    }
}

/// Removing GPS tags leaves all other tags as they were.
pub proof fn gps_removal_keeps_others(s: Seq<tags::IfdInfo>, group: u8, hex: u16)
    requires
        group != 3 || hex >= 32,
        group != 0 || hex != 0x8825,
    ensures
        tags::first_tag(without_gps(s), group, hex) == tags::first_tag(s, group, hex),
{
    lemma_gps_numbers_keep(s, 32, group, hex);
    tags::removal_keeps_others(without_gps_numbers(s, 32), 0x8825, 0, group, hex);
}

// ---- copying ----------------------------------------------------------------------------

/// Whether a number is that of a time field.
pub open spec fn time_number(hex: u16) -> bool {
    hex == 0x0132 || hex == 0x9003 || hex == 0x9004 || hex == 0x9010 || hex == 0x9011 || hex == 0x9012 || hex
        == 0x9290 || hex == 0x9291 || hex == 0x9292
}

/// Whether a tag is a link to another directory.
pub open spec fn is_link(t: tags::TagInfo) -> bool {
    !t.unknown && ((t.group == 0 && (t.hex == 0x8769 || t.hex == 0x8825)) || (t.group == 1 && t.hex
        == 0xa005))
}

/// Whether a number belongs to the stored picture itself: its size, layout and orientation.
pub open spec fn picture_number(hex: u16) -> bool {
    hex == 0x0100 || hex == 0x0101 || hex == 0x0102 || hex == 0x0103 || hex == 0x0106 || hex == 0x0112 || hex
        == 0x0115 || hex == 0x0116 || hex == 0x011c || hex == 0xa002 || hex == 0xa003
}

/// Whether a tag holds parts of the picture or of its thumbnail.
pub open spec fn is_picture_data(t: tags::TagInfo) -> bool {
    !t.unknown && (t.hex == 0x0111 || t.hex == 0x0117 || t.hex == 0x0201 || t.hex == 0x0202)
}

/// Whether a tag is copied.
pub open spec fn is_taken(t: tags::TagInfo, all: bool, time: bool, gps: bool) -> bool {
    if all {
        !is_link(t) && !is_picture_data(t) && !picture_number(t.hex)
    } else {
        (time && time_number(t.hex)) || (gps && t.group == 3)
    }
}

/// The tags among these that are copied, in their order.
pub open spec fn taken(v: Seq<tags::TagInfo>, all: bool, time: bool, gps: bool) -> Seq<tags::TagInfo>
    decreases v.len(),
{
    if v.len() == 0 {
        v
    } else if is_taken(v.last(), all, time, gps) {
        taken(v.drop_last(), all, time, gps).push(v.last())
    } else {
        taken(v.drop_last(), all, time, gps)
    }
}

/// The tags of all directories, one after the other.
pub open spec fn all_tags(s: Seq<tags::IfdInfo>) -> Seq<tags::TagInfo>
    decreases s.len(),
{
    if s.len() == 0 {
        Seq::empty()
    } else {
        all_tags(s.drop_last()) + s.last().tags
    }
}

/// What is copied from directories.
pub open spec fn copied(s: Seq<tags::IfdInfo>, all: bool, time: bool, gps: bool) -> Seq<tags::TagInfo> {
    taken(all_tags(s), all, time, gps)
}

fn is_time_tag(hex: u16) -> (r: bool)
    ensures
        r == time_number(hex),
{
    hex == 0x0132 || hex == 0x9003 || hex == 0x9004 || hex == 0x9010 || hex == 0x9011 || hex == 0x9012 || hex
        == 0x9290 || hex == 0x9291 || hex == 0x9292
}

pub(crate) fn is_link_tag(t: &Tag) -> (r: bool)
    ensures
        r == is_link(t@),
{
    !t.unknown && ((t.group == 0 && (t.hex == 0x8769 || t.hex == 0x8825)) || (t.group == 1 && t.hex
        == 0xa005))
}

/// Whether a tag is copied together with all others: links, picture data and what belongs to the
/// stored picture stay behind.
fn copyable_in_all(t: &Tag) -> (r: bool)
    ensures
        r == is_taken(t@, true, false, false),
{
    let data: bool = !t.unknown && (t.hex == 0x0111 || t.hex == 0x0117 || t.hex == 0x0201 || t.hex == 0x0202);
    let picture: bool = t.hex == 0x0100 || t.hex == 0x0101 || t.hex == 0x0102 || t.hex == 0x0103 || t.hex
        == 0x0106 || t.hex == 0x0112 || t.hex == 0x0115 || t.hex == 0x0116 || t.hex == 0x011c || t.hex
        == 0xa002 || t.hex == 0xa003;
    !is_link_tag(t) && !data && !picture
}

/// The number of items, or the largest number where they are more.
pub open spec fn counted(n: nat) -> int {
    if n <= usize::MAX {
        n as int
    } else {
        usize::MAX as int
    }
}

proof fn lemma_with_tags_push(s: Seq<tags::IfdInfo>, v: Seq<tags::TagInfo>, t: tags::TagInfo)
    ensures
        with_tags(s, v.push(t)) == tags::with_tag(with_tags(s, v), t),
{
    assert(v.push(t).drop_last() =~= v);
}

/// Whether no tag among these is of a number that holds image data.
pub open spec fn without_image(v: Seq<tags::TagInfo>) -> bool
    decreases v.len(),
{
    v.len() == 0 || (!tags::holds_image(v.last().hex) && without_image(v.drop_last()))
}

/// Copies the tags of one kind, or all that can be copied, and counts them.
pub fn copy_tags(from: &Metadata, to: &mut Metadata, all: bool, time: bool, gps: bool) -> (count: usize)
    requires
        tags::sound(*old(to)),
    ensures
        tags::sound(*final(to)),
        tags::ifds_of(*final(to)) == with_tags(
            tags::ifds_of(*old(to)),
            copied(tags::ifds_of(*from), all, time, gps),
        ),
        count == counted(copied(tags::ifds_of(*from), all, time, gps).len()),
        without_image(copied(tags::ifds_of(*from), all, time, gps)) ==> tags::carried(*final(to))
            == tags::carried(*old(to)),
{
    let ifds: Vec<Ifd> = tags::list_ifds(from);
    let ghost s = tags::ifds_view(ifds@);
    let ghost start = tags::ifds_of(*to);
    let mut count: usize = 0;
    let mut i: usize = 0;
    assert(s.take(0) =~= Seq::empty());
    while i < ifds.len()
        invariant
            i <= ifds.len(),
            s == tags::ifds_view(ifds@),
            s == tags::ifds_of(*from),
            tags::tags_ok(s),
            tags::sound(*to),
            tags::ifds_of(*to) == with_tags(start, copied(s.take(i as int), all, time, gps)),
            count == counted(copied(s.take(i as int), all, time, gps).len()),
            without_image(copied(s.take(i as int), all, time, gps)) ==> tags::carried(*to) == tags::carried(
                *old(to),
            ),
        decreases ifds.len() - i,
    {
        let ghost before = all_tags(s.take(i as int));
        let ghost here = tags::tags_view(ifds@[i as int].tags@);
        assert(s[i as int] == ifds@[i as int]@);
        let mut j: usize = 0;
        assert(before + here.take(0) =~= before);
        while j < ifds[i as usize].tags.len()
            invariant
                i < ifds.len(),
                j <= ifds@[i as int].tags@.len(),
                s == tags::ifds_view(ifds@),
                s == tags::ifds_of(*from),
                here == tags::tags_view(ifds@[i as int].tags@),
                s[i as int].tags == here,
                tags::tags_ok(s),
                tags::sound(*to),
                tags::ifds_of(*to) == with_tags(start, taken(before + here.take(j as int), all, time, gps)),
                count == counted(taken(before + here.take(j as int), all, time, gps).len()),
                without_image(taken(before + here.take(j as int), all, time, gps)) ==> tags::carried(*to)
                    == tags::carried(*old(to)),
            decreases ifds@[i as int].tags@.len() - j,
        {
            let t: &Tag = &ifds[i].tags[j];
            assert(here[j as int] == t@);
            proof {
                let sofar = before + here.take(j as int);
                let next = before + here.take(j + 1);
                assert(next.drop_last() =~= sofar);
                assert(next.last() == t@);
                lemma_with_tags_push(start, taken(sofar, all, time, gps), t@);
                assert(taken(sofar, all, time, gps).push(t@).drop_last() =~= taken(sofar, all, time, gps));
            }
            let take: bool = if all {
                copyable_in_all(t)
            } else {
                (time && is_time_tag(t.hex)) || (gps && t.group == tags::GPS)
            };
            assert(s[i as int].tags[j as int].group <= 3);
            if take {
                tags::bring_tag(from, i, j, to);
                count = count.saturating_add(1);
            }
            j += 1;
        }
        proof {
            assert(here.take(j as int) =~= here);
            assert(s.take(i + 1).drop_last() =~= s.take(i as int));
            assert(all_tags(s.take(i + 1)) == before + here);
        }
        i += 1;
    }
    assert(s.take(i as int) =~= s);
    count
}

pub(crate) proof fn lemma_taken(v: Seq<tags::TagInfo>, all: bool, time: bool, gps: bool)
    ensures
        forall|i: int|
            0 <= i < taken(v, all, time, gps).len() ==> v.contains(#[trigger] taken(v, all, time, gps)[i])
                && is_taken(taken(v, all, time, gps)[i], all, time, gps),
    decreases v.len(),
{
    if v.len() > 0 {
        lemma_taken(v.drop_last(), all, time, gps);
        let front = taken(v.drop_last(), all, time, gps);
        let r = taken(v, all, time, gps);
        assert forall|i: int| 0 <= i < r.len() implies v.contains(#[trigger] r[i]) && is_taken(
            r[i],
            all,
            time,
            gps,
        ) by {
            if i < front.len() {
                assert(r[i] == front[i]);
                let k = choose|k: int| 0 <= k < v.drop_last().len() && v.drop_last()[k] == front[i];
                assert(v[k] == r[i]);
            } else {
                assert(v[v.len() - 1] == r[i]);
            }
        }
    }
}

pub(crate) proof fn lemma_all_tags(s: Seq<tags::IfdInfo>)
    requires
        tags::tags_ok(s),
    ensures
        forall|i: int| 0 <= i < all_tags(s).len() ==> (#[trigger] all_tags(s)[i]).group <= 3,
    decreases s.len(),
{
    if s.len() > 0 {
        assert forall|i: int, j: int|
            0 <= i < s.drop_last().len() && 0 <= j < s.drop_last()[i].tags.len() implies (
        #[trigger] s.drop_last()[i].tags[j]).group <= 3 by {
            assert(s[i].tags[j].group <= 3);
        }
        lemma_all_tags(s.drop_last());
        let front = all_tags(s.drop_last());
        assert forall|i: int| 0 <= i < all_tags(s).len() implies (#[trigger] all_tags(s)[i]).group <= 3 by {
            if i < front.len() {
                assert(all_tags(s)[i] == front[i]);
            } else {
                assert(all_tags(s)[i] == s[s.len() - 1].tags[i - front.len()]);
            }
        }
    }
}

pub(crate) proof fn lemma_not_set(v: Seq<tags::TagInfo>, group: u8, hex: u16)
    requires
        forall|i: int| 0 <= i < v.len() ==> !((#[trigger] v[i]).group == group && v[i].hex == hex),
    ensures
        last_set(v, group, hex) is None,
    decreases v.len(),
{
    if v.len() > 0 {
        assert(!(v[v.len() - 1].group == group && v[v.len() - 1].hex == hex));
        assert forall|i: int| 0 <= i < v.drop_last().len() implies !((#[trigger] v.drop_last()[i]).group
            == group && v.drop_last()[i].hex == hex) by {
            assert(v.drop_last()[i] == v[i]);
        }
        lemma_not_set(v.drop_last(), group, hex);
    }
}

/// A copy changes only what it may: times with `time`, GPS with `gps`, and with `all` nothing
/// that belongs to the stored picture.
pub proof fn copy_keeps_others(
    from: Seq<tags::IfdInfo>,
    to: Seq<tags::IfdInfo>,
    all: bool,
    time: bool,
    gps: bool,
    group: u8,
    hex: u16,
)
    requires
        tags::ifds_ok(to),
        tags::tags_ok(from),
        all ==> picture_number(hex),
        !all && time ==> !time_number(hex),
        !all && gps ==> group != 3,
    ensures
        tags::first_tag(with_tags(to, copied(from, all, time, gps)), group, hex) == tags::first_tag(
            to,
            group,
            hex,
        ),
{
    let v = copied(from, all, time, gps);
    lemma_all_tags(from);
    lemma_taken(all_tags(from), all, time, gps);
    assert forall|i: int| 0 <= i < v.len() implies (#[trigger] v[i]).group <= 3 && !(v[i].group == group
        && v[i].hex == hex) by {
        assert(is_taken(v[i], all, time, gps));
        let k = choose|k: int| 0 <= k < all_tags(from).len() && all_tags(from)[k] == v[i];
        assert(all_tags(from)[k].group <= 3);
    }
    lemma_not_set(v, group, hex);
    set_tags_are_found(to, v, group, hex);
}

// ---- files ------------------------------------------------------------------------------

/// The hint for a kind of file that has no place for metadata.
pub open spec fn hint_for(extension: Seq<char>) -> Option<Seq<char>> {
    let e = text::lowered(extension);
    if e == "bmp"@ {
        Some("BMP 无元数据容器，建议先转成 PNG 再处理"@)
    } else if e == "gif"@ {
        Some("GIF 不支持元数据编辑，建议先转成 PNG 再处理"@)
    } else {
        None
    }
}

/// A hint for the user where a file of this extension has no place for metadata.
pub fn unsupported_hint(extension: &str) -> (r: Option<String>)
    ensures
        match r {
            Some(s) => hint_for(extension@) == Some(s@),
            None => hint_for(extension@) is None,
        },
{
    let cs: Vec<char> = text::chars_of(extension);
    let e: Vec<char> = text::lower_chars(cs.as_slice());
    if text::is_text(e.as_slice(), "bmp") {
        Some(text::copy_text("BMP 无元数据容器，建议先转成 PNG 再处理"))
    } else if text::is_text(e.as_slice(), "gif") {
        Some(text::copy_text("GIF 不支持元数据编辑，建议先转成 PNG 再处理"))
    } else {
        None
    }
}

/// The name of a file's backup.
pub fn backup_path(file_name: &str) -> (s: String)
    ensures
        s@ == file_name@ + ".bak"@,
{
    let mut s: String = text::copy_text(file_name);
    s.append(".bak");
    s
}

/// The name of the file that a new version is written to before it takes the place of the old.
pub fn temporary_name(file_name: &str) -> (s: String)
    ensures
        s@ == "."@ + file_name@ + ".pkick.tmp"@,
{
    let mut s: String = text::copy_text(".");
    s.append(file_name);
    s.append(".pkick.tmp");
    s
}

/// Whether this metadata and an image of this extension are such as can be handed to `little_exif`.
pub open spec fn can_encode(m: Metadata, image: Seq<u8>, extension: Seq<char>) -> bool {
    &&& tags::encodable(tags::ifds_of(m), tags::image_sizes(m))
    &&& tags::exif_bytes(tags::ifds_of(m), tags::carried(m)) matches Ok(data) && intake::can_take(
        image,
        extension,
        data.len(),
    )
}

/// What writing this metadata into an image of this extension gives, or why it cannot be written:
/// because of a tag, because of the image, or for a reason that `little_exif` gives.
pub open spec fn written_image(m: Metadata, image: Seq<u8>, extension: Seq<char>) -> Result<Seq<u8>, Seq<char>> {
    let ifds = tags::ifds_of(m);
    let along = tags::carried(m);
    if !tags::encodable(ifds, tags::image_sizes(m)) {
        Err("元数据中有无法写入的标签"@)
    } else {
        match tags::exif_bytes(ifds, along) {
            Err(why) => Err(why),
            Ok(data) => if !intake::can_take(image, extension, data.len()) {
                Err("图片结构异常或 EXIF 数据过大"@)
            } else {
                tags::image_with(ifds, along, image, extension)
            },
        }
    }
}

/// Writes metadata into the bytes of an image of this extension. The error is the message for the
/// user; the bytes are then not to be used, but for an image that is refused at the start, which
/// stays as it is.
pub fn encode_metadata(metadata: &Metadata, image: &mut Vec<u8>, extension: &str) -> (r: Result<(), String>)
    ensures
        match (r, written_image(*metadata, old(image)@, extension@)) {
            (Ok(()), Ok(b)) => final(image)@ == b,
            (Err(e), Err(why)) => e@ == "编码元数据失败："@ + why,
            _ => false,
        },
        !can_encode(*metadata, old(image)@, extension@) ==> r is Err && final(image)@ == old(image)@,
        r is Ok && intake::is_jpeg_name(extension@) && jpeg::plain_jpeg(old(image)@) ==> (tags::exif_bytes(
            tags::ifds_of(*metadata),
            tags::carried(*metadata),
        ) matches Ok(data) && data.len() + 8 <= 0xFFFF && final(image)@ == jpeg::with_exif(old(image)@, data)),
        r is Ok && intake::is_png_name(extension@) && final(image)@.len() <= 0xFFFF_FFFF ==> png::pixels_of(
            final(image)@,
        ) == png::pixels_of(old(image)@),
        can_encode(*metadata, old(image)@, extension@) && intake::is_jxl_name(extension@) ==> (tags::exif_bytes(
            tags::ifds_of(*metadata),
            tags::carried(*metadata),
        ) matches Ok(data) && match jxl::with_exif(old(image)@, data) {
            Some(b) => r is Ok && final(image)@ == b,
            None => r is Err,
        }),
        r is Ok && intake::is_webp_name(extension@) && webp::denies_exif(old(image)@) ==> (tags::exif_bytes(
            tags::ifds_of(*metadata),
            tags::carried(*metadata),
        ) matches Ok(data) && webp::gains_exif(old(image)@, final(image)@, data)),
{
    proof {
        if intake::is_jxl_name(extension@) {
            intake::lemma_jxl_name(extension@);
        }
    }
    let why: String = if !tags::is_encodable(metadata) {
        text::copy_text("元数据中有无法写入的标签")
    } else {
        match tags::exif_data(metadata) {
            Ok(data) => {
                if !intake::takes(image.as_slice(), extension, data.len()) {
                    text::copy_text("图片结构异常或 EXIF 数据过大")
                } else {
                    match tags::write_metadata(metadata, image, extension) {
                        Ok(()) => {
                            return Ok(());
                        },
                        Err(why) => why,
                    }
                }
            },
            Err(why) => why,
        }
    };
    let mut e: String = text::copy_text("编码元数据失败：");
    e.append(why.as_str());
    Err(e)
}

/// What taking the metadata out of an image of this extension gives, or why it cannot be done:
/// because of the image, or for a reason that `little_exif` gives.
pub open spec fn stripped_image(image: Seq<u8>, extension: Seq<char>) -> Result<Seq<u8>, Seq<char>> {
    if intake::is_tiff_name(extension) || !intake::can_take(image, extension, 0) {
        Err("图片结构异常"@)
    } else {
        tags::image_without(image, extension)
    }
}

/// Takes all metadata out of the bytes of an image of this extension, which is not that of a
/// TIFF. The error is the message for the user; the bytes are then not to be used, but for an image
/// that is refused at the start, which stays as it is.
pub fn strip_metadata(image: &mut Vec<u8>, extension: &str) -> (r: Result<(), String>)
    ensures
        match (r, stripped_image(old(image)@, extension@)) {
            (Ok(()), Ok(b)) => final(image)@ == b,
            (Err(e), Err(why)) => e@ == "清除元数据失败："@ + why,
            _ => false,
        },
        intake::is_tiff_name(extension@) || !intake::can_take(old(image)@, extension@, 0) ==> r is Err
            && final(image)@ == old(image)@,
        r is Ok && intake::is_jpeg_name(extension@) && jpeg::plain_jpeg(old(image)@) ==> final(image)@
            == jpeg::without_exif(old(image)@),
        r is Ok && intake::is_png_name(extension@) && final(image)@.len() <= 0xFFFF_FFFF ==> png::pixels_of(
            final(image)@,
        ) == png::pixels_of(old(image)@),
        intake::is_jxl_name(extension@) ==> r is Ok == (intake::jxl_taken(old(image)@) && jxl::is_container(
            old(image)@,
        )) && (r is Ok ==> final(image)@ == jxl::without_exif(old(image)@)),
        r is Ok && intake::is_webp_name(extension@) && webp::denies_exif(old(image)@) ==> final(image)@
            == old(image)@,
{
    proof {
        if intake::is_jxl_name(extension@) {
            intake::lemma_jxl_name(extension@);
        }
    }
    let why: String = if intake::names_tiff(extension) || !intake::takes(image.as_slice(), extension, 0) {
        text::copy_text("图片结构异常")
    } else {
        match tags::clear_metadata(image, extension) {
            Ok(()) => {
                return Ok(());
            },
            Err(why) => why,
        }
    };
    let mut e: String = text::copy_text("清除元数据失败：");
    e.append(why.as_str());
    Err(e)
}

/// EXIF, XMP and IPTC do not disturb each other in a JPEG with a plain header: writing EXIF, or
/// taking it out, leaves the picture itself, the XMP packet and the IPTC data as they were.
pub proof fn exif_leaves_the_others(b: Seq<u8>, data: Seq<u8>)
    requires
        jpeg::plain_jpeg(b),
        data.len() + 8 <= 0xFFFF,
    ensures
        jpeg::picture_of(jpeg::with_exif(b, data)) == jpeg::picture_of(b),
        xmp::packet_of(jpeg::with_exif(b, data)) == xmp::packet_of(b),
        iptc::datasets_of(jpeg::with_exif(b, data)) == iptc::datasets_of(b),
        jpeg::picture_of(jpeg::without_exif(b)) == jpeg::picture_of(b),
        xmp::packet_of(jpeg::without_exif(b)) == xmp::packet_of(b),
        iptc::datasets_of(jpeg::without_exif(b)) == iptc::datasets_of(b),
{
    assert(jpeg::exif_signature()[0] != xmp::xmp_signature()[0]);
    jpeg::exif_write_keeps_the_rest(b, data, xmp::APP1, xmp::xmp_signature());
    jpeg::exif_write_keeps_the_rest(b, data, iptc::APP13, iptc::ps_signature());
    jpeg::exif_removal_keeps_the_rest(b, xmp::APP1, xmp::xmp_signature());
    jpeg::exif_removal_keeps_the_rest(b, iptc::APP13, iptc::ps_signature());
}

} // verus!
