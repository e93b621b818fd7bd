//! JPEG header segments: walking them, finding one by marker and signature,
//! and writing one without disturbing the others.

use vstd::prelude::*;
use crate::bytes;

verus! {

/// Whether the bytes start with the JPEG start-of-image marker.
pub open spec fn is_jpeg_bytes(b: Seq<u8>) -> bool {
    b.len() >= 2 && b[0] == 0xFF && b[1] == 0xD8
}

/// Markers that stand alone, without a length field.
pub open spec fn standalone(marker: u8) -> bool {
    marker == 0xD8 || marker == 0xD9 || 0xD0 <= marker <= 0xD7 || marker == 0x01
}

/// Markers whose segment carries a length and belongs to the header.
pub open spec fn sized(marker: u8) -> bool {
    !standalone(marker) && marker != 0xDA
}

/// Markers of application segments.
pub open spec fn is_app(marker: u8) -> bool {
    0xE0 <= marker <= 0xEF
}

/// Where the segment at `i` ends, or `None` if the walk through the header stops at `i`:
/// too few bytes, no marker, the start of scan, or a length that does not fit.
pub open spec fn segment_end(b: Seq<u8>, i: int) -> Option<int> {
    if i < 0 || i + 3 >= b.len() || b[i] != 0xFF {
        None
    } else if standalone(b[i + 1]) {
        Some(i + 2)
    } else if b[i + 1] == 0xDA || bytes::be16_at(b, i + 2) < 2 || i + 2 + bytes::be16_at(b, i + 2) > b.len() {
        None
    } else {
        Some(i + 2 + bytes::be16_at(b, i + 2))
    }
}

/// The payload of the segment at `i`, without marker and length.
pub open spec fn payload(b: Seq<u8>, i: int) -> Seq<u8> {
    b.subrange(i + 4, i + 2 + bytes::be16_at(b, i + 2))
}

/// Whether the segment at `i` has the given marker and its payload begins with `sig`.
pub open spec fn carries(b: Seq<u8>, i: int, marker: u8, sig: Seq<u8>) -> bool {
    b[i + 1] == marker && bytes::begins_with(payload(b, i), sig)
}

/// The first segment at or after `i` with this marker and signature.
pub open spec fn segment_from(b: Seq<u8>, i: int, marker: u8, sig: Seq<u8>) -> Option<int>
    decreases b.len() - i,
{
    match segment_end(b, i) {
        None => None,
        Some(end) => if carries(b, i, marker, sig) {
            Some(i)
        } else {
            segment_from(b, end, marker, sig)
        },
    }
}

/// The first segment of a JPEG with this marker and signature.
pub open spec fn segment_of(b: Seq<u8>, marker: u8, sig: Seq<u8>) -> Option<int> {
    if is_jpeg_bytes(b) {
        segment_from(b, 2, marker, sig)
    } else {
        None
    }
}

/// Where the run of application segments that begins at `i` ends.
pub open spec fn app_run_end(b: Seq<u8>, i: int) -> int
    decreases b.len() - i,
{
    match segment_end(b, i) {
        Some(end) if is_app(b[i + 1]) => app_run_end(b, end),
        _ => i,
    }
}

/// Where a new metadata segment goes: behind the leading application segments.
pub open spec fn insert_position(b: Seq<u8>) -> int {
    if is_jpeg_bytes(b) {
        app_run_end(b, 2)
    } else if b.len() < 2 {
        b.len() as int
    } else {
        2
    }
}

/// The bytes of a segment with this marker and content.
pub open spec fn segment_bytes(marker: u8, content: Seq<u8>) -> Seq<u8> {
    seq![0xFFu8, marker] + bytes::be16_bytes((content.len() + 2) as int) + content
}

/// Where a segment of this marker and signature is written: at the first one there is, or
/// behind the leading application segments.
pub open spec fn place_start(b: Seq<u8>, marker: u8, sig: Seq<u8>) -> int {
    match segment_of(b, marker, sig) {
        Some(i) => i,
        None => insert_position(b),
    }
}

/// Where the bytes that such a write replaces end.
pub open spec fn place_end(b: Seq<u8>, marker: u8, sig: Seq<u8>) -> int {
    match segment_of(b, marker, sig) {
        Some(i) => segment_end(b, i)->0,
        None => insert_position(b),
    }
}

/// `b` with its first segment of this marker and signature replaced by one that holds
/// `sig + body`, or with that segment added behind the leading application segments.
pub open spec fn with_segment(b: Seq<u8>, marker: u8, sig: Seq<u8>, body: Seq<u8>) -> Seq<u8> {
    bytes::spliced(
        b,
        place_start(b, marker, sig),
        place_end(b, marker, sig),
        segment_bytes(marker, sig + body),
    )
}

/// `b` without its first segment of this marker and signature.
pub open spec fn without_segment(b: Seq<u8>, marker: u8, sig: Seq<u8>) -> Seq<u8> {
    bytes::spliced(b, place_start(b, marker, sig), place_end(b, marker, sig), Seq::empty())
}

/// What follows the signature in the first segment of this marker and signature.
pub open spec fn segment_body(b: Seq<u8>, marker: u8, sig: Seq<u8>) -> Option<Seq<u8>> {
    match segment_of(b, marker, sig) {
        Some(i) => Some(payload(b, i).subrange(sig.len() as int, payload(b, i).len() as int)),
        None => None,
    }
}

/// The walk from `i` arrives at `at` without meeting a segment of this marker and signature.
pub open spec fn reaches(b: Seq<u8>, i: int, at: int, marker: u8, sig: Seq<u8>) -> bool
    decreases b.len() - i,
{
    i == at || (i < at && match segment_end(b, i) {
        None => false,
        Some(end) => !carries(b, i, marker, sig) && reaches(b, end, at, marker, sig),
    })
}

proof fn lemma_found(b: Seq<u8>, i: int, marker: u8, sig: Seq<u8>)
    requires
        sized(marker),
        0 <= i,
    ensures
        match segment_from(b, i, marker, sig) {
            Some(p) => i <= p && segment_end(b, p) is Some && p + 4 <= segment_end(b, p)->0 <= b.len()
                && segment_end(b, p)->0 == p + 2 + bytes::be16_at(b, p + 2) && carries(b, p, marker, sig)
                && p + 4 + sig.len() <= segment_end(b, p)->0 && reaches(b, i, p, marker, sig),
            None => true,
        },
    decreases b.len() - i,
{
    match segment_end(b, i) {
        None => {},
        Some(end) => {
            if !carries(b, i, marker, sig) {
                lemma_found(b, end, marker, sig);
            }
        },
    }
}

proof fn lemma_reaches_from(b: Seq<u8>, i: int, at: int, marker: u8, sig: Seq<u8>)
    requires
        reaches(b, i, at, marker, sig),
    ensures
        segment_from(b, i, marker, sig) == segment_from(b, at, marker, sig),
    decreases b.len() - i,
{
    if i != at {
        lemma_reaches_from(b, segment_end(b, i)->0, at, marker, sig);
    }
}

proof fn lemma_reaches_bound(b: Seq<u8>, i: int, at: int, marker: u8, sig: Seq<u8>)
    requires
        reaches(b, i, at, marker, sig),
    ensures
        i <= at,
{
}

/// A walk that arrives at `at` does so in any bytes that agree up to `at` and go on behind it.
proof fn lemma_reaches_frame(b: Seq<u8>, c: Seq<u8>, i: int, at: int, marker: u8, sig: Seq<u8>)
    requires
        sized(marker),
        0 <= i,
        reaches(b, i, at, marker, sig),
        at <= b.len(),
        at + 2 <= c.len(),
        forall|k: int| 0 <= k < at ==> b[k] == c[k],
    ensures
        reaches(c, i, at, marker, sig),
    decreases b.len() - i,
{
    if i != at {
        let end = segment_end(b, i)->0;
        lemma_reaches_bound(b, end, at, marker, sig);
        lemma_reaches_frame(b, c, end, at, marker, sig);
        if sized(b[i + 1]) {
            assert(payload(b, i) =~= payload(c, i));
        }
    }
}

/// The leading application segments end inside the bytes, and if none of them is of this
/// marker and signature the walk arrives at their end.
proof fn lemma_app_run(b: Seq<u8>, i: int, marker: u8, sig: Seq<u8>)
    requires
        sized(marker),
        0 <= i <= b.len(),
    ensures
        i <= app_run_end(b, i) <= b.len(),
        segment_from(b, i, marker, sig) is None ==> reaches(b, i, app_run_end(b, i), marker, sig),
    decreases b.len() - i,
{
    match segment_end(b, i) {
        Some(end) => {
            if is_app(b[i + 1]) {
                lemma_app_run(b, end, marker, sig);
            }
        },
        None => {},
    }
}

/// Where a write begins and ends: within the bytes, behind the start of the image.
pub(crate) proof fn lemma_places(b: Seq<u8>, marker: u8, sig: Seq<u8>)
    requires
        sized(marker),
        is_jpeg_bytes(b),
    ensures
        2 <= place_start(b, marker, sig) <= place_end(b, marker, sig) <= b.len(),
{
    lemma_found(b, 2, marker, sig);
    lemma_app_run(b, 2, marker, sig);
}

/// A segment written at `at` is found there.
proof fn lemma_segment_here(c: Seq<u8>, at: int, marker: u8, content: Seq<u8>, sig: Seq<u8>)
    requires
        sized(marker),
        0 <= at,
        content.len() + 2 <= 0xFFFF,
        at + 4 + content.len() <= c.len(),
        c.subrange(at, at + 4 + content.len()) == segment_bytes(marker, content),
        bytes::begins_with(content, sig),
    ensures
        segment_end(c, at) == Some(at + 4 + content.len()),
        payload(c, at) == content,
        segment_from(c, at, marker, sig) == Some(at),
{
    let seg = segment_bytes(marker, content);
    let n = (content.len() + 2) as int;
    bytes::lemma_be16_round_trip(n);
    assert(forall|k: int| 0 <= k < seg.len() ==> c[at + k] == #[trigger] seg[k]) by {
        let cut = c.subrange(at, at + 4 + content.len());
        assert(forall|k: int| 0 <= k < cut.len() ==> #[trigger] cut[k] == c[at + k]);
    }
    assert(seg[0] == 0xFF && seg[1] == marker);
    assert(seg[2] == bytes::be16_bytes(n)[0] && seg[3] == bytes::be16_bytes(n)[1]);
    assert(c[at + 0] == seg[0] && c[at + 1] == seg[1] && c[at + 2] == seg[2] && c[at + 3] == seg[3]);
    assert(payload(c, at) =~= content) by {
        assert forall|k: int| 0 <= k < content.len() implies payload(c, at)[k] == content[k] by {
            assert(seg[4 + k] == content[k]);
            assert(c[at + (4 + k)] == seg[4 + k]);
        }
    }
}

/// What a segment write does, in one place: the segment is where `place_start` says, and a
/// search finds it there.
proof fn lemma_with_segment(b: Seq<u8>, marker: u8, sig: Seq<u8>, body: Seq<u8>)
    requires
        is_jpeg_bytes(b),
        sized(marker),
        sig.len() + body.len() + 2 <= 0xFFFF,
    ensures
        ({
            let c = with_segment(b, marker, sig, body);
            let at = place_start(b, marker, sig);
            &&& is_jpeg_bytes(c)
            &&& 2 <= at <= place_end(b, marker, sig) <= b.len()
            &&& reaches(b, 2, at, marker, sig)
            &&& at + 4 <= c.len()
            &&& forall|k: int| 0 <= k < at ==> b[k] == c[k]
            &&& segment_of(c, marker, sig) == Some(at)
            &&& segment_end(c, at) == Some(at + 4 + sig.len() + body.len())
            &&& segment_bytes(marker, sig + body).len() == 4 + sig.len() + body.len()
            &&& payload(c, at) == sig + body
        }),
{
    let c = with_segment(b, marker, sig, body);
    let content = sig + body;
    lemma_found(b, 2, marker, sig);
    lemma_app_run(b, 2, marker, sig);
    let at = place_start(b, marker, sig);
    let seg = segment_bytes(marker, content);
    assert(c.subrange(at, at + 4 + content.len()) =~= seg);
    assert(bytes::begins_with(content, sig)) by {
        assert(content.subrange(0, sig.len() as int) =~= sig);
    }
    lemma_segment_here(c, at, marker, content, sig);
    lemma_reaches_frame(b, c, 2, at, marker, sig);
    lemma_reaches_from(c, 2, at, marker, sig);
}

/// Replacing a segment that was just written is replacing what stood there before.
proof fn lemma_rewrite(b: Seq<u8>, marker: u8, sig: Seq<u8>, body: Seq<u8>, instead: Seq<u8>)
    requires
        is_jpeg_bytes(b),
        sized(marker),
        sig.len() + body.len() + 2 <= 0xFFFF,
    ensures
        ({
            let c = with_segment(b, marker, sig, body);
            bytes::spliced(c, place_start(c, marker, sig), place_end(c, marker, sig), instead)
                == bytes::spliced(b, place_start(b, marker, sig), place_end(b, marker, sig), instead)
        }),
{
    lemma_with_segment(b, marker, sig, body);
    bytes::lemma_respliced(
        b,
        place_start(b, marker, sig),
        place_end(b, marker, sig),
        segment_bytes(marker, sig + body),
        instead,
    );
}

/// Reading a segment back after writing it gives what was written.
pub proof fn read_back_segment(b: Seq<u8>, marker: u8, sig: Seq<u8>, body: Seq<u8>)
    requires
        is_jpeg_bytes(b),
        sized(marker),
        sig.len() + body.len() + 2 <= 0xFFFF,
    ensures
        is_jpeg_bytes(with_segment(b, marker, sig, body)),
        segment_body(with_segment(b, marker, sig, body), marker, sig) == Some(body),
{
    lemma_with_segment(b, marker, sig, body);
    let content = sig + body;
    assert(content.subrange(sig.len() as int, content.len() as int) =~= body);
}

/// Writing twice is writing the second value.
pub proof fn last_segment_write_wins(b: Seq<u8>, marker: u8, sig: Seq<u8>, first: Seq<u8>, second: Seq<u8>)
    requires
        is_jpeg_bytes(b),
        sized(marker),
        sig.len() + first.len() + 2 <= 0xFFFF,
        sig.len() + second.len() + 2 <= 0xFFFF,
    ensures
        with_segment(with_segment(b, marker, sig, first), marker, sig, second)
            == with_segment(b, marker, sig, second),
{
    lemma_rewrite(b, marker, sig, first, segment_bytes(marker, sig + second));
}

/// Removing a segment that was added to a file without one gives the file back.
pub proof fn remove_undoes_added_segment(b: Seq<u8>, marker: u8, sig: Seq<u8>, body: Seq<u8>)
    requires
        is_jpeg_bytes(b),
        sized(marker),
        sig.len() + body.len() + 2 <= 0xFFFF,
        segment_of(b, marker, sig) is None,
    ensures
        without_segment(with_segment(b, marker, sig, body), marker, sig) == b,
{
    lemma_with_segment(b, marker, sig, body);
    lemma_rewrite(b, marker, sig, body, Seq::empty());
    let at = insert_position(b);
    bytes::lemma_spliced_nothing(b, at);
}

/// Removing after a write is the same as removing without it.
pub proof fn remove_forgets_segment_write(b: Seq<u8>, marker: u8, sig: Seq<u8>, body: Seq<u8>)
    requires
        is_jpeg_bytes(b),
        sized(marker),
        sig.len() + body.len() + 2 <= 0xFFFF,
    ensures
        without_segment(with_segment(b, marker, sig, body), marker, sig) == without_segment(b, marker, sig),
{
    lemma_rewrite(b, marker, sig, body, Seq::empty());
}

/// A write leaves every other segment that stands before it where it was and as it was. With
/// an empty signature and the APP1 marker this is why EXIF stays the first APP1 segment.
pub proof fn earlier_segment_is_kept(
    b: Seq<u8>,
    marker: u8,
    sig: Seq<u8>,
    body: Seq<u8>,
    other: u8,
    other_sig: Seq<u8>,
)
    requires
        is_jpeg_bytes(b),
        sized(marker),
        sized(other),
        sig.len() + body.len() + 2 <= 0xFFFF,
        segment_of(b, other, other_sig) is Some,
        segment_of(b, other, other_sig)->0 < place_start(b, marker, sig),
    ensures
        segment_of(with_segment(b, marker, sig, body), other, other_sig) == segment_of(b, other, other_sig),
        segment_body(with_segment(b, marker, sig, body), other, other_sig)
            == segment_body(b, other, other_sig),
{
    let c = with_segment(b, marker, sig, body);
    lemma_with_segment(b, marker, sig, body);
    lemma_found(b, 2, other, other_sig);
    let p = segment_of(b, other, other_sig)->0;
    let at = place_start(b, marker, sig);
    lemma_segment_before(b, 2, p, at, marker, sig, other, other_sig);
    lemma_reaches_frame(b, c, 2, p, other, other_sig);
    lemma_reaches_from(c, 2, p, other, other_sig);
    assert(payload(b, p) =~= payload(c, p));
}

/// Two walks through the same bytes stop at the same positions: the segment found at `p`
/// ends at or before any position `at` behind it that the other walk arrives at.
proof fn lemma_segment_before(
    b: Seq<u8>,
    i: int,
    p: int,
    at: int,
    marker: u8,
    sig: Seq<u8>,
    other: u8,
    other_sig: Seq<u8>,
)
    requires
        reaches(b, i, at, marker, sig),
        reaches(b, i, p, other, other_sig),
        segment_end(b, p) is Some,
        p < at,
    ensures
        segment_end(b, p)->0 <= at,
    decreases b.len() - i,
{
    lemma_reaches_bound(b, segment_end(b, i)->0, at, marker, sig);
    if i != p {
        lemma_reaches_bound(b, segment_end(b, i)->0, p, other, other_sig);
        lemma_segment_before(b, segment_end(b, i)->0, p, at, marker, sig, other, other_sig);
    }
}

proof fn lemma_reaches_other(
    b: Seq<u8>,
    i: int,
    at: int,
    marker: u8,
    sig: Seq<u8>,
    other: u8,
    other_sig: Seq<u8>,
)
    requires
        sized(other),
        0 <= i,
        reaches(b, i, at, marker, sig),
        match segment_from(b, i, other, other_sig) {
            Some(p) => at <= p,
            None => true,
        },
    ensures
        reaches(b, i, at, other, other_sig),
    decreases b.len() - i,
{
    if i != at {
        lemma_reaches_other(b, segment_end(b, i)->0, at, marker, sig, other, other_sig);
    }
}

/// The walk depends only on the bytes from the current position on.
proof fn lemma_shifted(b: Seq<u8>, i: int, c: Seq<u8>, j: int, marker: u8, sig: Seq<u8>)
    requires
        sized(marker),
        0 <= i,
        0 <= j,
        b.len() - i == c.len() - j,
        forall|k: int| i <= k < b.len() ==> #[trigger] b[k] == c[k - i + j],
    ensures
        match segment_from(b, i, marker, sig) {
            Some(p) => segment_from(c, j, marker, sig) == Some(p - i + j)
                && payload(b, p) == payload(c, p - i + j),
            None => segment_from(c, j, marker, sig) is None,
        },
    decreases b.len() - i,
{
    if i + 3 < b.len() {
        assert(b[i] == c[j] && b[i + 1] == c[j + 1]);
        assert(b[i + 2] == c[j + 2] && b[i + 3] == c[j + 3]);
        match segment_end(b, i) {
            Some(end) => {
                if sized(b[i + 1]) {
                    assert(payload(b, i) =~= payload(c, j));
                }
                assert(carries(b, i, marker, sig) == carries(c, j, marker, sig));
                if !carries(b, i, marker, sig) {
                    lemma_shifted(b, end, c, end - i + j, marker, sig);
                }
            },
            None => {},
        }
    }
}

/// Whether no segment can be both of the one marker and signature and of the other.
pub open spec fn apart(marker: u8, sig: Seq<u8>, other: u8, other_sig: Seq<u8>) -> bool {
    other != marker || exists|k: int| 0 <= k < sig.len() && k < other_sig.len() && #[trigger] sig[k] != other_sig[k]
}

proof fn lemma_apart(b: Seq<u8>, i: int, marker: u8, sig: Seq<u8>, other: u8, other_sig: Seq<u8>)
    requires
        apart(marker, sig, other, other_sig),
        carries(b, i, marker, sig),
    ensures
        !carries(b, i, other, other_sig),
{
    if other == marker && carries(b, i, other, other_sig) {
        let k = choose|k: int| 0 <= k < sig.len() && k < other_sig.len() && #[trigger] sig[k] != other_sig[k];
        let p = payload(b, i);
        assert(p.subrange(0, sig.len() as int)[k] == sig[k]);
        assert(p.subrange(0, other_sig.len() as int)[k] == other_sig[k]);
    }
}

/// Writing a segment leaves what is found under every other marker or signature as it was.
pub proof fn other_segments_are_kept(
    b: Seq<u8>,
    marker: u8,
    sig: Seq<u8>,
    body: Seq<u8>,
    other: u8,
    other_sig: Seq<u8>,
)
    requires
        is_jpeg_bytes(b),
        sized(marker),
        sized(other),
        apart(marker, sig, other, other_sig),
        sig.len() + body.len() + 2 <= 0xFFFF,
    ensures
        segment_body(with_segment(b, marker, sig, body), other, other_sig)
            == segment_body(b, other, other_sig),
{
    let c = with_segment(b, marker, sig, body);
    lemma_with_segment(b, marker, sig, body);
    let at = place_start(b, marker, sig);
    let old_end = place_end(b, marker, sig);
    let new_end = at + 4 + sig.len() + body.len();
    lemma_found(b, 2, other, other_sig);
    if segment_of(b, other, other_sig) is Some && segment_of(b, other, other_sig)->0 < at {
        earlier_segment_is_kept(b, marker, sig, body, other, other_sig);
    } else {
        lemma_reaches_other(b, 2, at, marker, sig, other, other_sig);
        lemma_reaches_from(b, 2, at, other, other_sig);
        lemma_reaches_frame(b, c, 2, at, other, other_sig);
        lemma_reaches_from(c, 2, at, other, other_sig);
        lemma_found(b, 2, marker, sig);
        if segment_of(b, marker, sig) is Some {
            lemma_apart(b, at, marker, sig, other, other_sig);
        }
        assert(segment_from(b, at, other, other_sig) == segment_from(b, old_end, other, other_sig));
        assert(c[at + 1] == marker) by {
            assert(segment_bytes(marker, sig + body)[1] == marker);
        }
        assert(bytes::begins_with(payload(c, at), sig)) by {
            assert((sig + body).subrange(0, sig.len() as int) =~= sig);
        }
        lemma_apart(c, at, marker, sig, other, other_sig);
        assert(segment_from(c, at, other, other_sig) == segment_from(c, new_end, other, other_sig));
        lemma_shifted(b, old_end, c, new_end, other, other_sig);
    }
}

/// Taking a segment out leaves what is found under every other marker or signature as it was.
pub proof fn removal_keeps_other_segments(
    b: Seq<u8>,
    marker: u8,
    sig: Seq<u8>,
    other: u8,
    other_sig: Seq<u8>,
)
    requires
        is_jpeg_bytes(b),
        sized(marker),
        sized(other),
        apart(marker, sig, other, other_sig),
        segment_of(b, marker, sig) is Some,
        segment_of(b, other, other_sig) is Some,
    ensures
        segment_body(without_segment(b, marker, sig), other, other_sig) == segment_body(b, other, other_sig),
{
    let c = without_segment(b, marker, sig);
    let at = place_start(b, marker, sig);
    let old_end = place_end(b, marker, sig);
    lemma_found(b, 2, marker, sig);
    lemma_found(b, 2, other, other_sig);
    let p = segment_of(b, other, other_sig)->0;
    assert(c[0] == b[0] && c[1] == b[1]);
    if p < at {
        lemma_segment_before(b, 2, p, at, marker, sig, other, other_sig);
        lemma_reaches_frame(b, c, 2, p, other, other_sig);
        lemma_reaches_from(c, 2, p, other, other_sig);
        assert(payload(b, p) =~= payload(c, p));
    } else {
        lemma_reaches_other(b, 2, at, marker, sig, other, other_sig);
        lemma_reaches_from(b, 2, at, other, other_sig);
        lemma_apart(b, at, marker, sig, other, other_sig);
        assert(segment_from(b, at, other, other_sig) == segment_from(b, old_end, other, other_sig));
        lemma_found(b, old_end, other, other_sig);
        lemma_reaches_frame(b, c, 2, at, other, other_sig);
        lemma_reaches_from(c, 2, at, other, other_sig);
        lemma_shifted(b, old_end, c, at, other, other_sig);
    }
}

/// What a segment holds behind its signature fits in a segment.
pub proof fn body_fits(b: Seq<u8>, marker: u8, sig: Seq<u8>)
    requires
        sized(marker),
    ensures
        segment_body(b, marker, sig) matches Some(body) ==> sig.len() + body.len() + 2 <= 0xFFFF,
{
    lemma_found(b, 2, marker, sig);
}

proof fn lemma_gone(b: Seq<u8>, c: Seq<u8>, i: int, at: int, end: int, marker: u8, sig: Seq<u8>)
    requires
        sized(marker),
        0 <= i,
        reaches(b, i, at, marker, sig),
        at <= end <= b.len(),
        c.len() == b.len() - (end - at),
        forall|k: int| 0 <= k < at ==> b[k] == c[k],
        forall|k: int| end <= k < b.len() ==> #[trigger] b[k] == c[k - end + at],
        segment_from(b, end, marker, sig) is None,
    ensures
        segment_from(c, i, marker, sig) is None,
    decreases b.len() - i,
{
    if i == at {
        lemma_shifted(b, end, c, at, marker, sig);
    } else {
        let next = segment_end(b, i)->0;
        lemma_reaches_bound(b, next, at, marker, sig);
        lemma_gone(b, c, next, at, end, marker, sig);
        if sized(b[i + 1]) {
            assert(payload(b, i) =~= payload(c, i));
        }
    }
}

/// After the only segment of a marker and signature was taken out, none is found.
pub proof fn removed_segment_is_gone(b: Seq<u8>, marker: u8, sig: Seq<u8>)
    requires
        is_jpeg_bytes(b),
        sized(marker),
        segment_from(b, place_end(b, marker, sig), marker, sig) is None,
    ensures
        segment_of(without_segment(b, marker, sig), marker, sig) is None,
{
    let c = without_segment(b, marker, sig);
    match segment_of(b, marker, sig) {
        Some(at) => {
            lemma_found(b, 2, marker, sig);
            assert(c[0] == b[0] && c[1] == b[1]);
            lemma_gone(b, c, 2, at, place_end(b, marker, sig), marker, sig);
        },
        None => {
            removal_of_nothing(b, marker, sig);
        },
    }
}

/// Taking out a segment that is not there changes nothing.
pub proof fn removal_of_nothing(b: Seq<u8>, marker: u8, sig: Seq<u8>)
    requires
        is_jpeg_bytes(b),
        sized(marker),
        segment_of(b, marker, sig) is None,
    ensures
        without_segment(b, marker, sig) == b,
{
    lemma_app_run(b, 2, marker, sig);
    bytes::lemma_spliced_nothing(b, insert_position(b));
}

/// The picture itself: everything from the first place at or after `i` where the walk through
/// the header stops.
pub open spec fn picture_from(b: Seq<u8>, i: int) -> Seq<u8>
    decreases b.len() - i,
{
    match segment_end(b, i) {
        Some(end) => picture_from(b, end),
        None => b.subrange(i, b.len() as int),
    }
}

/// The picture itself, behind the header.
pub open spec fn picture_of(b: Seq<u8>) -> Seq<u8> {
    picture_from(b, 2)
}

proof fn lemma_reaches_picture(b: Seq<u8>, i: int, at: int, marker: u8, sig: Seq<u8>)
    requires
        reaches(b, i, at, marker, sig),
    ensures
        picture_from(b, i) == picture_from(b, at),
    decreases b.len() - i,
{
    if i != at {
        lemma_reaches_picture(b, segment_end(b, i)->0, at, marker, sig);
    }
}

proof fn lemma_shifted_picture(b: Seq<u8>, i: int, c: Seq<u8>, j: int)
    requires
        0 <= i <= b.len(),
        0 <= j,
        b.len() - i == c.len() - j,
        forall|k: int| i <= k < b.len() ==> #[trigger] b[k] == c[k - i + j],
    ensures
        picture_from(b, i) == picture_from(c, j),
    decreases b.len() - i,
{
    assert(b.subrange(i, b.len() as int) =~= c.subrange(j, c.len() as int));
    if i + 3 < b.len() {
        assert(b[i] == c[j] && b[i + 1] == c[j + 1]);
        assert(b[i + 2] == c[j + 2] && b[i + 3] == c[j + 3]);
        match segment_end(b, i) {
            Some(end) => {
                lemma_shifted_picture(b, end, c, end - i + j);
            },
            None => {},
        }
    }
}

/// Writing a segment leaves the picture itself as it was, byte for byte.
pub proof fn write_keeps_picture(b: Seq<u8>, marker: u8, sig: Seq<u8>, body: Seq<u8>)
    requires
        is_jpeg_bytes(b),
        sized(marker),
        sig.len() + body.len() + 2 <= 0xFFFF,
    ensures
        picture_of(with_segment(b, marker, sig, body)) == picture_of(b),
{
    let c = with_segment(b, marker, sig, body);
    lemma_with_segment(b, marker, sig, body);
    lemma_found(b, 2, marker, sig);
    let at = place_start(b, marker, sig);
    let old_end = place_end(b, marker, sig);
    let new_end = at + 4 + sig.len() + body.len();
    lemma_reaches_frame(b, c, 2, at, marker, sig);
    lemma_reaches_picture(b, 2, at, marker, sig);
    lemma_reaches_picture(c, 2, at, marker, sig);
    assert(picture_from(b, at) == picture_from(b, old_end));
    assert(picture_from(c, at) == picture_from(c, new_end));
    lemma_shifted_picture(b, old_end, c, new_end);
}

/// Taking a segment out leaves the picture itself as it was, byte for byte. At least two bytes
/// follow the segment, as they do wherever there is a picture.
pub proof fn removal_keeps_picture(b: Seq<u8>, marker: u8, sig: Seq<u8>)
    requires
        is_jpeg_bytes(b),
        sized(marker),
        place_end(b, marker, sig) + 2 <= b.len(),
    ensures
        picture_of(without_segment(b, marker, sig)) == picture_of(b),
{
    let c = without_segment(b, marker, sig);
    let at = place_start(b, marker, sig);
    let old_end = place_end(b, marker, sig);
    lemma_found(b, 2, marker, sig);
    lemma_app_run(b, 2, marker, sig);
    lemma_reaches_frame(b, c, 2, at, marker, sig);
    lemma_reaches_picture(b, 2, at, marker, sig);
    lemma_reaches_picture(c, 2, at, marker, sig);
    assert(picture_from(b, at) == picture_from(b, old_end));
    lemma_shifted_picture(b, old_end, c, at);
}

// ---- the EXIF segment -------------------------------------------------------------------

/// The marker of the segment that holds EXIF.
pub const EXIF_MARKER: u8 = 0xE1;

/// The signature of the segment that holds EXIF: `Exif` and two zeros.
pub open spec fn exif_signature() -> Seq<u8> {
    seq![0x45u8, 0x78, 0x69, 0x66, 0x00, 0x00]
}

/// The bytes from `i` on without the header segments of this marker and signature.
pub open spec fn without_all(b: Seq<u8>, i: int, marker: u8, sig: Seq<u8>) -> Seq<u8>
    decreases b.len() - i,
{
    match segment_end(b, i) {
        None => b.subrange(i, b.len() as int),
        Some(end) => if carries(b, i, marker, sig) {
            without_all(b, end, marker, sig)
        } else {
            b.subrange(i, end) + without_all(b, end, marker, sig)
        },
    }
}

/// A JPEG without its EXIF segments.
pub open spec fn without_exif(b: Seq<u8>) -> Seq<u8> {
    b.take(2) + without_all(b, 2, EXIF_MARKER, exif_signature())
}

/// A JPEG with one EXIF segment, right behind the start-of-image marker, in place of those it has.
pub open spec fn with_exif(b: Seq<u8>, exif: Seq<u8>) -> Seq<u8> {
    b.take(2) + segment_bytes(EXIF_MARKER, exif_signature() + exif) + without_all(
        b,
        2,
        EXIF_MARKER,
        exif_signature(),
    )
}

/// Whether a byte behind 0xFF belongs to image data.
pub open spec fn is_data_byte(c: u8) -> bool {
    c == 0 || 0xD0 <= c <= 0xD7
}

/// Whether no EXIF is met from `i` on, up to the end of the image or of the bytes: on the way from
/// segment to segment, by their lengths, and through image data. `scan` says that image data begins
/// at `i`.
pub open spec fn exif_free(b: Seq<u8>, i: int, scan: bool) -> bool
    decreases b.len() - i, if scan { 1int } else { 0int },
{
    if i < 0 || i + 1 >= b.len() {
        true
    } else if b[i] != 0xFF {
        exif_free(b, i + 1, scan)
    } else if scan {
        if is_data_byte(b[i + 1]) {
            exif_free(b, i + 1, true)
        } else {
            exif_free(b, i, false)
        }
    } else if b[i + 1] == 0xD9 || i + 3 >= b.len() {
        true
    } else {
        let next = i + 2 + bytes::be16_at(b, i + 2);
        &&& !(b[i + 1] == EXIF_MARKER && i + 10 <= b.len() && b.subrange(i + 4, i + 10) == exif_signature())
        &&& next >= b.len() || exif_free(b, next, b[i + 1] == 0xDA)
    }
}

/// Bytes that go on alike meet EXIF alike.
proof fn lemma_exif_free(b: Seq<u8>, i: int, c: Seq<u8>, j: int, scan: bool)
    requires
        0 <= i <= b.len(),
        0 <= j <= c.len(),
        b.subrange(i, b.len() as int) == c.subrange(j, c.len() as int),
    ensures
        exif_free(b, i, scan) == exif_free(c, j, scan),
    decreases b.len() - i, if scan { 1int } else { 0int },
{
    let x = b.subrange(i, b.len() as int);
    let y = c.subrange(j, c.len() as int);
    assert(x.len() == b.len() - i && y.len() == c.len() - j);
    if i + 1 < b.len() {
        assert(x[0] == b[i] && x[1] == b[i + 1] && y[0] == c[j] && y[1] == c[j + 1]);
        if b[i] != 0xFF || (scan && is_data_byte(b[i + 1])) {
            assert(b.subrange(i + 1, b.len() as int) =~= x.subrange(1, x.len() as int));
            assert(c.subrange(j + 1, c.len() as int) =~= x.subrange(1, x.len() as int));
            lemma_exif_free(b, i + 1, c, j + 1, scan);
        } else if scan {
            lemma_exif_free(b, i, c, j, false);
        } else if b[i + 1] != 0xD9 && i + 3 < b.len() {
            assert(x[2] == b[i + 2] && x[3] == b[i + 3] && y[2] == c[j + 2] && y[3] == c[j + 3]);
            if i + 10 <= b.len() {
                assert(b.subrange(i + 4, i + 10) =~= x.subrange(4, 10));
                assert(c.subrange(j + 4, j + 10) =~= x.subrange(4, 10));
            }
            let n = 2 + bytes::be16_at(b, i + 2);
            if i + n < b.len() {
                assert(b.subrange(i + n, b.len() as int) =~= x.subrange(n, x.len() as int));
                assert(c.subrange(j + n, c.len() as int) =~= x.subrange(n, x.len() as int));
                lemma_exif_free(b, i + n, c, j + n, b[i + 1] == 0xDA);
            }
        }
    }
}

/// Whether a header goes on from `i` as a plain one: segments with a length that fits, up to the
/// start of scan, behind which no EXIF is met.
pub open spec fn plain_from(b: Seq<u8>, i: int) -> bool
    decreases b.len() - i,
{
    if i < 0 || i + 3 >= b.len() || b[i] != 0xFF {
        false
    } else if b[i + 1] == 0xDA {
        exif_free(b, i, false)
    } else {
        sized(b[i + 1]) && match segment_end(b, i) {
            Some(end) => plain_from(b, end),
            None => false,
        }
    }
}

/// Whether a JPEG has a plain header.
pub open spec fn plain_jpeg(b: Seq<u8>) -> bool {
    is_jpeg_bytes(b) && plain_from(b, 2)
}

/// Without the segments of one marker and signature, the others and the picture are found as
/// before.
proof fn lemma_without_all(
    b: Seq<u8>,
    i: int,
    c: Seq<u8>,
    j: int,
    marker: u8,
    sig: Seq<u8>,
    other: u8,
    other_sig: Seq<u8>,
)
    requires
        sized(marker),
        sized(other),
        apart(marker, sig, other, other_sig),
        plain_from(b, i),
        0 <= j <= c.len(),
        c.subrange(j, c.len() as int) == without_all(b, i, marker, sig),
    ensures
        picture_from(c, j) == picture_from(b, i),
        match segment_from(b, i, other, other_sig) {
            Some(p) => segment_from(c, j, other, other_sig) is Some && payload(
                c,
                segment_from(c, j, other, other_sig)->0,
            ) == payload(b, p),
            None => segment_from(c, j, other, other_sig) is None,
        },
    decreases b.len() - i,
{
    let rest = c.subrange(j, c.len() as int);
    assert(forall|k: int| 0 <= k < rest.len() ==> #[trigger] rest[k] == c[j + k]);
    match segment_end(b, i) {
        None => {
            assert(b[i + 1] == 0xDA);
            assert(rest.len() == b.len() - i);
            assert(rest[0] == b[i] && rest[1] == b[i + 1]);
            assert(segment_end(c, j) is None);
        },
        Some(end) => {
            if carries(b, i, marker, sig) {
                lemma_apart(b, i, marker, sig, other, other_sig);
                lemma_without_all(b, end, c, j, marker, sig, other, other_sig);
            } else {
                let here = b.subrange(i, end);
                let more = without_all(b, end, marker, sig);
                let n = end - i;
                assert(rest == here + more);
                assert(forall|k: int| 0 <= k < n ==> #[trigger] rest[k] == b[i + k]);
                assert(rest[0] == b[i] && rest[1] == b[i + 1] && rest[2] == b[i + 2] && rest[3] == b[i + 3]);
                assert(c[j + 0] == b[i] && c[j + 1] == b[i + 1] && c[j + 2] == b[i + 2] && c[j + 3] == b[i + 3]);
                assert(segment_end(c, j) == Some(j + n));
                assert(payload(c, j) =~= payload(b, i)) by {
                    assert forall|k: int| 0 <= k < payload(b, i).len() implies payload(c, j)[k] == payload(b, i)[k] by {
                        assert(rest[4 + k] == b[i + (4 + k)]);
                    }
                }
                assert(c.subrange(j + n, c.len() as int) =~= more) by {
                    assert forall|k: int| 0 <= k < more.len() implies c.subrange(j + n, c.len() as int)[k] == more[k] by {
                        assert(rest[n + k] == more[k]);
                    }
                }
                lemma_without_all(b, end, c, j + n, marker, sig, other, other_sig);
            }
        },
    }
}

/// Writing EXIF leaves the picture itself as it was, byte for byte, and what is found under every
/// other marker or signature, and is what is found under its own.
pub proof fn exif_write_keeps_the_rest(b: Seq<u8>, exif: Seq<u8>, other: u8, other_sig: Seq<u8>)
    requires
        plain_jpeg(b),
        exif.len() + 8 <= 0xFFFF,
        sized(other),
        apart(EXIF_MARKER, exif_signature(), other, other_sig),
    ensures
        is_jpeg_bytes(with_exif(b, exif)),
        picture_of(with_exif(b, exif)) == picture_of(b),
        segment_body(with_exif(b, exif), other, other_sig) == segment_body(b, other, other_sig),
        segment_body(with_exif(b, exif), EXIF_MARKER, exif_signature()) == Some(exif),
{
    let c = with_exif(b, exif);
    let content = exif_signature() + exif;
    let segment = segment_bytes(EXIF_MARKER, content);
    let n = segment.len();
    assert(c[0] == b[0] && c[1] == b[1]);
    assert(c.subrange(2, (6 + content.len()) as int) =~= segment);
    assert(content.subrange(0, 6) =~= exif_signature());
    assert(content.subrange(6, content.len() as int) =~= exif);
    lemma_segment_here(c, 2, EXIF_MARKER, content, exif_signature());
    let j = (2 + n) as int;
    assert(c.subrange(j, c.len() as int) =~= without_all(b, 2, EXIF_MARKER, exif_signature()));
    assert(carries(c, 2, EXIF_MARKER, exif_signature()));
    lemma_apart(c, 2, EXIF_MARKER, exif_signature(), other, other_sig);
    lemma_without_all(b, 2, c, j, EXIF_MARKER, exif_signature(), other, other_sig);
}

/// Taking EXIF out leaves the picture itself as it was, byte for byte, and what is found under
/// every other marker or signature.
pub proof fn exif_removal_keeps_the_rest(b: Seq<u8>, other: u8, other_sig: Seq<u8>)
    requires
        plain_jpeg(b),
        sized(other),
        apart(EXIF_MARKER, exif_signature(), other, other_sig),
    ensures
        is_jpeg_bytes(without_exif(b)),
        picture_of(without_exif(b)) == picture_of(b),
        segment_body(without_exif(b), other, other_sig) == segment_body(b, other, other_sig),
{
    let c = without_exif(b);
    assert(c[0] == b[0] && c[1] == b[1]);
    assert(c.subrange(2, c.len() as int) =~= without_all(b, 2, EXIF_MARKER, exif_signature()));
    lemma_without_all(b, 2, c, 2, EXIF_MARKER, exif_signature(), other, other_sig);
}

/// Without the segments of one marker and signature the header is still plain, and none of them is
/// found in it.
proof fn lemma_none_left(b: Seq<u8>, i: int, c: Seq<u8>, j: int, marker: u8, sig: Seq<u8>)
    requires
        sized(marker),
        plain_from(b, i),
        0 <= j <= c.len(),
        c.subrange(j, c.len() as int) == without_all(b, i, marker, sig),
    ensures
        plain_from(c, j),
        without_all(c, j, marker, sig) == without_all(b, i, marker, sig),
        segment_from(c, j, marker, sig) is None,
    decreases b.len() - i,
{
    let rest = c.subrange(j, c.len() as int);
    assert(forall|k: int| 0 <= k < rest.len() ==> #[trigger] rest[k] == c[j + k]);
    match segment_end(b, i) {
        None => {
            assert(b[i + 1] == 0xDA);
            assert(rest.len() == b.len() - i);
            assert(rest[0] == b[i] && rest[1] == b[i + 1]);
            assert(segment_end(c, j) is None);
            assert(rest == b.subrange(i, b.len() as int));
            lemma_exif_free(b, i, c, j, false);
        },
        Some(end) => {
            if carries(b, i, marker, sig) {
                lemma_none_left(b, end, c, j, marker, sig);
            } else {
                let here = b.subrange(i, end);
                let more = without_all(b, end, marker, sig);
                let n = end - i;
                assert(rest == here + more);
                assert(forall|k: int| 0 <= k < n ==> #[trigger] rest[k] == b[i + k]);
                assert(rest[0] == b[i] && rest[1] == b[i + 1] && rest[2] == b[i + 2] && rest[3] == b[i + 3]);
                assert(c[j + 0] == b[i] && c[j + 1] == b[i + 1] && c[j + 2] == b[i + 2] && c[j + 3] == b[i + 3]);
                assert(segment_end(c, j) == Some(j + n));
                assert(payload(c, j) =~= payload(b, i)) by {
                    assert forall|k: int| 0 <= k < payload(b, i).len() implies payload(c, j)[k] == payload(b, i)[k] by {
                        assert(rest[4 + k] == b[i + (4 + k)]);
                    }
                }
                assert(c.subrange(j, j + n) =~= here) by {
                    assert forall|k: int| 0 <= k < n implies c.subrange(j, j + n)[k] == here[k] by {
                        assert(rest[k] == b[i + k]);
                    }
                }
                assert(c.subrange(j + n, c.len() as int) =~= more) by {
                    assert forall|k: int| 0 <= k < more.len() implies c.subrange(j + n, c.len() as int)[k] == more[k] by {
                        assert(rest[n + k] == more[k]);
                    }
                }
                lemma_none_left(b, end, c, j + n, marker, sig);
            }
        },
    }
}

/// Taking EXIF out of a plain JPEG leaves a plain JPEG in which none is found, and from which
/// nothing more is taken.
pub proof fn removed_exif_is_gone(b: Seq<u8>)
    requires
        plain_jpeg(b),
    ensures
        plain_jpeg(without_exif(b)),
        segment_body(without_exif(b), EXIF_MARKER, exif_signature()) is None,
        without_exif(without_exif(b)) == without_exif(b),
{
    let c = without_exif(b);
    assert(c[0] == b[0] && c[1] == b[1]);
    assert(c.subrange(2, c.len() as int) =~= without_all(b, 2, EXIF_MARKER, exif_signature()));
    assert(c.take(2) =~= b.take(2));
    lemma_none_left(b, 2, c, 2, EXIF_MARKER, exif_signature());
}

/// Taking EXIF out undoes writing it, up to the EXIF that was there before, and writing it again
/// is as good as writing it once: only what was written last counts.
pub proof fn exif_removal_undoes_writing(b: Seq<u8>, first: Seq<u8>, second: Seq<u8>)
    requires
        plain_jpeg(b),
        first.len() + 8 <= 0xFFFF,
    ensures
        plain_jpeg(with_exif(b, first)),
        without_exif(with_exif(b, first)) == without_exif(b),
        with_exif(with_exif(b, first), second) == with_exif(b, second),
{
    let c = with_exif(b, first);
    let content = exif_signature() + first;
    let segment = segment_bytes(EXIF_MARKER, content);
    let n = segment.len();
    assert(c[0] == b[0] && c[1] == b[1]);
    assert(c.take(2) =~= b.take(2));
    assert(c.subrange(2, (6 + content.len()) as int) =~= segment);
    assert(content.subrange(0, 6) =~= exif_signature());
    assert(content.subrange(6, content.len() as int) =~= first);
    lemma_segment_here(c, 2, EXIF_MARKER, content, exif_signature());
    let j = (2 + n) as int;
    assert(c.subrange(j, c.len() as int) =~= without_all(b, 2, EXIF_MARKER, exif_signature()));
    assert(carries(c, 2, EXIF_MARKER, exif_signature()));
    lemma_none_left(b, 2, c, j, EXIF_MARKER, exif_signature());
    assert(c[2] == segment[0] && c[3] == segment[1]);
    assert(segment_end(c, 2) == Some(j));
}

/// Whether the bytes start with the JPEG start-of-image marker.
pub fn is_jpeg(bytes: &[u8]) -> (r: bool)
    ensures
        r == is_jpeg_bytes(bytes@),
{
    bytes.len() >= 2 && bytes[0] == 0xFF && bytes[1] == 0xD8
}

fn is_standalone(marker: u8) -> (r: bool)
    ensures
        r == standalone(marker),
{
    marker == 0xD8 || marker == 0xD9 || (0xD0 <= marker && marker <= 0xD7) || marker == 0x01
}

/// Finds where the segment at `i` ends, if the header goes on there.
fn next_segment(bytes: &[u8], i: usize) -> (r: Option<usize>)
    requires
        i <= bytes.len(),
    ensures
        match r {
            Some(end) => segment_end(bytes@, i as int) == Some(end as int) && i + 2 <= end <= bytes.len(),
            None => segment_end(bytes@, i as int) is None,
        },
{
    if bytes.len() - i <= 3 || bytes[i] != 0xFF {
        return None;
    }
    let marker: u8 = bytes[i + 1];
    if is_standalone(marker) {
        return Some(i + 2);
    }
    let len: usize = bytes::read_be16(bytes, i + 2);
    if marker == 0xDA || len < 2 || len > bytes.len() - i - 2 {
        return None;
    }
    Some(i + 2 + len)
}

/// Finds the first segment with this marker and signature: its start and end.
pub fn find_segment(bytes: &[u8], marker: u8, sig: &[u8]) -> (r: Option<(usize, usize)>)
    requires
        sized(marker),
    ensures
        match r {
            Some((start, end)) => segment_of(bytes@, marker, sig@) == Some(start as int)
                && segment_end(bytes@, start as int) == Some(end as int)
                && end == start + 2 + bytes::be16_at(bytes@, start + 2)
                && 2 <= start && start + 4 + sig@.len() <= end <= bytes.len(),
            None => segment_of(bytes@, marker, sig@) is None,
        },
{
    if !is_jpeg(bytes) {
        return None;
    }
    let mut i: usize = 2;
    loop
        invariant
            sized(marker),
            is_jpeg_bytes(bytes@),
            2 <= i <= bytes.len(),
            segment_of(bytes@, marker, sig@) == segment_from(bytes@, i as int, marker, sig@),
        decreases bytes.len() - i,
    {
        match next_segment(bytes, i) {
            None => {
                return None;
            },
            Some(end) => {
                if bytes[i + 1] == marker && bytes::bytes_start_with(&bytes[i + 4..end], sig) {
                    return Some((i, end));
                }
                i = end;
            },
        }
    }
}

/// Where a new metadata segment goes: behind all leading application segments, so that an
/// EXIF segment stays the first APP1. Readers take the first APP1 for EXIF.
pub fn jpeg_app_insert_pos(bytes: &[u8]) -> (at: usize)
    ensures
        at == insert_position(bytes@),
        at <= bytes.len(),
{
    if !is_jpeg(bytes) {
        return if bytes.len() < 2 { bytes.len() } else { 2 };
    }
    let mut i: usize = 2;
    loop
        invariant
            is_jpeg_bytes(bytes@),
            2 <= i <= bytes.len(),
            insert_position(bytes@) == app_run_end(bytes@, i as int),
        decreases bytes.len() - i,
    {
        match next_segment(bytes, i) {
            None => {
                return i;
            },
            Some(end) => {
                let marker: u8 = bytes[i + 1];
                if marker < 0xE0 || marker > 0xEF {
                    return i;
                }
                i = end;
            },
        }
    }
}

/// Replaces the first segment of this marker and signature, or adds one.
pub fn put_segment(bytes: &mut Vec<u8>, marker: u8, sig: &[u8], body: &[u8])
    requires
        sized(marker),
        sig@.len() + body@.len() + 2 <= 0xFFFF,
    ensures
        final(bytes)@ == with_segment(old(bytes)@, marker, sig@, body@),
{
    let mut segment: Vec<u8> = Vec::new();
    segment.push(0xFF);
    segment.push(marker);
    bytes::append_be16(&mut segment, (sig.len() + body.len() + 2) as u16);
    bytes::append_bytes(&mut segment, sig);
    bytes::append_bytes(&mut segment, body);
    assert(segment@ =~= segment_bytes(marker, sig@ + body@));
    match find_segment(bytes, marker, sig) {
        Some((start, end)) => {
            bytes::splice_bytes(bytes, start, end, segment.as_slice());
        },
        None => {
            let at: usize = jpeg_app_insert_pos(bytes);
            bytes::splice_bytes(bytes, at, at, segment.as_slice());
        },
    }
}

/// Takes the first segment of this marker and signature out, if there is one.
pub fn cut_segment(bytes: &mut Vec<u8>, marker: u8, sig: &[u8]) -> (removed: bool)
    requires
        sized(marker),
    ensures
        removed == (segment_of(old(bytes)@, marker, sig@) is Some),
        final(bytes)@ == without_segment(old(bytes)@, marker, sig@),
{
    match find_segment(bytes, marker, sig) {
        Some((start, end)) => {
            let nothing: Vec<u8> = Vec::new();
            bytes::splice_bytes(bytes, start, end, nothing.as_slice());
            true
        },
        None => {
            proof {
                if is_jpeg_bytes(bytes@) {
                    lemma_app_run(bytes@, 2, marker, sig@);
                }
                let at = insert_position(bytes@);
                bytes::lemma_spliced_nothing(bytes@, at);
            }
            false
        },
    }
}

} // verus!
