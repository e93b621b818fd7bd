//! IPTC-IIM metadata in the Photoshop segment (APP13) of a JPEG.
//!
//! The segment holds image resource blocks ("8BIM"); the block 0x0404 holds a stream of IIM
//! datasets. Writing replaces that block and keeps all others. Values are UTF-8, marked by the
//! dataset 1:90.

use vstd::prelude::*;
use vstd::string::*;
use vstd::utf8::{decode_utf8, valid_utf8};
use crate::bytes;
use crate::jpeg;
use crate::text;

verus! {

/// An IIM dataset.
#[derive(Debug, PartialEq)]
pub struct Dataset {
    pub record: u8,
    pub number: u8,
    pub data: Vec<u8>,
}

/// What a dataset says.
pub struct DatasetView {
    pub record: u8,
    pub number: u8,
    pub data: Seq<u8>,
}

impl Clone for Dataset {
    fn clone(&self) -> (r: Self)
        ensures
            r@ == self@,
    {
        Dataset { record: self.record, number: self.number, data: bytes::copy_bytes(self.data.as_slice()) }
    }
}

impl View for Dataset {
    type V = DatasetView;

    open spec fn view(&self) -> DatasetView {
        DatasetView { record: self.record, number: self.number, data: self.data@ }
    }
}

/// An image resource block.
#[derive(Debug)]
pub struct Irb {
    pub id: u16,
    pub name: Vec<u8>,
    pub data: Vec<u8>,
}

/// What a resource block says.
pub struct IrbView {
    pub id: u16,
    pub name: Seq<u8>,
    pub data: Seq<u8>,
}

impl Clone for Irb {
    fn clone(&self) -> (r: Self)
        ensures
            r@ == self@,
    {
        Irb {
            id: self.id,
            name: bytes::copy_bytes(self.name.as_slice()),
            data: bytes::copy_bytes(self.data.as_slice()),
        }
    }
}

impl View for Irb {
    type V = IrbView;

    open spec fn view(&self) -> IrbView {
        IrbView { id: self.id, name: self.name@, data: self.data@ }
    }
}

/// A batch of edits.
#[derive(Debug)]
pub struct IptcEdit {
    /// Record, dataset number and values; several values make a repeated dataset.
    pub sets: Vec<(u8, u8, Vec<String>)>,
    /// Record and dataset number to take out.
    pub removes: Vec<(u8, u8)>,
}

impl Default for IptcEdit {
    fn default() -> (e: Self)
        ensures
            e.sets@.len() == 0,
            e.removes@.len() == 0,
    {
        IptcEdit { sets: Vec::new(), removes: Vec::new() }
    }
}

impl IptcEdit {
    /// Whether the batch changes nothing.
    pub fn is_empty(&self) -> (r: bool)
        ensures
            r == (self.sets@.len() == 0 && self.removes@.len() == 0),
    {
        self.sets.len() == 0 && self.removes.len() == 0
    }

    /// Whether the edit sets or removes the datasets of this record and number.
    pub open spec fn touches(&self, record: u8, number: u8) -> bool {
        (exists|i: int| 0 <= i < self.sets@.len() && (#[trigger] self.sets@[i]).0 == record && self.sets@[i].1
            == number) || self.removes@.contains((record, number))
    }

    fn has_target(&self, record: u8, number: u8) -> (r: bool)
        ensures
            r == self.touches(record, number),
    {
        let mut i: usize = 0;
        while i < self.sets.len()
            invariant
                i <= self.sets.len(),
                forall|k: int|
                    0 <= k < i ==> !((#[trigger] self.sets@[k]).0 == record && self.sets@[k].1 == number),
            decreases self.sets.len() - i,
        {
            if self.sets[i].0 == record && self.sets[i].1 == number {
                return true;
            }
            i += 1;
        }
        let mut j: usize = 0;
        while j < self.removes.len()
            invariant
                j <= self.removes.len(),
                forall|k: int| 0 <= k < j ==> self.removes@[k] != (record, number),
            decreases self.removes.len() - j,
        {
            if self.removes[j].0 == record && self.removes[j].1 == number {
                assert(self.removes@[j as int] == (record, number));
                return true;
            }
            j += 1;
        }
        false
    }
}

// ---- model ------------------------------------------------------------------------------

/// The signature of the Photoshop segment: `Photoshop 3.0` and a zero.
pub open spec fn ps_signature() -> Seq<u8> {
    seq![0x50u8, 0x68, 0x6F, 0x74, 0x6F, 0x73, 0x68, 0x6F, 0x70, 0x20, 0x33, 0x2E, 0x30, 0x00]
}

/// The mark of UTF-8 in the dataset 1:90: ESC % G.
pub open spec fn utf8_mark() -> Seq<u8> {
    seq![0x1Bu8, 0x25, 0x47]
}

/// `8BIM`.
pub open spec fn block_mark() -> Seq<u8> {
    seq![0x38u8, 0x42, 0x49, 0x4D]
}

/// The id of the resource block that holds IPTC.
pub const IPTC_ID: u16 = 0x0404;

/// The marker of the segment that holds the resource blocks.
pub const APP13: u8 = 0xED;

/// The views of a sequence of datasets.
pub open spec fn datasets_view(v: Seq<Dataset>) -> Seq<DatasetView> {
    v.map_values(|d: Dataset| d@)
}

/// The views of a sequence of resource blocks.
pub open spec fn irbs_view(v: Seq<Irb>) -> Seq<IrbView> {
    v.map_values(|b: Irb| b@)
}

/// The dataset at `i`, or `None` if the stream ends there: too few bytes, no tag marker, an
/// extended length, or data that does not fit.
pub open spec fn iim_at(d: Seq<u8>, i: int) -> Option<DatasetView> {
    if i < 0 || i + 5 > d.len() || d[i] != 0x1C || bytes::be16_at(d, i + 3) >= 0x8000 || i + 5
        + bytes::be16_at(d, i + 3) > d.len() {
        None
    } else {
        Some(
            DatasetView {
                record: d[i + 1],
                number: d[i + 2],
                data: d.subrange(i + 5, i + 5 + bytes::be16_at(d, i + 3)),
            },
        )
    }
}

/// The datasets of a stream from `i` on.
pub open spec fn iim_from(d: Seq<u8>, i: int) -> Seq<DatasetView>
    decreases d.len() - i,
{
    match iim_at(d, i) {
        None => Seq::empty(),
        Some(ds) => seq![ds] + iim_from(d, i + 5 + ds.data.len()),
    }
}

/// A dataset as it is written: data beyond 0x7FFF bytes is cut off.
pub open spec fn cut(d: DatasetView) -> DatasetView {
    if d.data.len() > 0x7FFF {
        DatasetView { data: d.data.take(0x7FFF), ..d }
    } else {
        d
    }
}

/// The bytes of one dataset.
pub open spec fn iim_bytes(d: DatasetView) -> Seq<u8> {
    seq![0x1Cu8, d.record, d.number] + bytes::be16_bytes(cut(d).data.len() as int) + cut(d).data
}

/// The bytes of a sequence of datasets.
pub open spec fn iim_stream(s: Seq<DatasetView>) -> Seq<u8> {
    bytes::flat(s.map_values(|d: DatasetView| iim_bytes(d)))
}

/// What datasets are ordered by.
pub open spec fn order_key(d: DatasetView) -> int {
    d.record * 256 + d.number
}

/// `d` put into `s` behind everything that is not ordered after it.
pub open spec fn put_in_order(s: Seq<DatasetView>, d: DatasetView) -> Seq<DatasetView>
    decreases s.len(),
{
    if s.len() == 0 || order_key(s.last()) <= order_key(d) {
        s.push(d)
    } else {
        put_in_order(s.drop_last(), d).push(s.last())
    }
}

/// `s` ordered by record and number; datasets of the same number keep their order.
pub open spec fn in_order(s: Seq<DatasetView>) -> Seq<DatasetView>
    decreases s.len(),
{
    if s.len() == 0 {
        s
    } else {
        put_in_order(in_order(s.drop_last()), s.last())
    }
}

/// The block at `i`, or `None` if no whole block stands there.
pub open spec fn irb_at(d: Seq<u8>, i: int) -> Option<IrbView> {
    if i < 0 || i + 7 > d.len() || d.subrange(i, i + 4) != block_mark() || i + 7 + d[i + 6] > d.len()
        || size_at(d, i) + 4 > d.len() || size_at(d, i) + 4 + bytes::be32_at(d, size_at(d, i)) > d.len() {
        None
    } else {
        Some(
            IrbView {
                id: bytes::be16_at(d, i + 4) as u16,
                name: d.subrange(i + 7, i + 7 + d[i + 6]),
                data: d.subrange(size_at(d, i) + 4, size_at(d, i) + 4 + bytes::be32_at(d, size_at(d, i))),
            },
        )
    }
}

/// `n` rounded up to an even number.
pub open spec fn even(n: int) -> int {
    n + n % 2
}

/// Where the size field of the block at `i` stands: behind the name, whose field is even.
pub open spec fn size_at(d: Seq<u8>, i: int) -> int {
    i + 6 + even(1 + d[i + 6])
}

/// The blocks from `i` on.
pub open spec fn irbs_from(d: Seq<u8>, i: int) -> Seq<IrbView>
    decreases d.len() - i + 1,
{
    match irb_at(d, i) {
        None => Seq::empty(),
        Some(irb) => seq![irb] + irbs_from(d, size_at(d, i) + 4 + even(irb.data.len() as int)),
    }
}

/// A zero if `n` is odd.
pub open spec fn pad(n: int) -> Seq<u8> {
    if n % 2 == 1 {
        seq![0u8]
    } else {
        Seq::empty()
    }
}

/// The bytes of one block. A name is cut to 255 bytes; the size field holds the size modulo
/// 2^32.
#[verifier::opaque]
pub open spec fn irb_bytes(b: IrbView) -> Seq<u8> {
    let name = if b.name.len() > 255 {
        b.name.take(255)
    } else {
        b.name
    };
    block_mark() + bytes::be16_bytes(b.id as int) + seq![name.len() as u8] + name + pad(
        (1 + name.len()) as int,
    ) + bytes::be32_bytes(b.data.len() as int % 0x1_0000_0000) + b.data + pad(b.data.len() as int)
}

/// The bytes of a sequence of blocks.
pub open spec fn irb_stream(s: Seq<IrbView>) -> Seq<u8> {
    bytes::flat(s.map_values(|b: IrbView| irb_bytes(b)))
}

/// The blocks of a JPEG.
pub open spec fn blocks_of(b: Seq<u8>) -> Seq<IrbView> {
    match jpeg::segment_body(b, APP13, ps_signature()) {
        Some(body) => irbs_from(body, 0),
        None => Seq::empty(),
    }
}

/// The first IPTC block at or after `i`.
pub open spec fn iptc_block_from(s: Seq<IrbView>, i: int) -> Option<IrbView>
    decreases s.len() - i,
{
    if i < 0 || i >= s.len() {
        None
    } else if s[i].id == IPTC_ID {
        Some(s[i])
    } else {
        iptc_block_from(s, i + 1)
    }
}

/// The datasets of a JPEG.
pub open spec fn datasets_of(b: Seq<u8>) -> Seq<DatasetView> {
    match iptc_block_from(blocks_of(b), 0) {
        Some(block) => iim_from(block.data, 0),
        None => Seq::empty(),
    }
}

/// The blocks that are not IPTC.
pub open spec fn other_blocks(s: Seq<IrbView>) -> Seq<IrbView>
    decreases s.len(),
{
    if s.len() == 0 {
        s
    } else if s.last().id == IPTC_ID {
        other_blocks(s.drop_last())
    } else {
        other_blocks(s.drop_last()).push(s.last())
    }
}

/// The blocks after IPTC was set to these datasets: the IPTC block, then the others.
pub open spec fn blocks_with(s: Seq<IrbView>, datasets: Seq<DatasetView>) -> Seq<IrbView> {
    seq![IrbView { id: IPTC_ID, name: Seq::empty(), data: iim_stream(in_order(datasets)) }]
        + other_blocks(s)
}

/// Whether these blocks fit in one segment.
pub open spec fn blocks_fit(s: Seq<IrbView>) -> bool {
    14 + irb_stream(s).len() + 2 <= 0xFFFF
}

/// The datasets that an edit adds, in its order.
pub open spec fn added_values(record: u8, number: u8, values: Seq<String>) -> Seq<DatasetView> {
    values.map_values(|v: String| DatasetView { record, number, data: vstd::utf8::encode_utf8(v@) })
}

/// The datasets that the first entries of an edit add.
pub open spec fn added(sets: Seq<(u8, u8, Vec<String>)>) -> Seq<DatasetView>
    decreases sets.len(),
{
    if sets.len() == 0 {
        Seq::empty()
    } else {
        added(sets.drop_last()) + added_values(sets.last().0, sets.last().1, sets.last().2@)
    }
}

/// The datasets that an edit leaves alone.
pub open spec fn untouched(s: Seq<DatasetView>, edit: &IptcEdit) -> Seq<DatasetView>
    decreases s.len(),
{
    if s.len() == 0 {
        s
    } else if edit.touches(s.last().record, s.last().number) {
        untouched(s.drop_last(), edit)
    } else {
        untouched(s.drop_last(), edit).push(s.last())
    }
}

/// Whether some dataset has this record.
pub open spec fn has_record(s: Seq<DatasetView>, record: u8) -> bool {
    exists|i: int| 0 <= i < s.len() && (#[trigger] s[i]).record == record
}

/// The datasets other than the character set 1:90.
pub open spec fn without_charset(s: Seq<DatasetView>) -> Seq<DatasetView>
    decreases s.len(),
{
    if s.len() == 0 {
        s
    } else if s.last().record == 1 && s.last().number == 90 {
        without_charset(s.drop_last())
    } else {
        without_charset(s.drop_last()).push(s.last())
    }
}

/// The dataset that declares the values to be UTF-8.
pub open spec fn charset_mark() -> DatasetView {
    DatasetView { record: 1, number: 90, data: utf8_mark() }
}

/// `s` declared as UTF-8: where it has content, the mark of UTF-8 stands in front and is the only
/// character set. Without content nothing is declared, and a 1:90 that is there stays.
pub open spec fn with_charset(s: Seq<DatasetView>) -> Seq<DatasetView> {
    if has_record(s, 2) {
        seq![charset_mark()] + without_charset(s)
    } else {
        s
    }
}

/// The datasets after an edit.
pub open spec fn edited(s: Seq<DatasetView>, edit: &IptcEdit) -> Seq<DatasetView> {
    with_charset(untouched(s, edit) + added(edit.sets@))
}

// ---- laws -------------------------------------------------------------------------------

/// Reading a stream of datasets back gives what was written, with overlong data cut off.
pub proof fn iim_round_trip(s: Seq<DatasetView>)
    ensures
        iim_from(iim_stream(s), 0) == s.map_values(|d: DatasetView| cut(d)),
{
    lemma_iim_tail(s, 0);
    let parts = s.map_values(|d: DatasetView| iim_bytes(d));
    assert(parts.take(0) =~= Seq::<Seq<u8>>::empty());
    assert(s.skip(0) =~= s);
}

proof fn lemma_iim_tail(s: Seq<DatasetView>, k: int)
    requires
        0 <= k <= s.len(),
    ensures
        iim_from(iim_stream(s), bytes::flat_start(s.map_values(|d: DatasetView| iim_bytes(d)), k))
            == s.skip(k).map_values(|d: DatasetView| cut(d)),
    decreases s.len() - k,
{
    let parts = s.map_values(|d: DatasetView| iim_bytes(d));
    let stream = iim_stream(s);
    if k == s.len() {
        assert(parts.take(k) =~= parts);
        assert(s.skip(k).map_values(|d: DatasetView| cut(d)) =~= Seq::<DatasetView>::empty());
    } else {
        bytes::lemma_flat_part(parts, k);
        lemma_iim_tail(s, k + 1);
        let at = bytes::flat_start(parts, k);
        let one = iim_bytes(s[k]);
        let n = cut(s[k]).data.len() as int;
        bytes::lemma_be16_round_trip(n);
        assert(one.len() == 5 + n);
        assert(forall|j: int| 0 <= j < one.len() ==> stream[at + j] == #[trigger] one[j]) by {
            let part = stream.subrange(at, at + one.len());
            assert(forall|j: int| 0 <= j < part.len() ==> #[trigger] part[j] == stream[at + j]);
        }
        assert(one[0] == 0x1C && one[1] == s[k].record && one[2] == s[k].number);
        assert(one[3] == bytes::be16_bytes(n)[0] && one[4] == bytes::be16_bytes(n)[1]);
        assert(stream[at + 0] == one[0] && stream[at + 1] == one[1] && stream[at + 2] == one[2] && stream[at
            + 3] == one[3] && stream[at + 4] == one[4]);
        assert(stream.subrange(at + 5, at + 5 + n) =~= cut(s[k]).data) by {
            assert forall|j: int| 0 <= j < n implies stream.subrange(at + 5, at + 5 + n)[j] == cut(
                s[k],
            ).data[j] by {
                assert(one[5 + j] == cut(s[k]).data[j]);
                assert(stream[at + (5 + j)] == one[5 + j]);
            }
        }
        assert(iim_at(stream, at) == Some(cut(s[k])));
        assert(s.skip(k).map_values(|d: DatasetView| cut(d)) =~= seq![cut(s[k])] + s.skip(
            k + 1,
        ).map_values(|d: DatasetView| cut(d)));
    }
}

/// A block that the block format can hold: a name of at most 255 bytes, data of less than
/// 2^32 bytes.
pub open spec fn irb_ok(b: IrbView) -> bool {
    b.name.len() <= 255 && b.data.len() < 0x1_0000_0000
}

/// Reading blocks back gives what was written.
pub proof fn irb_round_trip(s: Seq<IrbView>)
    requires
        forall|i: int| 0 <= i < s.len() ==> irb_ok(#[trigger] s[i]),
    ensures
        irbs_from(irb_stream(s), 0) == s,
{
    lemma_irb_tail(s, 0);
    let parts = s.map_values(|b: IrbView| irb_bytes(b));
    assert(parts.take(0) =~= Seq::<Seq<u8>>::empty());
    assert(s.skip(0) =~= s);
}

/// What stands where in the bytes of a block.
spec fn laid_out(one: Seq<u8>, b: IrbView) -> bool {
    let n = b.name.len() as int;
    let m = b.data.len() as int;
    let p = 6 + even(1 + n);
    &&& one.len() == p + 4 + even(m)
    &&& one.subrange(0, 4) == block_mark()
    &&& bytes::be16_at(one, 4) == b.id
    &&& one[6] == n
    &&& one.subrange(7, 7 + n) == b.name
    &&& bytes::be32_at(one, p) == m
    &&& one.subrange(p + 4, p + 4 + m) == b.data
}

#[verifier::spinoff_prover]
#[verifier::rlimit(40)]
proof fn lemma_irb_layout(b: IrbView)
    requires
        irb_ok(b),
    ensures
        laid_out(irb_bytes(b), b),
{
    reveal(irb_bytes);
    let one = irb_bytes(b);
    let n = b.name.len() as int;
    let m = b.data.len() as int;
    let p = 6 + even(1 + n);
    bytes::lemma_be16_round_trip(b.id as int);
    bytes::lemma_be32_round_trip(m);
    let id = bytes::be16_bytes(b.id as int);
    let size = bytes::be32_bytes(m);
    let head = block_mark() + id + seq![n as u8] + b.name + pad(1 + n);
    assert(head.len() == p);
    assert(one =~= head + size + b.data + pad(m));
    assert(head.subrange(0, 4) =~= block_mark());
    assert(head[4] == id[0] && head[5] == id[1] && head[6] == n);
    assert(head.subrange(7, 7 + n) =~= b.name);
    assert(one.subrange(0, 4) =~= head.subrange(0, 4));
    assert(one[4] == head[4] && one[5] == head[5] && one[6] == head[6]);
    assert(one.subrange(7, 7 + n) =~= head.subrange(7, 7 + n));
    assert(one[p] == size[0] && one[p + 1] == size[1] && one[p + 2] == size[2] && one[p + 3] == size[3]);
    assert(one.subrange(p + 4, p + 4 + m) =~= b.data);
}

proof fn lemma_irb_here(d: Seq<u8>, at: int, one: Seq<u8>, b: IrbView)
    requires
        0 <= at,
        irb_ok(b),
        laid_out(one, b),
        at + one.len() <= d.len(),
        d.subrange(at, at + one.len()) == one,
    ensures
        irb_at(d, at) == Some(b),
        size_at(d, at) + 4 + even(b.data.len() as int) == at + one.len(),
{
    let n = b.name.len() as int;
    let m = b.data.len() as int;
    let p = 6 + even(1 + n);
    assert(forall|j: int| 0 <= j < one.len() ==> d[at + j] == #[trigger] one[j]) by {
        let part = d.subrange(at, at + one.len());
        assert(forall|j: int| 0 <= j < part.len() ==> #[trigger] part[j] == d[at + j]);
    }
    assert(d.subrange(at, at + 4) =~= one.subrange(0, 4));
    assert(d[at + 4] == one[4] && d[at + 5] == one[5] && d[at + 6] == one[6]);
    assert(d.subrange(at + 7, at + 7 + n) =~= one.subrange(7, 7 + n));
    assert(d[at + p] == one[p] && d[at + (p + 1)] == one[p + 1] && d[at + (p + 2)] == one[p + 2] && d[at
        + (p + 3)] == one[p + 3]);
    assert(size_at(d, at) == at + p);
    assert(d.subrange(at + p + 4, at + p + 4 + m) =~= one.subrange(p + 4, p + 4 + m));
}

proof fn lemma_irb_tail(s: Seq<IrbView>, k: int)
    requires
        0 <= k <= s.len(),
        forall|i: int| 0 <= i < s.len() ==> irb_ok(#[trigger] s[i]),
    ensures
        irbs_from(irb_stream(s), bytes::flat_start(s.map_values(|b: IrbView| irb_bytes(b)), k)) == s.skip(k),
    decreases s.len() - k,
{
    let parts = s.map_values(|b: IrbView| irb_bytes(b));
    let stream = irb_stream(s);
    if k == s.len() {
        assert(parts.take(k) =~= parts);
        assert(s.skip(k) =~= Seq::<IrbView>::empty());
    } else {
        bytes::lemma_flat_part(parts, k);
        lemma_irb_tail(s, k + 1);
        let at = bytes::flat_start(parts, k);
        lemma_irb_layout(s[k]);
        lemma_irb_here(stream, at, irb_bytes(s[k]), s[k]);
        assert(s.skip(k) =~= seq![s[k]] + s.skip(k + 1));
    }
}

proof fn lemma_irbs_ok(d: Seq<u8>, i: int)
    ensures
        forall|k: int| 0 <= k < irbs_from(d, i).len() ==> irb_ok(#[trigger] irbs_from(d, i)[k]),
    decreases d.len() - i + 1,
{
    match irb_at(d, i) {
        None => {},
        Some(irb) => {
            let next = size_at(d, i) + 4 + even(irb.data.len() as int);
            lemma_irbs_ok(d, next);
            assert(irb_ok(irb));
            assert forall|k: int| 0 <= k < irbs_from(d, i).len() implies irb_ok(
                #[trigger] irbs_from(d, i)[k],
            ) by {
                if k > 0 {
                    assert(irbs_from(d, i)[k] == irbs_from(d, next)[k - 1]);
                }
            }
        },
    }
}

proof fn lemma_other_blocks(s: Seq<IrbView>)
    ensures
        forall|k: int|
            0 <= k < other_blocks(s).len() ==> (#[trigger] other_blocks(s)[k]).id != IPTC_ID && s.contains(
                other_blocks(s)[k],
            ),
    decreases s.len(),
{
    if s.len() > 0 {
        let init = s.drop_last();
        lemma_other_blocks(init);
        assert forall|k: int| 0 <= k < other_blocks(s).len() implies (#[trigger] other_blocks(s)[k]).id
            != IPTC_ID && s.contains(other_blocks(s)[k]) by {
            if k < other_blocks(init).len() {
                assert(other_blocks(s)[k] == other_blocks(init)[k]);
                let j = choose|j: int| 0 <= j < init.len() && init[j] == other_blocks(init)[k];
                assert(s[j] == other_blocks(s)[k]);
            } else {
                assert(s[s.len() - 1] == other_blocks(s)[k]);
            }
        }
    }
}

proof fn lemma_no_iptc(s: Seq<IrbView>, i: int)
    requires
        forall|k: int| 0 <= k < s.len() ==> (#[trigger] s[k]).id != IPTC_ID,
    ensures
        iptc_block_from(s, i) is None,
    decreases s.len() - i,
{
    if 0 <= i < s.len() {
        lemma_no_iptc(s, i + 1);
    }
}

/// The bytes of a JPEG after its resource blocks were set to `s`.
pub open spec fn with_blocks(b: Seq<u8>, s: Seq<IrbView>) -> Seq<u8> {
    jpeg::with_segment(b, APP13, ps_signature(), irb_stream(s))
}

/// The blocks of a JPEG can be read back after they were written.
pub proof fn read_back_blocks(b: Seq<u8>, s: Seq<IrbView>)
    requires
        jpeg::is_jpeg_bytes(b),
        blocks_fit(s),
        forall|i: int| 0 <= i < s.len() ==> irb_ok(#[trigger] s[i]),
    ensures
        jpeg::is_jpeg_bytes(with_blocks(b, s)),
        blocks_of(with_blocks(b, s)) == s,
{
    jpeg::read_back_segment(b, APP13, ps_signature(), irb_stream(s));
    irb_round_trip(s);
}

proof fn lemma_blocks_with_ok(b: Seq<u8>, datasets: Seq<DatasetView>)
    requires
        blocks_fit(blocks_with(blocks_of(b), datasets)),
    ensures
        forall|i: int|
            0 <= i < blocks_with(blocks_of(b), datasets).len() ==> irb_ok(
                #[trigger] blocks_with(blocks_of(b), datasets)[i],
            ),
{
    let old_blocks = blocks_of(b);
    let s = blocks_with(old_blocks, datasets);
    match jpeg::segment_body(b, APP13, ps_signature()) {
        Some(body) => {
            lemma_irbs_ok(body, 0);
        },
        None => {},
    }
    lemma_other_blocks(old_blocks);
    assert forall|i: int| 0 <= i < s.len() implies irb_ok(#[trigger] s[i]) by {
        if i > 0 {
            assert(s[i] == other_blocks(old_blocks)[i - 1]);
            let j = choose|j: int| 0 <= j < old_blocks.len() && old_blocks[j] == s[i];
            assert(irb_ok(old_blocks[j]));
        } else {
            let parts = s.map_values(|x: IrbView| irb_bytes(x));
            bytes::lemma_flat_part(parts, 0);
            assert(parts[0] == irb_bytes(s[0]));
            reveal(irb_bytes);
            assert(irb_bytes(s[0]).len() >= s[0].data.len());
        }
    }
}

/// Reading IPTC back after setting it gives the datasets in order, with overlong data cut off.
pub proof fn read_back_datasets(b: Seq<u8>, datasets: Seq<DatasetView>)
    requires
        jpeg::is_jpeg_bytes(b),
        blocks_fit(blocks_with(blocks_of(b), datasets)),
    ensures
        datasets_of(with_blocks(b, blocks_with(blocks_of(b), datasets)))
            == in_order(datasets).map_values(|d: DatasetView| cut(d)),
{
    let s = blocks_with(blocks_of(b), datasets);
    lemma_blocks_with_ok(b, datasets);
    read_back_blocks(b, s);
    assert(iptc_block_from(s, 0) == Some(s[0]));
    iim_round_trip(in_order(datasets));
}

/// Setting IPTC keeps every other resource block, in its order.
pub proof fn other_blocks_are_kept(b: Seq<u8>, datasets: Seq<DatasetView>)
    requires
        jpeg::is_jpeg_bytes(b),
        blocks_fit(blocks_with(blocks_of(b), datasets)),
    ensures
        other_blocks(blocks_of(with_blocks(b, blocks_with(blocks_of(b), datasets))))
            == other_blocks(blocks_of(b)),
{
    let s = blocks_with(blocks_of(b), datasets);
    lemma_blocks_with_ok(b, datasets);
    read_back_blocks(b, s);
    lemma_other_blocks(blocks_of(b));
    let rest = other_blocks(blocks_of(b));
    lemma_other_of_cons(s[0], rest);
    assert(s =~= seq![s[0]] + rest);
}

proof fn lemma_other_of_cons(first: IrbView, rest: Seq<IrbView>)
    requires
        first.id == IPTC_ID,
        forall|k: int| 0 <= k < rest.len() ==> (#[trigger] rest[k]).id != IPTC_ID,
    ensures
        other_blocks(seq![first] + rest) == rest,
    decreases rest.len(),
{
    let s = seq![first] + rest;
    if rest.len() == 0 {
        assert(s.drop_last() =~= Seq::<IrbView>::empty());
        assert(other_blocks(s.drop_last()) =~= Seq::<IrbView>::empty());
        assert(s.last() == first);
        assert(other_blocks(s) =~= rest);
    } else {
        let init = rest.drop_last();
        assert(s.drop_last() =~= seq![first] + init);
        lemma_other_of_cons(first, init);
        assert(s.last() == rest.last());
        assert(init.push(rest.last()) =~= rest);
    }
}

/// The bytes of a JPEG after its IPTC was taken out: the other resource blocks stay, and where
/// there are none the whole segment goes.
pub open spec fn without_iptc(b: Seq<u8>) -> Seq<u8> {
    let rest = other_blocks(blocks_of(b));
    if iptc_block_from(blocks_of(b), 0) is None {
        b
    } else if rest.len() == 0 {
        jpeg::without_segment(b, APP13, ps_signature())
    } else {
        with_blocks(b, rest)
    }
}

/// After IPTC was taken out, no datasets are found and the other resource blocks are as they
/// were. Where IPTC was all that its segment held, this asks that there was no second Photoshop
/// segment: it would come to light.
pub proof fn removed_datasets_are_gone(b: Seq<u8>)
    requires
        jpeg::is_jpeg_bytes(b),
        other_blocks(blocks_of(b)).len() == 0 ==> jpeg::segment_from(
            b,
            jpeg::place_end(b, APP13, ps_signature()),
            APP13,
            ps_signature(),
        ) is None,
    ensures
        datasets_of(without_iptc(b)) == Seq::<DatasetView>::empty(),
        other_blocks(blocks_of(without_iptc(b))) == other_blocks(blocks_of(b)),
{
    let rest = other_blocks(blocks_of(b));
    lemma_other_blocks(blocks_of(b));
    if iptc_block_from(blocks_of(b), 0) is None {
    } else if rest.len() == 0 {
        jpeg::removed_segment_is_gone(b, APP13, ps_signature());
        assert(blocks_of(without_iptc(b)) =~= Seq::<IrbView>::empty());
        assert(other_blocks(blocks_of(without_iptc(b))) =~= rest);
    } else {
        lemma_rest_fits(b);
        match jpeg::segment_body(b, APP13, ps_signature()) {
            Some(body) => {
                lemma_irbs_ok(body, 0);
            },
            None => {},
        }
        assert forall|i: int| 0 <= i < rest.len() implies irb_ok(#[trigger] rest[i]) by {
            let j = choose|j: int| 0 <= j < blocks_of(b).len() && blocks_of(b)[j] == rest[i];
            assert(irb_ok(blocks_of(b)[j]));
        }
        read_back_blocks(b, rest);
        lemma_no_iptc(rest, 0);
        lemma_all_others(rest);
    }
}

proof fn lemma_all_others(s: Seq<IrbView>)
    requires
        forall|k: int| 0 <= k < s.len() ==> (#[trigger] s[k]).id != IPTC_ID,
    ensures
        other_blocks(s) == s,
    decreases s.len(),
{
    if s.len() > 0 {
        let init = s.drop_last();
        assert forall|k: int| 0 <= k < init.len() implies (#[trigger] init[k]).id != IPTC_ID by {
            assert(init[k] == s[k]);
        }
        lemma_all_others(init);
        assert(s[s.len() - 1].id != IPTC_ID);
        assert(init.push(s.last()) =~= s);
    }
}

/// How many bytes a block takes, its fields padded to even lengths.
spec fn block_size(b: IrbView) -> int {
    10 + even((1 + b.name.len()) as int) + even(b.data.len() as int)
}

/// How many bytes a sequence of blocks takes.
spec fn blocks_size(s: Seq<IrbView>) -> int
    decreases s.len(),
{
    if s.len() == 0 {
        0
    } else {
        blocks_size(s.drop_last()) + block_size(s.last())
    }
}

proof fn lemma_stream_size(s: Seq<IrbView>)
    requires
        forall|i: int| 0 <= i < s.len() ==> irb_ok(#[trigger] s[i]),
    ensures
        irb_stream(s).len() == blocks_size(s),
    decreases s.len(),
{
    let parts = s.map_values(|b: IrbView| irb_bytes(b));
    if s.len() > 0 {
        let init = s.drop_last();
        assert forall|i: int| 0 <= i < init.len() implies irb_ok(#[trigger] init[i]) by {
            assert(init[i] == s[i]);
        }
        lemma_stream_size(init);
        assert(parts.drop_last() =~= init.map_values(|b: IrbView| irb_bytes(b)));
        let last = s[s.len() - 1];
        assert(irb_ok(last));
        assert(parts.last() == irb_bytes(last));
        reveal(irb_bytes);
        assert(irb_bytes(last).len() == block_size(last));
    }
}

proof fn lemma_size_cons(first: IrbView, rest: Seq<IrbView>)
    ensures
        blocks_size(seq![first] + rest) == block_size(first) + blocks_size(rest),
    decreases rest.len(),
{
    let s = seq![first] + rest;
    if rest.len() == 0 {
        assert(s.drop_last() =~= Seq::<IrbView>::empty());
        assert(blocks_size(s.drop_last()) == 0);
        assert(blocks_size(rest) == 0);
    } else {
        lemma_size_cons(first, rest.drop_last());
        assert(s.drop_last() =~= seq![first] + rest.drop_last());
    }
}

/// Blocks that were read take no more than they took, but for a last padding.
proof fn lemma_read_size(d: Seq<u8>, i: int)
    requires
        0 <= i <= d.len() + 1,
    ensures
        i + blocks_size(irbs_from(d, i)) <= d.len() + 1,
    decreases d.len() - i + 1,
{
    match irb_at(d, i) {
        None => {},
        Some(irb) => {
            let next = size_at(d, i) + 4 + even(irb.data.len() as int);
            lemma_read_size(d, next);
            lemma_size_cons(irb, irbs_from(d, next));
        },
    }
}

/// Leaving IPTC out makes blocks smaller by at least the fields of one block.
proof fn lemma_rest_size(s: Seq<IrbView>, i: int)
    requires
        0 <= i,
    ensures
        0 <= blocks_size(other_blocks(s)) <= blocks_size(s),
        iptc_block_from(s, i) is Some ==> blocks_size(other_blocks(s)) + 12 <= blocks_size(s),
    decreases s.len(),
{
    if s.len() > 0 {
        let init = s.drop_last();
        lemma_rest_size(init, i);
        let rest = other_blocks(init);
        assert(rest.push(s.last()).drop_last() =~= rest);
        if s.last().id != IPTC_ID {
            lemma_found_in_init(s, i);
        }
    }
}

proof fn lemma_found_in_init(s: Seq<IrbView>, i: int)
    requires
        s.len() > 0,
        s.last().id != IPTC_ID,
        0 <= i,
    ensures
        iptc_block_from(s, i) == iptc_block_from(s.drop_last(), i),
    decreases s.len() - i,
{
    if i < s.len() {
        lemma_found_in_init(s, i + 1);
    }
}

/// What stands beside IPTC in a segment fits in one by itself.
proof fn lemma_rest_fits(b: Seq<u8>)
    requires
        iptc_block_from(blocks_of(b), 0) is Some,
    ensures
        blocks_fit(other_blocks(blocks_of(b))),
{
    let s = blocks_of(b);
    let rest = other_blocks(s);
    match jpeg::segment_body(b, APP13, ps_signature()) {
        Some(body) => {
            lemma_irbs_ok(body, 0);
            lemma_other_blocks(s);
            assert forall|i: int| 0 <= i < rest.len() implies irb_ok(#[trigger] rest[i]) by {
                let j = choose|j: int| 0 <= j < s.len() && s[j] == rest[i];
                assert(irb_ok(s[j]));
            }
            lemma_stream_size(rest);
            lemma_read_size(body, 0);
            lemma_rest_size(s, 0);
            jpeg::body_fits(b, APP13, ps_signature());
        },
        None => {},
    }
}

/// Ordering changes nothing but the order: the datasets of one record and number come out in
/// the sequence in which they went in.
pub proof fn order_is_stable(s: Seq<DatasetView>, record: u8, number: u8)
    ensures
        of_number(in_order(s), record, number) == of_number(s, record, number),
    decreases s.len(),
{
    if s.len() > 0 {
        order_is_stable(s.drop_last(), record, number);
        order_is_sorted(s.drop_last());
        lemma_put_stable(in_order(s.drop_last()), s.last(), record, number);
    }
}

/// The datasets of one record and number.
pub open spec fn of_number(s: Seq<DatasetView>, record: u8, number: u8) -> Seq<DatasetView>
    decreases s.len(),
{
    if s.len() == 0 {
        s
    } else if s.last().record == record && s.last().number == number {
        of_number(s.drop_last(), record, number).push(s.last())
    } else {
        of_number(s.drop_last(), record, number)
    }
}

/// Whether datasets stand in order.
pub open spec fn is_ordered(s: Seq<DatasetView>) -> bool {
    forall|i: int, j: int| 0 <= i <= j < s.len() ==> order_key(#[trigger] s[i]) <= order_key(#[trigger] s[j])
}

proof fn lemma_put_sorted(s: Seq<DatasetView>, d: DatasetView)
    requires
        is_ordered(s),
    ensures
        is_ordered(put_in_order(s, d)),
        put_in_order(s, d).len() == s.len() + 1,
        forall|i: int|
            0 <= i < put_in_order(s, d).len() ==> (#[trigger] put_in_order(s, d)[i]) == d || s.contains(
                put_in_order(s, d)[i],
            ),
    decreases s.len(),
{
    let r = put_in_order(s, d);
    if s.len() == 0 || order_key(s.last()) <= order_key(d) {
        assert forall|i: int| 0 <= i < r.len() implies (#[trigger] r[i]) == d || s.contains(r[i]) by {
            if i < s.len() {
                assert(s[i] == r[i]);
            }
        }
    } else {
        let init = s.drop_last();
        lemma_put_sorted(init, d);
        let q = put_in_order(init, d);
        assert forall|i: int| 0 <= i < r.len() implies (#[trigger] r[i]) == d || s.contains(r[i]) by {
            if i < q.len() {
                assert(r[i] == q[i]);
                if q[i] != d {
                    let j = choose|j: int| 0 <= j < init.len() && init[j] == q[i];
                    assert(s[j] == r[i]);
                }
            } else {
                assert(s[s.len() - 1] == r[i]);
            }
        }
        assert forall|i: int, j: int| 0 <= i <= j < r.len() implies order_key(#[trigger] r[i])
            <= order_key(#[trigger] r[j]) by {
            if i < q.len() && j == q.len() {
                assert(r[i] == q[i]);
                if q[i] != d {
                    let k = choose|k: int| 0 <= k < init.len() && init[k] == q[i];
                    assert(s[k] == q[i]);
                    assert(order_key(s[k]) <= order_key(s[s.len() - 1]));
                }
            }
        }
    }
}

/// Ordered datasets are ordered by record and number, and none is lost.
pub proof fn order_is_sorted(s: Seq<DatasetView>)
    ensures
        is_ordered(in_order(s)),
        in_order(s).len() == s.len(),
    decreases s.len(),
{
    if s.len() > 0 {
        order_is_sorted(s.drop_last());
        lemma_put_sorted(in_order(s.drop_last()), s.last());
    }
}

proof fn lemma_put_stable(s: Seq<DatasetView>, d: DatasetView, record: u8, number: u8)
    requires
        is_ordered(s),
    ensures
        of_number(put_in_order(s, d), record, number) == if d.record == record && d.number == number {
            of_number(s, record, number).push(d)
        } else {
            of_number(s, record, number)
        },
    decreases s.len(),
{
    if s.len() == 0 || order_key(s.last()) <= order_key(d) {
        assert(s.push(d).drop_last() =~= s);
    } else {
        let init = s.drop_last();
        lemma_put_stable(init, d, record, number);
        let q = put_in_order(init, d);
        assert(q.push(s.last()).drop_last() =~= q);
    }
}

// ---- reading and writing ----------------------------------------------------------------

/// Why IPTC could not be written.
#[derive(Debug, PartialEq, Eq)]
pub enum IptcError {
    /// The segment content, signature included, is too large for one segment.
    TooLarge(usize),
}

impl IptcError {
    /// The message shown to the user.
    pub fn message(&self) -> (s: String)
        ensures
            match *self {
                IptcError::TooLarge(n) => s@ == "IPTC/APP13 数据过大（"@ + text::dec(n as nat)
                    + " 字节），暂不支持分段写入"@,
            },
    {
        match *self {
            IptcError::TooLarge(n) => {
                let mut s: String = text::copy_text("IPTC/APP13 数据过大（");
                text::push_dec(&mut s, n as u64);
                s.append(" 字节），暂不支持分段写入");
                s
            },
        }
    }
}

/// Reads the datasets of an IIM stream.
pub fn parse_iim(d: &[u8]) -> (out: Vec<Dataset>)
    ensures
        datasets_view(out@) == iim_from(d@, 0),
{
    let mut out: Vec<Dataset> = Vec::new();
    let mut i: usize = 0;
    assert(datasets_view(out@) + iim_from(d@, 0) =~= iim_from(d@, 0));
    while d.len() - i >= 5
        invariant
            i <= d.len(),
            datasets_view(out@) + iim_from(d@, i as int) == iim_from(d@, 0),
        ensures
            iim_at(d@, i as int) is None,
        decreases d.len() - i,
    {
        let len: usize = bytes::read_be16(d, i + 3);
        if d[i] != 0x1C || len >= 0x8000 || len > d.len() - i - 5 {
            break;
        }
        let ghost before = datasets_view(out@);
        let ds: Dataset = Dataset {
            record: d[i + 1],
            number: d[i + 2],
            data: bytes::copy_bytes(&d[i + 5..i + 5 + len]),
        };
        let ghost one = ds@;
        out.push(ds);
        proof {
            assert(iim_at(d@, i as int) == Some(one));
            assert(datasets_view(out@) =~= before.push(one));
            let rest = iim_from(d@, i + 5 + len);
            assert(before.push(one) + rest =~= before + (seq![one] + rest));
        }
        i = i + 5 + len;
    }
    assert(datasets_view(out@) + iim_from(d@, i as int) =~= datasets_view(out@));
    out
}

/// Where `d` goes among ordered datasets: behind everything that is not ordered after it.
fn place_of(sorted: &Vec<Dataset>, d: &Dataset) -> (at: usize)
    ensures
        at <= sorted.len(),
        put_in_order(datasets_view(sorted@), d@) == datasets_view(sorted@).insert(at as int, d@),
{
    let mut at: usize = sorted.len();
    let key: u32 = d.record as u32 * 256 + d.number as u32;
    while at > 0 && sorted[at - 1].record as u32 * 256 + sorted[at - 1].number as u32 > key
        invariant
            at <= sorted.len(),
            key == order_key(d@),
            forall|k: int| at <= k < sorted.len() ==> order_key((#[trigger] sorted@[k])@) > key,
        decreases at,
    {
        at -= 1;
    }
    proof {
        let s = datasets_view(sorted@);
        assert forall|k: int| at <= k < s.len() implies order_key(#[trigger] s[k]) > order_key(d@) by {
            assert(s[k] == sorted@[k]@);
        }
        if at > 0 {
            assert(s[at - 1] == sorted@[at - 1]@);
        }
        lemma_put_at(s, d@, at as int);
    }
    at
}

proof fn lemma_put_at(s: Seq<DatasetView>, d: DatasetView, at: int)
    requires
        0 <= at <= s.len(),
        forall|k: int| at <= k < s.len() ==> order_key(#[trigger] s[k]) > order_key(d),
        at > 0 ==> order_key(s[at - 1]) <= order_key(d),
    ensures
        put_in_order(s, d) == s.insert(at, d),
    decreases s.len(),
{
    if at == s.len() {
        assert(s.insert(at, d) =~= s.push(d));
    } else {
        let init = s.drop_last();
        assert(order_key(s[s.len() - 1]) > order_key(d));
        lemma_put_at(init, d, at);
        assert(init.insert(at, d).push(s.last()) =~= s.insert(at, d));
    }
}

/// Writes datasets as an IIM stream: ordered by record and number, repeated ones in the given
/// order, data cut to 0x7FFF bytes.
pub fn serialize_iim(datasets: &[Dataset]) -> (out: Vec<u8>)
    ensures
        out@ == iim_stream(in_order(datasets_view(datasets@))),
{
    let mut sorted: Vec<Dataset> = Vec::new();
    let mut i: usize = 0;
    assert(datasets_view(sorted@) =~= in_order(datasets_view(datasets@.take(0))));
    while i < datasets.len()
        invariant
            i <= datasets.len(),
            datasets_view(sorted@) == in_order(datasets_view(datasets@.take(i as int))),
        decreases datasets.len() - i,
    {
        let ghost before = datasets_view(sorted@);
        let ds: Dataset = datasets[i].clone();
        let at: usize = place_of(&sorted, &ds);
        sorted.insert(at, ds);
        proof {
            assert(datasets_view(sorted@) =~= before.insert(at as int, ds@));
            let next = datasets_view(datasets@.take(i + 1));
            assert(next.drop_last() =~= datasets_view(datasets@.take(i as int)));
            assert(next.last() == ds@);
        }
        i += 1;
    }
    assert(datasets@.take(datasets@.len() as int) =~= datasets@);
    let mut out: Vec<u8> = Vec::new();
    let mut k: usize = 0;
    let ghost all = datasets_view(sorted@);
    assert(out@ =~= iim_stream(all.take(0)));
    while k < sorted.len()
        invariant
            k <= sorted.len(),
            all == datasets_view(sorted@),
            out@ == iim_stream(all.take(k as int)),
        decreases sorted.len() - k,
    {
        let ghost before = out@;
        let ds: &Dataset = &sorted[k];
        let len: usize = if ds.data.len() > 0x7FFF { 0x7FFF } else { ds.data.len() };
        out.push(0x1C);
        out.push(ds.record);
        out.push(ds.number);
        bytes::append_be16(&mut out, len as u16);
        bytes::append_bytes(&mut out, &ds.data[0..len]);
        proof {
            assert(all[k as int] == ds@);
            assert(ds.data@.subrange(0, len as int) =~= cut(ds@).data);
            assert(out@ =~= before + iim_bytes(ds@));
            let parts = all.take(k as int).map_values(|d: DatasetView| iim_bytes(d));
            assert(all.take(k + 1).map_values(|d: DatasetView| iim_bytes(d)) =~= parts.push(iim_bytes(ds@)));
            bytes::lemma_flat_push(parts, iim_bytes(ds@));
        }
        k += 1;
    }
    assert(all.take(all.len() as int) =~= all);
    out
}

/// Reads resource blocks.
pub fn parse_irbs(d: &[u8]) -> (out: Vec<Irb>)
    ensures
        irbs_view(out@) == irbs_from(d@, 0),
{
    let mark: [u8; 4] = [0x38, 0x42, 0x49, 0x4D];
    assert(mark@ =~= block_mark());
    let mut out: Vec<Irb> = Vec::new();
    let mut i: usize = 0;
    assert(irbs_view(out@) + irbs_from(d@, 0) =~= irbs_from(d@, 0));
    while d.len() - i >= 7
        invariant
            mark@ == block_mark(),
            i <= d.len(),
            irbs_view(out@) + irbs_from(d@, i as int) == irbs_from(d@, 0),
        ensures
            irb_at(d@, i as int) is None,
        decreases d.len() - i,
    {
        let name_len: usize = d[i + 6] as usize;
        if !bytes::same_bytes(&d[i..i + 4], &mark) || name_len > d.len() - i - 7 {
            break;
        }
        let name_field: usize = 1 + name_len;
        let padded: usize = name_field + name_field % 2;
        if padded > d.len() - i - 6 || d.len() - i - 6 - padded < 4 {
            break;
        }
        let at: usize = i + 6 + padded;
        let size: usize = bytes::read_be32(d, at);
        if size > d.len() - at - 4 {
            break;
        }
        let ghost before = irbs_view(out@);
        let irb: Irb = Irb {
            id: bytes::read_be16(d, i + 4) as u16,
            name: bytes::copy_bytes(&d[i + 7..i + 7 + name_len]),
            data: bytes::copy_bytes(&d[at + 4..at + 4 + size]),
        };
        let ghost one = irb@;
        out.push(irb);
        proof {
            assert(irb_at(d@, i as int) == Some(one));
            assert(irbs_view(out@) =~= before.push(one));
            let rest = irbs_from(d@, at + 4 + even(size as int));
            assert(before.push(one) + rest =~= before + (seq![one] + rest));
            if at + 4 + size == d.len() {
                assert(irbs_from(d@, at + 4 + size) =~= rest);
            }
        }
        let end: usize = at + 4 + size;
        i = if size % 2 == 1 && end < d.len() { end + 1 } else { end };
    }
    assert(irbs_view(out@) + irbs_from(d@, i as int) =~= irbs_view(out@));
    out
}

/// Writes one resource block.
fn serialize_irb(irb: &Irb) -> (out: Vec<u8>)
    ensures
        out@ == irb_bytes(irb@),
{
    reveal(irb_bytes);
    let mut out: Vec<u8> = vec![0x38, 0x42, 0x49, 0x4D];
    assert(out@ =~= block_mark());
    let name_len: usize = if irb.name.len() > 255 { 255 } else { irb.name.len() };
    let ghost name = irb.name@.subrange(0, name_len as int);
    bytes::append_be16(&mut out, irb.id);
    out.push(name_len as u8);
    bytes::append_bytes(&mut out, &irb.name[0..name_len]);
    let ghost head = block_mark() + bytes::be16_bytes(irb.id as int) + seq![name.len() as u8] + name;
    assert(out@ =~= head);
    if name_len % 2 == 0 {
        out.push(0);
    }
    assert(out@ =~= head + pad((1 + name.len()) as int));
    let size: u64 = irb.data.len() as u64 % 0x1_0000_0000;
    bytes::append_be32(&mut out, size as u32);
    bytes::append_bytes(&mut out, irb.data.as_slice());
    let ghost body = out@;
    if irb.data.len() % 2 == 1 {
        out.push(0);
    }
    assert(out@ =~= body + pad(irb.data@.len() as int));
    proof {
        if irb.name@.len() > 255 {
            assert(name =~= irb@.name.take(255));
        } else {
            assert(name =~= irb@.name);
        }
    }
    out
}

/// Writes resource blocks.
pub fn serialize_irbs(irbs: &[Irb]) -> (out: Vec<u8>)
    ensures
        out@ == irb_stream(irbs_view(irbs@)),
{
    let mut out: Vec<u8> = Vec::new();
    let mut k: usize = 0;
    let ghost all = irbs_view(irbs@);
    assert(out@ =~= irb_stream(all.take(0)));
    while k < irbs.len()
        invariant
            k <= irbs.len(),
            all == irbs_view(irbs@),
            out@ == irb_stream(all.take(k as int)),
        decreases irbs.len() - k,
    {
        let one: Vec<u8> = serialize_irb(&irbs[k]);
        bytes::append_bytes(&mut out, one.as_slice());
        proof {
            let irb = irbs@[k as int]@;
            assert(all[k as int] == irb);
            let parts = all.take(k as int).map_values(|b: IrbView| irb_bytes(b));
            assert(all.take(k + 1).map_values(|b: IrbView| irb_bytes(b)) =~= parts.push(irb_bytes(irb)));
            bytes::lemma_flat_push(parts, irb_bytes(irb));
        }
        k += 1;
    }
    assert(all.take(all.len() as int) =~= all);
    out
}

/// Finds the segment with the Photoshop signature: its start, its end and the resource blocks
/// behind the signature.
pub fn find_app13(bytes: &[u8]) -> (r: Option<(usize, usize, Vec<u8>)>)
    ensures
        match r {
            Some((start, end, body)) => jpeg::segment_of(bytes@, APP13, ps_signature()) == Some(start as int)
                && jpeg::segment_end(bytes@, start as int) == Some(end as int)
                && jpeg::segment_body(bytes@, APP13, ps_signature()) == Some(body@)
                && start <= end <= bytes.len(),
            None => jpeg::segment_of(bytes@, APP13, ps_signature()) is None,
        },
{
    let sig: [u8; 14] = [
        0x50, 0x68, 0x6F, 0x74, 0x6F, 0x73, 0x68, 0x6F, 0x70, 0x20, 0x33, 0x2E, 0x30, 0x00,
    ];
    assert(sig@ =~= ps_signature());
    match jpeg::find_segment(bytes, APP13, &sig) {
        Some((start, end)) => {
            let body: Vec<u8> = bytes::copy_bytes(&bytes[start + 4 + 14..end]);
            proof {
                let p = jpeg::payload(bytes@, start as int);
                assert(p.subrange(14, p.len() as int) =~= body@);
            }
            Some((start, end, body))
        },
        None => None,
    }
}

/// Reads all IPTC datasets of a JPEG.
pub fn read_datasets(bytes: &[u8]) -> (out: Vec<Dataset>)
    ensures
        datasets_view(out@) == datasets_of(bytes@),
{
    let blocks: Vec<Irb> = match find_app13(bytes) {
        Some((_, _, body)) => parse_irbs(body.as_slice()),
        None => Vec::new(),
    };
    assert(irbs_view(blocks@) =~= blocks_of(bytes@));
    let mut i: usize = 0;
    while i < blocks.len()
        invariant
            i <= blocks.len(),
            irbs_view(blocks@) == blocks_of(bytes@),
            iptc_block_from(blocks_of(bytes@), 0) == iptc_block_from(blocks_of(bytes@), i as int),
        decreases blocks.len() - i,
    {
        assert(blocks_of(bytes@)[i as int] == blocks@[i as int]@);
        if blocks[i].id == IPTC_ID {
            return parse_iim(blocks[i].data.as_slice());
        }
        i += 1;
    }
    let out: Vec<Dataset> = Vec::new();
    assert(datasets_view(out@) =~= datasets_of(bytes@));
    out
}

/// The blocks that are not IPTC.
fn drop_iptc(blocks: &Vec<Irb>) -> (rest: Vec<Irb>)
    ensures
        irbs_view(rest@) == other_blocks(irbs_view(blocks@)),
{
    let mut rest: Vec<Irb> = Vec::new();
    let mut i: usize = 0;
    assert(irbs_view(rest@) =~= other_blocks(irbs_view(blocks@.take(0))));
    while i < blocks.len()
        invariant
            i <= blocks.len(),
            irbs_view(rest@) == other_blocks(irbs_view(blocks@.take(i as int))),
        decreases blocks.len() - i,
    {
        proof {
            let next = irbs_view(blocks@.take(i + 1));
            assert(next.drop_last() =~= irbs_view(blocks@.take(i as int)));
            assert(next.last() == blocks@[i as int]@);
        }
        let ghost before = irbs_view(rest@);
        if blocks[i].id != IPTC_ID {
            let b: Irb = blocks[i].clone();
            rest.push(b);
            assert(irbs_view(rest@) =~= before.push(b@));
        }
        i += 1;
    }
    assert(blocks@.take(blocks@.len() as int) =~= blocks@);
    rest
}

/// Whether one of the blocks is IPTC.
fn has_iptc(blocks: &Vec<Irb>) -> (r: bool)
    ensures
        r == (iptc_block_from(irbs_view(blocks@), 0) is Some),
{
    let ghost all = irbs_view(blocks@);
    let mut i: usize = 0;
    while i < blocks.len()
        invariant
            i <= blocks.len(),
            all == irbs_view(blocks@),
            iptc_block_from(all, 0) == iptc_block_from(all, i as int),
        decreases blocks.len() - i,
    {
        assert(all[i as int] == blocks@[i as int]@);
        if blocks[i].id == IPTC_ID {
            return true;
        }
        i += 1;
    }
    false
}

/// Writes these resource blocks as the Photoshop segment, over the one there is or as a new
/// one behind the leading application segments.
pub fn write_app13(bytes: &mut Vec<u8>, irbs: &[Irb]) -> (r: Result<(), IptcError>)
    ensures
        match r {
            Ok(()) => blocks_fit(irbs_view(irbs@)) && final(bytes)@ == with_blocks(
                old(bytes)@,
                irbs_view(irbs@),
            ),
            Err(e) => !blocks_fit(irbs_view(irbs@)) && final(bytes)@ == old(bytes)@ && (irb_stream(
                irbs_view(irbs@),
            ).len() + 14 <= usize::MAX ==> e == IptcError::TooLarge(
                (irb_stream(irbs_view(irbs@)).len() + 14) as usize,
            )),
        },
{
    let sig: [u8; 14] = [
        0x50, 0x68, 0x6F, 0x74, 0x6F, 0x73, 0x68, 0x6F, 0x70, 0x20, 0x33, 0x2E, 0x30, 0x00,
    ];
    assert(sig@ =~= ps_signature());
    let body: Vec<u8> = serialize_irbs(irbs);
    if body.len() > 0xFFFF - 16 {
        return Err(IptcError::TooLarge(body.len().saturating_add(14)));
    }
    jpeg::put_segment(bytes, APP13, &sig, body.as_slice());
    Ok(())
}

/// Sets the IPTC of a JPEG to these datasets and keeps the other resource blocks.
pub fn set_jpeg_iptc(bytes: &mut Vec<u8>, datasets: &[Dataset]) -> (r: Result<(), IptcError>)
    ensures
        ({
            let blocks = blocks_with(blocks_of(old(bytes)@), datasets_view(datasets@));
            match r {
                Ok(()) => blocks_fit(blocks) && final(bytes)@ == with_blocks(old(bytes)@, blocks),
                Err(e) => !blocks_fit(blocks) && final(bytes)@ == old(bytes)@ && (irb_stream(blocks).len() + 14
                    <= usize::MAX ==> e == IptcError::TooLarge((irb_stream(blocks).len() + 14) as usize)),
            }
        }),
{
    let old_blocks: Vec<Irb> = match find_app13(bytes) {
        Some((_, _, body)) => parse_irbs(body.as_slice()),
        None => Vec::new(),
    };
    assert(irbs_view(old_blocks@) =~= blocks_of(bytes@));
    let mut blocks: Vec<Irb> = drop_iptc(&old_blocks);
    let ghost rest = irbs_view(blocks@);
    let block: Irb = Irb { id: IPTC_ID, name: Vec::new(), data: serialize_iim(datasets) };
    let ghost first = block@;
    blocks.insert(0, block);
    assert(irbs_view(blocks@) =~= seq![first] + rest);
    assert(first.name =~= Seq::<u8>::empty());
    write_app13(bytes, blocks.as_slice())
}

/// Takes the IPTC out of a JPEG, and the whole segment where nothing else is in it. The result
/// says whether there was any.
pub fn remove_jpeg_iptc(bytes: &mut Vec<u8>) -> (removed: bool)
    ensures
        removed == (iptc_block_from(blocks_of(old(bytes)@), 0) is Some),
        final(bytes)@ == without_iptc(old(bytes)@),
{
    let sig: [u8; 14] = [
        0x50, 0x68, 0x6F, 0x74, 0x6F, 0x73, 0x68, 0x6F, 0x70, 0x20, 0x33, 0x2E, 0x30, 0x00,
    ];
    assert(sig@ =~= ps_signature());
    let blocks: Vec<Irb> = match find_app13(bytes) {
        Some((_, _, body)) => parse_irbs(body.as_slice()),
        None => {
            assert(blocks_of(bytes@) =~= Seq::<IrbView>::empty());
            return false;
        },
    };
    assert(irbs_view(blocks@) == blocks_of(bytes@));
    let rest: Vec<Irb> = drop_iptc(&blocks);
    if !has_iptc(&blocks) {
        return false;
    }
    proof {
        lemma_rest_fits(bytes@);
    }
    if rest.len() == 0 {
        jpeg::cut_segment(bytes, APP13, &sig)
    } else {
        match write_app13(bytes, rest.as_slice()) {
            Ok(()) => true,
            Err(_) => false,
        }
    }
}

// ---- editing ----------------------------------------------------------------------------

/// The datasets after an edit: those it does not touch, then those it adds. Values are UTF-8
/// throughout, so where there is content the mark of UTF-8 comes first and takes the place of
/// every other character set, whether it stood there before or the edit itself sets 1:90.
pub fn apply(existing: &[Dataset], edit: &IptcEdit) -> (out: Vec<Dataset>)
    ensures
        datasets_view(out@) == edited(datasets_view(existing@), edit),
{
    let mut out: Vec<Dataset> = Vec::new();
    let mut i: usize = 0;
    assert(datasets_view(out@) =~= untouched(datasets_view(existing@.take(0)), edit));
    while i < existing.len()
        invariant
            i <= existing.len(),
            datasets_view(out@) == untouched(datasets_view(existing@.take(i as int)), edit),
        decreases existing.len() - i,
    {
        proof {
            let next = datasets_view(existing@.take(i + 1));
            assert(next.drop_last() =~= datasets_view(existing@.take(i as int)));
            assert(next.last() == existing@[i as int]@);
        }
        let ghost before = datasets_view(out@);
        if !edit.has_target(existing[i].record, existing[i].number) {
            let d: Dataset = existing[i].clone();
            out.push(d);
            assert(datasets_view(out@) =~= before.push(d@));
        }
        i += 1;
    }
    assert(existing@.take(existing@.len() as int) =~= existing@);
    let ghost kept = datasets_view(out@);
    let mut k: usize = 0;
    assert(datasets_view(out@) =~= kept + added(edit.sets@.take(0)));
    while k < edit.sets.len()
        invariant
            k <= edit.sets.len(),
            datasets_view(out@) == kept + added(edit.sets@.take(k as int)),
        decreases edit.sets.len() - k,
    {
        let ghost before = datasets_view(out@);
        let set: &(u8, u8, Vec<String>) = &edit.sets[k];
        let values: &Vec<String> = &set.2;
        let ghost all = added_values(set.0, set.1, values@);
        let mut j: usize = 0;
        assert(datasets_view(out@) =~= before + all.take(0));
        while j < values.len()
            invariant
                j <= values.len(),
                all == added_values(set.0, set.1, values@),
                datasets_view(out@) == before + all.take(j as int),
            decreases values.len() - j,
        {
            let ghost so_far = datasets_view(out@);
            let d: Dataset = Dataset {
                record: set.0,
                number: set.1,
                data: bytes::copy_bytes(values[j].as_str().as_bytes()),
            };
            assert(d@ == all[j as int]);
            out.push(d);
            assert(datasets_view(out@) =~= so_far.push(d@));
            assert(so_far.push(d@) =~= before + all.take(j + 1));
            j += 1;
        }
        proof {
            assert(all.take(all.len() as int) =~= all);
            let next = edit.sets@.take(k + 1);
            assert(next.drop_last() =~= edit.sets@.take(k as int));
            assert(next.last() == *set);
            assert(kept + added(edit.sets@.take(k as int)) + all =~= kept + (added(
                edit.sets@.take(k as int),
            ) + all));
        }
        k += 1;
    }
    assert(edit.sets@.take(edit.sets@.len() as int) =~= edit.sets@);
    if has_record_in(&out, 2) {
        declare_utf8(&out)
    } else {
        out
    }
}

/// The datasets with the mark of UTF-8 in front and no other character set.
fn declare_utf8(v: &Vec<Dataset>) -> (out: Vec<Dataset>)
    ensures
        datasets_view(out@) == seq![charset_mark()] + without_charset(datasets_view(v@)),
{
    let mark: Dataset = Dataset { record: 1, number: 90, data: vec![0x1B, 0x25, 0x47] };
    assert(mark.data@ =~= utf8_mark());
    let mut out: Vec<Dataset> = Vec::new();
    out.push(mark);
    let mut i: usize = 0;
    assert(datasets_view(out@) =~= seq![charset_mark()] + without_charset(datasets_view(v@.take(0))));
    while i < v.len()
        invariant
            i <= v.len(),
            datasets_view(out@) == seq![charset_mark()] + without_charset(datasets_view(v@.take(i as int))),
        decreases v.len() - i,
    {
        proof {
            let next = datasets_view(v@.take(i + 1));
            assert(next.drop_last() =~= datasets_view(v@.take(i as int)));
            assert(next.last() == v@[i as int]@);
        }
        let ghost before = datasets_view(out@);
        let ghost others = without_charset(datasets_view(v@.take(i as int)));
        if !(v[i].record == 1 && v[i].number == 90) {
            let d: Dataset = v[i].clone();
            out.push(d);
            assert(datasets_view(out@) =~= before.push(d@));
            assert((seq![charset_mark()] + others).push(d@) =~= seq![charset_mark()] + others.push(d@));
        }
        i += 1;
    }
    assert(v@.take(v@.len() as int) =~= v@);
    out
}

fn has_record_in(v: &Vec<Dataset>, record: u8) -> (r: bool)
    ensures
        r == has_record(datasets_view(v@), record),
{
    let ghost s = datasets_view(v@);
    let mut i: usize = 0;
    while i < v.len()
        invariant
            i <= v.len(),
            s == datasets_view(v@),
            forall|k: int| 0 <= k < i ==> (#[trigger] s[k]).record != record,
        decreases v.len() - i,
    {
        assert(s[i as int] == v@[i as int]@);
        if v[i].record == record {
            return true;
        }
        i += 1;
    }
    false
}

/// An edit leaves the datasets of a number that it does not name as they were. (The character
/// set 1:90 is left out: where there is content it becomes the mark of UTF-8.)
pub proof fn edit_keeps_others(s: Seq<DatasetView>, edit: &IptcEdit, record: u8, number: u8)
    requires
        !edit.touches(record, number),
        !(record == 1 && number == 90),
    ensures
        of_number(edited(s, edit), record, number) == of_number(s, record, number),
{
    lemma_untouched(s, edit, record, number);
    lemma_added_others(edit.sets@, edit, record, number);
    lemma_of_number_concat(untouched(s, edit), added(edit.sets@), record, number);
    lemma_charset_keeps(untouched(s, edit) + added(edit.sets@), record, number);
    assert(of_number(s, record, number) + Seq::<DatasetView>::empty() =~= of_number(s, record, number));
}

/// A number that an edit removes, and does not set, is gone.
pub proof fn edit_removes(s: Seq<DatasetView>, edit: &IptcEdit, record: u8, number: u8)
    requires
        edit.removes@.contains((record, number)),
        forall|i: int|
            0 <= i < edit.sets@.len() ==> !((#[trigger] edit.sets@[i]).0 == record && edit.sets@[i].1
                == number),
        !(record == 1 && number == 90),
    ensures
        of_number(edited(s, edit), record, number) == Seq::<DatasetView>::empty(),
{
    lemma_touched(s, edit, record, number);
    lemma_added_none(edit.sets@, record, number);
    lemma_of_number_concat(untouched(s, edit), added(edit.sets@), record, number);
    lemma_charset_keeps(untouched(s, edit) + added(edit.sets@), record, number);
    assert(Seq::<DatasetView>::empty() + Seq::<DatasetView>::empty() =~= Seq::<DatasetView>::empty());
}

/// A number that an edit sets holds exactly the values given for it, in the given order.
pub proof fn edit_sets(s: Seq<DatasetView>, edit: &IptcEdit, record: u8, number: u8)
    requires
        exists|i: int| 0 <= i < edit.sets@.len() && (#[trigger] edit.sets@[i]).0 == record
            && edit.sets@[i].1 == number,
        !(record == 1 && number == 90),
    ensures
        of_number(edited(s, edit), record, number) == of_number(added(edit.sets@), record, number),
{
    lemma_touched(s, edit, record, number);
    lemma_of_number_concat(untouched(s, edit), added(edit.sets@), record, number);
    lemma_charset_keeps(untouched(s, edit) + added(edit.sets@), record, number);
    let a = of_number(added(edit.sets@), record, number);
    assert(Seq::<DatasetView>::empty() + a =~= a);
}

/// Content is always declared as UTF-8: after an edit that leaves datasets of record 2, the mark
/// of UTF-8 is there, and it is the only character set.
pub proof fn content_has_charset(s: Seq<DatasetView>, edit: &IptcEdit)
    requires
        has_record(edited(s, edit), 2),
    ensures
        edited(s, edit).contains(charset_mark()),
        of_number(edited(s, edit), 1, 90) == seq![charset_mark()],
{
    let plain = untouched(s, edit) + added(edit.sets@);
    let out = edited(s, edit);
    assert(has_record(plain, 2));
    assert(out[0] == charset_mark());
    let one = seq![charset_mark()];
    lemma_without_charset(plain, 1, 90);
    lemma_of_number_concat(one, without_charset(plain), 1, 90);
    assert(one.drop_last() =~= Seq::<DatasetView>::empty());
    assert(of_number(one.drop_last(), 1, 90) =~= Seq::<DatasetView>::empty());
    assert(of_number(one, 1, 90) =~= one);
    assert(one + Seq::<DatasetView>::empty() =~= one);
}

/// Leaving the character set out drops the datasets 1:90 and no others.
proof fn lemma_without_charset(s: Seq<DatasetView>, record: u8, number: u8)
    ensures
        of_number(without_charset(s), record, number) == if record == 1 && number == 90 {
            Seq::<DatasetView>::empty()
        } else {
            of_number(s, record, number)
        },
    decreases s.len(),
{
    if s.len() > 0 {
        lemma_without_charset(s.drop_last(), record, number);
        let u = without_charset(s.drop_last());
        assert(u.push(s.last()).drop_last() =~= u);
    }
}

proof fn lemma_of_number_concat(a: Seq<DatasetView>, b: Seq<DatasetView>, record: u8, number: u8)
    ensures
        of_number(a + b, record, number) == of_number(a, record, number) + of_number(b, record, number),
    decreases b.len(),
{
    if b.len() == 0 {
        assert(a + b =~= a);
        assert(of_number(a, record, number) + of_number(b, record, number) =~= of_number(a, record, number));
    } else {
        lemma_of_number_concat(a, b.drop_last(), record, number);
        assert((a + b).drop_last() =~= a + b.drop_last());
        assert((a + b).last() == b.last());
        assert(of_number(a + b, record, number) =~= of_number(a, record, number) + of_number(
            b,
            record,
            number,
        ));
    }
}

proof fn lemma_untouched(s: Seq<DatasetView>, edit: &IptcEdit, record: u8, number: u8)
    requires
        !edit.touches(record, number),
    ensures
        of_number(untouched(s, edit), record, number) == of_number(s, record, number),
    decreases s.len(),
{
    if s.len() > 0 {
        lemma_untouched(s.drop_last(), edit, record, number);
        let u = untouched(s.drop_last(), edit);
        assert(u.push(s.last()).drop_last() =~= u);
    }
}

proof fn lemma_touched(s: Seq<DatasetView>, edit: &IptcEdit, record: u8, number: u8)
    requires
        edit.touches(record, number),
    ensures
        of_number(untouched(s, edit), record, number) == Seq::<DatasetView>::empty(),
    decreases s.len(),
{
    if s.len() > 0 {
        lemma_touched(s.drop_last(), edit, record, number);
        let u = untouched(s.drop_last(), edit);
        assert(u.push(s.last()).drop_last() =~= u);
    }
}

proof fn lemma_added_none(sets: Seq<(u8, u8, Vec<String>)>, record: u8, number: u8)
    requires
        forall|i: int| 0 <= i < sets.len() ==> !((#[trigger] sets[i]).0 == record && sets[i].1 == number),
    ensures
        of_number(added(sets), record, number) == Seq::<DatasetView>::empty(),
    decreases sets.len(),
{
    if sets.len() > 0 {
        let init = sets.drop_last();
        let last = sets.last();
        assert forall|i: int| 0 <= i < init.len() implies !((#[trigger] init[i]).0 == record && init[i].1
            == number) by {
            assert(init[i] == sets[i]);
        }
        lemma_added_none(init, record, number);
        assert(!(sets[sets.len() - 1].0 == record && sets[sets.len() - 1].1 == number));
        lemma_values_none(last.0, last.1, last.2@, record, number);
        lemma_of_number_concat(added(init), added_values(last.0, last.1, last.2@), record, number);
    }
}

proof fn lemma_values_none(r: u8, n: u8, values: Seq<String>, record: u8, number: u8)
    requires
        !(r == record && n == number),
    ensures
        of_number(added_values(r, n, values), record, number) == Seq::<DatasetView>::empty(),
    decreases values.len(),
{
    let a = added_values(r, n, values);
    if values.len() > 0 {
        lemma_values_none(r, n, values.drop_last(), record, number);
        assert(a.drop_last() =~= added_values(r, n, values.drop_last()));
        assert(a.last().record == r && a.last().number == n);
    }
}

proof fn lemma_added_others(sets: Seq<(u8, u8, Vec<String>)>, edit: &IptcEdit, record: u8, number: u8)
    requires
        sets == edit.sets@,
        !edit.touches(record, number),
    ensures
        of_number(added(sets), record, number) == Seq::<DatasetView>::empty(),
{
    lemma_added_none(sets, record, number);
}

proof fn lemma_charset_keeps(s: Seq<DatasetView>, record: u8, number: u8)
    requires
        !(record == 1 && number == 90),
    ensures
        of_number(with_charset(s), record, number) == of_number(s, record, number),
{
    let mark = seq![charset_mark()];
    lemma_without_charset(s, record, number);
    lemma_of_number_concat(mark, without_charset(s), record, number);
    assert(mark.drop_last() =~= Seq::<DatasetView>::empty());
    assert(of_number(mark.drop_last(), record, number) =~= Seq::<DatasetView>::empty());
    assert(of_number(mark, record, number) =~= Seq::<DatasetView>::empty());
    assert(Seq::<DatasetView>::empty() + of_number(s, record, number) =~= of_number(s, record, number));
}

// ---- names and display ------------------------------------------------------------------

/// The name of a dataset of the application record, where it has one.
pub open spec fn known_name(number: u8) -> Option<Seq<char>> {
    if number == 5 {
        Some("Title"@)
    } else if number == 15 {
        Some("Category"@)
    } else if number == 20 {
        Some("SupplementalCategory"@)
    } else if number == 25 {
        Some("Keywords"@)
    } else if number == 40 {
        Some("Instructions"@)
    } else if number == 55 {
        Some("DateCreated"@)
    } else if number == 60 {
        Some("TimeCreated"@)
    } else if number == 80 {
        Some("Creator"@)
    } else if number == 85 {
        Some("CreatorTitle"@)
    } else if number == 90 {
        Some("City"@)
    } else if number == 92 {
        Some("Sublocation"@)
    } else if number == 95 {
        Some("Province/State"@)
    } else if number == 101 {
        Some("Country"@)
    } else if number == 103 {
        Some("TransmissionRef"@)
    } else if number == 105 {
        Some("Headline"@)
    } else if number == 110 {
        Some("Credit"@)
    } else if number == 115 {
        Some("Source"@)
    } else if number == 116 {
        Some("Copyright"@)
    } else if number == 120 {
        Some("Caption"@)
    } else if number == 122 {
        Some("CaptionWriter"@)
    } else {
        None
    }
}

/// The display name of a dataset: its known name, or its numbers.
pub open spec fn display_name(record: u8, number: u8) -> Seq<char> {
    if record == 2 && known_name(number) is Some {
        known_name(number)->0
    } else {
        "IPTC:"@ + text::dec(record as nat) + ":"@ + text::dec(number as nat)
    }
}

/// The name of a dataset of the application record, where it has one.
fn known_field_name(number: u8) -> (r: Option<&'static str>)
    ensures
        match r {
            Some(s) => known_name(number) == Some(s@),
            None => known_name(number) is None,
        },
{
    match number {
        5 => Some("Title"),
        15 => Some("Category"),
        20 => Some("SupplementalCategory"),
        25 => Some("Keywords"),
        40 => Some("Instructions"),
        55 => Some("DateCreated"),
        60 => Some("TimeCreated"),
        80 => Some("Creator"),
        85 => Some("CreatorTitle"),
        90 => Some("City"),
        92 => Some("Sublocation"),
        95 => Some("Province/State"),
        101 => Some("Country"),
        103 => Some("TransmissionRef"),
        105 => Some("Headline"),
        110 => Some("Credit"),
        115 => Some("Source"),
        116 => Some("Copyright"),
        120 => Some("Caption"),
        122 => Some("CaptionWriter"),
        _ => None,
    }
}

/// The display name of a dataset.
pub fn field_name(record: u8, number: u8) -> (s: String)
    ensures
        s@ == display_name(record, number),
{
    if record == 2 {
        match known_field_name(number) {
            Some(name) => {
                return text::copy_text(name);
            },
            None => {},
        }
    }
    let mut s: String = text::copy_text("IPTC:");
    text::push_dec(&mut s, record as u64);
    s.append(":");
    text::push_dec(&mut s, number as u64);
    s
}

/// A field name as it is looked up: trimmed, in lower case, without `-`, `_` and spaces.
pub open spec fn canonical(name: Seq<char>) -> Seq<char> {
    text::without_any(text::lowered(text::trimmed(name)), seq!['-', '_', ' '])
}

/// The numbers that `record:number` gives.
pub open spec fn numbered_field(canon: Seq<char>) -> Option<(u8, u8)> {
    match text::char_from(canon, 0, ':') {
        None => None,
        Some(colon) => match (
            text::numeral_up_to(canon.subrange(0, colon), 255),
            text::numeral_up_to(canon.subrange(colon + 1, canon.len() as int), 255),
        ) {
            (Some(r), Some(d)) => Some((r as u8, d as u8)),
            _ => None,
        },
    }
}

/// The numbers of a field by one of its names.
pub open spec fn named_field(canon: Seq<char>) -> Option<(u8, u8)> {
    if canon == "title"@ || canon == "objectname"@ {
        Some((2, 5))
    } else if canon == "category"@ {
        Some((2, 15))
    } else if canon == "keywords"@ || canon == "keyword"@ {
        Some((2, 25))
    } else if canon == "instructions"@ {
        Some((2, 40))
    } else if canon == "datecreated"@ {
        Some((2, 55))
    } else if canon == "creator"@ || canon == "byline"@ || canon == "author"@ {
        Some((2, 80))
    } else if canon == "city"@ {
        Some((2, 90))
    } else if canon == "sublocation"@ {
        Some((2, 92))
    } else if canon == "state"@ || canon == "province"@ {
        Some((2, 95))
    } else if canon == "country"@ {
        Some((2, 101))
    } else if canon == "headline"@ {
        Some((2, 105))
    } else if canon == "credit"@ {
        Some((2, 110))
    } else if canon == "source"@ {
        Some((2, 115))
    } else if canon == "copyright"@ {
        Some((2, 116))
    } else if canon == "caption"@ || canon == "description"@ {
        Some((2, 120))
    } else if canon == "captionwriter"@ {
        Some((2, 122))
    } else {
        None
    }
}

/// The numbers of the field that a user names, by numbers or by name.
pub open spec fn field_of(name: Seq<char>) -> Option<(u8, u8)> {
    match numbered_field(canonical(name)) {
        Some(f) => Some(f),
        None => named_field(canonical(name)),
    }
}

/// Resolves a field name, or `record:number`, to record and dataset number.
pub fn resolve_field(name: &str) -> (r: Option<(u8, u8)>)
    ensures
        r == field_of(name@),
{
    let cs: Vec<char> = text::chars_of(name);
    let low: Vec<char> = text::lower_chars(text::trim_chars(cs.as_slice()));
    let unwanted: [char; 3] = ['-', '_', ' '];
    assert(unwanted@ =~= seq!['-', '_', ' ']);
    let canon: Vec<char> = text::drop_chars(low.as_slice(), &unwanted);
    let c: &[char] = canon.as_slice();
    match text::find_char(c, 0, ':') {
        Some(colon) => {
            match (text::parse_number(&c[0..colon], 255), text::parse_number(&c[colon + 1..c.len()], 255)) {
                (Some(r), Some(d)) => {
                    return Some((r as u8, d as u8));
                },
                _ => {},
            }
        },
        None => {},
    }
    if text::is_text(c, "title") || text::is_text(c, "objectname") {
        Some((2, 5))
    } else if text::is_text(c, "category") {
        Some((2, 15))
    } else if text::is_text(c, "keywords") || text::is_text(c, "keyword") {
        Some((2, 25))
    } else if text::is_text(c, "instructions") {
        Some((2, 40))
    } else if text::is_text(c, "datecreated") {
        Some((2, 55))
    } else if text::is_text(c, "creator") || text::is_text(c, "byline") || text::is_text(c, "author") {
        Some((2, 80))
    } else if text::is_text(c, "city") {
        Some((2, 90))
    } else if text::is_text(c, "sublocation") {
        Some((2, 92))
    } else if text::is_text(c, "state") || text::is_text(c, "province") {
        Some((2, 95))
    } else if text::is_text(c, "country") {
        Some((2, 101))
    } else if text::is_text(c, "headline") {
        Some((2, 105))
    } else if text::is_text(c, "credit") {
        Some((2, 110))
    } else if text::is_text(c, "source") {
        Some((2, 115))
    } else if text::is_text(c, "copyright") {
        Some((2, 116))
    } else if text::is_text(c, "caption") || text::is_text(c, "description") {
        Some((2, 120))
    } else if text::is_text(c, "captionwriter") {
        Some((2, 122))
    } else {
        None
    }
}

/// Each byte as the character of that number.
pub open spec fn latin1(data: Seq<u8>) -> Seq<char> {
    data.map_values(|b: u8| b as char)
}

/// The text of a dataset. Marked as UTF-8, invalid parts are replaced; unmarked, it is UTF-8 if
/// it can be and Latin-1 otherwise.
pub open spec fn dataset_text(data: Seq<u8>, utf8: bool) -> Seq<char> {
    if utf8 || valid_utf8(data) {
        text::any_text(data)
    } else {
        latin1(data)
    }
}

/// Reads the text of a dataset.
pub fn decode_text(data: &[u8], utf8: bool) -> (s: String)
    ensures
        s@ == dataset_text(data@, utf8),
        valid_utf8(data@) ==> s@ == decode_utf8(data@),
{
    if utf8 {
        return text::utf8_lossy_text(data);
    }
    match text::utf8_text(data) {
        Some(s) => s,
        None => {
            let mut s: String = String::new();
            let mut i: usize = 0;
            while i < data.len()
                invariant
                    i <= data.len(),
                    s@ == latin1(data@.take(i as int)),
                decreases data.len() - i,
            {
                s.push(data[i] as char);
                i += 1;
                assert(s@ =~= latin1(data@.take(i as int)));
            }
            assert(data@.take(data@.len() as int) =~= data@);
            s
        },
    }
}

/// A list of names and texts.
pub type Properties = Seq<(Seq<char>, Seq<char>)>;

/// The names and texts of a list of pairs.
pub open spec fn properties_view(v: Seq<(String, String)>) -> Properties {
    v.map_values(|p: (String, String)| (p.0@, p.1@))
}

/// The first entry of this name at or after `i`.
pub open spec fn entry_from(s: Properties, i: int, name: Seq<char>) -> Option<int>
    decreases s.len() - i,
{
    if i < 0 || i >= s.len() {
        None
    } else if s[i].0 == name {
        Some(i)
    } else {
        entry_from(s, i + 1, name)
    }
}

/// `s` with a value added: to the entry of that name behind `; `, or as a new entry.
pub open spec fn merged(s: Properties, name: Seq<char>, value: Seq<char>) -> Properties {
    match entry_from(s, 0, name) {
        Some(i) => s.update(i, (name, s[i].1 + "; "@ + value)),
        None => s.push((name, value)),
    }
}

/// What is shown of datasets: all but the envelope record, repeated ones merged.
pub open spec fn shown(s: Seq<DatasetView>, utf8: bool) -> Properties
    decreases s.len(),
{
    if s.len() == 0 {
        Seq::empty()
    } else if s.last().record == 1 {
        shown(s.drop_last(), utf8)
    } else {
        merged(
            shown(s.drop_last(), utf8),
            display_name(s.last().record, s.last().number),
            dataset_text(s.last().data, utf8),
        )
    }
}

/// Whether the datasets are marked as UTF-8.
pub open spec fn marked_utf8(s: Seq<DatasetView>) -> bool {
    s.contains(DatasetView { record: 1, number: 90, data: utf8_mark() })
}

fn is_marked_utf8(v: &Vec<Dataset>) -> (r: bool)
    ensures
        r == marked_utf8(datasets_view(v@)),
{
    let mark: [u8; 3] = [0x1B, 0x25, 0x47];
    assert(mark@ =~= utf8_mark());
    let ghost s = datasets_view(v@);
    let ghost wanted = DatasetView { record: 1, number: 90, data: utf8_mark() };
    let mut i: usize = 0;
    while i < v.len()
        invariant
            i <= v.len(),
            mark@ == utf8_mark(),
            s == datasets_view(v@),
            wanted == (DatasetView { record: 1, number: 90, data: utf8_mark() }),
            forall|k: int| 0 <= k < i ==> (#[trigger] s[k]) != wanted,
        decreases v.len() - i,
    {
        assert(s[i as int] == v@[i as int]@);
        if v[i].record == 1 && v[i].number == 90 && bytes::same_bytes(v[i].data.as_slice(), &mark) {
            assert(s[i as int] == wanted);
            return true;
        }
        i += 1;
    }
    false
}

/// Adds a value to the entry of its name, or a new entry.
fn merge_property(out: &mut Vec<(String, String)>, name: String, value: String)
    ensures
        properties_view(final(out)@) == merged(properties_view(old(out)@), name@, value@),
{
    let ghost s = properties_view(out@);
    let mut i: usize = 0;
    while i < out.len()
        invariant
            i <= out.len(),
            out@ == old(out)@,
            s == properties_view(out@),
            entry_from(s, 0, name@) == entry_from(s, i as int, name@),
        decreases out.len() - i,
    {
        assert(s[i as int] == (out@[i as int].0@, out@[i as int].1@));
        if text::same_text(out[i].0.as_str(), name.as_str()) {
            let mut both: String = out[i].1.clone();
            both.append("; ");
            both.append(value.as_str());
            let ghost text = both@;
            out.set(i, (name, both));
            assert(properties_view(out@) =~= s.update(i as int, (name@, text)));
            return;
        }
        i += 1;
    }
    out.push((name, value));
    assert(properties_view(out@) =~= s.push((name@, value@)));
}

/// What is shown of datasets: name and text, repeated ones merged.
pub fn show_datasets(datasets: &Vec<Dataset>) -> (out: Vec<(String, String)>)
    ensures
        properties_view(out@) == shown(datasets_view(datasets@), marked_utf8(datasets_view(datasets@))),
{
    let utf8: bool = is_marked_utf8(datasets);
    let mut out: Vec<(String, String)> = Vec::new();
    let mut i: usize = 0;
    assert(properties_view(out@) =~= shown(datasets_view(datasets@.take(0)), utf8));
    while i < datasets.len()
        invariant
            i <= datasets.len(),
            properties_view(out@) == shown(datasets_view(datasets@.take(i as int)), utf8),
        decreases datasets.len() - i,
    {
        proof {
            let next = datasets_view(datasets@.take(i + 1));
            assert(next.drop_last() =~= datasets_view(datasets@.take(i as int)));
            assert(next.last() == datasets@[i as int]@);
        }
        let ds: &Dataset = &datasets[i];
        if ds.record != 1 {
            let name: String = field_name(ds.record, ds.number);
            let value: String = decode_text(ds.data.as_slice(), utf8);
            merge_property(&mut out, name, value);
        }
        i += 1;
    }
    assert(datasets@.take(datasets@.len() as int) =~= datasets@);
    out
}

/// Reads what is shown of the IPTC of a JPEG.
pub fn read_properties(bytes: &[u8]) -> (out: Vec<(String, String)>)
    ensures
        properties_view(out@) == shown(datasets_of(bytes@), marked_utf8(datasets_of(bytes@))),
{
    let datasets: Vec<Dataset> = read_datasets(bytes);
    show_datasets(&datasets)
}

} // verus!
