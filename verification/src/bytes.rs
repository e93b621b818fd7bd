//! Byte sequences: big-endian numbers, prefixes and splicing.

use vstd::prelude::*;

verus! {

/// `b` with the range `start..end` replaced by `insert`.
pub open spec fn spliced(b: Seq<u8>, start: int, end: int, insert: Seq<u8>) -> Seq<u8> {
    b.subrange(0, start) + insert + b.subrange(end, b.len() as int)
}

/// The big-endian 16-bit number at `i`.
pub open spec fn be16_at(b: Seq<u8>, i: int) -> int {
    b[i] * 256 + b[i + 1]
}

/// The big-endian 32-bit number at `i`.
pub open spec fn be32_at(b: Seq<u8>, i: int) -> int {
    be16_at(b, i) * 65536 + be16_at(b, i + 2)
}

/// `n` as two bytes, most significant first.
pub open spec fn be16_bytes(n: int) -> Seq<u8> {
    seq![(n / 256) as u8, (n % 256) as u8]
}

/// `n` as four bytes, most significant first.
pub open spec fn be32_bytes(n: int) -> Seq<u8> {
    be16_bytes(n / 65536) + be16_bytes(n % 65536)
}

/// Whether `b` begins with `prefix`.
pub open spec fn begins_with(b: Seq<u8>, prefix: Seq<u8>) -> bool {
    b.len() >= prefix.len() && b.subrange(0, prefix.len() as int) == prefix
}

/// What a splice keeps, and where it puts what it inserts.
pub proof fn lemma_spliced(b: Seq<u8>, start: int, end: int, insert: Seq<u8>)
    requires
        0 <= start <= end <= b.len(),
    ensures
        spliced(b, start, end, insert).len() == b.len() - (end - start) + insert.len(),
        spliced(b, start, end, insert).subrange(0, start) == b.subrange(0, start),
        spliced(b, start, end, insert).subrange(start, start + insert.len()) == insert,
        forall|k: int| 0 <= k < start ==> spliced(b, start, end, insert)[k] == b[k],
{
    let c = spliced(b, start, end, insert);
    assert(c.subrange(0, start) =~= b.subrange(0, start));
    assert(c.subrange(start, start + insert.len()) =~= insert);
}

/// A splice of nothing over nothing changes nothing.
pub proof fn lemma_spliced_nothing(b: Seq<u8>, at: int)
    requires
        0 <= at <= b.len(),
    ensures
        spliced(b, at, at, Seq::empty()) == b,
{
    assert(spliced(b, at, at, Seq::empty()) =~= b);
}

/// Replacing what a splice inserted is splicing the replacement.
pub proof fn lemma_respliced(b: Seq<u8>, start: int, end: int, first: Seq<u8>, second: Seq<u8>)
    requires
        0 <= start <= end <= b.len(),
    ensures
        spliced(spliced(b, start, end, first), start, start + first.len(), second)
            == spliced(b, start, end, second),
{
    let c = spliced(b, start, end, first);
    assert(c.subrange(0, start) =~= b.subrange(0, start));
    assert(c.subrange(start + first.len(), c.len() as int) =~= b.subrange(end, b.len() as int));
}

/// Writing a 16-bit number and reading it back gives the number.
pub proof fn lemma_be16_round_trip(n: int)
    requires
        0 <= n < 65536,
    ensures
        be16_bytes(n).len() == 2,
        be16_at(be16_bytes(n), 0) == n,
{
}

/// Writing a 32-bit number and reading it back gives the number.
pub proof fn lemma_be32_round_trip(n: int)
    requires
        0 <= n < 0x1_0000_0000,
    ensures
        be32_bytes(n).len() == 4,
        be32_at(be32_bytes(n), 0) == n,
{
    let hi = n / 65536;
    let lo = n % 65536;
    lemma_be16_round_trip(hi);
    lemma_be16_round_trip(lo);
    let s = be32_bytes(n);
    assert(s[0] == be16_bytes(hi)[0] && s[1] == be16_bytes(hi)[1]);
    assert(s[2] == be16_bytes(lo)[0] && s[3] == be16_bytes(lo)[1]);
}

/// Reads the big-endian 16-bit number at `i`.
pub fn read_be16(b: &[u8], i: usize) -> (n: usize)
    requires
        i + 2 <= b.len(),
    ensures
        n == be16_at(b@, i as int),
        n < 65536,
{
    b[i] as usize * 256 + b[i + 1] as usize
}

/// Reads the big-endian 32-bit number at `i`.
pub fn read_be32(b: &[u8], i: usize) -> (n: usize)
    requires
        i + 4 <= b.len(),
    ensures
        n == be32_at(b@, i as int),
        n < 0x1_0000_0000,
{
    let hi: usize = read_be16(b, i);
    let lo: usize = read_be16(b, i + 2);
    hi * 65536 + lo
}

/// Appends `tail` to `v`.
pub fn append_bytes(v: &mut Vec<u8>, tail: &[u8])
    ensures
        final(v)@ == old(v)@ + tail@,
{
    v.extend_from_slice(tail);
    assert(v@ =~= old(v)@ + tail@);
}

/// Appends a 16-bit number, most significant byte first.
pub fn append_be16(v: &mut Vec<u8>, n: u16)
    ensures
        final(v)@ == old(v)@ + be16_bytes(n as int),
{
    v.push((n / 256) as u8);
    v.push((n % 256) as u8);
    assert(v@ =~= old(v)@ + be16_bytes(n as int));
}

/// Appends a 32-bit number, most significant byte first.
pub fn append_be32(v: &mut Vec<u8>, n: u32)
    ensures
        final(v)@ == old(v)@ + be32_bytes(n as int),
{
    append_be16(v, (n / 65536) as u16);
    append_be16(v, (n % 65536) as u16);
    assert(v@ =~= old(v)@ + be32_bytes(n as int));
}

/// Copies a slice into a vector.
pub fn copy_bytes(b: &[u8]) -> (v: Vec<u8>)
    ensures
        v@ == b@,
{
    let mut v: Vec<u8> = Vec::new();
    append_bytes(&mut v, b);
    assert(v@ =~= b@);
    v
}

/// Whether two byte strings are equal.
pub fn same_bytes(a: &[u8], b: &[u8]) -> (r: bool)
    ensures
        r == (a@ == b@),
{
    if a.len() != b.len() {
        return false;
    }
    let mut i: usize = 0;
    while i < a.len()
        invariant
            i <= a.len(),
            a.len() == b.len(),
            forall|k: int| 0 <= k < i ==> a@[k] == b@[k],
        decreases a.len() - i,
    {
        if a[i] != b[i] {
            return false;
        }
        i += 1;
    }
    assert(a@ =~= b@);
    true
}

/// Whether `b` begins with `prefix`.
pub fn bytes_start_with(b: &[u8], prefix: &[u8]) -> (r: bool)
    ensures
        r == begins_with(b@, prefix@),
{
    if b.len() < prefix.len() {
        return false;
    }
    same_bytes(&b[0..prefix.len()], prefix)
}

/// Replaces the range `start..end` of `v` by `insert`.
pub fn splice_bytes(v: &mut Vec<u8>, start: usize, end: usize, insert: &[u8])
    requires
        start <= end <= old(v).len(),
    ensures
        final(v)@ == spliced(old(v)@, start as int, end as int, insert@),
{
    let mut tail: Vec<u8> = v.split_off(end);
    v.truncate(start);
    append_bytes(v, insert);
    v.append(&mut tail);
    assert(v@ =~= spliced(old(v)@, start as int, end as int, insert@));
}

/// The byte strings one behind the other.
pub open spec fn flat(parts: Seq<Seq<u8>>) -> Seq<u8>
    decreases parts.len(),
{
    if parts.len() == 0 {
        Seq::empty()
    } else {
        flat(parts.drop_last()) + parts.last()
    }
}

/// Where the `k`th part begins.
pub open spec fn flat_start(parts: Seq<Seq<u8>>, k: int) -> int {
    flat(parts.take(k)).len() as int
}

/// One more part goes to the end.
pub proof fn lemma_flat_push(parts: Seq<Seq<u8>>, part: Seq<u8>)
    ensures
        flat(parts.push(part)) == flat(parts) + part,
{
    assert(parts.push(part).drop_last() =~= parts);
}

/// The `k`th part stands at its place.
pub proof fn lemma_flat_part(parts: Seq<Seq<u8>>, k: int)
    requires
        0 <= k < parts.len(),
    ensures
        0 <= flat_start(parts, k),
        flat_start(parts, k + 1) == flat_start(parts, k) + parts[k].len(),
        flat_start(parts, k + 1) <= flat(parts).len(),
        flat(parts).subrange(flat_start(parts, k), flat_start(parts, k + 1)) == parts[k],
    decreases parts.len(),
{
    let n = parts.len() as int;
    let init = parts.drop_last();
    assert(parts.take(k + 1).drop_last() =~= parts.take(k));
    assert(parts.take(k + 1).last() == parts[k]);
    if k == n - 1 {
        assert(parts.take(n) =~= parts);
        assert(parts.take(k) =~= init);
        assert(flat(parts).subrange(flat_start(parts, k), flat_start(parts, k + 1)) =~= parts[k]);
    } else {
        lemma_flat_part(init, k);
        assert(init.take(k) =~= parts.take(k));
        assert(init.take(k + 1) =~= parts.take(k + 1));
        assert(flat(parts).subrange(flat_start(parts, k), flat_start(parts, k + 1)) =~= flat(
            init,
        ).subrange(flat_start(parts, k), flat_start(parts, k + 1)));
    }
}

/// Position of the first zero byte at or after `from`.
pub open spec fn first_zero(b: Seq<u8>, from: int) -> Option<int>
    decreases b.len() - from,
{
    if from < 0 || from >= b.len() {
        None
    } else if b[from] == 0 {
        Some(from)
    } else {
        first_zero(b, from + 1)
    }
}

/// What `first_zero` means: the result is in range, holds a zero, and nothing before it does.
pub proof fn lemma_first_zero(b: Seq<u8>, from: int)
    requires
        0 <= from <= b.len(),
    ensures
        match first_zero(b, from) {
            Some(z) => from <= z < b.len() && b[z] == 0 && forall|k: int| from <= k < z ==> b[k] != 0,
            None => forall|k: int| from <= k < b.len() ==> b[k] != 0,
        },
    decreases b.len() - from,
{
    if from < b.len() && b[from] != 0 {
        lemma_first_zero(b, from + 1);
    }
}

/// Finds the first zero byte at or after `from`.
pub fn find_zero(b: &[u8], from: usize) -> (r: Option<usize>)
    requires
        from <= b.len(),
    ensures
        match r {
            Some(z) => first_zero(b@, from as int) == Some(z as int) && from <= z < b.len(),
            None => first_zero(b@, from as int) is None,
        },
{
    let mut i: usize = from;
    while i < b.len()
        invariant
            from <= i <= b.len(),
            first_zero(b@, from as int) == first_zero(b@, i as int),
        decreases b.len() - i,
    {
        if b[i] == 0 {
            return Some(i);
        }
        i += 1;
    }
    None
}

/// The little-endian 16-bit number at `i`.
pub open spec fn le16_at(b: Seq<u8>, i: int) -> int {
    b[i] + b[i + 1] * 256
}

/// The little-endian 32-bit number at `i`.
pub open spec fn le32_at(b: Seq<u8>, i: int) -> int {
    le16_at(b, i) + le16_at(b, i + 2) * 65536
}

/// `n` as four bytes, least significant first.
pub open spec fn le32_bytes(n: int) -> Seq<u8> {
    seq![(n % 256) as u8, (n / 256 % 256) as u8, (n / 65536 % 256) as u8, (n / 16777216 % 256) as u8]
}

/// Reading a number gives back what was written.
pub proof fn lemma_le32_round_trip(n: int)
    requires
        0 <= n < 0x1_0000_0000,
    ensures
        le32_bytes(n).len() == 4,
        le32_at(le32_bytes(n), 0) == n,
{
}

/// The little-endian 16-bit number at `i`.
pub fn read_le16(b: &[u8], i: usize) -> (n: u16)
    requires
        i + 2 <= b.len(),
    ensures
        n == le16_at(b@, i as int),
{
    b[i] as u16 + b[i + 1] as u16 * 256
}

/// The little-endian 32-bit number at `i`.
pub fn read_le32(b: &[u8], i: usize) -> (n: u32)
    requires
        i + 4 <= b.len(),
    ensures
        n == le32_at(b@, i as int),
{
    read_le16(b, i) as u32 + read_le16(b, i + 2) as u32 * 65536
}

/// Appends a number as four bytes, least significant first.
pub fn append_le32(v: &mut Vec<u8>, n: u32)
    ensures
        final(v)@ == old(v)@ + le32_bytes(n as int),
{
    v.push((n % 256) as u8);
    v.push((n / 256 % 256) as u8);
    v.push((n / 65536 % 256) as u8);
    v.push((n / 16777216 % 256) as u8);
    assert(v@ =~= old(v)@ + le32_bytes(n as int));
}

} // verus!
